//! Core identities: armies, teams, piece kinds, players, squares and moves.

use vstd::prelude::*;
use vstd::string::StringSliceAdditionalSpecFns;

verus! {

pub const ARMY_COUNT: usize = 4;

pub const TEAM_COUNT: usize = 2;

pub const PIECE_KIND_COUNT: usize = 6;

/// A board square, numbered 0..64 as rank * 8 + file.
pub type Square = u8;

/// One of the four movable forces; paired two-by-two into teams.
#[derive(Copy, Clone, Eq, PartialEq, Debug, Hash, Structural)]
pub enum Army {
    Blue,
    Black,
    Red,
    Yellow,
}

/// The two-army alliance; wins by eliminating both opposing kings.
#[derive(Copy, Clone, Eq, PartialEq, Debug, Hash, Structural)]
pub enum Team {
    Air,
    Earth,
}

/// The closed set of piece kinds.
#[derive(Copy, Clone, Eq, PartialEq, Debug, Hash, Structural)]
pub enum PieceKind {
    King,
    Queen,
    Bishop,
    Knight,
    Rook,
    Pawn,
}

/// Position of an army in the fixed enumeration order.
pub open spec fn army_index(a: Army) -> int {
    match a {
        Army::Blue => 0,
        Army::Black => 1,
        Army::Red => 2,
        Army::Yellow => 3,
    }
}

/// Position of a team in the fixed enumeration order.
pub open spec fn team_index(t: Team) -> int {
    match t {
        Team::Air => 0,
        Team::Earth => 1,
    }
}

/// Position of a piece kind in the fixed enumeration order.
pub open spec fn kind_index(k: PieceKind) -> int {
    match k {
        PieceKind::King => 0,
        PieceKind::Queen => 1,
        PieceKind::Bishop => 2,
        PieceKind::Knight => 3,
        PieceKind::Rook => 4,
        PieceKind::Pawn => 5,
    }
}

/// The team an army belongs to: the pairing is fixed for the process.
pub open spec fn army_team(a: Army) -> Team {
    match a {
        Army::Blue => Team::Air,
        Army::Black => Team::Air,
        Army::Red => Team::Earth,
        Army::Yellow => Team::Earth,
    }
}

/// The army at a given enumeration position.
pub open spec fn army_of_index(i: int) -> Army {
    if i == 0 {
        Army::Blue
    } else if i == 1 {
        Army::Black
    } else if i == 2 {
        Army::Red
    } else {
        Army::Yellow
    }
}

/// The piece kind at a given enumeration position.
pub open spec fn kind_of_index(i: int) -> PieceKind {
    if i == 0 {
        PieceKind::King
    } else if i == 1 {
        PieceKind::Queen
    } else if i == 2 {
        PieceKind::Bishop
    } else if i == 3 {
        PieceKind::Knight
    } else if i == 4 {
        PieceKind::Rook
    } else {
        PieceKind::Pawn
    }
}

/// A byte with ASCII upper-case letters folded to lower case.
pub open spec fn lower_byte(b: u8) -> u8 {
    if 65 <= b <= 90 {
        (b + 32) as u8
    } else {
        b
    }
}

/// Two byte strings are equal ignoring ASCII case.
pub open spec fn eq_ignore_case(s: Seq<u8>, t: Seq<u8>) -> bool {
    s.len() == t.len() && forall|i: int| 0 <= i < s.len() ==> lower_byte(#[trigger] s[i]) == lower_byte(t[i])
}

impl Army {
    /// Parses an army name, ignoring ASCII case.
    pub fn from_str(name: &str) -> (r: Option<Army>)
        ensures
            r == Some(Army::Blue) <==> eq_ignore_case(name.spec_bytes(), "blue".spec_bytes()),
            r == Some(Army::Black) <==> eq_ignore_case(name.spec_bytes(), "black".spec_bytes()),
            r == Some(Army::Red) <==> eq_ignore_case(name.spec_bytes(), "red".spec_bytes()),
            r == Some(Army::Yellow) <==> eq_ignore_case(name.spec_bytes(), "yellow".spec_bytes()),
            r is None <==> !(eq_ignore_case(name.spec_bytes(), "blue".spec_bytes())
                || eq_ignore_case(name.spec_bytes(), "black".spec_bytes()) || eq_ignore_case(
                name.spec_bytes(),
                "red".spec_bytes(),
            ) || eq_ignore_case(name.spec_bytes(), "yellow".spec_bytes())),
    {
        proof {
            reveal_strlit("blue");
            reveal_strlit("black");
            reveal_strlit("red");
            reveal_strlit("yellow");
            assert(vstd::string::is_ascii("blue"));
            assert(vstd::string::is_ascii("black"));
            assert(vstd::string::is_ascii("red"));
            assert(vstd::string::is_ascii("yellow"));
            vstd::string::is_ascii_spec_bytes("blue");
            vstd::string::is_ascii_spec_bytes("black");
            vstd::string::is_ascii_spec_bytes("red");
            vstd::string::is_ascii_spec_bytes("yellow");
            assert("blue".spec_bytes().len() == 4);
            assert("black".spec_bytes().len() == 5);
            assert("red".spec_bytes().len() == 3);
            assert("yellow".spec_bytes().len() == 6);
        }
        if crate::engine::arrays::str_eq_ignore_case(name, "blue") {
            Some(Army::Blue)
        } else if crate::engine::arrays::str_eq_ignore_case(name, "black") {
            Some(Army::Black)
        } else if crate::engine::arrays::str_eq_ignore_case(name, "red") {
            Some(Army::Red)
        } else if crate::engine::arrays::str_eq_ignore_case(name, "yellow") {
            Some(Army::Yellow)
        } else {
            None
        }
    }
}

impl Army {
    /// All four armies in enumeration order.
    pub fn all() -> (r: [Army; 4])
        ensures
            r@ == seq![Army::Blue, Army::Black, Army::Red, Army::Yellow],
    {
        let r = [Army::Blue, Army::Black, Army::Red, Army::Yellow];
        proof {
            assert(r@ =~= seq![Army::Blue, Army::Black, Army::Red, Army::Yellow]);
        }
        r
    }

    /// The army's position in enumeration order, for indexing per-army tables.
    pub fn index(self) -> (r: usize)
        ensures
            r == army_index(self),
    {
        match self {
            Army::Blue => 0,
            Army::Black => 1,
            Army::Red => 2,
            Army::Yellow => 3,
        }
    }

    /// The army at the given enumeration position.
    pub fn from_index(i: usize) -> (r: Army)
        requires
            i < 4,
        ensures
            r == army_of_index(i as int),
    {
        if i == 0 {
            Army::Blue
        } else if i == 1 {
            Army::Black
        } else if i == 2 {
            Army::Red
        } else {
            Army::Yellow
        }
    }

    /// The fixed team this army belongs to.
    pub fn team(self) -> (r: Team)
        ensures
            r == army_team(self),
    {
        match self {
            Army::Blue | Army::Black => Team::Air,
            Army::Red | Army::Yellow => Team::Earth,
        }
    }

    /// Sign of the army's forward direction along its axis of advance:
    /// ranks for Blue (north, +1) and Red (south, -1), files for Black
    /// (east, +1) and Yellow (west, -1).
    pub fn pawn_direction(self) -> (r: i8)
        ensures
            self == Army::Blue || self == Army::Black ==> r == 1,
            self == Army::Red || self == Army::Yellow ==> r == -1,
            r as int == crate::engine::moves::pawn_df(self) + crate::engine::moves::pawn_dr(self),
    {
        match self {
            Army::Blue => 1,
            Army::Red => -1,
            Army::Black => 1,
            Army::Yellow => -1,
        }
    }

    /// The army's display name.
    pub fn display_name(self) -> (r: &'static str)
        ensures
            self == Army::Blue ==> r@ == "Blue"@,
            self == Army::Black ==> r@ == "Black"@,
            self == Army::Red ==> r@ == "Red"@,
            self == Army::Yellow ==> r@ == "Yellow"@,
    {
        match self {
            Army::Blue => "Blue",
            Army::Black => "Black",
            Army::Red => "Red",
            Army::Yellow => "Yellow",
        }
    }
}

impl Team {
    /// Both teams in enumeration order.
    pub fn all() -> (r: [Team; 2])
        ensures
            r@ == seq![Team::Air, Team::Earth],
    {
        let r = [Team::Air, Team::Earth];
        proof {
            assert(r@ =~= seq![Team::Air, Team::Earth]);
        }
        r
    }

    /// The team's position in enumeration order.
    pub fn index(self) -> (r: usize)
        ensures
            r == team_index(self),
    {
        match self {
            Team::Air => 0,
            Team::Earth => 1,
        }
    }

    /// The team's display name.
    pub fn name(self) -> (r: &'static str)
        ensures
            self == Team::Air ==> r@ == "Air"@,
            self == Team::Earth ==> r@ == "Earth"@,
    {
        match self {
            Team::Air => "Air",
            Team::Earth => "Earth",
        }
    }

    /// The two armies of this team.
    pub fn armies(self) -> (r: [Army; 2])
        ensures
            self == Team::Air ==> r@ == seq![Army::Blue, Army::Black],
            self == Team::Earth ==> r@ == seq![Army::Red, Army::Yellow],
    {
        match self {
            Team::Air => {
                let r = [Army::Blue, Army::Black];
                proof {
                    assert(r@ =~= seq![Army::Blue, Army::Black]);
                }
                r
            },
            Team::Earth => {
                let r = [Army::Red, Army::Yellow];
                proof {
                    assert(r@ =~= seq![Army::Red, Army::Yellow]);
                }
                r
            },
        }
    }

    /// The opposing team.
    pub fn opponent(self) -> (r: Team)
        ensures
            r == spec_opponent(self),
    {
        match self {
            Team::Air => Team::Earth,
            Team::Earth => Team::Air,
        }
    }
}

/// The opposing team.
pub open spec fn spec_opponent(t: Team) -> Team {
    match t {
        Team::Air => Team::Earth,
        Team::Earth => Team::Air,
    }
}

impl PieceKind {
    /// All six piece kinds in enumeration order.
    pub fn all() -> (r: [PieceKind; 6])
        ensures
            r@ == seq![
                PieceKind::King,
                PieceKind::Queen,
                PieceKind::Bishop,
                PieceKind::Knight,
                PieceKind::Rook,
                PieceKind::Pawn,
            ],
    {
        let r = [
            PieceKind::King,
            PieceKind::Queen,
            PieceKind::Bishop,
            PieceKind::Knight,
            PieceKind::Rook,
            PieceKind::Pawn,
        ];
        proof {
            assert(r@ =~= seq![
                PieceKind::King,
                PieceKind::Queen,
                PieceKind::Bishop,
                PieceKind::Knight,
                PieceKind::Rook,
                PieceKind::Pawn,
            ]);
        }
        r
    }

    /// The kind's position in enumeration order, for indexing per-kind tables.
    pub fn index(self) -> (r: usize)
        ensures
            r == kind_index(self),
    {
        match self {
            PieceKind::King => 0,
            PieceKind::Queen => 1,
            PieceKind::Bishop => 2,
            PieceKind::Knight => 3,
            PieceKind::Rook => 4,
            PieceKind::Pawn => 5,
        }
    }

    /// The kind at the given enumeration position.
    pub fn from_index(i: usize) -> (r: PieceKind)
        requires
            i < 6,
        ensures
            r == kind_of_index(i as int),
    {
        if i == 0 {
            PieceKind::King
        } else if i == 1 {
            PieceKind::Queen
        } else if i == 2 {
            PieceKind::Bishop
        } else if i == 3 {
            PieceKind::Knight
        } else if i == 4 {
            PieceKind::Rook
        } else {
            PieceKind::Pawn
        }
    }

    /// The kind's display name.
    pub fn name(self) -> (r: &'static str)
        ensures
            self == PieceKind::King ==> r@ == "King"@,
            self == PieceKind::Queen ==> r@ == "Queen"@,
            self == PieceKind::Bishop ==> r@ == "Bishop"@,
            self == PieceKind::Knight ==> r@ == "Knight"@,
            self == PieceKind::Rook ==> r@ == "Rook"@,
            self == PieceKind::Pawn ==> r@ == "Pawn"@,
    {
        match self {
            PieceKind::King => "King",
            PieceKind::Queen => "Queen",
            PieceKind::Bishop => "Bishop",
            PieceKind::Knight => "Knight",
            PieceKind::Rook => "Rook",
            PieceKind::Pawn => "Pawn",
        }
    }
}

/// Identifier of a controlling side; armies answer to a player.
#[derive(Copy, Clone, Eq, PartialEq, Debug, Hash, Structural)]
pub struct PlayerId(pub u8);

impl PlayerId {
    /// Wraps a raw player number.
    pub fn new(id: u8) -> (r: PlayerId)
        ensures
            r.0 == id,
    {
        PlayerId(id)
    }

    /// The first of the two fixed controlling sides.
    pub fn player_one() -> (r: PlayerId)
        ensures
            r.0 == 0,
    {
        PlayerId(0)
    }

    /// The second of the two fixed controlling sides.
    pub fn player_two() -> (r: PlayerId)
        ensures
            r.0 == 1,
    {
        PlayerId(1)
    }
}

impl Default for PlayerId {
    /// Defaults to the first controlling side.
    fn default() -> (r: Self)
        ensures
            r.0 == 0,
    {
        PlayerId(0)
    }
}

/// A piece as placed on the board.
#[derive(Copy, Clone, Eq, PartialEq, Debug, Structural)]
pub struct Piece {
    pub army: Army,
    pub kind: PieceKind,
    pub pawn_type: Option<PieceKind>,
}

/// A move from one square to another, with an optional promotion request.
#[derive(Copy, Clone, Eq, PartialEq, Debug, Hash, Structural)]
pub struct Move {
    pub from: Square,
    pub to: Square,
    pub kind: PieceKind,
    pub promotion: Option<PieceKind>,
}

/// The file letter of a square, 'a' through 'h'.
pub open spec fn spec_file_char(square: u8) -> char {
    let f = square % 8;
    if f == 0 {
        'a'
    } else if f == 1 {
        'b'
    } else if f == 2 {
        'c'
    } else if f == 3 {
        'd'
    } else if f == 4 {
        'e'
    } else if f == 5 {
        'f'
    } else if f == 6 {
        'g'
    } else {
        'h'
    }
}

/// The rank digit of a square, '1' through '8', for squares below 64.
pub open spec fn spec_rank_char(square: u8) -> char {
    let r = square / 8;
    if r == 0 {
        '1'
    } else if r == 1 {
        '2'
    } else if r == 2 {
        '3'
    } else if r == 3 {
        '4'
    } else if r == 4 {
        '5'
    } else if r == 5 {
        '6'
    } else if r == 6 {
        '7'
    } else {
        '8'
    }
}

/// The file letter of a square as a one-character string slice.
pub fn file_str(square: Square) -> (r: &'static str)
    ensures
        r@ == seq![spec_file_char(square)],
{
    let f = square % 8;
    if f == 0 {
        proof {
            reveal_strlit("a");
            assert("a"@ =~= seq!['a']);
        }
        "a"
    } else if f == 1 {
        proof {
            reveal_strlit("b");
            assert("b"@ =~= seq!['b']);
        }
        "b"
    } else if f == 2 {
        proof {
            reveal_strlit("c");
            assert("c"@ =~= seq!['c']);
        }
        "c"
    } else if f == 3 {
        proof {
            reveal_strlit("d");
            assert("d"@ =~= seq!['d']);
        }
        "d"
    } else if f == 4 {
        proof {
            reveal_strlit("e");
            assert("e"@ =~= seq!['e']);
        }
        "e"
    } else if f == 5 {
        proof {
            reveal_strlit("f");
            assert("f"@ =~= seq!['f']);
        }
        "f"
    } else if f == 6 {
        proof {
            reveal_strlit("g");
            assert("g"@ =~= seq!['g']);
        }
        "g"
    } else {
        proof {
            reveal_strlit("h");
            assert("h"@ =~= seq!['h']);
        }
        "h"
    }
}

/// The rank digit of a square as a one-character string slice.
pub fn rank_str(square: Square) -> (r: &'static str)
    requires
        square < 64,
    ensures
        r@ == seq![spec_rank_char(square)],
{
    let r = square / 8;
    if r == 0 {
        proof {
            reveal_strlit("1");
            assert("1"@ =~= seq!['1']);
        }
        "1"
    } else if r == 1 {
        proof {
            reveal_strlit("2");
            assert("2"@ =~= seq!['2']);
        }
        "2"
    } else if r == 2 {
        proof {
            reveal_strlit("3");
            assert("3"@ =~= seq!['3']);
        }
        "3"
    } else if r == 3 {
        proof {
            reveal_strlit("4");
            assert("4"@ =~= seq!['4']);
        }
        "4"
    } else if r == 4 {
        proof {
            reveal_strlit("5");
            assert("5"@ =~= seq!['5']);
        }
        "5"
    } else if r == 5 {
        proof {
            reveal_strlit("6");
            assert("6"@ =~= seq!['6']);
        }
        "6"
    } else if r == 6 {
        proof {
            reveal_strlit("7");
            assert("7"@ =~= seq!['7']);
        }
        "7"
    } else {
        proof {
            reveal_strlit("8");
            assert("8"@ =~= seq!['8']);
        }
        "8"
    }
}

/// The file letter of a square, 'a' through 'h'.
pub fn file_char(square: Square) -> (r: char)
    ensures
        r == spec_file_char(square),
{
    let f = square % 8;
    if f == 0 {
        'a'
    } else if f == 1 {
        'b'
    } else if f == 2 {
        'c'
    } else if f == 3 {
        'd'
    } else if f == 4 {
        'e'
    } else if f == 5 {
        'f'
    } else if f == 6 {
        'g'
    } else {
        'h'
    }
}

/// The rank digit of a square, '1' through '8', for squares below 64.
pub fn rank_char(square: Square) -> (r: char)
    requires
        square < 64,
    ensures
        r == spec_rank_char(square),
{
    let r = square / 8;
    if r == 0 {
        '1'
    } else if r == 1 {
        '2'
    } else if r == 2 {
        '3'
    } else if r == 3 {
        '4'
    } else if r == 4 {
        '5'
    } else if r == 5 {
        '6'
    } else if r == 6 {
        '7'
    } else {
        '8'
    }
}

} // verus!
