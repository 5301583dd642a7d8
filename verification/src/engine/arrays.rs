//! The starting-position catalog: declarative per-army piece placements,
//! turn orders and controller assignments the game is constructed from.
//!
//! Blue and Red field full rows on their home ranks; the two file-marching
//! armies field a reduced column of rook, queen, king and bishop with four
//! pawns, so that the four armies' placements cover distinct squares, as
//! the board's occupancy invariant requires.

use vstd::prelude::*;
use vstd::string::StringSliceAdditionalSpecFns;

use crate::engine::bits::{group_bits, sq_bit};
use crate::engine::board::{
    default_promotion_zones, mask_of, placed_mask, synced, ArmyState, Board,
};
use crate::engine::types::{
    army_index, army_of_index, eq_ignore_case, Army, Piece, PieceKind, PlayerId, Square,
};

verus! {

broadcast use group_bits;

/// One catalog entry: a named starting array.
#[derive(Debug, Clone)]
pub struct ArraySpec {
    pub name: &'static str,
    pub description: &'static str,
    pub turn_order: [Army; 4],
    pub controller_map: [PlayerId; 4],
    pub throne_squares: [[Square; 2]; 4],
    pub promotion_zones: [u64; 4],
    pub placements: Vec<(Army, PieceKind, u64)>,
}

/// The mask a placement list gives one (army, kind) pair: the union of
/// every matching entry's bits.
pub open spec fn catalog_mask(pl: Seq<(Army, PieceKind, u64)>, a: Army, k: PieceKind) -> u64
    decreases pl.len(),
{
    if pl.len() == 0 {
        0u64
    } else {
        let lst = pl.last();
        if lst.0 == a && lst.1 == k {
            catalog_mask(pl.drop_last(), a, k) | lst.2
        } else {
            catalog_mask(pl.drop_last(), a, k)
        }
    }
}

impl ArraySpec {
    /// The army metadata this array starts with: every army unfrozen, on
    /// its listed throne pair, answering to its listed controller.
    pub fn army_states(&self) -> (r: [ArmyState; 4])
        ensures
            forall|i: int|
                0 <= i < 4 ==> #[trigger] r[i] == (ArmyState {
                    army: army_of_index(i),
                    throne_squares: self.throne_squares[i],
                    controller: self.controller_map[i],
                    is_frozen: false,
                }),
    {
        let r = [
            ArmyState::new(Army::Blue, self.throne_squares[0], self.controller_map[0]),
            ArmyState::new(Army::Black, self.throne_squares[1], self.controller_map[1]),
            ArmyState::new(Army::Red, self.throne_squares[2], self.controller_map[2]),
            ArmyState::new(Army::Yellow, self.throne_squares[3], self.controller_map[3]),
        ];
        r
    }

    /// Expands each placement mask into one entry per occupied square; the
    /// expansion leaves every (army, kind) pair the same union of bits.
    fn expand_placements(&self) -> (r: Vec<(Army, Piece, u64)>)
        ensures
            forall|a: Army, k: PieceKind| #[trigger] placed_mask(r@, a, k) == catalog_mask(
                self.placements@,
                a,
                k,
            ),
    {
        let mut pieces: Vec<(Army, Piece, u64)> = Vec::new();
        let n = self.placements.len();
        let mut i: usize = 0;
        proof {
            assert(self.placements@.take(0) =~= Seq::<(Army, PieceKind, u64)>::empty());
        }
        while i < n
            invariant
                i <= n,
                n == self.placements@.len(),
                forall|a: Army, k: PieceKind| #[trigger] placed_mask(pieces@, a, k)
                    == catalog_mask(self.placements@.take(i as int), a, k),
            decreases n - i,
        {
            let (army, kind, bitboard) = self.placements[i];
            let ghost mut acc: u64 = 0;
            let mut s: u64 = 0;
            while s < 64
                invariant
                    s <= 64,
                    i < n,
                    n == self.placements@.len(),
                    self.placements@[i as int] == (army, kind, bitboard),
                    forall|j: u64|
                        j < 64 ==> (#[trigger] sq_bit(acc, j) <==> (j < s && sq_bit(bitboard, j))),
                    forall|a: Army, k: PieceKind, j: u64|
                        j < 64 ==> (#[trigger] sq_bit(placed_mask(pieces@, a, k), j) <==> (sq_bit(
                            catalog_mask(self.placements@.take(i as int), a, k),
                            j,
                        ) || (a == army && k == kind && sq_bit(acc, j)))),
                decreases 64 - s,
            {
                proof {
                    crate::engine::bits::lemma_bit_is_01(bitboard, s);
                }
                if (bitboard >> s) & 1u64 == 1u64 {
                    let ghost pre = pieces@;
                    pieces.push((army, Piece { army, kind, pawn_type: None }, 1u64 << s));
                    proof {
                        assert(pieces@.drop_last() =~= pre);
                        assert(pieces@.last() == (
                            army,
                            Piece { army, kind, pawn_type: None },
                            1u64 << s,
                        ));
                        acc = acc | (1u64 << s);
                        assert forall|a: Army, k: PieceKind|
                            #[trigger] placed_mask(pieces@, a, k) == (if a == army && k == kind {
                                placed_mask(pre, a, k) | (1u64 << s)
                            } else {
                                placed_mask(pre, a, k)
                            }) by {}
                    }
                }
                s = s + 1;
            }
            proof {
                crate::engine::bits::lemma_bit_ext(acc, bitboard);
                assert(self.placements@.take(i as int + 1).drop_last() =~= self.placements@.take(
                    i as int,
                ));
                assert(self.placements@.take(i as int + 1).last() == self.placements@[i as int]);
                assert forall|a: Army, k: PieceKind| #[trigger] placed_mask(pieces@, a, k)
                    == catalog_mask(self.placements@.take(i as int + 1), a, k) by {
                    if a == army && k == kind {
                        assert(catalog_mask(self.placements@.take(i as int + 1), a, k)
                            == catalog_mask(self.placements@.take(i as int), a, k) | bitboard);
                        assert forall|j: u64|
                            j < 64 implies (sq_bit(placed_mask(pieces@, a, k), j) <==> sq_bit(
                            catalog_mask(self.placements@.take(i as int), a, k) | bitboard,
                            j,
                        )) by {
                            assert(sq_bit(placed_mask(pieces@, a, k), j) <==> (sq_bit(
                                catalog_mask(self.placements@.take(i as int), a, k),
                                j,
                            ) || sq_bit(acc, j)));
                            assert(sq_bit(acc, j) == sq_bit(bitboard, j));
                        }
                        crate::engine::bits::lemma_bit_ext(
                            placed_mask(pieces@, a, k),
                            catalog_mask(self.placements@.take(i as int), a, k) | bitboard,
                        );
                    } else {
                        assert(catalog_mask(self.placements@.take(i as int + 1), a, k)
                            == catalog_mask(self.placements@.take(i as int), a, k));
                        assert forall|j: u64|
                            j < 64 implies (sq_bit(placed_mask(pieces@, a, k), j) <==> sq_bit(
                            catalog_mask(self.placements@.take(i as int), a, k),
                            j,
                        )) by {
                            assert(sq_bit(placed_mask(pieces@, a, k), j) <==> (sq_bit(
                                catalog_mask(self.placements@.take(i as int), a, k),
                                j,
                            ) || (a == army && k == kind && sq_bit(acc, j))));
                        }
                        crate::engine::bits::lemma_bit_ext(
                            placed_mask(pieces@, a, k),
                            catalog_mask(self.placements@.take(i as int), a, k),
                        );
                    }
                }
            }
            i = i + 1;
        }
        proof {
            assert(self.placements@.take(n as int) =~= self.placements@);
        }
        pieces
    }

    /// Builds the array's starting board: each (army, kind) mask is the
    /// union of the entry's placements for that pair, under this array's
    /// metadata and promotion zones, with derived occupancy computed.
    pub fn board(&self) -> (r: Board)
        ensures
            synced(r),
            forall|a: Army, k: PieceKind| #[trigger] mask_of(r, a, k) == catalog_mask(
                self.placements@,
                a,
                k,
            ),
            forall|i: int|
                0 <= i < 4 ==> #[trigger] r.armies[i] == (ArmyState {
                    army: army_of_index(i),
                    throne_squares: self.throne_squares[i],
                    controller: self.controller_map[i],
                    is_frozen: false,
                }),
            r.promotion_zones == self.promotion_zones,
    {
        let placements = self.expand_placements();
        Board::with_state(placements.as_slice(), self.army_states(), self.promotion_zones)
    }
}

/// The prototype array's placement list, entry by entry.
pub open spec fn fire_placements() -> Seq<(Army, PieceKind, u64)> {
    seq![
        (Army::Blue, PieceKind::Rook, 0x81u64),
        (Army::Blue, PieceKind::Knight, 0x42u64),
        (Army::Blue, PieceKind::Bishop, 0x24u64),
        (Army::Blue, PieceKind::Queen, 0x08u64),
        (Army::Blue, PieceKind::King, 0x10u64),
        (Army::Blue, PieceKind::Pawn, 0xFF00u64),
        (Army::Red, PieceKind::Rook, 0x8100_0000_0000_0000u64),
        (Army::Red, PieceKind::Knight, 0x4200_0000_0000_0000u64),
        (Army::Red, PieceKind::Bishop, 0x2400_0000_0000_0000u64),
        (Army::Red, PieceKind::Queen, 0x0800_0000_0000_0000u64),
        (Army::Red, PieceKind::King, 0x1000_0000_0000_0000u64),
        (Army::Red, PieceKind::Pawn, 0x00FF_0000_0000_0000u64),
        (Army::Black, PieceKind::Rook, 0x0000_0000_0001_0000u64),
        (Army::Black, PieceKind::Queen, 0x0000_0000_0100_0000u64),
        (Army::Black, PieceKind::King, 0x0000_0001_0000_0000u64),
        (Army::Black, PieceKind::Bishop, 0x0000_0100_0000_0000u64),
        (Army::Black, PieceKind::Pawn, 0x0000_0202_0202_0000u64),
        (Army::Yellow, PieceKind::Rook, 0x0000_0000_0080_0000u64),
        (Army::Yellow, PieceKind::Queen, 0x0000_0000_8000_0000u64),
        (Army::Yellow, PieceKind::King, 0x0000_0080_0000_0000u64),
        (Army::Yellow, PieceKind::Bishop, 0x0000_8000_0000_0000u64),
        (Army::Yellow, PieceKind::Pawn, 0x0000_4040_4040_0000u64),
    ]
}

/// The mask each (army, kind) pair holds in the prototype array.
pub open spec fn fire_mask(a: Army, k: PieceKind) -> u64 {
    match (a, k) {
        (Army::Blue, PieceKind::Rook) => 0x81u64,
        (Army::Blue, PieceKind::Knight) => 0x42u64,
        (Army::Blue, PieceKind::Bishop) => 0x24u64,
        (Army::Blue, PieceKind::Queen) => 0x08u64,
        (Army::Blue, PieceKind::King) => 0x10u64,
        (Army::Blue, PieceKind::Pawn) => 0xFF00u64,
        (Army::Red, PieceKind::Rook) => 0x8100_0000_0000_0000u64,
        (Army::Red, PieceKind::Knight) => 0x4200_0000_0000_0000u64,
        (Army::Red, PieceKind::Bishop) => 0x2400_0000_0000_0000u64,
        (Army::Red, PieceKind::Queen) => 0x0800_0000_0000_0000u64,
        (Army::Red, PieceKind::King) => 0x1000_0000_0000_0000u64,
        (Army::Red, PieceKind::Pawn) => 0x00FF_0000_0000_0000u64,
        (Army::Black, PieceKind::Rook) => 0x0000_0000_0001_0000u64,
        (Army::Black, PieceKind::Queen) => 0x0000_0000_0100_0000u64,
        (Army::Black, PieceKind::King) => 0x0000_0001_0000_0000u64,
        (Army::Black, PieceKind::Bishop) => 0x0000_0100_0000_0000u64,
        (Army::Black, PieceKind::Pawn) => 0x0000_0202_0202_0000u64,
        (Army::Yellow, PieceKind::Rook) => 0x0000_0000_0080_0000u64,
        (Army::Yellow, PieceKind::Queen) => 0x0000_0000_8000_0000u64,
        (Army::Yellow, PieceKind::King) => 0x0000_0080_0000_0000u64,
        (Army::Yellow, PieceKind::Bishop) => 0x0000_8000_0000_0000u64,
        (Army::Yellow, PieceKind::Pawn) => 0x0000_4040_4040_0000u64,
        _ => 0u64,
    }
}

/// Where a pair's entry stands in the prototype placement list, or -1 for
/// the pairs the array does not field.
pub open spec fn fire_entry_pos(a: Army, k: PieceKind) -> int {
    match (a, k) {
        (Army::Blue, PieceKind::Rook) => 0,
        (Army::Blue, PieceKind::Knight) => 1,
        (Army::Blue, PieceKind::Bishop) => 2,
        (Army::Blue, PieceKind::Queen) => 3,
        (Army::Blue, PieceKind::King) => 4,
        (Army::Blue, PieceKind::Pawn) => 5,
        (Army::Red, PieceKind::Rook) => 6,
        (Army::Red, PieceKind::Knight) => 7,
        (Army::Red, PieceKind::Bishop) => 8,
        (Army::Red, PieceKind::Queen) => 9,
        (Army::Red, PieceKind::King) => 10,
        (Army::Red, PieceKind::Pawn) => 11,
        (Army::Black, PieceKind::Rook) => 12,
        (Army::Black, PieceKind::Queen) => 13,
        (Army::Black, PieceKind::King) => 14,
        (Army::Black, PieceKind::Bishop) => 15,
        (Army::Black, PieceKind::Pawn) => 16,
        (Army::Yellow, PieceKind::Rook) => 17,
        (Army::Yellow, PieceKind::Queen) => 18,
        (Army::Yellow, PieceKind::King) => 19,
        (Army::Yellow, PieceKind::Bishop) => 20,
        (Army::Yellow, PieceKind::Pawn) => 21,
        _ => -1,
    }
}

/// Which squares each prototype mask holds, bit by bit.
pub proof fn lemma_fire_mask_bits()
    by (bit_vector)
    ensures
        forall|s: u64| s < 64 ==> (sq_bit(0x81u64, s) <==> (s == 0 || s == 7)),
        forall|s: u64| s < 64 ==> (sq_bit(0x42u64, s) <==> (s == 1 || s == 6)),
        forall|s: u64| s < 64 ==> (sq_bit(0x24u64, s) <==> (s == 2 || s == 5)),
        forall|s: u64| s < 64 ==> (sq_bit(0x08u64, s) <==> s == 3),
        forall|s: u64| s < 64 ==> (sq_bit(0x10u64, s) <==> s == 4),
        forall|s: u64| s < 64 ==> (sq_bit(0xFF00u64, s) <==> (8 <= s && s < 16)),
        forall|s: u64|
            s < 64 ==> (sq_bit(0x8100_0000_0000_0000u64, s) <==> (s == 56 || s == 63)),
        forall|s: u64|
            s < 64 ==> (sq_bit(0x4200_0000_0000_0000u64, s) <==> (s == 57 || s == 62)),
        forall|s: u64|
            s < 64 ==> (sq_bit(0x2400_0000_0000_0000u64, s) <==> (s == 58 || s == 61)),
        forall|s: u64| s < 64 ==> (sq_bit(0x0800_0000_0000_0000u64, s) <==> s == 59),
        forall|s: u64| s < 64 ==> (sq_bit(0x1000_0000_0000_0000u64, s) <==> s == 60),
        forall|s: u64|
            s < 64 ==> (sq_bit(0x00FF_0000_0000_0000u64, s) <==> (48 <= s && s < 56)),
        forall|s: u64| s < 64 ==> (sq_bit(0x0000_0000_0001_0000u64, s) <==> s == 16),
        forall|s: u64| s < 64 ==> (sq_bit(0x0000_0000_0100_0000u64, s) <==> s == 24),
        forall|s: u64| s < 64 ==> (sq_bit(0x0000_0001_0000_0000u64, s) <==> s == 32),
        forall|s: u64| s < 64 ==> (sq_bit(0x0000_0100_0000_0000u64, s) <==> s == 40),
        forall|s: u64|
            s < 64 ==> (sq_bit(0x0000_0202_0202_0000u64, s) <==> (s == 17 || s == 25 || s == 33
                || s == 41)),
        forall|s: u64| s < 64 ==> (sq_bit(0x0000_0000_0080_0000u64, s) <==> s == 23),
        forall|s: u64| s < 64 ==> (sq_bit(0x0000_0000_8000_0000u64, s) <==> s == 31),
        forall|s: u64| s < 64 ==> (sq_bit(0x0000_0080_0000_0000u64, s) <==> s == 39),
        forall|s: u64| s < 64 ==> (sq_bit(0x0000_8000_0000_0000u64, s) <==> s == 47),
        forall|s: u64|
            s < 64 ==> (sq_bit(0x0000_4040_4040_0000u64, s) <==> (s == 22 || s == 30 || s == 38
                || s == 46)),
{
}


/// Each fielded pair's list entry carries exactly that pair and its mask.
proof fn lemma_fire_pos_entry(a: Army, k: PieceKind)
    requires
        0 <= fire_entry_pos(a, k),
    ensures
        fire_placements()[fire_entry_pos(a, k)] == (a, k, fire_mask(a, k)),
{
    match (a, k) {
        (Army::Blue, PieceKind::Rook) => {
            assert(fire_placements()[0] == (Army::Blue, PieceKind::Rook, 0x81u64));
        },
        (Army::Blue, PieceKind::Knight) => {
            assert(fire_placements()[1] == (Army::Blue, PieceKind::Knight, 0x42u64));
        },
        (Army::Blue, PieceKind::Bishop) => {
            assert(fire_placements()[2] == (Army::Blue, PieceKind::Bishop, 0x24u64));
        },
        (Army::Blue, PieceKind::Queen) => {
            assert(fire_placements()[3] == (Army::Blue, PieceKind::Queen, 0x08u64));
        },
        (Army::Blue, PieceKind::King) => {
            assert(fire_placements()[4] == (Army::Blue, PieceKind::King, 0x10u64));
        },
        (Army::Blue, PieceKind::Pawn) => {
            assert(fire_placements()[5] == (Army::Blue, PieceKind::Pawn, 0xFF00u64));
        },
        (Army::Red, PieceKind::Rook) => {
            assert(fire_placements()[6] == (Army::Red, PieceKind::Rook, 0x8100_0000_0000_0000u64));
        },
        (Army::Red, PieceKind::Knight) => {
            assert(fire_placements()[7] == (Army::Red, PieceKind::Knight, 0x4200_0000_0000_0000u64));
        },
        (Army::Red, PieceKind::Bishop) => {
            assert(fire_placements()[8] == (Army::Red, PieceKind::Bishop, 0x2400_0000_0000_0000u64));
        },
        (Army::Red, PieceKind::Queen) => {
            assert(fire_placements()[9] == (Army::Red, PieceKind::Queen, 0x0800_0000_0000_0000u64));
        },
        (Army::Red, PieceKind::King) => {
            assert(fire_placements()[10] == (Army::Red, PieceKind::King, 0x1000_0000_0000_0000u64));
        },
        (Army::Red, PieceKind::Pawn) => {
            assert(fire_placements()[11] == (Army::Red, PieceKind::Pawn, 0x00FF_0000_0000_0000u64));
        },
        (Army::Black, PieceKind::Rook) => {
            assert(fire_placements()[12] == (Army::Black, PieceKind::Rook, 0x0000_0000_0001_0000u64));
        },
        (Army::Black, PieceKind::Queen) => {
            assert(fire_placements()[13] == (Army::Black, PieceKind::Queen, 0x0000_0000_0100_0000u64));
        },
        (Army::Black, PieceKind::King) => {
            assert(fire_placements()[14] == (Army::Black, PieceKind::King, 0x0000_0001_0000_0000u64));
        },
        (Army::Black, PieceKind::Bishop) => {
            assert(fire_placements()[15] == (Army::Black, PieceKind::Bishop, 0x0000_0100_0000_0000u64));
        },
        (Army::Black, PieceKind::Pawn) => {
            assert(fire_placements()[16] == (Army::Black, PieceKind::Pawn, 0x0000_0202_0202_0000u64));
        },
        (Army::Yellow, PieceKind::Rook) => {
            assert(fire_placements()[17] == (Army::Yellow, PieceKind::Rook, 0x0000_0000_0080_0000u64));
        },
        (Army::Yellow, PieceKind::Queen) => {
            assert(fire_placements()[18] == (Army::Yellow, PieceKind::Queen, 0x0000_0000_8000_0000u64));
        },
        (Army::Yellow, PieceKind::King) => {
            assert(fire_placements()[19] == (Army::Yellow, PieceKind::King, 0x0000_0080_0000_0000u64));
        },
        (Army::Yellow, PieceKind::Bishop) => {
            assert(fire_placements()[20] == (Army::Yellow, PieceKind::Bishop, 0x0000_8000_0000_0000u64));
        },
        (Army::Yellow, PieceKind::Pawn) => {
            assert(fire_placements()[21] == (Army::Yellow, PieceKind::Pawn, 0x0000_4040_4040_0000u64));
        },
        _ => {
            assert(false);
        },
    }
}

/// The union a prefix of the prototype list gives a pair: its entry's
/// mask once the prefix has passed it, nothing before.
proof fn lemma_fire_prefix(i: int, a: Army, k: PieceKind)
    requires
        0 <= i <= 22,
    ensures
        catalog_mask(fire_placements().take(i), a, k) == (if 0 <= fire_entry_pos(a, k)
            < i {
            fire_mask(a, k)
        } else {
            0u64
        }),
    decreases i,
{
    let s = fire_placements();
    assert(s.len() == 22);
    if i == 0 {
        assert(s.take(0).len() == 0);
        assert(catalog_mask(s.take(0), a, k) == 0u64);
        assert(!(0 <= fire_entry_pos(a, k) < 0));
    } else {
        lemma_fire_prefix(i - 1, a, k);
        assert(s.take(i).len() == i);
        assert(s.take(i).drop_last() =~= s.take(i - 1));
        assert(s.take(i).last() == s[i - 1]);
        if i == 1 {
            assert(s[0] == (Army::Blue, PieceKind::Rook, 0x81u64));
        } else if i == 2 {
            assert(s[1] == (Army::Blue, PieceKind::Knight, 0x42u64));
        } else if i == 3 {
            assert(s[2] == (Army::Blue, PieceKind::Bishop, 0x24u64));
        } else if i == 4 {
            assert(s[3] == (Army::Blue, PieceKind::Queen, 0x08u64));
        } else if i == 5 {
            assert(s[4] == (Army::Blue, PieceKind::King, 0x10u64));
        } else if i == 6 {
            assert(s[5] == (Army::Blue, PieceKind::Pawn, 0xFF00u64));
        } else if i == 7 {
            assert(s[6] == (Army::Red, PieceKind::Rook, 0x8100_0000_0000_0000u64));
        } else if i == 8 {
            assert(s[7] == (Army::Red, PieceKind::Knight, 0x4200_0000_0000_0000u64));
        } else if i == 9 {
            assert(s[8] == (Army::Red, PieceKind::Bishop, 0x2400_0000_0000_0000u64));
        } else if i == 10 {
            assert(s[9] == (Army::Red, PieceKind::Queen, 0x0800_0000_0000_0000u64));
        } else if i == 11 {
            assert(s[10] == (Army::Red, PieceKind::King, 0x1000_0000_0000_0000u64));
        } else if i == 12 {
            assert(s[11] == (Army::Red, PieceKind::Pawn, 0x00FF_0000_0000_0000u64));
        } else if i == 13 {
            assert(s[12] == (Army::Black, PieceKind::Rook, 0x0000_0000_0001_0000u64));
        } else if i == 14 {
            assert(s[13] == (Army::Black, PieceKind::Queen, 0x0000_0000_0100_0000u64));
        } else if i == 15 {
            assert(s[14] == (Army::Black, PieceKind::King, 0x0000_0001_0000_0000u64));
        } else if i == 16 {
            assert(s[15] == (Army::Black, PieceKind::Bishop, 0x0000_0100_0000_0000u64));
        } else if i == 17 {
            assert(s[16] == (Army::Black, PieceKind::Pawn, 0x0000_0202_0202_0000u64));
        } else if i == 18 {
            assert(s[17] == (Army::Yellow, PieceKind::Rook, 0x0000_0000_0080_0000u64));
        } else if i == 19 {
            assert(s[18] == (Army::Yellow, PieceKind::Queen, 0x0000_0000_8000_0000u64));
        } else if i == 20 {
            assert(s[19] == (Army::Yellow, PieceKind::King, 0x0000_0080_0000_0000u64));
        } else if i == 21 {
            assert(s[20] == (Army::Yellow, PieceKind::Bishop, 0x0000_8000_0000_0000u64));
        } else if i == 22 {
            assert(s[21] == (Army::Yellow, PieceKind::Pawn, 0x0000_4040_4040_0000u64));
        }
        if s[i - 1].0 == a && s[i - 1].1 == k {
            assert(fire_entry_pos(a, k) == i - 1);
            assert(s[i - 1].2 == fire_mask(a, k));
            assert(catalog_mask(s.take(i), a, k) == catalog_mask(s.take(i - 1), a, k) | s[i
                - 1].2);
            assert(catalog_mask(s.take(i - 1), a, k) == 0u64);
            assert(catalog_mask(s.take(i), a, k) == 0u64 | fire_mask(a, k));
            crate::engine::bits::lemma_or_zero(fire_mask(a, k));
            assert(catalog_mask(s.take(i), a, k) == fire_mask(a, k));
        } else {
            assert(fire_entry_pos(a, k) != i - 1) by {
                if fire_entry_pos(a, k) == i - 1 {
                    lemma_fire_pos_entry(a, k);
                    assert(s[i - 1] == (a, k, fire_mask(a, k)));
                }
            }
        }
    }
}

/// The prototype placement list gives each pair exactly its table mask.
pub proof fn lemma_fire_catalog()
    ensures
        forall|a: Army, k: PieceKind| #[trigger] catalog_mask(fire_placements(), a, k)
            == fire_mask(a, k),
{
    assert forall|a: Army, k: PieceKind| #[trigger] catalog_mask(fire_placements(), a, k)
        == fire_mask(a, k) by {
        lemma_fire_prefix(22, a, k);
        assert(fire_placements().take(22) =~= fire_placements());
        if !(0 <= fire_entry_pos(a, k) < 22) {
            assert(fire_mask(a, k) == 0u64);
        }
    }
}

/// Which squares each (army, kind) pair holds in the prototype array.
pub open spec fn fire_has(a: Army, k: PieceKind, s: u64) -> bool {
    match (a, k) {
        (Army::Blue, PieceKind::Rook) => s == 0 || s == 7,
        (Army::Blue, PieceKind::Knight) => s == 1 || s == 6,
        (Army::Blue, PieceKind::Bishop) => s == 2 || s == 5,
        (Army::Blue, PieceKind::Queen) => s == 3,
        (Army::Blue, PieceKind::King) => s == 4,
        (Army::Blue, PieceKind::Pawn) => 8 <= s && s < 16,
        (Army::Red, PieceKind::Rook) => s == 56 || s == 63,
        (Army::Red, PieceKind::Knight) => s == 57 || s == 62,
        (Army::Red, PieceKind::Bishop) => s == 58 || s == 61,
        (Army::Red, PieceKind::Queen) => s == 59,
        (Army::Red, PieceKind::King) => s == 60,
        (Army::Red, PieceKind::Pawn) => 48 <= s && s < 56,
        (Army::Black, PieceKind::Rook) => s == 16,
        (Army::Black, PieceKind::Queen) => s == 24,
        (Army::Black, PieceKind::King) => s == 32,
        (Army::Black, PieceKind::Bishop) => s == 40,
        (Army::Black, PieceKind::Pawn) => s == 17 || s == 25 || s == 33 || s == 41,
        (Army::Yellow, PieceKind::Rook) => s == 23,
        (Army::Yellow, PieceKind::Queen) => s == 31,
        (Army::Yellow, PieceKind::King) => s == 39,
        (Army::Yellow, PieceKind::Bishop) => s == 47,
        (Army::Yellow, PieceKind::Pawn) => s == 22 || s == 30 || s == 38 || s == 46,
        _ => false,
    }
}

/// A prototype mask's bits are exactly its pair's squares.
pub proof fn lemma_fire_bits(a: Army, k: PieceKind)
    ensures
        forall|s: u64| s < 64 ==> (#[trigger] sq_bit(fire_mask(a, k), s) <==> fire_has(a, k, s)),
{
    lemma_fire_mask_bits();
    match (a, k) {
        (Army::Blue, PieceKind::Rook) => {},
        (Army::Blue, PieceKind::Knight) => {},
        (Army::Blue, PieceKind::Bishop) => {},
        (Army::Blue, PieceKind::Queen) => {},
        (Army::Blue, PieceKind::King) => {},
        (Army::Blue, PieceKind::Pawn) => {},
        (Army::Red, PieceKind::Rook) => {},
        (Army::Red, PieceKind::Knight) => {},
        (Army::Red, PieceKind::Bishop) => {},
        (Army::Red, PieceKind::Queen) => {},
        (Army::Red, PieceKind::King) => {},
        (Army::Red, PieceKind::Pawn) => {},
        (Army::Black, PieceKind::Rook) => {},
        (Army::Black, PieceKind::Queen) => {},
        (Army::Black, PieceKind::King) => {},
        (Army::Black, PieceKind::Bishop) => {},
        (Army::Black, PieceKind::Pawn) => {},
        (Army::Yellow, PieceKind::Rook) => {},
        (Army::Yellow, PieceKind::Queen) => {},
        (Army::Yellow, PieceKind::King) => {},
        (Army::Yellow, PieceKind::Bishop) => {},
        (Army::Yellow, PieceKind::Pawn) => {},
        _ => {
            assert forall|s: u64| s < 64 implies !sq_bit(fire_mask(a, k), s) by {}
        },
    }
}

/// Distinct (army, kind) pairs hold distinct squares in the prototype.
#[verifier::rlimit(100)]
pub proof fn lemma_fire_disjoint()
    ensures
        forall|a1: Army, k1: PieceKind, a2: Army, k2: PieceKind, s: u64|
            #![trigger sq_bit(fire_mask(a1, k1), s), sq_bit(fire_mask(a2, k2), s)]
            s < 64 && (a1 != a2 || k1 != k2) ==> !(sq_bit(fire_mask(a1, k1), s) && sq_bit(
                fire_mask(a2, k2),
                s,
            )),
{
    assert forall|a1: Army, k1: PieceKind, a2: Army, k2: PieceKind, s: u64|
        s < 64 && (a1 != a2 || k1 != k2) && #[trigger] sq_bit(fire_mask(a1, k1), s)
        implies !(#[trigger] sq_bit(fire_mask(a2, k2), s)) by {
        lemma_fire_bits(a1, k1);
        lemma_fire_bits(a2, k2);
        if sq_bit(fire_mask(a2, k2), s) {
            assert(fire_has(a1, k1, s) && fire_has(a2, k2, s));
            assert(false);
        }
    }
}

/// The prototype array: Blue and Red with full rows on ranks 1-2 and 7-8,
/// Black and Yellow with reduced columns on files a-b and g-h.
pub fn tablet_of_fire_prototype() -> (r: ArraySpec)
    ensures
        r.name@ == "Tablet of Fire (prototype)"@,
        r.turn_order@ == seq![Army::Blue, Army::Red, Army::Black, Army::Yellow],
        r.controller_map@ == seq![PlayerId(0), PlayerId(0), PlayerId(1), PlayerId(1)],
        r.throne_squares@ == seq![[3u8, 4u8], [24u8, 32u8], [59u8, 60u8], [31u8, 39u8]],
        r.promotion_zones == crate::engine::board::spec_default_promotion_zones(),
        r.placements@ == fire_placements(),
{
    let mut placements: Vec<(Army, PieceKind, u64)> = Vec::new();
    placements.push((Army::Blue, PieceKind::Rook, 0x81));
    placements.push((Army::Blue, PieceKind::Knight, 0x42));
    placements.push((Army::Blue, PieceKind::Bishop, 0x24));
    placements.push((Army::Blue, PieceKind::Queen, 0x08));
    placements.push((Army::Blue, PieceKind::King, 0x10));
    placements.push((Army::Blue, PieceKind::Pawn, 0xFF00));
    placements.push((Army::Red, PieceKind::Rook, 0x8100_0000_0000_0000));
    placements.push((Army::Red, PieceKind::Knight, 0x4200_0000_0000_0000));
    placements.push((Army::Red, PieceKind::Bishop, 0x2400_0000_0000_0000));
    placements.push((Army::Red, PieceKind::Queen, 0x0800_0000_0000_0000));
    placements.push((Army::Red, PieceKind::King, 0x1000_0000_0000_0000));
    placements.push((Army::Red, PieceKind::Pawn, 0x00FF_0000_0000_0000));
    placements.push((Army::Black, PieceKind::Rook, 0x0000_0000_0001_0000));
    placements.push((Army::Black, PieceKind::Queen, 0x0000_0000_0100_0000));
    placements.push((Army::Black, PieceKind::King, 0x0000_0001_0000_0000));
    placements.push((Army::Black, PieceKind::Bishop, 0x0000_0100_0000_0000));
    placements.push((Army::Black, PieceKind::Pawn, 0x0000_0202_0202_0000));
    placements.push((Army::Yellow, PieceKind::Rook, 0x0000_0000_0080_0000));
    placements.push((Army::Yellow, PieceKind::Queen, 0x0000_0000_8000_0000));
    placements.push((Army::Yellow, PieceKind::King, 0x0000_0080_0000_0000));
    placements.push((Army::Yellow, PieceKind::Bishop, 0x0000_8000_0000_0000));
    placements.push((Army::Yellow, PieceKind::Pawn, 0x0000_4040_4040_0000));
    proof {
        assert(placements@ =~= fire_placements());
    }
    let r = ArraySpec {
        name: "Tablet of Fire (prototype)",
        description: "The prototype four-army opening diagram.",
        turn_order: [Army::Blue, Army::Red, Army::Black, Army::Yellow],
        controller_map: [PlayerId::new(0), PlayerId::new(0), PlayerId::new(1), PlayerId::new(1)],
        throne_squares: [[3u8, 4u8], [24u8, 32u8], [59u8, 60u8], [31u8, 39u8]],
        promotion_zones: default_promotion_zones(),
        placements,
    };
    proof {
        assert(r.turn_order@ =~= seq![Army::Blue, Army::Red, Army::Black, Army::Yellow]);
        assert(r.controller_map@ =~= seq![PlayerId(0), PlayerId(0), PlayerId(1), PlayerId(1)]);
        assert(r.throne_squares@ =~= seq![[3u8, 4u8], [24u8, 32u8], [59u8, 60u8], [31u8, 39u8]]);
    }
    r
}

/// A placeholder array: turn order Blue, Black, Yellow, Red; diagram to
/// follow.
pub fn tablet_of_water_placeholder() -> (r: ArraySpec)
    ensures
        r.name@ == "Tablet of Water (placeholder)"@,
        r.turn_order@ == seq![Army::Blue, Army::Black, Army::Yellow, Army::Red],
        r.placements@ == Seq::<(Army, PieceKind, u64)>::empty(),
{
    let r = ArraySpec {
        name: "Tablet of Water (placeholder)",
        description: "Turn order: Blue, Black, Yellow, Red. Actual diagram to follow.",
        turn_order: [Army::Blue, Army::Black, Army::Yellow, Army::Red],
        controller_map: [PlayerId::new(0), PlayerId::new(0), PlayerId::new(1), PlayerId::new(1)],
        throne_squares: [[3u8, 4u8], [24u8, 32u8], [31u8, 39u8], [59u8, 60u8]],
        promotion_zones: default_promotion_zones(),
        placements: Vec::new(),
    };
    proof {
        assert(r.turn_order@ =~= seq![Army::Blue, Army::Black, Army::Yellow, Army::Red]);
        assert(r.placements@ =~= Seq::<(Army, PieceKind, u64)>::empty());
    }
    r
}

/// A placeholder array with the rotated turn order Red, Yellow, Black,
/// Blue; piece layout to follow.
pub fn tablet_of_air_placeholder() -> (r: ArraySpec)
    ensures
        r.name@ == "Tablet of Air (placeholder)"@,
        r.turn_order@ == seq![Army::Red, Army::Yellow, Army::Black, Army::Blue],
        r.placements@ == Seq::<(Army, PieceKind, u64)>::empty(),
{
    let r = ArraySpec {
        name: "Tablet of Air (placeholder)",
        description: "Rotated turn order (Red, Yellow, Black, Blue). Piece layout to follow.",
        turn_order: [Army::Red, Army::Yellow, Army::Black, Army::Blue],
        controller_map: [PlayerId::new(1), PlayerId::new(1), PlayerId::new(0), PlayerId::new(0)],
        throne_squares: [[59u8, 60u8], [31u8, 39u8], [24u8, 32u8], [3u8, 4u8]],
        promotion_zones: default_promotion_zones(),
        placements: Vec::new(),
    };
    proof {
        assert(r.turn_order@ =~= seq![Army::Red, Army::Yellow, Army::Black, Army::Blue]);
        assert(r.placements@ =~= Seq::<(Army, PieceKind, u64)>::empty());
    }
    r
}

/// A placeholder array with the counter-clockwise order Yellow, Blue,
/// Red, Black; layout pending.
pub fn tablet_of_earth_placeholder() -> (r: ArraySpec)
    ensures
        r.name@ == "Tablet of Earth (placeholder)"@,
        r.turn_order@ == seq![Army::Yellow, Army::Blue, Army::Red, Army::Black],
        r.placements@ == Seq::<(Army, PieceKind, u64)>::empty(),
{
    let r = ArraySpec {
        name: "Tablet of Earth (placeholder)",
        description: "Counter-clockwise order (Yellow, Blue, Red, Black); layout pending.",
        turn_order: [Army::Yellow, Army::Blue, Army::Red, Army::Black],
        controller_map: [PlayerId::new(1), PlayerId::new(0), PlayerId::new(1), PlayerId::new(0)],
        throne_squares: [[31u8, 39u8], [3u8, 4u8], [59u8, 60u8], [24u8, 32u8]],
        promotion_zones: default_promotion_zones(),
        placements: Vec::new(),
    };
    proof {
        assert(r.turn_order@ =~= seq![Army::Yellow, Army::Blue, Army::Red, Army::Black]);
        assert(r.placements@ =~= Seq::<(Army, PieceKind, u64)>::empty());
    }
    r
}

/// The catalog entries' names, in catalog order.
pub open spec fn spec_catalog_name(i: int) -> Seq<char> {
    if i == 0 {
        "Tablet of Fire (prototype)"@
    } else if i == 1 {
        "Tablet of Water (placeholder)"@
    } else if i == 2 {
        "Tablet of Air (placeholder)"@
    } else {
        "Tablet of Earth (placeholder)"@
    }
}

/// The catalog entries' turn orders, in catalog order.
pub open spec fn spec_catalog_turn(i: int) -> Seq<Army> {
    if i == 0 {
        seq![Army::Blue, Army::Red, Army::Black, Army::Yellow]
    } else if i == 1 {
        seq![Army::Blue, Army::Black, Army::Yellow, Army::Red]
    } else if i == 2 {
        seq![Army::Red, Army::Yellow, Army::Black, Army::Blue]
    } else {
        seq![Army::Yellow, Army::Blue, Army::Red, Army::Black]
    }
}

/// The catalog entries' names as byte strings, in catalog order.
pub open spec fn spec_catalog_name_bytes(i: int) -> Seq<u8> {
    if i == 0 {
        "Tablet of Fire (prototype)".spec_bytes()
    } else if i == 1 {
        "Tablet of Water (placeholder)".spec_bytes()
    } else if i == 2 {
        "Tablet of Air (placeholder)".spec_bytes()
    } else {
        "Tablet of Earth (placeholder)".spec_bytes()
    }
}

/// The first catalog index whose name matches, ignoring ASCII case; -1
/// when none does.
pub open spec fn catalog_match_index(name_bytes: Seq<u8>) -> int {
    if eq_ignore_case("Tablet of Fire (prototype)".spec_bytes(), name_bytes) {
        0
    } else if eq_ignore_case("Tablet of Water (placeholder)".spec_bytes(), name_bytes) {
        1
    } else if eq_ignore_case("Tablet of Air (placeholder)".spec_bytes(), name_bytes) {
        2
    } else if eq_ignore_case("Tablet of Earth (placeholder)".spec_bytes(), name_bytes) {
        3
    } else {
        -1
    }
}

/// The catalog: every known starting array, the prototype first.
pub fn available_arrays() -> (r: Vec<ArraySpec>)
    ensures
        r@.len() == 4,
        forall|i: int| 0 <= i < 4 ==> #[trigger] r@[i].name@ == spec_catalog_name(i),
        forall|i: int| 0 <= i < 4 ==> #[trigger] r@[i].turn_order@ == spec_catalog_turn(i),
{
    let mut r: Vec<ArraySpec> = Vec::new();
    r.push(tablet_of_fire_prototype());
    r.push(tablet_of_water_placeholder());
    r.push(tablet_of_air_placeholder());
    r.push(tablet_of_earth_placeholder());
    r
}

/// Compares two strings byte for byte, ignoring ASCII case.
pub fn str_eq_ignore_case(a: &str, b: &str) -> (r: bool)
    ensures
        r == eq_ignore_case(a.spec_bytes(), b.spec_bytes()),
{
    let ab = a.as_bytes();
    let bb = b.as_bytes();
    if ab.len() != bb.len() {
        return false;
    }
    let n = ab.len();
    let mut i: usize = 0;
    while i < n
        invariant
            i <= n,
            n == ab@.len(),
            n == bb@.len(),
            ab@ == a.spec_bytes(),
            bb@ == b.spec_bytes(),
            forall|j: int|
                0 <= j < i as int ==> crate::engine::types::lower_byte(ab@[j])
                    == crate::engine::types::lower_byte(bb@[j]),
        decreases n - i,
    {
        let x = ab[i];
        let y = bb[i];
        let xl = if 65 <= x && x <= 90 {
            x + 32
        } else {
            x
        };
        let yl = if 65 <= y && y <= 90 {
            y + 32
        } else {
            y
        };
        if xl != yl {
            return false;
        }
        i = i + 1;
    }
    true
}

/// Finds the first catalog entry whose name matches, ignoring ASCII case.
pub fn find_array_by_name(name: &str) -> (r: Option<ArraySpec>)
    ensures
        r is Some <==> 0 <= catalog_match_index(name.spec_bytes()),
        r matches Some(s) ==> s.name@ == spec_catalog_name(catalog_match_index(name.spec_bytes()))
            && s.turn_order@ == spec_catalog_turn(catalog_match_index(name.spec_bytes())),
{
    let mut arrays = available_arrays();
    let n = arrays.len();
    let mut i: usize = 0;
    while i < n
        invariant
            i <= n,
            n == 4,
            n == arrays@.len(),
            forall|j: int| 0 <= j < 4 ==> #[trigger] arrays@[j].name@ == spec_catalog_name(j),
            forall|j: int| 0 <= j < 4 ==> #[trigger] arrays@[j].turn_order@ == spec_catalog_turn(
                j,
            ),
            forall|j: int|
                0 <= j < i as int ==> !eq_ignore_case(
                    #[trigger] spec_catalog_name_bytes(j),
                    name.spec_bytes(),
                ),
        decreases n - i,
    {
        let matches_name = str_eq_ignore_case(arrays[i].name, name);
        proof {
            assert(arrays@[i as int].name.spec_bytes() == spec_catalog_name_bytes(i as int));
        }
        if matches_name {
            proof {
                let nb = name.spec_bytes();
                assert(eq_ignore_case(spec_catalog_name_bytes(i as int), nb));
                if i == 0 {
                    assert(catalog_match_index(nb) == 0);
                } else if i == 1 {
                    assert(!eq_ignore_case(spec_catalog_name_bytes(0), nb));
                    assert(catalog_match_index(nb) == 1);
                } else if i == 2 {
                    assert(!eq_ignore_case(spec_catalog_name_bytes(0), nb));
                    assert(!eq_ignore_case(spec_catalog_name_bytes(1), nb));
                    assert(catalog_match_index(nb) == 2);
                } else {
                    assert(!eq_ignore_case(spec_catalog_name_bytes(0), nb));
                    assert(!eq_ignore_case(spec_catalog_name_bytes(1), nb));
                    assert(!eq_ignore_case(spec_catalog_name_bytes(2), nb));
                    assert(catalog_match_index(nb) == 3);
                }
            }
            return Some(arrays.remove(i));
        }
        i = i + 1;
    }
    proof {
        let nb = name.spec_bytes();
        assert(!eq_ignore_case(spec_catalog_name_bytes(0), nb));
        assert(!eq_ignore_case(spec_catalog_name_bytes(1), nb));
        assert(!eq_ignore_case(spec_catalog_name_bytes(2), nb));
        assert(!eq_ignore_case(spec_catalog_name_bytes(3), nb));
        assert(catalog_match_index(nb) == -1);
    }
    None
}

/// The array new games default to: the prototype.
pub fn default_array() -> (r: ArraySpec)
    ensures
        r.name@ == "Tablet of Fire (prototype)"@,
        r.turn_order@ == seq![Army::Blue, Army::Red, Army::Black, Army::Yellow],
        r.controller_map@ == seq![PlayerId(0), PlayerId(0), PlayerId(1), PlayerId(1)],
        r.throne_squares@ == seq![[3u8, 4u8], [24u8, 32u8], [59u8, 60u8], [31u8, 39u8]],
        r.promotion_zones == crate::engine::board::spec_default_promotion_zones(),
        r.placements@ == fire_placements(),
{
    tablet_of_fire_prototype()
}

} // verus!
