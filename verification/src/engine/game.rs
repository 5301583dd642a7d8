//! The game state machine: turns, freezing, throne control, promotion,
//! stalemate and victory, over a board and its cached per-army facts.

use vstd::prelude::*;

use crate::engine::bits::{group_bits, sq_bit};
use crate::engine::board::{
    army_has_throne, army_occ, has_piece, inv, mask_of, occupied, popcount, spec_king_square,
    synced, total_occ, ArmyState, Board,
};
use crate::engine::moves::{
    attack_reach, bishop_dest, is_diagonal_dir, is_orthogonal_dir, king_dest, knight_dest, own_at,
    other_army_at, other_army_kind_at, pawn_attack_dest, pawn_move_dest, pawn_quiet_dest,
    piece_dest, queen_dest, rook_dest, slider_reach,
};
use crate::engine::types::{
    army_index, army_of_index, army_team, kind_index, spec_opponent, Army, Move, PieceKind,
    PlayerId, Square, Team,
};
use vstd::string::StringExecFns;

verus! {

broadcast use group_bits, vstd::array::group_array_axioms;

/// Immutable per-game setup: the armies, their turn order and the player
/// each army initially answers to.
#[derive(Debug, Clone, Copy)]
pub struct GameConfig {
    pub armies: [Army; 4],
    pub turn_order: [Army; 4],
    pub controller_map: [PlayerId; 4],
}

impl Default for GameConfig {
    /// The default setup: enumeration order, the conventional turn order,
    /// and alternating controllers.
    fn default() -> (r: Self)
        ensures
            r.armies@ == seq![Army::Blue, Army::Black, Army::Red, Army::Yellow],
            r.turn_order@ == seq![Army::Blue, Army::Red, Army::Black, Army::Yellow],
            r.controller_map@ == seq![PlayerId(0), PlayerId(1), PlayerId(0), PlayerId(1)],
    {
        let r = GameConfig {
            armies: [Army::Blue, Army::Black, Army::Red, Army::Yellow],
            turn_order: [Army::Blue, Army::Red, Army::Black, Army::Yellow],
            controller_map: [PlayerId(0), PlayerId(1), PlayerId(0), PlayerId(1)],
        };
        proof {
            assert(r.armies@ =~= seq![Army::Blue, Army::Black, Army::Red, Army::Yellow]);
            assert(r.turn_order@ =~= seq![Army::Blue, Army::Red, Army::Black, Army::Yellow]);
            assert(r.controller_map@ =~= seq![PlayerId(0), PlayerId(1), PlayerId(0), PlayerId(1)]);
        }
        r
    }
}

/// Transient, derived-but-cached per-army facts. They must be
/// resynchronized from the board after any external mutation.
#[derive(Debug, Clone, Copy)]
pub struct GameState {
    pub current_turn_index: usize,
    pub army_frozen: [bool; 4],
    pub king_positions: [Option<Square>; 4],
    pub stalemated_armies: [bool; 4],
}

/// The number of living kings the state records for a team.
pub open spec fn kings_alive_spec(s: GameState, team: Team) -> int {
    let armies = if team == Team::Air {
        (Army::Blue, Army::Black)
    } else {
        (Army::Red, Army::Yellow)
    };
    (if s.king_positions[army_index(armies.0)] is Some {
        1int
    } else {
        0int
    }) + (if s.king_positions[army_index(armies.1)] is Some {
        1int
    } else {
        0int
    })
}

/// The cached facts agree with the board: frozen flags mirror the board's
/// and each cached king square is the board's.
pub open spec fn state_matches_board(s: GameState, b: Board) -> bool {
    &&& forall|a: Army| #[trigger] s.army_frozen[army_index(a)] == b.armies[army_index(
        a,
    )].is_frozen
    &&& forall|a: Army| #[trigger] s.king_positions[army_index(a)] == spec_king_square(b, a)
}

impl GameState {
    /// A blank state: first turn, nothing frozen, no kings cached.
    pub fn new() -> (r: Self)
        ensures
            r.current_turn_index == 0,
            forall|i: int| 0 <= i < 4 ==> !(#[trigger] r.army_frozen[i]),
            forall|i: int| 0 <= i < 4 ==> #[trigger] r.king_positions[i] is None,
            forall|i: int| 0 <= i < 4 ==> !(#[trigger] r.stalemated_armies[i]),
    {
        Self {
            current_turn_index: 0,
            army_frozen: [false; 4],
            king_positions: [None; 4],
            stalemated_armies: [false; 4],
        }
    }

    /// Rebuilds every cached fact from the board: frozen flags and king
    /// squares are read back, stalemate flags reset.
    pub fn sync_with_board(&mut self, board: &Board)
        ensures
            final(self).current_turn_index == old(self).current_turn_index,
            forall|a: Army| #[trigger] final(self).army_frozen[army_index(a)] == board.armies[
                army_index(a)].is_frozen,
            forall|a: Army| #[trigger] final(self).king_positions[army_index(a)]
                == spec_king_square(*board, a),
            forall|i: int| 0 <= i < 4 ==> !(#[trigger] final(self).stalemated_armies[i]),
            state_matches_board(*final(self), *board),
    {
        let mut i: usize = 0;
        while i < 4
            invariant
                i <= 4,
                self.current_turn_index == old(self).current_turn_index,
                forall|a: Army|
                    army_index(a) < i as int ==> #[trigger] self.army_frozen[army_index(a)]
                        == board.armies[army_index(a)].is_frozen,
                forall|a: Army|
                    army_index(a) < i as int ==> #[trigger] self.king_positions[army_index(a)]
                        == spec_king_square(*board, a),
                forall|j: int| 0 <= j < i as int ==> !(#[trigger] self.stalemated_armies[j]),
            decreases 4 - i,
        {
            let army = Army::from_index(i);
            self.army_frozen[i] = board.is_army_frozen(army);
            self.king_positions[i] = board.king_square(army);
            self.stalemated_armies[i] = false;
            i = i + 1;
        }
    }

    /// The army whose turn the state points at.
    pub fn current_army(&self, config: &GameConfig) -> (r: Army)
        requires
            self.current_turn_index < 4,
        ensures
            r == config.turn_order[self.current_turn_index as int],
    {
        config.turn_order[self.current_turn_index]
    }

    /// Moves the turn pointer one step, wrapping around the order.
    pub fn advance_turn(&mut self, config: &GameConfig)
        requires
            old(self).current_turn_index < 4,
        ensures
            final(self).current_turn_index == (old(self).current_turn_index + 1) % 4,
            final(self).army_frozen == old(self).army_frozen,
            final(self).king_positions == old(self).king_positions,
            final(self).stalemated_armies == old(self).stalemated_armies,
    {
        self.current_turn_index = (self.current_turn_index + 1) % config.turn_order.len();
    }

    /// The cached king square of an army.
    pub fn king_square(&self, army: Army) -> (r: Option<Square>)
        ensures
            r == self.king_positions[army_index(army)],
    {
        self.king_positions[army.index()]
    }

    /// Overwrites the cached king square of an army.
    pub fn set_king_square(&mut self, army: Army, square: Option<Square>)
        ensures
            final(self).king_positions@ == old(self).king_positions@.update(
                army_index(army),
                square,
            ),
            final(self).current_turn_index == old(self).current_turn_index,
            final(self).army_frozen == old(self).army_frozen,
            final(self).stalemated_armies == old(self).stalemated_armies,
    {
        self.king_positions[army.index()] = square;
    }

    /// Sets the cached frozen flag of an army.
    pub fn set_frozen(&mut self, army: Army, frozen: bool)
        ensures
            final(self).army_frozen@ == old(self).army_frozen@.update(army_index(army), frozen),
            final(self).current_turn_index == old(self).current_turn_index,
            final(self).king_positions == old(self).king_positions,
            final(self).stalemated_armies == old(self).stalemated_armies,
    {
        self.army_frozen[army.index()] = frozen;
    }

    /// Sets the stalemate flag of an army.
    pub fn set_stalemate(&mut self, army: Army, stalemated: bool)
        ensures
            final(self).stalemated_armies@ == old(self).stalemated_armies@.update(
                army_index(army),
                stalemated,
            ),
            final(self).current_turn_index == old(self).current_turn_index,
            final(self).army_frozen == old(self).army_frozen,
            final(self).king_positions == old(self).king_positions,
    {
        self.stalemated_armies[army.index()] = stalemated;
    }

    /// The stalemate flag of an army.
    pub fn is_stalemated(&self, army: Army) -> (r: bool)
        ensures
            r == self.stalemated_armies[army_index(army)],
    {
        self.stalemated_armies[army.index()]
    }

    /// How many of the team's two armies have a living king on record.
    pub fn kings_alive(&self, team: Team) -> (r: usize)
        ensures
            r as int == kings_alive_spec(*self, team),
    {
        let armies = team.armies();
        let mut count: usize = 0;
        if self.king_positions[armies[0].index()].is_some() {
            count = count + 1;
        }
        if self.king_positions[armies[1].index()].is_some() {
            count = count + 1;
        }
        count
    }
}

/// Whether a move was rejected, and why; reserved for a typed error
/// surface beside the textual one.
#[derive(Debug, PartialEq, Eq, Copy, Clone, Structural)]
pub enum InvalidMoveReason {
    NoSourceOrTarget,
    InvalidSourceOrTarget,
    MultipleTargets,
    InvalidCaptureTarget,
    KingCaptureMove,
    PawnNonDiagonalCapture,
    PawnInvalidPromotion,
}

/// Reasons a submitted move can fail.
#[derive(Debug, PartialEq, Eq, Copy, Clone, Structural)]
pub enum MoveError {
    AmbiguousSource,
    InvalidMove(InvalidMoveReason),
    Pinned,
    Checked,
    ParseError,
    GameOver,
}

/// Overall game status.
#[derive(Debug, PartialEq, Eq, Copy, Clone, Structural)]
pub enum Status {
    Ongoing,
    Draw,
    Checkmate,
}

/// The game: a board, the immutable setup, the cached per-army facts and
/// an overall status.
#[derive(Clone, Copy)]
pub struct Game {
    pub board: Board,
    pub config: GameConfig,
    pub state: GameState,
    pub status: Status,
}

/// An army has at most one king on the board.
pub open spec fn at_most_one_king(b: Board) -> bool {
    forall|a: Army, s1: u64, s2: u64|
        has_piece(b, a, PieceKind::King, s1) && has_piece(b, a, PieceKind::King, s2) ==> s1 == s2
}

/// Every cached king square agrees with the board.
pub open spec fn kings_synced(g: Game) -> bool {
    forall|a: Army| #[trigger] g.state.king_positions[army_index(a)] == spec_king_square(
        g.board,
        a,
    )
}

/// Well-formedness: disjoint occupancy masks, consistent derived caches,
/// a valid turn pointer, at most one king per army, and king caches that
/// agree with the board.
pub open spec fn wf(g: Game) -> bool {
    &&& inv(g.board)
    &&& synced(g.board)
    &&& g.state.current_turn_index < 4
    &&& at_most_one_king(g.board)
    &&& kings_synced(g)
}

/// The state's frozen flag for an army.
pub open spec fn state_frozen(g: Game, a: Army) -> bool {
    g.state.army_frozen[army_index(a)]
}

impl Game {
    /// A game over the given board with the default setup.
    pub fn new(board: Board) -> (r: Game)
        ensures
            r.board == board,
            r.state.current_turn_index == 0,
            state_matches_board(r.state, board),
            forall|i: int| 0 <= i < 4 ==> !(#[trigger] r.state.stalemated_armies[i]),
            r.status == Status::Ongoing,
            r.config.turn_order@ == seq![Army::Blue, Army::Red, Army::Black, Army::Yellow],
            inv(board) && synced(board) && at_most_one_king(board) ==> wf(r),
    {
        let config = GameConfig::default();
        Game::with_config(board, config)
    }

    /// A game over the given board and setup. The cached facts are read
    /// from the board.
    pub fn with_config(board: Board, config: GameConfig) -> (r: Game)
        ensures
            r.board == board,
            r.config == config,
            r.state.current_turn_index == 0,
            state_matches_board(r.state, board),
            forall|i: int| 0 <= i < 4 ==> !(#[trigger] r.state.stalemated_armies[i]),
            r.status == Status::Ongoing,
            inv(board) && synced(board) && at_most_one_king(board) ==> wf(r),
    {
        let mut state = GameState::new();
        state.sync_with_board(&board);
        Game { board, config, state, status: Status::Ongoing }
    }

    /// Recomputes the derived occupancy caches and re-reads every cached
    /// per-army fact from the board. Must be called after loading a
    /// snapshot, before any query or mutation is trusted.
    pub fn refresh_after_load(&mut self)
        ensures
            final(self).board.by_army_kind == old(self).board.by_army_kind,
            final(self).board.armies == old(self).board.armies,
            final(self).board.promotion_zones == old(self).board.promotion_zones,
            final(self).config == old(self).config,
            final(self).status == old(self).status,
            final(self).state.current_turn_index == old(self).state.current_turn_index,
            synced(final(self).board),
            state_matches_board(final(self).state, final(self).board),
            forall|i: int| 0 <= i < 4 ==> !(#[trigger] final(self).state.stalemated_armies[i]),
            inv(old(self).board) && at_most_one_king(old(self).board) && old(
                self,
            ).state.current_turn_index < 4 ==> wf(*final(self)),
    {
        self.board.refresh_occupancy();
        let board = self.board;
        self.state.sync_with_board(&board);
        proof {
            lemma_wf_transfer(old(self).board, self.board);
        }
    }

    /// Whether the cached facts mark the army frozen.
    pub fn army_is_frozen(&self, army: Army) -> (r: bool)
        ensures
            r == state_frozen(*self, army),
    {
        self.state.army_frozen[army.index()]
    }

    /// Marks an army frozen, in the board metadata and the cache alike.
    pub fn freeze_army(&mut self, army: Army)
        ensures
            final(self).board.by_army_kind == old(self).board.by_army_kind,
            final(self).board.promotion_zones == old(self).board.promotion_zones,
            final(self).board.occupancy_by_army == old(self).board.occupancy_by_army,
            final(self).board.occupancy_by_team == old(self).board.occupancy_by_team,
            final(self).board.all_occupancy == old(self).board.all_occupancy,
            final(self).board.free == old(self).board.free,
            final(self).board.armies@ == old(self).board.armies@.update(
                army_index(army),
                ArmyState { is_frozen: true, ..old(self).board.armies[army_index(army)] },
            ),
            final(self).state.army_frozen@ == old(self).state.army_frozen@.update(
                army_index(army),
                true,
            ),
            final(self).state.current_turn_index == old(self).state.current_turn_index,
            final(self).state.king_positions == old(self).state.king_positions,
            final(self).state.stalemated_armies == old(self).state.stalemated_armies,
            final(self).config == old(self).config,
            final(self).status == old(self).status,
            wf(*old(self)) ==> wf(*final(self)),
    {
        self.board.set_frozen(army, true);
        self.state.set_frozen(army, true);
        proof {
            lemma_wf_transfer(old(self).board, self.board);
        }
    }

    /// Marks an army unfrozen, in the board metadata and the cache alike.
    pub fn unfreeze_army(&mut self, army: Army)
        ensures
            final(self).board.by_army_kind == old(self).board.by_army_kind,
            final(self).board.promotion_zones == old(self).board.promotion_zones,
            final(self).board.occupancy_by_army == old(self).board.occupancy_by_army,
            final(self).board.occupancy_by_team == old(self).board.occupancy_by_team,
            final(self).board.all_occupancy == old(self).board.all_occupancy,
            final(self).board.free == old(self).board.free,
            final(self).board.armies@ == old(self).board.armies@.update(
                army_index(army),
                ArmyState { is_frozen: false, ..old(self).board.armies[army_index(army)] },
            ),
            final(self).state.army_frozen@ == old(self).state.army_frozen@.update(
                army_index(army),
                false,
            ),
            final(self).state.current_turn_index == old(self).state.current_turn_index,
            final(self).state.king_positions == old(self).state.king_positions,
            final(self).state.stalemated_armies == old(self).state.stalemated_armies,
            final(self).config == old(self).config,
            final(self).status == old(self).status,
            wf(*old(self)) ==> wf(*final(self)),
    {
        self.board.set_frozen(army, false);
        self.state.set_frozen(army, false);
        proof {
            lemma_wf_transfer(old(self).board, self.board);
        }
    }

    /// The king-capture path: removes the army's king from the board (via
    /// its cached square), freezes the army and clears the cache entry.
    pub fn capture_king(&mut self, army: Army)
        requires
            old(self).state.king_positions[army_index(army)] matches Some(s) ==> s < 64,
        ensures
            forall|a: Army, k: PieceKind, s: u64|
                #[trigger] has_piece(final(self).board, a, k, s) <==> (has_piece(
                    old(self).board,
                    a,
                    k,
                    s,
                ) && (old(self).state.king_positions[army_index(army)] matches Some(ks) ==> s
                    != ks as u64)),
            inv(old(self).board) ==> inv(final(self).board),
            synced(final(self).board) || (old(self).state.king_positions[army_index(army)] is None
                && final(self).board.by_army_kind == old(self).board.by_army_kind && synced(
                old(self).board,
            ) == synced(final(self).board)),
            final(self).board.armies@ == old(self).board.armies@.update(
                army_index(army),
                ArmyState { is_frozen: true, ..old(self).board.armies[army_index(army)] },
            ),
            final(self).board.promotion_zones == old(self).board.promotion_zones,
            final(self).state.army_frozen@ == old(self).state.army_frozen@.update(
                army_index(army),
                true,
            ),
            final(self).state.king_positions@ == old(self).state.king_positions@.update(
                army_index(army),
                None::<Square>,
            ),
            final(self).state.current_turn_index == old(self).state.current_turn_index,
            final(self).state.stalemated_armies == old(self).state.stalemated_armies,
            final(self).config == old(self).config,
            final(self).status == old(self).status,
            wf(*old(self)) ==> wf(*final(self)),
    {
        let cached = self.state.king_square(army);
        let ghost mid = *self;
        if let Some(square) = cached {
            self.board.clear_square(square);
        }
        let ghost cleared = *self;
        self.freeze_army(army);
        self.state.set_king_square(army, None);
        proof {
            lemma_wf_transfer(cleared.board, self.board);
            if cached is None {
                assert(self.board.by_army_kind == old(self).board.by_army_kind);
                lemma_wf_transfer(old(self).board, self.board);
            }
            assert forall|a: Army, k: PieceKind, s: u64|
                #[trigger] has_piece(self.board, a, k, s) <==> (has_piece(old(self).board, a, k, s)
                    && (old(self).state.king_positions[army_index(army)] matches Some(ks) ==> s
                    != ks as u64)) by {
                assert(has_piece(self.board, a, k, s) == has_piece(cleared.board, a, k, s));
                match cached {
                    Some(ks) => {
                        assert(has_piece(cleared.board, a, k, s) <==> (has_piece(
                            old(self).board,
                            a,
                            k,
                            s,
                        ) && s != ks as u64));
                    },
                    None => {
                        assert(has_piece(cleared.board, a, k, s) == has_piece(
                            old(self).board,
                            a,
                            k,
                            s,
                        ));
                    },
                }
            }
            if wf(*old(self)) {
                let b0 = old(self).board;
                let bf = self.board;
                assert forall|a: Army| #[trigger] self.state.king_positions[army_index(a)]
                    == spec_king_square(bf, a) by {
                    lemma_king_square_from_bits(bf, a);
                    lemma_king_square_from_bits(b0, a);
                    if a == army {
                        assert forall|s: u64| !has_piece(bf, a, PieceKind::King, s) by {
                            if has_piece(bf, a, PieceKind::King, s) {
                                assert(has_piece(b0, a, PieceKind::King, s));
                                match old(self).state.king_positions[army_index(army)] {
                                    Some(ks) => {
                                        assert(has_piece(b0, a, PieceKind::King, ks as u64));
                                        assert(s == ks as u64);
                                        assert(false);
                                    },
                                    None => {
                                        assert(spec_king_square(b0, a) is None);
                                        assert(false);
                                    },
                                }
                            }
                        }
                    } else {
                        assert(self.state.king_positions[army_index(a)] == old(
                            self,
                        ).state.king_positions[army_index(a)]);
                        lemma_king_square_from_bits(b0, army);
                        assert forall|i: u64|
                            i < 64 implies (sq_bit(mask_of(bf, a, PieceKind::King), i) <==> sq_bit(
                            mask_of(b0, a, PieceKind::King),
                            i,
                        )) by {
                            assert(has_piece(bf, a, PieceKind::King, i) <==> (has_piece(
                                b0,
                                a,
                                PieceKind::King,
                                i,
                            ) && (old(self).state.king_positions[army_index(army)] matches Some(ks)
                                ==> i != ks as u64)));
                            match old(self).state.king_positions[army_index(army)] {
                                Some(ks) => {
                                    if i == ks as u64 && has_piece(b0, a, PieceKind::King, i) {
                                        assert(has_piece(b0, army, PieceKind::King, ks as u64));
                                        assert(false);
                                    }
                                },
                                None => {},
                            }
                        }
                        crate::engine::bits::lemma_bit_ext(
                            mask_of(bf, a, PieceKind::King),
                            mask_of(b0, a, PieceKind::King),
                        );
                    }
                }
                assert forall|a: Army, s1: u64, s2: u64|
                    has_piece(bf, a, PieceKind::King, s1) && has_piece(
                        bf,
                        a,
                        PieceKind::King,
                        s2,
                    ) implies s1 == s2 by {
                    assert(has_piece(b0, a, PieceKind::King, s1));
                    assert(has_piece(b0, a, PieceKind::King, s2));
                }
            }
        }
    }

    /// Whether one team has living kings while the other has none.
    pub fn winning_team(&self) -> (r: Option<Team>)
        ensures
            r == Some(Team::Air) <==> (kings_alive_spec(self.state, Team::Earth) == 0
                && kings_alive_spec(self.state, Team::Air) > 0),
            r == Some(Team::Earth) <==> (kings_alive_spec(self.state, Team::Air) == 0
                && kings_alive_spec(self.state, Team::Earth) > 0),
            r is None <==> !((kings_alive_spec(self.state, Team::Earth) == 0 && kings_alive_spec(
                self.state,
                Team::Air,
            ) > 0) || (kings_alive_spec(self.state, Team::Air) == 0 && kings_alive_spec(
                self.state,
                Team::Earth,
            ) > 0)),
    {
        let air_kings = self.state.kings_alive(Team::Air);
        let earth_kings = self.state.kings_alive(Team::Earth);
        if earth_kings == 0 && air_kings > 0 {
            return Some(Team::Air);
        }
        if air_kings == 0 && earth_kings > 0 {
            return Some(Team::Earth);
        }
        None
    }

    /// Whether the position is judged a non-recoverable draw: both teams
    /// kingless, or one team whole while the other is kingless.
    pub fn draw_condition(&self) -> (r: bool)
        ensures
            r == {
                let air = kings_alive_spec(self.state, Team::Air);
                let earth = kings_alive_spec(self.state, Team::Earth);
                (air == 0 && earth == 0) || (air == 0 && earth == 2) || (earth == 0 && air == 2)
            },
    {
        let air_kings = self.state.kings_alive(Team::Air);
        let earth_kings = self.state.kings_alive(Team::Earth);
        if air_kings == 0 && earth_kings == 0 {
            return true;
        }
        if air_kings == 0 && earth_kings == 2 {
            return true;
        }
        if earth_kings == 0 && air_kings == 2 {
            return true;
        }
        false
    }

    /// The number of pieces of each kind the army has on the board.
    pub fn piece_counts(&self, army: Army) -> (r: [u32; 6])
        ensures
            forall|k: PieceKind| #[trigger] r[kind_index(k)] == popcount(
                mask_of(self.board, army, k),
            ),
    {
        self.board.piece_counts(army)
    }

    /// Whether the army currently qualifies for privileged promotion: it
    /// holds its king, at least one pawn, and at most one piece among
    /// queen, bishop, knight and rook.
    pub fn is_privileged_pawn(&self, army: Army) -> (r: bool)
        ensures
            r == spec_privileged(self.board, army),
    {
        let counts = self.piece_counts(army);
        if counts[0] == 0 || counts[5] == 0 {
            return false;
        }
        let queen = counts[1];
        let bishop = counts[2];
        let knight = counts[3];
        let rook = counts[4];
        match (queen, bishop, knight, rook) {
            (1, 0, 0, 0) => true,
            (0, 1, 0, 0) => true,
            (0, 0, 1, 0) => true,
            (0, 0, 0, 1) => true,
            (0, 0, 0, 0) => true,
            _ => false,
        }
    }

    /// The promotion kinds open to the army's pawns: free choice among the
    /// four majors when privileged, queen only otherwise.
    pub fn promotion_targets(&self, army: Army) -> (r: Vec<PieceKind>)
        ensures
            spec_privileged(self.board, army) ==> r@ == seq![
                PieceKind::Queen,
                PieceKind::Rook,
                PieceKind::Bishop,
                PieceKind::Knight,
            ],
            !spec_privileged(self.board, army) ==> r@ == seq![PieceKind::Queen],
    {
        if self.is_privileged_pawn(army) {
            let mut v: Vec<PieceKind> = Vec::new();
            v.push(PieceKind::Queen);
            v.push(PieceKind::Rook);
            v.push(PieceKind::Bishop);
            v.push(PieceKind::Knight);
            proof {
                assert(v@ =~= seq![
                    PieceKind::Queen,
                    PieceKind::Rook,
                    PieceKind::Bishop,
                    PieceKind::Knight,
                ]);
            }
            v
        } else {
            let mut v: Vec<PieceKind> = Vec::new();
            v.push(PieceKind::Queen);
            proof {
                assert(v@ =~= seq![PieceKind::Queen]);
            }
            v
        }
    }

    /// Whether the square lies in the army's promotion zone.
    pub fn can_promote_at(&self, army: Army, square: Square) -> (r: bool)
        requires
            square < 64,
        ensures
            r == sq_bit(self.board.promotion_zones[army_index(army)], square as u64),
    {
        let zone = self.board.promotion_zones[army.index()];
        proof {
            crate::engine::bits::lemma_bit_is_01(zone, square as u64);
        }
        (zone >> (square as u64)) & 1u64 != 0
    }

    /// The cached stalemate flag of an army.
    pub fn army_in_stalemate(&self, army: Army) -> (r: bool)
        ensures
            r == self.state.stalemated_armies[army_index(army)],
    {
        self.state.is_stalemated(army)
    }

    /// The army whose turn it is.
    pub fn current_army(&self) -> (r: Army)
        requires
            self.state.current_turn_index < 4,
        ensures
            r == self.config.turn_order[self.state.current_turn_index as int],
    {
        self.state.current_army(&self.config)
    }
}

impl Game {
    /// Whether the army attacks the square, recomputed from scratch: each
    /// piece kind's attack squares are generated and tested for membership.
    pub fn is_square_attacked_by_army(&self, square: Square, army: Army) -> (r: bool)
        requires
            square < 64,
            inv(self.board),
            synced(self.board),
        ensures
            r == attacked_by_army(*self, square as u64, army),
    {
        if self.army_is_frozen(army) {
            return false;
        }
        let sq = square as u64;
        let (_pawn_moves, pawn_attacks) = crate::engine::moves::compute_pawns_moves(
            &self.board,
            army,
        );
        if crate::engine::bits::test_bit(pawn_attacks, sq) {
            return true;
        }
        let king_moves = crate::engine::moves::compute_king_moves(&self.board, army);
        if crate::engine::bits::test_bit(king_moves, sq) {
            return true;
        }
        let knight_moves = crate::engine::moves::compute_knights_moves(&self.board, army);
        if crate::engine::bits::test_bit(knight_moves, sq) {
            return true;
        }
        let ai = army.index();
        let diag_dirs: [usize; 4] = [
            crate::engine::moves::UP_RIGHT,
            crate::engine::moves::DOWN_RIGHT,
            crate::engine::moves::DOWN_LEFT,
            crate::engine::moves::UP_LEFT,
        ];
        let orth_dirs: [usize; 4] = [
            crate::engine::moves::UP,
            crate::engine::moves::RIGHT,
            crate::engine::moves::DOWN,
            crate::engine::moves::LEFT,
        ];
        let bishops_attacks = crate::engine::moves::get_sliding_attacks(
            self.board.by_army_kind[ai][2],
            diag_dirs.as_slice(),
            self.board.all_occupancy,
        );
        if crate::engine::bits::test_bit(bishops_attacks, sq) {
            proof {
                let (p, j) = choose|p: u64, j: int|
                    p < 64 && 0 <= j < diag_dirs@.len() && sq_bit(
                        self.board.by_army_kind[army_index(army) as int][2],
                        p,
                    ) && attack_reach(
                        self.board.all_occupancy,
                        p,
                        diag_dirs@[j] as int,
                        sq,
                    );
                assert(is_diagonal_dir(diag_dirs@[j] as int));
                assert(has_piece(self.board, army, PieceKind::Bishop, p));
            }
            return true;
        }
        let rooks_attacks = crate::engine::moves::get_sliding_attacks(
            self.board.by_army_kind[ai][4],
            orth_dirs.as_slice(),
            self.board.all_occupancy,
        );
        if crate::engine::bits::test_bit(rooks_attacks, sq) {
            proof {
                let (p, j) = choose|p: u64, j: int|
                    p < 64 && 0 <= j < orth_dirs@.len() && sq_bit(
                        self.board.by_army_kind[army_index(army) as int][4],
                        p,
                    ) && attack_reach(
                        self.board.all_occupancy,
                        p,
                        orth_dirs@[j] as int,
                        sq,
                    );
                assert(is_orthogonal_dir(orth_dirs@[j] as int));
                assert(has_piece(self.board, army, PieceKind::Rook, p));
            }
            return true;
        }
        let queens_attacks = crate::engine::moves::compute_queens_moves(&self.board, army);
        if crate::engine::bits::test_bit(queens_attacks, sq) {
            return true;
        }
        proof {
            if attacked_by_army(*self, sq, army) {
                if exists|f: u64, d: int|
                    f < 64 && is_diagonal_dir(d) && has_piece(
                        self.board,
                        army,
                        PieceKind::Bishop,
                        f,
                    ) && #[trigger] attack_reach(total_occ(self.board), f, d, sq) {
                    let (f, d) = choose|f: u64, d: int|
                        f < 64 && is_diagonal_dir(d) && has_piece(
                            self.board,
                            army,
                            PieceKind::Bishop,
                            f,
                        ) && #[trigger] attack_reach(total_occ(self.board), f, d, sq);
                    let j: int = if d == crate::engine::moves::UP_RIGHT as int {
                        0
                    } else if d == crate::engine::moves::DOWN_RIGHT as int {
                        1
                    } else if d == crate::engine::moves::DOWN_LEFT as int {
                        2
                    } else {
                        3
                    };
                    assert(diag_dirs@[j] as int == d);
                    assert(sq_bit(bishops_attacks, sq));
                }
                if exists|f: u64, d: int|
                    f < 64 && is_orthogonal_dir(d) && has_piece(
                        self.board,
                        army,
                        PieceKind::Rook,
                        f,
                    ) && #[trigger] attack_reach(total_occ(self.board), f, d, sq) {
                    let (f, d) = choose|f: u64, d: int|
                        f < 64 && is_orthogonal_dir(d) && has_piece(
                            self.board,
                            army,
                            PieceKind::Rook,
                            f,
                        ) && #[trigger] attack_reach(total_occ(self.board), f, d, sq);
                    let j: int = if d == crate::engine::moves::UP as int {
                        0
                    } else if d == crate::engine::moves::RIGHT as int {
                        1
                    } else if d == crate::engine::moves::DOWN as int {
                        2
                    } else {
                        3
                    };
                    assert(orth_dirs@[j] as int == d);
                    assert(sq_bit(rooks_attacks, sq));
                }
                assert(false);
            }
        }
        false
    }

    /// Whether either army of the team attacks the square.
    pub fn is_square_attacked_by_team(&self, square: Square, team: Team) -> (r: bool)
        requires
            square < 64,
            inv(self.board),
            synced(self.board),
        ensures
            r == attacked_by_team(*self, square as u64, team),
    {
        let armies = team.armies();
        if self.is_square_attacked_by_army(square, armies[0]) {
            return true;
        }
        if self.is_square_attacked_by_army(square, armies[1]) {
            return true;
        }
        false
    }

    /// Whether the army's cached king square is attacked by the opposing
    /// team. An army without a cached king is never in check.
    pub fn king_in_check(&self, army: Army) -> (r: bool)
        requires
            inv(self.board),
            synced(self.board),
            self.state.king_positions[army_index(army)] matches Some(s) ==> s < 64,
        ensures
            r == in_check(*self, army),
    {
        if let Some(square) = self.state.king_square(army) {
            self.is_square_attacked_by_team(square, army.team().opponent())
        } else {
            false
        }
    }

    /// The union of every piece's pseudo-legal destinations for the army:
    /// quiet pawn moves, playable pawn captures, and the knight, bishop,
    /// rook, queen and king masks. Empty for a frozen army.
    pub fn army_moves_bitboard(&self, army: Army) -> (r: u64)
        requires
            inv(self.board),
            synced(self.board),
            at_most_one_king(self.board),
        ensures
            state_frozen(*self, army) ==> r == 0,
            !state_frozen(*self, army) ==> forall|to: u64|
                to < 64 ==> (#[trigger] sq_bit(r, to) <==> exists|kind: PieceKind, f: u64|
                    f < 64 && #[trigger] has_piece(self.board, army, kind, f) && piece_dest(
                        self.board,
                        army,
                        kind,
                        f,
                        to,
                    )),
    {
        if self.army_is_frozen(army) {
            return 0;
        }
        let b = &self.board;
        let ai = army.index();
        let enemy_mask = b.all_occupancy & !b.occupancy_by_army[ai];
        let (pawn_moves, pawn_attacks) = crate::engine::moves::compute_pawns_moves(b, army);
        let pawn_attacks_filtered = pawn_attacks & enemy_mask;
        let knights = crate::engine::moves::compute_knights_moves(b, army);
        let bishops = crate::engine::moves::compute_bishops_moves(b, army);
        let rooks = crate::engine::moves::compute_rooks_moves(b, army);
        let queens = crate::engine::moves::compute_queens_moves(b, army);
        let kings = crate::engine::moves::compute_king_moves(b, army);
        let r = pawn_moves | pawn_attacks_filtered | knights | bishops | rooks | queens | kings;
        proof {
            assert forall|to: u64|
                to < 64 implies (#[trigger] sq_bit(r, to) <==> exists|kind: PieceKind, f: u64|
                f < 64 && #[trigger] has_piece(self.board, army, kind, f) && piece_dest(
                    self.board,
                    army,
                    kind,
                    f,
                    to,
                )) by {
                crate::engine::board::lemma_total_occ_bit(self.board, to);
                crate::engine::board::lemma_army_occ_bit(self.board, army, to);
                assert(sq_bit(enemy_mask, to) <==> (occupied(self.board, to) && !own_at(
                    self.board,
                    army,
                    to,
                )));
                assert(sq_bit(enemy_mask, to) <==> other_army_at(self.board, army, to)) by {
                    if occupied(self.board, to) && !own_at(self.board, army, to) {
                        let (a2, k2) = choose|a2: Army, k2: PieceKind|
                            #[trigger] has_piece(self.board, a2, k2, to);
                        assert(a2 != army) by {
                            if a2 == army {
                                assert(own_at(self.board, army, to));
                            }
                        }
                    }
                    if other_army_at(self.board, army, to) {
                        let (a2, k2) = choose|a2: Army, k2: PieceKind|
                            a2 != army && #[trigger] has_piece(self.board, a2, k2, to);
                    }
                }
                if sq_bit(r, to) {
                    if sq_bit(pawn_moves, to) {
                        let f2 = choose|f2: u64|
                            f2 < 64 && #[trigger] has_piece(self.board, army, PieceKind::Pawn, f2)
                                && pawn_quiet_dest(self.board, army, f2, to);
                        assert(piece_dest(self.board, army, PieceKind::Pawn, f2, to));
                    } else if sq_bit(pawn_attacks_filtered, to) {
                        let f2 = choose|f2: u64|
                            f2 < 64 && #[trigger] has_piece(self.board, army, PieceKind::Pawn, f2)
                                && pawn_attack_dest(self.board, army, f2, to);
                        assert(piece_dest(self.board, army, PieceKind::Pawn, f2, to));
                    } else if sq_bit(knights, to) {
                        let f2 = choose|f2: u64|
                            f2 < 64 && #[trigger] has_piece(self.board, army, PieceKind::Knight, f2)
                                && knight_dest(self.board, army, f2, to);
                        assert(piece_dest(self.board, army, PieceKind::Knight, f2, to));
                    } else if sq_bit(bishops, to) {
                        let f2 = choose|f2: u64|
                            f2 < 64 && #[trigger] has_piece(self.board, army, PieceKind::Bishop, f2)
                                && bishop_dest(self.board, army, f2, to);
                        assert(piece_dest(self.board, army, PieceKind::Bishop, f2, to));
                    } else if sq_bit(rooks, to) {
                        let f2 = choose|f2: u64|
                            f2 < 64 && #[trigger] has_piece(self.board, army, PieceKind::Rook, f2)
                                && rook_dest(self.board, army, f2, to);
                        assert(piece_dest(self.board, army, PieceKind::Rook, f2, to));
                    } else if sq_bit(queens, to) {
                        let f2 = choose|f2: u64|
                            f2 < 64 && #[trigger] has_piece(self.board, army, PieceKind::Queen, f2)
                                && queen_dest(self.board, army, f2, to);
                        assert(piece_dest(self.board, army, PieceKind::Queen, f2, to));
                    } else {
                        assert(sq_bit(kings, to));
                        let ks = spec_king_square(self.board, army)->0;
                        assert(has_piece(self.board, army, PieceKind::King, ks as u64));
                        assert(piece_dest(self.board, army, PieceKind::King, ks as u64, to));
                    }
                }
                if exists|kind: PieceKind, f: u64|
                    f < 64 && #[trigger] has_piece(self.board, army, kind, f) && piece_dest(
                        self.board,
                        army,
                        kind,
                        f,
                        to,
                    ) {
                    let (kind, f2) = choose|kind: PieceKind, f2: u64|
                        f2 < 64 && #[trigger] has_piece(self.board, army, kind, f2) && piece_dest(
                            self.board,
                            army,
                            kind,
                            f2,
                            to,
                        );
                    match kind {
                        PieceKind::Pawn => {
                            if pawn_quiet_dest(self.board, army, f2, to) {
                                assert(sq_bit(pawn_moves, to));
                            } else {
                                assert(sq_bit(pawn_attacks, to) && sq_bit(enemy_mask, to));
                            }
                        },
                        PieceKind::Knight => {
                            assert(sq_bit(knights, to));
                        },
                        PieceKind::Bishop => {
                            assert(sq_bit(bishops, to));
                        },
                        PieceKind::Rook => {
                            assert(sq_bit(rooks, to));
                        },
                        PieceKind::Queen => {
                            assert(sq_bit(queens, to));
                        },
                        PieceKind::King => {
                            lemma_single_king_square(self.board, army, f2);
                            assert(sq_bit(kings, to));
                        },
                    }
                }
            }
        }
        r
    }

    /// The king's pseudo-legal destination mask, empty for a frozen army.
    pub fn king_moves_bitboard(&self, army: Army) -> (r: u64)
        requires
            synced(self.board),
        ensures
            state_frozen(*self, army) ==> r == 0,
            !state_frozen(*self, army) ==> forall|to: u64|
                to < 64 ==> (sq_bit(r, to) <==> (spec_king_square(self.board, army) matches Some(ks)
                    && king_dest(self.board, army, ks as u64, to))),
    {
        if self.army_is_frozen(army) {
            return 0;
        }
        crate::engine::moves::compute_king_moves(&self.board, army)
    }
}

/// No army's king stands on the square.
pub open spec fn no_king_on(g: Game, s: u64) -> bool {
    forall|a: Army| !(#[trigger] has_piece(g.board, a, PieceKind::King, s))
}

impl Game {
    /// Throne seizure: if the square is the team ally's throne, control of
    /// the ally passes to the moving army's player and the ally unfreezes.
    pub fn seize_throne_at(&mut self, army: Army, square: Square)
        ensures
            final(self).board.by_army_kind == old(self).board.by_army_kind,
            final(self).board.occupancy_by_army == old(self).board.occupancy_by_army,
            final(self).board.occupancy_by_team == old(self).board.occupancy_by_team,
            final(self).board.all_occupancy == old(self).board.all_occupancy,
            final(self).board.free == old(self).board.free,
            final(self).board.promotion_zones == old(self).board.promotion_zones,
            final(self).config == old(self).config,
            final(self).status == old(self).status,
            final(self).state.current_turn_index == old(self).state.current_turn_index,
            final(self).state.king_positions == old(self).state.king_positions,
            final(self).state.stalemated_armies == old(self).state.stalemated_armies,
            army_has_throne(old(self).board, ally_of(army), square) ==> {
                &&& final(self).board.armies@ == old(self).board.armies@.update(
                    army_index(ally_of(army)),
                    ArmyState {
                        controller: old(self).board.armies[army_index(army)].controller,
                        is_frozen: false,
                        ..old(self).board.armies[army_index(ally_of(army))]
                    },
                )
                &&& final(self).state.army_frozen@ == old(self).state.army_frozen@.update(
                    army_index(ally_of(army)),
                    false,
                )
            },
            !army_has_throne(old(self).board, ally_of(army), square) ==> *final(self) == *old(
                self,
            ),
            wf(*old(self)) ==> wf(*final(self)),
    {
        let ally = match army {
            Army::Blue => Army::Black,
            Army::Black => Army::Blue,
            Army::Red => Army::Yellow,
            Army::Yellow => Army::Red,
        };
        let ts = self.board.armies[ally.index()].throne_squares;
        if ts[0] == square || ts[1] == square {
            let controller = self.board.controller_for(army);
            self.board.set_controller(ally, controller);
            self.unfreeze_army(ally);
            proof {
                assert(final(self).board.armies@ =~= old(self).board.armies@.update(
                    army_index(ally),
                    ArmyState {
                        controller: old(self).board.armies[army_index(army)].controller,
                        is_frozen: false,
                        ..old(self).board.armies[army_index(ally)]
                    },
                ));
                lemma_wf_transfer(old(self).board, self.board);
            }
        }
    }

    /// Restores the army's king to its first throne square, clearing
    /// whatever stood there, and unfreezes the army.
    pub fn restore_king_to_throne(&mut self, army: Army)
        requires
            old(self).board.armies[army_index(army)].throne_squares[0] < 64,
            inv(old(self).board),
        ensures
            ({
                let throne = old(self).board.armies[army_index(army)].throne_squares[0] as u64;
                &&& forall|a: Army, k: PieceKind, s: u64|
                    #[trigger] has_piece(final(self).board, a, k, s) <==> ((has_piece(
                        old(self).board,
                        a,
                        k,
                        s,
                    ) && s != throne) || (a == army && k == PieceKind::King && s == throne))
                &&& final(self).state.king_positions@ == old(self).state.king_positions@.update(
                    army_index(army),
                    Some(old(self).board.armies[army_index(army)].throne_squares[0]),
                )
            }),
            inv(final(self).board),
            synced(final(self).board),
            final(self).board.armies@ == old(self).board.armies@.update(
                army_index(army),
                ArmyState { is_frozen: false, ..old(self).board.armies[army_index(army)] },
            ),
            final(self).board.promotion_zones == old(self).board.promotion_zones,
            final(self).state.army_frozen@ == old(self).state.army_frozen@.update(
                army_index(army),
                false,
            ),
            final(self).state.current_turn_index == old(self).state.current_turn_index,
            final(self).state.stalemated_armies == old(self).state.stalemated_armies,
            final(self).config == old(self).config,
            final(self).status == old(self).status,
    {
        let throne = self.board.armies[army.index()].throne_squares[0];
        self.board.clear_square(throne);
        let ghost cleared = self.board;
        self.board.place_piece(army, PieceKind::King, throne);
        let ghost placed = self.board;
        self.state.set_king_square(army, Some(throne));
        self.unfreeze_army(army);
        proof {
            lemma_wf_transfer(placed, self.board);
            assert forall|a: Army, k: PieceKind, s: u64|
                #[trigger] has_piece(self.board, a, k, s) <==> ((has_piece(
                    old(self).board,
                    a,
                    k,
                    s,
                ) && s != throne as u64) || (a == army && k == PieceKind::King && s
                    == throne as u64)) by {
                assert(has_piece(self.board, a, k, s) == has_piece(placed, a, k, s));
                assert(has_piece(placed, a, k, s) <==> (has_piece(cleared, a, k, s) || (a == army
                    && k == PieceKind::King && s == throne as u64)));
                assert(has_piece(cleared, a, k, s) <==> (has_piece(old(self).board, a, k, s) && s
                    != throne as u64));
            }
        }
    }

    /// Prisoner exchange: two kingless armies simultaneously restore their
    /// kings to their first throne squares and unfreeze. A no-op reported
    /// as failure when either army still has a king on record.
    pub fn exchange_prisoners(&mut self, army_a: Army, army_b: Army) -> (r: bool)
        requires
            old(self).board.armies[army_index(army_a)].throne_squares[0] < 64,
            old(self).board.armies[army_index(army_b)].throne_squares[0] < 64,
            inv(old(self).board),
        ensures
            r == (old(self).state.king_positions[army_index(army_a)] is None && old(
                self,
            ).state.king_positions[army_index(army_b)] is None),
            !r ==> *final(self) == *old(self),
            r ==> {
                let ta = old(self).board.armies[army_index(army_a)].throne_squares[0] as u64;
                let tb = final(self).board.armies[army_index(army_b)].throne_squares[0] as u64;
                &&& forall|a: Army, k: PieceKind, s: u64|
                    #[trigger] has_piece(final(self).board, a, k, s) <==> ((((has_piece(
                        old(self).board,
                        a,
                        k,
                        s,
                    ) && s != ta) || (a == army_a && k == PieceKind::King && s == ta)) && s != tb)
                        || (a == army_b && k == PieceKind::King && s == tb))
                &&& final(self).state.army_frozen@ == old(self).state.army_frozen@.update(
                    army_index(army_a),
                    false,
                ).update(army_index(army_b), false)
                &&& final(self).state.stalemated_armies@ == old(
                    self,
                ).state.stalemated_armies@.update(army_index(army_a), false).update(
                    army_index(army_b),
                    false,
                )
                &&& final(self).state.current_turn_index == old(self).state.current_turn_index
                &&& final(self).state.king_positions@ == old(self).state.king_positions@.update(
                    army_index(army_a),
                    Some(old(self).board.armies[army_index(army_a)].throne_squares[0]),
                ).update(
                    army_index(army_b),
                    Some(old(self).board.armies[army_index(army_b)].throne_squares[0]),
                )
                &&& inv(final(self).board)
                &&& synced(final(self).board)
            },
            r && wf(*old(self)) && army_a != army_b && old(self).board.armies[army_index(
                army_a,
            )].throne_squares[0] != old(self).board.armies[army_index(army_b)].throne_squares[0]
                && no_king_on(*old(self), old(self).board.armies[army_index(
                army_a,
            )].throne_squares[0] as u64) && no_king_on(*old(self), old(self).board.armies[
                army_index(army_b)].throne_squares[0] as u64) ==> wf(*final(self)),
            final(self).config == old(self).config,
            final(self).status == old(self).status,
    {
        if self.state.king_square(army_a).is_some() || self.state.king_square(army_b).is_some() {
            return false;
        }
        let ghost ta = self.board.armies[army_index(army_a)].throne_squares[0] as u64;
        let ghost tb = self.board.armies[army_index(army_b)].throne_squares[0] as u64;
        self.restore_king_to_throne(army_a);
        let ghost mid = *self;
        self.restore_king_to_throne(army_b);
        self.state.set_stalemate(army_a, false);
        self.state.set_stalemate(army_b, false);
        proof {
            assert(final(self).state.king_positions@ =~= old(self).state.king_positions@.update(
                army_index(army_a),
                Some(old(self).board.armies[army_index(army_a)].throne_squares[0]),
            ).update(
                army_index(army_b),
                Some(old(self).board.armies[army_index(army_b)].throne_squares[0]),
            ));
            if wf(*old(self)) && army_a != army_b && ta != tb && no_king_on(*old(self), ta)
                && no_king_on(*old(self), tb) {
                lemma_king_square_from_bits(old(self).board, army_a);
                lemma_king_square_from_bits(old(self).board, army_b);
                assert(at_most_one_king(self.board)) by {
                    assert forall|a: Army, s1: u64, s2: u64|
                        has_piece(self.board, a, PieceKind::King, s1) && has_piece(
                            self.board,
                            a,
                            PieceKind::King,
                            s2,
                        ) implies s1 == s2 by {
                        if a == army_a {
                            assert(s1 == ta && s2 == ta);
                        } else if a == army_b {
                            assert(s1 == tb && s2 == tb);
                        } else {
                            assert(has_piece(old(self).board, a, PieceKind::King, s1));
                            assert(has_piece(old(self).board, a, PieceKind::King, s2));
                        }
                    }
                }
                assert(kings_synced(*self)) by {
                    assert forall|a: Army| #[trigger] self.state.king_positions[army_index(a)]
                        == spec_king_square(self.board, a) by {
                        if a == army_a {
                            assert(has_piece(self.board, a, PieceKind::King, ta));
                            lemma_single_king_square(self.board, a, ta);
                        } else if a == army_b {
                            assert(has_piece(self.board, a, PieceKind::King, tb));
                            lemma_single_king_square(self.board, a, tb);
                        } else {
                            assert(mask_of(self.board, a, PieceKind::King) == mask_of(
                                old(self).board,
                                a,
                                PieceKind::King,
                            )) by {
                                assert forall|s: u64|
                                    s < 64 implies (sq_bit(
                                    mask_of(self.board, a, PieceKind::King),
                                    s,
                                ) <==> sq_bit(mask_of(old(self).board, a, PieceKind::King), s)) by {
                                    assert(has_piece(self.board, a, PieceKind::King, s)
                                        <==> ((has_piece(mid.board, a, PieceKind::King, s) && s
                                        != tb) || (a == army_b && PieceKind::King
                                        == PieceKind::King && s == tb)));
                                    assert(has_piece(mid.board, a, PieceKind::King, s) <==> ((
                                    has_piece(old(self).board, a, PieceKind::King, s) && s != ta)
                                        || (a == army_a && s == ta)));
                                    assert(!has_piece(old(self).board, a, PieceKind::King, ta));
                                    assert(!has_piece(old(self).board, a, PieceKind::King, tb));
                                }
                                crate::engine::bits::lemma_bit_ext(
                                    mask_of(self.board, a, PieceKind::King),
                                    mask_of(old(self).board, a, PieceKind::King),
                                );
                            }
                        }
                    }
                }
            }
        }
        true
    }

    /// Promotes a pawn standing in its promotion zone. The default target
    /// is queen; a privileged pawn may pick any major, demoting an already
    /// present piece of that kind back to pawn first. Promotion to pawn or
    /// king is rejected. Returns whether the promotion happened.
    pub fn promote_pawn(&mut self, army: Army, pawn_square: Square, target: PieceKind) -> (r:
        bool)
        requires
            pawn_square < 64,
            inv(old(self).board),
            synced(old(self).board),
        ensures
            ({
                let tk = if spec_privileged(old(self).board, army) {
                    target
                } else {
                    PieceKind::Queen
                };
                &&& r == (has_piece(old(self).board, army, PieceKind::Pawn, pawn_square as u64)
                    && sq_bit(old(self).board.promotion_zones[army_index(army)], pawn_square as u64)
                    && tk != PieceKind::Pawn && tk != PieceKind::King)
                &&& !r ==> *final(self) == *old(self)
                &&& r ==> {
                    let dm = mask_of(old(self).board, army, tk);
                    let psq = pawn_square as u64;
                    &&& (dm == 0 ==> forall|a: Army, k: PieceKind, s: u64|
                        #[trigger] has_piece(final(self).board, a, k, s) <==> (if a == army && k
                            == tk {
                            has_piece(old(self).board, a, k, s) || s == psq
                        } else if a == army && k == PieceKind::Pawn {
                            has_piece(old(self).board, a, k, s) && s != psq
                        } else {
                            has_piece(old(self).board, a, k, s)
                        }))
                    &&& (dm != 0 ==> {
                        let ds = vstd::std_specs::bits::u64_trailing_zeros(dm) as u64;
                        forall|a: Army, k: PieceKind, s: u64|
                            #[trigger] has_piece(final(self).board, a, k, s) <==> (if a == army
                                && k == tk {
                                (has_piece(old(self).board, a, k, s) && s != ds) || s == psq
                            } else if a == army && k == PieceKind::Pawn {
                                (has_piece(old(self).board, a, k, s) || s == ds) && s != psq
                            } else {
                                has_piece(old(self).board, a, k, s)
                            })
                    })
                    &&& inv(final(self).board)
                    &&& synced(final(self).board)
                    &&& forall|a: Army, k: PieceKind|
                        (a != army || (k != tk && k != PieceKind::Pawn)) ==> #[trigger] mask_of(
                            final(self).board,
                            a,
                            k,
                        ) == mask_of(old(self).board, a, k)
                }
            }),
            final(self).board.armies == old(self).board.armies,
            final(self).board.promotion_zones == old(self).board.promotion_zones,
            final(self).state == old(self).state,
            final(self).config == old(self).config,
            final(self).status == old(self).status,
    {
        let psq = pawn_square as u64;
        let pawn_bits = self.board.by_army_kind[army.index()][5];
        if !crate::engine::bits::test_bit(pawn_bits, psq) {
            return false;
        }
        if !self.can_promote_at(army, pawn_square) {
            return false;
        }
        let target_kind = if self.is_privileged_pawn(army) {
            target
        } else {
            PieceKind::Queen
        };
        if matches!(target_kind, PieceKind::Pawn) || matches!(target_kind, PieceKind::King) {
            return false;
        }
        let ghost b0 = self.board;
        if self.board.by_army_kind[army.index()][target_kind.index()] != 0 {
            let _ = self.board.demote_piece_to_pawn(army, target_kind);
        }
        let ghost demoted = self.board;
        self.board.remove_piece(army, PieceKind::Pawn, pawn_square);
        let ghost removed = self.board;
        proof {
            assert(!occupied(removed, psq)) by {
                if occupied(removed, psq) {
                    let (a, k) = choose|a: Army, k: PieceKind| has_piece(removed, a, k, psq);
                    assert(has_piece(demoted, a, k, psq));
                    assert(has_piece(self.board, army, PieceKind::Pawn, psq) || true);
                    assert(has_piece(old(self).board, army, PieceKind::Pawn, psq));
                }
            }
        }
        self.board.place_piece(army, target_kind, pawn_square);
        proof {
            assert forall|a: Army, k: PieceKind|
                (a != army || (k != target_kind && k != PieceKind::Pawn)) implies #[trigger]
                mask_of(self.board, a, k) == mask_of(b0, a, k) by {
                assert forall|s: u64|
                    s < 64 implies (sq_bit(mask_of(self.board, a, k), s) <==> sq_bit(
                    mask_of(b0, a, k),
                    s,
                )) by {
                    assert(has_piece(self.board, a, k, s) == has_piece(b0, a, k, s));
                }
                crate::engine::bits::lemma_bit_ext(mask_of(self.board, a, k), mask_of(b0, a, k));
            }
        }
        true
    }
}

/// The occupant of a square; under `inv` it is unique.
pub open spec fn occupant(b: Board, s: u64) -> Option<(Army, PieceKind)> {
    if occupied(b, s) {
        Some(choose|a: Army, k: PieceKind| has_piece(b, a, k, s))
    } else {
        None
    }
}

/// The board with one (army, kind) mask replaced. The derived caches are
/// carried over unchanged; every spec here reads the masks only.
pub open spec fn board_set_mask(b: Board, a: Army, k: PieceKind, m: u64) -> Board {
    let row = vstd::array::spec_array_update(b.by_army_kind[army_index(a)], kind_index(k), m);
    Board {
        by_army_kind: vstd::array::spec_array_update(b.by_army_kind, army_index(a), row),
        ..b
    }
}

/// The board after materializing a candidate move: the occupant of the
/// destination is removed, then the mover's bit is relocated.
pub open spec fn sim_board(b: Board, army: Army, kind: PieceKind, from: u64, to: u64) -> Board {
    let b1 = match occupant(b, to) {
        Some(ak) => board_set_mask(b, ak.0, ak.1, mask_of(b, ak.0, ak.1) & !(1u64 << to)),
        None => b,
    };
    board_set_mask(b1, army, kind, (mask_of(b1, army, kind) & !(1u64 << from)) | (1u64 << to))
}

/// The cached state after materializing a candidate move: a moving king
/// updates its cached square.
pub open spec fn sim_state(st: GameState, army: Army, kind: PieceKind, to: u64) -> GameState {
    if kind == PieceKind::King {
        GameState {
            king_positions: vstd::array::spec_array_update(
                st.king_positions,
                army_index(army),
                Some(to as Square),
            ),
            ..st
        }
    } else {
        st
    }
}

/// The hypothetical game a candidate move leads to.
pub open spec fn sim_game(g: Game, army: Army, kind: PieceKind, from: u64, to: u64) -> Game {
    Game {
        board: sim_board(g.board, army, kind, from, to),
        state: sim_state(g.state, army, kind, to),
        ..g
    }
}

/// A candidate move is legal: the mover stands on the source, the
/// destination is pseudo-legal for its kind, and the mover's king is not
/// attacked in the resulting position.
pub open spec fn candidate_legal(g: Game, army: Army, kind: PieceKind, from: u64, to: u64) -> bool {
    &&& from < 64
    &&& to < 64
    &&& has_piece(g.board, army, kind, from)
    &&& piece_dest(g.board, army, kind, from, to)
    &&& !in_check(sim_game(g, army, kind, from, to), army)
}

/// The forced-king rule applies: the army's king is in check and has at
/// least one legal destination.
pub open spec fn forced_king(g: Game, army: Army) -> bool {
    in_check(g, army) && exists|f: u64, t: u64| #[trigger] candidate_legal(
        g,
        army,
        PieceKind::King,
        f,
        t,
    )
}

/// Legal and surfaced: when the forced-king rule applies, only king moves
/// are surfaced.
pub open spec fn filtered_legal(g: Game, army: Army, kind: PieceKind, from: u64, to: u64) -> bool {
    candidate_legal(g, army, kind, from, to) && (forced_king(g, army) ==> kind == PieceKind::King)
}

/// Everything the legality evaluation reads transfers between games that
/// hold the same pieces, frozen flags and cached king squares.
pub proof fn lemma_eval_same(g1: Game, g2: Game)
    requires
        g1.board.by_army_kind == g2.board.by_army_kind,
        g1.state.army_frozen == g2.state.army_frozen,
        g1.state.king_positions == g2.state.king_positions,
        inv(g1.board),
    ensures
        forall|sq: u64, a: Army| #[trigger] attacked_by_army(g1, sq, a) == attacked_by_army(
            g2,
            sq,
            a,
        ),
        forall|a: Army| #[trigger] in_check(g1, a) == in_check(g2, a),
        forall|army: Army, kind: PieceKind, f: u64, t: u64| #[trigger] candidate_legal(
            g1,
            army,
            kind,
            f,
            t,
        ) == candidate_legal(g2, army, kind, f, t),
        forall|a: Army| #[trigger] forced_king(g1, a) == forced_king(g2, a),
{
    let b1 = g1.board;
    let b2 = g2.board;
    crate::engine::board::lemma_masks_same_facts(b1, b2);
    lemma_preds_same(b1, b2);
    assert forall|sq: u64, a: Army| #[trigger] attacked_by_army(g1, sq, a) == attacked_by_army(
        g2,
        sq,
        a,
    ) by {
        lemma_attacked_same(g1, g2, sq, a);
        lemma_attacked_same(g2, g1, sq, a);
    }
    assert forall|a: Army| #[trigger] in_check(g1, a) == in_check(g2, a) by {}
    assert forall|army: Army, kind: PieceKind, f: u64, t: u64| #[trigger] candidate_legal(
        g1,
        army,
        kind,
        f,
        t,
    ) == candidate_legal(g2, army, kind, f, t) by {
        if f < 64 && t < 64 {
            assert(occupant(b1, t) == occupant(b2, t)) by {
                if occupied(b1, t) {
                    let (a, k) = choose|a: Army, k: PieceKind| has_piece(b1, a, k, t);
                    let (a2, k2) = choose|a: Army, k: PieceKind| has_piece(b2, a, k, t);
                    assert(has_piece(b1, a2, k2, t));
                    assert(!(has_piece(b1, a, k, t) && has_piece(b1, a2, k2, t) && (a != a2 || k
                        != k2)));
                }
            }
            let s1 = sim_game(g1, army, kind, f, t);
            let s2 = sim_game(g2, army, kind, f, t);
            assert(s1.board.by_army_kind == s2.board.by_army_kind) by {
                match occupant(b1, t) {
                    Some(ak) => {
                        assert(mask_of(b1, ak.0, ak.1) == mask_of(b2, ak.0, ak.1));
                        let c1 = board_set_mask(b1, ak.0, ak.1, mask_of(b1, ak.0, ak.1) & !(1u64
                            << t));
                        let c2 = board_set_mask(b2, ak.0, ak.1, mask_of(b2, ak.0, ak.1) & !(1u64
                            << t));
                        assert(c1.by_army_kind =~= c2.by_army_kind) by {
                            assert forall|i: int| 0 <= i < 4 implies c1.by_army_kind[i]
                                =~= c2.by_army_kind[i] by {}
                        }
                        assert(mask_of(c1, army, kind) == mask_of(c2, army, kind));
                        assert(sim_board(b1, army, kind, f, t).by_army_kind =~= sim_board(
                            b2,
                            army,
                            kind,
                            f,
                            t,
                        ).by_army_kind) by {
                            assert forall|i: int|
                                0 <= i < 4 implies sim_board(b1, army, kind, f, t).by_army_kind[i]
                                =~= sim_board(b2, army, kind, f, t).by_army_kind[i] by {}
                        }
                    },
                    None => {
                        assert(mask_of(b1, army, kind) == mask_of(b2, army, kind));
                        assert(sim_board(b1, army, kind, f, t).by_army_kind =~= sim_board(
                            b2,
                            army,
                            kind,
                            f,
                            t,
                        ).by_army_kind) by {
                            assert forall|i: int|
                                0 <= i < 4 implies sim_board(b1, army, kind, f, t).by_army_kind[i]
                                =~= sim_board(b2, army, kind, f, t).by_army_kind[i] by {}
                        }
                    },
                }
            }
            assert(s1.state.army_frozen == s2.state.army_frozen);
            assert(s1.state.king_positions == s2.state.king_positions) by {
                if kind == PieceKind::King {
                    assert(s1.state.king_positions =~= s2.state.king_positions);
                }
            }
            lemma_in_check_pair(s1, s2, army);
        }
    }
    assert forall|a: Army| #[trigger] forced_king(g1, a) == forced_king(g2, a) by {
        if forced_king(g1, a) {
            let (f, t) = choose|f: u64, t: u64| candidate_legal(g1, a, PieceKind::King, f, t);
            assert(candidate_legal(g2, a, PieceKind::King, f, t));
        }
        if forced_king(g2, a) {
            let (f, t) = choose|f: u64, t: u64| candidate_legal(g2, a, PieceKind::King, f, t);
            assert(candidate_legal(g1, a, PieceKind::King, f, t));
        }
    }
}

/// `in_check` transfers between games holding the same pieces and caches;
/// no disjointness needed.
proof fn lemma_in_check_pair(g1: Game, g2: Game, army: Army)
    requires
        g1.board.by_army_kind == g2.board.by_army_kind,
        g1.state.army_frozen == g2.state.army_frozen,
        g1.state.king_positions == g2.state.king_positions,
    ensures
        in_check(g1, army) == in_check(g2, army),
{
    crate::engine::board::lemma_masks_same_facts(g1.board, g2.board);
    lemma_preds_same(g1.board, g2.board);
    let opp = spec_opponent(army_team(army));
    let x = if opp == Team::Air {
        Army::Blue
    } else {
        Army::Red
    };
    let y = if opp == Team::Air {
        Army::Black
    } else {
        Army::Yellow
    };
    match g1.state.king_positions[army_index(army)] {
        Some(sq) => {
            lemma_attacked_same(g1, g2, sq as u64, x);
            lemma_attacked_same(g2, g1, sq as u64, x);
            lemma_attacked_same(g1, g2, sq as u64, y);
            lemma_attacked_same(g2, g1, sq as u64, y);
        },
        None => {},
    }
}

/// The movement predicates depend on the board only through its masks.
proof fn lemma_preds_same(b1: Board, b2: Board)
    requires
        b1.by_army_kind == b2.by_army_kind,
    ensures
        forall|army: Army, s: u64| #[trigger] own_at(b1, army, s) == own_at(b2, army, s),
        forall|army: Army, k: PieceKind, s: u64| #[trigger] other_army_kind_at(b1, army, k, s)
            == other_army_kind_at(b2, army, k, s),
        forall|army: Army, s: u64| #[trigger] other_army_at(b1, army, s) == other_army_at(
            b2,
            army,
            s,
        ),
        forall|f: u64, t: u64, diag: bool| #[trigger] slider_reach(b1, f, t, diag) == slider_reach(
            b2,
            f,
            t,
            diag,
        ),
        forall|army: Army, kind: PieceKind, f: u64, t: u64| #[trigger] piece_dest(
            b1,
            army,
            kind,
            f,
            t,
        ) == piece_dest(b2, army, kind, f, t),
{
    crate::engine::board::lemma_masks_same_facts(b1, b2);
    assert forall|army: Army, s: u64| #[trigger] own_at(b1, army, s) == own_at(b2, army, s) by {
        if own_at(b1, army, s) {
            let k = choose|k: PieceKind| has_piece(b1, army, k, s);
            assert(has_piece(b2, army, k, s));
        }
        if own_at(b2, army, s) {
            let k = choose|k: PieceKind| has_piece(b2, army, k, s);
            assert(has_piece(b1, army, k, s));
        }
    }
    assert forall|army: Army, k: PieceKind, s: u64| #[trigger] other_army_kind_at(b1, army, k, s)
        == other_army_kind_at(b2, army, k, s) by {
        if other_army_kind_at(b1, army, k, s) {
            let a = choose|a: Army| a != army && has_piece(b1, a, k, s);
            assert(has_piece(b2, a, k, s));
        }
        if other_army_kind_at(b2, army, k, s) {
            let a = choose|a: Army| a != army && has_piece(b2, a, k, s);
            assert(has_piece(b1, a, k, s));
        }
    }
    assert forall|army: Army, s: u64| #[trigger] other_army_at(b1, army, s) == other_army_at(
        b2,
        army,
        s,
    ) by {
        if other_army_at(b1, army, s) {
            let (a, k) = choose|a: Army, k: PieceKind| a != army && has_piece(b1, a, k, s);
            assert(has_piece(b2, a, k, s));
        }
        if other_army_at(b2, army, s) {
            let (a, k) = choose|a: Army, k: PieceKind| a != army && has_piece(b2, a, k, s);
            assert(has_piece(b1, a, k, s));
        }
    }
    assert forall|f: u64, t: u64, diag: bool| #[trigger] slider_reach(b1, f, t, diag)
        == slider_reach(b2, f, t, diag) by {
        assert(total_occ(b1) == total_occ(b2));
        if slider_reach(b1, f, t, diag) {
            let d = choose|d: int|
                0 <= d < 8 && (if diag {
                    is_diagonal_dir(d)
                } else {
                    is_orthogonal_dir(d)
                }) && crate::engine::moves::slide_to(
                    total_occ(b1),
                    crate::engine::moves::file_of(f),
                    crate::engine::moves::rank_of(f),
                    crate::engine::moves::dir_df(d),
                    crate::engine::moves::dir_dr(d),
                    crate::engine::moves::file_of(t),
                    crate::engine::moves::rank_of(t),
                );
            assert(slider_reach(b2, f, t, diag));
        }
        if slider_reach(b2, f, t, diag) {
            let d = choose|d: int|
                0 <= d < 8 && (if diag {
                    is_diagonal_dir(d)
                } else {
                    is_orthogonal_dir(d)
                }) && crate::engine::moves::slide_to(
                    total_occ(b2),
                    crate::engine::moves::file_of(f),
                    crate::engine::moves::rank_of(f),
                    crate::engine::moves::dir_df(d),
                    crate::engine::moves::dir_dr(d),
                    crate::engine::moves::file_of(t),
                    crate::engine::moves::rank_of(t),
                );
            assert(slider_reach(b1, f, t, diag));
        }
    }
    assert forall|army: Army, kind: PieceKind, f: u64, t: u64| #[trigger] piece_dest(
        b1,
        army,
        kind,
        f,
        t,
    ) == piece_dest(b2, army, kind, f, t) by {
        assert(spec_king_square(b1, army) == spec_king_square(b2, army));
    }
}

/// One army's attacks transfer between games holding the same pieces,
/// frozen flags and caches (one direction; apply twice for equality).
proof fn lemma_attacked_same(g1: Game, g2: Game, sq: u64, army: Army)
    requires
        g1.board.by_army_kind == g2.board.by_army_kind,
        g1.state.army_frozen == g2.state.army_frozen,
    ensures
        attacked_by_army(g1, sq, army) ==> attacked_by_army(g2, sq, army),
{
    let b1 = g1.board;
    let b2 = g2.board;
    crate::engine::board::lemma_masks_same_facts(b1, b2);
    lemma_preds_same(b1, b2);
    if exists|f: u64|
        f < 64 && #[trigger] has_piece(b1, army, PieceKind::Pawn, f) && pawn_attack_dest(
            b1,
            army,
            f,
            sq,
        ) {
        let f = choose|f: u64|
            f < 64 && #[trigger] has_piece(b1, army, PieceKind::Pawn, f) && pawn_attack_dest(
                b1,
                army,
                f,
                sq,
            );
        assert(has_piece(b2, army, PieceKind::Pawn, f) && pawn_attack_dest(b2, army, f, sq));
    }
    if exists|f: u64|
        f < 64 && #[trigger] has_piece(b1, army, PieceKind::Knight, f) && knight_dest(
            b1,
            army,
            f,
            sq,
        ) {
        let f = choose|f: u64|
            f < 64 && #[trigger] has_piece(b1, army, PieceKind::Knight, f) && knight_dest(
                b1,
                army,
                f,
                sq,
            );
        assert(has_piece(b2, army, PieceKind::Knight, f) && knight_dest(b2, army, f, sq));
    }
    if exists|f: u64, d: int|
        f < 64 && is_diagonal_dir(d) && has_piece(b1, army, PieceKind::Bishop, f)
            && #[trigger] attack_reach(total_occ(b1), f, d, sq) {
        let (f, d) = choose|f: u64, d: int|
            f < 64 && is_diagonal_dir(d) && has_piece(b1, army, PieceKind::Bishop, f)
                && #[trigger] attack_reach(total_occ(b1), f, d, sq);
        assert(has_piece(b2, army, PieceKind::Bishop, f) && attack_reach(total_occ(b2), f, d, sq));
    }
    if exists|f: u64, d: int|
        f < 64 && is_orthogonal_dir(d) && has_piece(b1, army, PieceKind::Rook, f)
            && #[trigger] attack_reach(total_occ(b1), f, d, sq) {
        let (f, d) = choose|f: u64, d: int|
            f < 64 && is_orthogonal_dir(d) && has_piece(b1, army, PieceKind::Rook, f)
                && #[trigger] attack_reach(total_occ(b1), f, d, sq);
        assert(has_piece(b2, army, PieceKind::Rook, f) && attack_reach(total_occ(b2), f, d, sq));
    }
    if exists|f: u64|
        f < 64 && #[trigger] has_piece(b1, army, PieceKind::Queen, f) && queen_dest(
            b1,
            army,
            f,
            sq,
        ) {
        let f = choose|f: u64|
            f < 64 && #[trigger] has_piece(b1, army, PieceKind::Queen, f) && queen_dest(
                b1,
                army,
                f,
                sq,
            );
        assert(piece_dest(b1, army, PieceKind::Queen, f, sq) == piece_dest(
            b2,
            army,
            PieceKind::Queen,
            f,
            sq,
        ));
        assert(has_piece(b2, army, PieceKind::Queen, f) && queen_dest(b2, army, f, sq));
    }
}

impl Game {
    /// The army's legal moves: every pseudo-legal candidate that leaves the
    /// mover's king unattacked, found by materializing the candidate on a
    /// scratch copy. When the king is in check and has a legal destination,
    /// only king moves are surfaced. A frozen army has no moves.
    pub fn generate_legal_moves(&self, army: Army) -> (r: Vec<Move>)
        requires
            wf(*self),
        ensures
            forall|m: Move|
                #[trigger] r@.contains(m) <==> (!state_frozen(*self, army) && m.promotion is None
                    && filtered_legal(*self, army, m.kind, m.from as u64, m.to as u64)),
            state_frozen(*self, army) ==> r@.len() == 0,
    {
        if self.army_is_frozen(army) {
            let r: Vec<Move> = Vec::new();
            return r;
        }
        let ai = army.index();
        let mut moves: Vec<Move> = Vec::new();
        let mut ki: usize = 0;
        while ki < 6
            invariant
                ki <= 6,
                wf(*self),
                ai == army_index(army),
                !state_frozen(*self, army),
                forall|m: Move|
                    #[trigger] moves@.contains(m) <==> (m.promotion is None && candidate_legal(
                        *self,
                        army,
                        m.kind,
                        m.from as u64,
                        m.to as u64,
                    ) && kind_index(m.kind) < ki as int),
            decreases 6 - ki,
        {
            let kind = PieceKind::from_index(ki);
            let pieces = self.board.by_army_kind[ai][ki];
            let mut from: u64 = 0;
            while from < 64
                invariant
                    from <= 64,
                    ki < 6,
                    wf(*self),
                    ai == army_index(army),
                    !state_frozen(*self, army),
                    kind == crate::engine::types::kind_of_index(ki as int),
                    pieces == mask_of(self.board, army, kind),
                    forall|m: Move|
                        #[trigger] moves@.contains(m) <==> (m.promotion is None && candidate_legal(
                            *self,
                            army,
                            m.kind,
                            m.from as u64,
                            m.to as u64,
                        ) && (kind_index(m.kind) < ki as int || (m.kind == kind && (
                        m.from as u64) < from))),
                decreases 64 - from,
            {
                proof {
                    crate::engine::bits::lemma_bit_is_01(pieces, from);
                }
                if (pieces >> from) & 1u64 == 1u64 {
                    let dests = crate::engine::moves::piece_dests_from(
                        &self.board,
                        army,
                        kind,
                        from as Square,
                    );
                    let mut to: u64 = 0;
                    while to < 64
                        invariant
                            to <= 64,
                            from < 64,
                            ki < 6,
                            wf(*self),
                            ai == army_index(army),
                            !state_frozen(*self, army),
                            kind == crate::engine::types::kind_of_index(ki as int),
                            has_piece(self.board, army, kind, from),
                            forall|t: u64|
                                t < 64 ==> (sq_bit(dests, t) <==> piece_dest(
                                    self.board,
                                    army,
                                    kind,
                                    from,
                                    t,
                                )),
                            forall|m: Move|
                                #[trigger] moves@.contains(m) <==> (m.promotion is None
                                    && candidate_legal(
                                    *self,
                                    army,
                                    m.kind,
                                    m.from as u64,
                                    m.to as u64,
                                ) && (kind_index(m.kind) < ki as int || (m.kind == kind && ((
                                m.from as u64) < from || (m.from as u64 == from && (m.to as u64)
                                    < to))))),
                        decreases 64 - to,
                    {
                        proof {
                            crate::engine::bits::lemma_bit_is_01(dests, to);
                        }
                        if (dests >> to) & 1u64 == 1u64 {
                            proof {
                                assert(sq_bit(dests, to));
                                assert(piece_dest(self.board, army, kind, from, to));
                            }
                            let mut next_board = self.board;
                            let mut next_state = self.state;
                            match next_board.piece_at(to as Square) {
                                Option::Some((ta, tk)) => {
                                    proof {
                                        assert(ta != army) by {
                                            if ta == army {
                                                assert(own_at(self.board, army, to));
                                                crate::engine::board::lemma_total_occ_bit(
                                                    self.board,
                                                    to,
                                                );
                                            }
                                        }
                                        assert(occupant(self.board, to) == Some((ta, tk))) by {
                                            assert(occupied(self.board, to));
                                            let (a2, k2) = choose|a2: Army, k2: PieceKind|
                                                has_piece(self.board, a2, k2, to);
                                            assert(has_piece(self.board, ta, tk, to));
                                            assert(!(has_piece(self.board, a2, k2, to)
                                                && has_piece(self.board, ta, tk, to) && (a2 != ta
                                                || k2 != tk)));
                                        }
                                    }
                                    next_board.remove_piece(ta, tk, to as Square);
                                    proof {
                                        assert(!occupied(next_board, to)) by {
                                            if occupied(next_board, to) {
                                                let (a2, k2) = choose|a2: Army, k2: PieceKind|
                                                    has_piece(next_board, a2, k2, to);
                                                assert(has_piece(self.board, a2, k2, to));
                                                assert(has_piece(self.board, ta, tk, to));
                                            }
                                        }
                                    }
                                },
                                Option::None => {
                                    proof {
                                        assert(occupant(self.board, to) is None);
                                    }
                                },
                            }
                            next_board.move_piece(army, kind, from as Square, to as Square);
                            if matches!(kind, PieceKind::King) {
                                next_state.set_king_square(army, Some(to as Square));
                            }
                            let next_game = Game {
                                board: next_board,
                                config: self.config,
                                state: next_state,
                                status: self.status,
                            };
                            proof {
                                let sg = sim_game(*self, army, kind, from, to);
                                assert(next_game.board.by_army_kind == sg.board.by_army_kind) by {
                                    lemma_sim_board_masks(self.board, army, kind, from, to);
                                    assert forall|a: Army, k: PieceKind|
                                        #[trigger] mask_of(next_game.board, a, k) == mask_of(
                                        sg.board,
                                        a,
                                        k,
                                    ) by {
                                        assert forall|i: u64|
                                            i < 64 implies (sq_bit(
                                            mask_of(next_game.board, a, k),
                                            i,
                                        ) <==> sq_bit(mask_of(sg.board, a, k), i)) by {
                                            assert(has_piece(next_game.board, a, k, i)
                                                == has_piece(sg.board, a, k, i));
                                        }
                                        crate::engine::bits::lemma_bit_ext(
                                            mask_of(next_game.board, a, k),
                                            mask_of(sg.board, a, k),
                                        );
                                    }
                                    assert forall|i: int|
                                        0 <= i < 4 implies next_game.board.by_army_kind[i]
                                        =~= sg.board.by_army_kind[i] by {
                                        assert forall|j: int|
                                            0 <= j < 6 implies next_game.board.by_army_kind[i][j]
                                            == sg.board.by_army_kind[i][j] by {
                                            let a = army_of_index(i);
                                            let k = crate::engine::types::kind_of_index(j);
                                            assert(mask_of(next_game.board, a, k) == mask_of(
                                                sg.board,
                                                a,
                                                k,
                                            ));
                                        }
                                    }
                                    assert(next_game.board.by_army_kind =~= sg.board.by_army_kind);
                                }
                                assert(next_game.state.king_positions == sg.state.king_positions)
                                    by {
                                    if kind == PieceKind::King {
                                        assert(next_game.state.king_positions
                                            =~= sg.state.king_positions);
                                    }
                                }
                                lemma_in_check_pair(next_game, sg, army);
                                lemma_king_square_from_bits(self.board, army);
                                assert(in_check(next_game, army) == in_check(
                                    sim_game(*self, army, kind, from, to),
                                    army,
                                ));
                            }
                            let checked = next_game.king_in_check(army);
                            if !checked {
                                let m = Move {
                                    from: from as Square,
                                    to: to as Square,
                                    kind,
                                    promotion: None,
                                };
                                let ghost old_moves = moves@;
                                moves.push(m);
                                proof {
                                    assert(moves@ == old_moves.push(m));
                                    assert(moves@[old_moves.len() as int] == m);
                                    assert(candidate_legal(*self, army, kind, from, to));
                                    assert forall|m2: Move| #[trigger] moves@.contains(m2) <==> (
                                    m2.promotion is None && candidate_legal(
                                        *self,
                                        army,
                                        m2.kind,
                                        m2.from as u64,
                                        m2.to as u64,
                                    ) && (kind_index(m2.kind) < ki as int || (m2.kind == kind && ((
                                    m2.from as u64) < from || (m2.from as u64 == from && (
                                    m2.to as u64) <= to))))) by {
                                        if moves@.contains(m2) {
                                            let idx = choose|idx: int|
                                                0 <= idx < moves@.len() && moves@[idx] == m2;
                                            if idx < old_moves.len() {
                                                assert(old_moves.contains(m2));
                                            } else {
                                                assert(m2 == m);
                                            }
                                        } else {
                                            assert(!old_moves.contains(m2)) by {
                                                if old_moves.contains(m2) {
                                                    let idx = choose|idx: int|
                                                        0 <= idx < old_moves.len() && old_moves[idx]
                                                            == m2;
                                                    assert(moves@[idx] == m2);
                                                }
                                            }
                                            assert(m2 != m);
                                        }
                                    }
                                }
                            } else {
                                proof {
                                    assert(!candidate_legal(*self, army, kind, from, to));
                                }
                            }
                        } else {
                            proof {
                                assert(!sq_bit(dests, to));
                                assert(!piece_dest(self.board, army, kind, from, to));
                            }
                        }
                        to = to + 1;
                    }
                } else {
                    proof {
                        assert(!has_piece(self.board, army, kind, from));
                    }
                }
                from = from + 1;
            }
            ki = ki + 1;
            proof {
                assert forall|m: Move| #[trigger] moves@.contains(m) <==> (m.promotion is None
                    && candidate_legal(*self, army, m.kind, m.from as u64, m.to as u64)
                    && kind_index(m.kind) < ki as int) by {
                    if m.promotion is None && candidate_legal(
                        *self,
                        army,
                        m.kind,
                        m.from as u64,
                        m.to as u64,
                    ) && kind_index(m.kind) < ki as int {
                        if kind_index(m.kind) < ki as int - 1 {
                        } else {
                            assert(m.kind == crate::engine::types::kind_of_index(ki as int - 1));
                            assert((m.from as u64) < 64);
                        }
                    }
                }
            }
        }
        proof {
            lemma_king_square_from_bits(self.board, army);
        }
        let in_chk = self.king_in_check(army);
        if in_chk {
            let mut king_moves: Vec<Move> = Vec::new();
            let n = moves.len();
            let mut i: usize = 0;
            while i < n
                invariant
                    i <= n,
                    n == moves@.len(),
                    forall|m: Move|
                        #[trigger] king_moves@.contains(m) <==> (exists|idx: int|
                            0 <= idx < i as int && moves@[idx] == m && m.kind == PieceKind::King),
                decreases n - i,
            {
                let m = moves[i];
                if matches!(m.kind, PieceKind::King) {
                    let ghost old_km = king_moves@;
                    king_moves.push(m);
                    proof {
                        assert forall|m2: Move| #[trigger] king_moves@.contains(m2) <==> (exists|
                            idx: int,
                        |
                            0 <= idx < i as int + 1 && moves@[idx] == m2 && m2.kind
                                == PieceKind::King) by {
                            if king_moves@.contains(m2) {
                                let j = choose|j: int|
                                    0 <= j < king_moves@.len() && king_moves@[j] == m2;
                                if j < old_km.len() {
                                    assert(old_km.contains(m2));
                                    let idx = choose|idx: int|
                                        0 <= idx < i as int && moves@[idx] == m2 && m2.kind
                                            == PieceKind::King;
                                    assert(0 <= idx < i as int + 1 && moves@[idx] == m2);
                                } else {
                                    assert(m2 == m);
                                    assert(moves@[i as int] == m2);
                                }
                            }
                            if exists|idx: int|
                                0 <= idx < i as int + 1 && moves@[idx] == m2 && m2.kind
                                    == PieceKind::King {
                                let idx = choose|idx: int|
                                    0 <= idx < i as int + 1 && moves@[idx] == m2 && m2.kind
                                        == PieceKind::King;
                                if idx < i as int {
                                    assert(old_km.contains(m2));
                                    let j = choose|j: int|
                                        0 <= j < old_km.len() && old_km[j] == m2;
                                    assert(king_moves@[j] == m2);
                                } else {
                                    assert(m2 == m);
                                    assert(king_moves@[old_km.len() as int] == m2);
                                }
                            }
                        }
                    }
                }
                i = i + 1;
            }
            if king_moves.len() > 0 {
                proof {
                    let m0 = king_moves@[0];
                    assert(king_moves@.contains(m0));
                    assert(moves@.contains(m0)) by {
                        let idx = choose|idx: int|
                            0 <= idx < n as int && moves@[idx] == m0 && m0.kind == PieceKind::King;
                        assert(moves@[idx] == m0);
                    }
                    assert(candidate_legal(
                        *self,
                        army,
                        PieceKind::King,
                        m0.from as u64,
                        m0.to as u64,
                    ));
                    assert(forced_king(*self, army));
                    assert forall|m: Move| #[trigger] king_moves@.contains(m) <==> (!state_frozen(
                        *self,
                        army,
                    ) && m.promotion is None && filtered_legal(
                        *self,
                        army,
                        m.kind,
                        m.from as u64,
                        m.to as u64,
                    )) by {
                        if king_moves@.contains(m) {
                            let idx = choose|idx: int|
                                0 <= idx < i as int && moves@[idx] == m && m.kind
                                    == PieceKind::King;
                            assert(moves@.contains(m));
                        }
                        if !state_frozen(*self, army) && m.promotion is None && filtered_legal(
                            *self,
                            army,
                            m.kind,
                            m.from as u64,
                            m.to as u64,
                        ) {
                            assert(m.kind == PieceKind::King);
                            assert(moves@.contains(m));
                            let idx = choose|idx: int| 0 <= idx < moves@.len() && moves@[idx] == m;
                            assert(0 <= idx < i as int && moves@[idx] == m && m.kind
                                == PieceKind::King);
                        }
                    }
                }
                return king_moves;
            }
            proof {
                assert(!forced_king(*self, army)) by {
                    if forced_king(*self, army) {
                        let (f, t) = choose|f: u64, t: u64|
                            candidate_legal(*self, army, PieceKind::King, f, t);
                        let m = Move {
                            from: f as Square,
                            to: t as Square,
                            kind: PieceKind::King,
                            promotion: None,
                        };
                        assert(moves@.contains(m));
                        let idx = choose|idx: int| 0 <= idx < moves@.len() && moves@[idx] == m;
                        assert(king_moves@.contains(m));
                        assert(king_moves@.len() > 0) by {
                            let j = choose|j: int|
                                0 <= j < king_moves@.len() && king_moves@[j] == m;
                        }
                    }
                }
            }
        } else {
            proof {
                assert(!forced_king(*self, army));
            }
        }
        moves
    }

    /// The army's legal moves; a convenience alias of
    /// `generate_legal_moves`.
    pub fn legal_moves(&self, army: Army) -> (r: Vec<Move>)
        requires
            wf(*self),
        ensures
            forall|m: Move|
                #[trigger] r@.contains(m) <==> (!state_frozen(*self, army) && m.promotion is None
                    && filtered_legal(*self, army, m.kind, m.from as u64, m.to as u64)),
            state_frozen(*self, army) ==> r@.len() == 0,
    {
        self.generate_legal_moves(army)
    }
}

/// The authoritative fields of a game, as a flat snapshot suitable for
/// storage. Derived occupancy aggregates and cached king squares are not
/// part of it; they are rebuilt by an explicit refresh after loading.
#[derive(Debug, Clone, Copy)]
pub struct Snapshot {
    pub by_army_kind: [[u64; 6]; 4],
    pub armies: [ArmyState; 4],
    pub promotion_zones: [u64; 4],
    pub config: GameConfig,
    pub current_turn_index: usize,
    pub status: Status,
}

/// The snapshot a game serializes to.
pub open spec fn snapshot_spec(g: Game) -> Snapshot {
    Snapshot {
        by_army_kind: g.board.by_army_kind,
        armies: g.board.armies,
        promotion_zones: g.board.promotion_zones,
        config: g.config,
        current_turn_index: g.state.current_turn_index,
        status: g.status,
    }
}

/// The game holds exactly the snapshot's authoritative fields, with its
/// derived state rebuilt from them.
pub open spec fn restored_from(s: Snapshot, g: Game) -> bool {
    &&& g.board.by_army_kind == s.by_army_kind
    &&& g.board.armies == s.armies
    &&& g.board.promotion_zones == s.promotion_zones
    &&& g.config == s.config
    &&& g.state.current_turn_index == s.current_turn_index
    &&& g.status == s.status
    &&& synced(g.board)
    &&& state_matches_board(g.state, g.board)
    &&& forall|i: int| 0 <= i < 4 ==> !(#[trigger] g.state.stalemated_armies[i])
}

impl Game {
    /// The flat snapshot of the authoritative fields.
    pub fn snapshot(&self) -> (r: Snapshot)
        ensures
            r == snapshot_spec(*self),
    {
        Snapshot {
            by_army_kind: self.board.by_army_kind,
            armies: self.board.armies,
            promotion_zones: self.board.promotion_zones,
            config: self.config,
            current_turn_index: self.state.current_turn_index,
            status: self.status,
        }
    }

    /// Rebuilds a game from a snapshot: the authoritative fields are taken
    /// as given and every derived field is recomputed before the game is
    /// returned.
    pub fn from_snapshot(s: &Snapshot) -> (r: Game)
        ensures
            restored_from(*s, r),
    {
        let board = Board {
            by_army_kind: s.by_army_kind,
            occupancy_by_army: [0u64; 4],
            occupancy_by_team: [0u64; 2],
            all_occupancy: 0,
            free: 0,
            armies: s.armies,
            promotion_zones: s.promotion_zones,
        };
        let mut state = GameState::new();
        state.current_turn_index = s.current_turn_index;
        let mut g = Game { board, config: s.config, state, status: s.status };
        g.refresh_after_load();
        g
    }

    /// A game built from a catalog entry: the entry's turn order and
    /// controllers over its starting board.
    pub fn from_array_spec(spec: &crate::engine::arrays::ArraySpec) -> (r: Game)
        ensures
            r.config.turn_order == spec.turn_order,
            r.config.controller_map == spec.controller_map,
            r.config.armies@ == seq![Army::Blue, Army::Black, Army::Red, Army::Yellow],
            r.state.current_turn_index == 0,
            r.status == Status::Ongoing,
            synced(r.board),
            state_matches_board(r.state, r.board),
            forall|i: int| 0 <= i < 4 ==> !(#[trigger] r.state.stalemated_armies[i]),
            forall|a: Army, k: PieceKind| #[trigger] mask_of(r.board, a, k)
                == crate::engine::arrays::catalog_mask(spec.placements@, a, k),
            forall|i: int|
                0 <= i < 4 ==> #[trigger] r.board.armies[i] == (ArmyState {
                    army: army_of_index(i),
                    throne_squares: spec.throne_squares[i],
                    controller: spec.controller_map[i],
                    is_frozen: false,
                }),
            r.board.promotion_zones == spec.promotion_zones,
            inv(r.board) && at_most_one_king(r.board) ==> wf(r),
    {
        let mut config = GameConfig::default();
        config.turn_order = spec.turn_order;
        config.controller_map = spec.controller_map;
        let board = spec.board();
        Game::with_config(board, config)
    }
}

impl Default for Game {
    /// A game over the prototype array: the full opening diagram, its turn
    /// order and controllers, every derived cache rebuilt, and the
    /// well-formedness invariant established.
    #[verifier::rlimit(100)]
    fn default() -> (r: Game)
        ensures
            r.config.turn_order@ == seq![Army::Blue, Army::Red, Army::Black, Army::Yellow],
            r.config.controller_map@ == seq![PlayerId(0), PlayerId(0), PlayerId(1), PlayerId(1)],
            r.state.current_turn_index == 0,
            r.status == Status::Ongoing,
            synced(r.board),
            state_matches_board(r.state, r.board),
            forall|i: int| 0 <= i < 4 ==> !(#[trigger] r.state.stalemated_armies[i]),
            forall|a: Army, k: PieceKind| #[trigger] mask_of(r.board, a, k)
                == crate::engine::arrays::fire_mask(a, k),
            r.state.king_positions@ == seq![
                Some(4 as Square),
                Some(32 as Square),
                Some(60 as Square),
                Some(39 as Square),
            ],
            r.board.promotion_zones == crate::engine::board::spec_default_promotion_zones(),
            forall|i: int| 0 <= i < 4 ==> !(#[trigger] r.board.armies[i].is_frozen),
            r.board.armies[0].throne_squares == [3u8, 4u8],
            r.board.armies[1].throne_squares == [24u8, 32u8],
            r.board.armies[2].throne_squares == [59u8, 60u8],
            r.board.armies[3].throne_squares == [31u8, 39u8],
            wf(r),
    {
        let spec = crate::engine::arrays::tablet_of_fire_prototype();
        let r = Game::from_array_spec(&spec);
        proof {
            assert(r.config.turn_order@ =~= seq![
                Army::Blue,
                Army::Red,
                Army::Black,
                Army::Yellow,
            ]);
            assert(r.config.controller_map@ =~= seq![
                PlayerId(0),
                PlayerId(0),
                PlayerId(1),
                PlayerId(1),
            ]);
            crate::engine::arrays::lemma_fire_catalog();
            crate::engine::arrays::lemma_fire_disjoint();
            assert forall|a: Army, k: PieceKind| #[trigger] mask_of(r.board, a, k)
                == crate::engine::arrays::fire_mask(a, k) by {
                assert(mask_of(r.board, a, k) == crate::engine::arrays::catalog_mask(
                    spec.placements@,
                    a,
                    k,
                ));
                assert(spec.placements@ == crate::engine::arrays::fire_placements());
            }
            assert(inv(r.board)) by {
                assert forall|a1: Army, k1: PieceKind, a2: Army, k2: PieceKind, s: u64|
                    has_piece(r.board, a1, k1, s) && has_piece(r.board, a2, k2, s) && (a1 != a2
                        || k1 != k2) implies false by {
                    assert(sq_bit(crate::engine::arrays::fire_mask(a1, k1), s));
                    assert(sq_bit(crate::engine::arrays::fire_mask(a2, k2), s));
                }
            }
            assert(at_most_one_king(r.board)) by {
                assert forall|a: Army, s1: u64, s2: u64|
                    has_piece(r.board, a, PieceKind::King, s1) && has_piece(
                        r.board,
                        a,
                        PieceKind::King,
                        s2,
                    ) implies s1 == s2 by {
                    crate::engine::arrays::lemma_fire_bits(a, PieceKind::King);
                    assert(crate::engine::arrays::fire_has(a, PieceKind::King, s1));
                    assert(crate::engine::arrays::fire_has(a, PieceKind::King, s2));
                }
            }
            crate::engine::arrays::lemma_fire_bits(Army::Blue, PieceKind::King);
            crate::engine::arrays::lemma_fire_bits(Army::Black, PieceKind::King);
            crate::engine::arrays::lemma_fire_bits(Army::Red, PieceKind::King);
            crate::engine::arrays::lemma_fire_bits(Army::Yellow, PieceKind::King);
            assert(has_piece(r.board, Army::Blue, PieceKind::King, 4));
            assert(has_piece(r.board, Army::Black, PieceKind::King, 32));
            assert(has_piece(r.board, Army::Red, PieceKind::King, 60));
            assert(has_piece(r.board, Army::Yellow, PieceKind::King, 39));
            lemma_single_king_square(r.board, Army::Blue, 4);
            lemma_single_king_square(r.board, Army::Black, 32);
            lemma_single_king_square(r.board, Army::Red, 60);
            lemma_single_king_square(r.board, Army::Yellow, 39);
            assert(r.state.king_positions@ =~= seq![
                Some(4 as Square),
                Some(32 as Square),
                Some(60 as Square),
                Some(39 as Square),
            ]);
        }
        r
    }
}

/// Round-trip idempotence: any game restored from a snapshot serializes
/// back to that very snapshot — the authoritative fields survive a
/// store-and-reload cycle byte for byte, while the derived fields are
/// rebuilt rather than compared.
pub proof fn lemma_snapshot_roundtrip(s: Snapshot, g: Game)
    requires
        restored_from(s, g),
    ensures
        snapshot_spec(g) == s,
{
    assert(snapshot_spec(g) == s) by {
        assert(snapshot_spec(g).by_army_kind == s.by_army_kind);
    }
}

/// Queens never capture queens: a two-square leap onto a square held by
/// another army's queen is never a legal candidate, whatever else the
/// position holds.
pub proof fn lemma_queen_cannot_capture_queen(g: Game, army: Army, from: u64, to: u64)
    requires
        other_army_kind_at(g.board, army, PieceKind::Queen, to),
    ensures
        !candidate_legal(g, army, PieceKind::Queen, from, to),
{
}

/// Bishops never capture bishops: a diagonal slide onto a square held by
/// another army's bishop is never a legal candidate.
pub proof fn lemma_bishop_cannot_capture_bishop(g: Game, army: Army, from: u64, to: u64)
    requires
        other_army_kind_at(g.board, army, PieceKind::Bishop, to),
    ensures
        !candidate_legal(g, army, PieceKind::Bishop, from, to),
{
}

/// The forced-king rule: when the mover's king is in check and has a
/// legal destination, every surfaced legal move is a king move.
pub proof fn lemma_forced_king_moves_only(g: Game, army: Army, kind: PieceKind, from: u64, to: u64)
    requires
        forced_king(g, army),
        filtered_legal(g, army, kind, from, to),
    ensures
        kind == PieceKind::King,
{
}

/// Derived-field consistency: on a synced board, per-army occupancy is
/// the union of that army's per-kind masks, team occupancy the union of
/// its armies', total occupancy the union of the teams', and the free
/// mask the complement of the total.
pub proof fn lemma_derived_consistency(b: Board)
    requires
        synced(b),
    ensures
        forall|a: Army| #[trigger] b.occupancy_by_army[army_index(a)] == army_occ(b, a),
        forall|t: Team| #[trigger] b.occupancy_by_team[crate::engine::types::team_index(t)]
            == crate::engine::board::team_occ(b, t),
        b.all_occupancy == b.occupancy_by_team[0] | b.occupancy_by_team[1],
        b.free == !b.all_occupancy,
{
    assert forall|a: Army| #[trigger] b.occupancy_by_army[army_index(a)] == army_occ(b, a) by {
        match a {
            Army::Blue => {},
            Army::Black => {},
            Army::Red => {},
            Army::Yellow => {},
        }
    }
    assert forall|t: Team| #[trigger] b.occupancy_by_team[crate::engine::types::team_index(t)]
        == crate::engine::board::team_occ(b, t) by {
        match t {
            Team::Air => {},
            Team::Earth => {},
        }
    }
}

/// The text reported when a frozen army submits a move.
pub open spec fn frozen_msg(a: Army) -> Seq<char> {
    match a {
        Army::Blue => "Blue's army is frozen"@,
        Army::Black => "Black's army is frozen"@,
        Army::Red => "Red's army is frozen"@,
        Army::Yellow => "Yellow's army is frozen"@,
    }
}

/// The text reported when an army submits a move out of turn.
pub open spec fn wrong_turn_msg(a: Army) -> Seq<char> {
    match a {
        Army::Blue => "It is not Blue's turn"@,
        Army::Black => "It is not Black's turn"@,
        Army::Red => "It is not Red's turn"@,
        Army::Yellow => "It is not Yellow's turn"@,
    }
}

/// The name of an army, as a character sequence.
pub open spec fn army_name_seq(a: Army) -> Seq<char> {
    match a {
        Army::Blue => "Blue"@,
        Army::Black => "Black"@,
        Army::Red => "Red"@,
        Army::Yellow => "Yellow"@,
    }
}

/// The name of a piece kind, as a character sequence.
pub open spec fn kind_name_seq(k: PieceKind) -> Seq<char> {
    match k {
        PieceKind::King => "King"@,
        PieceKind::Queen => "Queen"@,
        PieceKind::Bishop => "Bishop"@,
        PieceKind::Knight => "Knight"@,
        PieceKind::Rook => "Rook"@,
        PieceKind::Pawn => "Pawn"@,
    }
}

/// The confirmation text of an accepted move.
pub open spec fn move_msg(army: Army, kind: PieceKind, to: Square) -> Seq<char> {
    army_name_seq(army) + " moved "@ + kind_name_seq(kind) + " to "@ + seq![
        crate::engine::types::spec_file_char(to),
        crate::engine::types::spec_rank_char(to),
    ]
}

/// The stalemate reading of a position: the army's king is not in check
/// and the army has no legal move (a frozen army has none).
pub open spec fn stalemate_now(g: Game, army: Army) -> bool {
    &&& !in_check(g, army)
    &&& (state_frozen(g, army) || forall|kind: PieceKind, f: u64, t: u64|
        !(#[trigger] candidate_legal(g, army, kind, f, t)))
}

/// Whether the army at a turn-order slot may act: neither frozen nor
/// stalemated.
pub open spec fn eligible(g: Game, j: int) -> bool {
    let a = g.config.turn_order[j];
    !g.state.army_frozen[army_index(a)] && !g.state.stalemated_armies[army_index(a)]
}

/// Where the turn pointer lands: the first eligible slot after the
/// current one, wrapping; back to the current slot when no other is
/// eligible.
pub open spec fn next_turn_index(g: Game) -> int {
    let i = g.state.current_turn_index as int;
    if eligible(g, (i + 1) % 4) {
        (i + 1) % 4
    } else if eligible(g, (i + 2) % 4) {
        (i + 2) % 4
    } else if eligible(g, (i + 3) % 4) {
        (i + 3) % 4
    } else {
        i
    }
}

impl Game {
    /// Recomputes the army's stalemate flag: set iff the army is not in
    /// check and has no legal move.
    pub fn update_stalemate_status(&mut self, army: Army)
        requires
            wf(*old(self)),
        ensures
            final(self).board == old(self).board,
            final(self).config == old(self).config,
            final(self).status == old(self).status,
            final(self).state.current_turn_index == old(self).state.current_turn_index,
            final(self).state.army_frozen == old(self).state.army_frozen,
            final(self).state.king_positions == old(self).state.king_positions,
            final(self).state.stalemated_armies@ == old(self).state.stalemated_armies@.update(
                army_index(army),
                stalemate_now(*old(self), army),
            ),
            wf(*final(self)),
    {
        proof {
            lemma_king_square_from_bits(self.board, army);
        }
        if self.king_in_check(army) {
            self.state.set_stalemate(army, false);
            return ;
        }
        let lm = self.generate_legal_moves(army);
        if lm.is_empty() {
            proof {
                assert(stalemate_now(*self, army)) by {
                    if !state_frozen(*self, army) {
                        assert forall|kind: PieceKind, f: u64, t: u64|
                            !(#[trigger] candidate_legal(*self, army, kind, f, t)) by {
                            if candidate_legal(*self, army, kind, f, t) {
                                let m = Move {
                                    from: f as Square,
                                    to: t as Square,
                                    kind,
                                    promotion: None,
                                };
                                assert(filtered_legal(*self, army, kind, f, t));
                                assert(lm@.contains(m));
                                let idx = choose|idx: int|
                                    0 <= idx < lm@.len() && lm@[idx] == m;
                            }
                        }
                    }
                }
            }
            self.state.set_stalemate(army, true);
        } else {
            proof {
                assert(!stalemate_now(*self, army)) by {
                    let m0 = lm@[0];
                    assert(lm@.contains(m0));
                    assert(candidate_legal(*self, army, m0.kind, m0.from as u64, m0.to as u64));
                    assert(!state_frozen(*self, army));
                }
            }
            self.state.set_stalemate(army, false);
        }
    }

    /// Moves the turn pointer to the next army that is neither frozen nor
    /// stalemated, wrapping through the order at most once.
    pub fn advance_to_next_army(&mut self)
        requires
            old(self).state.current_turn_index < 4,
        ensures
            final(self).board == old(self).board,
            final(self).config == old(self).config,
            final(self).status == old(self).status,
            final(self).state.army_frozen == old(self).state.army_frozen,
            final(self).state.king_positions == old(self).state.king_positions,
            final(self).state.stalemated_armies == old(self).state.stalemated_armies,
            final(self).state.current_turn_index as int == next_turn_index(*old(self)),
            wf(*old(self)) ==> wf(*final(self)),
    {
        let mut done = false;
        let mut c: usize = 0;
        while c < 4
            invariant
                c <= 4,
                self.board == old(self).board,
                self.config == old(self).config,
                self.status == old(self).status,
                self.state.army_frozen == old(self).state.army_frozen,
                self.state.king_positions == old(self).state.king_positions,
                self.state.stalemated_armies == old(self).state.stalemated_armies,
                self.state.current_turn_index < 4,
                old(self).state.current_turn_index < 4,
                done ==> self.state.current_turn_index as int == next_turn_index(*old(self)),
                !done ==> self.state.current_turn_index as int == (old(
                    self,
                ).state.current_turn_index as int + c as int) % 4,
                !done ==> forall|k: int|
                    1 <= k <= c as int ==> !(#[trigger] eligible(
                        *old(self),
                        (old(self).state.current_turn_index as int + k) % 4,
                    )),
            decreases 4 - c,
        {
            if !done {
                self.state.advance_turn(&self.config);
                let candidate = self.state.current_army(&self.config);
                if !self.state.army_frozen[candidate.index()] && !self.state.is_stalemated(
                    candidate,
                ) {
                    done = true;
                    proof {
                        let i0 = old(self).state.current_turn_index as int;
                        assert(eligible(*old(self), self.state.current_turn_index as int));
                        assert(self.state.current_turn_index as int == (i0 + c as int + 1) % 4);
                        if c as int >= 1 {
                            assert(!eligible(*old(self), (i0 + 1) % 4));
                        }
                        if c as int >= 2 {
                            assert(!eligible(*old(self), (i0 + 2) % 4));
                        }
                        if c as int >= 3 {
                            assert(!eligible(*old(self), (i0 + 3) % 4));
                        }
                        if c as int == 3 {
                            assert((i0 + 4) % 4 == i0);
                        }
                    }
                }
            }
            c = c + 1;
        }
        proof {
            if !done {
                assert(self.state.current_turn_index as int == (old(
                    self,
                ).state.current_turn_index as int + 4) % 4);
                assert((old(self).state.current_turn_index as int + 4) % 4 == old(
                    self,
                ).state.current_turn_index as int);
            }
        }
    }
}

/// The square of an army's only king determines its cached king square.
pub proof fn lemma_single_king_square(b: Board, a: Army, s: u64)
    requires
        at_most_one_king(b),
        has_piece(b, a, PieceKind::King, s),
    ensures
        spec_king_square(b, a) == Some(s as Square),
{
    let m = mask_of(b, a, PieceKind::King);
    assert forall|i: u64| i < 64 implies (sq_bit(m, i) <==> i == s) by {
        if sq_bit(m, i) {
            assert(has_piece(b, a, PieceKind::King, i));
        }
    }
    crate::engine::bits::lemma_bit_ext(m, 1u64 << s);
    vstd::std_specs::bits::axiom_u64_trailing_zeros(m);
    let tz = vstd::std_specs::bits::u64_trailing_zeros(m);
    assert(m != 0) by {
        assert(sq_bit(m, s));
        assert(!sq_bit(0u64, s));
    }
    assert(sq_bit(m, tz as u64));
}

/// The stalemate reading transfers between games holding the same pieces,
/// frozen flags and cached king squares.
pub proof fn lemma_stalemate_now_same(g1: Game, g2: Game)
    requires
        g1.board.by_army_kind == g2.board.by_army_kind,
        g1.state.army_frozen == g2.state.army_frozen,
        g1.state.king_positions == g2.state.king_positions,
        inv(g1.board),
    ensures
        forall|a: Army| #[trigger] stalemate_now(g1, a) == stalemate_now(g2, a),
{
    lemma_eval_same(g1, g2);
    assert forall|a: Army| #[trigger] stalemate_now(g1, a) == stalemate_now(g2, a) by {
        if !state_frozen(g1, a) {
            if forall|kind: PieceKind, f: u64, t: u64|
                !(#[trigger] candidate_legal(g1, a, kind, f, t)) {
                assert forall|kind: PieceKind, f: u64, t: u64|
                    !(#[trigger] candidate_legal(g2, a, kind, f, t)) by {
                    assert(candidate_legal(g1, a, kind, f, t) == candidate_legal(
                        g2,
                        a,
                        kind,
                        f,
                        t,
                    ));
                }
            }
            if forall|kind: PieceKind, f: u64, t: u64|
                !(#[trigger] candidate_legal(g2, a, kind, f, t)) {
                assert forall|kind: PieceKind, f: u64, t: u64|
                    !(#[trigger] candidate_legal(g1, a, kind, f, t)) by {
                    assert(candidate_legal(g1, a, kind, f, t) == candidate_legal(
                        g2,
                        a,
                        kind,
                        f,
                        t,
                    ));
                }
            }
        }
    }
}

/// The message built for a frozen-army rejection.
fn frozen_message(army: Army) -> (r: String)
    ensures
        r@ == frozen_msg(army),
{
    match army {
        Army::Blue => "Blue's army is frozen".to_owned(),
        Army::Black => "Black's army is frozen".to_owned(),
        Army::Red => "Red's army is frozen".to_owned(),
        Army::Yellow => "Yellow's army is frozen".to_owned(),
    }
}

/// The message built for an out-of-turn rejection.
fn wrong_turn_message(army: Army) -> (r: String)
    ensures
        r@ == wrong_turn_msg(army),
{
    match army {
        Army::Blue => "It is not Blue's turn".to_owned(),
        Army::Black => "It is not Black's turn".to_owned(),
        Army::Red => "It is not Red's turn".to_owned(),
        Army::Yellow => "It is not Yellow's turn".to_owned(),
    }
}

/// The confirmation text of an accepted move.
fn move_message(army: Army, kind: PieceKind, to: Square) -> (r: String)
    requires
        to < 64,
    ensures
        r@ == move_msg(army, kind, to),
{
    let mut s = army.display_name().to_owned();
    s.append(" moved ");
    s.append(kind.name());
    s.append(" to ");
    s.append(crate::engine::types::file_str(to));
    s.append(crate::engine::types::rank_str(to));
    proof {
        assert(s@ =~= move_msg(army, kind, to));
    }
    s
}

/// Materializing a candidate on the real board leaves exactly the masks
/// the simulated board describes, bit for bit.
proof fn lemma_sim_board_masks(b: Board, army: Army, kind: PieceKind, from: u64, to: u64)
    requires
        from < 64,
        to < 64,
        inv(b),
    ensures
        forall|a: Army, k: PieceKind, s: u64|
            s < 64 ==> (#[trigger] has_piece(sim_board(b, army, kind, from, to), a, k, s) <==> ((
            has_piece(b, a, k, s) && !(occupant(b, to) == Some((a, k)) && s == to) && !(a == army
                && k == kind && s == from)) || (a == army && k == kind && s == to))),
{
    let b1 = match occupant(b, to) {
        Some(ak) => board_set_mask(b, ak.0, ak.1, mask_of(b, ak.0, ak.1) & !(1u64 << to)),
        None => b,
    };
    let b2 = board_set_mask(
        b1,
        army,
        kind,
        (mask_of(b1, army, kind) & !(1u64 << from)) | (1u64 << to),
    );
    assert forall|a: Army, k: PieceKind, s: u64|
        s < 64 implies (#[trigger] has_piece(b1, a, k, s) <==> (has_piece(b, a, k, s) && !(
        occupant(b, to) == Some((a, k)) && s == to))) by {
        match occupant(b, to) {
            Some(ak) => {
                if a == ak.0 && k == ak.1 {
                    assert(mask_of(b1, a, k) == mask_of(b, a, k) & !(1u64 << to));
                } else {
                    assert(mask_of(b1, a, k) == mask_of(b, a, k));
                }
            },
            None => {},
        }
    }
    assert forall|a: Army, k: PieceKind, s: u64|
        s < 64 implies (#[trigger] has_piece(b2, a, k, s) <==> ((has_piece(b1, a, k, s) && !(a
        == army && k == kind && s == from)) || (a == army && k == kind && s == to))) by {
        if a == army && k == kind {
            assert(mask_of(b2, a, k) == (mask_of(b1, a, k) & !(1u64 << from)) | (1u64 << to));
        } else {
            assert(mask_of(b2, a, k) == mask_of(b1, a, k));
        }
    }
    assert forall|a: Army, k: PieceKind, s: u64|
        s < 64 implies (#[trigger] has_piece(sim_board(b, army, kind, from, to), a, k, s) <==> ((
    has_piece(b, a, k, s) && !(occupant(b, to) == Some((a, k)) && s == to) && !(a == army && k
        == kind && s == from)) || (a == army && k == kind && s == to))) by {
        assert(has_piece(b2, a, k, s) == has_piece(sim_board(b, army, kind, from, to), a, k, s));
    }
}

/// The submitting army is the one whose turn it is.
pub open spec fn is_turn(g: Game, army: Army) -> bool {
    g.config.turn_order[g.state.current_turn_index as int] == army
}

/// Some kind makes (from, to) a surfaced legal move.
pub open spec fn some_filtered(g: Game, army: Army, from: u64, to: u64) -> bool {
    exists|kind: PieceKind| #[trigger] filtered_legal(g, army, kind, from, to)
}

/// The kind of the surfaced legal move from `from` to `to`; unique under
/// occupancy disjointness.
pub open spec fn legal_kind(g: Game, army: Army, from: u64, to: u64) -> PieceKind {
    choose|kind: PieceKind| filtered_legal(g, army, kind, from, to)
}

/// The requested promotion target, defaulting to queen.
pub open spec fn promo_target(promotion: Option<PieceKind>) -> PieceKind {
    match promotion {
        Some(p) => p,
        None => PieceKind::Queen,
    }
}

/// The promotion request is rejected: a privileged pawn reaching its zone
/// asked to become a pawn or a king.
pub open spec fn promo_rejected(
    g: Game,
    army: Army,
    kind: PieceKind,
    to: u64,
    promotion: Option<PieceKind>,
) -> bool {
    &&& kind == PieceKind::Pawn
    &&& sq_bit(g.board.promotion_zones[army_index(army)], to)
    &&& spec_privileged(g.board, army)
    &&& (promotion matches Some(p) && (p == PieceKind::Pawn || p == PieceKind::King))
}

/// The army whose king stands on the destination, if any.
pub open spec fn captured_king_army(g: Game, to: u64) -> Option<Army> {
    match occupant(g.board, to) {
        Some(ak) => if ak.1 == PieceKind::King {
            Some(ak.0)
        } else {
            None
        },
        None => None,
    }
}

/// A king move onto the team ally's throne square seizes it.
pub open spec fn throne_seized(g: Game, army: Army, kind: PieceKind, to: u64) -> bool {
    kind == PieceKind::King && army_has_throne(g.board, ally_of(army), to as Square)
}

/// The per-bit content of the board after an accepted move, promotion
/// included.
pub open spec fn applied_bit(
    g: Game,
    army: Army,
    kind: PieceKind,
    from: u64,
    to: u64,
    promotion: Option<PieceKind>,
    a: Army,
    k: PieceKind,
    s: u64,
) -> bool {
    let sb = sim_board(g.board, army, kind, from, to);
    if kind == PieceKind::Pawn && sq_bit(g.board.promotion_zones[army_index(army)], to) {
        let tk = if spec_privileged(g.board, army) {
            promo_target(promotion)
        } else {
            PieceKind::Queen
        };
        let dm = mask_of(sb, army, tk);
        if dm == 0 {
            if a == army && k == tk {
                has_piece(sb, a, k, s) || s == to
            } else if a == army && k == PieceKind::Pawn {
                has_piece(sb, a, k, s) && s != to
            } else {
                has_piece(sb, a, k, s)
            }
        } else {
            let ds = vstd::std_specs::bits::u64_trailing_zeros(dm) as u64;
            if a == army && k == tk {
                (has_piece(sb, a, k, s) && s != ds) || s == to
            } else if a == army && k == PieceKind::Pawn {
                (has_piece(sb, a, k, s) || s == ds) && s != to
            } else {
                has_piece(sb, a, k, s)
            }
        }
    } else {
        has_piece(sb, a, k, s)
    }
}

/// Privileged promotion: the army holds its king and a pawn, and at most
/// one piece among queen, bishop, knight and rook.
pub open spec fn spec_privileged(b: Board, army: Army) -> bool {
    &&& popcount(mask_of(b, army, PieceKind::King)) >= 1
    &&& popcount(mask_of(b, army, PieceKind::Pawn)) >= 1
    &&& popcount(mask_of(b, army, PieceKind::Queen)) + popcount(mask_of(b, army, PieceKind::Bishop))
        + popcount(mask_of(b, army, PieceKind::Knight)) + popcount(
        mask_of(b, army, PieceKind::Rook),
    ) <= 1
}

/// The other army of the same team.
pub open spec fn ally_of(a: Army) -> Army {
    match a {
        Army::Blue => Army::Black,
        Army::Black => Army::Blue,
        Army::Red => Army::Yellow,
        Army::Yellow => Army::Red,
    }
}

/// The army attacks the square: some piece of the army could land there
/// under the attack reading. Pawns attack their forward diagonals; kings
/// and knights their step squares; bishops and rooks their rays up to the
/// first occupied square; queens attack their two-square leap
/// destinations — the queen does not slide. A frozen army attacks
/// nothing.
pub open spec fn attacked_by_army(g: Game, square: u64, army: Army) -> bool {
    &&& !state_frozen(g, army)
    &&& ({
        ||| (exists|f: u64|
            f < 64 && #[trigger] has_piece(g.board, army, PieceKind::Pawn, f) && pawn_attack_dest(
                g.board,
                army,
                f,
                square,
            ))
        ||| (spec_king_square(g.board, army) matches Some(ks) && king_dest(
            g.board,
            army,
            ks as u64,
            square,
        ))
        ||| (exists|f: u64|
            f < 64 && #[trigger] has_piece(g.board, army, PieceKind::Knight, f) && knight_dest(
                g.board,
                army,
                f,
                square,
            ))
        ||| (exists|f: u64, d: int|
            f < 64 && is_diagonal_dir(d) && has_piece(g.board, army, PieceKind::Bishop, f)
                && #[trigger] attack_reach(total_occ(g.board), f, d, square))
        ||| (exists|f: u64, d: int|
            f < 64 && is_orthogonal_dir(d) && has_piece(g.board, army, PieceKind::Rook, f)
                && #[trigger] attack_reach(total_occ(g.board), f, d, square))
        ||| (exists|f: u64|
            f < 64 && #[trigger] has_piece(g.board, army, PieceKind::Queen, f) && queen_dest(
                g.board,
                army,
                f,
                square,
            ))
    })
}

/// Some army of the team attacks the square.
pub open spec fn attacked_by_team(g: Game, square: u64, team: Team) -> bool {
    ||| attacked_by_army(g, square, if team == Team::Air {
        Army::Blue
    } else {
        Army::Red
    })
    ||| attacked_by_army(g, square, if team == Team::Air {
        Army::Black
    } else {
        Army::Yellow
    })
}

/// The army's cached king square is attacked by the opposing team.
pub open spec fn in_check(g: Game, army: Army) -> bool {
    g.state.king_positions[army_index(army)] matches Some(sq) && attacked_by_team(
        g,
        sq as u64,
        spec_opponent(army_team(army)),
    )
}

/// Mask-only well-formedness facts transfer between boards holding the
/// same pieces.
pub proof fn lemma_wf_transfer(b1: Board, b2: Board)
    requires
        b1.by_army_kind == b2.by_army_kind,
    ensures
        inv(b1) == inv(b2),
        at_most_one_king(b1) == at_most_one_king(b2),
        forall|a: Army| #[trigger] spec_king_square(b1, a) == spec_king_square(b2, a),
        forall|a: Army, k: PieceKind, s: u64|
            #[trigger] has_piece(b1, a, k, s) == has_piece(b2, a, k, s),
{
    crate::engine::board::lemma_masks_same_facts(b1, b2);
    assert(at_most_one_king(b1) == at_most_one_king(b2)) by {
        if at_most_one_king(b1) {
            assert forall|a: Army, s1: u64, s2: u64|
                has_piece(b2, a, PieceKind::King, s1) && has_piece(
                    b2,
                    a,
                    PieceKind::King,
                    s2,
                ) implies s1 == s2 by {
                assert(has_piece(b1, a, PieceKind::King, s1));
                assert(has_piece(b1, a, PieceKind::King, s2));
            }
        }
        if at_most_one_king(b2) {
            assert forall|a: Army, s1: u64, s2: u64|
                has_piece(b1, a, PieceKind::King, s1) && has_piece(
                    b1,
                    a,
                    PieceKind::King,
                    s2,
                ) implies s1 == s2 by {
                assert(has_piece(b2, a, PieceKind::King, s1));
                assert(has_piece(b2, a, PieceKind::King, s2));
            }
        }
    }
}

impl Game {
    /// Commits an accepted candidate move: removes the captured piece (a
    /// captured king freezes its army and clears its cache instead),
    /// relocates the mover, and handles a moving king's cache update and
    /// throne seizure. The resulting masks are exactly those of the
    /// simulated board.
    #[verifier::rlimit(100)]
    fn commit_move(&mut self, army: Army, kind: PieceKind, from: Square, to: Square)
        requires
            wf(*old(self)),
            from < 64,
            to < 64,
            has_piece(old(self).board, army, kind, from as u64),
            piece_dest(old(self).board, army, kind, from as u64, to as u64),
        ensures
            forall|a: Army, k: PieceKind| #[trigger] mask_of(final(self).board, a, k) == mask_of(
                sim_board(old(self).board, army, kind, from as u64, to as u64),
                a,
                k,
            ),
            wf(*final(self)),
            ({
                let kc = captured_king_army(*old(self), to as u64);
                let seized = throne_seized(*old(self), army, kind, to as u64);
                &&& forall|a: Army| #[trigger] final(self).state.king_positions[army_index(a)]
                    == (if kc == Some(a) {
                    None
                } else if a == army && kind == PieceKind::King {
                    Some(to)
                } else {
                    old(self).state.king_positions[army_index(a)]
                })
                &&& forall|a: Army| #[trigger] final(self).state.army_frozen[army_index(a)] == (
                if seized && a == ally_of(army) {
                    false
                } else if kc == Some(a) {
                    true
                } else {
                    old(self).state.army_frozen[army_index(a)]
                })
                &&& forall|a: Army| #[trigger] final(self).board.armies[army_index(a)]
                    == (ArmyState {
                    is_frozen: if seized && a == ally_of(army) {
                        false
                    } else if kc == Some(a) {
                        true
                    } else {
                        old(self).board.armies[army_index(a)].is_frozen
                    },
                    controller: if seized && a == ally_of(army) {
                        old(self).board.armies[army_index(army)].controller
                    } else {
                        old(self).board.armies[army_index(a)].controller
                    },
                    ..old(self).board.armies[army_index(a)]
                })
            }),
            final(self).state.current_turn_index == old(self).state.current_turn_index,
            final(self).state.stalemated_armies == old(self).state.stalemated_armies,
            final(self).config == old(self).config,
            final(self).status == old(self).status,
            final(self).board.promotion_zones == old(self).board.promotion_zones,
            kind == PieceKind::Pawn ==> spec_privileged(final(self).board, army)
                == spec_privileged(old(self).board, army),
    {
        let ghost g0 = *self;
        let ghost f = from as u64;
        let ghost t = to as u64;
        match self.board.piece_at(to) {
            Option::Some((ta, tk2)) => {
                proof {
                    assert(ta != army) by {
                        if ta == army {
                            assert(own_at(self.board, army, t));
                            crate::engine::board::lemma_total_occ_bit(self.board, t);
                        }
                    }
                    assert(occupant(self.board, t) == Some((ta, tk2))) by {
                        assert(occupied(self.board, t));
                        let (a2, k2) = choose|a2: Army, k2: PieceKind|
                            #[trigger] has_piece(self.board, a2, k2, t);
                        assert(has_piece(self.board, ta, tk2, t));
                        assert(!(has_piece(self.board, a2, k2, t) && has_piece(
                            self.board,
                            ta,
                            tk2,
                            t,
                        ) && (a2 != ta || k2 != tk2)));
                    }
                }
                if matches!(tk2, PieceKind::King) {
                    proof {
                        lemma_single_king_square(self.board, ta, t);
                    }
                    self.capture_king(ta);
                } else {
                    self.board.remove_piece(ta, tk2, to);
                }
            },
            Option::None => {
                proof {
                    assert(occupant(self.board, t) is None);
                }
            },
        }
        let ghost g_cap = *self;
        proof {
            // the destination is empty after the capture phase
            assert forall|a: Army, k: PieceKind, s: u64|
                s < 64 implies (#[trigger] has_piece(g_cap.board, a, k, s) <==> (has_piece(
                g0.board,
                a,
                k,
                s,
            ) && !(occupant(g0.board, t) == Some((a, k)) && s == t))) by {
                match occupant(g0.board, t) {
                    Some(ak) => {
                        if ak.1 == PieceKind::King {
                            assert(has_piece(g_cap.board, a, k, s) <==> (has_piece(
                                g0.board,
                                a,
                                k,
                                s,
                            ) && s != t));
                            if has_piece(g0.board, a, k, s) && s == t && !(a == ak.0 && k
                                == ak.1) {
                                assert(has_piece(g0.board, ak.0, ak.1, t));
                                assert(false);
                            }
                        }
                    },
                    None => {
                        assert(mask_of(g_cap.board, a, k) == mask_of(g0.board, a, k));
                    },
                }
            }
            assert(!occupied(g_cap.board, t)) by {
                if occupied(g_cap.board, t) {
                    let (a2, k2) = choose|a2: Army, k2: PieceKind|
                        #[trigger] has_piece(g_cap.board, a2, k2, t);
                    assert(has_piece(g0.board, a2, k2, t));
                    assert(occupant(g0.board, t) == Some((a2, k2))) by {
                        let (a3, k3) = choose|a3: Army, k3: PieceKind|
                            #[trigger] has_piece(g0.board, a3, k3, t);
                        assert(!(has_piece(g0.board, a3, k3, t) && has_piece(g0.board, a2, k2, t)
                            && (a3 != a2 || k3 != k2)));
                    }
                }
            }
        }
        self.board.move_piece(army, kind, from, to);
        let ghost g_pm = *self;
        if matches!(kind, PieceKind::King) {
            self.state.set_king_square(army, Some(to));
            self.seize_throne_at(army, to);
        }
        proof {
            crate::engine::board::lemma_masks_same_facts(g_pm.board, self.board);
            lemma_wf_transfer(g_pm.board, self.board);
            let sb = sim_board(g0.board, army, kind, f, t);
            lemma_sim_board_masks(g0.board, army, kind, f, t);
            // per-bit agreement with the simulated board
            assert forall|a: Army, k: PieceKind, s: u64|
                s < 64 implies (#[trigger] has_piece(self.board, a, k, s) <==> has_piece(
                sb,
                a,
                k,
                s,
            )) by {
                assert(has_piece(self.board, a, k, s) == has_piece(g_pm.board, a, k, s));
            }
            // and value-level agreement, mask by mask
            assert forall|a: Army, k: PieceKind| #[trigger] mask_of(self.board, a, k) == mask_of(
                sb,
                a,
                k,
            ) by {
                assert forall|s: u64|
                    s < 64 implies (sq_bit(mask_of(self.board, a, k), s) <==> sq_bit(
                    mask_of(sb, a, k),
                    s,
                )) by {
                    assert(has_piece(self.board, a, k, s) == has_piece(sb, a, k, s));
                }
                crate::engine::bits::lemma_bit_ext(mask_of(self.board, a, k), mask_of(sb, a, k));
            }
            // single kings and synced caches in the new position
            assert(at_most_one_king(self.board)) by {
                assert forall|a: Army, s1: u64, s2: u64|
                    has_piece(self.board, a, PieceKind::King, s1) && has_piece(
                        self.board,
                        a,
                        PieceKind::King,
                        s2,
                    ) implies s1 == s2 by {
                    if a == army && kind == PieceKind::King {
                        if s1 != t {
                            assert(has_piece(g0.board, a, PieceKind::King, s1));
                            assert(s1 == f);
                            assert(false);
                        }
                        if s2 != t {
                            assert(has_piece(g0.board, a, PieceKind::King, s2));
                            assert(s2 == f);
                            assert(false);
                        }
                    } else {
                        assert(has_piece(g0.board, a, PieceKind::King, s1));
                        assert(has_piece(g0.board, a, PieceKind::King, s2));
                    }
                }
            }
            assert(kings_synced(*self)) by {
                assert forall|a: Army| #[trigger] self.state.king_positions[army_index(a)]
                    == spec_king_square(self.board, a) by {
                    let kc = captured_king_army(g0, t);
                    if a == army && kind == PieceKind::King {
                        assert(has_piece(self.board, army, PieceKind::King, t));
                        lemma_single_king_square(self.board, army, t);
                    } else if kc == Some(a) {
                        lemma_king_square_from_bits(self.board, a);
                        assert forall|s: u64| !has_piece(self.board, a, PieceKind::King, s) by {
                            if has_piece(self.board, a, PieceKind::King, s) {
                                assert(has_piece(g0.board, a, PieceKind::King, s));
                                assert(has_piece(g0.board, a, PieceKind::King, t));
                                assert(s == t);
                                assert(false);
                            }
                        }
                    } else {
                        assert(mask_of(self.board, a, PieceKind::King) == mask_of(
                            g0.board,
                            a,
                            PieceKind::King,
                        )) by {
                            assert forall|s: u64|
                                s < 64 implies (sq_bit(mask_of(self.board, a, PieceKind::King), s)
                                <==> sq_bit(mask_of(g0.board, a, PieceKind::King), s)) by {
                                if has_piece(g0.board, a, PieceKind::King, s) && occupant(
                                    g0.board,
                                    t,
                                ) == Some((a, PieceKind::King)) && s == t {
                                    assert(kc == Some(a));
                                }
                            }
                            crate::engine::bits::lemma_bit_ext(
                                mask_of(self.board, a, PieceKind::King),
                                mask_of(g0.board, a, PieceKind::King),
                            );
                        }
                        lemma_king_square_from_bits(self.board, a);
                        lemma_king_square_from_bits(g0.board, a);
                        assert(spec_king_square(self.board, a) == spec_king_square(g0.board, a));
                    }
                }
            }
            // a pawn move never changes the privileged-pawn judgement
            if kind == PieceKind::Pawn {
                assert forall|k: PieceKind| k != PieceKind::Pawn implies #[trigger] mask_of(
                    self.board,
                    army,
                    k,
                ) == mask_of(g0.board, army, k) by {
                    assert(mask_of(self.board, army, k) == mask_of(sb, army, k));
                    match occupant(g0.board, t) {
                        Some(ak) => {
                            assert(ak.0 != army) by {
                                if ak.0 == army {
                                    assert(own_at(g0.board, army, t));
                                    crate::engine::board::lemma_total_occ_bit(g0.board, t);
                                }
                            }
                        },
                        None => {},
                    }
                }
                let pm0 = mask_of(g0.board, army, PieceKind::Pawn);
                let pm1 = mask_of(self.board, army, PieceKind::Pawn);
                assert(sq_bit(pm0, f));
                assert(!sq_bit(pm0, t)) by {
                    if sq_bit(pm0, t) {
                        assert(has_piece(g0.board, army, PieceKind::Pawn, t));
                        assert(own_at(g0.board, army, t));
                        crate::engine::board::lemma_total_occ_bit(g0.board, t);
                    }
                }
                if f == t {
                    assert(false);
                }
                assert forall|s: u64|
                    s < 64 implies (#[trigger] sq_bit(pm1, s) == (if s == f {
                    false
                } else if s == t {
                    true
                } else {
                    sq_bit(pm0, s)
                })) by {
                    assert(has_piece(self.board, army, PieceKind::Pawn, s) == has_piece(
                        sb,
                        army,
                        PieceKind::Pawn,
                        s,
                    ));
                    if has_piece(g0.board, army, PieceKind::Pawn, s) && occupant(g0.board, t)
                        == Some((army, PieceKind::Pawn)) && s == t {
                        assert(own_at(g0.board, army, t));
                        crate::engine::board::lemma_total_occ_bit(g0.board, t);
                    }
                }
                crate::engine::board::lemma_count_flip(pm0, pm1, f, t, 64);
            }
        }
    }

    /// Recomputes the stalemate flag of all four armies: a move by one
    /// army can stalemate another.
    fn update_all_stalemates(&mut self)
        requires
            wf(*old(self)),
        ensures
            wf(*final(self)),
            final(self).board == old(self).board,
            final(self).config == old(self).config,
            final(self).status == old(self).status,
            final(self).state.current_turn_index == old(self).state.current_turn_index,
            final(self).state.army_frozen == old(self).state.army_frozen,
            final(self).state.king_positions == old(self).state.king_positions,
            forall|a: Army| #[trigger] final(self).state.stalemated_armies[army_index(a)]
                == stalemate_now(*final(self), a),
    {
        let mut ai: usize = 0;
        while ai < 4
            invariant
                ai <= 4,
                wf(*self),
                self.board == old(self).board,
                self.config == old(self).config,
                self.status == old(self).status,
                self.state.current_turn_index == old(self).state.current_turn_index,
                self.state.army_frozen == old(self).state.army_frozen,
                self.state.king_positions == old(self).state.king_positions,
                forall|a: Army|
                    army_index(a) < ai as int ==> #[trigger] self.state.stalemated_armies[
                        army_index(a)] == stalemate_now(*self, a),
            decreases 4 - ai,
        {
            let other = Army::from_index(ai);
            let ghost pre = *self;
            self.update_stalemate_status(other);
            proof {
                lemma_stalemate_now_same(pre, *self);
            }
            ai = ai + 1;
        }
    }

    /// The single state-changing entry point: validates the submitted move
    /// against the legal-move list and, on acceptance, performs the
    /// capture (freezing a captured king's army), relocates the mover,
    /// handles throne seizure and promotion, recomputes every army's
    /// stalemate flag and advances the turn past ineligible armies. Every
    /// rejection leaves the game unchanged.
    #[verifier::rlimit(100)]
    pub fn apply_move(
        &mut self,
        army: Army,
        from: Square,
        to: Square,
        promotion: Option<PieceKind>,
    ) -> (r: Result<String, String>)
        requires
            wf(*old(self)),
        ensures
            wf(*final(self)),
            r is Err ==> *final(self) == *old(self),
            r is Ok <==> (!state_frozen(*old(self), army) && is_turn(*old(self), army)
                && some_filtered(*old(self), army, from as u64, to as u64) && !promo_rejected(
                *old(self),
                army,
                legal_kind(*old(self), army, from as u64, to as u64),
                to as u64,
                promotion,
            )),
            state_frozen(*old(self), army) ==> (r matches Err(e) && e@ == frozen_msg(army)),
            !state_frozen(*old(self), army) && !is_turn(*old(self), army) ==> (r matches Err(e)
                && e@ == wrong_turn_msg(army)),
            !state_frozen(*old(self), army) && is_turn(*old(self), army) && !some_filtered(
                *old(self),
                army,
                from as u64,
                to as u64,
            ) ==> (r matches Err(e) && e@ == "Invalid move"@),
            !state_frozen(*old(self), army) && is_turn(*old(self), army) && some_filtered(
                *old(self),
                army,
                from as u64,
                to as u64,
            ) && promo_rejected(
                *old(self),
                army,
                legal_kind(*old(self), army, from as u64, to as u64),
                to as u64,
                promotion,
            ) ==> (r matches Err(e) && e@ == "Promotion failed"@),
            r is Ok ==> ({
                let g = *old(self);
                let kind = legal_kind(g, army, from as u64, to as u64);
                let kc = captured_king_army(g, to as u64);
                let seized = throne_seized(g, army, kind, to as u64);
                &&& (r matches Ok(m) && m@ == move_msg(army, kind, to))
                &&& forall|a: Army, k: PieceKind, s: u64|
                    s < 64 ==> (#[trigger] has_piece(final(self).board, a, k, s) <==> applied_bit(
                        g,
                        army,
                        kind,
                        from as u64,
                        to as u64,
                        promotion,
                        a,
                        k,
                        s,
                    ))
                &&& forall|a: Army| #[trigger] final(self).state.king_positions[army_index(a)]
                    == (if kc == Some(a) {
                    None
                } else if a == army && kind == PieceKind::King {
                    Some(to)
                } else {
                    g.state.king_positions[army_index(a)]
                })
                &&& forall|a: Army| #[trigger] final(self).state.army_frozen[army_index(a)] == (
                if seized && a == ally_of(army) {
                    false
                } else if kc == Some(a) {
                    true
                } else {
                    g.state.army_frozen[army_index(a)]
                })
                &&& forall|a: Army| #[trigger] final(self).board.armies[army_index(a)]
                    == (ArmyState {
                    is_frozen: if seized && a == ally_of(army) {
                        false
                    } else if kc == Some(a) {
                        true
                    } else {
                        g.board.armies[army_index(a)].is_frozen
                    },
                    controller: if seized && a == ally_of(army) {
                        g.board.armies[army_index(army)].controller
                    } else {
                        g.board.armies[army_index(a)].controller
                    },
                    ..g.board.armies[army_index(a)]
                })
                &&& forall|a: Army| #[trigger] final(self).state.stalemated_armies[army_index(a)]
                    == stalemate_now(*final(self), a)
                &&& final(self).state.current_turn_index as int == next_turn_index(
                    Game {
                        state: GameState {
                            current_turn_index: g.state.current_turn_index,
                            ..final(self).state
                        },
                        ..*final(self)
                    },
                )
            }),
            final(self).config == old(self).config,
            final(self).status == old(self).status,
            final(self).board.promotion_zones == old(self).board.promotion_zones,
    {
        if self.army_is_frozen(army) {
            return Err(frozen_message(army));
        }
        let current = self.current_army();
        if !matches!(
            (army, current),
            (Army::Blue, Army::Blue) | (Army::Black, Army::Black) | (Army::Red, Army::Red) | (
                Army::Yellow,
                Army::Yellow,
            )
        ) {
            return Err(wrong_turn_message(army));
        }
        let legal_moves = self.generate_legal_moves(army);
        let n = legal_moves.len();
        let mut found: Option<Move> = None;
        let mut i: usize = 0;
        while i < n
            invariant
                i <= n,
                n == legal_moves@.len(),
                found matches Some(m) ==> legal_moves@.contains(m) && m.from == from && m.to == to,
                found is None ==> forall|j: int|
                    0 <= j < i as int ==> !(#[trigger] legal_moves@[j].from == from
                        && legal_moves@[j].to == to),
            decreases n - i,
        {
            let m = legal_moves[i];
            if found.is_none() && m.from == from && m.to == to {
                proof {
                    assert(legal_moves@.contains(m));
                }
                found = Some(m);
            }
            i = i + 1;
        }
        proof {
            match found {
                Some(m) => {
                    assert(filtered_legal(*self, army, m.kind, from as u64, to as u64));
                    assert(some_filtered(*self, army, from as u64, to as u64));
                },
                None => {
                    assert(!some_filtered(*self, army, from as u64, to as u64)) by {
                        if some_filtered(*self, army, from as u64, to as u64) {
                            let kind = choose|kind: PieceKind|
                                #[trigger] filtered_legal(*self, army, kind, from as u64, to as u64);
                            let m = Move { from, to, kind, promotion: None };
                            assert(legal_moves@.contains(m));
                            let idx = choose|idx: int|
                                0 <= idx < legal_moves@.len() && legal_moves@[idx] == m;
                        }
                    }
                },
            }
        }
        let mv = match found {
            Some(m) => m,
            None => {
                return Err("Invalid move".to_owned());
            },
        };
        let piece_kind = mv.kind;
        proof {
            assert(piece_kind == legal_kind(*self, army, from as u64, to as u64)) by {
                let kind2 = legal_kind(*self, army, from as u64, to as u64);
                assert(filtered_legal(*self, army, kind2, from as u64, to as u64));
                assert(has_piece(self.board, army, kind2, from as u64));
                assert(has_piece(self.board, army, piece_kind, from as u64));
            }
            assert(candidate_legal(*self, army, piece_kind, from as u64, to as u64));
            assert(to < 64 && from < 64);
        }
        // reject a bad promotion request before anything is mutated
        if matches!(piece_kind, PieceKind::Pawn) && self.can_promote_at(army, to) {
            let privileged = self.is_privileged_pawn(army);
            let target = match promotion {
                Some(p) => p,
                None => PieceKind::Queen,
            };
            let tk = if privileged {
                target
            } else {
                PieceKind::Queen
            };
            if matches!(tk, PieceKind::Pawn) || matches!(tk, PieceKind::King) {
                return Err("Promotion failed".to_owned());
            }
        }
        proof {
            assert(!promo_rejected(*self, army, piece_kind, to as u64, promotion));
        }
        let ghost g0 = *self;
        self.commit_move(army, piece_kind, from, to);
        let ghost g_mv = *self;
        if matches!(piece_kind, PieceKind::Pawn) && self.can_promote_at(army, to) {
            let target = match promotion {
                Some(p) => p,
                None => PieceKind::Queen,
            };
            let ok = self.promote_pawn(army, to, target);
            proof {
                assert(ok);
                // the promotion step preserves single kings and king caches:
                // neither the pawn mask nor the target-kind mask is a king mask
                let tk = if spec_privileged(g_mv.board, army) {
                    promo_target(promotion)
                } else {
                    PieceKind::Queen
                };
                assert(tk != PieceKind::King && tk != PieceKind::Pawn);
                assert forall|a: Army| #[trigger] mask_of(self.board, a, PieceKind::King)
                    == mask_of(g_mv.board, a, PieceKind::King) by {}
                assert(at_most_one_king(self.board)) by {
                    assert forall|a: Army, s1: u64, s2: u64|
                        has_piece(self.board, a, PieceKind::King, s1) && has_piece(
                            self.board,
                            a,
                            PieceKind::King,
                            s2,
                        ) implies s1 == s2 by {
                        assert(has_piece(g_mv.board, a, PieceKind::King, s1));
                        assert(has_piece(g_mv.board, a, PieceKind::King, s2));
                    }
                }
                assert(kings_synced(*self)) by {
                    assert forall|a: Army| #[trigger] self.state.king_positions[army_index(a)]
                        == spec_king_square(self.board, a) by {
                        assert(self.state.king_positions[army_index(a)]
                            == g_mv.state.king_positions[army_index(a)]);
                        assert(spec_king_square(self.board, a) == spec_king_square(g_mv.board, a));
                    }
                }
            }
        }
        let ghost g_done = *self;
        proof {
            let f = from as u64;
            let t = to as u64;
            let sb = sim_board(g0.board, army, piece_kind, f, t);
            assert(wf(g_done));
            assert forall|a: Army, k: PieceKind, s: u64|
                s < 64 implies (#[trigger] has_piece(g_done.board, a, k, s) <==> applied_bit(
                g0,
                army,
                piece_kind,
                f,
                t,
                promotion,
                a,
                k,
                s,
            )) by {
                if piece_kind == PieceKind::Pawn && sq_bit(
                    g0.board.promotion_zones[army_index(army)],
                    t,
                ) {
                    assert(has_piece(g_mv.board, a, k, s) == has_piece(sb, a, k, s));
                } else {
                    assert(g_done.board == g_mv.board);
                    assert(has_piece(g_mv.board, a, k, s) == has_piece(sb, a, k, s));
                }
            }
        }
        self.update_all_stalemates();
        let ghost g_stale = *self;
        self.advance_to_next_army();
        proof {
            lemma_stalemate_now_same(g_stale, *self);
            assert(g_stale =~= (Game {
                state: GameState {
                    current_turn_index: g0.state.current_turn_index,
                    ..final(self).state
                },
                ..*final(self)
            }));
        }
        Ok(move_message(army, piece_kind, to))
    }
}

/// With at most one king, the cached king square is determined by which
/// bits the king mask holds.
pub proof fn lemma_king_square_from_bits(b: Board, a: Army)
    ensures
        spec_king_square(b, a) is None <==> forall|s: u64| !has_piece(b, a, PieceKind::King, s),
        spec_king_square(b, a) matches Some(ks) ==> has_piece(b, a, PieceKind::King, ks as u64),
{
    let m = mask_of(b, a, PieceKind::King);
    vstd::std_specs::bits::axiom_u64_trailing_zeros(m);
    if m == 0 {
        assert forall|s: u64| !has_piece(b, a, PieceKind::King, s) by {
            if s < 64 {
                assert((m >> s) & 1u64 == 0u64) by (bit_vector)
                    requires
                        m == 0,
                ;
            }
        }
    } else {
        let tz = vstd::std_specs::bits::u64_trailing_zeros(m);
        assert(has_piece(b, a, PieceKind::King, tz as u64));
    }
}

} // verus!
