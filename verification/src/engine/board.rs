//! The board: per-army-per-kind occupancy masks, derived aggregates and
//! per-army metadata.
//!
//! The `by_army_kind` masks are the positional truth. The occupancy
//! aggregates are caches recomputed by `refresh_occupancy`; `synced` says
//! they agree with the masks, and `inv` says no square is claimed by two
//! (army, kind) masks at once.

use vstd::prelude::*;

use crate::engine::bits::{group_bits, sq_bit};
use crate::engine::types::{
    army_index, kind_index, kind_of_index, Army, Piece, PieceKind, PlayerId, Square, Team,
};
use vstd::string::StringExecFns;

verus! {

broadcast use group_bits;

/// Per-army metadata: identity, throne squares, controller and frozen flag.
#[derive(Debug, Clone, Copy)]
pub struct ArmyState {
    pub army: Army,
    pub throne_squares: [Square; 2],
    pub controller: PlayerId,
    pub is_frozen: bool,
}

impl ArmyState {
    /// A fresh, unfrozen army record.
    pub fn new(army: Army, throne_squares: [Square; 2], controller: PlayerId) -> (r: Self)
        ensures
            r.army == army,
            r.throne_squares == throne_squares,
            r.controller == controller,
            !r.is_frozen,
    {
        Self { army, throne_squares, controller, is_frozen: false }
    }
}

/// The canonical position plus derived occupancy caches.
#[derive(Debug, Clone, Copy)]
pub struct Board {
    pub by_army_kind: [[u64; 6]; 4],
    pub occupancy_by_army: [u64; 4],
    pub occupancy_by_team: [u64; 2],
    pub all_occupancy: u64,
    pub free: u64,
    pub armies: [ArmyState; 4],
    pub promotion_zones: [u64; 4],
}

/// The occupancy mask of one (army, kind) pair.
pub open spec fn mask_of(b: Board, a: Army, k: PieceKind) -> u64 {
    b.by_army_kind[army_index(a)][kind_index(k)]
}

/// A piece of the given army and kind stands on square `s`.
pub open spec fn has_piece(b: Board, a: Army, k: PieceKind, s: u64) -> bool {
    s < 64 && sq_bit(mask_of(b, a, k), s)
}

/// Some piece of army `a` stands on square `s`.
pub open spec fn army_at(b: Board, a: Army, s: u64) -> bool {
    exists|k: PieceKind| has_piece(b, a, k, s)
}

/// Some piece stands on square `s`.
pub open spec fn occupied(b: Board, s: u64) -> bool {
    exists|a: Army, k: PieceKind| has_piece(b, a, k, s)
}

/// The union of one army's six per-kind masks.
pub open spec fn army_occ(b: Board, a: Army) -> u64 {
    let row = b.by_army_kind[army_index(a)];
    row[0] | row[1] | row[2] | row[3] | row[4] | row[5]
}

/// The union of a team's two army occupancies.
pub open spec fn team_occ(b: Board, t: Team) -> u64 {
    if t == Team::Air {
        army_occ(b, Army::Blue) | army_occ(b, Army::Black)
    } else {
        army_occ(b, Army::Red) | army_occ(b, Army::Yellow)
    }
}

/// The union of both teams' occupancies.
pub open spec fn total_occ(b: Board) -> u64 {
    team_occ(b, Team::Air) | team_occ(b, Team::Earth)
}

/// Occupancy disjointness: a square is claimed by at most one (army, kind)
/// mask.
pub open spec fn inv(b: Board) -> bool {
    forall|a1: Army, k1: PieceKind, a2: Army, k2: PieceKind, s: u64|
        #![trigger has_piece(b, a1, k1, s), has_piece(b, a2, k2, s)]
        has_piece(b, a1, k1, s) && has_piece(b, a2, k2, s) && (a1 != a2 || k1 != k2) ==> false
}

/// Derived-field consistency: each occupancy cache equals the union it is
/// derived from, and `free` is the complement of the total occupancy.
pub open spec fn synced(b: Board) -> bool {
    &&& b.occupancy_by_army[0] == army_occ(b, Army::Blue)
    &&& b.occupancy_by_army[1] == army_occ(b, Army::Black)
    &&& b.occupancy_by_army[2] == army_occ(b, Army::Red)
    &&& b.occupancy_by_army[3] == army_occ(b, Army::Yellow)
    &&& b.occupancy_by_team[0] == team_occ(b, Team::Air)
    &&& b.occupancy_by_team[1] == team_occ(b, Team::Earth)
    &&& b.all_occupancy == total_occ(b)
    &&& b.free == !total_occ(b)
}

/// The two boards hold the same pieces; metadata may differ.
pub open spec fn same_masks(b1: Board, b2: Board) -> bool {
    b1.by_army_kind == b2.by_army_kind
}

/// The number of set bits among bits 0 .. n of a mask.
pub open spec fn count_bits_upto(m: u64, n: int) -> nat
    decreases n,
{
    if n <= 0 {
        0
    } else {
        count_bits_upto(m, n - 1) + (if sq_bit(m, (n - 1) as u64) {
            1nat
        } else {
            0nat
        })
    }
}

/// The number of set bits of a mask.
pub open spec fn popcount(m: u64) -> nat {
    count_bits_upto(m, 64)
}

/// Moving a set bit from one position to a clear one keeps the popcount.
pub proof fn lemma_count_flip(m1: u64, m2: u64, f: u64, t: u64, n: int)
    requires
        f < 64,
        t < 64,
        f != t,
        sq_bit(m1, f),
        !sq_bit(m1, t),
        forall|i: u64|
            i < 64 ==> (#[trigger] sq_bit(m2, i) == (if i == f {
                false
            } else if i == t {
                true
            } else {
                sq_bit(m1, i)
            })),
        0 <= n <= 64,
    ensures
        count_bits_upto(m2, n) + (if f < n {
            1int
        } else {
            0int
        }) == count_bits_upto(m1, n) + (if t < n {
            1int
        } else {
            0int
        }),
    decreases n,
{
    if n > 0 {
        lemma_count_flip(m1, m2, f, t, n - 1);
        assert(sq_bit(m2, (n - 1) as u64) == (if (n - 1) as u64 == f {
            false
        } else if (n - 1) as u64 == t {
            true
        } else {
            sq_bit(m1, (n - 1) as u64)
        }));
    }
}

/// A bit of an army's occupancy union corresponds to one of its pieces.
pub proof fn lemma_army_occ_bit(b: Board, a: Army, s: u64)
    requires
        s < 64,
    ensures
        sq_bit(army_occ(b, a), s) <==> exists|k: PieceKind| has_piece(b, a, k, s),
{
    let row = b.by_army_kind[army_index(a)];
    if sq_bit(army_occ(b, a), s) {
        if sq_bit(row[0], s) {
            assert(has_piece(b, a, PieceKind::King, s));
        } else if sq_bit(row[1], s) {
            assert(has_piece(b, a, PieceKind::Queen, s));
        } else if sq_bit(row[2], s) {
            assert(has_piece(b, a, PieceKind::Bishop, s));
        } else if sq_bit(row[3], s) {
            assert(has_piece(b, a, PieceKind::Knight, s));
        } else if sq_bit(row[4], s) {
            assert(has_piece(b, a, PieceKind::Rook, s));
        } else {
            assert(sq_bit(row[5], s));
            assert(has_piece(b, a, PieceKind::Pawn, s));
        }
    }
    if exists|k: PieceKind| has_piece(b, a, k, s) {
        let k = choose|k: PieceKind| has_piece(b, a, k, s);
        assert(sq_bit(row[kind_index(k)], s));
        assert(sq_bit(army_occ(b, a), s));
    }
}

/// A bit of the total occupancy corresponds to some piece.
pub proof fn lemma_total_occ_bit(b: Board, s: u64)
    requires
        s < 64,
    ensures
        sq_bit(total_occ(b), s) <==> occupied(b, s),
{
    lemma_army_occ_bit(b, Army::Blue, s);
    lemma_army_occ_bit(b, Army::Black, s);
    lemma_army_occ_bit(b, Army::Red, s);
    lemma_army_occ_bit(b, Army::Yellow, s);
    if occupied(b, s) {
        let (a, k) = choose|a: Army, k: PieceKind| has_piece(b, a, k, s);
        assert(sq_bit(army_occ(b, a), s));
        assert(sq_bit(total_occ(b), s));
    }
}

impl Board {
    /// Recomputes every derived occupancy cache from the per-kind masks.
    /// After this call the caches agree with the masks again.
    pub fn refresh_occupancy(&mut self)
        ensures
            final(self).by_army_kind == old(self).by_army_kind,
            final(self).armies == old(self).armies,
            final(self).promotion_zones == old(self).promotion_zones,
            synced(*final(self)),
    {
        let b = self.by_army_kind;
        let occ0 = b[0][0] | b[0][1] | b[0][2] | b[0][3] | b[0][4] | b[0][5];
        let occ1 = b[1][0] | b[1][1] | b[1][2] | b[1][3] | b[1][4] | b[1][5];
        let occ2 = b[2][0] | b[2][1] | b[2][2] | b[2][3] | b[2][4] | b[2][5];
        let occ3 = b[3][0] | b[3][1] | b[3][2] | b[3][3] | b[3][4] | b[3][5];
        self.occupancy_by_army = [occ0, occ1, occ2, occ3];
        self.occupancy_by_team = [occ0 | occ1, occ2 | occ3];
        self.all_occupancy = (occ0 | occ1) | (occ2 | occ3);
        self.free = !self.all_occupancy;
    }

    /// Marks an army frozen or unfrozen in the board metadata.
    pub fn set_frozen(&mut self, army: Army, frozen: bool)
        ensures
            final(self).by_army_kind == old(self).by_army_kind,
            final(self).occupancy_by_army == old(self).occupancy_by_army,
            final(self).occupancy_by_team == old(self).occupancy_by_team,
            final(self).all_occupancy == old(self).all_occupancy,
            final(self).free == old(self).free,
            final(self).promotion_zones == old(self).promotion_zones,
            final(self).armies@ == old(self).armies@.update(
                army_index(army),
                ArmyState {
                    is_frozen: frozen,
                    ..old(self).armies[army_index(army)]
                },
            ),
    {
        let i = army.index();
        let mut st = self.armies[i];
        st.is_frozen = frozen;
        self.armies[i] = st;
    }

    /// Whether the board metadata marks the army frozen.
    pub fn is_army_frozen(&self, army: Army) -> (r: bool)
        ensures
            r == self.armies[army_index(army)].is_frozen,
    {
        self.armies[army.index()].is_frozen
    }

    /// Hands control of an army to the given player.
    pub fn set_controller(&mut self, army: Army, controller: PlayerId)
        ensures
            final(self).by_army_kind == old(self).by_army_kind,
            final(self).occupancy_by_army == old(self).occupancy_by_army,
            final(self).occupancy_by_team == old(self).occupancy_by_team,
            final(self).all_occupancy == old(self).all_occupancy,
            final(self).free == old(self).free,
            final(self).promotion_zones == old(self).promotion_zones,
            final(self).armies@ == old(self).armies@.update(
                army_index(army),
                ArmyState {
                    controller: controller,
                    ..old(self).armies[army_index(army)]
                },
            ),
    {
        let i = army.index();
        let mut st = self.armies[i];
        st.controller = controller;
        self.armies[i] = st;
    }

    /// The player currently commanding the army.
    pub fn controller_for(&self, army: Army) -> (r: PlayerId)
        ensures
            r == self.armies[army_index(army)].controller,
    {
        self.armies[army.index()].controller
    }

    /// Adds a piece on a square. The square must be empty so that the
    /// occupancy masks stay disjoint.
    pub fn place_piece(&mut self, army: Army, kind: PieceKind, square: Square)
        requires
            square < 64,
            inv(*old(self)),
            !occupied(*old(self), square as u64),
        ensures
            forall|a: Army, k: PieceKind, s: u64|
                #[trigger] has_piece(*final(self), a, k, s) <==> (has_piece(*old(self), a, k, s)
                    || (a == army && k == kind && s == square as u64)),
            inv(*final(self)),
            synced(*final(self)),
            final(self).armies == old(self).armies,
            final(self).promotion_zones == old(self).promotion_zones,
            forall|a: Army, k: PieceKind| a != army || k != kind ==> #[trigger] mask_of(
                *final(self),
                a,
                k,
            ) == mask_of(*old(self), a, k),
            mask_of(*final(self), army, kind) == mask_of(*old(self), army, kind) | (1u64
                << square),
    {
        let mask: u64 = 1u64 << square;
        let ai = army.index();
        let ki = kind.index();
        let mut row = self.by_army_kind[ai];
        row[ki] = row[ki] | mask;
        self.by_army_kind[ai] = row;
        self.refresh_occupancy();
        proof {
            assert forall|a: Army, k: PieceKind, s: u64|
                #[trigger] has_piece(*self, a, k, s) <==> (has_piece(*old(self), a, k, s) || (a
                    == army && k == kind && s == square as u64)) by {
                if a == army && k == kind {
                    assert(mask_of(*self, a, k) == mask_of(*old(self), a, k) | mask);
                } else {
                    assert(mask_of(*self, a, k) == mask_of(*old(self), a, k));
                }
            }
        }
    }

    /// Removes a piece of the given army and kind from a square.
    pub fn remove_piece(&mut self, army: Army, kind: PieceKind, square: Square)
        requires
            square < 64,
        ensures
            forall|a: Army, k: PieceKind, s: u64|
                #[trigger] has_piece(*final(self), a, k, s) <==> (has_piece(*old(self), a, k, s)
                    && !(a == army && k == kind && s == square as u64)),
            inv(*old(self)) ==> inv(*final(self)),
            synced(*final(self)),
            final(self).armies == old(self).armies,
            final(self).promotion_zones == old(self).promotion_zones,
            forall|a: Army, k: PieceKind| a != army || k != kind ==> #[trigger] mask_of(
                *final(self),
                a,
                k,
            ) == mask_of(*old(self), a, k),
            mask_of(*final(self), army, kind) == mask_of(*old(self), army, kind) & !(1u64
                << square),
    {
        let mask: u64 = 1u64 << square;
        let ai = army.index();
        let ki = kind.index();
        let mut row = self.by_army_kind[ai];
        row[ki] = row[ki] & !mask;
        self.by_army_kind[ai] = row;
        self.refresh_occupancy();
        proof {
            assert forall|a: Army, k: PieceKind, s: u64|
                #[trigger] has_piece(*self, a, k, s) <==> (has_piece(*old(self), a, k, s) && !(a
                    == army && k == kind && s == square as u64)) by {
                if a == army && k == kind {
                    assert(mask_of(*self, a, k) == mask_of(*old(self), a, k) & !mask);
                } else {
                    assert(mask_of(*self, a, k) == mask_of(*old(self), a, k));
                }
            }
        }
    }

    /// Empties a square entirely, whatever stood there.
    pub fn clear_square(&mut self, square: Square)
        requires
            square < 64,
        ensures
            forall|a: Army, k: PieceKind, s: u64|
                #[trigger] has_piece(*final(self), a, k, s) <==> (has_piece(*old(self), a, k, s)
                    && s != square as u64),
            inv(*old(self)) ==> inv(*final(self)),
            synced(*final(self)),
            final(self).armies == old(self).armies,
            final(self).promotion_zones == old(self).promotion_zones,
    {
        let mut ai: usize = 0;
        while ai < 4
            invariant
                ai <= 4,
                square < 64,
                forall|i: int, j: int|
                    0 <= i < 4 && 0 <= j < 6 ==> self.by_army_kind[i][j] == if i < ai as int {
                        old(self).by_army_kind[i][j] & !(1u64 << square)
                    } else {
                        old(self).by_army_kind[i][j]
                    },
                self.armies == old(self).armies,
                self.promotion_zones == old(self).promotion_zones,
            decreases 4 - ai,
        {
            let mut row = self.by_army_kind[ai];
            let mut ki: usize = 0;
            while ki < 6
                invariant
                    ki <= 6,
                    ai < 4,
                    square < 64,
                    forall|j: int|
                        0 <= j < 6 ==> row[j] == if j < ki as int {
                            self.by_army_kind[ai as int][j] & !(1u64 << square)
                        } else {
                            self.by_army_kind[ai as int][j]
                        },
                decreases 6 - ki,
            {
                row[ki] = row[ki] & !(1u64 << square);
                ki = ki + 1;
            }
            self.by_army_kind[ai] = row;
            ai = ai + 1;
        }
        self.refresh_occupancy();
        proof {
            assert forall|a: Army, k: PieceKind, s: u64|
                #[trigger] has_piece(*self, a, k, s) <==> (has_piece(*old(self), a, k, s) && s
                    != square as u64) by {
                assert(mask_of(*self, a, k) == mask_of(*old(self), a, k) & !(1u64 << square));
            }
        }
    }

    /// Relocates a piece of the given army and kind. The destination must be
    /// empty; a capture removes the target first.
    pub fn move_piece(&mut self, army: Army, kind: PieceKind, from: Square, to: Square)
        requires
            from < 64,
            to < 64,
            inv(*old(self)),
            !occupied(*old(self), to as u64),
        ensures
            forall|a: Army, k: PieceKind, s: u64|
                #[trigger] has_piece(*final(self), a, k, s) <==> ((has_piece(*old(self), a, k, s)
                    && !(a == army && k == kind && s == from as u64)) || (a == army && k == kind
                    && s == to as u64)),
            inv(*final(self)),
            synced(*final(self)),
            final(self).armies == old(self).armies,
            final(self).promotion_zones == old(self).promotion_zones,
    {
        let from_mask: u64 = 1u64 << from;
        let to_mask: u64 = 1u64 << to;
        let ai = army.index();
        let ki = kind.index();
        let mut row = self.by_army_kind[ai];
        row[ki] = (row[ki] & !from_mask) | to_mask;
        self.by_army_kind[ai] = row;
        self.refresh_occupancy();
        proof {
            assert forall|a: Army, k: PieceKind, s: u64|
                #[trigger] has_piece(*self, a, k, s) <==> ((has_piece(*old(self), a, k, s) && !(a
                    == army && k == kind && s == from as u64)) || (a == army && k == kind && s
                    == to as u64)) by {
                if a == army && k == kind {
                    assert(mask_of(*self, a, k) == (mask_of(*old(self), a, k) & !from_mask)
                        | to_mask);
                } else {
                    assert(mask_of(*self, a, k) == mask_of(*old(self), a, k));
                }
            }
        }
    }
}

/// Facts that depend only on the occupancy masks transfer between two
/// boards holding the same pieces.
pub proof fn lemma_masks_same_facts(b1: Board, b2: Board)
    requires
        b1.by_army_kind == b2.by_army_kind,
    ensures
        forall|a: Army, k: PieceKind, s: u64|
            #[trigger] has_piece(b1, a, k, s) == has_piece(b2, a, k, s),
        forall|a: Army, k: PieceKind| #[trigger] mask_of(b1, a, k) == mask_of(b2, a, k),
        forall|a: Army| #[trigger] army_occ(b1, a) == army_occ(b2, a),
        forall|t: Team| #[trigger] team_occ(b1, t) == team_occ(b2, t),
        total_occ(b1) == total_occ(b2),
        inv(b1) == inv(b2),
        forall|a: Army| #[trigger] spec_king_square(b1, a) == spec_king_square(b2, a),
        forall|s: u64| #[trigger] occupied(b1, s) == occupied(b2, s),
{
    assert forall|a: Army, k: PieceKind| #[trigger] mask_of(b1, a, k) == mask_of(b2, a, k) by {
        assert(b1.by_army_kind[army_index(a)] == b2.by_army_kind[army_index(a)]);
    }
    assert forall|a: Army| #[trigger] army_occ(b1, a) == army_occ(b2, a) by {
        assert(b1.by_army_kind[army_index(a)] == b2.by_army_kind[army_index(a)]);
    }
    assert(inv(b1) == inv(b2)) by {
        if inv(b1) {
            assert forall|a1: Army, k1: PieceKind, a2: Army, k2: PieceKind, s: u64|
                #![trigger has_piece(b2, a1, k1, s), has_piece(b2, a2, k2, s)]
                has_piece(b2, a1, k1, s) && has_piece(b2, a2, k2, s) && (a1 != a2 || k1 != k2)
                    implies false by {
                assert(has_piece(b1, a1, k1, s) && has_piece(b1, a2, k2, s));
            }
        }
        if inv(b2) {
            assert forall|a1: Army, k1: PieceKind, a2: Army, k2: PieceKind, s: u64|
                #![trigger has_piece(b1, a1, k1, s), has_piece(b1, a2, k2, s)]
                has_piece(b1, a1, k1, s) && has_piece(b1, a2, k2, s) && (a1 != a2 || k1 != k2)
                    implies false by {
                assert(has_piece(b2, a1, k1, s) && has_piece(b2, a2, k2, s));
            }
        }
    }
    assert forall|s: u64| #[trigger] occupied(b1, s) == occupied(b2, s) by {
        if occupied(b1, s) {
            let (a, k) = choose|a: Army, k: PieceKind| has_piece(b1, a, k, s);
            assert(has_piece(b2, a, k, s));
        }
        if occupied(b2, s) {
            let (a, k) = choose|a: Army, k: PieceKind| has_piece(b2, a, k, s);
            assert(has_piece(b1, a, k, s));
        }
    }
}

/// The first square the scan of a king mask reports: the lowest set bit.
pub open spec fn spec_king_square(b: Board, a: Army) -> Option<Square> {
    let m = mask_of(b, a, PieceKind::King);
    if m == 0 {
        None
    } else {
        Some(vstd::std_specs::bits::u64_trailing_zeros(m) as Square)
    }
}

/// An army's throne pair contains the square.
pub open spec fn army_has_throne(b: Board, a: Army, s: Square) -> bool {
    b.armies[army_index(a)].throne_squares[0] == s || b.armies[army_index(a)].throne_squares[1]
        == s
}

/// The mask the placement list leaves for one (army, kind) pair: the
/// union of every entry's bits for that pair.
pub open spec fn placed_mask(pl: Seq<(Army, Piece, u64)>, a: Army, k: PieceKind) -> u64
    decreases pl.len(),
{
    if pl.len() == 0 {
        0u64
    } else {
        let lst = pl.last();
        if lst.0 == a && lst.1.kind == k {
            placed_mask(pl.drop_last(), a, k) | lst.2
        } else {
            placed_mask(pl.drop_last(), a, k)
        }
    }
}

impl Board {
    /// Builds a board from a placement list, army metadata and promotion
    /// zones. Entries for the same (army, kind) pair accumulate; derived
    /// occupancy is computed before returning.
    pub fn with_state(
        initial_placements: &[(Army, Piece, u64)],
        army_states: [ArmyState; 4],
        promotion_zones: [u64; 4],
    ) -> (r: Board)
        ensures
            forall|a: Army, k: PieceKind| #[trigger] mask_of(r, a, k) == placed_mask(
                initial_placements@,
                a,
                k,
            ),
            r.armies == army_states,
            r.promotion_zones == promotion_zones,
            synced(r),
    {
        let mut by_army_kind: [[u64; 6]; 4] = [[0u64; 6]; 4];
        let n = initial_placements.len();
        let mut i: usize = 0;
        while i < n
            invariant
                i <= n,
                n == initial_placements@.len(),
                forall|a: Army, k: PieceKind| #[trigger] by_army_kind[army_index(a)][kind_index(k)]
                    == placed_mask(initial_placements@.take(i as int), a, k),
            decreases n - i,
        {
            let (army, piece, bitboard) = initial_placements[i];
            let ai = army.index();
            let ki = piece.kind.index();
            let mut row = by_army_kind[ai];
            row[ki] = row[ki] | bitboard;
            by_army_kind[ai] = row;
            proof {
                let pre = initial_placements@.take(i as int);
                let post = initial_placements@.take(i as int + 1);
                assert(post.drop_last() =~= pre);
                assert(post.last() == initial_placements@[i as int]);
                assert forall|a: Army, k: PieceKind| #[trigger] by_army_kind[army_index(
                    a,
                )][kind_index(k)] == placed_mask(post, a, k) by {
                    if a == army && k == piece.kind {
                    } else {
                        assert(placed_mask(post, a, k) == placed_mask(pre, a, k));
                    }
                }
            }
            i = i + 1;
        }
        proof {
            assert(initial_placements@.take(n as int) =~= initial_placements@);
        }
        let mut r = Board {
            by_army_kind,
            occupancy_by_army: [0u64; 4],
            occupancy_by_team: [0u64; 2],
            all_occupancy: 0,
            free: 0,
            armies: army_states,
            promotion_zones,
        };
        r.refresh_occupancy();
        r
    }

    /// Builds a board from a placement list with the default army metadata
    /// and promotion zones.
    pub fn new(initial_placements: &[(Army, Piece, u64)]) -> (r: Board)
        ensures
            forall|a: Army, k: PieceKind| #[trigger] mask_of(r, a, k) == placed_mask(
                initial_placements@,
                a,
                k,
            ),
            r.armies == spec_default_army_states(),
            r.promotion_zones == spec_default_promotion_zones(),
            synced(r),
    {
        Board::with_state(initial_placements, default_army_states(), default_promotion_zones())
    }

    /// The occupant of a square, if any: the scan reports the first
    /// (army, kind) mask holding the bit; under `inv` it is the only one.
    pub fn piece_at(&self, square: Square) -> (r: Option<(Army, PieceKind)>)
        requires
            square < 64,
        ensures
            r is None <==> !occupied(*self, square as u64),
            r matches Some(p) ==> has_piece(*self, p.0, p.1, square as u64),
            inv(*self) ==> (forall|a: Army, k: PieceKind|
                has_piece(*self, a, k, square as u64) ==> r == Some((a, k))),
    {
        let mask: u64 = 1u64 << square;
        let mut ai: usize = 0;
        while ai < 4
            invariant
                ai <= 4,
                square < 64,
                mask == 1u64 << square,
                forall|a: Army, k: PieceKind|
                    army_index(a) < ai as int ==> !(#[trigger] has_piece(
                        *self,
                        a,
                        k,
                        square as u64,
                    )),
            decreases 4 - ai,
        {
            let army = Army::from_index(ai);
            let mut ki: usize = 0;
            while ki < 6
                invariant
                    ki <= 6,
                    ai < 4,
                    square < 64,
                    mask == 1u64 << square,
                    army == crate::engine::types::army_of_index(ai as int),
                    forall|k: PieceKind|
                        kind_index(k) < ki as int ==> !has_piece(
                            *self,
                            army,
                            k,
                            square as u64,
                        ),
                decreases 6 - ki,
            {
                let kind = PieceKind::from_index(ki);
                if self.by_army_kind[ai][ki] & mask != 0 {
                    proof {
                        let m = self.by_army_kind[ai as int][ki as int];
                        assert(sq_bit(m, square as u64)) by (bit_vector)
                            requires
                                m & (1u64 << square) != 0,
                                square < 64,
                        ;
                        assert(army_index(army) == ai as int);
                        assert(kind_index(kind) == ki as int);
                        assert(has_piece(*self, army, kind, square as u64));
                        if inv(*self) {
                            assert forall|a: Army, k: PieceKind|
                                #[trigger] has_piece(*self, a, k, square as u64) implies (a, k)
                                == (army, kind) by {
                                assert(!(has_piece(*self, a, k, square as u64) && has_piece(
                                    *self,
                                    army,
                                    kind,
                                    square as u64,
                                ) && (a != army || k != kind)));
                            }
                        }
                    }
                    return Some((army, kind));
                }
                proof {
                    let m = self.by_army_kind[ai as int][ki as int];
                    assert(!sq_bit(m, square as u64)) by (bit_vector)
                        requires
                            m & (1u64 << square) == 0,
                            square < 64,
                    ;
                }
                ki = ki + 1;
            }
            ai = ai + 1;
        }
        None
    }

    /// The square of the army's king: the lowest set bit of its king mask,
    /// or `None` when the king is off the board.
    pub fn king_square(&self, army: Army) -> (r: Option<Square>)
        ensures
            r == spec_king_square(*self, army),
            r matches Some(s) ==> has_piece(*self, army, PieceKind::King, s as u64),
    {
        let mask = self.by_army_kind[army.index()][0];
        proof {
            vstd::std_specs::bits::axiom_u64_trailing_zeros(mask);
        }
        if mask == 0 {
            None
        } else {
            Some(mask.trailing_zeros() as Square)
        }
    }

    /// Converts the first piece of the given kind back to a pawn, in place.
    /// Returns the affected square, or `None` when the kind is absent or is
    /// already the pawn kind.
    pub fn demote_piece_to_pawn(&mut self, army: Army, kind: PieceKind) -> (r: Option<Square>)
        requires
            inv(*old(self)),
        ensures
            kind == PieceKind::Pawn || mask_of(*old(self), army, kind) == 0 ==> r is None
                && *final(self) == *old(self),
            kind != PieceKind::Pawn && mask_of(*old(self), army, kind) != 0 ==> {
                &&& r == Some(vstd::std_specs::bits::u64_trailing_zeros(mask_of(*old(self), army,
                    kind)) as Square)
                &&& r matches Some(sq) && (forall|a: Army, k: PieceKind, s: u64|
                    #[trigger] has_piece(*final(self), a, k, s) <==> if a == army && k == kind {
                        has_piece(*old(self), a, k, s) && s != sq as u64
                    } else if a == army && k == PieceKind::Pawn {
                        has_piece(*old(self), a, k, s) || s == sq as u64
                    } else {
                        has_piece(*old(self), a, k, s)
                    })
            },
            inv(*final(self)),
            synced(*final(self)) || *final(self) == *old(self),
            final(self).armies == old(self).armies,
            final(self).promotion_zones == old(self).promotion_zones,
    {
        if matches!(kind, PieceKind::Pawn) {
            return None;
        }
        let ki = kind.index();
        let ai = army.index();
        let mask = self.by_army_kind[ai][ki];
        proof {
            vstd::std_specs::bits::axiom_u64_trailing_zeros(mask);
        }
        if mask == 0 {
            return None;
        }
        let square = mask.trailing_zeros() as Square;
        let bit: u64 = 1u64 << square;
        let mut row = self.by_army_kind[ai];
        row[ki] = row[ki] & !bit;
        row[5] = row[5] | bit;
        self.by_army_kind[ai] = row;
        self.refresh_occupancy();
        proof {
            let sq = square as u64;
            assert(has_piece(*old(self), army, kind, sq));
            assert(!has_piece(*old(self), army, PieceKind::Pawn, sq));
            assert forall|a: Army, k: PieceKind, s: u64|
                #[trigger] has_piece(*self, a, k, s) <==> if a == army && k == kind {
                    has_piece(*old(self), a, k, s) && s != sq
                } else if a == army && k == PieceKind::Pawn {
                    has_piece(*old(self), a, k, s) || s == sq
                } else {
                    has_piece(*old(self), a, k, s)
                } by {
                if a == army && k == kind {
                    assert(mask_of(*self, a, k) == mask_of(*old(self), a, k) & !bit);
                } else if a == army && k == PieceKind::Pawn {
                    assert(mask_of(*self, a, k) == mask_of(*old(self), a, k) | bit);
                } else {
                    assert(mask_of(*self, a, k) == mask_of(*old(self), a, k));
                }
            }
        }
        Some(square)
    }

    /// The number of pieces of each kind the army has on the board.
    pub fn piece_counts(&self, army: Army) -> (r: [u32; 6])
        ensures
            forall|k: PieceKind| #[trigger] r[kind_index(k)] == popcount(mask_of(*self, army, k)),
    {
        let ai = army.index();
        let mut counts: [u32; 6] = [0u32; 6];
        let mut ki: usize = 0;
        while ki < 6
            invariant
                ki <= 6,
                ai == army_index(army),
                forall|k: PieceKind|
                    kind_index(k) < ki as int ==> #[trigger] counts[kind_index(k)] == popcount(
                        mask_of(*self, army, k),
                    ),
            decreases 6 - ki,
        {
            let m = self.by_army_kind[ai][ki];
            let mut c: u32 = 0;
            let mut s: usize = 0;
            while s < 64
                invariant
                    s <= 64,
                    c <= s,
                    c == count_bits_upto(m, s as int),
                decreases 64 - s,
            {
                proof {
                    let su = s as u64;
                    assert(((m >> su) & 1u64 == 1u64) || ((m >> su) & 1u64 == 0u64))
                        by (bit_vector);
                }
                if (m >> (s as u64)) & 1u64 == 1u64 {
                    c = c + 1;
                }
                s = s + 1;
            }
            counts[ki] = c;
            proof {
                let k = kind_of_index(ki as int);
                assert(counts[kind_index(k)] == popcount(mask_of(*self, army, k)));
            }
            ki = ki + 1;
        }
        counts
    }

    /// The pieces of one army, as (square, kind) pairs: every piece appears
    /// exactly once.
    pub fn all_pieces_for_army(&self, army: Army) -> (r: Vec<(Square, PieceKind)>)
        ensures
            forall|i: int|
                0 <= i < r@.len() ==> #[trigger] has_piece(*self, army, r@[i].1, r@[i].0 as u64),
            forall|k: PieceKind, s: u64|
                has_piece(*self, army, k, s) ==> r@.contains((s as Square, k)),
            forall|i: int, j: int| 0 <= i < j < r@.len() ==> r@[i] != r@[j],
            forall|i: int, j: int|
                0 <= i < j < r@.len() ==> kind_index(#[trigger] r@[i].1) < kind_index(
                    #[trigger] r@[j].1,
                ) || (r@[i].1 == r@[j].1 && r@[i].0 < r@[j].0),
    {
        let ai = army.index();
        let mut r: Vec<(Square, PieceKind)> = Vec::new();
        let mut ki: usize = 0;
        while ki < 6
            invariant
                ki <= 6,
                ai == army_index(army),
                forall|i: int|
                    0 <= i < r@.len() ==> #[trigger] has_piece(*self, army, r@[i].1, r@[i].0 as u64),
                forall|k: PieceKind, s: u64|
                    kind_index(k) < ki as int && has_piece(*self, army, k, s) ==> r@.contains(
                        (s as Square, k),
                    ),
                forall|i: int| 0 <= i < r@.len() ==> kind_index(#[trigger] r@[i].1) < ki as int,
                forall|i: int, j: int| 0 <= i < j < r@.len() ==> r@[i] != r@[j],
                forall|i: int, j: int|
                    0 <= i < j < r@.len() ==> kind_index(#[trigger] r@[i].1) < kind_index(
                        #[trigger] r@[j].1,
                    ) || (r@[i].1 == r@[j].1 && r@[i].0 < r@[j].0),
            decreases 6 - ki,
        {
            let kind = PieceKind::from_index(ki);
            let m = self.by_army_kind[ai][ki];
            let mut s: usize = 0;
            while s < 64
                invariant
                    s <= 64,
                    ki < 6,
                    ai == army_index(army),
                    kind == kind_of_index(ki as int),
                    m == mask_of(*self, army, kind),
                    forall|i: int|
                        0 <= i < r@.len() ==> #[trigger] has_piece(
                            *self,
                            army,
                            r@[i].1,
                            r@[i].0 as u64,
                        ),
                    forall|k: PieceKind, sq: u64|
                        kind_index(k) < ki as int && has_piece(*self, army, k, sq) ==> r@.contains(
                            (sq as Square, k),
                        ),
                    forall|sq: u64|
                        sq < s && has_piece(*self, army, kind, sq) ==> r@.contains(
                            (sq as Square, kind),
                        ),
                    forall|i: int|
                        0 <= i < r@.len() ==> kind_index(#[trigger] r@[i].1) < ki as int || (
                        r@[i].1 == kind && r@[i].0 < s),
                    forall|i: int, j: int| 0 <= i < j < r@.len() ==> r@[i] != r@[j],
                    forall|i: int, j: int|
                        0 <= i < j < r@.len() ==> kind_index(#[trigger] r@[i].1) < kind_index(
                            #[trigger] r@[j].1,
                        ) || (r@[i].1 == r@[j].1 && r@[i].0 < r@[j].0),
                decreases 64 - s,
            {
                proof {
                    let su = s as u64;
                    assert(((m >> su) & 1u64 == 1u64) || ((m >> su) & 1u64 == 0u64))
                        by (bit_vector);
                }
                if (m >> (s as u64)) & 1u64 == 1u64 {
                    let ghost old_r = r@;
                    r.push((s as Square, kind));
                    proof {
                        assert(r@ == old_r.push((s as Square, kind)));
                        assert(r@[old_r.len() as int] == (s as Square, kind));
                        assert forall|k: PieceKind, sq: u64|
                            kind_index(k) < ki as int && has_piece(*self, army, k, sq)
                            implies r@.contains((sq as Square, k)) by {
                            let i = choose|i: int|
                                0 <= i < old_r.len() && old_r[i] == (sq as Square, k);
                            assert(r@[i] == (sq as Square, k));
                        }
                        assert forall|sq: u64|
                            sq < s + 1 && has_piece(*self, army, kind, sq) implies r@.contains(
                            (sq as Square, kind),
                        ) by {
                            if sq < s {
                                let i = choose|i: int|
                                    0 <= i < old_r.len() && old_r[i] == (sq as Square, kind);
                                assert(r@[i] == (sq as Square, kind));
                            } else {
                                assert(r@[old_r.len() as int] == (sq as Square, kind));
                            }
                        }
                        assert forall|i: int, j: int| 0 <= i < j < r@.len() implies r@[i]
                            != r@[j] by {
                            if j < old_r.len() {
                            } else {
                                assert(r@[j] == (s as Square, kind));
                                assert(r@[i] == old_r[i]);
                                assert(kind_index(old_r[i].1) < ki as int || (old_r[i].1 == kind
                                    && old_r[i].0 < s));
                            }
                        }
                        assert forall|i: int, j: int|
                            0 <= i < j < r@.len() implies kind_index(#[trigger] r@[i].1)
                            < kind_index(#[trigger] r@[j].1) || (r@[i].1 == r@[j].1 && r@[i].0
                            < r@[j].0) by {
                            if j < old_r.len() {
                            } else {
                                assert(r@[j] == (s as Square, kind));
                                assert(r@[i] == old_r[i]);
                                assert(kind_index(old_r[i].1) < ki as int || (old_r[i].1 == kind
                                    && old_r[i].0 < s));
                            }
                        }
                    }
                }
                s = s + 1;
            }
            ki = ki + 1;
        }
        r
    }

    /// Renders the board as eight text rows, highest rank first: the rank
    /// digit, then one character per file, space-separated — the
    /// occupant's letter (upper-case for Blue and Red, lower-case for
    /// Black and Yellow) or a dot for an empty square, as
    /// `spec_row_chars` lays the row out.
    pub fn ascii_rows(&self) -> (r: Vec<String>)
        ensures
            r@.len() == 8,
            forall|i: int| 0 <= i < 8 ==> #[trigger] r@[i]@.len() == 17,
            inv(*self) ==> (forall|i: int|
                0 <= i < 8 ==> #[trigger] r@[i]@ == spec_row_chars(*self, 7 - i, 8)),
    {
        let mut rows: Vec<String> = Vec::new();
        let mut rank_rev: usize = 0;
        while rank_rev < 8
            invariant
                rank_rev <= 8,
                rows@.len() == rank_rev,
                forall|i: int| 0 <= i < rank_rev as int ==> #[trigger] rows@[i]@.len() == 17,
                inv(*self) ==> (forall|i: int|
                    0 <= i < rank_rev as int ==> #[trigger] rows@[i]@ == spec_row_chars(
                        *self,
                        7 - i,
                        8,
                    )),
            decreases 8 - rank_rev,
        {
            let rank: usize = 7 - rank_rev;
            let mut line = crate::engine::types::rank_str((rank * 8) as Square).to_owned();
            proof {
                assert(line@ =~= spec_row_chars(*self, rank as int, 0));
            }
            let mut file: usize = 0;
            while file < 8
                invariant
                    file <= 8,
                    rank == 7 - rank_rev,
                    rank_rev < 8,
                    line@.len() == 1 + 2 * file,
                    inv(*self) ==> line@ == spec_row_chars(*self, rank as int, file as int),
                decreases 8 - file,
            {
                let ghost line0 = line@;
                proof {
                    reveal_strlit(" ");
                    assert(" "@ =~= seq![' ']);
                }
                line.append(" ");
                let square = (rank * 8 + file) as Square;
                let ch: &'static str = match self.piece_at(square) {
                    Some((army, kind)) => {
                        proof {
                            if inv(*self) {
                                assert(occupied(*self, square as u64));
                                let (a2, k2) = choose|a2: Army, k2: PieceKind|
                                    #[trigger] has_piece(*self, a2, k2, square as u64);
                                assert(has_piece(*self, army, kind, square as u64));
                                assert(!(has_piece(*self, a2, k2, square as u64) && has_piece(
                                    *self,
                                    army,
                                    kind,
                                    square as u64,
                                ) && (a2 != army || k2 != kind)));
                                assert(spec_square_char(*self, square as u64) == spec_piece_char(
                                    army,
                                    kind,
                                ));
                            }
                        }
                        piece_str(army, kind)
                    },
                    None => {
                        proof {
                            reveal_strlit(".");
                            assert("."@ =~= seq!['.']);
                            assert(!occupied(*self, square as u64));
                        }
                        "."
                    },
                };
                line.append(ch);
                proof {
                    if inv(*self) {
                        assert(ch@[0] == spec_square_char(*self, square as u64));
                        assert(square as u64 == (rank as int * 8 + file as int) as u64);
                        assert(line@ =~= spec_row_chars(*self, rank as int, file as int) + seq![
                            ' ',
                            spec_square_char(*self, (rank as int * 8 + file as int) as u64),
                        ]);
                        assert(line@ =~= spec_row_chars(*self, rank as int, file as int + 1));
                    }
                }
                file = file + 1;
            }
            let ghost rows0 = rows@;
            rows.push(line);
            proof {
                assert(rows@ == rows0.push(line));
                assert forall|i: int| 0 <= i < rank_rev as int + 1 implies #[trigger] rows@[i]@.len()
                    == 17 by {}
                if inv(*self) {
                    assert forall|i: int|
                        0 <= i < rank_rev as int + 1 implies #[trigger] rows@[i]@
                        == spec_row_chars(*self, 7 - i, 8) by {
                        if i == rank_rev as int {
                            assert(rows@[i] == line);
                        }
                    }
                }
            }
            rank_rev = rank_rev + 1;
        }
        rows
    }

    /// The army whose throne pair contains the square, scanning armies in
    /// enumeration order.
    pub fn throne_owner(&self, square: Square) -> (r: Option<Army>)
        ensures
            r is None <==> forall|a: Army| !army_has_throne(*self, a, square),
            r matches Some(a) ==> army_has_throne(*self, a, square) && (forall|a2: Army|
                army_index(a2) < army_index(a) ==> !army_has_throne(*self, a2, square)),
    {
        let mut ai: usize = 0;
        while ai < 4
            invariant
                ai <= 4,
                forall|a: Army| army_index(a) < ai as int ==> !army_has_throne(*self, a, square),
            decreases 4 - ai,
        {
            let army = Army::from_index(ai);
            let ts = self.armies[ai].throne_squares;
            if ts[0] == square || ts[1] == square {
                proof {
                    assert(army_index(army) == ai as int);
                    assert(army_has_throne(*self, army, square));
                }
                return Some(army);
            }
            ai = ai + 1;
        }
        None
    }
}

/// The one-letter rendering of a piece: upper case for Blue and Red,
/// lower case for Black and Yellow.
pub open spec fn spec_piece_char(a: Army, k: PieceKind) -> char {
    let upper = a == Army::Blue || a == Army::Red;
    match k {
        PieceKind::King => if upper { 'K' } else { 'k' },
        PieceKind::Queen => if upper { 'Q' } else { 'q' },
        PieceKind::Rook => if upper { 'R' } else { 'r' },
        PieceKind::Bishop => if upper { 'B' } else { 'b' },
        PieceKind::Knight => if upper { 'N' } else { 'n' },
        PieceKind::Pawn => if upper { 'P' } else { 'p' },
    }
}

/// The character a square renders as: its occupant's letter, or a dot
/// when empty. Under `inv` the occupant is unique.
pub open spec fn spec_square_char(b: Board, s: u64) -> char {
    if occupied(b, s) {
        let (a, k) = choose|a: Army, k: PieceKind| has_piece(b, a, k, s);
        spec_piece_char(a, k)
    } else {
        '.'
    }
}

/// The text of one rendered rank, through the first `upto` files: the
/// rank digit, then each square's character, space-separated.
pub open spec fn spec_row_chars(b: Board, rank: int, upto: int) -> Seq<char>
    decreases upto,
{
    if upto <= 0 {
        seq![crate::engine::types::spec_rank_char((rank * 8) as u8)]
    } else {
        spec_row_chars(b, rank, upto - 1) + seq![
            ' ',
            spec_square_char(b, (rank * 8 + upto - 1) as u64),
        ]
    }
}

/// The one-letter rendering of a piece.
fn piece_str(army: Army, kind: PieceKind) -> (r: &'static str)
    ensures
        r@ == seq![spec_piece_char(army, kind)],
{
    let upper = matches!(army, Army::Blue) || matches!(army, Army::Red);
    match kind {
        PieceKind::King => {
            if upper {
                proof {
                    reveal_strlit("K");
                    assert("K"@ =~= seq!['K']);
                }
                "K"
            } else {
                proof {
                    reveal_strlit("k");
                    assert("k"@ =~= seq!['k']);
                }
                "k"
            }
        },
        PieceKind::Queen => {
            if upper {
                proof {
                    reveal_strlit("Q");
                    assert("Q"@ =~= seq!['Q']);
                }
                "Q"
            } else {
                proof {
                    reveal_strlit("q");
                    assert("q"@ =~= seq!['q']);
                }
                "q"
            }
        },
        PieceKind::Rook => {
            if upper {
                proof {
                    reveal_strlit("R");
                    assert("R"@ =~= seq!['R']);
                }
                "R"
            } else {
                proof {
                    reveal_strlit("r");
                    assert("r"@ =~= seq!['r']);
                }
                "r"
            }
        },
        PieceKind::Bishop => {
            if upper {
                proof {
                    reveal_strlit("B");
                    assert("B"@ =~= seq!['B']);
                }
                "B"
            } else {
                proof {
                    reveal_strlit("b");
                    assert("b"@ =~= seq!['b']);
                }
                "b"
            }
        },
        PieceKind::Knight => {
            if upper {
                proof {
                    reveal_strlit("N");
                    assert("N"@ =~= seq!['N']);
                }
                "N"
            } else {
                proof {
                    reveal_strlit("n");
                    assert("n"@ =~= seq!['n']);
                }
                "n"
            }
        },
        PieceKind::Pawn => {
            if upper {
                proof {
                    reveal_strlit("P");
                    assert("P"@ =~= seq!['P']);
                }
                "P"
            } else {
                proof {
                    reveal_strlit("p");
                    assert("p"@ =~= seq!['p']);
                }
                "p"
            }
        },
    }
}

/// The default army metadata: each army on its home edge's throne pair,
/// the first player commanding Blue and Black, the second Red and Yellow.
pub open spec fn spec_default_army_states() -> [ArmyState; 4] {
    [
        ArmyState {
            army: Army::Blue,
            throne_squares: [3u8, 4u8],
            controller: PlayerId(0),
            is_frozen: false,
        },
        ArmyState {
            army: Army::Black,
            throne_squares: [24u8, 32u8],
            controller: PlayerId(0),
            is_frozen: false,
        },
        ArmyState {
            army: Army::Red,
            throne_squares: [59u8, 60u8],
            controller: PlayerId(1),
            is_frozen: false,
        },
        ArmyState {
            army: Army::Yellow,
            throne_squares: [31u8, 39u8],
            controller: PlayerId(1),
            is_frozen: false,
        },
    ]
}

/// The default promotion zones: the far edge of each army's march.
pub open spec fn spec_default_promotion_zones() -> [u64; 4] {
    [MASK_RANK_8, MASK_FILE_H, MASK_RANK_1, MASK_FILE_A]
}

/// The default army metadata, as `spec_default_army_states` lays it out.
pub fn default_army_states() -> (r: [ArmyState; 4])
    ensures
        r == spec_default_army_states(),
{
    let r = [
        ArmyState::new(Army::Blue, [3u8, 4u8], PlayerId::new(0)),
        ArmyState::new(Army::Black, [24u8, 32u8], PlayerId::new(0)),
        ArmyState::new(Army::Red, [59u8, 60u8], PlayerId::new(1)),
        ArmyState::new(Army::Yellow, [31u8, 39u8], PlayerId::new(1)),
    ];
    proof {
        assert(r =~= spec_default_army_states());
    }
    r
}

/// The default promotion zones, one board edge per army.
pub fn default_promotion_zones() -> (r: [u64; 4])
    ensures
        r == spec_default_promotion_zones(),
{
    let r = [MASK_RANK_8, MASK_FILE_H, MASK_RANK_1, MASK_FILE_A];
    proof {
        assert(r =~= spec_default_promotion_zones());
    }
    r
}

impl Default for Board {
    /// A bare board: only the four kings, each on its home square, with the
    /// default metadata.
    fn default() -> (r: Board)
        ensures
            forall|a: Army, k: PieceKind, s: u64|
                #[trigger] has_piece(r, a, k, s) <==> (k == PieceKind::King && ((a == Army::Blue
                    && s == 4) || (a == Army::Red && s == 60) || (a == Army::Black && s == 32) || (
                a == Army::Yellow && s == 39))),
            inv(r),
            synced(r),
            r.armies == spec_default_army_states(),
            r.promotion_zones == spec_default_promotion_zones(),
    {
        let mut b = Board::new(&[]);
        proof {
            assert forall|a: Army, k: PieceKind, s: u64| !(#[trigger] has_piece(b, a, k, s)) by {
                assert(mask_of(b, a, k) == placed_mask(Seq::<(Army, Piece, u64)>::empty(), a, k));
            }
        }
        b.place_piece(Army::Blue, PieceKind::King, 4);
        b.place_piece(Army::Red, PieceKind::King, 60);
        b.place_piece(Army::Black, PieceKind::King, 32);
        b.place_piece(Army::Yellow, PieceKind::King, 39);
        b
    }
}

/// One of the two diagonal colourings of the board.
#[derive(Debug, Clone, Copy, PartialEq, Eq, Structural)]
pub enum DiagonalSystem {
    Aries,
    Cancer,
}

pub const ARIES_DIAGONALS: u64 = 0x55AA55AA55AA55AA;

pub const CANCER_DIAGONALS: u64 = 0xAA55AA55AA55AA55;

/// The diagonal system a square belongs to.
pub open spec fn spec_diagonal_system(s: u64) -> DiagonalSystem {
    if sq_bit(ARIES_DIAGONALS, s) {
        DiagonalSystem::Aries
    } else {
        DiagonalSystem::Cancer
    }
}

/// The diagonal system a square belongs to.
pub fn diagonal_system(square: Square) -> (r: DiagonalSystem)
    requires
        square < 64,
    ensures
        r == spec_diagonal_system(square as u64),
{
    if (ARIES_DIAGONALS >> (square as u64)) & 1u64 != 0 {
        proof {
            let su = square as u64;
            assert((ARIES_DIAGONALS >> su) & 1u64 != 0 ==> (ARIES_DIAGONALS >> su) & 1u64 == 1u64)
                by (bit_vector);
        }
        DiagonalSystem::Aries
    } else {
        DiagonalSystem::Cancer
    }
}

pub const MASK_RANK_1: u64 = 0x00000000000000FF;

pub const MASK_RANK_2: u64 = 0x000000000000FF00;

pub const MASK_RANK_3: u64 = 0x0000000000FF0000;

pub const MASK_RANK_4: u64 = 0x00000000FF000000;

pub const MASK_RANK_5: u64 = 0x000000FF00000000;

pub const MASK_RANK_6: u64 = 0x0000FF0000000000;

pub const MASK_RANK_7: u64 = 0x00FF000000000000;

pub const MASK_RANK_8: u64 = 0xFF00000000000000;

pub const MASK_FILE_A: u64 = 0x0101010101010101;

pub const MASK_FILE_B: u64 = 0x0202020202020202;

pub const MASK_FILE_C: u64 = 0x0404040404040404;

pub const MASK_FILE_D: u64 = 0x0808080808080808;

pub const MASK_FILE_E: u64 = 0x1010101010101010;

pub const MASK_FILE_F: u64 = 0x2020202020202020;

pub const MASK_FILE_G: u64 = 0x4040404040404040;

pub const MASK_FILE_H: u64 = 0x8080808080808080;

} // verus!
