//! Pseudo-legal move generation: per piece kind, the destination squares
//! reachable on the current board, own-army blocking respected.
//!
//! Each generator's contract states, bit for bit, which destinations the
//! returned mask holds, in terms of the geometric predicates defined here.

use vstd::prelude::*;

use crate::engine::bits::{group_bits, sq_bit};
use crate::engine::board::{
    army_occ, has_piece, inv, mask_of, occupied, spec_diagonal_system, synced, total_occ, Board,
};
use crate::engine::types::{army_index, kind_index, Army, PieceKind, Square};

verus! {

broadcast use group_bits;

pub const UP: usize = 0;

pub const UP_RIGHT: usize = 1;

pub const RIGHT: usize = 2;

pub const DOWN_RIGHT: usize = 3;

pub const DOWN: usize = 4;

pub const DOWN_LEFT: usize = 5;

pub const LEFT: usize = 6;

pub const UP_LEFT: usize = 7;

/// The file (column) of a square.
pub open spec fn file_of(s: u64) -> int {
    s as int % 8
}

/// The rank (row) of a square.
pub open spec fn rank_of(s: u64) -> int {
    s as int / 8
}

/// The coordinates lie on the board.
pub open spec fn on_board(f: int, r: int) -> bool {
    0 <= f < 8 && 0 <= r < 8
}

/// The square at the given coordinates.
pub open spec fn sq_at(f: int, r: int) -> u64 {
    (r * 8 + f) as u64
}

/// The file delta of a clockwise direction index.
pub open spec fn dir_df(d: int) -> int {
    if d == UP as int {
        0
    } else if d == UP_RIGHT as int {
        1
    } else if d == RIGHT as int {
        1
    } else if d == DOWN_RIGHT as int {
        1
    } else if d == DOWN as int {
        0
    } else if d == DOWN_LEFT as int {
        -1
    } else if d == LEFT as int {
        -1
    } else {
        -1
    }
}

/// The rank delta of a clockwise direction index.
pub open spec fn dir_dr(d: int) -> int {
    if d == UP as int {
        1
    } else if d == UP_RIGHT as int {
        1
    } else if d == RIGHT as int {
        0
    } else if d == DOWN_RIGHT as int {
        -1
    } else if d == DOWN as int {
        -1
    } else if d == DOWN_LEFT as int {
        -1
    } else if d == LEFT as int {
        0
    } else {
        1
    }
}

/// A direction index runs diagonally (the odd ones, clockwise from up).
pub open spec fn is_diagonal_dir(d: int) -> bool {
    d == UP_RIGHT as int || d == DOWN_RIGHT as int || d == DOWN_LEFT as int || d == UP_LEFT as int
}

/// A direction index runs orthogonally (the even ones).
pub open spec fn is_orthogonal_dir(d: int) -> bool {
    d == UP as int || d == RIGHT as int || d == DOWN as int || d == LEFT as int
}

/// Steps left along the chosen axis before the walk leaves the board.
pub open spec fn room(f: int, r: int, df: int, dr: int) -> int {
    let fr = if df > 0 {
        7 - f
    } else if df < 0 {
        f
    } else {
        16
    };
    let rr = if dr > 0 {
        7 - r
    } else if dr < 0 {
        r
    } else {
        16
    };
    if fr < rr {
        fr
    } else {
        rr
    }
}

/// A slider standing at (f, r) reaches (tf, tr) along direction (df, dr):
/// every square strictly before the target is empty in `occ`; the target
/// itself is the first square that may be occupied.
pub open spec fn slide_to(occ: u64, f: int, r: int, df: int, dr: int, tf: int, tr: int) -> bool
    decreases room(f, r, df, dr),
{
    if df == 0 && dr == 0 {
        false
    } else {
        let nf = f + df;
        let nr = r + dr;
        on_board(nf, nr) && ((nf == tf && nr == tr) || (!sq_bit(occ, sq_at(nf, nr)) && slide_to(
            occ,
            nf,
            nr,
            df,
            dr,
            tf,
            tr,
        )))
    }
}

/// A piece of the army stands on the square.
pub open spec fn own_at(b: Board, army: Army, s: u64) -> bool {
    exists|k: PieceKind| has_piece(b, army, k, s)
}

/// A piece of the given kind belonging to any other army stands on the
/// square.
pub open spec fn other_army_kind_at(b: Board, army: Army, k: PieceKind, s: u64) -> bool {
    exists|a: Army| a != army && has_piece(b, a, k, s)
}

/// A piece of any other army stands on the square.
pub open spec fn other_army_at(b: Board, army: Army, s: u64) -> bool {
    exists|a: Army, k: PieceKind| a != army && has_piece(b, a, k, s)
}

/// The two squares share a diagonal system.
pub open spec fn same_system(from: u64, to: u64) -> bool {
    spec_diagonal_system(from) == spec_diagonal_system(to)
}

/// One king step: adjacent squares.
pub open spec fn king_step(from: u64, to: u64) -> bool {
    let df = file_of(to) - file_of(from);
    let dr = rank_of(to) - rank_of(from);
    from < 64 && to < 64 && -1 <= df <= 1 && -1 <= dr <= 1 && !(df == 0 && dr == 0)
}

/// One knight step: the L shape.
pub open spec fn knight_step(from: u64, to: u64) -> bool {
    let df = file_of(to) - file_of(from);
    let dr = rank_of(to) - rank_of(from);
    from < 64 && to < 64 && ((df == 1 || df == -1) && (dr == 2 || dr == -2) || (df == 2 || df
        == -2) && (dr == 1 || dr == -1))
}

/// One queen leap: exactly two squares orthogonally or diagonally, not
/// blocked by anything in between.
pub open spec fn queen_leap(from: u64, to: u64) -> bool {
    let df = file_of(to) - file_of(from);
    let dr = rank_of(to) - rank_of(from);
    from < 64 && to < 64 && (df == 0 || df == 2 || df == -2) && (dr == 0 || dr == 2 || dr == -2)
        && !(df == 0 && dr == 0)
}

/// A king destination: one step onto a square not held by the own army.
pub open spec fn king_dest(b: Board, army: Army, from: u64, to: u64) -> bool {
    king_step(from, to) && !own_at(b, army, to)
}

/// A knight destination: one L step onto a square not held by the own army.
pub open spec fn knight_dest(b: Board, army: Army, from: u64, to: u64) -> bool {
    knight_step(from, to) && !own_at(b, army, to)
}

/// A queen destination: a two-square leap onto a square not held by the own
/// army and not by any other queen; another army's bishop only when it
/// shares the queen's diagonal system.
pub open spec fn queen_dest(b: Board, army: Army, from: u64, to: u64) -> bool {
    &&& queen_leap(from, to)
    &&& !own_at(b, army, to)
    &&& !other_army_kind_at(b, army, PieceKind::Queen, to)
    &&& (other_army_kind_at(b, army, PieceKind::Bishop, to) ==> same_system(from, to))
}

/// A slider reaches the target along one of its ray directions.
pub open spec fn slider_reach(b: Board, from: u64, to: u64, diagonal: bool) -> bool {
    exists|d: int|
        0 <= d < 8 && (if diagonal {
            is_diagonal_dir(d)
        } else {
            is_orthogonal_dir(d)
        }) && slide_to(total_occ(b), file_of(from), rank_of(from), dir_df(d), dir_dr(d), file_of(
            to,
        ), rank_of(to))
}

/// A rook destination: the first square reachable along a rank or file that
/// the own army does not hold.
pub open spec fn rook_dest(b: Board, army: Army, from: u64, to: u64) -> bool {
    from < 64 && to < 64 && slider_reach(b, from, to, false) && !own_at(b, army, to)
}

/// A bishop destination: the first square reachable along a diagonal, not
/// held by the own army and not by another bishop; another army's queen
/// only when it shares the bishop's diagonal system.
pub open spec fn bishop_dest(b: Board, army: Army, from: u64, to: u64) -> bool {
    &&& from < 64
    &&& to < 64
    &&& slider_reach(b, from, to, true)
    &&& !own_at(b, army, to)
    &&& !other_army_kind_at(b, army, PieceKind::Bishop, to)
    &&& (other_army_kind_at(b, army, PieceKind::Queen, to) ==> same_system(from, to))
}

/// The army's forward file delta: the two file-marching armies move east
/// or west.
pub open spec fn pawn_df(a: Army) -> int {
    match a {
        Army::Blue => 0,
        Army::Red => 0,
        Army::Black => 1,
        Army::Yellow => -1,
    }
}

/// The army's forward rank delta: the two rank-marching armies move north
/// or south.
pub open spec fn pawn_dr(a: Army) -> int {
    match a {
        Army::Blue => 1,
        Army::Red => -1,
        Army::Black => 0,
        Army::Yellow => 0,
    }
}

/// A quiet pawn destination: one square forward onto an empty square.
pub open spec fn pawn_quiet_dest(b: Board, army: Army, from: u64, to: u64) -> bool {
    let tf = file_of(from) + pawn_df(army);
    let tr = rank_of(from) + pawn_dr(army);
    from < 64 && to < 64 && on_board(tf, tr) && to == sq_at(tf, tr) && !sq_bit(total_occ(b), to)
}

/// A pawn attack square: one of the two forward diagonals.
pub open spec fn pawn_attack_sq(army: Army, from: u64, to: u64) -> bool {
    let df = file_of(to) - file_of(from);
    let dr = rank_of(to) - rank_of(from);
    from < 64 && to < 64 && ((pawn_dr(army) != 0 && dr == pawn_dr(army) && (df == 1 || df == -1))
        || (pawn_df(army) != 0 && df == pawn_df(army) && (dr == 1 || dr == -1)))
}

/// A pawn attack destination: a forward diagonal the own army does not
/// hold. Whether it is playable depends on an enemy standing there.
pub open spec fn pawn_attack_dest(b: Board, army: Army, from: u64, to: u64) -> bool {
    pawn_attack_sq(army, from, to) && !own_at(b, army, to)
}

/// Bridges the army-occupancy cache to per-piece facts for one square.
proof fn occ_facts(b: Board, army: Army, to: u64)
    requires
        to < 64,
    ensures
        sq_bit(army_occ(b, army), to) <==> own_at(b, army, to),
{
    crate::engine::board::lemma_army_occ_bit(b, army, to);
}

/// Destinations of a king standing on `from`.
pub fn king_dests_from(b: &Board, army: Army, from: Square) -> (r: u64)
    requires
        from < 64,
        synced(*b),
    ensures
        forall|to: u64| to < 64 ==> (sq_bit(r, to) <==> king_dest(*b, army, from as u64, to)),
{
    let own = b.occupancy_by_army[army.index()];
    let ff = (from as usize) % 8;
    let fr = (from as usize) / 8;
    let mut m: u64 = 0;
    let mut to: u64 = 0;
    while to < 64
        invariant
            to <= 64,
            from < 64,
            synced(*b),
            own == army_occ(*b, army),
            ff == file_of(from as u64),
            fr == rank_of(from as u64),
            forall|t: u64| t < to ==> (sq_bit(m, t) <==> king_dest(*b, army, from as u64, t)),
            forall|t: u64| to <= t < 64 ==> !sq_bit(m, t),
        decreases 64 - to,
    {
        let tf = (to as usize) % 8;
        let tr = (to as usize) / 8;
        let near_f = tf <= ff + 1 && ff <= tf + 1;
        let near_r = tr <= fr + 1 && fr <= tr + 1;
        proof {
            occ_facts(*b, army, to);
            crate::engine::bits::lemma_bit_is_01(own, to);
        }
        if near_f && near_r && !(tf == ff && tr == fr) && (own >> to) & 1u64 == 0u64 {
            m = m | (1u64 << to);
        }
        to = to + 1;
    }
    m
}

/// Destinations of a knight standing on `from`.
pub fn knight_dests_from(b: &Board, army: Army, from: Square) -> (r: u64)
    requires
        from < 64,
        synced(*b),
    ensures
        forall|to: u64| to < 64 ==> (sq_bit(r, to) <==> knight_dest(*b, army, from as u64, to)),
{
    let own = b.occupancy_by_army[army.index()];
    let ff = (from as usize) % 8;
    let fr = (from as usize) / 8;
    let mut m: u64 = 0;
    let mut to: u64 = 0;
    while to < 64
        invariant
            to <= 64,
            from < 64,
            synced(*b),
            own == army_occ(*b, army),
            ff == file_of(from as u64),
            fr == rank_of(from as u64),
            forall|t: u64| t < to ==> (sq_bit(m, t) <==> knight_dest(*b, army, from as u64, t)),
            forall|t: u64| to <= t < 64 ==> !sq_bit(m, t),
        decreases 64 - to,
    {
        let tf = (to as usize) % 8;
        let tr = (to as usize) / 8;
        let adf = if tf >= ff {
            tf - ff
        } else {
            ff - tf
        };
        let adr = if tr >= fr {
            tr - fr
        } else {
            fr - tr
        };
        proof {
            occ_facts(*b, army, to);
            crate::engine::bits::lemma_bit_is_01(own, to);
        }
        if ((adf == 1 && adr == 2) || (adf == 2 && adr == 1)) && (own >> to) & 1u64 == 0u64 {
            m = m | (1u64 << to);
        }
        to = to + 1;
    }
    m
}

/// Destinations of a queen standing on `from`: the two-square leaps, under
/// the variant's queen-capture restrictions.
pub fn queen_dests_from(b: &Board, army: Army, from: Square) -> (r: u64)
    requires
        from < 64,
        inv(*b),
        synced(*b),
    ensures
        forall|to: u64| to < 64 ==> (sq_bit(r, to) <==> queen_dest(*b, army, from as u64, to)),
{
    let own = b.occupancy_by_army[army.index()];
    let ff = (from as usize) % 8;
    let fr = (from as usize) / 8;
    let from_system = crate::engine::board::diagonal_system(from);
    let mut m: u64 = 0;
    let mut to: u64 = 0;
    while to < 64
        invariant
            to <= 64,
            from < 64,
            inv(*b),
            synced(*b),
            own == army_occ(*b, army),
            ff == file_of(from as u64),
            fr == rank_of(from as u64),
            from_system == spec_diagonal_system(from as u64),
            forall|t: u64| t < to ==> (sq_bit(m, t) <==> queen_dest(*b, army, from as u64, t)),
            forall|t: u64| to <= t < 64 ==> !sq_bit(m, t),
        decreases 64 - to,
    {
        let tf = (to as usize) % 8;
        let tr = (to as usize) / 8;
        let adf = if tf >= ff {
            tf - ff
        } else {
            ff - tf
        };
        let adr = if tr >= fr {
            tr - fr
        } else {
            fr - tr
        };
        proof {
            occ_facts(*b, army, to);
            crate::engine::bits::lemma_bit_is_01(own, to);
        }
        let leap = (adf == 0 || adf == 2) && (adr == 0 || adr == 2) && !(adf == 0 && adr == 0);
        if leap && (own >> to) & 1u64 == 0u64 {
            let allowed: bool = match b.piece_at(to as Square) {
                Option::None => true,
                Option::Some((ta, tk)) => {
                    if matches!(tk, PieceKind::Queen) {
                        false
                    } else if matches!(tk, PieceKind::Bishop) {
                        let to_system = crate::engine::board::diagonal_system(to as Square);
                        matches!(
                            (from_system, to_system),
                            (
                                crate::engine::board::DiagonalSystem::Aries,
                                crate::engine::board::DiagonalSystem::Aries,
                            ) | (
                                crate::engine::board::DiagonalSystem::Cancer,
                                crate::engine::board::DiagonalSystem::Cancer,
                            )
                        )
                    } else {
                        true
                    }
                },
            };
            if allowed {
                m = m | (1u64 << to);
            }
            proof {
                assert(sq_bit(m, to) <==> queen_dest(*b, army, from as u64, to));
            }
        }
        to = to + 1;
    }
    m
}

/// The exec-side deltas of a clockwise direction index.
fn dir_delta(d: usize) -> (r: (i8, i8))
    requires
        d < 8,
    ensures
        r.0 as int == dir_df(d as int),
        r.1 as int == dir_dr(d as int),
{
    if d == 0 {
        (0, 1)
    } else if d == 1 {
        (1, 1)
    } else if d == 2 {
        (1, 0)
    } else if d == 3 {
        (1, -1)
    } else if d == 4 {
        (0, -1)
    } else if d == 5 {
        (-1, -1)
    } else if d == 6 {
        (-1, 0)
    } else {
        (-1, 1)
    }
}

/// A full ray destination for a rook: reachable along direction `d` and not
/// held by the own army.
pub open spec fn rook_ray_dest(b: Board, army: Army, from: u64, to: u64, d: int) -> bool {
    to < 64 && slide_to(total_occ(b), file_of(from), rank_of(from), dir_df(d), dir_dr(d), file_of(
        to,
    ), rank_of(to)) && !own_at(b, army, to)
}

/// A full ray destination for a bishop: reachable along direction `d`,
/// under the variant's bishop-capture restrictions.
pub open spec fn bishop_ray_dest(b: Board, army: Army, from: u64, to: u64, d: int) -> bool {
    &&& to < 64
    &&& slide_to(total_occ(b), file_of(from), rank_of(from), dir_df(d), dir_dr(d), file_of(to),
        rank_of(to))
    &&& !own_at(b, army, to)
    &&& !other_army_kind_at(b, army, PieceKind::Bishop, to)
    &&& (other_army_kind_at(b, army, PieceKind::Queen, to) ==> same_system(from, to))
}

/// Destinations of a rook standing on `from`: walks each rank and file
/// until the first occupied square, which is reachable unless the own army
/// holds it.
pub fn rook_dests_from(b: &Board, army: Army, from: Square) -> (r: u64)
    requires
        from < 64,
        inv(*b),
        synced(*b),
    ensures
        forall|to: u64| to < 64 ==> (sq_bit(r, to) <==> rook_dest(*b, army, from as u64, to)),
{
    let occ = b.all_occupancy;
    let own = b.occupancy_by_army[army.index()];
    let ff = (from % 8) as i8;
    let fr = (from / 8) as i8;
    let mut m: u64 = 0;
    let dirs: [usize; 4] = [UP, RIGHT, DOWN, LEFT];
    let mut di: usize = 0;
    while di < 4
        invariant
            di <= 4,
            from < 64,
            inv(*b),
            synced(*b),
            occ == total_occ(*b),
            own == army_occ(*b, army),
            ff as int == file_of(from as u64),
            fr as int == rank_of(from as u64),
            0 <= ff < 8,
            0 <= fr < 8,
            dirs@ == seq![UP, RIGHT, DOWN, LEFT],
            forall|t: u64|
                t < 64 ==> (sq_bit(m, t) <==> exists|j: int|
                    0 <= j < di as int && rook_ray_dest(
                        *b,
                        army,
                        from as u64,
                        t,
                        #[trigger] dirs@[j] as int,
                    )),
        decreases 4 - di,
    {
        let d = dirs[di];
        let (df, dr) = dir_delta(d);
        let mut cf: i8 = ff;
        let mut cr: i8 = fr;
        let mut going = true;
        while going
            invariant
                from < 64,
                di < 4,
                inv(*b),
                synced(*b),
                occ == total_occ(*b),
                own == army_occ(*b, army),
                dirs@ == seq![UP, RIGHT, DOWN, LEFT],
                d == dirs@[di as int],
                d < 8,
                df as int == dir_df(d as int),
                dr as int == dir_dr(d as int),
                !(df == 0 && dr == 0),
                0 <= cf < 8,
                0 <= cr < 8,
                forall|t: u64|
                    t < 64 ==> ((sq_bit(m, t) || (going && slide_to(
                        occ,
                        cf as int,
                        cr as int,
                        df as int,
                        dr as int,
                        file_of(t),
                        rank_of(t),
                    ) && !own_at(*b, army, t))) <==> ((exists|j: int|
                        0 <= j < di as int && rook_ray_dest(
                            *b,
                            army,
                            from as u64,
                            t,
                            #[trigger] dirs@[j] as int,
                        )) || rook_ray_dest(*b, army, from as u64, t, d as int))),
            decreases room(cf as int, cr as int, df as int, dr as int) + 1, (if going {
                1int
            } else {
                0int
            }),
        {
            let nf = cf + df;
            let nr = cr + dr;
            if nf < 0 || nf > 7 || nr < 0 || nr > 7 {
                going = false;
            } else {
                let nsq: u64 = (nr as u64) * 8 + (nf as u64);
                proof {
                    assert(nsq == sq_at(nf as int, nr as int));
                    assert(file_of(nsq) == nf as int && rank_of(nsq) == nr as int);
                    crate::engine::bits::lemma_bit_is_01(occ, nsq);
                    crate::engine::bits::lemma_bit_is_01(own, nsq);
                    occ_facts(*b, army, nsq);
                    crate::engine::board::lemma_total_occ_bit(*b, nsq);
                }
                if (occ >> nsq) & 1u64 == 0u64 {
                    m = m | (1u64 << nsq);
                    cf = nf;
                    cr = nr;
                    proof {
                        assert(!own_at(*b, army, nsq));
                        assert forall|t: u64| t < 64 implies (slide_to(
                            occ,
                            cf as int - df as int,
                            cr as int - dr as int,
                            df as int,
                            dr as int,
                            file_of(t),
                            rank_of(t),
                        ) <==> (t == nsq || slide_to(
                            occ,
                            cf as int,
                            cr as int,
                            df as int,
                            dr as int,
                            file_of(t),
                            rank_of(t),
                        ))) by {
                            if file_of(t) == nf as int && rank_of(t) == nr as int {
                                assert(t == nsq);
                            }
                        }
                    }
                } else {
                    if (own >> nsq) & 1u64 == 0u64 {
                        m = m | (1u64 << nsq);
                    }
                    going = false;
                    proof {
                        assert forall|t: u64| t < 64 implies (slide_to(
                            occ,
                            cf as int,
                            cr as int,
                            df as int,
                            dr as int,
                            file_of(t),
                            rank_of(t),
                        ) <==> t == nsq) by {
                            if file_of(t) == nf as int && rank_of(t) == nr as int {
                                assert(t == nsq);
                            }
                        }
                    }
                }
            }
        }
        di = di + 1;
        proof {
            assert forall|t: u64| t < 64 implies (sq_bit(m, t) <==> exists|j: int|
                0 <= j < di as int && rook_ray_dest(
                    *b,
                    army,
                    from as u64,
                    t,
                    #[trigger] dirs@[j] as int,
                )) by {
                if sq_bit(m, t) {
                    assert(exists|j: int|
                        0 <= j < di as int - 1 && rook_ray_dest(
                            *b,
                            army,
                            from as u64,
                            t,
                            #[trigger] dirs@[j] as int,
                        ) || rook_ray_dest(*b, army, from as u64, t, dirs@[di as int - 1] as int));
                }
            }
        }
    }
    proof {
        assert forall|to: u64| to < 64 implies (sq_bit(m, to) <==> rook_dest(
            *b,
            army,
            from as u64,
            to,
        )) by {
            if sq_bit(m, to) {
                let j = choose|j: int|
                    0 <= j < 4 && rook_ray_dest(*b, army, from as u64, to, dirs@[j] as int);
                assert(is_orthogonal_dir(dirs@[j] as int));
                assert(slider_reach(*b, from as u64, to, false));
            }
            if rook_dest(*b, army, from as u64, to) {
                let d = choose|d: int|
                    0 <= d < 8 && is_orthogonal_dir(d) && slide_to(
                        total_occ(*b),
                        file_of(from as u64),
                        rank_of(from as u64),
                        dir_df(d),
                        dir_dr(d),
                        file_of(to),
                        rank_of(to),
                    );
                if d == UP as int {
                    assert(rook_ray_dest(*b, army, from as u64, to, dirs@[0] as int));
                } else if d == RIGHT as int {
                    assert(rook_ray_dest(*b, army, from as u64, to, dirs@[1] as int));
                } else if d == DOWN as int {
                    assert(rook_ray_dest(*b, army, from as u64, to, dirs@[2] as int));
                } else {
                    assert(rook_ray_dest(*b, army, from as u64, to, dirs@[3] as int));
                }
            }
        }
    }
    m
}

/// Destinations of a bishop standing on `from`: walks each diagonal until
/// the first occupied square, under the variant's bishop-capture
/// restrictions.
pub fn bishop_dests_from(b: &Board, army: Army, from: Square) -> (r: u64)
    requires
        from < 64,
        inv(*b),
        synced(*b),
    ensures
        forall|to: u64| to < 64 ==> (sq_bit(r, to) <==> bishop_dest(*b, army, from as u64, to)),
{
    let occ = b.all_occupancy;
    let own = b.occupancy_by_army[army.index()];
    let ff = (from % 8) as i8;
    let fr = (from / 8) as i8;
    let from_system = crate::engine::board::diagonal_system(from);
    let mut m: u64 = 0;
    let dirs: [usize; 4] = [UP_RIGHT, DOWN_RIGHT, DOWN_LEFT, UP_LEFT];
    let mut di: usize = 0;
    while di < 4
        invariant
            di <= 4,
            from < 64,
            inv(*b),
            synced(*b),
            occ == total_occ(*b),
            own == army_occ(*b, army),
            ff as int == file_of(from as u64),
            fr as int == rank_of(from as u64),
            0 <= ff < 8,
            0 <= fr < 8,
            from_system == spec_diagonal_system(from as u64),
            dirs@ == seq![UP_RIGHT, DOWN_RIGHT, DOWN_LEFT, UP_LEFT],
            forall|t: u64|
                t < 64 ==> (sq_bit(m, t) <==> exists|j: int|
                    0 <= j < di as int && bishop_ray_dest(
                        *b,
                        army,
                        from as u64,
                        t,
                        #[trigger] dirs@[j] as int,
                    )),
        decreases 4 - di,
    {
        let d = dirs[di];
        let (df, dr) = dir_delta(d);
        let mut cf: i8 = ff;
        let mut cr: i8 = fr;
        let mut going = true;
        while going
            invariant
                from < 64,
                di < 4,
                inv(*b),
                synced(*b),
                occ == total_occ(*b),
                own == army_occ(*b, army),
                from_system == spec_diagonal_system(from as u64),
                dirs@ == seq![UP_RIGHT, DOWN_RIGHT, DOWN_LEFT, UP_LEFT],
                d == dirs@[di as int],
                d < 8,
                df as int == dir_df(d as int),
                dr as int == dir_dr(d as int),
                !(df == 0 && dr == 0),
                0 <= cf < 8,
                0 <= cr < 8,
                forall|t: u64|
                    t < 64 ==> ((sq_bit(m, t) || (going && slide_to(
                        occ,
                        cf as int,
                        cr as int,
                        df as int,
                        dr as int,
                        file_of(t),
                        rank_of(t),
                    ) && !own_at(*b, army, t) && !other_army_kind_at(
                        *b,
                        army,
                        PieceKind::Bishop,
                        t,
                    ) && (other_army_kind_at(*b, army, PieceKind::Queen, t) ==> same_system(
                        from as u64,
                        t,
                    )))) <==> ((exists|j: int|
                        0 <= j < di as int && bishop_ray_dest(
                            *b,
                            army,
                            from as u64,
                            t,
                            #[trigger] dirs@[j] as int,
                        )) || bishop_ray_dest(*b, army, from as u64, t, d as int))),
            decreases room(cf as int, cr as int, df as int, dr as int) + 1, (if going {
                1int
            } else {
                0int
            }),
        {
            let nf = cf + df;
            let nr = cr + dr;
            if nf < 0 || nf > 7 || nr < 0 || nr > 7 {
                going = false;
            } else {
                let nsq: u64 = (nr as u64) * 8 + (nf as u64);
                proof {
                    assert(nsq == sq_at(nf as int, nr as int));
                    assert(file_of(nsq) == nf as int && rank_of(nsq) == nr as int);
                    crate::engine::bits::lemma_bit_is_01(occ, nsq);
                    crate::engine::bits::lemma_bit_is_01(own, nsq);
                    occ_facts(*b, army, nsq);
                    crate::engine::board::lemma_total_occ_bit(*b, nsq);
                }
                if (occ >> nsq) & 1u64 == 0u64 {
                    m = m | (1u64 << nsq);
                    cf = nf;
                    cr = nr;
                    proof {
                        assert(!own_at(*b, army, nsq));
                        assert(!occupied(*b, nsq));
                        assert(!other_army_kind_at(*b, army, PieceKind::Bishop, nsq)) by {
                            if other_army_kind_at(*b, army, PieceKind::Bishop, nsq) {
                                let a = choose|a: Army|
                                    a != army && has_piece(*b, a, PieceKind::Bishop, nsq);
                                assert(occupied(*b, nsq));
                            }
                        }
                        assert(!other_army_kind_at(*b, army, PieceKind::Queen, nsq)) by {
                            if other_army_kind_at(*b, army, PieceKind::Queen, nsq) {
                                let a = choose|a: Army|
                                    a != army && has_piece(*b, a, PieceKind::Queen, nsq);
                                assert(occupied(*b, nsq));
                            }
                        }
                        assert forall|t: u64| t < 64 implies (slide_to(
                            occ,
                            cf as int - df as int,
                            cr as int - dr as int,
                            df as int,
                            dr as int,
                            file_of(t),
                            rank_of(t),
                        ) <==> (t == nsq || slide_to(
                            occ,
                            cf as int,
                            cr as int,
                            df as int,
                            dr as int,
                            file_of(t),
                            rank_of(t),
                        ))) by {
                            if file_of(t) == nf as int && rank_of(t) == nr as int {
                                assert(t == nsq);
                            }
                        }
                    }
                } else {
                    let allowed: bool = if (own >> nsq) & 1u64 != 0u64 {
                        false
                    } else {
                        match b.piece_at(nsq as Square) {
                            Option::None => true,
                            Option::Some((ta, tk)) => {
                                if matches!(tk, PieceKind::Bishop) {
                                    false
                                } else if matches!(tk, PieceKind::Queen) {
                                    let to_system = crate::engine::board::diagonal_system(
                                        nsq as Square,
                                    );
                                    matches!(
                                        (from_system, to_system),
                                        (
                                            crate::engine::board::DiagonalSystem::Aries,
                                            crate::engine::board::DiagonalSystem::Aries,
                                        ) | (
                                            crate::engine::board::DiagonalSystem::Cancer,
                                            crate::engine::board::DiagonalSystem::Cancer,
                                        )
                                    )
                                } else {
                                    true
                                }
                            },
                        }
                    };
                    proof {
                        assert(allowed == (!own_at(*b, army, nsq) && !other_army_kind_at(
                            *b,
                            army,
                            PieceKind::Bishop,
                            nsq,
                        ) && (other_army_kind_at(*b, army, PieceKind::Queen, nsq) ==> same_system(
                            from as u64,
                            nsq,
                        )))) by {
                            if !sq_bit(own, nsq) {
                                if other_army_kind_at(*b, army, PieceKind::Bishop, nsq) {
                                    let a = choose|a: Army|
                                        a != army && has_piece(*b, a, PieceKind::Bishop, nsq);
                                    assert(has_piece(*b, a, PieceKind::Bishop, nsq));
                                }
                                if other_army_kind_at(*b, army, PieceKind::Queen, nsq) {
                                    let a = choose|a: Army|
                                        a != army && has_piece(*b, a, PieceKind::Queen, nsq);
                                    assert(has_piece(*b, a, PieceKind::Queen, nsq));
                                }
                            }
                        }
                    }
                    if allowed {
                        m = m | (1u64 << nsq);
                    }
                    going = false;
                    proof {
                        assert forall|t: u64| t < 64 implies (slide_to(
                            occ,
                            cf as int,
                            cr as int,
                            df as int,
                            dr as int,
                            file_of(t),
                            rank_of(t),
                        ) <==> t == nsq) by {
                            if file_of(t) == nf as int && rank_of(t) == nr as int {
                                assert(t == nsq);
                            }
                        }
                    }
                }
            }
        }
        di = di + 1;
        proof {
            assert forall|t: u64| t < 64 implies (sq_bit(m, t) <==> exists|j: int|
                0 <= j < di as int && bishop_ray_dest(
                    *b,
                    army,
                    from as u64,
                    t,
                    #[trigger] dirs@[j] as int,
                )) by {
                if sq_bit(m, t) {
                    assert(exists|j: int|
                        0 <= j < di as int - 1 && bishop_ray_dest(
                            *b,
                            army,
                            from as u64,
                            t,
                            #[trigger] dirs@[j] as int,
                        ) || bishop_ray_dest(
                            *b,
                            army,
                            from as u64,
                            t,
                            dirs@[di as int - 1] as int,
                        ));
                }
            }
        }
    }
    proof {
        assert forall|to: u64| to < 64 implies (sq_bit(m, to) <==> bishop_dest(
            *b,
            army,
            from as u64,
            to,
        )) by {
            if sq_bit(m, to) {
                let j = choose|j: int|
                    0 <= j < 4 && bishop_ray_dest(*b, army, from as u64, to, dirs@[j] as int);
                assert(is_diagonal_dir(dirs@[j] as int));
                assert(slider_reach(*b, from as u64, to, true));
            }
            if bishop_dest(*b, army, from as u64, to) {
                let d = choose|d: int|
                    0 <= d < 8 && is_diagonal_dir(d) && slide_to(
                        total_occ(*b),
                        file_of(from as u64),
                        rank_of(from as u64),
                        dir_df(d),
                        dir_dr(d),
                        file_of(to),
                        rank_of(to),
                    );
                if d == UP_RIGHT as int {
                    assert(bishop_ray_dest(*b, army, from as u64, to, dirs@[0] as int));
                } else if d == DOWN_RIGHT as int {
                    assert(bishop_ray_dest(*b, army, from as u64, to, dirs@[1] as int));
                } else if d == DOWN_LEFT as int {
                    assert(bishop_ray_dest(*b, army, from as u64, to, dirs@[2] as int));
                } else {
                    assert(bishop_ray_dest(*b, army, from as u64, to, dirs@[3] as int));
                }
            }
        }
    }
    m
}

/// The exec-side forward deltas of an army's pawns.
fn pawn_delta(army: Army) -> (r: (i8, i8))
    ensures
        r.0 as int == pawn_df(army),
        r.1 as int == pawn_dr(army),
{
    match army {
        Army::Blue => (0, 1),
        Army::Red => (0, -1),
        Army::Black => (1, 0),
        Army::Yellow => (-1, 0),
    }
}

/// Pseudo-legal destinations of every king of the army: at most one king
/// is read, the one on the lowest set bit of the king mask.
pub fn compute_king_moves(board: &Board, army: Army) -> (r: u64)
    requires
        synced(*board),
    ensures
        forall|to: u64|
            to < 64 ==> (sq_bit(r, to) <==> (crate::engine::board::spec_king_square(*board, army)
                matches Some(ks) && king_dest(*board, army, ks as u64, to))),
{
    let mask = board.by_army_kind[army.index()][0];
    proof {
        vstd::std_specs::bits::axiom_u64_trailing_zeros(mask);
    }
    if mask == 0 {
        proof {
            assert forall|to: u64| to < 64 implies !sq_bit(0u64, to) by {}
        }
        0
    } else {
        let index = mask.trailing_zeros();
        king_dests_from(board, army, index as Square)
    }
}

/// Pseudo-legal destinations of every knight of the army.
pub fn compute_knights_moves(board: &Board, army: Army) -> (r: u64)
    requires
        synced(*board),
    ensures
        forall|to: u64|
            to < 64 ==> (sq_bit(r, to) <==> exists|f: u64|
                f < 64 && #[trigger] has_piece(*board, army, PieceKind::Knight, f) && knight_dest(
                    *board,
                    army,
                    f,
                    to,
                )),
{
    let pieces = board.by_army_kind[army.index()][3];
    let mut m: u64 = 0;
    let mut f: u64 = 0;
    while f < 64
        invariant
            f <= 64,
            synced(*board),
            pieces == mask_of(*board, army, PieceKind::Knight),
            forall|to: u64|
                to < 64 ==> (sq_bit(m, to) <==> exists|f2: u64|
                    f2 < f && #[trigger] has_piece(*board, army, PieceKind::Knight, f2)
                        && knight_dest(*board, army, f2, to)),
        decreases 64 - f,
    {
        proof {
            crate::engine::bits::lemma_bit_is_01(pieces, f);
        }
        if (pieces >> f) & 1u64 == 1u64 {
            let d = knight_dests_from(board, army, f as Square);
            let ghost old_m = m;
            m = m | d;
            proof {
                assert forall|to: u64| to < 64 implies (sq_bit(m, to) <==> exists|f2: u64|
                    f2 < f + 1 && #[trigger] has_piece(*board, army, PieceKind::Knight, f2)
                        && knight_dest(*board, army, f2, to)) by {
                    if sq_bit(m, to) {
                        if sq_bit(d, to) {
                            assert(has_piece(*board, army, PieceKind::Knight, f) && knight_dest(
                                *board,
                                army,
                                f,
                                to,
                            ));
                        } else {
                            assert(sq_bit(old_m, to));
                        }
                    }
                    if exists|f2: u64|
                        f2 < f + 1 && #[trigger] has_piece(*board, army, PieceKind::Knight, f2)
                            && knight_dest(*board, army, f2, to) {
                        let f2 = choose|f2: u64|
                            f2 < f + 1 && #[trigger] has_piece(*board, army, PieceKind::Knight, f2)
                                && knight_dest(*board, army, f2, to);
                        if f2 == f {
                            assert(sq_bit(d, to));
                        } else {
                            assert(sq_bit(old_m, to));
                        }
                    }
                }
            }
        }
        f = f + 1;
    }
    m
}

/// Pseudo-legal destinations of every rook of the army.
pub fn compute_rooks_moves(board: &Board, army: Army) -> (r: u64)
    requires
        inv(*board),
        synced(*board),
    ensures
        forall|to: u64|
            to < 64 ==> (sq_bit(r, to) <==> exists|f: u64|
                f < 64 && #[trigger] has_piece(*board, army, PieceKind::Rook, f) && rook_dest(
                    *board,
                    army,
                    f,
                    to,
                )),
{
    let pieces = board.by_army_kind[army.index()][4];
    let mut m: u64 = 0;
    let mut f: u64 = 0;
    while f < 64
        invariant
            f <= 64,
            inv(*board),
            synced(*board),
            pieces == mask_of(*board, army, PieceKind::Rook),
            forall|to: u64|
                to < 64 ==> (sq_bit(m, to) <==> exists|f2: u64|
                    f2 < f && #[trigger] has_piece(*board, army, PieceKind::Rook, f2) && rook_dest(
                        *board,
                        army,
                        f2,
                        to,
                    )),
        decreases 64 - f,
    {
        proof {
            crate::engine::bits::lemma_bit_is_01(pieces, f);
        }
        if (pieces >> f) & 1u64 == 1u64 {
            let d = rook_dests_from(board, army, f as Square);
            let ghost old_m = m;
            m = m | d;
            proof {
                assert forall|to: u64| to < 64 implies (sq_bit(m, to) <==> exists|f2: u64|
                    f2 < f + 1 && #[trigger] has_piece(*board, army, PieceKind::Rook, f2)
                        && rook_dest(*board, army, f2, to)) by {
                    if sq_bit(m, to) {
                        if sq_bit(d, to) {
                            assert(has_piece(*board, army, PieceKind::Rook, f) && rook_dest(
                                *board,
                                army,
                                f,
                                to,
                            ));
                        } else {
                            assert(sq_bit(old_m, to));
                        }
                    }
                    if exists|f2: u64|
                        f2 < f + 1 && #[trigger] has_piece(*board, army, PieceKind::Rook, f2)
                            && rook_dest(*board, army, f2, to) {
                        let f2 = choose|f2: u64|
                            f2 < f + 1 && #[trigger] has_piece(*board, army, PieceKind::Rook, f2)
                                && rook_dest(*board, army, f2, to);
                        if f2 == f {
                            assert(sq_bit(d, to));
                        } else {
                            assert(sq_bit(old_m, to));
                        }
                    }
                }
            }
        }
        f = f + 1;
    }
    m
}

/// Pseudo-legal destinations of every bishop of the army.
pub fn compute_bishops_moves(board: &Board, army: Army) -> (r: u64)
    requires
        inv(*board),
        synced(*board),
    ensures
        forall|to: u64|
            to < 64 ==> (sq_bit(r, to) <==> exists|f: u64|
                f < 64 && #[trigger] has_piece(*board, army, PieceKind::Bishop, f) && bishop_dest(
                    *board,
                    army,
                    f,
                    to,
                )),
{
    let pieces = board.by_army_kind[army.index()][2];
    let mut m: u64 = 0;
    let mut f: u64 = 0;
    while f < 64
        invariant
            f <= 64,
            inv(*board),
            synced(*board),
            pieces == mask_of(*board, army, PieceKind::Bishop),
            forall|to: u64|
                to < 64 ==> (sq_bit(m, to) <==> exists|f2: u64|
                    f2 < f && #[trigger] has_piece(*board, army, PieceKind::Bishop, f2)
                        && bishop_dest(*board, army, f2, to)),
        decreases 64 - f,
    {
        proof {
            crate::engine::bits::lemma_bit_is_01(pieces, f);
        }
        if (pieces >> f) & 1u64 == 1u64 {
            let d = bishop_dests_from(board, army, f as Square);
            let ghost old_m = m;
            m = m | d;
            proof {
                assert forall|to: u64| to < 64 implies (sq_bit(m, to) <==> exists|f2: u64|
                    f2 < f + 1 && #[trigger] has_piece(*board, army, PieceKind::Bishop, f2)
                        && bishop_dest(*board, army, f2, to)) by {
                    if sq_bit(m, to) {
                        if sq_bit(d, to) {
                            assert(has_piece(*board, army, PieceKind::Bishop, f) && bishop_dest(
                                *board,
                                army,
                                f,
                                to,
                            ));
                        } else {
                            assert(sq_bit(old_m, to));
                        }
                    }
                    if exists|f2: u64|
                        f2 < f + 1 && #[trigger] has_piece(*board, army, PieceKind::Bishop, f2)
                            && bishop_dest(*board, army, f2, to) {
                        let f2 = choose|f2: u64|
                            f2 < f + 1 && #[trigger] has_piece(*board, army, PieceKind::Bishop, f2)
                                && bishop_dest(*board, army, f2, to);
                        if f2 == f {
                            assert(sq_bit(d, to));
                        } else {
                            assert(sq_bit(old_m, to));
                        }
                    }
                }
            }
        }
        f = f + 1;
    }
    m
}

/// Pseudo-legal destinations of every queen of the army.
pub fn compute_queens_moves(board: &Board, army: Army) -> (r: u64)
    requires
        inv(*board),
        synced(*board),
    ensures
        forall|to: u64|
            to < 64 ==> (sq_bit(r, to) <==> exists|f: u64|
                f < 64 && #[trigger] has_piece(*board, army, PieceKind::Queen, f) && queen_dest(
                    *board,
                    army,
                    f,
                    to,
                )),
{
    let pieces = board.by_army_kind[army.index()][1];
    let mut m: u64 = 0;
    let mut f: u64 = 0;
    while f < 64
        invariant
            f <= 64,
            inv(*board),
            synced(*board),
            pieces == mask_of(*board, army, PieceKind::Queen),
            forall|to: u64|
                to < 64 ==> (sq_bit(m, to) <==> exists|f2: u64|
                    f2 < f && #[trigger] has_piece(*board, army, PieceKind::Queen, f2)
                        && queen_dest(*board, army, f2, to)),
        decreases 64 - f,
    {
        proof {
            crate::engine::bits::lemma_bit_is_01(pieces, f);
        }
        if (pieces >> f) & 1u64 == 1u64 {
            let d = queen_dests_from(board, army, f as Square);
            let ghost old_m = m;
            m = m | d;
            proof {
                assert forall|to: u64| to < 64 implies (sq_bit(m, to) <==> exists|f2: u64|
                    f2 < f + 1 && #[trigger] has_piece(*board, army, PieceKind::Queen, f2)
                        && queen_dest(*board, army, f2, to)) by {
                    if sq_bit(m, to) {
                        if sq_bit(d, to) {
                            assert(has_piece(*board, army, PieceKind::Queen, f) && queen_dest(
                                *board,
                                army,
                                f,
                                to,
                            ));
                        } else {
                            assert(sq_bit(old_m, to));
                        }
                    }
                    if exists|f2: u64|
                        f2 < f + 1 && #[trigger] has_piece(*board, army, PieceKind::Queen, f2)
                            && queen_dest(*board, army, f2, to) {
                        let f2 = choose|f2: u64|
                            f2 < f + 1 && #[trigger] has_piece(*board, army, PieceKind::Queen, f2)
                                && queen_dest(*board, army, f2, to);
                        if f2 == f {
                            assert(sq_bit(d, to));
                        } else {
                            assert(sq_bit(old_m, to));
                        }
                    }
                }
            }
        }
        f = f + 1;
    }
    m
}

/// Quiet moves and attack squares of every pawn of the army: pawns move
/// and capture on disjoint geometries, so the two masks come separately.
/// The attack mask holds the forward diagonals not blocked by the own
/// army; whether one is playable depends on an enemy standing there.
pub fn compute_pawns_moves(board: &Board, army: Army) -> (r: (u64, u64))
    requires
        synced(*board),
    ensures
        forall|to: u64|
            to < 64 ==> (sq_bit(r.0, to) <==> exists|f: u64|
                f < 64 && #[trigger] has_piece(*board, army, PieceKind::Pawn, f) && pawn_quiet_dest(
                    *board,
                    army,
                    f,
                    to,
                )),
        forall|to: u64|
            to < 64 ==> (sq_bit(r.1, to) <==> exists|f: u64|
                f < 64 && #[trigger] has_piece(*board, army, PieceKind::Pawn, f)
                    && pawn_attack_dest(*board, army, f, to)),
{
    let pieces = board.by_army_kind[army.index()][5];
    let occ = board.all_occupancy;
    let own = board.occupancy_by_army[army.index()];
    let (pdf, pdr) = pawn_delta(army);
    let mut moves: u64 = 0;
    let mut attacks: u64 = 0;
    let mut f: u64 = 0;
    while f < 64
        invariant
            f <= 64,
            synced(*board),
            pieces == mask_of(*board, army, PieceKind::Pawn),
            occ == total_occ(*board),
            own == army_occ(*board, army),
            pdf as int == pawn_df(army),
            pdr as int == pawn_dr(army),
            forall|to: u64|
                to < 64 ==> (sq_bit(moves, to) <==> exists|f2: u64|
                    f2 < f && #[trigger] has_piece(*board, army, PieceKind::Pawn, f2)
                        && pawn_quiet_dest(*board, army, f2, to)),
            forall|to: u64|
                to < 64 ==> (sq_bit(attacks, to) <==> exists|f2: u64|
                    f2 < f && #[trigger] has_piece(*board, army, PieceKind::Pawn, f2)
                        && pawn_attack_dest(*board, army, f2, to)),
        decreases 64 - f,
    {
        proof {
            crate::engine::bits::lemma_bit_is_01(pieces, f);
        }
        if (pieces >> f) & 1u64 == 1u64 {
            let ff = (f % 8) as i8;
            let fr = (f / 8) as i8;
            // quiet forward move, one square into an empty square
            let qf = ff + pdf;
            let qr = fr + pdr;
            let ghost old_moves = moves;
            if 0 <= qf && qf <= 7 && 0 <= qr && qr <= 7 {
                let qsq: u64 = (qr as u64) * 8 + (qf as u64);
                proof {
                    crate::engine::bits::lemma_bit_is_01(occ, qsq);
                }
                if (occ >> qsq) & 1u64 == 0u64 {
                    moves = moves | (1u64 << qsq);
                }
                proof {
                    assert(qsq == sq_at(qf as int, qr as int));
                    assert forall|t: u64| t < 64 implies (pawn_quiet_dest(*board, army, f, t) <==> (
                    t == qsq && !sq_bit(occ, qsq))) by {}
                }
            } else {
                proof {
                    assert forall|t: u64| t < 64 implies !pawn_quiet_dest(*board, army, f, t) by {}
                }
            }
            proof {
                assert forall|to: u64| to < 64 implies (sq_bit(moves, to) <==> exists|f2: u64|
                    f2 < f + 1 && #[trigger] has_piece(*board, army, PieceKind::Pawn, f2)
                        && pawn_quiet_dest(*board, army, f2, to)) by {
                    if sq_bit(moves, to) {
                        if !sq_bit(old_moves, to) {
                            assert(pawn_quiet_dest(*board, army, f, to));
                            assert(has_piece(*board, army, PieceKind::Pawn, f));
                        }
                    }
                    if exists|f2: u64|
                        f2 < f + 1 && #[trigger] has_piece(*board, army, PieceKind::Pawn, f2)
                            && pawn_quiet_dest(*board, army, f2, to) {
                        let f2 = choose|f2: u64|
                            f2 < f + 1 && #[trigger] has_piece(*board, army, PieceKind::Pawn, f2)
                                && pawn_quiet_dest(*board, army, f2, to);
                        if f2 == f {
                            assert(sq_bit(moves, to));
                        } else {
                            assert(sq_bit(old_moves, to));
                        }
                    }
                }
            }
            // the two forward-diagonal attack squares
            let (a1f, a1r, a2f, a2r) = if pdr != 0 {
                (ff - 1, fr + pdr, ff + 1, fr + pdr)
            } else {
                (ff + pdf, fr - 1, ff + pdf, fr + 1)
            };
            let ghost old_attacks = attacks;
            let mut asq1: u64 = 64;
            let mut asq2: u64 = 64;
            if 0 <= a1f && a1f <= 7 && 0 <= a1r && a1r <= 7 {
                let s: u64 = (a1r as u64) * 8 + (a1f as u64);
                proof {
                    crate::engine::bits::lemma_bit_is_01(own, s);
                    occ_facts(*board, army, s);
                }
                if (own >> s) & 1u64 == 0u64 {
                    attacks = attacks | (1u64 << s);
                    asq1 = s;
                }
            }
            if 0 <= a2f && a2f <= 7 && 0 <= a2r && a2r <= 7 {
                let s: u64 = (a2r as u64) * 8 + (a2f as u64);
                proof {
                    crate::engine::bits::lemma_bit_is_01(own, s);
                    occ_facts(*board, army, s);
                }
                if (own >> s) & 1u64 == 0u64 {
                    attacks = attacks | (1u64 << s);
                    asq2 = s;
                }
            }
            proof {
                assert forall|t: u64| t < 64 implies (pawn_attack_dest(*board, army, f, t) <==> (t
                    == asq1 || t == asq2)) by {
                    if pawn_attack_dest(*board, army, f, t) {
                        if pawn_dr(army) != 0 {
                            if file_of(t) == ff as int - 1 {
                                assert(t == sq_at(a1f as int, a1r as int));
                            } else {
                                assert(t == sq_at(a2f as int, a2r as int));
                            }
                        } else {
                            if rank_of(t) == fr as int - 1 {
                                assert(t == sq_at(a1f as int, a1r as int));
                            } else {
                                assert(t == sq_at(a2f as int, a2r as int));
                            }
                        }
                    }
                }
                assert forall|to: u64| to < 64 implies (sq_bit(attacks, to) <==> exists|f2: u64|
                    f2 < f + 1 && #[trigger] has_piece(*board, army, PieceKind::Pawn, f2)
                        && pawn_attack_dest(*board, army, f2, to)) by {
                    if sq_bit(attacks, to) {
                        if !sq_bit(old_attacks, to) {
                            assert(pawn_attack_dest(*board, army, f, to));
                            assert(has_piece(*board, army, PieceKind::Pawn, f));
                        }
                    }
                    if exists|f2: u64|
                        f2 < f + 1 && #[trigger] has_piece(*board, army, PieceKind::Pawn, f2)
                            && pawn_attack_dest(*board, army, f2, to) {
                        let f2 = choose|f2: u64|
                            f2 < f + 1 && #[trigger] has_piece(*board, army, PieceKind::Pawn, f2)
                                && pawn_attack_dest(*board, army, f2, to);
                        if f2 == f {
                            assert(sq_bit(attacks, to));
                        } else {
                            assert(sq_bit(old_attacks, to));
                        }
                    }
                }
            }
        }
        f = f + 1;
    }
    (moves, attacks)
}

/// A playable pawn destination: a quiet forward move, or a forward
/// diagonal holding another army's piece.
pub open spec fn pawn_move_dest(b: Board, army: Army, from: u64, to: u64) -> bool {
    pawn_quiet_dest(b, army, from, to) || (pawn_attack_dest(b, army, from, to) && other_army_at(
        b,
        army,
        to,
    ))
}

/// The pseudo-legal destination relation of one piece of the given kind.
pub open spec fn piece_dest(b: Board, army: Army, kind: PieceKind, from: u64, to: u64) -> bool {
    match kind {
        PieceKind::King => king_dest(b, army, from, to),
        PieceKind::Queen => queen_dest(b, army, from, to),
        PieceKind::Bishop => bishop_dest(b, army, from, to),
        PieceKind::Knight => knight_dest(b, army, from, to),
        PieceKind::Rook => rook_dest(b, army, from, to),
        PieceKind::Pawn => pawn_move_dest(b, army, from, to),
    }
}

/// Playable destinations of a pawn standing on `from`: the quiet forward
/// square when empty, and the forward diagonals holding another army's
/// piece.
#[verifier::rlimit(60)]
pub fn pawn_dests_from(b: &Board, army: Army, from: Square) -> (r: u64)
    requires
        from < 64,
        synced(*b),
    ensures
        forall|to: u64| to < 64 ==> (sq_bit(r, to) <==> pawn_move_dest(*b, army, from as u64, to)),
{
    let occ = b.all_occupancy;
    let own = b.occupancy_by_army[army.index()];
    let (pdf, pdr) = pawn_delta(army);
    let ff = (from % 8) as i8;
    let fr = (from / 8) as i8;
    let mut m: u64 = 0;
    let f = from as u64;
    let qf = ff + pdf;
    let qr = fr + pdr;
    if 0 <= qf && qf <= 7 && 0 <= qr && qr <= 7 {
        let qsq: u64 = (qr as u64) * 8 + (qf as u64);
        proof {
            crate::engine::bits::lemma_bit_is_01(occ, qsq);
        }
        if (occ >> qsq) & 1u64 == 0u64 {
            m = m | (1u64 << qsq);
        }
        proof {
            assert(qsq == sq_at(qf as int, qr as int));
            assert forall|t: u64|
                t < 64 implies (sq_bit(m, t) <==> pawn_quiet_dest(*b, army, f, t)) by {}
        }
    } else {
        proof {
            assert forall|t: u64| t < 64 implies !pawn_quiet_dest(*b, army, f, t) by {}
        }
    }
    let ghost m_quiet = m;
    let (a1f, a1r, a2f, a2r) = if pdr != 0 {
        (ff - 1, fr + pdr, ff + 1, fr + pdr)
    } else {
        (ff + pdf, fr - 1, ff + pdf, fr + 1)
    };
    let mut asq1: u64 = 64;
    let mut asq2: u64 = 64;
    if 0 <= a1f && a1f <= 7 && 0 <= a1r && a1r <= 7 {
        let s: u64 = (a1r as u64) * 8 + (a1f as u64);
        proof {
            crate::engine::bits::lemma_bit_is_01(own, s);
            crate::engine::bits::lemma_bit_is_01(occ, s);
            occ_facts(*b, army, s);
            crate::engine::board::lemma_total_occ_bit(*b, s);
        }
        if (own >> s) & 1u64 == 0u64 && (occ >> s) & 1u64 == 1u64 {
            m = m | (1u64 << s);
            asq1 = s;
            proof {
                assert(other_army_at(*b, army, s)) by {
                    let (a, k) = choose|a: Army, k: PieceKind| has_piece(*b, a, k, s);
                    assert(a != army) by {
                        if a == army {
                            assert(own_at(*b, army, s));
                        }
                    }
                }
            }
        }
    }
    if 0 <= a2f && a2f <= 7 && 0 <= a2r && a2r <= 7 {
        let s: u64 = (a2r as u64) * 8 + (a2f as u64);
        proof {
            crate::engine::bits::lemma_bit_is_01(own, s);
            crate::engine::bits::lemma_bit_is_01(occ, s);
            occ_facts(*b, army, s);
            crate::engine::board::lemma_total_occ_bit(*b, s);
        }
        if (own >> s) & 1u64 == 0u64 && (occ >> s) & 1u64 == 1u64 {
            m = m | (1u64 << s);
            asq2 = s;
            proof {
                assert(other_army_at(*b, army, s)) by {
                    let (a, k) = choose|a: Army, k: PieceKind| has_piece(*b, a, k, s);
                    assert(a != army) by {
                        if a == army {
                            assert(own_at(*b, army, s));
                        }
                    }
                }
            }
        }
    }
    proof {
        assert forall|t: u64| t < 64 implies (sq_bit(m, t) <==> pawn_move_dest(*b, army, f, t)) by {
            if sq_bit(m, t) && !sq_bit(m_quiet, t) {
                assert(t == asq1 || t == asq2);
            }
            if pawn_attack_dest(*b, army, f, t) && other_army_at(*b, army, t) {
                assert(sq_bit(total_occ(*b), t)) by {
                    let (a, k) = choose|a: Army, k: PieceKind| a != army && has_piece(*b, a, k, t);
                    crate::engine::board::lemma_total_occ_bit(*b, t);
                }
                assert(!sq_bit(army_occ(*b, army), t)) by {
                    occ_facts(*b, army, t);
                }
                if pawn_dr(army) != 0 {
                    if file_of(t) == ff as int - 1 {
                        assert(t == sq_at(a1f as int, a1r as int));
                        assert(t == asq1);
                    } else {
                        assert(t == sq_at(a2f as int, a2r as int));
                        assert(t == asq2);
                    }
                } else {
                    if rank_of(t) == fr as int - 1 {
                        assert(t == sq_at(a1f as int, a1r as int));
                        assert(t == asq1);
                    } else {
                        assert(t == sq_at(a2f as int, a2r as int));
                        assert(t == asq2);
                    }
                }
            }
        }
    }
    m
}

/// Pseudo-legal destinations of one piece of the given kind standing on
/// `from`.
pub fn piece_dests_from(b: &Board, army: Army, kind: PieceKind, from: Square) -> (r: u64)
    requires
        from < 64,
        inv(*b),
        synced(*b),
    ensures
        forall|to: u64|
            to < 64 ==> (sq_bit(r, to) <==> piece_dest(*b, army, kind, from as u64, to)),
{
    match kind {
        PieceKind::King => king_dests_from(b, army, from),
        PieceKind::Queen => queen_dests_from(b, army, from),
        PieceKind::Bishop => bishop_dests_from(b, army, from),
        PieceKind::Knight => knight_dests_from(b, army, from),
        PieceKind::Rook => rook_dests_from(b, army, from),
        PieceKind::Pawn => pawn_dests_from(b, army, from),
    }
}

/// A slider on `p` reaches `to` along direction `d`, blockers included:
/// the attack reading, with no ownership or capture rules.
pub open spec fn attack_reach(occ: u64, p: u64, d: int, to: u64) -> bool {
    to < 64 && slide_to(occ, file_of(p), rank_of(p), dir_df(d), dir_dr(d), file_of(to), rank_of(
        to,
    ))
}

/// The squares attacked by sliders on the `pieces` mask along the given
/// ray directions: every square up to and including the first occupied one.
pub fn get_sliding_attacks(pieces: u64, directions: &[usize], occupied: u64) -> (r: u64)
    requires
        forall|j: int| 0 <= j < directions@.len() ==> #[trigger] directions@[j] < 8,
    ensures
        forall|to: u64|
            to < 64 ==> (sq_bit(r, to) <==> exists|p: u64, j: int|
                p < 64 && 0 <= j < directions@.len() && #[trigger] sq_bit(pieces, p)
                    && attack_reach(occupied, p, #[trigger] (directions@[j] as int), to)),
{
    let mut m: u64 = 0;
    let mut p: u64 = 0;
    while p < 64
        invariant
            p <= 64,
            forall|j: int| 0 <= j < directions@.len() ==> #[trigger] directions@[j] < 8,
            forall|to: u64|
                to < 64 ==> (sq_bit(m, to) <==> exists|p2: u64, j: int|
                    p2 < p && 0 <= j < directions@.len() && #[trigger] sq_bit(pieces, p2)
                        && attack_reach(occupied, p2, #[trigger] (directions@[j] as int), to)),
        decreases 64 - p,
    {
        proof {
            crate::engine::bits::lemma_bit_is_01(pieces, p);
        }
        if (pieces >> p) & 1u64 == 1u64 {
            let ff = (p % 8) as i8;
            let fr = (p / 8) as i8;
            let n = directions.len();
            let mut ji: usize = 0;
            while ji < n
                invariant
                    ji <= n,
                    n == directions@.len(),
                    p < 64,
                    sq_bit(pieces, p),
                    ff as int == file_of(p),
                    fr as int == rank_of(p),
                    0 <= ff < 8,
                    0 <= fr < 8,
                    forall|j: int| 0 <= j < directions@.len() ==> #[trigger] directions@[j] < 8,
                    forall|to: u64|
                        to < 64 ==> (sq_bit(m, to) <==> (exists|p2: u64, j: int|
                            p2 < p && 0 <= j < directions@.len() && #[trigger] sq_bit(pieces, p2)
                                && attack_reach(occupied, p2, #[trigger] (directions@[j] as int), to))
                            || (exists|j: int|
                            0 <= j < ji as int && attack_reach(
                                occupied,
                                p,
                                #[trigger] (directions@[j] as int),
                                to,
                            ))),
                decreases n - ji,
            {
                let d = directions[ji];
                let (df, dr) = dir_delta(d);
                let mut cf: i8 = ff;
                let mut cr: i8 = fr;
                let mut going = true;
                while going
                    invariant
                        p < 64,
                        ji < n,
                        n == directions@.len(),
                        sq_bit(pieces, p),
                        forall|j: int| 0 <= j < directions@.len() ==> #[trigger] directions@[j] < 8,
                        d == directions@[ji as int],
                        d < 8,
                        df as int == dir_df(d as int),
                        dr as int == dir_dr(d as int),
                        !(df == 0 && dr == 0),
                        0 <= cf < 8,
                        0 <= cr < 8,
                        forall|to: u64|
                            to < 64 ==> ((sq_bit(m, to) || (going && to < 64 && slide_to(
                                occupied,
                                cf as int,
                                cr as int,
                                df as int,
                                dr as int,
                                file_of(to),
                                rank_of(to),
                            ))) <==> (exists|p2: u64, j: int|
                                p2 < p && 0 <= j < directions@.len() && #[trigger] sq_bit(
                                    pieces,
                                    p2,
                                ) && attack_reach(
                                    occupied,
                                    p2,
                                    #[trigger] (directions@[j] as int),
                                    to,
                                )) || (exists|j: int|
                                0 <= j < ji as int && attack_reach(
                                    occupied,
                                    p,
                                    #[trigger] (directions@[j] as int),
                                    to,
                                )) || attack_reach(occupied, p, d as int, to)),
                    decreases room(cf as int, cr as int, df as int, dr as int) + 1, (if going {
                        1int
                    } else {
                        0int
                    }),
                {
                    let nf = cf + df;
                    let nr = cr + dr;
                    if nf < 0 || nf > 7 || nr < 0 || nr > 7 {
                        going = false;
                    } else {
                        let nsq: u64 = (nr as u64) * 8 + (nf as u64);
                        proof {
                            assert(nsq == sq_at(nf as int, nr as int));
                            assert(file_of(nsq) == nf as int && rank_of(nsq) == nr as int);
                            crate::engine::bits::lemma_bit_is_01(occupied, nsq);
                        }
                        m = m | (1u64 << nsq);
                        if (occupied >> nsq) & 1u64 == 0u64 {
                            cf = nf;
                            cr = nr;
                            proof {
                                assert forall|t: u64| t < 64 implies (slide_to(
                                    occupied,
                                    cf as int - df as int,
                                    cr as int - dr as int,
                                    df as int,
                                    dr as int,
                                    file_of(t),
                                    rank_of(t),
                                ) <==> (t == nsq || slide_to(
                                    occupied,
                                    cf as int,
                                    cr as int,
                                    df as int,
                                    dr as int,
                                    file_of(t),
                                    rank_of(t),
                                ))) by {
                                    if file_of(t) == nf as int && rank_of(t) == nr as int {
                                        assert(t == nsq);
                                    }
                                }
                            }
                        } else {
                            going = false;
                            proof {
                                assert forall|t: u64| t < 64 implies (slide_to(
                                    occupied,
                                    cf as int,
                                    cr as int,
                                    df as int,
                                    dr as int,
                                    file_of(t),
                                    rank_of(t),
                                ) <==> t == nsq) by {
                                    if file_of(t) == nf as int && rank_of(t) == nr as int {
                                        assert(t == nsq);
                                    }
                                }
                            }
                        }
                    }
                }
                ji = ji + 1;
                proof {
                    assert forall|to: u64| to < 64 implies (sq_bit(m, to) <==> (exists|
                        p2: u64,
                        j: int,
                    |
                        p2 < p && 0 <= j < directions@.len() && #[trigger] sq_bit(pieces, p2)
                            && attack_reach(occupied, p2, #[trigger] (directions@[j] as int), to))
                        || (exists|j: int|
                        0 <= j < ji as int && attack_reach(
                            occupied,
                            p,
                            #[trigger] (directions@[j] as int),
                            to,
                        ))) by {
                        if sq_bit(m, to) {
                            if attack_reach(occupied, p, directions@[ji as int - 1] as int, to) {
                                assert(0 <= ji as int - 1 < ji as int && attack_reach(
                                    occupied,
                                    p,
                                    directions@[ji as int - 1] as int,
                                    to,
                                ));
                            }
                        }
                        if exists|j: int|
                            0 <= j < ji as int && attack_reach(
                                occupied,
                                p,
                                #[trigger] (directions@[j] as int),
                                to,
                            ) {
                            let j = choose|j: int|
                                0 <= j < ji as int && attack_reach(
                                    occupied,
                                    p,
                                    #[trigger] (directions@[j] as int),
                                    to,
                                );
                            if j < ji as int - 1 {
                            } else {
                                assert(attack_reach(
                                    occupied,
                                    p,
                                    directions@[ji as int - 1] as int,
                                    to,
                                ));
                            }
                        }
                    }
                }
            }
        }
        p = p + 1;
        proof {
            assert forall|to: u64| to < 64 implies (sq_bit(m, to) <==> exists|p2: u64, j: int|
                p2 < p && 0 <= j < directions@.len() && #[trigger] sq_bit(pieces, p2)
                    && attack_reach(occupied, p2, #[trigger] (directions@[j] as int), to)) by {
            }
        }
    }
    m
}

/// Finds the first blocker along a ray. For increasing directions (up,
/// up-right, right, up-left in travel order) the first blocker is the
/// lowest set bit of `ray & occupied`; for the others the highest. Returns
/// the blocker's one-bit mask and the mask of ray squares cut off at the
/// blocker (the blocker's own square included); `(0, 0)` when nothing on
/// the ray is occupied.
pub fn find_blocker_mask(ray: u64, occupied: u64, direction: usize) -> (r: (u64, u64))
    requires
        direction < 8,
        !(direction == UP || direction == UP_RIGHT || direction == RIGHT || direction == UP_LEFT)
            ==> (ray & occupied) < 0x8000_0000_0000_0000u64,
    ensures
        ray & occupied == 0 ==> r == (0u64, 0u64),
        ray & occupied != 0 && (direction == UP || direction == UP_RIGHT || direction == RIGHT
            || direction == UP_LEFT) ==> {
            let idx = vstd::std_specs::bits::u64_trailing_zeros(ray & occupied) as u64;
            r.0 == 1u64 << idx && (forall|j: u64|
                j < 64 ==> (sq_bit(r.1, j) <==> (sq_bit(ray, j) && j >= idx)))
        },
        ray & occupied != 0 && !(direction == UP || direction == UP_RIGHT || direction == RIGHT
            || direction == UP_LEFT) ==> {
            let idx = (63 - vstd::std_specs::bits::u64_leading_zeros(ray & occupied)) as u64;
            r.0 == 1u64 << idx && (forall|j: u64|
                j < 64 ==> (sq_bit(r.1, j) <==> (sq_bit(ray, j) && j <= idx)))
        },
{
    let blockers = ray & occupied;
    if blockers == 0 {
        (0, 0)
    } else if direction == UP || direction == UP_RIGHT || direction == RIGHT || direction
        == UP_LEFT {
        proof {
            vstd::std_specs::bits::axiom_u64_trailing_zeros(blockers);
        }
        let blocker_idx = blockers.trailing_zeros() as u64;
        let available_moves = ray & !(u64::MAX << blocker_idx);
        let blocker_pos = 1u64 << blocker_idx;
        proof {
            assert forall|j: u64| j < 64 implies (sq_bit(ray ^ available_moves, j) <==> (sq_bit(
                ray,
                j,
            ) && j >= blocker_idx)) by {}
        }
        (blocker_pos, ray ^ available_moves)
    } else {
        proof {
            vstd::std_specs::bits::axiom_u64_leading_zeros(blockers);
            let lz = vstd::std_specs::bits::u64_leading_zeros(blockers);
            assert(blockers >> 63u64 == 0 ==> !sq_bit(blockers, 63)) by (bit_vector);
            assert(sq_bit(blockers, 63) ==> blockers >= 0x8000_0000_0000_0000u64) by (bit_vector);
            assert(lz >= 1) by {
                if lz == 0 {
                    assert((blockers >> 63u64) & 1u64 != 0u64);
                    assert((blockers >> 63u64) & 1u64 != 0u64 ==> blockers
                        >= 0x8000_0000_0000_0000u64) by (bit_vector);
                }
            }
        }
        let blocker_idx = 63 - blockers.leading_zeros() as u64;
        let available_moves = ray & (u64::MAX << (blocker_idx + 1));
        let blocker_pos = 1u64 << blocker_idx;
        proof {
            assert forall|j: u64| j < 64 implies (sq_bit(ray ^ available_moves, j) <==> (sq_bit(
                ray,
                j,
            ) && j <= blocker_idx)) by {}
        }
        (blocker_pos, ray ^ available_moves)
    }
}

} // verus!
