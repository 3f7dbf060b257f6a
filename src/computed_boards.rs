use vstd::prelude::*;
use crate::bitboard::{Bitboard, bit_at, popcount, single, lemma_bit_or};
use crate::magic_tables::{MagicEntry, rook_magic_number, bishop_magic_number, is_subset_of, next_subset, lemma_next_subset, lemma_subset_le};
use crate::position::Position;
use crate::zobrist::ZobristTable;

verus! {

/// The four ray directions of the rook, as (file, rank) steps.
pub open spec fn rook_dirs() -> Seq<(i8, i8)> {
    seq![(1i8, 0i8), (-1i8, 0i8), (0i8, 1i8), (0i8, -1i8)]
}

/// The four ray directions of the bishop.
pub open spec fn bishop_dirs() -> Seq<(i8, i8)> {
    seq![(1i8, 1i8), (1i8, -1i8), (-1i8, 1i8), (-1i8, -1i8)]
}

/// The four ray directions of the rook, as (file, rank) steps.
pub fn rook_deltas() -> (r: [(i8, i8); 4])
    ensures
        r@ == rook_dirs(),
{
    let r = [(1i8, 0i8), (-1i8, 0i8), (0i8, 1i8), (0i8, -1i8)];
    assert(r@ =~= seq![(1i8, 0i8), (-1i8, 0i8), (0i8, 1i8), (0i8, -1i8)]);
    r
}

/// The four ray directions of the bishop.
pub fn bishop_deltas() -> (r: [(i8, i8); 4])
    ensures
        r@ == bishop_dirs(),
{
    let r = [(1i8, 1i8), (1i8, -1i8), (-1i8, 1i8), (-1i8, -1i8)];
    assert(r@ =~= seq![(1i8, 1i8), (1i8, -1i8), (-1i8, 1i8), (-1i8, -1i8)]);
    r
}

/// The cell one step of (`df`, `dr`) from `c`, if it is on the board.
pub open spec fn step_cell(c: int, df: int, dr: int) -> Option<int> {
    let f = c % 8 + df;
    let k = c / 8 + dr;
    if 0 <= f < 8 && 0 <= k < 8 {
        Some(k * 8 + f)
    } else {
        None
    }
}

/// The cell `n` steps of (`df`, `dr`) from `sq`, if every step stays on the board.
pub open spec fn ray_cell(sq: int, df: int, dr: int, n: nat) -> Option<int>
    decreases n,
{
    if n == 0 {
        Some(sq)
    } else {
        match ray_cell(sq, df, dr, (n - 1) as nat) {
            Some(c) => step_cell(c, df, dr),
            None => None,
        }
    }
}

/// Whether the first `n` cells of the ray (the start cell included) are free of `blockers`.
pub open spec fn ray_clear(sq: int, df: int, dr: int, blockers: u64, n: nat) -> bool {
    forall|m: nat|
        m < n ==> match #[trigger] ray_cell(sq, df, dr, m) {
            Some(c) => !bit_at(blockers, c),
            None => true,
        }
}

/// Cells a slider on `sq` reaches along (`df`, `dr`) with `blockers` on the
/// board: each cell of the ray up to and including the first blocker.
pub open spec fn ray_attack(sq: int, df: int, dr: int, blockers: u64, t: int) -> bool {
    exists|n: nat|
        1 <= n <= 7 && #[trigger] ray_cell(sq, df, dr, n) == Some(t) && ray_clear(
            sq,
            df,
            dr,
            blockers,
            n,
        )
}

/// Cells a slider on `sq` reaches along any of the four directions `deltas`.
pub open spec fn slide_attack(sq: int, deltas: Seq<(i8, i8)>, blockers: u64, t: int) -> bool {
    exists|d: int|
        0 <= d < 4 && #[trigger] ray_attack(sq, deltas[d].0 as int, deltas[d].1 as int, blockers, t)
}

/// Once a ray has left the board it stays off.
proof fn lemma_ray_off(sq: int, df: int, dr: int, n: nat, k: nat)
    requires
        ray_cell(sq, df, dr, n) is None,
        n <= k,
    ensures
        ray_cell(sq, df, dr, k) is None,
    decreases k - n,
{
    if n < k {
        lemma_ray_off(sq, df, dr, n, (k - 1) as nat);
    }
}

/// The cells one ray of a slider reaches (see `ray_attack`).
fn ray_moves(df: i8, dr: i8, pos: Position, blockers: Bitboard) -> (r: u64)
    requires
        -1 <= df <= 1,
        -1 <= dr <= 1,
    ensures
        forall|t: int| 0 <= t < 64 ==> #[trigger] bit_at(r, t) == ray_attack(
            pos.idx(),
            df as int,
            dr as int,
            blockers.0,
            t,
        ),
{
    broadcast use crate::bitboard::group_bits;

    let ghost sq = pos.idx();
    let mut moves: u64 = 0;
    let mut ray = pos;
    let mut step: usize = 0;
    let mut blocked = false;
    let mut off = false;
    proof {
        assert forall|t: int| 0 <= t < 64 implies !#[trigger] bit_at(moves, t) by {
            crate::bitboard::lemma_bit_zero(t);
        }
    }
    while step < 7
        invariant
            step <= 7,
            ray_cell(sq, df as int, dr as int, step as nat) == Some(ray.idx()),
            ray_clear(sq, df as int, dr as int, blockers.0, step as nat),
            blocked ==> bit_at(blockers.0, ray.idx()),
            off ==> ray_cell(sq, df as int, dr as int, (step + 1) as nat) is None,
            forall|t: int|
                0 <= t < 64 ==> #[trigger] bit_at(moves, t) == exists|k: nat|
                    1 <= k <= step && #[trigger] ray_cell(sq, df as int, dr as int, k) == Some(t),
        ensures
            step >= 7 || blocked || off,
        decreases 7 - step + (if blocked || off { 0int } else { 1int }),
    {
        if blocked || off {
            break;
        }
        if blockers.is_square_set(ray.as_usize()) {
            blocked = true;
        } else {
            let ghost f = ray.idx() % 8 + df;
            let ghost k = ray.idx() / 8 + dr;
            proof {
                if 0 <= f < 8 && 0 <= k < 8 {
                    Position::lemma_spec_at(k * 8 + f);
                }
                assert(ray_cell(sq, df as int, dr as int, (step + 1) as nat) == step_cell(
                    ray.idx(),
                    df as int,
                    dr as int,
                ));
            }
            match ray.try_rank_file_offset(df, dr) {
                Some(shifted) => {
                    let ghost old_moves = moves;
                    let b = shifted.bitboard();
                    moves = moves | b.0;
                    ray = shifted;
                    proof {
                        assert(ray_cell(sq, df as int, dr as int, (step + 1) as nat) == Some(ray.idx()));
                        assert forall|t: int| 0 <= t < 64 implies #[trigger] bit_at(moves, t) == exists|
                            k: nat,
                        |
                            1 <= k <= step + 1 && #[trigger] ray_cell(sq, df as int, dr as int, k)
                                == Some(t) by {
                            crate::bitboard::lemma_bit_or(old_moves, b.0, t);
                            crate::bitboard::lemma_bit_single(ray.idx(), t);
                            if exists|k: nat|
                                1 <= k <= step + 1 && #[trigger] ray_cell(sq, df as int, dr as int, k)
                                    == Some(t) {
                                let k = choose|k: nat|
                                    1 <= k <= step + 1 && #[trigger] ray_cell(
                                        sq,
                                        df as int,
                                        dr as int,
                                        k,
                                    ) == Some(t);
                                if k <= step {
                                    assert(bit_at(old_moves, t));
                                }
                            }
                            if t == ray.idx() {
                                assert(ray_cell(sq, df as int, dr as int, (step + 1) as nat) == Some(t));
                            }
                        }
                        assert forall|m: nat| m < step + 1 implies match #[trigger] ray_cell(
                            sq,
                            df as int,
                            dr as int,
                            m,
                        ) {
                            Some(c) => !bit_at(blockers.0, c),
                            None => true,
                        } by {
                            if m < step {
                                assert(ray_clear(sq, df as int, dr as int, blockers.0, step as nat));
                            }
                        }
                    }
                    step += 1;
                },
                None => {
                    off = true;
                },
            }
        }
    }
    proof {
        assert forall|t: int| 0 <= t < 64 implies #[trigger] bit_at(moves, t) == ray_attack(
            sq,
            df as int,
            dr as int,
            blockers.0,
            t,
        ) by {
            if bit_at(moves, t) {
                let k = choose|k: nat|
                    1 <= k <= step && #[trigger] ray_cell(sq, df as int, dr as int, k) == Some(t);
                assert forall|m: nat| m < k implies match #[trigger] ray_cell(
                    sq,
                    df as int,
                    dr as int,
                    m,
                ) {
                    Some(c) => !bit_at(blockers.0, c),
                    None => true,
                } by {
                    assert(ray_clear(sq, df as int, dr as int, blockers.0, step as nat));
                }
                assert(ray_clear(sq, df as int, dr as int, blockers.0, k));
                assert(1 <= k <= 7 && ray_cell(sq, df as int, dr as int, k) == Some(t));
            }
            if ray_attack(sq, df as int, dr as int, blockers.0, t) {
                let n = choose|n: nat|
                    1 <= n <= 7 && #[trigger] ray_cell(sq, df as int, dr as int, n) == Some(t)
                        && ray_clear(sq, df as int, dr as int, blockers.0, n);
                if n > step {
                    if blocked {
                        assert(ray_cell(sq, df as int, dr as int, step as nat) == Some(ray.idx()));
                        assert(match ray_cell(sq, df as int, dr as int, step as nat) {
                            Some(c) => !bit_at(blockers.0, c),
                            None => true,
                        });
                        assert(false);
                    } else if off {
                        lemma_ray_off(sq, df as int, dr as int, (step + 1) as nat, n);
                        assert(false);
                    }
                }
                assert(1 <= n <= step && ray_cell(sq, df as int, dr as int, n) == Some(t));
            }
        }
    }
    moves
}

/// Ray cast along the four directions `deltas`, stopping at (and including)
/// the first cell of `blockers` on each ray.
pub fn get_sliding_moves(deltas: &[(i8, i8); 4], pos: Position, blockers: Bitboard) -> (r:
    Bitboard)
    requires
        forall|d: int| 0 <= d < 4 ==> -1 <= #[trigger] deltas@[d].0 <= 1 && -1 <= deltas@[d].1 <= 1,
    ensures
        forall|t: int| 0 <= t < 64 ==> #[trigger] r.has(t) == slide_attack(pos.idx(), deltas@, blockers.0, t),
{
    let mut moves: u64 = 0;
    let mut d: usize = 0;
    proof {
        assert forall|t: int| 0 <= t < 64 implies !#[trigger] bit_at(moves, t) by {
            crate::bitboard::lemma_bit_zero(t);
        }
    }
    while d < 4
        invariant
            d <= 4,
            forall|d: int| 0 <= d < 4 ==> -1 <= #[trigger] deltas@[d].0 <= 1 && -1 <= deltas@[d].1 <= 1,
            forall|t: int|
                0 <= t < 64 ==> #[trigger] bit_at(moves, t) == exists|e: int|
                    0 <= e < d && #[trigger] ray_attack(
                        pos.idx(),
                        deltas@[e].0 as int,
                        deltas@[e].1 as int,
                        blockers.0,
                        t,
                    ),
        decreases 4 - d,
    {
        let (df, dr) = deltas[d];
        let ghost old_moves = moves;
        let ray = ray_moves(df, dr, pos, blockers);
        moves = moves | ray;
        proof {
            assert forall|t: int| 0 <= t < 64 implies #[trigger] bit_at(moves, t) == exists|e: int|
                0 <= e < d + 1 && #[trigger] ray_attack(
                    pos.idx(),
                    deltas@[e].0 as int,
                    deltas@[e].1 as int,
                    blockers.0,
                    t,
                ) by {
                crate::bitboard::lemma_bit_or(old_moves, ray, t);
                if exists|e: int|
                    0 <= e < d + 1 && #[trigger] ray_attack(
                        pos.idx(),
                        deltas@[e].0 as int,
                        deltas@[e].1 as int,
                        blockers.0,
                        t,
                    ) {
                    let e = choose|e: int|
                        0 <= e < d + 1 && #[trigger] ray_attack(
                            pos.idx(),
                            deltas@[e].0 as int,
                            deltas@[e].1 as int,
                            blockers.0,
                            t,
                        );
                    if e < d {
                        assert(bit_at(old_moves, t));
                    }
                }
                if bit_at(ray, t) {
                    assert(ray_attack(
                        pos.idx(),
                        deltas@[d as int].0 as int,
                        deltas@[d as int].1 as int,
                        blockers.0,
                        t,
                    ));
                }
            }
        }
        d += 1;
    }
    Bitboard(moves)
}

/// Whether `t` lies on the ray (`df`, `dr`) from `sq` with a further ray
/// cell beyond it: the ray's cells short of the board edge.
pub open spec fn inner_ray_cell(sq: int, df: int, dr: int, t: int) -> bool {
    exists|k: nat|
        k <= 7 && #[trigger] ray_cell(sq, df, dr, k) == Some(t) && ray_cell(sq, df, dr, k + 1) is Some
}

/// Relevant-blocker cells of a slider on `sq`: the cells strictly between it
/// and the board edge along the four directions `deltas`.
pub open spec fn blocker_cell(sq: int, deltas: Seq<(i8, i8)>, t: int) -> bool {
    t != sq && exists|d: int|
        0 <= d < 4 && #[trigger] inner_ray_cell(sq, deltas[d].0 as int, deltas[d].1 as int, t)
}

/// The cells of one ray short of the edge, start cell included.
fn inner_ray(df: i8, dr: i8, pos: Position) -> (r: u64)
    requires
        -1 <= df <= 1,
        -1 <= dr <= 1,
    ensures
        forall|t: int| 0 <= t < 64 ==> #[trigger] bit_at(r, t) == inner_ray_cell(
            pos.idx(),
            df as int,
            dr as int,
            t,
        ),
{
    let ghost sq = pos.idx();
    let mut moves: u64 = 0;
    let mut ray = pos;
    let mut step: usize = 0;
    let mut off = false;
    proof {
        assert forall|t: int| 0 <= t < 64 implies !#[trigger] bit_at(moves, t) by {
            crate::bitboard::lemma_bit_zero(t);
        }
    }
    while step < 8
        invariant
            step <= 8,
            ray_cell(sq, df as int, dr as int, step as nat) == Some(ray.idx()),
            off ==> ray_cell(sq, df as int, dr as int, (step + 1) as nat) is None,
            forall|t: int|
                0 <= t < 64 ==> #[trigger] bit_at(moves, t) == exists|k: nat|
                    k < step && #[trigger] ray_cell(sq, df as int, dr as int, k) == Some(t),
        ensures
            step >= 8 || off,
        decreases 8 - step + (if off { 0int } else { 1int }),
    {
        if off {
            break;
        }
        let ghost f = ray.idx() % 8 + df;
        let ghost k = ray.idx() / 8 + dr;
        proof {
            if 0 <= f < 8 && 0 <= k < 8 {
                Position::lemma_spec_at(k * 8 + f);
            }
            assert(ray_cell(sq, df as int, dr as int, (step + 1) as nat) == step_cell(
                ray.idx(),
                df as int,
                dr as int,
            ));
        }
        match ray.try_rank_file_offset(df, dr) {
            Some(shifted) => {
                let ghost old_moves = moves;
                let cur_u = ray.as_usize();
                let ghost cur = cur_u as int;
                let b = ray.bitboard();
                moves = moves | b.0;
                ray = shifted;
                proof {
                    assert forall|t: int| 0 <= t < 64 implies #[trigger] bit_at(moves, t) == exists|
                        k: nat,
                    | k < step + 1 && #[trigger] ray_cell(sq, df as int, dr as int, k) == Some(t) by {
                        crate::bitboard::lemma_bit_or(old_moves, b.0, t);
                        crate::bitboard::lemma_bit_single(cur, t);
                        if exists|k: nat|
                            k < step + 1 && #[trigger] ray_cell(sq, df as int, dr as int, k) == Some(t) {
                            let k = choose|k: nat|
                                k < step + 1 && #[trigger] ray_cell(sq, df as int, dr as int, k)
                                    == Some(t);
                            if k < step {
                                assert(bit_at(old_moves, t));
                            }
                        }
                        if t == cur {
                            assert(ray_cell(sq, df as int, dr as int, step as nat) == Some(t));
                        }
                    }
                }
                step += 1;
            },
            None => {
                off = true;
            },
        }
    }
    proof {
        assert forall|t: int| 0 <= t < 64 implies #[trigger] bit_at(moves, t) == inner_ray_cell(
            sq,
            df as int,
            dr as int,
            t,
        ) by {
            if bit_at(moves, t) {
                let k = choose|k: nat| k < step && #[trigger] ray_cell(sq, df as int, dr as int, k) == Some(t);
                if ray_cell(sq, df as int, dr as int, k + 1) is None {
                    lemma_ray_off(sq, df as int, dr as int, k + 1, step as nat);
                }
                assert(k <= 7 && ray_cell(sq, df as int, dr as int, k) == Some(t));
            }
            if inner_ray_cell(sq, df as int, dr as int, t) {
                let k = choose|k: nat|
                    k <= 7 && #[trigger] ray_cell(sq, df as int, dr as int, k) == Some(t)
                        && ray_cell(sq, df as int, dr as int, k + 1) is Some;
                if k >= step {
                    lemma_ray_off(sq, df as int, dr as int, (step + 1) as nat, k + 1);
                    assert(false);
                }
                assert(k < step && ray_cell(sq, df as int, dr as int, k) == Some(t));
            }
        }
    }
    moves
}

/// Relevant-blocker masks of a slider: for each cell, the cells strictly
/// between it and the edge along each of the four rays.
pub fn generate_slide_piece_blockers(deltas: &[(i8, i8); 4]) -> (r: Vec<Bitboard>)
    requires
        forall|d: int| 0 <= d < 4 ==> -1 <= #[trigger] deltas@[d].0 <= 1 && -1 <= deltas@[d].1 <= 1,
    ensures
        r.len() == 64,
        forall|sq: int, t: int|
            0 <= sq < 64 && 0 <= t < 64 ==> #[trigger] r[sq].has(t) == blocker_cell(sq, deltas@, t),
{
    let mut result: Vec<Bitboard> = Vec::new();
    let mut square: usize = 0;
    while square < 64
        invariant
            square <= 64,
            result.len() == square,
            forall|d: int| 0 <= d < 4 ==> -1 <= #[trigger] deltas@[d].0 <= 1 && -1 <= deltas@[d].1 <= 1,
            forall|sq: int, t: int|
                0 <= sq < square && 0 <= t < 64 ==> #[trigger] result[sq].has(t) == blocker_cell(
                    sq,
                    deltas@,
                    t,
                ),
        decreases 64 - square,
    {
        let pos = Position::new(square);
        let mut moves: u64 = 0;
        let mut d: usize = 0;
        proof {
            assert forall|t: int| 0 <= t < 64 implies !#[trigger] bit_at(moves, t) by {
                crate::bitboard::lemma_bit_zero(t);
            }
        }
        while d < 4
            invariant
                d <= 4,
                square < 64,
                pos.idx() == square,
                forall|d: int| 0 <= d < 4 ==> -1 <= #[trigger] deltas@[d].0 <= 1 && -1 <= deltas@[d].1 <= 1,
                forall|t: int|
                    0 <= t < 64 ==> #[trigger] bit_at(moves, t) == exists|e: int|
                        0 <= e < d && #[trigger] inner_ray_cell(
                            square as int,
                            deltas@[e].0 as int,
                            deltas@[e].1 as int,
                            t,
                        ),
            decreases 4 - d,
        {
            let (df, dr) = deltas[d];
            let ghost old_moves = moves;
            let ray = inner_ray(df, dr, pos);
            moves = moves | ray;
            proof {
                assert forall|t: int| 0 <= t < 64 implies #[trigger] bit_at(moves, t) == exists|e: int|
                    0 <= e < d + 1 && #[trigger] inner_ray_cell(
                        square as int,
                        deltas@[e].0 as int,
                        deltas@[e].1 as int,
                        t,
                    ) by {
                    crate::bitboard::lemma_bit_or(old_moves, ray, t);
                    if exists|e: int|
                        0 <= e < d + 1 && #[trigger] inner_ray_cell(
                            square as int,
                            deltas@[e].0 as int,
                            deltas@[e].1 as int,
                            t,
                        ) {
                        let e = choose|e: int|
                            0 <= e < d + 1 && #[trigger] inner_ray_cell(
                                square as int,
                                deltas@[e].0 as int,
                                deltas@[e].1 as int,
                                t,
                            );
                        if e < d {
                            assert(bit_at(old_moves, t));
                        }
                    }
                    if bit_at(ray, t) {
                        assert(inner_ray_cell(
                            square as int,
                            deltas@[d as int].0 as int,
                            deltas@[d as int].1 as int,
                            t,
                        ));
                    }
                }
            }
            d += 1;
        }
        let p = pos.bitboard();
        let mask = Bitboard(moves & !p.0);
        proof {
            assert forall|t: int| 0 <= t < 64 implies #[trigger] mask.has(t) == blocker_cell(
                square as int,
                deltas@,
                t,
            ) by {
                crate::bitboard::lemma_bit_and(moves, !p.0, t);
                crate::bitboard::lemma_bit_not(p.0, t);
                crate::bitboard::lemma_bit_single(square as int, t);
            }
        }
        result.push(mask);
        square += 1;
    }
    result
}

/// Whether `t` is the cell (`df`, `dr`) away from `sq`, on the board.
pub open spec fn lands(sq: int, df: int, dr: int, t: int) -> bool {
    let f = sq % 8 + df;
    let k = sq / 8 + dr;
    0 <= f < 8 && 0 <= k < 8 && t == k * 8 + f
}

/// The eight knight offsets (file, rank).
pub open spec fn knight_delta(j: int) -> (int, int) {
    seq![(2int, 1int), (1, 2), (-1, 2), (-2, 1), (-2, -1), (-1, -2), (1, -2), (2, -1)][j]
}

/// Whether `t` is one knight jump from `sq`.
pub open spec fn knight_jump(sq: int, t: int) -> bool {
    exists|j: int| 0 <= j < 8 && #[trigger] lands(sq, knight_delta(j).0, knight_delta(j).1, t)
}

/// The eight king offsets (file, rank).
pub open spec fn king_delta(j: int) -> (int, int) {
    seq![(-1int, -1int), (-1, 0), (-1, 1), (0, -1), (0, 1), (1, -1), (1, 0), (1, 1)][j]
}

/// Whether `t` is one king step from `sq`.
pub open spec fn king_step(sq: int, t: int) -> bool {
    exists|j: int| 0 <= j < 8 && #[trigger] lands(sq, king_delta(j).0, king_delta(j).1, t)
}

/// King offsets when `king`, knight offsets otherwise.
pub open spec fn jump_delta(king: bool, j: int) -> (int, int) {
    if king {
        king_delta(j)
    } else {
        knight_delta(j)
    }
}

fn king_offset(i: usize) -> (r: (i8, i8))
    requires
        i < 8,
    ensures
        r.0 as int == king_delta(i as int).0,
        r.1 as int == king_delta(i as int).1,
{
    match i {
        0 => (-1, -1),
        1 => (-1, 0),
        2 => (-1, 1),
        3 => (0, -1),
        4 => (0, 1),
        5 => (1, -1),
        6 => (1, 0),
        _ => (1, 1),
    }
}

fn knight_offset(i: usize) -> (r: (i8, i8))
    requires
        i < 8,
    ensures
        r.0 as int == knight_delta(i as int).0,
        r.1 as int == knight_delta(i as int).1,
{
    match i {
        0 => (2, 1),
        1 => (1, 2),
        2 => (-1, 2),
        3 => (-2, 1),
        4 => (-2, -1),
        5 => (-1, -2),
        6 => (1, -2),
        _ => (2, -1),
    }
}

/// For each cell, the set of cells reached by one of eight offsets that stay
/// on the board: king offsets when `king`, knight offsets otherwise.
fn jump_table(king: bool) -> (r: Vec<Bitboard>)
    ensures
        r.len() == 64,
        forall|sq: int, t: int|
            0 <= sq < 64 && 0 <= t < 64 ==> #[trigger] r[sq].has(t) == if king {
                king_step(sq, t)
            } else {
                knight_jump(sq, t)
            },
{
    broadcast use crate::bitboard::group_bits;

    let mut result: Vec<Bitboard> = Vec::new();
    let mut square: usize = 0;
    while square < 64
        invariant
            square <= 64,
            result.len() == square,
            forall|sq: int, t: int|
                0 <= sq < square && 0 <= t < 64 ==> #[trigger] result[sq].has(t) == if king {
                    king_step(sq, t)
                } else {
                    knight_jump(sq, t)
                },
        decreases 64 - square,
    {
        let mut moves = Bitboard(0);
        proof {
            assert forall|t: int| 0 <= t < 64 implies !#[trigger] moves.has(t) by {
                crate::bitboard::lemma_bit_zero(t);
            }
        }
        let mut i: usize = 0;
        while i < 8
            invariant
                i <= 8,
                square < 64,
                forall|t: int|
                    0 <= t < 64 ==> #[trigger] moves.has(t) == exists|j: int|
                        0 <= j < i && #[trigger] lands(
                            square as int,
                            jump_delta(king, j).0,
                            jump_delta(king, j).1,
                            t,
                        ),
            decreases 8 - i,
        {
            let ghost old_moves = moves;
            let (d_f, d_r) = if king { king_offset(i) } else { knight_offset(i) };
            let ghost df = jump_delta(king, i as int).0;
            let ghost dr = jump_delta(king, i as int).1;
            let tf = (square % 8) as i16 + d_f as i16;
            let tr = (square / 8) as i16 + d_r as i16;
            let in_range = tf >= 0 && tf < 8 && tr >= 0 && tr < 8;
            let ghost idx = tr * 8 + tf;
            if in_range {
                moves.set_square(Position::from_file_and_rank(tf as usize, tr as usize).as_usize());
            }
            proof {
                assert forall|t: int| 0 <= t < 64 implies #[trigger] moves.has(t) == (old_moves.has(t)
                    || (in_range && t == idx)) by {
                    if in_range {
                        crate::bitboard::lemma_bit_or(old_moves.0, single(idx), t);
                        crate::bitboard::lemma_bit_single(idx, t);
                    }
                }
                assert forall|t: int| 0 <= t < 64 implies lands(square as int, df, dr, t) == (in_range
                    && t == idx) by {}
                assert forall|t: int| 0 <= t < 64 implies #[trigger] moves.has(t) == exists|j: int|
                    0 <= j < i + 1 && #[trigger] lands(
                        square as int,
                        jump_delta(king, j).0,
                        jump_delta(king, j).1,
                        t,
                    ) by {
                    if lands(square as int, df, dr, t) {
                        assert(moves.has(t));
                    }
                    if moves.has(t) && !old_moves.has(t) {
                        assert(lands(square as int, df, dr, t));
                    }
                    if exists|j: int|
                        0 <= j < i + 1 && #[trigger] lands(
                            square as int,
                            jump_delta(king, j).0,
                            jump_delta(king, j).1,
                            t,
                        ) {
                        let j = choose|j: int|
                            0 <= j < i + 1 && #[trigger] lands(
                                square as int,
                                jump_delta(king, j).0,
                                jump_delta(king, j).1,
                                t,
                            );
                        if j < i {
                            assert(old_moves.has(t));
                        }
                    }
                }
            }
            i += 1;
        }
        proof {
            assert forall|t: int| 0 <= t < 64 implies #[trigger] moves.has(t) == if king {
                king_step(square as int, t)
            } else {
                knight_jump(square as int, t)
            } by {
                if king {
                    if king_step(square as int, t) {
                        let j = choose|j: int|
                            0 <= j < 8 && #[trigger] lands(
                                square as int,
                                king_delta(j).0,
                                king_delta(j).1,
                                t,
                            );
                        assert(lands(
                            square as int,
                            jump_delta(king, j).0,
                            jump_delta(king, j).1,
                            t,
                        ));
                    }
                } else {
                    if knight_jump(square as int, t) {
                        let j = choose|j: int|
                            0 <= j < 8 && #[trigger] lands(
                                square as int,
                                knight_delta(j).0,
                                knight_delta(j).1,
                                t,
                            );
                        assert(lands(
                            square as int,
                            jump_delta(king, j).0,
                            jump_delta(king, j).1,
                            t,
                        ));
                    }
                }
            }
        }
        result.push(moves);
        square += 1;
    }
    result
}

/// One king step from each cell.
pub fn generate_king_ring_moves() -> (r: Vec<Bitboard>)
    ensures
        r.len() == 64,
        forall|sq: int, t: int| 0 <= sq < 64 && 0 <= t < 64 ==> #[trigger] r[sq].has(t) == king_step(sq, t),
{
    jump_table(true)
}

/// One knight jump from each cell.
pub fn generate_knight_moves() -> (r: Vec<Bitboard>)
    ensures
        r.len() == 64,
        forall|sq: int, t: int| 0 <= sq < 64 && 0 <= t < 64 ==> #[trigger] r[sq].has(t) == knight_jump(sq, t),
{
    jump_table(false)
}

/// Magic entries of one slider: given masks and multipliers, shift
/// `64 - popcount(mask)`, slices laid end to end.
fn build_entries(blockers: &Vec<Bitboard>, rook: bool) -> (r: (Vec<MagicEntry>, usize))
    requires
        blockers.len() == 64,
    ensures
        r.0.len() == 64,
        forall|i: int| 0 <= i < 64 ==> 32 <= #[trigger] r.0[i].shift < 64,
        forall|i: int| 0 <= i < 64 ==> (#[trigger] r.0[i]).mask == blockers[i],
{
    let mut entries: Vec<MagicEntry> = Vec::new();
    let mut offset: usize = 0;
    let mut sq: usize = 0;
    while sq < 64
        invariant
            sq <= 64,
            entries.len() == sq,
            offset <= sq * 0x1_0000,
            blockers.len() == 64,
            forall|i: int| 0 <= i < sq ==> 32 <= #[trigger] entries[i].shift < 64,
            forall|i: int| 0 <= i < sq ==> (#[trigger] entries[i]).mask == blockers[i],
        decreases 64 - sq,
    {
        let mask = blockers[sq];
        let bits = mask.count_bits();
        proof {
            lemma_popcount_bound(mask.0);
        }
        let magic = if rook {
            rook_magic_number(sq)
        } else {
            bishop_magic_number(sq)
        };
        // A mask that is empty or has more than 16 cells (the ray masks have
        // 5 to 12) gets a one-bit index.
        let shift: u8 = if bits == 0 || bits > 16 { 63 } else { (64 - bits) as u8 };
        let entry = MagicEntry { mask, magic, shift, offset };
        entries.push(entry);
        let index_bits: u8 = 64 - shift;
        let size: usize = if index_bits < 16 {
            1usize << index_bits as usize
        } else {
            0x1_0000usize
        };
        assert(size <= 0x1_0000usize) by (bit_vector)
            requires
                index_bits < 16 ==> size == 1usize << index_bits as usize,
                index_bits >= 16 ==> size == 0x1_0000usize,
        ;
        offset = offset + size;
        sq += 1;
    }
    (entries, offset)
}

pub proof fn lemma_popcount_bound(x: u64)
    ensures
        popcount(x) <= 64,
{
    vstd::arithmetic::power2::lemma2_to64();
    lemma_popcount_bits(x, 64);
}

proof fn lemma_popcount_bits(x: u64, n: nat)
    requires
        n <= 64,
        (x as int) < vstd::arithmetic::power2::pow2(n),
    ensures
        popcount(x) <= n,
    decreases n,
{
    vstd::arithmetic::power2::lemma2_to64();
    if x != 0 && n > 0 {
        vstd::arithmetic::power2::lemma_pow2_unfold(n);
        lemma_popcount_bits(x / 2, (n - 1) as nat);
    }
}

/// The word whose members are the cells a slider on `sq` attacks along
/// `dirs` with `blockers` on the board (see `slide_attack`).
pub open spec fn slide_word(sq: int, dirs: Seq<(i8, i8)>, blockers: u64) -> u64 {
    choose|w: u64| #[trigger] is_slide_word(w, sq, dirs, blockers)
}

/// `w` holds exactly the cells of the ray cast.
pub open spec fn is_slide_word(w: u64, sq: int, dirs: Seq<(i8, i8)>, blockers: u64) -> bool {
    forall|t: int| 0 <= t < 64 ==> #[trigger] bit_at(w, t) == slide_attack(sq, dirs, blockers, t)
}

/// A word with the members of the ray cast is `slide_word`.
pub proof fn lemma_slide_word(w: u64, sq: int, dirs: Seq<(i8, i8)>, blockers: u64)
    requires
        forall|t: int| 0 <= t < 64 ==> #[trigger] bit_at(w, t) == slide_attack(sq, dirs, blockers, t),
    ensures
        slide_word(sq, dirs, blockers) == w,
{
    assert(is_slide_word(w, sq, dirs, blockers));
    let v = slide_word(sq, dirs, blockers);
    assert forall|t: int| 0 <= t < 64 implies bit_at(v, t) == bit_at(w, t) by {}
    crate::bitboard::lemma_bits_ext(v, w);
}

/// For configuration `c` of cell `sq`, the entry that `e` indexes in `table`
/// exists and is the ray cast of `c` along `dirs`.
pub open spec fn table_ok(table: Seq<Bitboard>, e: MagicEntry, sq: int, dirs: Seq<(i8, i8)>, c: u64) -> bool {
    let i = e.offset + e.spec_index(Bitboard(c));
    0 <= i < table.len() && table[i].0 == slide_word(sq, dirs, c)
}

/// The empty set is a subset of every mask.
pub proof fn lemma_subset_zero(mask: u64)
    ensures
        is_subset_of(0, mask),
{
    assert(0u64 & !mask == 0) by (bit_vector);
}

/// Entry `e` of cell `sq` is collision-free: two configurations of its mask
/// with the same index have the same ray cast.
pub open spec fn magic_ok(e: MagicEntry, sq: int, dirs: Seq<(i8, i8)>) -> bool {
    forall|c1: u64, c2: u64|
        is_subset_of(c1, e.mask.0) && is_subset_of(c2, e.mask.0) && #[trigger] e.spec_index(
            Bitboard(c1),
        ) == #[trigger] e.spec_index(Bitboard(c2)) ==> slide_word(sq, dirs, c1) == slide_word(
            sq,
            dirs,
            c2,
        )
}

/// A table that holds every configuration's ray cast makes its entry collision-free.
pub proof fn lemma_table_gives_magic_ok(table: Seq<Bitboard>, e: MagicEntry, sq: int, dirs: Seq<(i8, i8)>)
    requires
        forall|c: u64| is_subset_of(c, e.mask.0) ==> #[trigger] table_ok(table, e, sq, dirs, c),
    ensures
        magic_ok(e, sq, dirs),
{
    assert forall|c1: u64, c2: u64|
        is_subset_of(c1, e.mask.0) && is_subset_of(c2, e.mask.0) && #[trigger] e.spec_index(
            Bitboard(c1),
        ) == #[trigger] e.spec_index(Bitboard(c2)) implies slide_word(sq, dirs, c1) == slide_word(
        sq,
        dirs,
        c2,
    ) by {
        assert(table_ok(table, e, sq, dirs, c1));
        assert(table_ok(table, e, sq, dirs, c2));
    }
}

/// Every subset of every cell's mask finds its ray cast in `table`.
pub open spec fn slider_table_ok(table: Seq<Bitboard>, magics: Seq<MagicEntry>, dirs: Seq<(i8, i8)>) -> bool {
    forall|sq: int, c: u64|
        0 <= sq < 64 && is_subset_of(c, magics[sq].mask.0) ==> #[trigger] table_ok(table, magics[sq], sq, dirs, c)
}

/// Checks, for every subset of `entry.mask` (walked with the carry-rippler
/// step), that the indexed entry of `table` is the ray cast of that subset.
pub fn check_slider_square(
    deltas: &[(i8, i8); 4],
    pos: Position,
    entry: &MagicEntry,
    table: &Vec<Bitboard>,
) -> (r: bool)
    requires
        forall|d: int| 0 <= d < 4 ==> -1 <= #[trigger] deltas@[d].0 <= 1 && -1 <= deltas@[d].1 <= 1,
        32 <= entry.shift < 64,
    ensures
        r == forall|c: u64| is_subset_of(c, entry.mask.0) ==> #[trigger] table_ok(table@, *entry, pos.idx(), deltas@, c),
{
    let mask = entry.mask.0;
    let mut c: u64 = 0;
    proof {
        lemma_subset_le(0, mask);
        lemma_subset_zero(mask);
    }
    loop
        invariant
            forall|d: int| 0 <= d < 4 ==> -1 <= #[trigger] deltas@[d].0 <= 1 && -1 <= deltas@[d].1 <= 1,
            32 <= entry.shift < 64,
            mask == entry.mask.0,
            is_subset_of(c, mask),
            c <= mask,
            forall|x: u64| is_subset_of(x, mask) && x < c ==> #[trigger] table_ok(table@, *entry, pos.idx(), deltas@, x),
        decreases mask - c,
    {
        let moves = get_sliding_moves(deltas, pos, Bitboard(c));
        let index = entry.magic_index(Bitboard(c));
        proof {
            assert forall|t: int| 0 <= t < 64 implies #[trigger] bit_at(moves.0, t) == slide_attack(pos.idx(), deltas@, c, t) by {
                assert(moves.has(t) == slide_attack(pos.idx(), deltas@, c, t));
            }
            lemma_slide_word(moves.0, pos.idx(), deltas@, c);
        }
        if index >= table.len() || entry.offset >= table.len() - index {
            proof {
                assert(!table_ok(table@, *entry, pos.idx(), deltas@, c));
            }
            return false;
        }
        if table[entry.offset + index].0 != moves.0 {
            proof {
                assert(!table_ok(table@, *entry, pos.idx(), deltas@, c));
            }
            return false;
        }
        proof {
            assert(table_ok(table@, *entry, pos.idx(), deltas@, c));
        }
        if c == mask {
            proof {
                assert forall|x: u64| is_subset_of(x, mask) implies #[trigger] table_ok(table@, *entry, pos.idx(), deltas@, x) by {
                    lemma_subset_le(x, mask);
                }
            }
            return true;
        }
        let next = if c >= mask {
            c - mask
        } else {
            c + (0xFFFF_FFFF_FFFF_FFFFu64 - mask) + 1
        } & mask;
        proof {
            assert(next == next_subset(c, mask));
            assert forall|x: u64| is_subset_of(x, mask) && x < next implies #[trigger] table_ok(table@, *entry, pos.idx(), deltas@, x) by {
                lemma_next_subset(c, mask, x);
            }
            lemma_next_subset(c, mask, 0);
            lemma_subset_le(next, mask);
        }
        c = next;
    }
}

/// Fills one slider's shared attack table: for each cell and each blocker
/// configuration of its mask, the ray-cast attack set at the configuration's
/// magic index. The result is then checked entry by entry: `None` when some
/// index falls outside the table or two configurations collide.
pub fn generate_slide_piece_attack_tables(
    deltas: &[(i8, i8); 4],
    magics: &Vec<MagicEntry>,
    table_size: usize,
) -> (r: Option<Vec<Bitboard>>)
    requires
        forall|d: int| 0 <= d < 4 ==> -1 <= #[trigger] deltas@[d].0 <= 1 && -1 <= deltas@[d].1 <= 1,
        magics.len() == 64,
        forall|i: int| 0 <= i < 64 ==> 32 <= #[trigger] magics[i].shift < 64,
    ensures
        r matches Some(t) ==> t.len() == table_size && slider_table_ok(t@, magics@, deltas@),
{
    let mut table: Vec<Bitboard> = Vec::new();
    let mut i: usize = 0;
    while i < table_size
        invariant
            i <= table_size,
            table.len() == i,
        decreases table_size - i,
    {
        table.push(Bitboard(0));
        i += 1;
    }
    let mut pos: usize = 0;
    while pos < 64
        invariant
            forall|d: int| 0 <= d < 4 ==> -1 <= #[trigger] deltas@[d].0 <= 1 && -1 <= deltas@[d].1 <= 1,
            pos <= 64,
            table.len() == table_size,
            magics.len() == 64,
            forall|i: int| 0 <= i < 64 ==> 32 <= #[trigger] magics[i].shift < 64,
        decreases 64 - pos,
    {
        let entry = magics[pos];
        let mask = entry.mask.0;
        let mut blockers = Bitboard(0);
        let mut count: u64 = 0;
        let limit: u64 = 1u64 << (64 - entry.shift) as u64;
        while count < limit
            invariant
                forall|d: int| 0 <= d < 4 ==> -1 <= #[trigger] deltas@[d].0 <= 1 && -1 <= deltas@[d].1 <= 1,
                table.len() == table_size,
                32 <= entry.shift < 64,
                pos < 64,
            decreases limit - count,
        {
            let moves = get_sliding_moves(deltas, Position::new(pos), blockers);
            let index = entry.magic_index(blockers);
            if index < table_size && entry.offset < table_size - index {
                table.set(index + entry.offset, moves);
            }
            blockers = Bitboard(blockers.0.wrapping_sub(mask) & mask);
            count += 1;
            if blockers.0 == 0 {
                break;
            }
        }
        pos += 1;
    }
    let mut sq: usize = 0;
    while sq < 64
        invariant
            forall|d: int| 0 <= d < 4 ==> -1 <= #[trigger] deltas@[d].0 <= 1 && -1 <= deltas@[d].1 <= 1,
            sq <= 64,
            table.len() == table_size,
            magics.len() == 64,
            forall|i: int| 0 <= i < 64 ==> 32 <= #[trigger] magics[i].shift < 64,
            forall|x: int, c: u64|
                0 <= x < sq && is_subset_of(c, magics[x].mask.0) ==> #[trigger] table_ok(table@, magics[x], x, deltas@, c),
        decreases 64 - sq,
    {
        let pos = Position::new(sq);
        if !check_slider_square(deltas, pos, &magics[sq], &table) {
            return None;
        }
        sq += 1;
    }
    Some(table)
}

/// Everything that move generation and hashing look up, built once and then
/// only read: jump tables, blocker masks, magic entries, the two shared
/// sliding-attack tables and the hash keys.
pub struct ComputedBoards {
    pub knight_moves: Vec<Bitboard>,
    pub king_ring_moves: Vec<Bitboard>,
    pub rook_blockers: Vec<Bitboard>,
    pub bishop_blockers: Vec<Bitboard>,
    pub rook_magics: Vec<MagicEntry>,
    pub bishop_magics: Vec<MagicEntry>,
    pub rook_attacks: Vec<Bitboard>,
    pub bishop_attacks: Vec<Bitboard>,
    /// The rook table passed its check; lookups read it only then, and ray
    /// cast directly otherwise.
    pub rook_checked: bool,
    /// The bishop table passed its check.
    pub bishop_checked: bool,
    pub zobrist: ZobristTable,
}

impl ComputedBoards {
    pub open spec fn wf(&self) -> bool {
        &&& self.knight_moves.len() == 64
        &&& self.king_ring_moves.len() == 64
        &&& self.rook_blockers.len() == 64
        &&& self.bishop_blockers.len() == 64
        &&& self.rook_magics.len() == 64
        &&& self.bishop_magics.len() == 64
        &&& forall|i: int| 0 <= i < 64 ==> 32 <= #[trigger] self.rook_magics[i].shift < 64
        &&& forall|i: int| 0 <= i < 64 ==> 32 <= #[trigger] self.bishop_magics[i].shift < 64
        &&& self.zobrist.wf()
        &&& forall|sq: int, t: int|
            0 <= sq < 64 && 0 <= t < 64 ==> #[trigger] self.knight_moves[sq].has(t) == knight_jump(
                sq,
                t,
            )
        &&& forall|sq: int, t: int|
            0 <= sq < 64 && 0 <= t < 64 ==> #[trigger] self.king_ring_moves[sq].has(t) == king_step(
                sq,
                t,
            )
        &&& forall|sq: int, t: int|
            0 <= sq < 64 && 0 <= t < 64 ==> #[trigger] self.rook_blockers[sq].has(t) == blocker_cell(
                sq,
                rook_dirs(),
                t,
            )
        &&& forall|sq: int, t: int|
            0 <= sq < 64 && 0 <= t < 64 ==> #[trigger] self.bishop_blockers[sq].has(t)
                == blocker_cell(sq, bishop_dirs(), t)
        &&& self.rook_checked ==> slider_table_ok(self.rook_attacks@, self.rook_magics@, rook_dirs())
        &&& self.bishop_checked ==> slider_table_ok(
            self.bishop_attacks@,
            self.bishop_magics@,
            bishop_dirs(),
        )
        &&& forall|sq: int| 0 <= sq < 64 ==> #[trigger] self.rook_magics[sq].mask == self.rook_blockers[sq]
        &&& forall|sq: int|
            0 <= sq < 64 ==> #[trigger] self.bishop_magics[sq].mask == self.bishop_blockers[sq]
    }

    /// Builds every table; the hash keys come from a generator seeded with `seed`.
    pub fn new(seed: u64) -> (r: ComputedBoards)
        ensures
            r.wf(),
    {
        let rook_blockers = generate_slide_piece_blockers(&rook_deltas());
        let bishop_blockers = generate_slide_piece_blockers(&bishop_deltas());
        let rook = build_entries(&rook_blockers, true);
        let bishop = build_entries(&bishop_blockers, false);
        ComputedBoards::from_parts(rook_blockers, bishop_blockers, rook, bishop, seed)
    }

    fn from_parts(
        rook_blockers: Vec<Bitboard>,
        bishop_blockers: Vec<Bitboard>,
        rook: (Vec<MagicEntry>, usize),
        bishop: (Vec<MagicEntry>, usize),
        seed: u64,
    ) -> (r: ComputedBoards)
        requires
            rook_blockers.len() == 64,
            bishop_blockers.len() == 64,
            forall|sq: int, t: int|
                0 <= sq < 64 && 0 <= t < 64 ==> #[trigger] rook_blockers[sq].has(t) == blocker_cell(
                    sq,
                    rook_dirs(),
                    t,
                ),
            forall|sq: int, t: int|
                0 <= sq < 64 && 0 <= t < 64 ==> #[trigger] bishop_blockers[sq].has(t) == blocker_cell(
                    sq,
                    bishop_dirs(),
                    t,
                ),
            forall|i: int| 0 <= i < 64 ==> (#[trigger] rook.0[i]).mask == rook_blockers[i],
            forall|i: int| 0 <= i < 64 ==> (#[trigger] bishop.0[i]).mask == bishop_blockers[i],
            rook.0.len() == 64,
            bishop.0.len() == 64,
            forall|i: int| 0 <= i < 64 ==> 32 <= #[trigger] rook.0[i].shift < 64,
            forall|i: int| 0 <= i < 64 ==> 32 <= #[trigger] bishop.0[i].shift < 64,
        ensures
            r.wf(),
    {
        let (rook_attacks, rook_checked) = match generate_slide_piece_attack_tables(
            &rook_deltas(),
            &rook.0,
            rook.1,
        ) {
            Some(t) => (t, true),
            None => (Vec::new(), false),
        };
        let (bishop_attacks, bishop_checked) = match generate_slide_piece_attack_tables(
            &bishop_deltas(),
            &bishop.0,
            bishop.1,
        ) {
            Some(t) => (t, true),
            None => (Vec::new(), false),
        };
        ComputedBoards {
            knight_moves: generate_knight_moves(),
            king_ring_moves: generate_king_ring_moves(),
            rook_blockers,
            bishop_blockers,
            rook_magics: rook.0,
            bishop_magics: bishop.0,
            rook_attacks,
            bishop_attacks,
            rook_checked,
            bishop_checked,
            zobrist: ZobristTable::new(Some(seed)),
        }
    }
}

} // verus!
