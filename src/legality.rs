//! What legal generation and check detection mean: the attack map that
//! `in_check` reads is exactly the set of destinations of pseudo-legal
//! non-castle moves, and every pseudo-legal move of a consistent position is
//! taken back exactly by undo.
use vstd::prelude::*;
use crate::bitboard::{Bitboard, bit_at, single};
use crate::board::{Board, bb_index, side_index, union_upto, disjoint, kind_at};
use crate::castle_rights::{Turn, WHITE, right_index};
use crate::chess_move::{Move, pack, lemma_pack};
use crate::make_move::{apply_spec, backward, rook_home, reversible, lemma_kind_at_disjoint, lemma_kind_at_none};
use crate::piece::Piece;
use vstd::std_specs::bits::u64_trailing_zeros;
use crate::move_generation::{NOT_A_FILE, NOT_H_FILE, RANK_2, RANK_7, attack_map_spec, bishop_lookup, bishop_union, castle_allowed, castle_code, castle_dest, castle_path, enemy_cells, in_check_spec, is_pseudo, is_pseudo_move, king_move, king_start, knight_move, knight_union, lemma_mv, lemma_union_step, mv, occupied, pawn_dir, pawn_double, pawn_forward, pawn_ldir, pawn_left, pawn_rdir, pawn_right, pawn_targets, pawns_of, promo_rank, rook_lookup, rook_union, shift_spec, side_cells, slider_lookup, slider_move, union_over};

verus! {

/// A member of a shifted set comes from the member `s` cells back.
proof fn lemma_shift_origin(x: u64, s: int, d: int)
    requires
        -64 < s < 64,
        bit_at(shift_spec(x, s), d),
    ensures
        0 <= d - s < 64,
        bit_at(x, d - s),
{
    let dd = d as u64;
    if s >= 0 {
        let k = s as u64;
        assert(((x << k) >> dd) & 1u64 == 1u64 ==> dd >= k && (x >> (vstd::prelude::sub(dd, k))) & 1u64 == 1u64)
            by (bit_vector)
            requires
                dd < 64,
                k < 64,
        ;
    } else {
        let k = (-s) as u64;
        assert(((x >> k) >> dd) & 1u64 == 1u64 ==> dd + k < 64 && (x >> (vstd::prelude::add(dd, k))) & 1u64
            == 1u64) by (bit_vector)
            requires
                dd < 64,
                k < 64,
        ;
    }
}

/// The lowest member of a one-cell set is that cell.
proof fn lemma_tz_single(s: int)
    requires
        0 <= s < 64,
    ensures
        u64_trailing_zeros(single(s)) as int == s,
{
    crate::bitboard::lemma_bit_single(s, s);
    crate::bitboard::lemma_bit_zero(s);
    crate::bitboard::lemma_lowest_bit(single(s));
    crate::bitboard::lemma_bit_single(s, u64_trailing_zeros(single(s)) as int);
    if (u64_trailing_zeros(single(s)) as int) > s {
        assert(!bit_at(single(s), s));
    }
}

/// A cell is in the union of `f(c)` over the members `c` of `b` exactly
/// when some member's `f` holds it.
pub proof fn lemma_union_over_member(b: u64, f: spec_fn(int) -> u64, d: int)
    ensures
        bit_at(union_over(b, f), d) <==> exists|o: int| #[trigger] bit_at(b, o) && bit_at(f(o), d),
    decreases b,
{
    if b == 0 {
        crate::bitboard::lemma_bit_zero(d);
        assert forall|o: int| !#[trigger] bit_at(b, o) by {
            crate::bitboard::lemma_bit_zero(o);
        }
    } else {
        let t = u64_trailing_zeros(b) as int;
        let rest = b & ((b - 1) as u64);
        crate::bitboard::lemma_lowest_bit(b);
        lemma_union_step(b, f, 0);
        lemma_union_over_member(rest, f, d);
        crate::bitboard::lemma_bit_or(f(t), union_over(rest, f), d);
        assert forall|o: int| #[trigger] bit_at(b, o) == (o == t || bit_at(rest, o)) by {
            crate::bitboard::lemma_bit_and(b, !single(t), o);
            crate::bitboard::lemma_bit_not(single(t), o);
            crate::bitboard::lemma_bit_single(t, o);
        }
        if bit_at(union_over(b, f), d) {
            if !bit_at(f(t), d) {
                let o = choose|o: int| #[trigger] bit_at(rest, o) && bit_at(f(o), d);
                assert(bit_at(b, o));
            }
        }
        if exists|o: int| #[trigger] bit_at(b, o) && bit_at(f(o), d) {
            let o = choose|o: int| #[trigger] bit_at(b, o) && bit_at(f(o), d);
            if o != t {
                assert(bit_at(rest, o));
            }
        }
    }
}

proof fn lemma_mv_fields(o: int, d: int, p: int, k: int)
    requires
        0 <= o < 64,
        0 <= d < 64,
        0 <= p < 4,
        0 <= k < 4,
    ensures
        mv(o, d, p, k).origin() == o,
        mv(o, d, p, k).dest() == d,
        mv(o, d, p, k).promo() == p,
        mv(o, d, p, k).kind() == k,
{
    Move::lemma_from_raw(pack(o, d, p, k));
    lemma_pack(o, d, p, k);
}

/// Pawn destinations come from pseudo-legal pawn moves.
proof fn lemma_pawn_target_gives_move(b: &Board, by: Turn, d: int) -> (m: Move)
    requires
        b.wf(),
        0 <= d < 64,
        bit_at(pawn_targets(b.piece_boards@, b.en_passant.0, by), d),
    ensures
        is_pseudo(b, by, m),
        m.dest() == d,
{
    let pb = b.piece_boards@;
    let ep = b.en_passant.0;
    let pawns = pawns_of(pb, by);
    let empty = !occupied(pb);
    let enemy = enemy_cells(pb, by);
    let fw = pawn_forward(pb, by);
    let db = pawn_double(pb, by);
    let rt = pawn_right(pb, by);
    let lt = pawn_left(pb, by);
    let pr = promo_rank(by);
    let start = if by == WHITE { RANK_2 } else { RANK_7 };
    assert(pawn_targets(pb, ep, by) == fw | db | (rt & enemy) | (lt & enemy) | (rt & ep) | (lt & ep));
    crate::bitboard::lemma_bit_or(fw | db | (rt & enemy) | (lt & enemy) | (rt & ep), lt & ep, d);
    crate::bitboard::lemma_bit_or(fw | db | (rt & enemy) | (lt & enemy), rt & ep, d);
    crate::bitboard::lemma_bit_or(fw | db | (rt & enemy), lt & enemy, d);
    crate::bitboard::lemma_bit_or(fw | db, rt & enemy, d);
    crate::bitboard::lemma_bit_or(fw, db, d);
    crate::bitboard::lemma_bit_and(fw, pr, d);
    crate::bitboard::lemma_bit_and(fw, !pr, d);
    crate::bitboard::lemma_bit_not(pr, d);
    crate::bitboard::lemma_bit_and(rt, enemy, d);
    crate::bitboard::lemma_bit_and(lt, enemy, d);
    crate::bitboard::lemma_bit_and(rt & enemy, pr, d);
    crate::bitboard::lemma_bit_and(rt & enemy, !pr, d);
    crate::bitboard::lemma_bit_and(lt & enemy, pr, d);
    crate::bitboard::lemma_bit_and(lt & enemy, !pr, d);
    crate::bitboard::lemma_bit_and(rt, ep, d);
    crate::bitboard::lemma_bit_and(lt, ep, d);
    if bit_at(fw, d) {
        crate::bitboard::lemma_bit_and(shift_spec(pawns, pawn_dir(by)), empty, d);
        lemma_shift_origin(pawns, pawn_dir(by), d);
        let o = d - pawn_dir(by);
        if bit_at(pr, d) {
            lemma_mv_fields(o, d, 0, 3);
            mv(o, d, 0, 3)
        } else {
            lemma_mv_fields(o, d, 0, 0);
            mv(o, d, 0, 0)
        }
    } else if bit_at(db, d) {
        crate::bitboard::lemma_bit_and(
            shift_spec(pawns & start, 2 * pawn_dir(by)) & empty,
            shift_spec(empty, pawn_dir(by)),
            d,
        );
        crate::bitboard::lemma_bit_and(shift_spec(pawns & start, 2 * pawn_dir(by)), empty, d);
        lemma_shift_origin(pawns & start, 2 * pawn_dir(by), d);
        let o = d - 2 * pawn_dir(by);
        lemma_mv_fields(o, d, 0, 0);
        mv(o, d, 0, 0)
    } else if bit_at(rt & enemy, d) || bit_at(rt & ep, d) {
        lemma_shift_origin(pawns & NOT_H_FILE, pawn_rdir(by), d);
        let o = d - pawn_rdir(by);
        if bit_at(rt & enemy, d) {
            if bit_at(pr, d) {
                lemma_mv_fields(o, d, 0, 3);
                mv(o, d, 0, 3)
            } else {
                lemma_mv_fields(o, d, 0, 0);
                mv(o, d, 0, 0)
            }
        } else {
            let x = rt & ep;
            crate::bitboard::lemma_bit_zero(d);
            assert(x != 0);
            assert(ep != 0);
            let sq = choose|sq: int| 0 <= sq < 64 && ep == single(sq);
            crate::bitboard::lemma_lowest_bit(x);
            let tz = u64_trailing_zeros(x) as int;
            crate::bitboard::lemma_bit_and(rt, ep, tz);
            crate::bitboard::lemma_bit_single(sq, tz);
            crate::bitboard::lemma_bit_single(sq, d);
            lemma_mv_fields(o, d, 0, 1);
            mv(o, d, 0, 1)
        }
    } else {
        lemma_shift_origin(pawns & NOT_A_FILE, pawn_ldir(by), d);
        let o = d - pawn_ldir(by);
        if bit_at(lt & enemy, d) {
            if bit_at(pr, d) {
                lemma_mv_fields(o, d, 0, 3);
                mv(o, d, 0, 3)
            } else {
                lemma_mv_fields(o, d, 0, 0);
                mv(o, d, 0, 0)
            }
        } else {
            let x = lt & ep;
            crate::bitboard::lemma_bit_zero(d);
            assert(x != 0);
            assert(ep != 0);
            let sq = choose|sq: int| 0 <= sq < 64 && ep == single(sq);
            crate::bitboard::lemma_lowest_bit(x);
            let tz = u64_trailing_zeros(x) as int;
            crate::bitboard::lemma_bit_and(lt, ep, tz);
            crate::bitboard::lemma_bit_single(sq, tz);
            crate::bitboard::lemma_bit_single(sq, d);
            lemma_mv_fields(o, d, 0, 1);
            mv(o, d, 0, 1)
        }
    }
}

/// Every cell of the attack map is the destination of a pseudo-legal move.
proof fn lemma_attack_gives_move(b: &Board, by: Turn, d: int) -> (m: Move)
    requires
        b.wf(),
        0 <= d < 64,
        bit_at(attack_map_spec(b.piece_boards@, b.en_passant.0, by, *b.tables), d),
    ensures
        is_pseudo(b, by, m),
        m.dest() == d,
{
    let pb = b.piece_boards@;
    let t = *b.tables;
    let own = side_cells(pb, side_index(by));
    let occ = occupied(pb);
    let queens = pb[bb_index(Piece::Queen, by)].0;
    let rooks = pb[bb_index(Piece::Rook, by)].0 | queens;
    let bishops = pb[bb_index(Piece::Bishop, by)].0 | queens;
    let knights = pb[bb_index(Piece::Knight, by)].0;
    let king = pb[bb_index(Piece::King, by)].0;
    let ru = rook_union(t, rooks, occ);
    let bu = bishop_union(t, bishops, occ);
    let ku = knight_union(t, knights);
    let kr = if king != 0 {
        t.king_ring_moves[u64_trailing_zeros(king) as int].0
    } else {
        0
    };
    let pt = pawn_targets(pb, b.en_passant.0, by);
    assert(attack_map_spec(pb, b.en_passant.0, by, t) == (((ru | bu) | (ku | kr)) & !own) | pt);
    crate::bitboard::lemma_bit_or(((ru | bu) | (ku | kr)) & !own, pt, d);
    if bit_at(pt, d) {
        lemma_pawn_target_gives_move(b, by, d)
    } else {
        crate::bitboard::lemma_bit_and((ru | bu) | (ku | kr), !own, d);
        crate::bitboard::lemma_bit_not(own, d);
        crate::bitboard::lemma_bit_or(ru | bu, ku | kr, d);
        crate::bitboard::lemma_bit_or(ru, bu, d);
        crate::bitboard::lemma_bit_or(ku, kr, d);
        if bit_at(ru, d) {
            lemma_union_over_member(rooks, |o: int| rook_lookup(t, o, occ), d);
            let o = choose|o: int| #[trigger] bit_at(rooks, o) && bit_at(rook_lookup(t, o, occ), d);
            crate::bitboard::lemma_bit_and(rook_lookup(t, o, occ), !own, d);
            lemma_mv_fields(o, d, 0, 0);
            assert(slider_move(b, by, o, d));
            mv(o, d, 0, 0)
        } else if bit_at(bu, d) {
            lemma_union_over_member(bishops, |o: int| bishop_lookup(t, o, occ), d);
            let o = choose|o: int| #[trigger] bit_at(bishops, o) && bit_at(bishop_lookup(t, o, occ), d);
            crate::bitboard::lemma_bit_and(bishop_lookup(t, o, occ), !own, d);
            lemma_mv_fields(o, d, 0, 0);
            assert(slider_move(b, by, o, d));
            mv(o, d, 0, 0)
        } else if bit_at(ku, d) {
            lemma_union_over_member(knights, |o: int| t.knight_moves[o].0, d);
            let o = choose|o: int| #[trigger] bit_at(knights, o) && bit_at(t.knight_moves[o].0, d);
            crate::bitboard::lemma_bit_and(t.knight_moves[o].0, !own, d);
            lemma_mv_fields(o, d, 0, 0);
            assert(knight_move(b, by, o, d));
            mv(o, d, 0, 0)
        } else {
            crate::bitboard::lemma_bit_zero(d);
            assert(king != 0);
            broadcast use vstd::std_specs::bits::axiom_u64_trailing_zeros;

            let o = u64_trailing_zeros(king) as int;
            crate::bitboard::lemma_bit_and(t.king_ring_moves[o].0, !own, d);
            lemma_mv_fields(o, d, 0, 0);
            assert(king_move(b, by, o, d));
            mv(o, d, 0, 0)
        }
    }
}

/// The destination of every pseudo-legal non-castle move is in the attack map.
proof fn lemma_move_in_attack(b: &Board, by: Turn, m: Move)
    requires
        b.wf(),
        is_pseudo(b, by, m),
    ensures
        bit_at(attack_map_spec(b.piece_boards@, b.en_passant.0, by, *b.tables), m.dest()),
{
    let pb = b.piece_boards@;
    let ep = b.en_passant.0;
    let t = *b.tables;
    let o = m.origin();
    let d = m.dest();
    lemma_mv(m);
    let own = side_cells(pb, side_index(by));
    let occ = occupied(pb);
    let queens = pb[bb_index(Piece::Queen, by)].0;
    let rooks = pb[bb_index(Piece::Rook, by)].0 | queens;
    let bishops = pb[bb_index(Piece::Bishop, by)].0 | queens;
    let knights = pb[bb_index(Piece::Knight, by)].0;
    let king = pb[bb_index(Piece::King, by)].0;
    let ru = rook_union(t, rooks, occ);
    let bu = bishop_union(t, bishops, occ);
    let ku = knight_union(t, knights);
    let kr = if king != 0 {
        t.king_ring_moves[u64_trailing_zeros(king) as int].0
    } else {
        0
    };
    let pt = pawn_targets(pb, ep, by);
    let fw = pawn_forward(pb, by);
    let db = pawn_double(pb, by);
    let rt = pawn_right(pb, by);
    let lt = pawn_left(pb, by);
    let enemy = enemy_cells(pb, by);
    let pr = promo_rank(by);
    assert(attack_map_spec(pb, ep, by, t) == (((ru | bu) | (ku | kr)) & !own) | pt);
    assert(pt == fw | db | (rt & enemy) | (lt & enemy) | (rt & ep) | (lt & ep));
    crate::bitboard::lemma_bit_or(((ru | bu) | (ku | kr)) & !own, pt, d);
    crate::bitboard::lemma_bit_and((ru | bu) | (ku | kr), !own, d);
    crate::bitboard::lemma_bit_not(own, d);
    crate::bitboard::lemma_bit_or(ru | bu, ku | kr, d);
    crate::bitboard::lemma_bit_or(ru, bu, d);
    crate::bitboard::lemma_bit_or(ku, kr, d);
    crate::bitboard::lemma_bit_or(fw | db | (rt & enemy) | (lt & enemy) | (rt & ep), lt & ep, d);
    crate::bitboard::lemma_bit_or(fw | db | (rt & enemy) | (lt & enemy), rt & ep, d);
    crate::bitboard::lemma_bit_or(fw | db | (rt & enemy), lt & enemy, d);
    crate::bitboard::lemma_bit_or(fw | db, rt & enemy, d);
    crate::bitboard::lemma_bit_or(fw, db, d);
    crate::bitboard::lemma_bit_and(fw, pr, d);
    crate::bitboard::lemma_bit_and(fw, !pr, d);
    crate::bitboard::lemma_bit_and(rt & enemy, pr, d);
    crate::bitboard::lemma_bit_and(rt & enemy, !pr, d);
    crate::bitboard::lemma_bit_and(lt & enemy, pr, d);
    crate::bitboard::lemma_bit_and(lt & enemy, !pr, d);
    if m.kind() == 0 && slider_move(b, by, o, d) {
        crate::bitboard::lemma_bit_and(rook_lookup(t, o, occ), !own, d);
        crate::bitboard::lemma_bit_and(bishop_lookup(t, o, occ), !own, d);
        lemma_union_over_member(rooks, |o: int| rook_lookup(t, o, occ), d);
        lemma_union_over_member(bishops, |o: int| bishop_lookup(t, o, occ), d);
    } else if m.kind() == 0 && knight_move(b, by, o, d) {
        crate::bitboard::lemma_bit_and(t.knight_moves[o].0, !own, d);
        lemma_union_over_member(knights, |o: int| t.knight_moves[o].0, d);
    } else if m.kind() == 0 && king_move(b, by, o, d) {
        crate::bitboard::lemma_bit_and(t.king_ring_moves[o].0, !own, d);
    } else if m.kind() == 1 {
        let l = lt & ep;
        let r = rt & ep;
        if l != 0 && d == u64_trailing_zeros(l) as int {
            crate::bitboard::lemma_lowest_bit(l);
        } else {
            crate::bitboard::lemma_lowest_bit(r);
        }
    }
}

/// The attack map of `by` is exactly the set of destinations of `by`'s
/// pseudo-legal moves other than castles; so `in_check_spec` asks whether the
/// king's cell is such a destination.
pub proof fn lemma_attack_map_is_destinations(b: &Board, by: Turn, d: int)
    requires
        b.wf(),
        0 <= d < 64,
    ensures
        bit_at(attack_map_spec(b.piece_boards@, b.en_passant.0, by, *b.tables), d) <==> exists|
            m: Move,
        | #[trigger] is_pseudo(b, by, m) && m.dest() == d,
{
    let t = *b.tables;
    if bit_at(attack_map_spec(b.piece_boards@, b.en_passant.0, by, t), d) {
        let m = lemma_attack_gives_move(b, by, d);
        assert(is_pseudo(b, by, m) && m.dest() == d);
    }
    if exists|m: Move| #[trigger] is_pseudo(b, by, m) && m.dest() == d {
        let m = choose|m: Move| #[trigger] is_pseudo(b, by, m) && m.dest() == d;
        lemma_move_in_attack(b, by, m);
    }
}

/// A cell is in the union of `pb[base .. base + n]` exactly when one of them holds it.
pub proof fn lemma_union_upto_member(pb: Seq<Bitboard>, base: int, n: nat, d: int)
    ensures
        bit_at(union_upto(pb, base, n), d) <==> exists|j: int|
            0 <= j < n && #[trigger] pb[base + j].has(d),
    decreases n,
{
    if n == 0 {
        crate::bitboard::lemma_bit_zero(d);
    } else {
        lemma_union_upto_member(pb, base, (n - 1) as nat, d);
        crate::bitboard::lemma_bit_or(union_upto(pb, base, (n - 1) as nat), pb[base + n - 1].0, d);
        if exists|j: int| 0 <= j < n && #[trigger] pb[base + j].has(d) {
            let j = choose|j: int| 0 <= j < n && #[trigger] pb[base + j].has(d);
            if j < n - 1 {
                assert(exists|i: int| 0 <= i < n - 1 && #[trigger] pb[base + i].has(d));
            }
        }
        if bit_at(pb[base + n - 1].0, d) {
            assert(pb[base + (n - 1)].has(d));
        }
    }
}

/// The position agrees with how play could have reached it: no cell lies in
/// two piece sets; an en-passant target is an empty cell with a pawn of the
/// side not to move just behind it; and each castling right of the side to
/// move has its king and that rook on their start cells.
pub open spec fn consistent(b: &Board) -> bool {
    let pb = b.piece_boards@;
    let t = b.turn;
    &&& disjoint(pb)
    &&& b.en_passant.0 != 0 ==> exists|e: int|
        0 <= e < 64 && b.en_passant.0 == #[trigger] single(e) && kind_at(pb, e) == Piece::NoPiece
            && 0 <= e + backward(t) < 64 && pb[bb_index(Piece::Pawn, !t)].has(e + backward(t))
    &&& forall|ks: bool|
        #[trigger] b.castle_rights.right(right_index(t, ks)) ==> pb[bb_index(Piece::Rook, t)].has(
            rook_home(t, ks),
        ) && pb[bb_index(Piece::King, t)].has(king_start(t))
}

/// On disjoint sets: a cell held by set `k` of side `t` reads as that kind.
proof fn lemma_origin_kind(pb: Seq<Bitboard>, p: Piece, t: Turn, o: int)
    requires
        pb.len() == 12,
        disjoint(pb),
        p != Piece::NoPiece,
        pb[bb_index(p, t)].has(o),
    ensures
        kind_at(pb, o) == p,
{
    lemma_kind_at_disjoint(pb, o, bb_index(p, t));
}

/// On disjoint sets: a cell outside `t`'s pieces is empty or holds an enemy piece.
proof fn lemma_dest_kind(b: &Board, t: Turn, d: int)
    requires
        b.wf(),
        disjoint(b.piece_boards@),
        0 <= d < 64,
        !bit_at(side_cells(b.piece_boards@, side_index(t)), d),
    ensures
        ({
            let cap = kind_at(b.piece_boards@, d);
            cap != Piece::NoPiece ==> b.piece_boards@[bb_index(cap, !t)].has(d)
        }),
{
    let pb = b.piece_boards@;
    let cap = kind_at(pb, d);
    if cap != Piece::NoPiece {
        if forall|j: int| 0 <= j < 12 ==> !(#[trigger] pb[j]).has(d) {
            crate::make_move::lemma_kind_at_empty_reads(pb, d);
        }
        let j = choose|j: int| 0 <= j < 12 && (#[trigger] pb[j]).has(d);
        lemma_kind_at_disjoint(pb, d, j);
        lemma_union_upto_member(pb, 6 * side_index(t), 6, d);
        if 6 * side_index(t) <= j < 6 * side_index(t) + 6 {
            assert(pb[6 * side_index(t) + (j - 6 * side_index(t))].has(d));
        }
    }
}

/// Own and enemy cells are disjoint when the piece sets are.
proof fn lemma_sides_disjoint(pb: Seq<Bitboard>, t: Turn, d: int)
    requires
        pb.len() == 12,
        disjoint(pb),
    ensures
        !(bit_at(side_cells(pb, side_index(t)), d) && bit_at(enemy_cells(pb, t), d)),
{
    lemma_union_upto_member(pb, 6 * side_index(t), 6, d);
    lemma_union_upto_member(pb, 6 * (1 - side_index(t)), 6, d);
    if bit_at(side_cells(pb, side_index(t)), d) && bit_at(enemy_cells(pb, t), d) {
        let i = choose|i: int| 0 <= i < 6 && #[trigger] pb[6 * side_index(t) + i].has(d);
        let j = choose|j: int| 0 <= j < 6 && #[trigger] pb[6 * (1 - side_index(t)) + j].has(d);
        assert(pb[6 * side_index(t) + i].has(d));
    }
}

/// A plain or promoting move from a cell of `t`'s set of kind `p` to a cell
/// outside `t`'s pieces meets `reversible`.
proof fn lemma_plain_reversible(b: &Board, m: Move, p: Piece)
    requires
        b.wf(),
        consistent(b),
        m.kind() == 0 || (m.kind() == 3 && p == Piece::Pawn),
        p != Piece::NoPiece,
        b.piece_boards@[bb_index(p, b.turn)].has(m.origin()),
        !bit_at(side_cells(b.piece_boards@, side_index(b.turn)), m.dest()),
    ensures
        reversible(b.view(), m),
{
    let pb = b.piece_boards@;
    let t = b.turn;
    lemma_mv(m);
    lemma_origin_kind(pb, p, t, m.origin());
    lemma_dest_kind(b, t, m.dest());
    lemma_union_upto_member(pb, 6 * side_index(t), 6, m.origin());
    assert(pb[6 * side_index(t) + p.spec_index()].has(m.origin()));
}

/// Every pseudo-legal move of a consistent position meets `reversible`.
pub proof fn lemma_pseudo_reversible(b: &Board, m: Move)
    requires
        b.wf(),
        consistent(b),
        is_pseudo_move(b, b.turn, m),
    ensures
        reversible(b.view(), m),
{
    let pb = b.piece_boards@;
    let t = b.turn;
    let o = m.origin();
    let d = m.dest();
    let own = side_cells(pb, side_index(t));
    lemma_mv(m);
    if is_pseudo(b, t, m) {
        if m.kind() == 0 && slider_move(b, t, o, d) {
            let q = pb[bb_index(Piece::Queen, t)].0;
            let rk = pb[bb_index(Piece::Rook, t)].0;
            let bs = pb[bb_index(Piece::Bishop, t)].0;
            crate::bitboard::lemma_bit_or(rk, q, o);
            crate::bitboard::lemma_bit_or(bs, q, o);
            crate::bitboard::lemma_bit_and(slider_lookup(b, false, o), !own, d);
            crate::bitboard::lemma_bit_and(slider_lookup(b, true, o), !own, d);
            crate::bitboard::lemma_bit_not(own, d);
            if bit_at(rk, o) {
                lemma_plain_reversible(b, m, Piece::Rook);
            } else if bit_at(bs, o) {
                lemma_plain_reversible(b, m, Piece::Bishop);
            } else {
                lemma_plain_reversible(b, m, Piece::Queen);
            }
        } else if m.kind() == 0 && knight_move(b, t, o, d) {
            crate::bitboard::lemma_bit_and(b.tables.knight_moves[o].0, !own, d);
            crate::bitboard::lemma_bit_not(own, d);
            lemma_plain_reversible(b, m, Piece::Knight);
        } else if m.kind() == 0 && king_move(b, t, o, d) {
            crate::bitboard::lemma_bit_and(b.tables.king_ring_moves[o].0, !own, d);
            crate::bitboard::lemma_bit_not(own, d);
            crate::bitboard::lemma_lowest_bit(pb[bb_index(Piece::King, t)].0);
            lemma_plain_reversible(b, m, Piece::King);
        } else if m.kind() == 0 || m.kind() == 3 {
            let pawns = pawns_of(pb, t);
            let empty = !occupied(pb);
            let enemy = enemy_cells(pb, t);
            let fw = pawn_forward(pb, t);
            let db = pawn_double(pb, t);
            let rt = pawn_right(pb, t);
            let lt = pawn_left(pb, t);
            let pr = promo_rank(t);
            let start = if t == WHITE { RANK_2 } else { RANK_7 };
            lemma_sides_disjoint(pb, t, d);
            crate::bitboard::lemma_bit_not(own | enemy, d);
            crate::bitboard::lemma_bit_or(own, enemy, d);
            crate::bitboard::lemma_bit_or(side_cells(pb, 0), side_cells(pb, 1), d);
            crate::bitboard::lemma_bit_not(occupied(pb), d);
            crate::bitboard::lemma_bit_and(fw, pr, d);
            crate::bitboard::lemma_bit_and(fw, !pr, d);
            crate::bitboard::lemma_bit_and(rt & enemy, pr, d);
            crate::bitboard::lemma_bit_and(rt & enemy, !pr, d);
            crate::bitboard::lemma_bit_and(lt & enemy, pr, d);
            crate::bitboard::lemma_bit_and(lt & enemy, !pr, d);
            crate::bitboard::lemma_bit_and(rt, enemy, d);
            crate::bitboard::lemma_bit_and(lt, enemy, d);
            crate::bitboard::lemma_bit_and(shift_spec(pawns, pawn_dir(t)), empty, d);
            crate::bitboard::lemma_bit_and(
                shift_spec(pawns & start, 2 * pawn_dir(t)) & empty,
                shift_spec(empty, pawn_dir(t)),
                d,
            );
            crate::bitboard::lemma_bit_and(shift_spec(pawns & start, 2 * pawn_dir(t)), empty, d);
            if bit_at(db, d) && o == d - 2 * pawn_dir(t) {
                lemma_shift_origin(pawns & start, 2 * pawn_dir(t), d);
                crate::bitboard::lemma_bit_and(pawns, start, o);
            } else if bit_at(fw, d) && o == d - pawn_dir(t) {
                lemma_shift_origin(pawns, pawn_dir(t), d);
            } else if bit_at(rt & enemy, d) && o == d - pawn_rdir(t) {
                lemma_shift_origin(pawns & NOT_H_FILE, pawn_rdir(t), d);
                crate::bitboard::lemma_bit_and(pawns, NOT_H_FILE, o);
            } else {
                lemma_shift_origin(pawns & NOT_A_FILE, pawn_ldir(t), d);
                crate::bitboard::lemma_bit_and(pawns, NOT_A_FILE, o);
            }
            lemma_plain_reversible(b, m, Piece::Pawn);
        } else {
            // En passant.
            let ep = b.en_passant.0;
            let l = pawn_left(pb, t) & ep;
            let r = pawn_right(pb, t) & ep;
            let pawns = pawns_of(pb, t);
            if l != 0 && d == u64_trailing_zeros(l) as int && o == d - pawn_ldir(t) {
                crate::bitboard::lemma_lowest_bit(l);
                crate::bitboard::lemma_bit_and(pawn_left(pb, t), ep, d);
                lemma_shift_origin(pawns & NOT_A_FILE, pawn_ldir(t), d);
                crate::bitboard::lemma_bit_and(pawns, NOT_A_FILE, o);
            } else {
                crate::bitboard::lemma_lowest_bit(r);
                crate::bitboard::lemma_bit_and(pawn_right(pb, t), ep, d);
                lemma_shift_origin(pawns & NOT_H_FILE, pawn_rdir(t), d);
                crate::bitboard::lemma_bit_and(pawns, NOT_H_FILE, o);
            }
            crate::bitboard::lemma_bit_zero(d);
            let e = choose|e: int|
                0 <= e < 64 && ep == #[trigger] single(e) && kind_at(pb, e) == Piece::NoPiece && 0
                    <= e + backward(t) < 64 && pb[bb_index(Piece::Pawn, !t)].has(e + backward(t));
            crate::bitboard::lemma_bit_single(e, d);
            lemma_origin_kind(pb, Piece::Pawn, t, o);
            let c = d + backward(t);
            if c == o {
                assert(pb[bb_index(Piece::Pawn, t)].has(o));
                assert(pb[bb_index(Piece::Pawn, !t)].has(o));
            }
            lemma_kind_at_none(pb, d);
            if o == d {
                assert(pb[bb_index(Piece::Pawn, t)].has(o));
            }
        }
    } else {
        let ks = choose|ks: bool|
            #[trigger] castle_allowed(b, t, ks) && m == Move::spec_from_raw(castle_code(t, ks));
        Move::lemma_from_raw(castle_code(t, ks));
        lemma_pack(king_start(t), castle_dest(t, ks), 0, 2);
        assert(b.castle_rights.right(right_index(t, ks)));
        lemma_origin_kind(pb, Piece::King, t, king_start(t));
        let path = castle_path(t, ks);
        let w = b.player_boards[0].0;
        let bl = b.player_boards[1].0;
        assert((0x60u64 >> 6u64) & 1u64 == 1u64 && (0x60u64 >> 5u64) & 1u64 == 1u64 && (0x0Eu64
            >> 2u64) & 1u64 == 1u64 && (0x0Eu64 >> 3u64) & 1u64 == 1u64 && (0x6000_0000_0000_0000u64
            >> 62u64) & 1u64 == 1u64 && (0x6000_0000_0000_0000u64 >> 61u64) & 1u64 == 1u64 && (
        0x0E00_0000_0000_0000u64 >> 58u64) & 1u64 == 1u64 && (0x0E00_0000_0000_0000u64 >> 59u64)
            & 1u64 == 1u64) by (bit_vector);
        let dc = castle_dest(t, ks);
        let lc = crate::make_move::rook_castled(t, ks);
        assert(bit_at(path, dc) && bit_at(path, lc));
        crate::bitboard::lemma_bit_and(path, b.empty_tiles.0, dc);
        crate::bitboard::lemma_bit_and(path, b.empty_tiles.0, lc);
        crate::bitboard::lemma_bit_not(w | bl, dc);
        crate::bitboard::lemma_bit_not(w | bl, lc);
        crate::bitboard::lemma_bit_or(w, bl, dc);
        crate::bitboard::lemma_bit_or(w, bl, lc);
        lemma_union_upto_member(pb, 0, 6, dc);
        lemma_union_upto_member(pb, 6, 6, dc);
        lemma_union_upto_member(pb, 0, 6, lc);
        lemma_union_upto_member(pb, 6, 6, lc);
        assert forall|j: int| 0 <= j < 12 implies !(#[trigger] pb[j]).has(dc) && !pb[j].has(lc) by {
            if j < 6 {
                assert(pb[0 + j] == pb[j]);
            } else {
                assert(pb[6 + (j - 6)] == pb[j]);
            }
        }
        crate::make_move::lemma_kind_at_empty_reads(pb, dc);
        crate::make_move::lemma_kind_at_empty_reads(pb, lc);
    }
}

/// Round trip for legal play: in a consistent position, applying any
/// pseudo-legal move (so in particular any move legal generation returns)
/// and taking it back restores the position exactly.
pub proof fn lemma_legal_round_trip(b: &Board, m: Move)
    requires
        b.wf(),
        consistent(b),
        is_pseudo_move(b, b.turn, m),
    ensures
        crate::make_move::undo_spec(apply_spec(b.view(), m)) == b.view(),
{
    lemma_pseudo_reversible(b, m);
    crate::make_move::lemma_apply_undo_round_trip(b.view(), m);
}

/// Own-occupancy exclusion: in a consistent position no pseudo-legal move
/// (so no move legal generation returns) ends on a piece of the mover.
pub proof fn lemma_own_occupancy_exclusion(b: &Board, m: Move)
    requires
        b.wf(),
        consistent(b),
        is_pseudo_move(b, b.turn, m),
    ensures
        !bit_at(side_cells(b.piece_boards@, side_index(b.turn)), m.dest()),
{
    let pb = b.piece_boards@;
    let t = b.turn;
    let d = m.dest();
    lemma_pseudo_reversible(b, m);
    lemma_union_upto_member(pb, 6 * side_index(t), 6, d);
    if bit_at(side_cells(pb, side_index(t)), d) {
        let j = choose|j: int| 0 <= j < 6 && #[trigger] pb[6 * side_index(t) + j].has(d);
        let k = 6 * side_index(t) + j;
        lemma_kind_at_disjoint(pb, d, k);
        let cap = kind_at(pb, d);
        assert(pb[bb_index(cap, !t)].has(d));
        assert(bb_index(cap, !t) != k);
    }
}

/// En passant in a consistent position: the destination is empty, an enemy
/// pawn stands one rank behind it; after the move that cell is empty, the
/// mover's pawn stands on the destination, and no other enemy piece is taken.
pub proof fn lemma_en_passant_legal(b: &Board, m: Move)
    requires
        b.wf(),
        consistent(b),
        is_pseudo_move(b, b.turn, m),
        m.kind() == 1,
    ensures
        ({
            let pb = b.piece_boards@;
            let t = b.turn;
            let d = m.dest();
            let c = d + backward(t);
            let after = apply_spec(b.view(), m).pieces;
            &&& kind_at(pb, d) == Piece::NoPiece
            &&& 0 <= c < 64
            &&& pb[bb_index(Piece::Pawn, !t)].has(c)
            &&& !after[bb_index(Piece::Pawn, !t)].has(c)
            &&& after[bb_index(Piece::Pawn, t)].has(d)
            &&& forall|k: int|
                6 * side_index(!t) <= k < 6 * side_index(!t) + 6 && k != bb_index(Piece::Pawn, !t)
                    ==> #[trigger] after[k] == pb[k]
        }),
{
    let pb = b.piece_boards@;
    let t = b.turn;
    let o = m.origin();
    let d = m.dest();
    let c = d + backward(t);
    lemma_mv(m);
    lemma_pseudo_reversible(b, m);
    crate::make_move::lemma_en_passant_capture_site(b.view(), m);
    let kp = bb_index(Piece::Pawn, !t);
    crate::bitboard::lemma_bit_and(pb[kp].0, !single(c), c);
    crate::bitboard::lemma_bit_not(single(c), c);
    crate::bitboard::lemma_bit_single(c, c);
    // The mover is a pawn (an en-passant move is a pawn capture).
    if !is_pseudo(b, t, m) {
        let ks = choose|ks: bool|
            #[trigger] castle_allowed(b, t, ks) && m == crate::chess_move::Move::spec_from_raw(castle_code(t, ks));
        Move::lemma_from_raw(castle_code(t, ks));
        lemma_pack(king_start(t), castle_dest(t, ks), 0, 2);
    }
    assert(crate::move_generation::pawn_en_passant(b, t, o, d));
    let l = pawn_left(pb, t) & b.en_passant.0;
    let r = pawn_right(pb, t) & b.en_passant.0;
    let pawns = pawns_of(pb, t);
    if l != 0 && d == u64_trailing_zeros(l) as int && o == d - pawn_ldir(t) {
        crate::bitboard::lemma_lowest_bit(l);
        crate::bitboard::lemma_bit_and(pawn_left(pb, t), b.en_passant.0, d);
        lemma_shift_origin(pawns & NOT_A_FILE, pawn_ldir(t), d);
        crate::bitboard::lemma_bit_and(pawns, NOT_A_FILE, o);
    } else {
        crate::bitboard::lemma_lowest_bit(r);
        crate::bitboard::lemma_bit_and(pawn_right(pb, t), b.en_passant.0, d);
        lemma_shift_origin(pawns & NOT_H_FILE, pawn_rdir(t), d);
        crate::bitboard::lemma_bit_and(pawns, NOT_H_FILE, o);
    }
    lemma_origin_kind(pb, Piece::Pawn, t, o);
    let kw = bb_index(Piece::Pawn, t);
    let a = apply_spec(b.view(), m).pieces;
    let p1 = crate::board::add_spec(crate::board::remove_spec(pb, t, Piece::Pawn, o), t, Piece::Pawn, d);
    assert(p1[kw].0 == (pb[kw].0 & !single(o)) | single(d));
    crate::bitboard::lemma_bit_or(pb[kw].0 & !single(o), single(d), d);
    crate::bitboard::lemma_bit_single(d, d);
    assert(kw != kp);
    assert(a[kw] == p1[kw]);
}

} // verus!
