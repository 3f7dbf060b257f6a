use vstd::prelude::*;
use crate::bitboard::Bitboard;
use crate::board::{Board, BoardState};
use crate::castle_rights::{CastleRights, Turn};
use crate::computed_boards::ComputedBoards;
use crate::chess_move::Move;
use crate::make_move::apply_spec;
use crate::move_generation::{pseudo_ok, in_check_spec, is_pseudo_move, sorted_codes, is_pseudo, slider_lookup, slider_move, knight_move, king_move, pawn_move, pawn_promotion, pawn_en_passant, castle_allowed, transit_move};

verus! {

proof fn lemma_upto_len(b: Board, n: nat)
    ensures
        legal_upto(b, n).len() <= n,
    decreases n,
{
    if n > 0 {
        lemma_upto_len(b, (n - 1) as nat);
    }
}

/// `m` is legal for the side to move on `b`: pseudo-legal, and the mover's
/// king is not attacked afterwards.
pub open spec fn legal(b: Board, m: Move) -> bool {
    is_pseudo_move(&b, b.turn, m) && !in_check_spec(apply_spec(b.view(), m), b.turn, *b.tables)
}

/// The move with code `c`.
pub open spec fn code_move(c: int) -> Move {
    Move::spec_from_raw(c as u16)
}

/// The legal moves with code below `n`, in increasing code order.
pub open spec fn legal_upto(b: Board, n: nat) -> Seq<Move>
    decreases n,
{
    if n == 0 {
        Seq::empty()
    } else {
        let p = legal_upto(b, (n - 1) as nat);
        if legal(b, code_move(n - 1)) {
            p.push(code_move(n - 1))
        } else {
            p
        }
    }
}

/// All legal moves of the side to move, in increasing code order.
pub open spec fn legal_list(b: Board) -> Seq<Move> {
    legal_upto(b, 0x10000)
}

proof fn lemma_legal_upto(b: Board, n: nat)
    requires
        n <= 0x10000,
    ensures
        sorted_codes(legal_upto(b, n)),
        forall|i: int| 0 <= i < legal_upto(b, n).len() ==> (#[trigger] legal_upto(b, n)[i]).raw() < n,
        forall|m: Move| #[trigger] legal_upto(b, n).contains(m) <==> (m.raw() < n && legal(b, m)),
    decreases n,
{
    if n > 0 {
        let k = (n - 1) as nat;
        lemma_legal_upto(b, k);
        let p = legal_upto(b, k);
        let x = code_move(k as int);
        Move::lemma_from_raw(k as u16);
        assert(x.raw() == k);
        assert forall|m: Move| #[trigger] legal_upto(b, n).contains(m) <==> (m.raw() < n && legal(b, m)) by {
            if m.raw() == k {
                Move::lemma_raw_injective(m, x);
            }
            if legal(b, x) {
                if legal_upto(b, n).contains(m) && m != x {
                    let i = choose|i: int| 0 <= i < p.push(x).len() && p.push(x)[i] == m;
                    assert(p[i] == m);
                }
                if p.contains(m) {
                    let i = choose|i: int| 0 <= i < p.len() && p[i] == m;
                    assert(p.push(x)[i] == m);
                }
                if m == x {
                    assert(p.push(x)[p.len() as int] == m);
                }
            }
        }
    }
}

/// Two code-sorted lists with the same moves are equal.
proof fn lemma_sorted_unique(l1: Seq<Move>, l2: Seq<Move>)
    requires
        sorted_codes(l1),
        sorted_codes(l2),
        forall|m: Move| l1.contains(m) <==> l2.contains(m),
    ensures
        l1 == l2,
    decreases l1.len(),
{
    if l1.len() == 0 {
        if l2.len() > 0 {
            assert(l2.contains(l2[0]));
        }
        assert(l1 =~= l2);
    } else {
        if l2.len() == 0 {
            assert(l1.contains(l1[0]));
        }
        let x1 = l1.last();
        let x2 = l2.last();
        assert(l1.contains(x1));
        assert(l2.contains(x2));
        let i1 = choose|i: int| 0 <= i < l1.len() && l1[i] == x2;
        let i2 = choose|i: int| 0 <= i < l2.len() && l2[i] == x1;
        if i1 < l1.len() - 1 {
            assert(l1[i1].raw() < l1[l1.len() - 1].raw());
        }
        if i2 < l2.len() - 1 {
            assert(l2[i2].raw() < l2[l2.len() - 1].raw());
        }
        Move::lemma_raw_injective(x1, x2);
        let d1 = l1.drop_last();
        let d2 = l2.drop_last();
        assert forall|m: Move| d1.contains(m) <==> d2.contains(m) by {
            if d1.contains(m) {
                let i = choose|i: int| 0 <= i < d1.len() && d1[i] == m;
                assert(l1[i].raw() < x1.raw());
                assert(l1.contains(m));
                let j = choose|j: int| 0 <= j < l2.len() && l2[j] == m;
                assert(j != l2.len() - 1);
                assert(d2[j] == m);
            }
            if d2.contains(m) {
                let i = choose|i: int| 0 <= i < d2.len() && d2[i] == m;
                assert(l2[i].raw() < x2.raw());
                assert(l2.contains(m));
                let j = choose|j: int| 0 <= j < l1.len() && l1[j] == m;
                assert(j != l1.len() - 1);
                assert(d1[j] == m);
            }
        }
        lemma_sorted_unique(d1, d2);
        assert(l1 =~= l2) by {
            assert(l1 == d1.push(x1));
            assert(l2 == d2.push(x2));
        }
    }
}

/// The list legal generation returns is `legal_list`.
pub proof fn lemma_generated_is_legal_list(b: Board, l: Seq<Move>)
    requires
        sorted_codes(l),
        forall|i: int|
            0 <= i < l.len() ==> is_pseudo_move(&b, b.turn, #[trigger] l[i]) && !in_check_spec(
                apply_spec(b.view(), l[i]),
                b.turn,
                *b.tables,
            ),
        forall|m: Move|
            #[trigger] is_pseudo_move(&b, b.turn, m) && !in_check_spec(
                apply_spec(b.view(), m),
                b.turn,
                *b.tables,
            ) ==> l.contains(m),
    ensures
        l == legal_list(b),
{
    lemma_legal_upto(b, 0x10000);
    let ll = legal_list(b);
    assert forall|m: Move| l.contains(m) <==> ll.contains(m) by {
        crate::chess_move::lemma_unpack(m.raw());
        if l.contains(m) {
            let i = choose|i: int| 0 <= i < l.len() && l[i] == m;
            assert(legal(b, l[i]));
        }
    }
    lemma_sorted_unique(l, ll);
}

/// What legality and the move tree depend on: piece sets, side to move,
/// en-passant target and castling rights.
pub struct PosKey {
    pub pieces: Seq<Bitboard>,
    pub turn: Turn,
    pub ep: u64,
    pub castle: CastleRights,
}

pub open spec fn key_of(b: Board) -> PosKey {
    PosKey { pieces: b.piece_boards@, turn: b.turn, ep: b.en_passant.0, castle: b.castle_rights }
}

pub open spec fn key_of_state(s: BoardState) -> PosKey {
    PosKey { pieces: s.pieces, turn: s.turn, ep: s.ep, castle: s.castle }
}

/// A state with key `k` (counters zero, empty history).
pub open spec fn state_of(k: PosKey) -> BoardState {
    BoardState {
        pieces: k.pieces,
        turn: k.turn,
        ep: k.ep,
        half: 0,
        full: 0,
        castle: k.castle,
        history: Seq::empty(),
    }
}

/// `m` is legal in the position `k` with tables `t`: legal on a
/// well-formed board with that key and those tables.
pub open spec fn legal_key(k: PosKey, t: ComputedBoards, m: Move) -> bool {
    exists|b: Board| b.wf() && #[trigger] key_of(b) == k && *b.tables == t && legal(b, m)
}

/// Legality depends on the key and tables alone.
proof fn lemma_legal_congruent(b1: Board, b2: Board, m: Move)
    requires
        b1.wf(),
        b2.wf(),
        key_of(b1) == key_of(b2),
        *b1.tables == *b2.tables,
    ensures
        legal(b1, m) == legal(b2, m),
{
    let t = b1.turn;
    let o = m.origin();
    let d = m.dest();
    assert(b1.piece_boards@ == b2.piece_boards@);
    assert(b1.empty_tiles == b2.empty_tiles);
    assert(b1.en_passant == b2.en_passant);
    assert(apply_spec(b1.view(), m).pieces == apply_spec(b2.view(), m).pieces);
    assert(apply_spec(b1.view(), m).ep == apply_spec(b2.view(), m).ep);
    assert(slider_lookup(&b1, true, o) == slider_lookup(&b2, true, o));
    assert(slider_lookup(&b1, false, o) == slider_lookup(&b2, false, o));
    assert(slider_move(&b1, t, o, d) == slider_move(&b2, t, o, d));
    assert(knight_move(&b1, t, o, d) == knight_move(&b2, t, o, d));
    assert(king_move(&b1, t, o, d) == king_move(&b2, t, o, d));
    assert(pawn_move(&b1, t, o, d) == pawn_move(&b2, t, o, d));
    assert(pawn_promotion(&b1, t, o, d) == pawn_promotion(&b2, t, o, d));
    assert(pawn_en_passant(&b1, t, o, d) == pawn_en_passant(&b2, t, o, d));
    assert(is_pseudo(&b1, t, m) == is_pseudo(&b2, t, m));
    assert forall|ks: bool| castle_allowed(&b1, t, ks) == castle_allowed(&b2, t, ks) by {
        let tm = transit_move(t, ks);
        assert(apply_spec(b1.view(), tm).pieces == apply_spec(b2.view(), tm).pieces);
        assert(apply_spec(b1.view(), tm).ep == apply_spec(b2.view(), tm).ep);
    }
    assert(is_pseudo_move(&b1, t, m) == is_pseudo_move(&b2, t, m));
}

/// On a well-formed board, `legal` is `legal_key` of its key.
proof fn lemma_legal_key(b: Board, m: Move)
    requires
        b.wf(),
    ensures
        legal(b, m) == legal_key(key_of(b), *b.tables, m),
{
    let t = *b.tables;
    if legal_key(key_of(b), t, m) {
        let b2 = choose|b2: Board| b2.wf() && #[trigger] key_of(b2) == key_of(b) && *b2.tables == t && legal(b2, m);
        lemma_legal_congruent(b, b2, m);
    }
}

/// The legal moves of `k` with code below `n`, in increasing code order.
pub open spec fn legal_key_upto(k: PosKey, t: ComputedBoards, n: nat) -> Seq<Move>
    decreases n,
{
    if n == 0 {
        Seq::empty()
    } else {
        let p = legal_key_upto(k, t, (n - 1) as nat);
        if legal_key(k, t, code_move(n - 1)) {
            p.push(code_move(n - 1))
        } else {
            p
        }
    }
}

proof fn lemma_key_upto(b: Board, n: nat)
    requires
        b.wf(),
    ensures
        legal_key_upto(key_of(b), *b.tables, n) == legal_upto(b, n),
    decreases n,
{
    if n > 0 {
        lemma_key_upto(b, (n - 1) as nat);
        lemma_legal_key(b, code_move(n - 1));
    }
}

/// `a + b`, or `u64::MAX` when the sum does not fit.
pub open spec fn sat_add(a: u64, b: u64) -> u64 {
    if a + b > u64::MAX {
        u64::MAX
    } else {
        (a + b) as u64
    }
}

/// Leaves of the legal move tree of depth `depth` below position `k`: 1 at
/// depth 0, else the saturating sum over the legal moves (in code order) of
/// the count one level down after the move.
pub open spec fn perft_spec(k: PosKey, t: ComputedBoards, depth: nat) -> u64
    decreases depth, 1nat, 0nat,
{
    if depth == 0 {
        1
    } else {
        let l = legal_key_upto(k, t, 0x10000);
        sum_children(k, t, (depth - 1) as nat, l, l.len())
    }
}

/// Saturating sum, over the first `n` moves of `l`, of the depth-`e` count
/// after each.
pub open spec fn sum_children(k: PosKey, t: ComputedBoards, e: nat, l: Seq<Move>, n: nat) -> u64
    decreases e + 1, 0nat, n,
{
    if n == 0 || n > l.len() {
        0
    } else {
        sat_add(
            sum_children(k, t, e, l, (n - 1) as nat),
            perft_spec(key_of_state(apply_spec(state_of(k), l[n - 1])), t, e),
        )
    }
}

proof fn lemma_sum_ones(k: PosKey, l: Seq<Move>, n: nat)
    requires
        n <= l.len(),
        n <= 0x10000,
    ensures
        forall|t: ComputedBoards| #[trigger] sum_children(k, t, 0, l, n) == n,
    decreases n,
{
    if n > 0 {
        lemma_sum_ones(k, l, (n - 1) as nat);
        assert forall|t: ComputedBoards| #[trigger] sum_children(k, t, 0, l, n) == n by {
            assert(sum_children(k, t, 0, l, (n - 1) as nat) == n - 1);
            assert(perft_spec(key_of_state(apply_spec(state_of(k), l[n - 1])), t, 0) == 1);
        }
    }
}

/// Number of leaves of the legal move tree of depth `depth` below `board`:
/// 1 at depth 0, else the sum over the legal moves of the count one level
/// down after the move (saturating at `u64::MAX`). Each move is played on a
/// copy, so `board` is untouched.
pub fn perft(board: &Board, depth: u32) -> (r: u64)
    requires
        board.wf(),
    ensures
        r == perft_spec(key_of(*board), *board.tables, depth as nat),
        depth == 1 ==> r == legal_list(*board).len(),
        depth > 0 && (forall|m: Move|
            !(#[trigger] is_pseudo_move(board, board.turn, m) && !in_check_spec(
                apply_spec(board.view(), m),
                board.turn,
                *board.tables,
            ))) ==> r == 0,
    decreases depth,
{
    if depth == 0 {
        return 1;
    }
    let moves = board.generate_moves(board.turn);
    proof {
        if moves@.len() > 0 {
            assert(is_pseudo_move(board, board.turn, moves@[0]));
        }
        lemma_generated_is_legal_list(*board, moves@);
        assert(moves@.len() <= 0x10000) by {
            lemma_legal_upto(*board, 0x10000);
            lemma_upto_len(*board, 0x10000);
        }
        lemma_key_upto(*board, 0x10000);
    }
    let ghost k = key_of(*board);
    let ghost l = moves@;
    if depth == 1 {
        // Each legal move is one leaf.
        proof {
            lemma_sum_ones(k, l, l.len());
            assert(legal_key_upto(k, *board.tables, 0x10000) == l);
            assert(sum_children(k, *board.tables, 0, l, l.len()) == l.len());
            assert(perft_spec(k, *board.tables, 1) == sum_children(k, *board.tables, 0, l, l.len()));
        }
        return moves.len() as u64;
    }
    let mut nodes: u64 = 0;
    let mut i: usize = 0;
    while i < moves.len()
        invariant
            board.wf(),
            i <= moves.len(),
            depth > 1,
            moves.len() == 0 ==> nodes == 0,
            k == key_of(*board),
            l == moves@,
            nodes == sum_children(k, *board.tables, (depth - 1) as nat, l, i as nat),
        decreases moves.len() - i,
    {
        let mut child = board.probe_copy();
        child.commit_verified_move(moves[i]);
        let sub = perft(&child, depth - 1);
        proof {
            assert(key_of(child) == key_of_state(apply_spec(state_of(k), l[i as int])));
        }
        nodes = nodes.saturating_add(sub);
        i += 1;
    }
    nodes
}

/// Per first move, the leaf count it leads to at `depth` (which must be at
/// least 1), in generation order.
pub fn perft_divide_counts(board: &Board, depth: u32) -> (r: Vec<(Move, u64)>)
    requires
        board.wf(),
        depth >= 1,
    ensures
        forall|i: int|
            0 <= i < r@.len() ==> pseudo_ok(board, board.turn, (#[trigger] r@[i]).0) && !in_check_spec(
                apply_spec(board.view(), r@[i].0),
                board.turn,
                *board.tables,
            ) && (depth == 1 ==> r@[i].1 == 1),
        forall|m: Move|
            #[trigger] is_pseudo_move(board, board.turn, m) && !in_check_spec(
                apply_spec(board.view(), m),
                board.turn,
                *board.tables,
            ) ==> exists|i: int| 0 <= i < r@.len() && r@[i].0 == m,
        r@.len() == legal_list(*board).len(),
        forall|i: int|
            0 <= i < r@.len() ==> (#[trigger] r@[i]).0 == legal_list(*board)[i] && r@[i].1
                == perft_spec(
                key_of_state(apply_spec(state_of(key_of(*board)), r@[i].0)),
                *board.tables,
                (depth - 1) as nat,
            ),
{
    let moves = board.generate_moves(board.turn);
    proof {
        lemma_generated_is_legal_list(*board, moves@);
    }
    let mut result: Vec<(Move, u64)> = Vec::new();
    let mut i: usize = 0;
    while i < moves.len()
        invariant
            board.wf(),
            i <= moves.len(),
            depth >= 1,
            forall|j: int|
                0 <= j < moves@.len() ==> pseudo_ok(board, board.turn, #[trigger] moves@[j])
                    && !in_check_spec(apply_spec(board.view(), moves@[j]), board.turn, *board.tables),
            forall|j: int|
                0 <= j < result@.len() ==> pseudo_ok(board, board.turn, (#[trigger] result@[j]).0)
                    && !in_check_spec(apply_spec(board.view(), result@[j].0), board.turn, *board.tables)
                    && (depth == 1 ==> result@[j].1 == 1),
            result@.len() == i,
            forall|j: int| 0 <= j < i ==> (#[trigger] result@[j]).0 == moves@[j],
            moves@ == legal_list(*board),
            forall|j: int|
                0 <= j < i ==> (#[trigger] result@[j]).1 == perft_spec(
                    key_of_state(apply_spec(state_of(key_of(*board)), result@[j].0)),
                    *board.tables,
                    (depth - 1) as nat,
                ),
            forall|m: Move|
                #[trigger] is_pseudo_move(board, board.turn, m) && !in_check_spec(
                    apply_spec(board.view(), m),
                    board.turn,
                    *board.tables,
                ) ==> moves@.contains(m),
        decreases moves.len() - i,
    {
        let mut child = board.probe_copy();
        child.commit_verified_move(moves[i]);
        let nodes = perft(&child, depth - 1);
        proof {
            assert(key_of(child) == key_of_state(apply_spec(state_of(key_of(*board)), moves@[i as int])));
        }
        result.push((moves[i], nodes));
        i += 1;
    }
    proof {
        assert forall|m: Move|
            #[trigger] is_pseudo_move(board, board.turn, m) && !in_check_spec(
                apply_spec(board.view(), m),
                board.turn,
                *board.tables,
            ) implies exists|i: int| 0 <= i < result@.len() && result@[i].0 == m by {
            let j = choose|j: int| 0 <= j < moves@.len() && moves@[j] == m;
            assert(result@[j].0 == m);
        }
    }
    result
}

} // verus!
