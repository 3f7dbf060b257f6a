use vstd::prelude::*;
use crate::bitboard::{Bitboard, bit_at, single, group_bits};
use crate::board::{Board, BoardState, union_upto, bb_index, side_index};
use crate::castle_rights::{Turn, WHITE};
use crate::chess_move::{Move, pack, lemma_pack, EN_PASSANT};
use crate::castle_rights::right_index;
use crate::computed_boards::{ComputedBoards, slide_word, lemma_slide_word, table_ok, rook_dirs, bishop_dirs, rook_deltas, bishop_deltas, get_sliding_moves};
use crate::make_move::apply_spec;
use crate::piece::Piece;
use crate::position::Position;
use vstd::std_specs::bits::u64_trailing_zeros;

verus! {

pub const NOT_A_FILE: u64 = 0xFEFEFEFEFEFEFEFE;

pub const NOT_H_FILE: u64 = 0x7F7F7F7F7F7F7F7F;

pub const RANK_1: u64 = 0x0000_0000_0000_00FF;

pub const RANK_2: u64 = 0x0000_0000_0000_FF00;

pub const RANK_7: u64 = 0x00FF_0000_0000_0000;

pub const RANK_8: u64 = 0xFF00_0000_0000_0000;

/// Cells that must be empty for each castle.
pub const W_KING_CASTLE_EMPTY: u64 = 0x60;

pub const W_QUEEN_CASTLE_EMPTY: u64 = 0x0E;

pub const B_KING_CASTLE_EMPTY: u64 = 0x6000_0000_0000_0000;

pub const B_QUEEN_CASTLE_EMPTY: u64 = 0x0E00_0000_0000_0000;

/// `b` moved by `d` cells: towards higher indices when `d` is positive.
pub open spec fn shift_spec(b: u64, d: int) -> u64 {
    if d >= 0 {
        if d >= 64 {
            0
        } else {
            b << (d as u64)
        }
    } else {
        if -d >= 64 {
            0
        } else {
            b >> ((-d) as u64)
        }
    }
}

/// Moves a set by `d` cells (a negative `d` moves towards lower indices).
pub fn shift(b: Bitboard, d: i8) -> (r: Bitboard)
    ensures
        r.0 == shift_spec(b.0, d as int),
{
    if d >= 0 {
        if d >= 64 {
            Bitboard(0)
        } else {
            Bitboard(b.0 << d as u64)
        }
    } else {
        let n: i16 = -(d as i16);
        if n >= 64 {
            Bitboard(0)
        } else {
            Bitboard(b.0 >> n as u64)
        }
    }
}

/// Union of `f(c)` over the members `c` of `b`, lowest first.
pub open spec fn union_over(b: u64, f: spec_fn(int) -> u64) -> u64
    decreases b,
    via union_over_decreases
{
    if b == 0 {
        0
    } else {
        f(u64_trailing_zeros(b) as int) | union_over(b & ((b - 1) as u64), f)
    }
}

#[via_fn]
proof fn union_over_decreases(b: u64, f: spec_fn(int) -> u64) {
    if b != 0 {
        assert(b & ((b - 1) as u64) < b) by (bit_vector)
            requires
                b != 0,
        ;
    }
}

pub proof fn lemma_or_assoc(a: u64, b: u64, c: u64)
    ensures
        (a | b) | c == a | (b | c),
        a | 0 == a,
        0 | a == a,
{
    assert((a | b) | c == a | (b | c) && a | 0 == a && 0 | a == a) by (bit_vector);
}

/// All cells of side `side` (0 White, 1 Black) in piece sets `pb`.
pub open spec fn side_cells(pb: Seq<Bitboard>, side: int) -> u64 {
    union_upto(pb, 6 * side, 6)
}

/// Occupied cells.
pub open spec fn occupied(pb: Seq<Bitboard>) -> u64 {
    side_cells(pb, 0) | side_cells(pb, 1)
}

/// Attack set of a rook on `o` for occupancy `occ`: the ray cast of the
/// occupied cells of its relevant-blocker mask.
pub open spec fn rook_lookup(t: ComputedBoards, o: int, occ: u64) -> u64 {
    slide_word(o, rook_dirs(), occ & t.rook_blockers[o].0)
}

/// Attack set of a bishop on `o` for occupancy `occ`.
pub open spec fn bishop_lookup(t: ComputedBoards, o: int, occ: u64) -> u64 {
    slide_word(o, bishop_dirs(), occ & t.bishop_blockers[o].0)
}

/// Pawn destinations of side `by`: pushes into empty cells, double pushes
/// from the start rank over an empty cell, diagonal captures of enemy pieces
/// and of the en-passant target.
pub open spec fn pawn_targets(pb: Seq<Bitboard>, ep: u64, by: Turn) -> u64 {
    let pawns = pb[bb_index(Piece::Pawn, by)].0;
    let empty = !occupied(pb);
    let enemy = side_cells(pb, 1 - side_index(by));
    let dir: int = if by == WHITE { 8 } else { -8 };
    let rdir: int = if by == WHITE { 9 } else { -7 };
    let ldir: int = if by == WHITE { 7 } else { -9 };
    let start = if by == WHITE { RANK_2 } else { RANK_7 };
    let forward = shift_spec(pawns, dir) & empty;
    let double = shift_spec(pawns & start, 2 * dir) & empty & shift_spec(empty, dir);
    let right = shift_spec(pawns & NOT_H_FILE, rdir);
    let left = shift_spec(pawns & NOT_A_FILE, ldir);
    forward | double | (right & enemy) | (left & enemy) | (right & ep) | (left & ep)
}

/// Union of the rook lookups from the members of `b`.
pub open spec fn rook_union(t: ComputedBoards, b: u64, occ: u64) -> u64 {
    union_over(b, |o: int| rook_lookup(t, o, occ))
}

/// Union of the bishop lookups from the members of `b`.
pub open spec fn bishop_union(t: ComputedBoards, b: u64, occ: u64) -> u64 {
    union_over(b, |o: int| bishop_lookup(t, o, occ))
}

/// Union of the knight jumps from the members of `b`.
pub open spec fn knight_union(t: ComputedBoards, b: u64) -> u64 {
    union_over(b, |o: int| t.knight_moves[o].0)
}

/// Every destination of a pseudo-legal move of side `by` other than a castle.
pub open spec fn attack_map_spec(pb: Seq<Bitboard>, ep: u64, by: Turn, t: ComputedBoards) -> u64 {
    let own = side_cells(pb, side_index(by));
    let occ = occupied(pb);
    let queens = pb[bb_index(Piece::Queen, by)].0;
    let rooks = pb[bb_index(Piece::Rook, by)].0 | queens;
    let bishops = pb[bb_index(Piece::Bishop, by)].0 | queens;
    let knights = pb[bb_index(Piece::Knight, by)].0;
    let king = pb[bb_index(Piece::King, by)].0;
    let sliders = rook_union(t, rooks, occ) | bishop_union(t, bishops, occ);
    let jumps = knight_union(t, knights) | (if king != 0 {
        t.king_ring_moves[u64_trailing_zeros(king) as int].0
    } else {
        0
    });
    ((sliders | jumps) & !own) | pawn_targets(pb, ep, by)
}

/// Whether the king of `side` stands on a destination of the other side.
pub open spec fn in_check_spec(s: BoardState, side: Turn, t: ComputedBoards) -> bool {
    let king = s.pieces[bb_index(Piece::King, side)].0;
    king != 0 && bit_at(attack_map_spec(s.pieces, s.ep, !side, t), u64_trailing_zeros(king) as int)
}

impl ComputedBoards {
    /// Rook attacks from `o`: a magic lookup into the checked table, or a
    /// direct ray cast when the table did not pass its check.
    pub fn rook_attacks_from(&self, o: usize, occ: u64) -> (r: u64)
        requires
            self.wf(),
            o < 64,
        ensures
            r == rook_lookup(*self, o as int, occ),
    {
        let c = occ & self.rook_blockers[o].0;
        let ghost m = self.rook_blockers@[o as int].0;
        proof {
            assert((occ & m) & !m == 0) by (bit_vector);
        }
        if self.rook_checked {
            let e = self.rook_magics[o];
            let i = e.magic_index(Bitboard(c));
            proof {
                assert(table_ok(self.rook_attacks@, self.rook_magics@[o as int], o as int, rook_dirs(), c));
            }
            if i < self.rook_attacks.len() && e.offset < self.rook_attacks.len() - i {
                return self.rook_attacks[e.offset + i].0;
            }
        }
        let moves = get_sliding_moves(&rook_deltas(), Position::new(o), Bitboard(c));
        proof {
            assert forall|t: int| 0 <= t < 64 implies #[trigger] bit_at(moves.0, t) == crate::computed_boards::slide_attack(o as int, rook_dirs(), c, t) by {
                assert(moves.has(t) == crate::computed_boards::slide_attack(o as int, rook_dirs(), c, t));
            }
            lemma_slide_word(moves.0, o as int, rook_dirs(), c);
        }
        moves.0
    }

    /// Bishop attacks from `o` (see `rook_attacks_from`).
    pub fn bishop_attacks_from(&self, o: usize, occ: u64) -> (r: u64)
        requires
            self.wf(),
            o < 64,
        ensures
            r == bishop_lookup(*self, o as int, occ),
    {
        let c = occ & self.bishop_blockers[o].0;
        let ghost m = self.bishop_blockers@[o as int].0;
        proof {
            assert((occ & m) & !m == 0) by (bit_vector);
        }
        if self.bishop_checked {
            let e = self.bishop_magics[o];
            let i = e.magic_index(Bitboard(c));
            proof {
                assert(table_ok(self.bishop_attacks@, self.bishop_magics@[o as int], o as int, bishop_dirs(), c));
            }
            if i < self.bishop_attacks.len() && e.offset < self.bishop_attacks.len() - i {
                return self.bishop_attacks[e.offset + i].0;
            }
        }
        let moves = get_sliding_moves(&bishop_deltas(), Position::new(o), Bitboard(c));
        proof {
            assert forall|t: int| 0 <= t < 64 implies #[trigger] bit_at(moves.0, t) == crate::computed_boards::slide_attack(o as int, bishop_dirs(), c, t) by {
                assert(moves.has(t) == crate::computed_boards::slide_attack(o as int, bishop_dirs(), c, t));
            }
            lemma_slide_word(moves.0, o as int, bishop_dirs(), c);
        }
        moves.0
    }
}

/// Whether a move of `turn` may end on `d`: not on its own pieces, unless
/// the cell also holds an enemy piece or is the en-passant target.
pub open spec fn dest_allowed(pb: Seq<Bitboard>, ep: u64, turn: Turn, d: int) -> bool {
    !bit_at(side_cells(pb, side_index(turn)), d) || bit_at(side_cells(pb, 1 - side_index(turn)), d)
        || bit_at(ep, d)
}

/// Moves `new` extend `old`.
pub open spec fn extends(new: Seq<Move>, old: Seq<Move>) -> bool {
    new.len() >= old.len() && new.subrange(0, old.len() as int) == old
}

/// One step of a walk over the members of `cur`: the lowest member is taken out.
pub proof fn lemma_union_step(cur: u64, f: spec_fn(int) -> u64, acc: u64)
    requires
        cur != 0,
    ensures
        acc | union_over(cur, f) == (acc | f(u64_trailing_zeros(cur) as int)) | union_over(
            cur & ((cur - 1) as u64),
            f,
        ),
        (u64_trailing_zeros(cur) as int) < 64,
        cur & ((cur - 1) as u64) < cur,
{
    broadcast use vstd::std_specs::bits::axiom_u64_trailing_zeros;

    lemma_or_assoc(acc, f(u64_trailing_zeros(cur) as int), union_over(cur & ((cur - 1) as u64), f));
    assert(cur & ((cur - 1) as u64) < cur) by (bit_vector)
        requires
            cur != 0,
    ;
}

impl Board {
    fn rook_union_exec(&self, b: u64, occ: u64) -> (r: u64)
        requires
            self.tables.wf(),
        ensures
            r == rook_union(*self.tables, b, occ),
    {
        let mut cur = b;
        let mut acc: u64 = 0;
        proof {
            lemma_or_assoc(union_over(b, |o: int| rook_lookup(*self.tables, o, occ)), 0, 0);
        }
        while cur != 0
            invariant
                self.tables.wf(),
                acc | union_over(cur, |o: int| rook_lookup(*self.tables, o, occ)) == union_over(
                    b,
                    |o: int| rook_lookup(*self.tables, o, occ),
                ),
            decreases cur,
        {
            proof {
                lemma_union_step(cur, |o: int| rook_lookup(*self.tables, o, occ), acc);
            }
            let t = cur.trailing_zeros() as usize;
            let a = self.tables.rook_attacks_from(t, occ);
            acc = acc | a;
            cur = cur & (cur - 1);
        }
        proof {
            lemma_or_assoc(acc, 0, 0);
        }
        acc
    }

    fn bishop_union_exec(&self, b: u64, occ: u64) -> (r: u64)
        requires
            self.tables.wf(),
        ensures
            r == bishop_union(*self.tables, b, occ),
    {
        let mut cur = b;
        let mut acc: u64 = 0;
        proof {
            lemma_or_assoc(union_over(b, |o: int| bishop_lookup(*self.tables, o, occ)), 0, 0);
        }
        while cur != 0
            invariant
                self.tables.wf(),
                acc | union_over(cur, |o: int| bishop_lookup(*self.tables, o, occ)) == union_over(
                    b,
                    |o: int| bishop_lookup(*self.tables, o, occ),
                ),
            decreases cur,
        {
            proof {
                lemma_union_step(cur, |o: int| bishop_lookup(*self.tables, o, occ), acc);
            }
            let t = cur.trailing_zeros() as usize;
            let a = self.tables.bishop_attacks_from(t, occ);
            acc = acc | a;
            cur = cur & (cur - 1);
        }
        proof {
            lemma_or_assoc(acc, 0, 0);
        }
        acc
    }

    fn knight_union_exec(&self, b: u64) -> (r: u64)
        requires
            self.tables.wf(),
        ensures
            r == knight_union(*self.tables, b),
    {
        let mut cur = b;
        let mut acc: u64 = 0;
        proof {
            lemma_or_assoc(union_over(b, |o: int| self.tables.knight_moves[o].0), 0, 0);
        }
        while cur != 0
            invariant
                self.tables.wf(),
                acc | union_over(cur, |o: int| self.tables.knight_moves[o].0) == union_over(
                    b,
                    |o: int| self.tables.knight_moves[o].0,
                ),
            decreases cur,
        {
            proof {
                lemma_union_step(cur, |o: int| self.tables.knight_moves[o].0, acc);
            }
            let t = cur.trailing_zeros() as usize;
            let a = self.tables.knight_moves[t].0;
            acc = acc | a;
            cur = cur & (cur - 1);
        }
        proof {
            lemma_or_assoc(acc, 0, 0);
        }
        acc
    }

    /// Every destination of a pseudo-legal move of side `by` other than a
    /// castle: sliding lookups, knight jumps and king steps outside `by`'s
    /// own pieces, plus pawn pushes and captures.
    pub fn attack_map(&self, by: Turn) -> (r: Bitboard)
        requires
            self.wf(),
        ensures
            r.0 == attack_map_spec(self.piece_boards@, self.en_passant.0, by, *self.tables),
    {
        broadcast use vstd::std_specs::bits::axiom_u64_trailing_zeros;

        let own = self.player_boards[if by { 1 } else { 0 }].0;
        let occ = !self.empty_tiles.0;
        proof {
            let w = self.player_boards[0].0;
            let b = self.player_boards[1].0;
            assert(!(!(w | b)) == w | b) by (bit_vector);
        }
        let queens = self.get_piece_bitboard(Piece::Queen, by).0;
        let rooks = self.get_piece_bitboard(Piece::Rook, by).0 | queens;
        let bishops = self.get_piece_bitboard(Piece::Bishop, by).0 | queens;
        let knights = self.get_piece_bitboard(Piece::Knight, by).0;
        let king = self.get_piece_bitboard(Piece::King, by);
        let sliders = self.rook_union_exec(rooks, occ) | self.bishop_union_exec(bishops, occ);
        let king_ring: u64 = if king.0 != 0 {
            self.tables.king_ring_moves[king.trailing_zeros()].0
        } else {
            0
        };
        let jumps = self.knight_union_exec(knights) | king_ring;
        let pawns = self.pawn_targets_exec(by);
        Bitboard(((sliders | jumps) & !own) | pawns)
    }

    fn pawn_targets_exec(&self, by: Turn) -> (r: u64)
        requires
            self.wf(),
        ensures
            r == pawn_targets(self.piece_boards@, self.en_passant.0, by),
    {
        let pawns = self.get_piece_bitboard(Piece::Pawn, by);
        let empty = self.empty_tiles;
        let enemy = self.player_boards[if by { 0 } else { 1 }].0;
        let dir: i8 = if by == WHITE { 8 } else { -8 };
        let rdir: i8 = if by == WHITE { 9 } else { -7 };
        let ldir: i8 = if by == WHITE { 7 } else { -9 };
        let start: u64 = if by == WHITE { RANK_2 } else { RANK_7 };
        let forward = shift(pawns, dir).0 & empty.0;
        let double = shift(Bitboard(pawns.0 & start), 2 * dir).0 & empty.0 & shift(empty, dir).0;
        let right = shift(Bitboard(pawns.0 & NOT_H_FILE), rdir).0;
        let left = shift(Bitboard(pawns.0 & NOT_A_FILE), ldir).0;
        let ep = self.en_passant.0;
        forward | double | (right & enemy) | (left & enemy) | (right & ep) | (left & ep)
    }

    /// Whether `tile` is a destination of a pseudo-legal non-castle move of
    /// `attacking_player`.
    pub fn tile_under_attack(&self, tile: Position, attacking_player: Turn) -> (r: bool)
        requires
            self.wf(),
        ensures
            r == bit_at(
                attack_map_spec(
                    self.piece_boards@,
                    self.en_passant.0,
                    attacking_player,
                    *self.tables,
                ),
                tile.idx(),
            ),
    {
        self.attack_map(attacking_player).is_square_set(tile.as_usize())
    }

    /// Whether the king of `turn` is attacked; a side without a king is never in check.
    pub fn in_check(&self, turn: Turn) -> (r: bool)
        requires
            self.wf(),
        ensures
            r == in_check_spec(self.view(), turn, *self.tables),
    {
        broadcast use vstd::std_specs::bits::axiom_u64_trailing_zeros;

        let king_board = self.get_piece_bitboard(Piece::King, turn);
        if king_board.is_empty() {
            return false;
        }
        let king_pos = Position::new(king_board.trailing_zeros());
        self.tile_under_attack(king_pos, !turn)
    }

    /// A copy for probing a hypothetical move: same position and tables,
    /// empty history (a probe is never taken back).
    pub fn probe_copy(&self) -> (r: Board)
        requires
            self.wf(),
        ensures
            r.wf(),
            r.view() == (BoardState { history: Seq::empty(), ..self.view() }),
            *r.tables == *self.tables,
    {
        let r = Board {
            piece_boards: self.piece_boards,
            player_boards: self.player_boards,
            empty_tiles: self.empty_tiles,
            turn: self.turn,
            en_passant: self.en_passant,
            halfmove_count: self.halfmove_count,
            fullmove_count: self.fullmove_count,
            castle_rights: self.castle_rights,
            zobrist_key: self.zobrist_key,
            history: Vec::new(),
            tables: crate::board::share_tables(&self.tables),
        };
        proof {
            assert(r.history@ =~= Seq::<crate::game_state::StateDelta>::empty());
        }
        r
    }

    /// Whether playing `move_` would leave the mover's own king attacked;
    /// decided on a copy, so the board itself is untouched.
    pub fn would_check(&self, move_: Move) -> (r: bool)
        requires
            self.wf(),
        ensures
            r == in_check_spec(apply_spec(self.view(), move_), self.turn, *self.tables),
    {
        let mut probe = self.probe_copy();
        let mover = self.turn;
        probe.commit_verified_move(move_);
        probe.in_check(mover)
    }
}

/// The move with the given fields.
pub open spec fn mv(o: int, d: int, promo: int, kind: int) -> Move {
    Move::spec_from_raw(pack(o, d, promo, kind))
}

/// Every move is the move of its own fields.
pub proof fn lemma_mv(m: Move)
    ensures
        m == mv(m.origin(), m.dest(), m.promo(), m.kind()),
        0 <= m.origin() < 64,
        0 <= m.dest() < 64,
        0 <= m.promo() < 4,
        0 <= m.kind() < 4,
{
    crate::chess_move::lemma_unpack(m.raw());
    Move::lemma_from_raw(m.raw());
    Move::lemma_raw_injective(m, Move::spec_from_raw(m.raw()));
}

/// A move built with code `pack(o, d, p, k)` is `mv(o, d, p, k)`.
proof fn lemma_mv_of(m: Move, o: int, d: int, p: int, k: int)
    requires
        m.raw() == pack(o, d, p, k),
    ensures
        m == mv(o, d, p, k),
{
    Move::lemma_from_raw(pack(o, d, p, k));
    Move::lemma_raw_injective(m, mv(o, d, p, k));
}

/// Pushing keeps what was there.
proof fn lemma_push_contains(s: Seq<Move>, x: Move, y: Move)
    requires
        s.contains(y),
    ensures
        s.push(x).contains(y),
{
    let i = choose|i: int| 0 <= i < s.len() && s[i] == y;
    assert(s.push(x)[i] == y);
}

/// Extending keeps what was there.
proof fn lemma_extends_contains(old_moves: Seq<Move>, new_moves: Seq<Move>, y: Move)
    requires
        extends(new_moves, old_moves),
        old_moves.contains(y),
    ensures
        new_moves.contains(y),
{
    let i = choose|i: int| 0 <= i < old_moves.len() && old_moves[i] == y;
    assert(new_moves[i] == new_moves.subrange(0, old_moves.len() as int)[i]);
}

/// One move per member of `bit_board`, from `origin`.
fn extract_moves(bit_board: Bitboard, origin: usize, moves: &mut Vec<Move>)
    requires
        origin < 64,
    ensures
        extends(final(moves)@, old(moves)@),
        forall|i: int|
            old(moves)@.len() <= i < final(moves)@.len() ==> bit_at(bit_board.0, (
            #[trigger] final(moves)@[i]).dest()) && final(moves)@[i].origin() == origin
                && final(moves)@[i].kind() == 0 && final(moves)@[i].promo() == 0,
        forall|d: int|
            #[trigger] bit_at(bit_board.0, d) ==> final(moves)@.contains(mv(origin as int, d, 0, 0)),
{
    let mut bb = bit_board;
    let ghost start = moves@;
    proof {
        assert(moves@.subrange(0, start.len() as int) =~= start);
    }
    while bb.0 != 0
        invariant
            origin < 64,
            extends(moves@, start),
            forall|d: int| bit_at(bb.0, d) ==> bit_at(bit_board.0, d),
            forall|i: int|
                start.len() <= i < moves@.len() ==> bit_at(bit_board.0, (
                #[trigger] moves@[i]).dest()) && moves@[i].origin() == origin && moves@[i].kind()
                    == 0 && moves@[i].promo() == 0,
            forall|d: int|
                #[trigger] bit_at(bit_board.0, d) && !bit_at(bb.0, d) ==> moves@.contains(
                    mv(origin as int, d, 0, 0),
                ),
        decreases bb.0,
    {
        proof {
            crate::bitboard::lemma_lowest_bit(bb.0);
            lemma_union_step(bb.0, |o: int| 0u64, 0);
        }
        let ghost old_bb = bb.0;
        let ghost old_moves = moves@;
        let dest = bb.trailing_zeros();
        let m = Move::new_default(Position::new(origin), Position::new(dest));
        proof {
            lemma_pack(origin as int, dest as int, 0, 0);
            lemma_mv_of(m, origin as int, dest as int, 0, 0);
        }
        moves.push(m);
        bb = Bitboard(bb.0 & (bb.0 - 1));
        proof {
            broadcast use group_bits;

            assert(moves@.subrange(0, start.len() as int) =~= start);
            assert(moves@[moves@.len() - 1] == m);
            assert forall|d: int|
                #[trigger] bit_at(bit_board.0, d) && !bit_at(bb.0, d) implies moves@.contains(
                mv(origin as int, d, 0, 0),
            ) by {
                crate::bitboard::lemma_bit_and(old_bb, !single(dest as int), d);
                crate::bitboard::lemma_bit_not(single(dest as int), d);
                crate::bitboard::lemma_bit_single(dest as int, d);
                if d != dest {
                    lemma_push_contains(old_moves, m, mv(origin as int, d, 0, 0));
                }
            }
        }
    }
    proof {
        assert forall|d: int| #[trigger] bit_at(bit_board.0, d) implies moves@.contains(
            mv(origin as int, d, 0, 0),
        ) by {
            crate::bitboard::lemma_bit_zero(d);
        }
    }
}

/// One pawn move per member of `bit_board`, from `shift` cells behind it.
fn extract_pawn_moves(bit_board: Bitboard, shift: i8, moves: &mut Vec<Move>)
    ensures
        extends(final(moves)@, old(moves)@),
        forall|i: int|
            old(moves)@.len() <= i < final(moves)@.len() ==> bit_at(bit_board.0, (
            #[trigger] final(moves)@[i]).dest()) && final(moves)@[i].origin()
                == final(moves)@[i].dest() - shift && final(moves)@[i].kind() == 0
                && final(moves)@[i].promo() == 0,
        forall|d: int|
            #[trigger] bit_at(bit_board.0, d) && 0 <= d - shift < 64 ==> final(moves)@.contains(
                mv(d - shift, d, 0, 0),
            ),
{
    let mut bb = bit_board;
    let ghost start = moves@;
    proof {
        assert(moves@.subrange(0, start.len() as int) =~= start);
    }
    while bb.0 != 0
        invariant
            extends(moves@, start),
            forall|d: int| bit_at(bb.0, d) ==> bit_at(bit_board.0, d),
            forall|i: int|
                start.len() <= i < moves@.len() ==> bit_at(bit_board.0, (
                #[trigger] moves@[i]).dest()) && moves@[i].origin() == moves@[i].dest() - shift
                    && moves@[i].kind() == 0 && moves@[i].promo() == 0,
            forall|d: int|
                #[trigger] bit_at(bit_board.0, d) && !bit_at(bb.0, d) && 0 <= d - shift < 64
                    ==> moves@.contains(mv(d - shift, d, 0, 0)),
        decreases bb.0,
    {
        let ghost old_bb = bb.0;
        let ghost old_moves = moves@;
        proof {
            crate::bitboard::lemma_lowest_bit(bb.0);
            lemma_union_step(bb.0, |o: int| 0u64, 0);
        }
        let dest = bb.trailing_zeros();
        let origin = dest as i16 - shift as i16;
        if 0 <= origin && origin < 64 {
            let m = Move::new_default(Position::new(origin as usize), Position::new(dest));
            proof {
                lemma_pack(origin as int, dest as int, 0, 0);
                lemma_mv_of(m, origin as int, dest as int, 0, 0);
            }
            moves.push(m);
            proof {
                assert(moves@[moves@.len() - 1] == m);
            }
        }
        bb = Bitboard(bb.0 & (bb.0 - 1));
        proof {
            broadcast use group_bits;

            assert(moves@.subrange(0, start.len() as int) =~= start);
            assert forall|d: int|
                #[trigger] bit_at(bit_board.0, d) && !bit_at(bb.0, d) && 0 <= d - shift < 64
                    implies moves@.contains(mv(d - shift, d, 0, 0)) by {
                crate::bitboard::lemma_bit_and(old_bb, !single(dest as int), d);
                crate::bitboard::lemma_bit_not(single(dest as int), d);
                crate::bitboard::lemma_bit_single(dest as int, d);
                if d != dest {
                    if moves@.len() > old_moves.len() {
                        lemma_push_contains(old_moves, moves@[moves@.len() - 1], mv(d - shift, d, 0, 0));
                        assert(moves@ == old_moves.push(moves@[moves@.len() - 1]));
                    }
                }
            }
        }
    }
    proof {
        assert forall|d: int|
            #[trigger] bit_at(bit_board.0, d) && 0 <= d - shift < 64 implies moves@.contains(
            mv(d - shift, d, 0, 0),
        ) by {
            crate::bitboard::lemma_bit_zero(d);
        }
    }
}

/// The four promotions per member of `bit_board`, from `shift` cells behind it.
fn extract_promotions(bit_board: Bitboard, shift: i8, moves: &mut Vec<Move>)
    ensures
        extends(final(moves)@, old(moves)@),
        forall|i: int|
            old(moves)@.len() <= i < final(moves)@.len() ==> bit_at(bit_board.0, (
            #[trigger] final(moves)@[i]).dest()) && final(moves)@[i].origin()
                == final(moves)@[i].dest() - shift && final(moves)@[i].kind() == 3,
        forall|d: int, p: int|
            #[trigger] bit_at(bit_board.0, d) && 0 <= d - shift < 64 && 0 <= p < 4
                ==> final(moves)@.contains(#[trigger] mv(d - shift, d, p, 3)),
{
    let mut bb = bit_board;
    let ghost start = moves@;
    proof {
        assert(moves@.subrange(0, start.len() as int) =~= start);
    }
    while bb.0 != 0
        invariant
            extends(moves@, start),
            forall|d: int| bit_at(bb.0, d) ==> bit_at(bit_board.0, d),
            forall|i: int|
                start.len() <= i < moves@.len() ==> bit_at(bit_board.0, (
                #[trigger] moves@[i]).dest()) && moves@[i].origin() == moves@[i].dest() - shift
                    && moves@[i].kind() == 3,
            forall|d: int, p: int|
                #[trigger] bit_at(bit_board.0, d) && !bit_at(bb.0, d) && 0 <= d - shift < 64 && 0
                    <= p < 4 ==> moves@.contains(#[trigger] mv(d - shift, d, p, 3)),
        decreases bb.0,
    {
        let ghost old_bb = bb.0;
        let ghost old_moves = moves@;
        proof {
            crate::bitboard::lemma_lowest_bit(bb.0);
            lemma_union_step(bb.0, |o: int| 0u64, 0);
        }
        let dest = bb.trailing_zeros();
        let origin = dest as i16 - shift as i16;
        if 0 <= origin && origin < 64 {
            let ms = Move::new_promote(Position::new(origin as usize), Position::new(dest));
            proof {
                lemma_pack(origin as int, dest as int, 1, 3);
                lemma_pack(origin as int, dest as int, 2, 3);
                lemma_pack(origin as int, dest as int, 3, 3);
                lemma_pack(origin as int, dest as int, 0, 3);
            }
            proof {
                lemma_mv_of(ms[0], origin as int, dest as int, 1, 3);
                lemma_mv_of(ms[1], origin as int, dest as int, 2, 3);
                lemma_mv_of(ms[2], origin as int, dest as int, 3, 3);
                lemma_mv_of(ms[3], origin as int, dest as int, 0, 3);
            }
            moves.push(ms[0]);
            moves.push(ms[1]);
            moves.push(ms[2]);
            moves.push(ms[3]);
            proof {
                let n = old_moves.len() as int;
                assert(moves@ == old_moves.push(ms[0]).push(ms[1]).push(ms[2]).push(ms[3]));
                assert(moves@[n] == ms[0] && moves@[n + 1] == ms[1] && moves@[n + 2] == ms[2]
                    && moves@[n + 3] == ms[3]);
            }
        }
        bb = Bitboard(bb.0 & (bb.0 - 1));
        proof {
            broadcast use group_bits;

            assert(moves@.subrange(0, start.len() as int) =~= start);
            assert forall|d: int, p: int|
                #[trigger] bit_at(bit_board.0, d) && !bit_at(bb.0, d) && 0 <= d - shift < 64 && 0
                    <= p < 4 implies moves@.contains(#[trigger] mv(d - shift, d, p, 3)) by {
                crate::bitboard::lemma_bit_and(old_bb, !single(dest as int), d);
                crate::bitboard::lemma_bit_not(single(dest as int), d);
                crate::bitboard::lemma_bit_single(dest as int, d);
                let n = old_moves.len() as int;
                if d != dest {
                    let y = mv(d - shift, d, p, 3);
                    let i = choose|i: int| 0 <= i < old_moves.len() && old_moves[i] == y;
                    assert(moves@.subrange(0, start.len() as int) == start);
                    if moves@.len() > old_moves.len() {
                        assert(moves@[i] == y);
                    } else {
                        assert(moves@ == old_moves);
                    }
                } else {
                    if p == 1 {
                        assert(moves@[n] == mv(d - shift, d, p, 3));
                    } else if p == 2 {
                        assert(moves@[n + 1] == mv(d - shift, d, p, 3));
                    } else if p == 3 {
                        assert(moves@[n + 2] == mv(d - shift, d, p, 3));
                    } else {
                        assert(moves@[n + 3] == mv(d - shift, d, p, 3));
                    }
                }
            }
        }
    }
    proof {
        assert forall|d: int, p: int|
            #[trigger] bit_at(bit_board.0, d) && 0 <= d - shift < 64 && 0 <= p < 4 implies moves@.contains(
            #[trigger] mv(d - shift, d, p, 3),
        ) by {
            crate::bitboard::lemma_bit_zero(d);
        }
    }
}

/// Every move from index `from` on may end where it ends and is no castle.
pub open spec fn seg_ok(moves: Seq<Move>, from: int, pb: Seq<Bitboard>, ep: u64, turn: Turn) -> bool {
    forall|i: int|
        from <= i < moves.len() ==> dest_allowed(pb, ep, turn, (#[trigger] moves[i]).dest())
            && moves[i].kind() != 2
}

/// Pawn moves (or promotions) onto the members of `bb`, which must all be
/// allowed destinations.
fn extract_allowed(
    board: &Board,
    turn: Turn,
    bb: Bitboard,
    shift: i8,
    promote: bool,
    moves: &mut Vec<Move>,
    Ghost(from): Ghost<int>,
)
    requires
        board.wf(),
        0 <= from <= old(moves)@.len(),
        seg_ok(old(moves)@, from, board.piece_boards@, board.en_passant.0, turn),
        forall|d: int|
            #[trigger] bit_at(bb.0, d) ==> dest_allowed(
                board.piece_boards@,
                board.en_passant.0,
                turn,
                d,
            ),
    ensures
        seg_ok(final(moves)@, from, board.piece_boards@, board.en_passant.0, turn),
        extends(final(moves)@, old(moves)@),
        !promote ==> forall|d: int|
            #[trigger] bit_at(bb.0, d) && 0 <= d - shift < 64 ==> final(moves)@.contains(
                mv(d - shift, d, 0, 0),
            ),
        promote ==> forall|d: int, p: int|
            #[trigger] bit_at(bb.0, d) && 0 <= d - shift < 64 && 0 <= p < 4
                ==> final(moves)@.contains(#[trigger] mv(d - shift, d, p, 3)),
        forall|i: int|
            old(moves)@.len() <= i < final(moves)@.len() ==> bit_at(bb.0, (
            #[trigger] final(moves)@[i]).dest()) && final(moves)@[i].origin()
                == final(moves)@[i].dest() - shift && (if promote {
                final(moves)@[i].kind() == 3
            } else {
                final(moves)@[i].kind() == 0 && final(moves)@[i].promo() == 0
            }),
{
    if promote {
        extract_promotions(bb, shift, moves);
    } else {
        extract_pawn_moves(bb, shift, moves);
    }
    proof {
        assert forall|i: int| from <= i < moves@.len() implies dest_allowed(
            board.piece_boards@,
            board.en_passant.0,
            turn,
            (#[trigger] moves@[i]).dest(),
        ) && moves@[i].kind() != 2 by {
            if i < old(moves)@.len() {
                assert(moves@[i] == moves@.subrange(0, old(moves)@.len() as int)[i]);
            }
        }
    }
}

/// Cells of the pieces of `turn`.
pub open spec fn own_cells(b: &Board, turn: Turn) -> u64 {
    side_cells(b.piece_boards@, side_index(turn))
}

/// Cells of `turn`'s rooks and queens (`bishop` false) or bishops and queens.
pub open spec fn slider_origins(b: &Board, turn: Turn, bishop: bool) -> u64 {
    b.piece_boards@[bb_index(if bishop { Piece::Bishop } else { Piece::Rook }, turn)].0
        | b.piece_boards@[bb_index(Piece::Queen, turn)].0
}

/// Rook (or bishop) attacks from `o` on the current occupancy.
pub open spec fn slider_lookup(b: &Board, bishop: bool, o: int) -> u64 {
    if bishop {
        bishop_lookup(*b.tables, o, occupied(b.piece_boards@))
    } else {
        rook_lookup(*b.tables, o, occupied(b.piece_boards@))
    }
}

/// A rook, bishop or queen move of `turn` from `o` to `d`.
pub open spec fn slider_move(b: &Board, turn: Turn, o: int, d: int) -> bool {
    ||| bit_at(slider_origins(b, turn, false), o) && bit_at(
        slider_lookup(b, false, o) & !own_cells(b, turn),
        d,
    )
    ||| bit_at(slider_origins(b, turn, true), o) && bit_at(
        slider_lookup(b, true, o) & !own_cells(b, turn),
        d,
    )
}

/// A knight move of `turn` from `o` to `d`.
pub open spec fn knight_move(b: &Board, turn: Turn, o: int, d: int) -> bool {
    bit_at(b.piece_boards@[bb_index(Piece::Knight, turn)].0, o) && bit_at(
        b.tables.knight_moves[o].0 & !own_cells(b, turn),
        d,
    )
}

/// A king step of `turn` from its (lowest) king on `o` to `d`.
pub open spec fn king_move(b: &Board, turn: Turn, o: int, d: int) -> bool {
    let k = b.piece_boards@[bb_index(Piece::King, turn)].0;
    k != 0 && o == u64_trailing_zeros(k) as int && bit_at(
        b.tables.king_ring_moves[o].0 & !own_cells(b, turn),
        d,
    )
}

/// Every move from index `from` on is pseudo-legal for `turn` (castles aside).
pub open spec fn seg_pseudo(moves: Seq<Move>, from: int, b: &Board, turn: Turn) -> bool {
    forall|i: int| from <= i < moves.len() ==> is_pseudo(b, turn, #[trigger] moves[i])
}

/// Plain moves from `origin` onto the members of `bb`, which must all be
/// allowed destinations.
fn extract_allowed_from(
    board: &Board,
    turn: Turn,
    bb: Bitboard,
    origin: usize,
    moves: &mut Vec<Move>,
    Ghost(from): Ghost<int>,
)
    requires
        board.wf(),
        origin < 64,
        0 <= from <= old(moves)@.len(),
        seg_ok(old(moves)@, from, board.piece_boards@, board.en_passant.0, turn),
        forall|d: int|
            #[trigger] bit_at(bb.0, d) ==> dest_allowed(
                board.piece_boards@,
                board.en_passant.0,
                turn,
                d,
            ),
    ensures
        seg_ok(final(moves)@, from, board.piece_boards@, board.en_passant.0, turn),
        extends(final(moves)@, old(moves)@),
        forall|d: int|
            #[trigger] bit_at(bb.0, d) ==> final(moves)@.contains(mv(origin as int, d, 0, 0)),
        forall|i: int|
            old(moves)@.len() <= i < final(moves)@.len() ==> bit_at(bb.0, (
            #[trigger] final(moves)@[i]).dest()) && final(moves)@[i].origin() == origin
                && final(moves)@[i].kind() == 0 && final(moves)@[i].promo() == 0,
{
    extract_moves(bb, origin, moves);
    proof {
        assert forall|i: int| from <= i < moves@.len() implies dest_allowed(
            board.piece_boards@,
            board.en_passant.0,
            turn,
            (#[trigger] moves@[i]).dest(),
        ) && moves@[i].kind() != 2 by {
            if i < old(moves)@.len() {
                assert(moves@[i] == moves@.subrange(0, old(moves)@.len() as int)[i]);
            }
        }
    }
}

/// Moves of `turn`'s rooks and queens (`bishop` false) or bishops and
/// queens, from the magic lookups.
fn slider_moves(
    board: &Board,
    turn: Turn,
    bishop: bool,
    moves: &mut Vec<Move>,
    Ghost(from): Ghost<int>,
)
    requires
        board.wf(),
        0 <= from <= old(moves)@.len(),
        seg_ok(old(moves)@, from, board.piece_boards@, board.en_passant.0, turn),
        seg_pseudo(old(moves)@, from, board, turn),
    ensures
        extends(final(moves)@, old(moves)@),
        seg_ok(final(moves)@, from, board.piece_boards@, board.en_passant.0, turn),
        seg_pseudo(final(moves)@, from, board, turn),
        forall|o: int, d: int|
            bit_at(slider_origins(board, turn, bishop), o) && #[trigger] bit_at(
                slider_lookup(board, bishop, o) & !own_cells(board, turn),
                d,
            ) ==> final(moves)@.contains(#[trigger] mv(o, d, 0, 0)),
{
    let ghost start = moves@;
    let own = board.player_boards[if turn { 1 } else { 0 }].0;
    let occ = !board.empty_tiles.0;
    proof {
        assert(moves@.subrange(0, start.len() as int) =~= start);
        let w = board.player_boards[0].0;
        let b = board.player_boards[1].0;
        assert(!(!(w | b)) == w | b) by (bit_vector);
    }
    let queen_board = board.get_piece_bitboard(Piece::Queen, turn).0;
    let base = if bishop {
        board.get_piece_bitboard(Piece::Bishop, turn).0
    } else {
        board.get_piece_bitboard(Piece::Rook, turn).0
    };
    let pieces_all = base | queen_board;
    let mut pieces = pieces_all;
    while pieces != 0
        invariant
            board.wf(),
            0 <= from <= start.len(),
            extends(moves@, start),
            own == own_cells(board, turn),
            occ == occupied(board.piece_boards@),
            pieces_all == slider_origins(board, turn, bishop),
            seg_ok(moves@, from, board.piece_boards@, board.en_passant.0, turn),
            seg_pseudo(moves@, from, board, turn),
            forall|o: int| bit_at(pieces, o) ==> bit_at(pieces_all, o),
            forall|o: int, d: int|
                bit_at(pieces_all, o) && !bit_at(pieces, o) && #[trigger] bit_at(
                    slider_lookup(board, bishop, o) & !own,
                    d,
                ) ==> moves@.contains(#[trigger] mv(o, d, 0, 0)),
        decreases pieces,
    {
        proof {
            lemma_union_step(pieces, |o: int| 0u64, 0);
            crate::bitboard::lemma_lowest_bit(pieces);
        }
        let ghost old_pieces = pieces;
        let ghost before = moves@;
        let origin = Bitboard(pieces).trailing_zeros();
        let attacks = if bishop {
            board.tables.bishop_attacks_from(origin, occ)
        } else {
            board.tables.rook_attacks_from(origin, occ)
        };
        let legal = attacks & !own;
        proof {
            assert forall|d: int| #[trigger] bit_at(legal, d) implies dest_allowed(
                board.piece_boards@,
                board.en_passant.0,
                turn,
                d,
            ) by {
                crate::bitboard::lemma_bit_and(attacks, !own, d);
                crate::bitboard::lemma_bit_not(own, d);
            }
        }
        extract_allowed_from(board, turn, Bitboard(legal), origin, moves, Ghost(from));
        pieces = pieces & (pieces - 1);
        proof {
            assert(moves@.subrange(0, start.len() as int) == start) by {
                assert(moves@.subrange(0, before.len() as int) == before);
                assert(before.subrange(0, start.len() as int) == start);
                assert(moves@.subrange(0, start.len() as int) =~= before.subrange(
                    0,
                    start.len() as int,
                ));
            }
            assert forall|o: int, d: int|
                bit_at(pieces_all, o) && !bit_at(pieces, o) && #[trigger] bit_at(
                    slider_lookup(board, bishop, o) & !own,
                    d,
                ) implies moves@.contains(#[trigger] mv(o, d, 0, 0)) by {
                crate::bitboard::lemma_bit_and(old_pieces, !single(origin as int), o);
                crate::bitboard::lemma_bit_not(single(origin as int), o);
                crate::bitboard::lemma_bit_single(origin as int, o);
                if o != origin {
                    lemma_extends_contains(before, moves@, mv(o, d, 0, 0));
                } else {
                    assert(legal == slider_lookup(board, bishop, o) & !own);
                    assert(bit_at(Bitboard(legal).0, d));
                }
            }
            assert(bit_at(pieces_all, origin as int));
            assert(legal == slider_lookup(board, bishop, origin as int) & !own);
            assert forall|i: int| from <= i < moves@.len() implies is_pseudo(
                board,
                turn,
                #[trigger] moves@[i],
            ) by {
                if i < before.len() {
                    assert(moves@[i] == moves@.subrange(0, before.len() as int)[i]);
                } else {
                    assert(bit_at(Bitboard(legal).0, moves@[i].dest()));
                    assert(slider_move(board, turn, moves@[i].origin(), moves@[i].dest()));
                }
            }
            assert forall|o: int| bit_at(pieces, o) implies bit_at(pieces_all, o) by {
                crate::bitboard::lemma_bit_and(old_pieces, !single(origin as int), o);
            }
        }
    }
    proof {
        assert forall|o: int, d: int|
            bit_at(slider_origins(board, turn, bishop), o) && #[trigger] bit_at(
                slider_lookup(board, bishop, o) & !own_cells(board, turn),
                d,
            ) implies moves@.contains(#[trigger] mv(o, d, 0, 0)) by {
            crate::bitboard::lemma_bit_zero(o);
        }
    }
}

/// Moves of the rooks, bishops and queens of `turn`, from the magic lookups.
fn sliding_pieces_moves(board: &Board, turn: Turn, moves: &mut Vec<Move>)
    requires
        board.wf(),
    ensures
        extends(final(moves)@, old(moves)@),
        seg_ok(final(moves)@, old(moves)@.len() as int, board.piece_boards@, board.en_passant.0, turn),
        seg_pseudo(final(moves)@, old(moves)@.len() as int, board, turn),
        forall|o: int, d: int|
            #[trigger] slider_move(board, turn, o, d) ==> final(moves)@.contains(mv(o, d, 0, 0)),
{
    let ghost start = moves@;
    let ghost from = start.len() as int;
    proof {
        assert(moves@.subrange(0, start.len() as int) =~= start);
    }
    slider_moves(board, turn, false, moves, Ghost(from));
    let ghost mid = moves@;
    slider_moves(board, turn, true, moves, Ghost(from));
    proof {
        assert(moves@.subrange(0, start.len() as int) =~= start) by {
            assert(moves@.subrange(0, mid.len() as int) == mid);
            assert(mid.subrange(0, start.len() as int) == start);
            assert(moves@.subrange(0, start.len() as int) =~= mid.subrange(0, start.len() as int));
        }
        assert forall|o: int, d: int| #[trigger] slider_move(board, turn, o, d) implies moves@.contains(
            mv(o, d, 0, 0),
        ) by {
            if bit_at(slider_origins(board, turn, false), o) && bit_at(
                slider_lookup(board, false, o) & !own_cells(board, turn),
                d,
            ) {
                assert(mid.contains(mv(o, d, 0, 0)));
                lemma_extends_contains(mid, moves@, mv(o, d, 0, 0));
            }
        }
    }
}

/// Knight jumps of `turn`.
fn knight_moves(board: &Board, turn: Turn, moves: &mut Vec<Move>)
    requires
        board.wf(),
    ensures
        extends(final(moves)@, old(moves)@),
        seg_ok(final(moves)@, old(moves)@.len() as int, board.piece_boards@, board.en_passant.0, turn),
        seg_pseudo(final(moves)@, old(moves)@.len() as int, board, turn),
        forall|o: int, d: int|
            #[trigger] knight_move(board, turn, o, d) ==> final(moves)@.contains(mv(o, d, 0, 0)),
{
    let ghost start = moves@;
    let ghost from = start.len() as int;
    let not_my_pieces = !board.player_boards[if turn { 1 } else { 0 }].0;
    let knights = board.get_piece_bitboard(Piece::Knight, turn).0;
    let mut knight_board = knights;
    proof {
        assert(moves@.subrange(0, start.len() as int) =~= start);
    }
    while knight_board != 0
        invariant
            board.wf(),
            0 <= from <= start.len(),
            extends(moves@, start),
            from == start.len(),
            not_my_pieces == !own_cells(board, turn),
            knights == board.piece_boards@[bb_index(Piece::Knight, turn)].0,
            seg_ok(moves@, from, board.piece_boards@, board.en_passant.0, turn),
            seg_pseudo(moves@, from, board, turn),
            forall|o: int| bit_at(knight_board, o) ==> bit_at(knights, o),
            forall|o: int, d: int|
                bit_at(knights, o) && !bit_at(knight_board, o) && #[trigger] knight_move(
                    board,
                    turn,
                    o,
                    d,
                ) ==> moves@.contains(mv(o, d, 0, 0)),
        decreases knight_board,
    {
        proof {
            lemma_union_step(knight_board, |o: int| 0u64, 0);
            crate::bitboard::lemma_lowest_bit(knight_board);
        }
        let ghost old_kb = knight_board;
        let ghost before = moves@;
        let origin = Bitboard(knight_board).trailing_zeros();
        let moves_bb = board.tables.knight_moves[origin].0 & not_my_pieces;
        proof {
            let kb = board.tables.knight_moves[origin as int].0;
            let own = own_cells(board, turn);
            assert forall|d: int| #[trigger] bit_at(moves_bb, d) implies dest_allowed(
                board.piece_boards@,
                board.en_passant.0,
                turn,
                d,
            ) by {
                crate::bitboard::lemma_bit_and(kb, !own, d);
                crate::bitboard::lemma_bit_not(own, d);
            }
        }
        extract_allowed_from(board, turn, Bitboard(moves_bb), origin, moves, Ghost(from));
        knight_board = knight_board & (knight_board - 1);
        proof {
            assert(moves@.subrange(0, start.len() as int) == start) by {
                assert(moves@.subrange(0, before.len() as int) == before);
                assert(before.subrange(0, start.len() as int) == start);
                assert(moves@.subrange(0, start.len() as int) =~= before.subrange(
                    0,
                    start.len() as int,
                ));
            }
            assert forall|o: int, d: int|
                bit_at(knights, o) && !bit_at(knight_board, o) && #[trigger] knight_move(
                    board,
                    turn,
                    o,
                    d,
                ) implies moves@.contains(mv(o, d, 0, 0)) by {
                crate::bitboard::lemma_bit_and(old_kb, !single(origin as int), o);
                crate::bitboard::lemma_bit_not(single(origin as int), o);
                crate::bitboard::lemma_bit_single(origin as int, o);
                if o != origin {
                    lemma_extends_contains(before, moves@, mv(o, d, 0, 0));
                } else {
                    assert(bit_at(Bitboard(moves_bb).0, d));
                }
            }
            assert(bit_at(knights, origin as int));
            assert forall|i: int| from <= i < moves@.len() implies is_pseudo(
                board,
                turn,
                #[trigger] moves@[i],
            ) by {
                if i < before.len() {
                    assert(moves@[i] == moves@.subrange(0, before.len() as int)[i]);
                } else {
                    assert(bit_at(Bitboard(moves_bb).0, moves@[i].dest()));
                    assert(knight_move(board, turn, moves@[i].origin(), moves@[i].dest()));
                }
            }
            assert forall|o: int| bit_at(knight_board, o) implies bit_at(knights, o) by {
                crate::bitboard::lemma_bit_and(old_kb, !single(origin as int), o);
            }
        }
    }
    proof {
        assert forall|o: int, d: int| #[trigger] knight_move(board, turn, o, d) implies moves@.contains(
            mv(o, d, 0, 0),
        ) by {
            crate::bitboard::lemma_bit_zero(o);
        }
    }
}

/// One-step king moves of `turn` (from its lowest king, if it has one).
fn king_ring_moves(board: &Board, turn: Turn, moves: &mut Vec<Move>)
    requires
        board.wf(),
    ensures
        extends(final(moves)@, old(moves)@),
        seg_ok(final(moves)@, old(moves)@.len() as int, board.piece_boards@, board.en_passant.0, turn),
        seg_pseudo(final(moves)@, old(moves)@.len() as int, board, turn),
        forall|o: int, d: int|
            #[trigger] king_move(board, turn, o, d) ==> final(moves)@.contains(mv(o, d, 0, 0)),
{
    broadcast use group_bits;
    broadcast use vstd::std_specs::bits::axiom_u64_trailing_zeros;

    let ghost start = moves@;
    proof {
        assert(moves@.subrange(0, start.len() as int) =~= start);
    }
    let king_board = board.get_piece_bitboard(Piece::King, turn);
    if king_board.is_empty() {
        return;
    }
    let not_my_pieces = !board.player_boards[if turn { 1 } else { 0 }].0;
    let origin = king_board.trailing_zeros();
    let ring_moves = board.tables.king_ring_moves[origin].0 & not_my_pieces;
    extract_allowed_from(board, turn, Bitboard(ring_moves), origin, moves, Ghost(start.len() as int));
    proof {
        assert forall|o: int, d: int| #[trigger] king_move(board, turn, o, d) implies moves@.contains(
            mv(o, d, 0, 0),
        ) by {
            assert(bit_at(Bitboard(ring_moves).0, d));
        }
        assert forall|i: int| start.len() <= i < moves@.len() implies is_pseudo(
            board,
            turn,
            #[trigger] moves@[i],
        ) by {
            assert(bit_at(Bitboard(ring_moves).0, moves@[i].dest()));
            assert(king_move(board, turn, moves@[i].origin(), moves@[i].dest()));
        }
    }
}

/// Start cell of `turn`'s king.
pub open spec fn king_start(turn: Turn) -> int {
    if turn {
        60
    } else {
        4
    }
}

/// Destination of `turn`'s king when castling on the given side.
pub open spec fn castle_dest(turn: Turn, king_side: bool) -> int {
    (if turn {
        56int
    } else {
        0int
    }) + (if king_side {
        6int
    } else {
        2int
    })
}

/// The cell the king passes over when castling.
pub open spec fn castle_transit(turn: Turn, king_side: bool) -> int {
    (if turn {
        56int
    } else {
        0int
    }) + (if king_side {
        5int
    } else {
        3int
    })
}

/// Cells strictly between king and rook.
pub open spec fn castle_path(turn: Turn, king_side: bool) -> u64 {
    if turn {
        if king_side {
            B_KING_CASTLE_EMPTY
        } else {
            B_QUEEN_CASTLE_EMPTY
        }
    } else {
        if king_side {
            W_KING_CASTLE_EMPTY
        } else {
            W_QUEEN_CASTLE_EMPTY
        }
    }
}

/// The move that slides `turn`'s king onto its transit cell.
pub open spec fn transit_move(turn: Turn, king_side: bool) -> Move {
    Move::spec_from_raw(pack(king_start(turn), castle_transit(turn, king_side), 0, 0))
}

/// A castle of `turn` on the given side may be generated: the king is not
/// in check, the right is held, every cell between king and rook is empty,
/// and the king would not be attacked on its transit cell.
pub open spec fn castle_allowed(b: &Board, turn: Turn, king_side: bool) -> bool {
    &&& !in_check_spec(b.view(), turn, *b.tables)
    &&& b.castle_rights.right(right_index(turn, king_side))
    &&& castle_path(turn, king_side) & b.empty_tiles.0 == castle_path(turn, king_side)
    &&& !in_check_spec(apply_spec(b.view(), transit_move(turn, king_side)), turn, *b.tables)
}

/// Code of the castle of `turn` on the given side.
pub open spec fn castle_code(turn: Turn, king_side: bool) -> u16 {
    pack(king_start(turn), castle_dest(turn, king_side), 0, 2)
}

/// Adds the castle of `turn` on the given side when `castle_allowed` holds.
fn try_castle(board: &Board, turn: Turn, king_side: bool, moves: &mut Vec<Move>)
    requires
        board.wf(),
        turn == board.turn,
        !in_check_spec(board.view(), turn, *board.tables),
    ensures
        castle_allowed(board, turn, king_side) ==> final(moves)@ == old(moves)@.push(
            Move::spec_from_raw(castle_code(turn, king_side)),
        ),
        !castle_allowed(board, turn, king_side) ==> final(moves)@ == old(moves)@,
{
    if !board.castle_rights.can_castle(turn, king_side) {
        return;
    }
    let empty_space: u64 = if turn == WHITE {
        if king_side {
            W_KING_CASTLE_EMPTY
        } else {
            W_QUEEN_CASTLE_EMPTY
        }
    } else {
        if king_side {
            B_KING_CASTLE_EMPTY
        } else {
            B_QUEEN_CASTLE_EMPTY
        }
    };
    if (empty_space & board.empty_tiles.0) != empty_space {
        return;
    }
    let rank: usize = if turn == WHITE { 0 } else { 7 };
    let king_pos = Position::from_file_and_rank(4, rank);
    let slide_tile = Position::from_file_and_rank(if king_side { 5 } else { 3 }, rank);
    let slide_move = Move::new_default(king_pos, slide_tile);
    proof {
        Move::lemma_from_raw(slide_move.raw());
        Move::lemma_raw_injective(slide_move, transit_move(turn, king_side));
    }
    if !board.would_check(slide_move) {
        let m = Move::new_castle(king_side, turn);
        proof {
            Move::lemma_from_raw(m.raw());
            Move::lemma_raw_injective(m, Move::spec_from_raw(castle_code(turn, king_side)));
        }
        moves.push(m);
    }
}

/// Castles of `turn`, queen's side first, each only when `castle_allowed`.
pub fn castle_moves(board: &Board, turn: Turn, moves: &mut Vec<Move>)
    requires
        board.wf(),
        turn == board.turn,
    ensures
        extends(final(moves)@, old(moves)@),
        forall|i: int|
            old(moves)@.len() <= i < final(moves)@.len() ==> exists|ks: bool|
                #[trigger] castle_allowed(board, turn, ks) && (#[trigger] final(moves)@[i])
                    == Move::spec_from_raw(castle_code(turn, ks)),
        forall|ks: bool|
            #[trigger] castle_allowed(board, turn, ks) ==> final(moves)@.contains(
                Move::spec_from_raw(castle_code(turn, ks)),
            ),
{
    let ghost start = moves@;
    proof {
        assert(moves@.subrange(0, start.len() as int) =~= start);
    }
    if !board.in_check(turn) {
        try_castle(board, turn, false, moves);
        let ghost mid = moves@;
        try_castle(board, turn, true, moves);
        proof {
            assert(moves@.subrange(0, start.len() as int) =~= start);
            let q = Move::spec_from_raw(castle_code(turn, false));
            let k = Move::spec_from_raw(castle_code(turn, true));
            if castle_allowed(board, turn, false) {
                assert(moves@[start.len() as int] == q);
            }
            if castle_allowed(board, turn, true) {
                assert(moves@[moves@.len() - 1] == k);
            }
            assert forall|i: int| start.len() <= i < moves@.len() implies exists|ks: bool|
                #[trigger] castle_allowed(board, turn, ks) && (#[trigger] moves@[i])
                    == Move::spec_from_raw(castle_code(turn, ks)) by {
                if castle_allowed(board, turn, false) && i == start.len() {
                    assert(castle_allowed(board, turn, false) && moves@[i] == q);
                } else {
                    assert(castle_allowed(board, turn, true) && moves@[i] == k);
                }
            }
        }
    }
}

/// Forward step of `turn`'s pawns in cell indices.
pub open spec fn pawn_dir(turn: Turn) -> int {
    if turn == WHITE {
        8
    } else {
        -8
    }
}

/// Capture step towards file h.
pub open spec fn pawn_rdir(turn: Turn) -> int {
    if turn == WHITE {
        9
    } else {
        -7
    }
}

/// Capture step towards file a.
pub open spec fn pawn_ldir(turn: Turn) -> int {
    if turn == WHITE {
        7
    } else {
        -9
    }
}

/// The rank on which `turn`'s pawns promote.
pub open spec fn promo_rank(turn: Turn) -> u64 {
    if turn == WHITE {
        RANK_8
    } else {
        RANK_1
    }
}

pub open spec fn pawns_of(pb: Seq<Bitboard>, turn: Turn) -> u64 {
    pb[bb_index(Piece::Pawn, turn)].0
}

/// Single pushes onto empty cells.
pub open spec fn pawn_forward(pb: Seq<Bitboard>, turn: Turn) -> u64 {
    shift_spec(pawns_of(pb, turn), pawn_dir(turn)) & !occupied(pb)
}

/// Double pushes from the start rank over an empty cell onto an empty cell.
pub open spec fn pawn_double(pb: Seq<Bitboard>, turn: Turn) -> u64 {
    let start = if turn == WHITE {
        RANK_2
    } else {
        RANK_7
    };
    shift_spec(pawns_of(pb, turn) & start, 2 * pawn_dir(turn)) & !occupied(pb) & shift_spec(
        !occupied(pb),
        pawn_dir(turn),
    )
}

/// Diagonal steps towards file h.
pub open spec fn pawn_right(pb: Seq<Bitboard>, turn: Turn) -> u64 {
    shift_spec(pawns_of(pb, turn) & NOT_H_FILE, pawn_rdir(turn))
}

/// Diagonal steps towards file a.
pub open spec fn pawn_left(pb: Seq<Bitboard>, turn: Turn) -> u64 {
    shift_spec(pawns_of(pb, turn) & NOT_A_FILE, pawn_ldir(turn))
}

pub open spec fn enemy_cells(pb: Seq<Bitboard>, turn: Turn) -> u64 {
    side_cells(pb, 1 - side_index(turn))
}

/// A pawn move of `turn` from `o` to `d` that does not promote.
pub open spec fn pawn_move(b: &Board, turn: Turn, o: int, d: int) -> bool {
    let pb = b.piece_boards@;
    let keep = !promo_rank(turn);
    ||| bit_at(pawn_double(pb, turn), d) && o == d - 2 * pawn_dir(turn)
    ||| bit_at(pawn_forward(pb, turn) & keep, d) && o == d - pawn_dir(turn)
    ||| bit_at((pawn_right(pb, turn) & enemy_cells(pb, turn)) & keep, d) && o == d - pawn_rdir(turn)
    ||| bit_at((pawn_left(pb, turn) & enemy_cells(pb, turn)) & keep, d) && o == d - pawn_ldir(turn)
}

/// A pawn move of `turn` from `o` to `d` onto the promotion rank.
pub open spec fn pawn_promotion(b: &Board, turn: Turn, o: int, d: int) -> bool {
    let pb = b.piece_boards@;
    let pr = promo_rank(turn);
    ||| bit_at(pawn_forward(pb, turn) & pr, d) && o == d - pawn_dir(turn)
    ||| bit_at((pawn_right(pb, turn) & enemy_cells(pb, turn)) & pr, d) && o == d - pawn_rdir(turn)
    ||| bit_at((pawn_left(pb, turn) & enemy_cells(pb, turn)) & pr, d) && o == d - pawn_ldir(turn)
}

/// An en-passant capture of `turn` from `o` onto the target `d`.
pub open spec fn pawn_en_passant(b: &Board, turn: Turn, o: int, d: int) -> bool {
    let pb = b.piece_boards@;
    let l = pawn_left(pb, turn) & b.en_passant.0;
    let r = pawn_right(pb, turn) & b.en_passant.0;
    ||| l != 0 && d == u64_trailing_zeros(l) as int && o == d - pawn_ldir(turn)
    ||| r != 0 && d == u64_trailing_zeros(r) as int && o == d - pawn_rdir(turn)
}

proof fn lemma_extends_trans(a: Seq<Move>, b: Seq<Move>, c: Seq<Move>)
    requires
        extends(b, a),
        extends(c, b),
    ensures
        extends(c, a),
{
    assert(c.subrange(0, a.len() as int) =~= b.subrange(0, a.len() as int)) by {
        assert forall|i: int| 0 <= i < a.len() implies c[i] == b[i] by {
            assert(c[i] == c.subrange(0, b.len() as int)[i]);
        }
    }
}

/// `m` is a pawn move of `turn` of the matching kind: a plain push, double
/// push or capture off the last rank, a promotion (any kind) onto it, or an
/// en-passant capture onto the target.
pub open spec fn pawn_generated(b: &Board, turn: Turn, m: Move) -> bool {
    let o = m.origin();
    let d = m.dest();
    ||| m.kind() == 0 && m.promo() == 0 && pawn_move(b, turn, o, d)
    ||| m.kind() == 3 && pawn_promotion(b, turn, o, d)
    ||| m.kind() == 1 && m.promo() == 0 && pawn_en_passant(b, turn, o, d)
}

/// Pawn pushes, double pushes, captures, en-passant captures and promotions of `turn`.
fn pawn_moves(board: &Board, turn: Turn, moves: &mut Vec<Move>)
    requires
        board.wf(),
    ensures
        extends(final(moves)@, old(moves)@),
        seg_ok(final(moves)@, old(moves)@.len() as int, board.piece_boards@, board.en_passant.0, turn),
        forall|o: int, d: int|
            0 <= o < 64 && #[trigger] pawn_move(board, turn, o, d) ==> final(moves)@.contains(
                mv(o, d, 0, 0),
            ),
        forall|o: int, d: int, p: int|
            0 <= o < 64 && 0 <= p < 4 && #[trigger] pawn_promotion(board, turn, o, d)
                ==> final(moves)@.contains(#[trigger] mv(o, d, p, 3)),
        forall|o: int, d: int|
            0 <= o < 64 && #[trigger] pawn_en_passant(board, turn, o, d)
                ==> final(moves)@.contains(mv(o, d, 0, 1)),
        forall|i: int|
            old(moves)@.len() <= i < final(moves)@.len() ==> pawn_generated(
                board,
                turn,
                #[trigger] final(moves)@[i],
            ),
{
    broadcast use group_bits;

    let ghost pb = board.piece_boards@;
    let ghost ep = board.en_passant.0;
    let ghost start = moves@;
    let ghost from = start.len() as int;
    let direction: i8 = if turn == WHITE { 8 } else { -8 };
    let start_rank: u64 = if turn == WHITE { RANK_2 } else { RANK_7 };
    let promotion_rank: u64 = if turn == WHITE { RANK_8 } else { RANK_1 };
    let enemy_pieces = board.player_boards[if turn { 0 } else { 1 }].0;
    let empty = board.empty_tiles.0;
    let pawns = board.get_piece_bitboard(Piece::Pawn, turn);
    let forward_moves = shift(pawns, direction).0 & empty;
    let double_moves = shift(Bitboard(pawns.0 & start_rank), 2 * direction).0 & empty & shift(
        board.empty_tiles,
        direction,
    ).0;
    let r_dir: i8 = if turn == WHITE { 9 } else { -7 };
    let l_dir: i8 = if turn == WHITE { 7 } else { -9 };
    let right = shift(Bitboard(pawns.0 & NOT_H_FILE), r_dir).0;
    let left = shift(Bitboard(pawns.0 & NOT_A_FILE), l_dir).0;
    let right_captures = right & enemy_pieces;
    let left_captures = left & enemy_pieces;
    let right_en_p = right & board.en_passant.0;
    let left_en_p = left & board.en_passant.0;
    proof {
        assert(moves@.subrange(0, start.len() as int) =~= start);
        assert forall|d: int| #[trigger] bit_at(empty, d) implies dest_allowed(pb, ep, turn, d) by {
        }
        assert forall|d: int| #[trigger] bit_at(enemy_pieces, d) implies dest_allowed(
            pb,
            ep,
            turn,
            d,
        ) by {}
        assert(empty == !occupied(pb));
        assert(enemy_pieces == enemy_cells(pb, turn));
        assert(forward_moves == pawn_forward(pb, turn));
        assert(double_moves == pawn_double(pb, turn));
        assert(right == pawn_right(pb, turn));
        assert(left == pawn_left(pb, turn));
    }
    if left_en_p != 0 {
        proof {
            crate::bitboard::lemma_lowest_bit(left_en_p);
        }
        let dest = Bitboard(left_en_p).trailing_zeros();
        let origin = dest as i16 - l_dir as i16;
        if 0 <= origin && origin < 64 {
            let m = Move::new_special(Position::new(origin as usize), Position::new(dest), EN_PASSANT);
            proof {
                lemma_pack(origin as int, dest as int, 0, 1);
                lemma_mv_of(m, origin as int, dest as int, 0, 1);
            }
            moves.push(m);
            proof {
                assert(moves@[moves@.len() - 1] == m);
            }
        }
    }
    let ghost after_left = moves@;
    if right_en_p != 0 {
        proof {
            crate::bitboard::lemma_lowest_bit(right_en_p);
        }
        let dest = Bitboard(right_en_p).trailing_zeros();
        let origin = dest as i16 - r_dir as i16;
        if 0 <= origin && origin < 64 {
            let m = Move::new_special(Position::new(origin as usize), Position::new(dest), EN_PASSANT);
            proof {
                lemma_pack(origin as int, dest as int, 0, 1);
                lemma_mv_of(m, origin as int, dest as int, 0, 1);
            }
            moves.push(m);
            proof {
                assert(moves@[moves@.len() - 1] == m);
                if left_en_p != 0 {
                    let ld = u64_trailing_zeros(left_en_p) as int;
                    if 0 <= ld - pawn_ldir(turn) < 64 {
                        lemma_push_contains(after_left, m, mv(ld - pawn_ldir(turn), ld, 0, 1));
                    }
                }
            }
        }
    }
    let ghost s0 = moves@;
    proof {
        assert(moves@.subrange(0, start.len() as int) =~= start);
        assert forall|i: int| from <= i < moves@.len() implies pawn_generated(
            board,
            turn,
            #[trigger] moves@[i],
        ) by {
            lemma_mv(moves@[i]);
        }
        assert forall|o: int, d: int|
            0 <= o < 64 && #[trigger] pawn_en_passant(board, turn, o, d) implies moves@.contains(
            mv(o, d, 0, 1),
        ) by {}
    }
    extract_allowed(board, turn, Bitboard(double_moves), 2 * direction, false, moves, Ghost(from));
    let ghost s1 = moves@;
    extract_allowed(
        board,
        turn,
        Bitboard(forward_moves & !promotion_rank),
        direction,
        false,
        moves,
        Ghost(from),
    );
    let ghost s2 = moves@;
    extract_allowed(
        board,
        turn,
        Bitboard(right_captures & !promotion_rank),
        r_dir,
        false,
        moves,
        Ghost(from),
    );
    let ghost s3 = moves@;
    extract_allowed(
        board,
        turn,
        Bitboard(left_captures & !promotion_rank),
        l_dir,
        false,
        moves,
        Ghost(from),
    );
    let ghost s4 = moves@;
    extract_allowed(
        board,
        turn,
        Bitboard(forward_moves & promotion_rank),
        direction,
        true,
        moves,
        Ghost(from),
    );
    let ghost s5 = moves@;
    extract_allowed(
        board,
        turn,
        Bitboard(right_captures & promotion_rank),
        r_dir,
        true,
        moves,
        Ghost(from),
    );
    let ghost s6 = moves@;
    extract_allowed(
        board,
        turn,
        Bitboard(left_captures & promotion_rank),
        l_dir,
        true,
        moves,
        Ghost(from),
    );
    proof {
        let f = moves@;
        lemma_extends_trans(s5, s6, f);
        lemma_extends_trans(s4, s5, f);
        lemma_extends_trans(s3, s4, f);
        lemma_extends_trans(s2, s3, f);
        lemma_extends_trans(s1, s2, f);
        lemma_extends_trans(s0, s1, f);
        lemma_extends_trans(start, s0, f);
        assert(moves@.subrange(0, start.len() as int) == start);
        assert forall|i: int| from <= i < f.len() implies pawn_generated(board, turn, #[trigger] f[i]) by {
            let m = f[i];
            if i < s0.len() {
                assert(f[i] == f.subrange(0, s0.len() as int)[i]);
            } else if i < s1.len() {
                assert(f[i] == f.subrange(0, s1.len() as int)[i]);
                assert(bit_at(Bitboard(double_moves).0, s1[i].dest()));
            } else if i < s2.len() {
                assert(f[i] == f.subrange(0, s2.len() as int)[i]);
                assert(bit_at(Bitboard(forward_moves & !promotion_rank).0, s2[i].dest()));
            } else if i < s3.len() {
                assert(f[i] == f.subrange(0, s3.len() as int)[i]);
                assert(bit_at(Bitboard(right_captures & !promotion_rank).0, s3[i].dest()));
            } else if i < s4.len() {
                assert(f[i] == f.subrange(0, s4.len() as int)[i]);
                assert(bit_at(Bitboard(left_captures & !promotion_rank).0, s4[i].dest()));
            } else if i < s5.len() {
                assert(f[i] == f.subrange(0, s5.len() as int)[i]);
                assert(bit_at(Bitboard(forward_moves & promotion_rank).0, s5[i].dest()));
            } else if i < s6.len() {
                assert(f[i] == f.subrange(0, s6.len() as int)[i]);
                assert(bit_at(Bitboard(right_captures & promotion_rank).0, s6[i].dest()));
            } else {
                assert(bit_at(Bitboard(left_captures & promotion_rank).0, f[i].dest()));
            }
        }
        assert forall|o: int, d: int|
            0 <= o < 64 && #[trigger] pawn_move(board, turn, o, d) implies moves@.contains(
            mv(o, d, 0, 0),
        ) by {
            let x = mv(o, d, 0, 0);
            if bit_at(pawn_double(pb, turn), d) && o == d - 2 * pawn_dir(turn) {
                assert(bit_at(Bitboard(double_moves).0, d));
                lemma_extends_contains(s1, f, x);
            } else if bit_at(pawn_forward(pb, turn) & !promo_rank(turn), d) && o == d - pawn_dir(
                turn,
            ) {
                assert(bit_at(Bitboard(forward_moves & !promotion_rank).0, d));
                lemma_extends_contains(s2, f, x);
            } else if bit_at((pawn_right(pb, turn) & enemy_cells(pb, turn)) & !promo_rank(turn), d)
                && o == d - pawn_rdir(turn) {
                assert(bit_at(Bitboard(right_captures & !promotion_rank).0, d));
                lemma_extends_contains(s3, f, x);
            } else {
                assert(bit_at(Bitboard(left_captures & !promotion_rank).0, d));
            }
        }
        assert forall|o: int, d: int, p: int|
            0 <= o < 64 && 0 <= p < 4 && #[trigger] pawn_promotion(board, turn, o, d)
                implies moves@.contains(#[trigger] mv(o, d, p, 3)) by {
            let x = mv(o, d, p, 3);
            if bit_at(pawn_forward(pb, turn) & promo_rank(turn), d) && o == d - pawn_dir(turn) {
                assert(bit_at(Bitboard(forward_moves & promotion_rank).0, d));
                lemma_extends_contains(s5, f, x);
            } else if bit_at((pawn_right(pb, turn) & enemy_cells(pb, turn)) & promo_rank(turn), d)
                && o == d - pawn_rdir(turn) {
                assert(bit_at(Bitboard(right_captures & promotion_rank).0, d));
                lemma_extends_contains(s6, f, x);
            } else {
                assert(bit_at(Bitboard(left_captures & promotion_rank).0, d));
            }
        }
        assert forall|o: int, d: int|
            0 <= o < 64 && #[trigger] pawn_en_passant(board, turn, o, d) implies moves@.contains(
            mv(o, d, 0, 1),
        ) by {
            assert(s0.contains(mv(o, d, 0, 1)));
            lemma_extends_contains(s0, f, mv(o, d, 0, 1));
        }
    }
}

proof fn lemma_seg_join(
    old_moves: Seq<Move>,
    new_moves: Seq<Move>,
    from: int,
    pb: Seq<Bitboard>,
    ep: u64,
    turn: Turn,
)
    requires
        0 <= from <= old_moves.len(),
        seg_ok(old_moves, from, pb, ep, turn),
        extends(new_moves, old_moves),
        seg_ok(new_moves, old_moves.len() as int, pb, ep, turn),
    ensures
        seg_ok(new_moves, from, pb, ep, turn),
{
    assert forall|i: int| from <= i < new_moves.len() implies dest_allowed(
        pb,
        ep,
        turn,
        (#[trigger] new_moves[i]).dest(),
    ) && new_moves[i].kind() != 2 by {
        if i < old_moves.len() {
            assert(new_moves[i] == new_moves.subrange(0, old_moves.len() as int)[i]);
        }
    }
}

/// A pseudo-legal move of `turn` other than a castle: a slider, knight or
/// king move onto a cell without an own piece, or a pawn push, double push,
/// capture, promotion (any of the four kinds) or en-passant capture.
pub open spec fn is_pseudo(b: &Board, turn: Turn, m: Move) -> bool {
    let o = m.origin();
    let d = m.dest();
    ||| m.kind() == 0 && m.promo() == 0 && (slider_move(b, turn, o, d) || knight_move(b, turn, o, d)
        || king_move(b, turn, o, d) || pawn_move(b, turn, o, d))
    ||| m.kind() == 3 && pawn_promotion(b, turn, o, d)
    ||| m.kind() == 1 && m.promo() == 0 && pawn_en_passant(b, turn, o, d)
}

/// A pseudo-legal move of `turn`, castles included.
pub open spec fn is_pseudo_move(b: &Board, turn: Turn, m: Move) -> bool {
    ||| is_pseudo(b, turn, m)
    ||| exists|ks: bool|
        #[trigger] castle_allowed(b, turn, ks) && m == Move::spec_from_raw(castle_code(turn, ks))
}

/// Every pseudo-legal move of `turn` but the castles: sliding pieces,
/// knights, king steps and pawns.
pub fn generate_pseudo_non_castle_moves(board: &Board, turn: Turn) -> (r: Vec<Move>)
    requires
        board.wf(),
    ensures
        seg_ok(r@, 0, board.piece_boards@, board.en_passant.0, turn),
        seg_pseudo(r@, 0, board, turn),
        forall|m: Move| #[trigger] is_pseudo(board, turn, m) ==> r@.contains(m),
        sorted_codes(r@),
        r@.no_duplicates(),
{
    let mut moves: Vec<Move> = Vec::new();
    let ghost pb = board.piece_boards@;
    let ghost ep = board.en_passant.0;
    let ghost m0 = moves@;
    sliding_pieces_moves(board, turn, &mut moves);
    proof {
        lemma_seg_join(m0, moves@, 0, pb, ep, turn);
    }
    let ghost m1 = moves@;
    knight_moves(board, turn, &mut moves);
    proof {
        lemma_seg_join(m1, moves@, 0, pb, ep, turn);
    }
    let ghost m2 = moves@;
    king_ring_moves(board, turn, &mut moves);
    proof {
        lemma_seg_join(m2, moves@, 0, pb, ep, turn);
    }
    let ghost m3 = moves@;
    pawn_moves(board, turn, &mut moves);
    proof {
        lemma_seg_join(m3, moves@, 0, pb, ep, turn);
        let f = moves@;
        lemma_extends_trans(m2, m3, f);
        lemma_extends_trans(m1, m2, f);
        assert forall|i: int| 0 <= i < f.len() implies is_pseudo(board, turn, #[trigger] f[i]) by {
            if i < m1.len() {
                assert(f[i] == f.subrange(0, m1.len() as int)[i]);
            } else if i < m2.len() {
                assert(f[i] == f.subrange(0, m2.len() as int)[i]);
            } else if i < m3.len() {
                assert(f[i] == f.subrange(0, m3.len() as int)[i]);
            } else {
                assert(pawn_generated(board, turn, f[i]));
            }
        }
        assert forall|m: Move| #[trigger] is_pseudo(board, turn, m) implies f.contains(m) by {
            lemma_mv(m);
            let o = m.origin();
            let d = m.dest();
            if m.kind() == 0 && m.promo() == 0 {
                if slider_move(board, turn, o, d) {
                    lemma_extends_contains(m1, f, mv(o, d, 0, 0));
                } else if knight_move(board, turn, o, d) {
                    lemma_extends_contains(m2, f, mv(o, d, 0, 0));
                } else if king_move(board, turn, o, d) {
                    lemma_extends_contains(m3, f, mv(o, d, 0, 0));
                } else {
                    assert(pawn_move(board, turn, o, d));
                }
            } else if m.kind() == 3 {
                assert(f.contains(mv(o, d, m.promo(), 3)));
            } else {
                assert(f.contains(mv(o, d, 0, 1)));
            }
        }
    }
    // Sorted by code, so that no move is listed twice.
    let mut sorted: Vec<Move> = Vec::new();
    let mut i: usize = 0;
    while i < moves.len()
        invariant
            i <= moves.len(),
            sorted_codes(sorted@),
            forall|j: int| 0 <= j < sorted@.len() ==> moves@.contains(#[trigger] sorted@[j]),
            forall|j: int| 0 <= j < i ==> sorted@.contains(#[trigger] moves@[j]),
        decreases moves.len() - i,
    {
        let m = moves[i];
        let ghost before = sorted@;
        insert_sorted(&mut sorted, m);
        proof {
            assert(moves@.contains(moves@[i as int]));
            assert forall|j: int| 0 <= j < sorted@.len() implies moves@.contains(#[trigger] sorted@[j]) by {
                if sorted@[j] != m {
                    let k = choose|k: int| 0 <= k < before.len() && before[k] == sorted@[j];
                    assert(moves@.contains(before[k]));
                }
            }
            assert forall|j: int| 0 <= j < i + 1 implies sorted@.contains(#[trigger] moves@[j]) by {
                if j < i {
                    assert(before.contains(moves@[j]));
                }
            }
        }
        i += 1;
    }
    proof {
        lemma_sorted_no_duplicates(sorted@);
        assert forall|j: int| 0 <= j < sorted@.len() implies dest_allowed(
            board.piece_boards@,
            board.en_passant.0,
            turn,
            (#[trigger] sorted@[j]).dest(),
        ) && sorted@[j].kind() != 2 && is_pseudo(board, turn, sorted@[j]) by {
            let k = choose|k: int| 0 <= k < moves@.len() && moves@[k] == sorted@[j];
            assert(is_pseudo(board, turn, moves@[k]));
        }
        assert forall|m: Move| #[trigger] is_pseudo(board, turn, m) implies sorted@.contains(m) by {
            assert(moves@.contains(m));
            let k = choose|k: int| 0 <= k < moves@.len() && moves@[k] == m;
            assert(sorted@.contains(moves@[k]));
        }
    }
    sorted
}

/// What holds of every pseudo-legal move `m` of `turn`: its destination is
/// allowed, and a castle is generated only when `castle_allowed` holds.
pub open spec fn pseudo_ok(b: &Board, turn: Turn, m: Move) -> bool {
    &&& dest_allowed(b.piece_boards@, b.en_passant.0, turn, m.dest())
    &&& m.kind() == 2 ==> exists|ks: bool|
        #[trigger] castle_allowed(b, turn, ks) && m == Move::spec_from_raw(castle_code(turn, ks))
}

/// Every pseudo-legal move of the side to move, castles included.
pub fn generate_pseudo_legal_moves(board: &Board, turn: Turn) -> (r: Vec<Move>)
    requires
        board.wf(),
        turn == board.turn,
    ensures
        forall|i: int|
            0 <= i < r@.len() ==> pseudo_ok(board, turn, #[trigger] r@[i]) && is_pseudo_move(
                board,
                turn,
                r@[i],
            ),
        forall|m: Move| #[trigger] is_pseudo_move(board, turn, m) ==> r@.contains(m),
{
    let mut moves = generate_pseudo_non_castle_moves(board, turn);
    let ghost m0 = moves@;
    castle_moves(board, turn, &mut moves);
    proof {
        assert forall|m: Move| #[trigger] is_pseudo_move(board, turn, m) implies moves@.contains(m) by {
            if is_pseudo(board, turn, m) {
                lemma_extends_contains(m0, moves@, m);
            }
        }
        let pb = board.piece_boards@;
        let ep = board.en_passant.0;
        let w = board.player_boards[0].0;
        let b = board.player_boards[1].0;
        assert((0x60u64 >> 6u64) & 1u64 == 1u64 && (0x0Eu64 >> 2u64) & 1u64 == 1u64 && (
        0x6000_0000_0000_0000u64 >> 62u64) & 1u64 == 1u64 && (0x0E00_0000_0000_0000u64 >> 58u64)
            & 1u64 == 1u64) by (bit_vector);
        assert forall|i: int| 0 <= i < moves@.len() implies pseudo_ok(
            board,
            turn,
            #[trigger] moves@[i],
        ) && is_pseudo_move(board, turn, moves@[i]) by {
            if i < m0.len() {
                assert(moves@[i] == moves@.subrange(0, m0.len() as int)[i]);
            } else {
                let ks = choose|ks: bool|
                    #[trigger] castle_allowed(board, turn, ks) && moves@[i] == Move::spec_from_raw(
                        castle_code(turn, ks),
                    );
                let d = castle_dest(turn, ks);
                let path = castle_path(turn, ks);
                Move::lemma_from_raw(castle_code(turn, ks));
                lemma_pack(king_start(turn), d, 0, 2);
                assert(moves@[i].dest() == d);
                assert(bit_at(path, d));
                crate::bitboard::lemma_bit_and(path, board.empty_tiles.0, d);
                crate::bitboard::lemma_bit_not(w | b, d);
                crate::bitboard::lemma_bit_or(w, b, d);
            }
        }
    }
    moves
}

/// Codes strictly increase along `l` (so no move appears twice).
pub open spec fn sorted_codes(l: Seq<Move>) -> bool {
    forall|i: int, j: int| 0 <= i < j < l.len() ==> (#[trigger] l[i]).raw() < (#[trigger] l[j]).raw()
}

/// A list with strictly increasing codes holds no move twice.
pub proof fn lemma_sorted_no_duplicates(l: Seq<Move>)
    requires
        sorted_codes(l),
    ensures
        l.no_duplicates(),
{
    assert forall|i: int, j: int| 0 <= i < l.len() && 0 <= j < l.len() && i != j implies l[i]
        != l[j] by {
        if i < j {
            assert(l[i].raw() < l[j].raw());
        } else {
            assert(l[j].raw() < l[i].raw());
        }
    }
}

/// Inserts `m` at its place by code, unless it is already there.
fn insert_sorted(l: &mut Vec<Move>, m: Move)
    requires
        sorted_codes(old(l)@),
    ensures
        sorted_codes(final(l)@),
        final(l)@.contains(m),
        forall|x: Move| old(l)@.contains(x) ==> final(l)@.contains(x),
        forall|k: int| 0 <= k < final(l)@.len() ==> (#[trigger] final(l)@[k] == m || old(l)@.contains(final(l)@[k])),
{
    let ghost s0 = l@;
    let mut i: usize = 0;
    while i < l.len() && l[i].get_raw() < m.get_raw()
        invariant
            l@ == s0,
            i <= l@.len(),
            forall|k: int| 0 <= k < i ==> (#[trigger] l@[k]).raw() < m.raw(),
        decreases l@.len() - i,
    {
        i += 1;
    }
    if i < l.len() && l[i].get_raw() == m.get_raw() {
        proof {
            Move::lemma_raw_injective(l@[i as int], m);
            assert(l@[i as int] == m);
        }
        return;
    }
    l.insert(i, m);
    proof {
        s0.insert_ensures(i as int, m);
        let s1 = l@;
        assert(s1[i as int] == m);
        assert forall|a: int, b: int| 0 <= a < b < s1.len() implies (#[trigger] s1[a]).raw() < (
        #[trigger] s1[b]).raw() by {
            if b < i {
            } else if a < i && b == i {
            } else if a < i {
                assert(s1[b] == s0[b - 1]);
            } else if a == i {
                assert(s1[b] == s0[b - 1]);
                assert(s0[i as int].raw() > m.raw());
                if b - 1 > i {
                    assert(s0[i as int].raw() < s0[b - 1].raw());
                }
            } else {
                assert(s1[a] == s0[a - 1]);
                assert(s1[b] == s0[b - 1]);
            }
        }
        assert forall|x: Move| s0.contains(x) implies s1.contains(x) by {
            let k = choose|k: int| 0 <= k < s0.len() && s0[k] == x;
            if k < i {
                assert(s1[k] == x);
            } else {
                assert(s1[k + 1] == x);
            }
        }
        assert forall|k: int| 0 <= k < s1.len() implies (#[trigger] s1[k] == m || s0.contains(s1[k])) by {
            if k < i {
                assert(s0[k] == s1[k]);
            } else if k > i {
                assert(s0[k - 1] == s1[k]);
            }
        }
    }
}

impl Board {
    /// The legal moves of the side to move: each pseudo-legal move is tried
    /// on a copy and kept only if the mover's king is then not attacked.
    pub fn generate_moves(&self, turn: Turn) -> (r: Vec<Move>)
        requires
            self.wf(),
            turn == self.turn,
        ensures
            forall|i: int|
                0 <= i < r@.len() ==> pseudo_ok(self, turn, #[trigger] r@[i]) && is_pseudo_move(
                    self,
                    turn,
                    r@[i],
                ) && !in_check_spec(apply_spec(self.view(), r@[i]), turn, *self.tables),
            ({
                let own = side_cells(self.piece_boards@, side_index(turn));
                let enemy = side_cells(self.piece_boards@, 1 - side_index(turn));
                own & (enemy | self.en_passant.0) == 0 ==> forall|i: int|
                    0 <= i < r@.len() ==> !bit_at(own, (#[trigger] r@[i]).dest())
            }),
            forall|m: Move|
                #[trigger] is_pseudo_move(self, turn, m) && !in_check_spec(
                    apply_spec(self.view(), m),
                    turn,
                    *self.tables,
                ) ==> r@.contains(m),
            sorted_codes(r@),
            r@.no_duplicates(),
    {
        let pseudo = generate_pseudo_legal_moves(self, turn);
        let mut result: Vec<Move> = Vec::new();
        let mut i: usize = 0;
        while i < pseudo.len()
            invariant
                self.wf(),
                turn == self.turn,
                i <= pseudo.len(),
                forall|j: int|
                    0 <= j < pseudo@.len() ==> pseudo_ok(self, turn, #[trigger] pseudo@[j])
                        && is_pseudo_move(self, turn, pseudo@[j]),
                forall|j: int|
                    0 <= j < result@.len() ==> pseudo_ok(self, turn, #[trigger] result@[j])
                        && is_pseudo_move(self, turn, result@[j]) && !in_check_spec(
                        apply_spec(self.view(), result@[j]),
                        turn,
                        *self.tables,
                    ),
                forall|j: int|
                    0 <= j < i && !in_check_spec(
                        apply_spec(self.view(), #[trigger] pseudo@[j]),
                        turn,
                        *self.tables,
                    ) ==> result@.contains(pseudo@[j]),
                sorted_codes(result@),
            decreases pseudo.len() - i,
        {
            let m = pseudo[i];
            let ghost before = result@;
            if !self.would_check(m) {
                insert_sorted(&mut result, m);
                proof {
                    assert forall|j: int| 0 <= j < result@.len() implies pseudo_ok(
                        self,
                        turn,
                        #[trigger] result@[j],
                    ) && is_pseudo_move(self, turn, result@[j]) && !in_check_spec(
                        apply_spec(self.view(), result@[j]),
                        turn,
                        *self.tables,
                    ) by {
                        if result@[j] != m {
                            let k = choose|k: int| 0 <= k < before.len() && before[k] == result@[j];
                            assert(pseudo_ok(self, turn, before[k]));
                        }
                    }
                }
            }
            proof {
                assert forall|j: int|
                    0 <= j < i + 1 && !in_check_spec(
                        apply_spec(self.view(), #[trigger] pseudo@[j]),
                        turn,
                        *self.tables,
                    ) implies result@.contains(pseudo@[j]) by {
                    if j < i {
                        assert(before.contains(pseudo@[j]));
                    }
                }
            }
            i += 1;
        }
        proof {
            assert forall|m: Move|
                #[trigger] is_pseudo_move(self, turn, m) && !in_check_spec(
                    apply_spec(self.view(), m),
                    turn,
                    *self.tables,
                ) implies result@.contains(m) by {
                assert(pseudo@.contains(m));
                let j = choose|j: int| 0 <= j < pseudo@.len() && pseudo@[j] == m;
                assert(!in_check_spec(apply_spec(self.view(), pseudo@[j]), turn, *self.tables));
            }
        }
        proof {
            let own = side_cells(self.piece_boards@, side_index(turn));
            let enemy = side_cells(self.piece_boards@, 1 - side_index(turn));
            let ep = self.en_passant.0;
            if own & (enemy | ep) == 0 {
                assert forall|j: int| 0 <= j < result@.len() implies !bit_at(
                    own,
                    (#[trigger] result@[j]).dest(),
                ) by {
                    let d = result@[j].dest();
                    assert(pseudo_ok(self, turn, result@[j]));
                    crate::bitboard::lemma_bit_and(own, enemy | ep, d);
                    crate::bitboard::lemma_bit_or(enemy, ep, d);
                    crate::bitboard::lemma_bit_zero(d);
                }
            }
            lemma_sorted_no_duplicates(result@);
        }
        result
    }
}

} // verus!
