use vstd::prelude::*;
use std::sync::Arc;
use crate::bitboard::{Bitboard, bit_at, single, group_bits, lemma_bits_ext};
use crate::castle_rights::{CastleRights, Turn, WHITE};
use crate::computed_boards::ComputedBoards;
use crate::game_state::StateDelta;
use crate::piece::{Piece, piece_of_index, PIECE_COUNT};
use crate::position::Position;
use crate::zobrist::{ZobristHash, ZobristTable, lemma_xor, lemma_xor_parts};
use vstd::std_specs::bits::u64_trailing_zeros;

verus! {

pub const PLAYER_COUNT: usize = 2;

/// Seed of the hash keys: fixed, so that fingerprints agree across runs.
pub const ZOBRIST_SEED: u64 = 1234;

/// Relies on `Arc::clone`: a second handle to the same value.
#[verifier::external_body]
pub(crate) fn share_tables(t: &Arc<ComputedBoards>) -> (r: Arc<ComputedBoards>)
    ensures
        *r == **t,
{
    Arc::clone(t)
}

/// Builds the tables that boards share: jump tables, magic lookups and hash
/// keys drawn from the fixed seed.
pub fn init_tables() -> (r: Arc<ComputedBoards>)
    ensures
        r.wf(),
{
    Arc::new(ComputedBoards::new(ZOBRIST_SEED))
}

/// `0` or `1` for a side.
pub open spec fn side_index(turn: Turn) -> int {
    if turn {
        1
    } else {
        0
    }
}

/// Index of the piece set of kind `p` and side `turn` (0..11).
pub open spec fn bb_index(p: Piece, turn: Turn) -> int {
    p.spec_index() + 6 * side_index(turn)
}

/// `k` when `c` holds, else 0.
pub open spec fn sel(c: bool, k: u64) -> u64 {
    if c {
        k
    } else {
        0
    }
}

/// XOR of the keys `keys[base + i]` over the members `i < n` of `b`.
pub open spec fn board_hash(b: u64, keys: Seq<u64>, base: int, n: nat) -> u64
    decreases n,
{
    if n == 0 {
        0
    } else {
        board_hash(b, keys, base, (n - 1) as nat) ^ sel(bit_at(b, n - 1), keys[base + n - 1])
    }
}

/// XOR of the keys of every occupied (set, cell) pair over the first `n` sets.
pub open spec fn pieces_hash(pb: Seq<Bitboard>, keys: Seq<u64>, n: nat) -> u64
    decreases n,
{
    if n == 0 {
        0
    } else {
        pieces_hash(pb, keys, (n - 1) as nat) ^ board_hash(pb[n - 1].0, keys, (n - 1) * 64, 64)
    }
}

/// XOR of the keys of the rights that are set.
pub open spec fn castle_hash(cr: CastleRights, ck: Seq<u64>) -> u64 {
    sel(cr.right(0), ck[0]) ^ sel(cr.right(1), ck[1]) ^ sel(cr.right(2), ck[2]) ^ sel(
        cr.right(3),
        ck[3],
    )
}

/// Key of the file of the en-passant target, or 0 when there is none.
pub open spec fn ep_hash(ep: u64, ek: Seq<u64>) -> u64 {
    if ep == 0 {
        0
    } else {
        ek[(u64_trailing_zeros(ep) % 8) as int]
    }
}

/// The fingerprint of a position, computed from scratch.
pub open spec fn full_hash(
    pb: Seq<Bitboard>,
    turn: Turn,
    cr: CastleRights,
    ep: u64,
    z: ZobristTable,
) -> u64 {
    pieces_hash(pb, z.piece_square@, 12) ^ sel(turn == WHITE, z.white_to_move) ^ castle_hash(
        cr,
        z.castle_rights@,
    ) ^ ep_hash(ep, z.en_passant_file@)
}

/// Union of the sets `pb[base .. base + n]`.
pub open spec fn union_upto(pb: Seq<Bitboard>, base: int, n: nat) -> u64
    decreases n,
{
    if n == 0 {
        0
    } else {
        union_upto(pb, base, (n - 1) as nat) | pb[base + n - 1].0
    }
}

/// Kind of the first piece set, from index `k` on, that holds `sq`.
pub open spec fn kind_from(pb: Seq<Bitboard>, sq: int, k: int) -> Piece
    decreases 12 - k,
{
    if k >= 12 || k < 0 {
        Piece::NoPiece
    } else if pb[k].has(sq) {
        piece_of_index(k % 6)
    } else {
        kind_from(pb, sq, k + 1)
    }
}

/// Kind of the piece on `sq` (`NoPiece` when empty).
pub open spec fn kind_at(pb: Seq<Bitboard>, sq: int) -> Piece {
    kind_from(pb, sq, 0)
}

/// Side of the first piece set that holds `sq`, if any.
pub open spec fn side_from(pb: Seq<Bitboard>, sq: int, k: int) -> Option<Turn>
    decreases 12 - k,
{
    if k >= 12 || k < 0 {
        None
    } else if pb[k].has(sq) {
        Some(k >= 6)
    } else {
        side_from(pb, sq, k + 1)
    }
}

/// The piece sets with `sq` taken out of the set of (`turn`, `p`).
pub open spec fn remove_spec(pb: Seq<Bitboard>, turn: Turn, p: Piece, sq: int) -> Seq<Bitboard> {
    if p == Piece::NoPiece {
        pb
    } else {
        pb.update(bb_index(p, turn), Bitboard(pb[bb_index(p, turn)].0 & !single(sq)))
    }
}

/// The piece sets with `sq` put into the set of (`turn`, `p`).
pub open spec fn add_spec(pb: Seq<Bitboard>, turn: Turn, p: Piece, sq: int) -> Seq<Bitboard> {
    if p == Piece::NoPiece {
        pb
    } else {
        pb.update(bb_index(p, turn), Bitboard(pb[bb_index(p, turn)].0 | single(sq)))
    }
}

/// No cell lies in two piece sets.
pub open spec fn disjoint(pb: Seq<Bitboard>) -> bool {
    forall|a: int, b: int, i: int|
        0 <= a < 12 && 0 <= b < 12 && a != b && #[trigger] pb[a].has(i) ==> !#[trigger] pb[b].has(
            i,
        )
}

/// At most one member.
pub open spec fn at_most_one(b: u64) -> bool {
    b == 0 || exists|s: int| 0 <= s < 64 && b == single(s)
}

/// Flipping member `s` of `b` flips the key of `s` in its hash.
pub proof fn lemma_board_hash_toggle(b: u64, keys: Seq<u64>, base: int, s: int, n: nat)
    requires
        0 <= s < 64,
        n <= 64,
    ensures
        board_hash(b ^ single(s), keys, base, n) == board_hash(b, keys, base, n) ^ sel(
            s < n,
            keys[base + s],
        ),
    decreases n,
{
    broadcast use group_bits;

    if n > 0 {
        let m = (n - 1) as nat;
        lemma_board_hash_toggle(b, keys, base, s, m);
        let b2 = b ^ single(s);
        let h0 = board_hash(b, keys, base, m);
        let k = keys[base + s];
        let km = keys[base + m];
        let t = sel(bit_at(b, m as int), km);
        let c = sel(s < m, k);
        assert(board_hash(b2, keys, base, n) == board_hash(b2, keys, base, m) ^ sel(
            bit_at(b2, m as int),
            km,
        ));
        assert(board_hash(b, keys, base, n) == h0 ^ t);
        assert(board_hash(b2, keys, base, m) == h0 ^ c);
        assert(bit_at(b2, m as int) == (bit_at(b, m as int) != (m == s)));
        if s == m {
            assert(c == 0);
            lemma_xor(h0, 0, 0);
            lemma_xor(h0, k, k);
            lemma_xor(k, 0, 0);
            lemma_xor(0, k, 0);
            if bit_at(b, m as int) {
                assert(board_hash(b2, keys, base, n) == h0 ^ 0);
                assert((h0 ^ k) ^ k == h0 ^ (k ^ k));
            } else {
                assert(board_hash(b2, keys, base, n) == h0 ^ k);
                assert((h0 ^ 0) ^ k == h0 ^ k);
            }
        } else {
            assert(sel(bit_at(b2, m as int), km) == t);
            assert(sel(s < n, k) == c);
            lemma_xor(h0, c, t);
            lemma_xor(c, t, 0);
            lemma_xor(h0, t, c);
        }
    } else {
        lemma_xor(0, 0, 0);
    }
}

/// Replacing set `k` changes the hash by the XOR of the old and new sets' hashes.
pub proof fn lemma_pieces_hash_update(pb: Seq<Bitboard>, keys: Seq<u64>, k: int, x: Bitboard, n: nat)
    requires
        0 <= k < pb.len(),
        n <= pb.len(),
    ensures
        pieces_hash(pb.update(k, x), keys, n) == pieces_hash(pb, keys, n) ^ sel(
            k < n,
            board_hash(pb[k].0, keys, k * 64, 64) ^ board_hash(x.0, keys, k * 64, 64),
        ),
    decreases n,
{
    if n > 0 {
        let m = (n - 1) as nat;
        lemma_pieces_hash_update(pb, keys, k, x, m);
        let pb2 = pb.update(k, x);
        let p0 = pieces_hash(pb, keys, m);
        let old_k = board_hash(pb[k].0, keys, k * 64, 64);
        let new_k = board_hash(x.0, keys, k * 64, 64);
        let d = old_k ^ new_k;
        let t = board_hash(pb[m as int].0, keys, (m * 64) as int, 64);
        let t2 = board_hash(pb2[m as int].0, keys, (m * 64) as int, 64);
        assert(pieces_hash(pb, keys, n) == p0 ^ t);
        assert(pieces_hash(pb2, keys, n) == pieces_hash(pb2, keys, m) ^ t2);
        assert(pieces_hash(pb2, keys, m) == p0 ^ sel(k < m, d));
        if k == m {
            assert(sel(k < m, d) == 0);
            assert(t == old_k && t2 == new_k);
            lemma_xor(p0, 0, 0);
            lemma_xor(p0, old_k, d);
            lemma_xor(old_k, old_k, new_k);
            lemma_xor(0, new_k, 0);
            lemma_xor(new_k, 0, 0);
            assert(old_k ^ d == new_k);
            assert((p0 ^ old_k) ^ d == p0 ^ new_k);
        } else {
            assert(t2 == t);
            assert(sel(k < n, d) == sel(k < m, d));
            let c = sel(k < m, d);
            lemma_xor(p0, c, t);
            lemma_xor(c, t, 0);
            lemma_xor(p0, t, c);
        }
    } else {
        lemma_xor(0, 0, 0);
    }
}

/// The mathematical state of a board: piece sets, side to move, en-passant
/// target, counters, castling rights and undo history.
pub struct BoardState {
    pub pieces: Seq<Bitboard>,
    pub turn: Turn,
    pub ep: u64,
    pub half: u8,
    pub full: u16,
    pub castle: CastleRights,
    pub history: Seq<StateDelta>,
}

/// A position: twelve piece sets (White pawn, rook, knight, bishop, king,
/// queen, then Black's), the derived occupancy sets, side to move,
/// en-passant target, counters, castling rights, fingerprint and undo history.
pub struct Board {
    pub piece_boards: [Bitboard; 12],
    pub player_boards: [Bitboard; 2],
    pub empty_tiles: Bitboard,
    pub turn: Turn,
    /// The cell an enemy pawn would capture on en passant, if any.
    pub en_passant: Bitboard,
    pub halfmove_count: u8,
    pub fullmove_count: u16,
    pub castle_rights: CastleRights,
    pub zobrist_key: ZobristHash,
    pub history: Vec<StateDelta>,
    pub tables: Arc<ComputedBoards>,
}

impl Board {
    pub open spec fn view(&self) -> BoardState {
        BoardState {
            pieces: self.piece_boards@,
            turn: self.turn,
            ep: self.en_passant.0,
            half: self.halfmove_count,
            full: self.fullmove_count,
            castle: self.castle_rights,
            history: self.history@,
        }
    }

    pub open spec fn keys(&self) -> ZobristTable {
        self.tables.zobrist
    }

    /// The stored fingerprint equals the from-scratch one.
    pub open spec fn hash_ok(&self) -> bool {
        self.zobrist_key == full_hash(
            self.piece_boards@,
            self.turn,
            self.castle_rights,
            self.en_passant.0,
            self.keys(),
        )
    }

    /// The occupancy and empty sets are those of the twelve piece sets.
    pub open spec fn derived_ok(&self) -> bool {
        &&& self.player_boards[0].0 == union_upto(self.piece_boards@, 0, 6)
        &&& self.player_boards[1].0 == union_upto(self.piece_boards@, 6, 6)
        &&& self.empty_tiles.0 == !(self.player_boards[0].0 | self.player_boards[1].0)
    }

    /// Every undo record holds well-formed rights and en-passant target.
    pub open spec fn history_ok(&self) -> bool {
        forall|i: int|
            0 <= i < self.history@.len() ==> (#[trigger] self.history@[i]).castle_rights.wf()
                && at_most_one(self.history@[i].en_pass.0)
    }

    pub open spec fn wf(&self) -> bool {
        &&& self.tables.wf()
        &&& self.castle_rights.wf()
        &&& at_most_one(self.en_passant.0)
        &&& self.history_ok()
        &&& self.hash_ok()
        &&& self.derived_ok()
    }

    /// Everything but the piece sets and the fingerprint is as in `o`.
    pub open spec fn frame(&self, o: &Board) -> bool {
        &&& self.player_boards == o.player_boards
        &&& self.empty_tiles == o.empty_tiles
        &&& self.turn == o.turn
        &&& self.en_passant == o.en_passant
        &&& self.halfmove_count == o.halfmove_count
        &&& self.fullmove_count == o.fullmove_count
        &&& self.castle_rights == o.castle_rights
        &&& self.history == o.history
        &&& self.tables == o.tables
    }

    pub fn get_bb_index(piece: Piece, turn: Turn) -> (r: usize)
        requires
            piece != Piece::NoPiece,
        ensures
            r == bb_index(piece, turn),
            r < 12,
    {
        piece.index() + if turn {
            PIECE_COUNT
        } else {
            0
        }
    }

    /// The set of (`turn`, `piece`).
    pub fn get_piece_bitboard(&self, piece: Piece, turn: Turn) -> (r: Bitboard)
        requires
            piece != Piece::NoPiece,
        ensures
            r == self.piece_boards@[bb_index(piece, turn)],
    {
        self.piece_boards[Board::get_bb_index(piece, turn)]
    }

    /// Flips the key of (`turn`, `piece`, `pos`) in the fingerprint.
    pub(crate) fn xor_piece_from_zobrist(&mut self, turn: Turn, piece: Piece, pos: Position)
        requires
            old(self).tables.wf(),
            piece != Piece::NoPiece,
        ensures
            final(self).zobrist_key == old(self).zobrist_key ^ old(self).keys().piece_square@[bb_index(
                piece,
                turn,
            ) * 64 + pos.idx()],
            final(self).piece_boards == old(self).piece_boards,
            final(self).frame(old(self)),
    {
        let k = Board::get_bb_index(piece, turn);
        let sq = pos.as_usize();
        self.zobrist_key = self.zobrist_key ^ self.tables.zobrist.piece_square[k * 64 + sq];
    }

    /// Flips cell `sq` of set `k`, in the set and in the fingerprint.
    fn toggle(&mut self, k: usize, turn: Turn, piece: Piece, pos: Position)
        requires
            old(self).tables.wf(),
            old(self).hash_ok(),
            piece != Piece::NoPiece,
            k == bb_index(piece, turn),
        ensures
            final(self).hash_ok(),
            final(self).piece_boards@ == old(self).piece_boards@.update(
                k as int,
                Bitboard(old(self).piece_boards@[k as int].0 ^ single(pos.idx())),
            ),
            final(self).frame(old(self)),
    {
        let sq = pos.as_usize();
        let b = self.piece_boards[k];
        let nb = Bitboard(b.0 ^ (1u64 << sq as u64));
        let ghost pb0 = self.piece_boards@;
        self.piece_boards[k] = nb;
        self.xor_piece_from_zobrist(turn, piece, pos);
        proof {
            let keys = self.keys().piece_square@;
            let key = keys[k * 64 + sq];
            lemma_board_hash_toggle(b.0, keys, k * 64, sq as int, 64);
            lemma_pieces_hash_update(pb0, keys, k as int, nb, 12);
            let bh = board_hash(b.0, keys, k * 64, 64);
            lemma_xor(bh, bh, key);
            lemma_xor(0, key, 0);
            lemma_xor(key, 0, 0);
            assert(bh ^ (bh ^ key) == key);
            assert(pieces_hash(self.piece_boards@, keys, 12) == pieces_hash(pb0, keys, 12) ^ key);
            lemma_xor_parts(
                pieces_hash(pb0, keys, 12),
                sel(self.turn == WHITE, self.keys().white_to_move),
                castle_hash(self.castle_rights, self.keys().castle_rights@),
                ep_hash(self.en_passant.0, self.keys().en_passant_file@),
                key,
            );
        }
    }

    /// Takes `pos` out of the set of (`turn`, `piece`), in the set and in the
    /// fingerprint; nothing happens when it is not there.
    pub(crate) fn remove_piece(&mut self, turn: Turn, piece: Piece, pos: Position)
        requires
            old(self).tables.wf(),
            old(self).hash_ok(),
        ensures
            final(self).hash_ok(),
            final(self).piece_boards@ == remove_spec(old(self).piece_boards@, turn, piece, pos.idx()),
            final(self).frame(old(self)),
    {
        broadcast use group_bits;

        if piece != Piece::NoPiece {
            let k = Board::get_bb_index(piece, turn);
            let sq = pos.as_usize();
            let b = self.piece_boards[k];
            if b.is_square_set(sq) {
                self.toggle(k, turn, piece, pos);
                proof {
                    lemma_bits_ext(b.0 ^ single(sq as int), b.0 & !single(sq as int));
                    assert(self.piece_boards@ =~= remove_spec(old(self).piece_boards@, turn, piece, sq as int));
                }
            } else {
                proof {
                    lemma_bits_ext(b.0, b.0 & !single(sq as int));
                    assert(self.piece_boards@ =~= remove_spec(old(self).piece_boards@, turn, piece, sq as int));
                }
            }
        }
    }

    /// Puts `pos` into the set of (`turn`, `piece`), in the set and in the
    /// fingerprint; nothing happens when it is already there.
    pub(crate) fn add_piece(&mut self, turn: Turn, piece: Piece, pos: Position)
        requires
            old(self).tables.wf(),
            old(self).hash_ok(),
        ensures
            final(self).hash_ok(),
            final(self).piece_boards@ == add_spec(old(self).piece_boards@, turn, piece, pos.idx()),
            final(self).frame(old(self)),
    {
        broadcast use group_bits;

        if piece != Piece::NoPiece {
            let k = Board::get_bb_index(piece, turn);
            let sq = pos.as_usize();
            let b = self.piece_boards[k];
            if !b.is_square_set(sq) {
                self.toggle(k, turn, piece, pos);
                proof {
                    lemma_bits_ext(b.0 ^ single(sq as int), b.0 | single(sq as int));
                    assert(self.piece_boards@ =~= add_spec(old(self).piece_boards@, turn, piece, sq as int));
                }
            } else {
                proof {
                    lemma_bits_ext(b.0, b.0 | single(sq as int));
                    assert(self.piece_boards@ =~= add_spec(old(self).piece_boards@, turn, piece, sq as int));
                }
            }
        }
    }

    /// Flips the key of the file of the en-passant target `en_passant` (if
    /// any) in the fingerprint.
    pub(crate) fn xor_en_pass_from_zobrist(&mut self, en_passant: Bitboard)
        requires
            old(self).tables.wf(),
        ensures
            final(self).zobrist_key == old(self).zobrist_key ^ ep_hash(
                en_passant.0,
                old(self).keys().en_passant_file@,
            ),
            final(self).piece_boards == old(self).piece_boards,
            final(self).frame(old(self)),
    {
        if en_passant.is_not_empty() {
            let file = en_passant.trailing_zeros() % 8;
            self.zobrist_key = self.zobrist_key ^ self.tables.zobrist.en_passant_file[file];
        } else {
            proof {
                lemma_xor(self.zobrist_key, 0, 0);
            }
        }
    }

    /// Clears the castling right of `turn` on the given side, in the rights
    /// and in the fingerprint.
    pub(crate) fn remove_castle(&mut self, turn: Turn, king_side: bool)
        requires
            old(self).tables.wf(),
            old(self).hash_ok(),
            old(self).castle_rights.wf(),
        ensures
            final(self).hash_ok(),
            final(self).castle_rights == old(self).castle_rights.spec_remove(turn, king_side),
            final(self).castle_rights.wf(),
            final(self).piece_boards == old(self).piece_boards,
            final(self).player_boards == old(self).player_boards,
            final(self).empty_tiles == old(self).empty_tiles,
            final(self).turn == old(self).turn,
            final(self).en_passant == old(self).en_passant,
            final(self).halfmove_count == old(self).halfmove_count,
            final(self).fullmove_count == old(self).fullmove_count,
            final(self).history == old(self).history,
            final(self).tables == old(self).tables,
    {
        proof {
            self.castle_rights.lemma_remove(turn, king_side);
        }
        if self.castle_rights.can_castle(turn, king_side) {
            let index = self.castle_rights.castle_index(turn, king_side);
            let ghost cr0 = self.castle_rights;
            self.zobrist_key = self.zobrist_key ^ self.tables.zobrist.castle_rights[index];
            self.castle_rights.remove_castle_right(turn, king_side);
            proof {
                let ck = self.keys().castle_rights@;
                let cr1 = self.castle_rights;
                let t0 = sel(cr0.right(0), ck[0]);
                let t1 = sel(cr0.right(1), ck[1]);
                let t2 = sel(cr0.right(2), ck[2]);
                let t3 = sel(cr0.right(3), ck[3]);
                let k = ck[index as int];
                lemma_xor(k, k, 0);
                assert(cr1.right(0) == (cr0.right(0) && index != 0));
                assert(cr1.right(1) == (cr0.right(1) && index != 1));
                assert(cr1.right(2) == (cr0.right(2) && index != 2));
                assert(cr1.right(3) == (cr0.right(3) && index != 3));
                if index == 0 {
                    lemma_xor_parts(t0, t1, t2, t3, k);
                } else if index == 1 {
                    lemma_xor_parts(t0, t1, t2, t3, k);
                } else if index == 2 {
                    lemma_xor_parts(t0, t1, t2, t3, k);
                } else {
                    lemma_xor_parts(t0, t1, t2, t3, k);
                }
                assert(castle_hash(cr1, ck) == castle_hash(cr0, ck) ^ k);
                lemma_xor_parts(
                    pieces_hash(self.piece_boards@, self.keys().piece_square@, 12),
                    sel(self.turn == WHITE, self.keys().white_to_move),
                    castle_hash(cr0, ck),
                    ep_hash(self.en_passant.0, self.keys().en_passant_file@),
                    k,
                );
            }
        }
    }

    /// Recomputes the occupancy and empty sets from the twelve piece sets.
    pub(crate) fn compute_bitboards(&mut self)
        ensures
            final(self).derived_ok(),
            final(self).piece_boards == old(self).piece_boards,
            final(self).zobrist_key == old(self).zobrist_key,
            final(self).turn == old(self).turn,
            final(self).en_passant == old(self).en_passant,
            final(self).halfmove_count == old(self).halfmove_count,
            final(self).fullmove_count == old(self).fullmove_count,
            final(self).castle_rights == old(self).castle_rights,
            final(self).history == old(self).history,
            final(self).tables == old(self).tables,
    {
        let mut white_pieces: u64 = 0;
        let mut black_pieces: u64 = 0;
        let mut index: usize = 0;
        while index < 6
            invariant
                index <= 6,
                white_pieces == union_upto(self.piece_boards@, 0, index as nat),
                black_pieces == union_upto(self.piece_boards@, 6, index as nat),
            decreases 6 - index,
        {
            white_pieces = white_pieces | self.piece_boards[index].0;
            black_pieces = black_pieces | self.piece_boards[index + 6].0;
            index += 1;
        }
        self.player_boards = [Bitboard(white_pieces), Bitboard(black_pieces)];
        self.empty_tiles = Bitboard(!(white_pieces | black_pieces));
    }

    /// Kind of the piece on `pos` (`NoPiece` when empty).
    pub(crate) fn get_piece_type_containing_position(&self, pos: Position) -> (r: Piece)
        ensures
            r == kind_at(self.piece_boards@, pos.idx()),
    {
        let sq = pos.as_usize();
        let mut index: usize = 0;
        while index < 12
            invariant
                index <= 12,
                sq == pos.idx(),
                kind_from(self.piece_boards@, sq as int, 0) == kind_from(
                    self.piece_boards@,
                    sq as int,
                    index as int,
                ),
            decreases 12 - index,
        {
            if self.piece_boards[index].is_square_set(sq) {
                return Piece::from_index(index % PIECE_COUNT);
            }
            index += 1;
        }
        Piece::NoPiece
    }

    /// Kind and side of the piece on `pos`, if any.
    pub fn get_piece_at(&self, pos: Position) -> (r: Option<(Piece, Turn)>)
        ensures
            r == match side_from(self.piece_boards@, pos.idx(), 0) {
                Some(t) => Some((kind_at(self.piece_boards@, pos.idx()), t)),
                None => None,
            },
    {
        let sq = pos.as_usize();
        let mut index: usize = 0;
        while index < 12
            invariant
                index <= 12,
                sq == pos.idx(),
                kind_from(self.piece_boards@, sq as int, 0) == kind_from(
                    self.piece_boards@,
                    sq as int,
                    index as int,
                ),
                side_from(self.piece_boards@, sq as int, 0) == side_from(
                    self.piece_boards@,
                    sq as int,
                    index as int,
                ),
            decreases 12 - index,
        {
            if self.piece_boards[index].is_square_set(sq) {
                return Some((Piece::from_index(index % PIECE_COUNT), index >= PIECE_COUNT));
            }
            index += 1;
        }
        None
    }

    /// Sets the fingerprint to the from-scratch one.
    fn compute_initial_zobrist(&mut self)
        requires
            old(self).tables.wf(),
        ensures
            final(self).hash_ok(),
            final(self).piece_boards == old(self).piece_boards,
            final(self).frame(old(self)),
    {
        let h = self.tables.zobrist.hash_position(self);
        self.zobrist_key = h;
    }

    /// An empty board, White to move, all castling rights, counters zero.
    pub(crate) fn new_empty(tables: Arc<ComputedBoards>) -> (r: Board)
        requires
            tables.wf(),
        ensures
            r.wf(),
            forall|k: int| 0 <= k < 12 ==> (#[trigger] r.piece_boards@[k]).0 == 0,
            r.turn == WHITE,
            forall|i: int| 0 <= i < 4 ==> #[trigger] r.castle_rights.right(i),
            r.en_passant.0 == 0,
            r.halfmove_count == 0,
            r.fullmove_count == 0,
            r.history@.len() == 0,
            *r.tables == *tables,
    {
        Board::new_from_bitboards_with_tables(
            [Bitboard(0); 12],
            WHITE,
            Bitboard(0),
            0,
            0,
            CastleRights::make_default(),
            tables,
        )
    }

    /// A board from its twelve piece sets, side to move, en-passant target,
    /// counters and castling rights, sharing the given tables; the derived
    /// sets and the fingerprint are computed, the history is empty.
    pub fn new_from_bitboards_with_tables(
        piece_boards: [Bitboard; 12],
        turn: Turn,
        en_passant: Bitboard,
        halfmove: u8,
        fullmove: u16,
        castle_rights: CastleRights,
        tables: Arc<ComputedBoards>,
    ) -> (r: Board)
        requires
            tables.wf(),
            castle_rights.wf(),
            at_most_one(en_passant.0),
        ensures
            r.wf(),
            r.view() == (BoardState {
                pieces: piece_boards@,
                turn,
                ep: en_passant.0,
                half: halfmove,
                full: fullmove,
                castle: castle_rights,
                history: Seq::empty(),
            }),
            *r.tables == *tables,
    {
        let mut board = Board {
            piece_boards,
            player_boards: [Bitboard(0), Bitboard(0)],
            empty_tiles: Bitboard(0),
            turn,
            en_passant,
            halfmove_count: halfmove,
            fullmove_count: fullmove,
            castle_rights,
            zobrist_key: 0,
            history: Vec::new(),
            tables,
        };
        board.compute_bitboards();
        board.compute_initial_zobrist();
        proof {
            assert(board.history@ =~= Seq::<StateDelta>::empty());
        }
        board
    }

    /// As `new_from_bitboards_with_tables`, with freshly built tables and hash
    /// keys drawn from the fixed seed.
    pub fn new_from_bitboards(
        piece_boards: [Bitboard; 12],
        turn: Turn,
        en_passant: Bitboard,
        halfmove: u8,
        fullmove: u16,
        castle_rights: CastleRights,
    ) -> (r: Board)
        requires
            castle_rights.wf(),
            at_most_one(en_passant.0),
        ensures
            r.wf(),
            r.view() == (BoardState {
                pieces: piece_boards@,
                turn,
                ep: en_passant.0,
                half: halfmove,
                full: fullmove,
                castle: castle_rights,
                history: Seq::empty(),
            }),
    {
        let tables = Arc::new(ComputedBoards::new(ZOBRIST_SEED));
        Board::new_from_bitboards_with_tables(
            piece_boards,
            turn,
            en_passant,
            halfmove,
            fullmove,
            castle_rights,
            tables,
        )
    }

    /// The fingerprint.
    pub fn zobrist_key(&self) -> (r: ZobristHash)
        ensures
            r == self.zobrist_key,
    {
        self.zobrist_key
    }

    /// The fingerprint recomputed from scratch.
    pub fn recompute_hash(&self) -> (r: ZobristHash)
        requires
            self.tables.wf(),
            self.castle_rights.wf(),
        ensures
            r == full_hash(
                self.piece_boards@,
                self.turn,
                self.castle_rights,
                self.en_passant.0,
                self.keys(),
            ),
    {
        self.tables.zobrist.hash_position(self)
    }

    /// Number of records on the undo history.
    pub fn history_len(&self) -> (r: usize)
        ensures
            r == self.history@.len(),
    {
        self.history.len()
    }
}

} // verus!
