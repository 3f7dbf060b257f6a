use vstd::prelude::*;
use crate::bitboard::{Bitboard, bit_at, single, group_bits};
use crate::board::{Board, BoardState, disjoint, kind_at, bb_index, side_index, add_spec, remove_spec, sel, pieces_hash, castle_hash, ep_hash};
use crate::castle_rights::{CastleRights, Turn, WHITE};
use crate::chess_move::{Move, SpecialMove, promo_piece};
use crate::game_state::StateDelta;
use crate::piece::Piece;
use crate::position::{Position, cell_of_text};
use crate::piece::{piece_of_letter, piece_of_index};
use vstd::string::StringSliceAdditionalSpecFns;
use crate::move_generation::{pseudo_ok, in_check_spec, is_pseudo_move};
use crate::zobrist::{lemma_xor, lemma_xor_parts};

verus! {

/// Offset from a capture destination back to the pawn taken en passant.
pub open spec fn backward(turn: Turn) -> int {
    if turn == WHITE {
        -8
    } else {
        8
    }
}

/// Start cell of `turn`'s rook on the given side.
pub open spec fn rook_home(turn: Turn, king_side: bool) -> int {
    (if turn {
        56int
    } else {
        0int
    }) + (if king_side {
        7int
    } else {
        0int
    })
}

/// Cell of `turn`'s rook after castling on the given side.
pub open spec fn rook_castled(turn: Turn, king_side: bool) -> int {
    (if turn {
        56int
    } else {
        0int
    }) + (if king_side {
        5int
    } else {
        3int
    })
}

/// A castle towards the king's side unless its destination is on file c.
pub open spec fn castle_king_side(m: Move) -> bool {
    m.dest() % 8 != 2
}

/// Piece sets after side `turn` plays `m`.
pub open spec fn apply_pieces(pb: Seq<Bitboard>, turn: Turn, m: Move) -> Seq<Bitboard> {
    let o = m.origin();
    let d = m.dest();
    let cap = kind_at(pb, d);
    let mov = kind_at(pb, o);
    let p1 = add_spec(remove_spec(pb, turn, mov, o), turn, mov, d);
    let p2 = if cap != Piece::NoPiece {
        remove_spec(p1, !turn, cap, d)
    } else {
        p1
    };
    if m.kind() == 3 {
        add_spec(remove_spec(p2, turn, mov, d), turn, promo_piece(m.promo()), d)
    } else if m.kind() == 2 {
        let ks = castle_king_side(m);
        add_spec(
            remove_spec(p2, turn, Piece::Rook, rook_home(turn, ks)),
            turn,
            Piece::Rook,
            rook_castled(turn, ks),
        )
    } else if m.kind() == 1 {
        let c = d + backward(turn);
        if 0 <= c < 64 {
            remove_spec(p2, !turn, Piece::Pawn, c)
        } else {
            p2
        }
    } else {
        p2
    }
}

/// Kind captured by `m`: a pawn for en passant, else what stood on the destination.
pub open spec fn captured_of(pb: Seq<Bitboard>, m: Move) -> Option<Piece> {
    if m.kind() == 1 {
        Some(Piece::Pawn)
    } else if kind_at(pb, m.dest()) != Piece::NoPiece {
        Some(kind_at(pb, m.dest()))
    } else {
        None
    }
}

/// Whether `m` moves a pawn two ranks.
pub open spec fn is_double_push(pb: Seq<Bitboard>, m: Move) -> bool {
    kind_at(pb, m.origin()) == Piece::Pawn && (m.origin() - m.dest() == 16 || m.dest()
        - m.origin() == 16)
}

/// En-passant target after `m`: the cell passed over by a two-rank pawn advance.
pub open spec fn ep_after(pb: Seq<Bitboard>, m: Move) -> u64 {
    if is_double_push(pb, m) {
        single((m.origin() + m.dest()) / 2)
    } else {
        0
    }
}

/// Castling rights after `turn` plays `m`: a king move clears both of its
/// side's rights, a rook leaving its start cell clears that side's right,
/// and any move onto an enemy rook's start cell clears that enemy right.
pub open spec fn castle_after(cr: CastleRights, pb: Seq<Bitboard>, turn: Turn, m: Move) -> CastleRights {
    let o = m.origin();
    let d = m.dest();
    let mov = kind_at(pb, o);
    let c1 = if mov == Piece::King {
        cr.spec_remove(turn, true).spec_remove(turn, false)
    } else if mov == Piece::Rook {
        let a = if o == rook_home(turn, true) {
            cr.spec_remove(turn, true)
        } else {
            cr
        };
        if o == rook_home(turn, false) {
            a.spec_remove(turn, false)
        } else {
            a
        }
    } else {
        cr
    };
    let c2 = if d == rook_home(!turn, true) {
        c1.spec_remove(!turn, true)
    } else {
        c1
    };
    if d == rook_home(!turn, false) {
        c2.spec_remove(!turn, false)
    } else {
        c2
    }
}

/// Half-move counter after `m`: reset by a pawn move or a capture, else one more.
pub open spec fn half_after(half: u8, pb: Seq<Bitboard>, m: Move) -> u8 {
    if kind_at(pb, m.origin()) == Piece::Pawn || captured_of(pb, m) is Some {
        0
    } else {
        vstd::wrapping::u8_specs::wrapping_add(half, 1)
    }
}

/// The state after the side to move plays `m`.
pub open spec fn apply_spec(s: BoardState, m: Move) -> BoardState {
    BoardState {
        pieces: apply_pieces(s.pieces, s.turn, m),
        turn: !s.turn,
        ep: ep_after(s.pieces, m),
        half: half_after(s.half, s.pieces, m),
        full: vstd::wrapping::u16_specs::wrapping_add(s.full, 1),
        castle: castle_after(s.castle, s.pieces, s.turn, m),
        history: s.history.push(
            StateDelta {
                move_: m,
                captured_piece: captured_of(s.pieces, m),
                en_pass: Bitboard(s.ep),
                castle_rights: s.castle,
                halfmove: s.half,
            },
        ),
    }
}

/// Piece sets after taking back the move of record `rec`, played by side `t`.
pub open spec fn undo_pieces(pb: Seq<Bitboard>, t: Turn, rec: StateDelta) -> Seq<Bitboard> {
    let m = rec.move_;
    let o = m.origin();
    let d = m.dest();
    let mov = kind_at(pb, d);
    let p1 = remove_spec(add_spec(pb, t, mov, o), t, mov, d);
    let p2 = match rec.captured_piece {
        Some(c) => add_spec(p1, !t, c, d),
        None => p1,
    };
    if m.kind() == 3 {
        add_spec(remove_spec(p2, t, mov, o), t, Piece::Pawn, o)
    } else if m.kind() == 2 {
        let ks = castle_king_side(m);
        remove_spec(
            add_spec(p1, t, Piece::Rook, rook_home(t, ks)),
            t,
            Piece::Rook,
            rook_castled(t, ks),
        )
    } else if m.kind() == 1 {
        let c = d + backward(t);
        if 0 <= c < 64 {
            add_spec(p1, !t, Piece::Pawn, c)
        } else {
            p1
        }
    } else {
        p2
    }
}

/// The state after taking back the last move (the history must not be empty).
pub open spec fn undo_spec(s: BoardState) -> BoardState {
    let rec = s.history.last();
    let t = !s.turn;
    BoardState {
        pieces: undo_pieces(s.pieces, t, rec),
        turn: t,
        ep: rec.en_pass.0,
        half: rec.halfmove,
        full: vstd::wrapping::u16_specs::wrapping_sub(s.full, 1),
        castle: rec.castle_rights,
        history: s.history.drop_last(),
    }
}

impl Board {
    /// Replaces the en-passant target, in the board and in the fingerprint.
    fn set_en_passant(&mut self, ep: Bitboard)
        requires
            old(self).tables.wf(),
            old(self).hash_ok(),
        ensures
            final(self).hash_ok(),
            final(self).en_passant == ep,
            final(self).piece_boards == old(self).piece_boards,
            final(self).player_boards == old(self).player_boards,
            final(self).empty_tiles == old(self).empty_tiles,
            final(self).turn == old(self).turn,
            final(self).halfmove_count == old(self).halfmove_count,
            final(self).fullmove_count == old(self).fullmove_count,
            final(self).castle_rights == old(self).castle_rights,
            final(self).history == old(self).history,
            final(self).tables == old(self).tables,
    {
        let ghost h0 = self.zobrist_key;
        let ghost ek = self.keys().en_passant_file@;
        let old_ep = self.en_passant;
        self.xor_en_pass_from_zobrist(old_ep);
        self.xor_en_pass_from_zobrist(ep);
        self.en_passant = ep;
        proof {
            let a = pieces_hash(self.piece_boards@, self.keys().piece_square@, 12);
            let b = sel(self.turn == WHITE, self.keys().white_to_move);
            let c = castle_hash(self.castle_rights, self.keys().castle_rights@);
            let e0 = ep_hash(old_ep.0, ek);
            let e1 = ep_hash(ep.0, ek);
            lemma_xor(e0, e0, e1);
            lemma_xor(0, e1, 0);
            lemma_xor(e1, 0, 0);
            lemma_xor(h0, e0, e1);
            lemma_xor_parts(a, b, c, e0, e0 ^ e1);
        }
    }

    /// Hands the move to the other side, in the board and in the fingerprint.
    fn flip_turn(&mut self)
        requires
            old(self).tables.wf(),
            old(self).hash_ok(),
        ensures
            final(self).hash_ok(),
            final(self).turn == !old(self).turn,
            final(self).piece_boards == old(self).piece_boards,
            final(self).player_boards == old(self).player_boards,
            final(self).empty_tiles == old(self).empty_tiles,
            final(self).en_passant == old(self).en_passant,
            final(self).halfmove_count == old(self).halfmove_count,
            final(self).fullmove_count == old(self).fullmove_count,
            final(self).castle_rights == old(self).castle_rights,
            final(self).history == old(self).history,
            final(self).tables == old(self).tables,
    {
        let ghost t0 = self.turn;
        self.zobrist_key = self.zobrist_key ^ self.tables.zobrist.white_to_move;
        self.turn = !self.turn;
        proof {
            let w = self.keys().white_to_move;
            let a = pieces_hash(self.piece_boards@, self.keys().piece_square@, 12);
            let c = castle_hash(self.castle_rights, self.keys().castle_rights@);
            let e = ep_hash(self.en_passant.0, self.keys().en_passant_file@);
            lemma_xor(w, w, 0);
            lemma_xor(0, w, 0);
            lemma_xor(w, 0, 0);
            assert(sel(self.turn == WHITE, w) == sel(t0 == WHITE, w) ^ w);
            lemma_xor_parts(a, sel(t0 == WHITE, w), c, e, w);
        }
    }
}

impl Board {
    /// Plays `move_` for the side to move: places the moving piece (or the
    /// promoted kind) on the destination, removes what it captures (for en
    /// passant, the pawn behind the destination), moves the rook of a castle,
    /// updates the en-passant target, castling rights and counters, hands the
    /// move over and records what undo needs. Every step keeps the fingerprint
    /// equal to the from-scratch one. The move should come from legal
    /// generation; for any other move the board stays well formed.
    /// The placement part of a move: the piece sets (and fingerprint) after
    /// it, with the moving kind and the captured kind.
    fn place_move(&mut self, move_: Move) -> (r: (Piece, Option<Piece>))
        requires
            old(self).tables.wf(),
            old(self).hash_ok(),
        ensures
            final(self).hash_ok(),
            final(self).piece_boards@ == apply_pieces(old(self).piece_boards@, old(self).turn, move_),
            r.0 == kind_at(old(self).piece_boards@, move_.origin()),
            r.1 == captured_of(old(self).piece_boards@, move_),
            final(self).frame(old(self)),
    {
        let (origin, destination) = move_.get_org_and_dest();
        let captured = self.get_piece_type_containing_position(destination);
        let mut captured_piece: Option<Piece> = if captured != Piece::NoPiece {
            Some(captured)
        } else {
            None
        };
        let moving_piece = self.get_piece_type_containing_position(origin);
        let turn = self.turn;

        self.remove_piece(turn, moving_piece, origin);
        self.add_piece(turn, moving_piece, destination);
        match captured_piece {
            Some(c) => self.remove_piece(!turn, c, destination),
            None => {},
        }
        match move_.get_special_move() {
            SpecialMove::Promotion => {
                let promote_to = move_.get_promotion();
                self.remove_piece(turn, moving_piece, destination);
                self.add_piece(turn, promote_to, destination);
            },
            SpecialMove::Castle => {
                let (dest_file, _) = destination.get_file_and_rank();
                let king_side = dest_file != 2;
                let base: usize = if turn == WHITE { 0 } else { 56 };
                let home = Position::new(base + if king_side { 7 } else { 0 });
                let landing = Position::new(base + if king_side { 5 } else { 3 });
                self.remove_piece(turn, Piece::Rook, home);
                self.add_piece(turn, Piece::Rook, landing);
            },
            SpecialMove::EnPassant => {
                captured_piece = Some(Piece::Pawn);
                let back: i8 = if turn == WHITE { -8 } else { 8 };
                proof {
                    if 0 <= destination.idx() + back < 64 {
                        Position::lemma_spec_at(destination.idx() + back);
                    }
                }
                match destination.try_offset(back) {
                    Some(pawn_pos) => self.remove_piece(!turn, Piece::Pawn, pawn_pos),
                    None => {},
                }
            },
            SpecialMove::NormalMove => {},
        }
        (moving_piece, captured_piece)
    }

    pub fn commit_verified_move(&mut self, move_: Move)
        requires
            old(self).wf(),
        ensures
            final(self).wf(),
            final(self).hash_ok(),
            final(self).view() == apply_spec(old(self).view(), move_),
            final(self).tables == old(self).tables,
    {
        let ghost s0 = self.view();
        let o = move_.get_origin().as_usize();
        let d = move_.get_dest().as_usize();
        let turn = self.turn;
        let old_ep = self.en_passant;
        let old_castle = self.castle_rights;
        let old_half = self.halfmove_count;
        let (moving_piece, captured_piece) = self.place_move(move_);

        self.history.push(StateDelta::new(move_, captured_piece, old_ep, old_castle, old_half));

        let new_ep = if moving_piece == Piece::Pawn && (o == d + 16 || d == o + 16) {
            Bitboard(1u64 << ((o + d) / 2) as u64)
        } else {
            Bitboard(0)
        };
        self.set_en_passant(new_ep);

        if moving_piece == Piece::King {
            self.remove_castle(turn, true);
            self.remove_castle(turn, false);
        } else if moving_piece == Piece::Rook {
            let home_base: usize = if turn == WHITE { 0 } else { 56 };
            if o == home_base + 7 {
                self.remove_castle(turn, true);
            }
            if o == home_base {
                self.remove_castle(turn, false);
            }
        }
        let enemy_base: usize = if turn == WHITE { 56 } else { 0 };
        if d == enemy_base + 7 {
            self.remove_castle(!turn, true);
        }
        if d == enemy_base {
            self.remove_castle(!turn, false);
        }

        self.fullmove_count = self.fullmove_count.wrapping_add(1);
        if moving_piece == Piece::Pawn || captured_piece.is_some() {
            self.halfmove_count = 0;
        } else {
            self.halfmove_count = self.halfmove_count.wrapping_add(1);
        }
        self.flip_turn();
        self.compute_bitboards();
        proof {
            broadcast use group_bits;

            if moving_piece == Piece::Pawn && (o == d + 16 || d == o + 16) {
                let w = ((o + d) / 2) as int;
                assert(0 <= w < 64 && self.en_passant.0 == single(w));
            }

            assert(self.history@ =~= s0.history.push(
                StateDelta {
                    move_,
                    captured_piece: captured_of(s0.pieces, move_),
                    en_pass: Bitboard(s0.ep),
                    castle_rights: s0.castle,
                    halfmove: s0.half,
                },
            ));
        }
    }
}

impl Board {
    /// Replaces the castling rights, flipping in the fingerprint the key of
    /// every right that changes.
    fn restore_castle(&mut self, cr: CastleRights)
        requires
            old(self).tables.wf(),
            old(self).hash_ok(),
            old(self).castle_rights.wf(),
            cr.wf(),
        ensures
            final(self).hash_ok(),
            final(self).castle_rights == cr,
            final(self).piece_boards == old(self).piece_boards,
            final(self).player_boards == old(self).player_boards,
            final(self).empty_tiles == old(self).empty_tiles,
            final(self).turn == old(self).turn,
            final(self).en_passant == old(self).en_passant,
            final(self).halfmove_count == old(self).halfmove_count,
            final(self).fullmove_count == old(self).fullmove_count,
            final(self).history == old(self).history,
            final(self).tables == old(self).tables,
    {
        let ghost h0 = self.zobrist_key;
        let ghost c0 = self.castle_rights;
        let d0: u64 = if self.castle_rights.castle_at_index(0) != cr.castle_at_index(0) {
            self.tables.zobrist.castle_rights[0]
        } else {
            0
        };
        let d1: u64 = if self.castle_rights.castle_at_index(1) != cr.castle_at_index(1) {
            self.tables.zobrist.castle_rights[1]
        } else {
            0
        };
        let d2: u64 = if self.castle_rights.castle_at_index(2) != cr.castle_at_index(2) {
            self.tables.zobrist.castle_rights[2]
        } else {
            0
        };
        let d3: u64 = if self.castle_rights.castle_at_index(3) != cr.castle_at_index(3) {
            self.tables.zobrist.castle_rights[3]
        } else {
            0
        };
        self.zobrist_key = self.zobrist_key ^ d0 ^ d1 ^ d2 ^ d3;
        self.castle_rights = cr;
        proof {
            let ck = self.keys().castle_rights@;
            let a = pieces_hash(self.piece_boards@, self.keys().piece_square@, 12);
            let b = sel(self.turn == WHITE, self.keys().white_to_move);
            let e = ep_hash(self.en_passant.0, self.keys().en_passant_file@);
            let t0 = sel(c0.right(0), ck[0]);
            let t1 = sel(c0.right(1), ck[1]);
            let t2 = sel(c0.right(2), ck[2]);
            let t3 = sel(c0.right(3), ck[3]);
            lemma_xor(t0, ck[0], 0);
            lemma_xor(ck[0], ck[0], 0);
            lemma_xor(0, ck[0], 0);
            lemma_xor(t1, ck[1], 0);
            lemma_xor(ck[1], ck[1], 0);
            lemma_xor(0, ck[1], 0);
            lemma_xor(t2, ck[2], 0);
            lemma_xor(ck[2], ck[2], 0);
            lemma_xor(0, ck[2], 0);
            lemma_xor(t3, ck[3], 0);
            lemma_xor(ck[3], ck[3], 0);
            lemma_xor(0, ck[3], 0);
            lemma_xor(t0, 0, 0);
            lemma_xor(t1, 0, 0);
            lemma_xor(t2, 0, 0);
            lemma_xor(t3, 0, 0);
            assert(sel(cr.right(0), ck[0]) == t0 ^ d0);
            assert(sel(cr.right(1), ck[1]) == t1 ^ d1);
            assert(sel(cr.right(2), ck[2]) == t2 ^ d2);
            assert(sel(cr.right(3), ck[3]) == t3 ^ d3);
            lemma_xor_parts(t0, t1, t2, t3, d0);
            lemma_xor_parts(t0 ^ d0, t1, t2, t3, d1);
            lemma_xor_parts(t0 ^ d0, t1 ^ d1, t2, t3, d2);
            lemma_xor_parts(t0 ^ d0, t1 ^ d1, t2 ^ d2, t3, d3);
            let c_old = castle_hash(c0, ck);
            let c1 = c_old ^ d0;
            let c2 = c1 ^ d1;
            let c3 = c2 ^ d2;
            let c4 = c3 ^ d3;
            assert(castle_hash(cr, ck) == c4);
            lemma_xor_parts(a, b, c_old, e, d0);
            lemma_xor_parts(a, b, c1, e, d1);
            lemma_xor_parts(a, b, c2, e, d2);
            lemma_xor_parts(a, b, c3, e, d3);
        }
    }

    /// Takes back the last move: restores the side to move, the counters,
    /// castling rights and en-passant target from the record, moves the piece
    /// back (un-promoting it, putting a castled rook home, restoring what it
    /// captured), and flips in the fingerprint exactly what the move flipped.
    /// Undo on an empty history is a caller error and is excluded.
    pub fn unmake_move(&mut self)
        requires
            old(self).wf(),
            old(self).history@.len() > 0,
        ensures
            final(self).wf(),
            final(self).hash_ok(),
            final(self).view() == undo_spec(old(self).view()),
            final(self).tables == old(self).tables,
    {
        let ghost s0 = self.view();
        let move_delta = match self.history.pop() {
            Some(r) => r,
            None => {
                return;
            },
        };
        proof {
            assert(s0.history.last() == move_delta);
            assert(self.history@ =~= s0.history.drop_last());
            assert(s0.history[s0.history.len() - 1] == move_delta);
        }
        self.restore_castle(move_delta.castle_rights);
        self.set_en_passant(move_delta.en_pass);
        self.flip_turn();
        self.halfmove_count = move_delta.halfmove;
        self.fullmove_count = self.fullmove_count.wrapping_sub(1);
        self.place_back(move_delta);
        self.compute_bitboards();
    }

    /// The placement part of taking back the move of `rec`, played by the
    /// side now to move.
    fn place_back(&mut self, rec: StateDelta)
        requires
            old(self).tables.wf(),
            old(self).hash_ok(),
        ensures
            final(self).hash_ok(),
            final(self).piece_boards@ == undo_pieces(old(self).piece_boards@, old(self).turn, rec),
            final(self).frame(old(self)),
    {
        let turn = self.turn;
        let last_move = rec.move_;
        let (origin, dest) = last_move.get_org_and_dest();
        let moving_piece = self.get_piece_type_containing_position(dest);
        self.add_piece(turn, moving_piece, origin);
        self.remove_piece(turn, moving_piece, dest);
        match last_move.get_special_move() {
            SpecialMove::NormalMove => {
                match rec.captured_piece {
                    Some(c) => self.add_piece(!turn, c, dest),
                    None => {},
                }
            },
            SpecialMove::Promotion => {
                match rec.captured_piece {
                    Some(c) => self.add_piece(!turn, c, dest),
                    None => {},
                }
                self.remove_piece(turn, moving_piece, origin);
                self.add_piece(turn, Piece::Pawn, origin);
            },
            SpecialMove::EnPassant => {
                let back: i8 = if turn == WHITE { -8 } else { 8 };
                proof {
                    if 0 <= dest.idx() + back < 64 {
                        Position::lemma_spec_at(dest.idx() + back);
                    }
                }
                match dest.try_offset(back) {
                    Some(pawn_pos) => self.add_piece(!turn, Piece::Pawn, pawn_pos),
                    None => {},
                }
            },
            SpecialMove::Castle => {
                let (dest_file, _) = dest.get_file_and_rank();
                let king_side = dest_file != 2;
                let base: usize = if turn == WHITE { 0 } else { 56 };
                let home = Position::new(base + if king_side { 7 } else { 0 });
                let landing = Position::new(base + if king_side { 5 } else { 3 });
                self.add_piece(turn, Piece::Rook, home);
                self.remove_piece(turn, Piece::Rook, landing);
            },
        }
    }
}

/// `kind_at` names the kind of the only set that holds `sq`.
pub proof fn lemma_kind_at_unique(pb: Seq<Bitboard>, sq: int, k: int)
    requires
        pb.len() == 12,
        0 <= k < 12,
        pb[k].has(sq),
        forall|j: int| 0 <= j < 12 && j != k ==> !(#[trigger] pb[j]).has(sq),
    ensures
        kind_at(pb, sq) == piece_of_index(k % 6),
{
    lemma_kind_from(pb, sq, k, 0);
}

proof fn lemma_kind_from(pb: Seq<Bitboard>, sq: int, k: int, j: int)
    requires
        pb.len() == 12,
        0 <= j <= k < 12,
        pb[k].has(sq),
        forall|x: int| 0 <= x < 12 && x != k ==> !(#[trigger] pb[x]).has(sq),
    ensures
        crate::board::kind_from(pb, sq, j) == piece_of_index(k % 6),
    decreases k - j,
{
    if j < k {
        assert(!pb[j].has(sq));
        lemma_kind_from(pb, sq, k, j + 1);
    }
}

/// A cell that no set holds reads as `NoPiece`.
pub proof fn lemma_kind_at_empty_reads(pb: Seq<Bitboard>, sq: int)
    requires
        pb.len() == 12,
        forall|j: int| 0 <= j < 12 ==> !(#[trigger] pb[j]).has(sq),
    ensures
        kind_at(pb, sq) == Piece::NoPiece,
{
    lemma_kind_from_empty(pb, sq, 0);
}

proof fn lemma_kind_from_empty(pb: Seq<Bitboard>, sq: int, j: int)
    requires
        pb.len() == 12,
        0 <= j <= 12,
        forall|x: int| 0 <= x < 12 ==> !(#[trigger] pb[x]).has(sq),
    ensures
        crate::board::kind_from(pb, sq, j) == Piece::NoPiece,
    decreases 12 - j,
{
    if j < 12 {
        assert(!pb[j].has(sq));
        lemma_kind_from_empty(pb, sq, j + 1);
    }
}

/// The placement conditions under which a move can be taken back exactly:
/// the piece sets are disjoint; the origin holds a piece of the side to
/// move; the destination is another cell and holds no piece of that side;
/// a promotion moves a pawn; an en passant lands on an empty cell and takes
/// an enemy pawn one rank behind it; a castle lands on an empty cell, its
/// rook stands on its start cell and its landing cell is empty.
pub open spec fn reversible(s: BoardState, m: Move) -> bool {
    let pb = s.pieces;
    let t = s.turn;
    let o = m.origin();
    let d = m.dest();
    let mov = kind_at(pb, o);
    let cap = kind_at(pb, d);
    &&& pb.len() == 12
    &&& disjoint(pb)
    &&& o != d
    &&& mov != Piece::NoPiece
    &&& pb[bb_index(mov, t)].has(o)
    &&& cap != Piece::NoPiece ==> pb[bb_index(cap, !t)].has(d)
    &&& m.kind() == 3 ==> mov == Piece::Pawn
    &&& m.kind() == 1 ==> {
        let c = d + backward(t);
        &&& cap == Piece::NoPiece
        &&& 0 <= c < 64
        &&& c != o
        &&& pb[bb_index(Piece::Pawn, !t)].has(c)
    }
    &&& m.kind() == 2 ==> {
        let h = rook_home(t, castle_king_side(m));
        let l = rook_castled(t, castle_king_side(m));
        &&& cap == Piece::NoPiece
        &&& pb[bb_index(Piece::Rook, t)].has(h)
        &&& kind_at(pb, l) == Piece::NoPiece
        &&& h != o && l != o && l != d && h != d
    }
}

/// Round trip: applying a move and then taking it back restores the
/// position exactly (piece sets, side to move, en-passant target, counters,
/// castling rights and history), for every move that meets `reversible`.
pub proof fn lemma_apply_undo_round_trip(s: BoardState, m: Move)
    requires
        reversible(s, m),
    ensures
        undo_spec(apply_spec(s, m)) == s,
{
    broadcast use group_bits;

    let a = apply_spec(s, m);
    let u = undo_spec(a);
    let pb = s.pieces;
    let t = s.turn;
    let o = m.origin();
    let d = m.dest();
    let mov = kind_at(pb, o);
    let cap = kind_at(pb, d);
    crate::chess_move::lemma_unpack(m.raw());
    assert(a.history.last() == StateDelta {
        move_: m,
        captured_piece: captured_of(pb, m),
        en_pass: Bitboard(s.ep),
        castle_rights: s.castle,
        halfmove: s.half,
    });
    assert(a.history.drop_last() =~= s.history);
    lemma_pieces_round_trip(s, m);
    assert(u.full == s.full);
}

proof fn lemma_pieces_ext(a: Seq<Bitboard>, b: Seq<Bitboard>)
    requires
        a.len() == 12,
        b.len() == 12,
        forall|j: int, i: int| 0 <= j < 12 && 0 <= i < 64 ==> #[trigger] a[j].has(i) == b[j].has(i),
    ensures
        a == b,
{
    assert forall|j: int| 0 <= j < 12 implies a[j] == b[j] by {
        assert forall|i: int| 0 <= i < 64 implies bit_at(a[j].0, i) == bit_at(b[j].0, i) by {
            assert(a[j].has(i) == b[j].has(i));
        }
        crate::bitboard::lemma_bits_ext(a[j].0, b[j].0);
    }
    assert(a =~= b);
}

/// On disjoint sets, the set holding `sq` decides `kind_at`.
pub proof fn lemma_kind_at_disjoint(pb: Seq<Bitboard>, sq: int, k: int)
    requires
        pb.len() == 12,
        disjoint(pb),
        0 <= k < 12,
        pb[k].has(sq),
    ensures
        kind_at(pb, sq) == piece_of_index(k % 6),
{
    assert forall|j: int| 0 <= j < 12 && j != k implies !(#[trigger] pb[j]).has(sq) by {
        assert(pb[k].has(sq));
    }
    lemma_kind_at_unique(pb, sq, k);
}

/// On disjoint sets, an empty reading means no set holds `sq`.
pub proof fn lemma_kind_at_none(pb: Seq<Bitboard>, sq: int)
    requires
        pb.len() == 12,
        disjoint(pb),
        kind_at(pb, sq) == Piece::NoPiece,
    ensures
        forall|j: int| 0 <= j < 12 ==> !(#[trigger] pb[j]).has(sq),
{
    assert forall|j: int| 0 <= j < 12 implies !(#[trigger] pb[j]).has(sq) by {
        if pb[j].has(sq) {
            lemma_kind_at_disjoint(pb, sq, j);
        }
    }
}

proof fn lemma_pieces_round_trip(s: BoardState, m: Move)
    requires
        reversible(s, m),
    ensures
        undo_pieces(apply_pieces(s.pieces, s.turn, m), s.turn, StateDelta {
            move_: m,
            captured_piece: captured_of(s.pieces, m),
            en_pass: Bitboard(s.ep),
            castle_rights: s.castle,
            halfmove: s.half,
        }) == s.pieces,
{
    broadcast use group_bits;

    let pb = s.pieces;
    let t = s.turn;
    let o = m.origin();
    let d = m.dest();
    let mov = kind_at(pb, o);
    let cap = kind_at(pb, d);
    let rec = StateDelta {
        move_: m,
        captured_piece: captured_of(pb, m),
        en_pass: Bitboard(s.ep),
        castle_rights: s.castle,
        halfmove: s.half,
    };
    crate::chess_move::lemma_unpack(m.raw());
    let km = bb_index(mov, t);
    lemma_kind_at_disjoint(pb, o, km);
    // The destination holds no piece of the mover.
    if cap != Piece::NoPiece {
        let kc = bb_index(cap, !t);
        assert(pb[kc].has(d));
        lemma_kind_at_disjoint(pb, d, kc);
        assert forall|j: int| 0 <= j < 12 && j != kc implies !(#[trigger] pb[j]).has(d) by {
            assert(pb[kc].has(d));
        }
    } else {
        lemma_kind_at_none(pb, d);
    }
    let p1 = add_spec(remove_spec(pb, t, mov, o), t, mov, d);
    let p2 = if cap != Piece::NoPiece {
        remove_spec(p1, !t, cap, d)
    } else {
        p1
    };
    let a = apply_pieces(pb, t, m);
    if m.kind() == 0 {
        assert(a == p2);
        // Only the mover's set holds the destination after the move.
        assert(a[km].has(d));
        assert forall|j: int| 0 <= j < 12 && j != km implies !(#[trigger] a[j]).has(d) by {}
        lemma_kind_at_unique(a, d, km);
        let u = undo_pieces(a, t, rec);
        lemma_pieces_ext(u, pb);
    } else if m.kind() == 3 {
        let pr = promo_piece(m.promo());
        let kp = bb_index(pr, t);
        assert(a[kp].has(d));
        assert forall|j: int| 0 <= j < 12 && j != kp implies !(#[trigger] a[j]).has(d) by {}
        lemma_kind_at_unique(a, d, kp);
        assert(kind_at(a, d) == pr);
        let u = undo_pieces(a, t, rec);
        lemma_pieces_ext(u, pb);
    } else if m.kind() == 1 {
        let c = d + backward(t);
        assert(a[km].has(d));
        assert forall|j: int| 0 <= j < 12 && j != km implies !(#[trigger] a[j]).has(d) by {}
        lemma_kind_at_unique(a, d, km);
        let u = undo_pieces(a, t, rec);
        lemma_pieces_ext(u, pb);
    } else {
        let ks = castle_king_side(m);
        let h = rook_home(t, ks);
        let l = rook_castled(t, ks);
        lemma_kind_at_none(pb, l);
        assert(a[km].has(d));
        assert forall|j: int| 0 <= j < 12 && j != km implies !(#[trigger] a[j]).has(d) by {}
        lemma_kind_at_unique(a, d, km);
        let u = undo_pieces(a, t, rec);
        lemma_pieces_ext(u, pb);
    }
}

/// En passant takes the pawn beside the destination, not one on it: for an
/// en-passant move onto an empty cell, the enemy pawn set loses exactly the
/// cell one rank behind the destination, every other enemy set is unchanged
/// (nothing is taken on the destination), and the record names a pawn.
pub proof fn lemma_en_passant_capture_site(s: BoardState, m: Move)
    requires
        s.pieces.len() == 12,
        m.kind() == 1,
        kind_at(s.pieces, m.dest()) == Piece::NoPiece,
        0 <= m.dest() + backward(s.turn) < 64,
    ensures
        ({
            let after = apply_spec(s, m);
            let c = m.dest() + backward(s.turn);
            let pawn = bb_index(Piece::Pawn, !s.turn);
            &&& after.pieces[pawn].0 == s.pieces[pawn].0 & !single(c)
            &&& forall|k: int|
                6 * side_index(!s.turn) <= k < 6 * side_index(!s.turn) + 6 && k != pawn
                    ==> #[trigger] after.pieces[k] == s.pieces[k]
            &&& after.history.last().captured_piece == Some(Piece::Pawn)
        }),
{
}

/// Origin, destination and promotion kind written by `s`: four bytes for
/// two cells, and a fifth for the kind (queen when absent).
pub open spec fn notation_of(s: Seq<u8>) -> Option<(int, int, Piece)> {
    if (s.len() == 4 || s.len() == 5) && cell_of_text(s.subrange(0, 2)) is Some && cell_of_text(
        s.subrange(2, 4),
    ) is Some && (s.len() == 4 || piece_of_letter(s[4]) is Some) {
        Some(
            (
                cell_of_text(s.subrange(0, 2))->0,
                cell_of_text(s.subrange(2, 4))->0,
                if s.len() == 4 {
                    Piece::Queen
                } else {
                    piece_of_letter(s[4])->0
                },
            ),
        )
    } else {
        None
    }
}

/// A legal move of the side to move on `b`, from `o` to `d` with promotion kind `p`,
/// after which the board is `after`.
pub open spec fn played(b: &Board, after: &Board, o: int, d: int, p: Piece) -> bool {
    exists|m: Move|
        m.origin() == o && m.dest() == d && promo_piece(m.promo()) == p && pseudo_ok(
            b,
            b.turn,
            m,
        ) && !in_check_spec(apply_spec(b.view(), m), b.turn, *b.tables) && after.view()
            == apply_spec(b.view(), m)
}

/// Some legal move of the side to move on `b` goes from `o` to `d` with promotion kind `p`.
pub open spec fn legal_match(b: &Board, o: int, d: int, p: Piece) -> bool {
    exists|m: Move|
        m.origin() == o && m.dest() == d && promo_piece(m.promo()) == p && #[trigger] is_pseudo_move(
            b,
            b.turn,
            m,
        ) && !in_check_spec(apply_spec(b.view(), m), b.turn, *b.tables)
}

impl Board {
    /// Plays the legal move from `origin` to `dest` whose promotion kind is
    /// `promote` (queen for moves that promote nothing), if there is one.
    pub fn make_input_move(&mut self, origin: Position, dest: Position, promote: Piece) -> (r: bool)
        requires
            old(self).wf(),
        ensures
            final(self).wf(),
            final(self).tables == old(self).tables,
            r ==> played(old(self), final(self), origin.idx(), dest.idx(), promote),
            !r ==> *final(self) == *old(self),
            r == legal_match(old(self), origin.idx(), dest.idx(), promote),
    {
        let moves = self.generate_moves(self.turn);
        let mut i: usize = 0;
        while i < moves.len()
            invariant
                i <= moves.len(),
                self.wf(),
                *self == *old(self),
                forall|j: int|
                    0 <= j < moves@.len() ==> pseudo_ok(self, self.turn, #[trigger] moves@[j])
                        && is_pseudo_move(self, self.turn, moves@[j]) && !in_check_spec(
                        apply_spec(self.view(), moves@[j]),
                        self.turn,
                        *self.tables,
                    ),
                forall|m: Move|
                    #[trigger] is_pseudo_move(self, self.turn, m) && !in_check_spec(
                        apply_spec(self.view(), m),
                        self.turn,
                        *self.tables,
                    ) ==> moves@.contains(m),
                forall|j: int|
                    0 <= j < i ==> !((#[trigger] moves@[j]).origin() == origin.idx() && moves@[j].dest()
                        == dest.idx() && promo_piece(moves@[j].promo()) == promote),
            decreases moves.len() - i,
        {
            let m = moves[i];
            if m.get_origin().as_usize() == origin.as_usize() && m.get_dest().as_usize()
                == dest.as_usize() && m.get_promotion() == promote {
                let ghost before = *self;
                self.commit_verified_move(m);
                proof {
                    assert(m.origin() == origin.idx() && m.dest() == dest.idx() && promo_piece(
                        m.promo(),
                    ) == promote);
                    assert(played(&before, self, origin.idx(), dest.idx(), promote));
                    assert(is_pseudo_move(&before, before.turn, m));
                    assert(legal_match(&before, origin.idx(), dest.idx(), promote));
                }
                return true;
            }
            i += 1;
        }
        proof {
            if legal_match(self, origin.idx(), dest.idx(), promote) {
                let m = choose|m: Move|
                    m.origin() == origin.idx() && m.dest() == dest.idx() && promo_piece(m.promo())
                        == promote && #[trigger] is_pseudo_move(self, self.turn, m) && !in_check_spec(
                        apply_spec(self.view(), m),
                        self.turn,
                        *self.tables,
                    );
                assert(moves@.contains(m));
                let j = choose|j: int| 0 <= j < moves@.len() && moves@[j] == m;
                assert(!(moves@[j].origin() == origin.idx() && moves@[j].dest() == dest.idx()
                    && promo_piece(moves@[j].promo()) == promote));
            }
        }
        false
    }

    /// Plays a move written in notation (`e2e4`, `e7e8n`) if it is legal;
    /// otherwise returns false and leaves the board as it was.
    pub fn play_string_move(&mut self, s_move: &str) -> (r: bool)
        requires
            old(self).wf(),
        ensures
            final(self).wf(),
            final(self).tables == old(self).tables,
            r ==> (notation_of(s_move.spec_bytes()) matches Some((o, d, p)) && played(
                old(self),
                final(self),
                o,
                d,
                p,
            )),
            !r ==> *final(self) == *old(self),
            r == (notation_of(s_move.spec_bytes()) matches Some((o, d, p)) && legal_match(
                old(self),
                o,
                d,
                p,
            )),
    {
        let s = s_move.as_bytes();
        if s.len() != 4 && s.len() != 5 {
            return false;
        }
        let promote = if s.len() == 5 {
            match Piece::from_letter(s[4]) {
                Ok(piece) => piece,
                Err(_) => {
                    return false;
                },
            }
        } else {
            Piece::Queen
        };
        let from_s = crate::fen_parser::slice_of(s, 0, 2);
        let to_s = crate::fen_parser::slice_of(s, 2, 4);
        let origin = match Position::from_text(from_s) {
            Ok(p) => p,
            Err(_) => {
                return false;
            },
        };
        let dest = match Position::from_text(to_s) {
            Ok(p) => p,
            Err(_) => {
                return false;
            },
        };
        proof {
            Position::lemma_spec_at(cell_of_text(s@.subrange(0, 2))->0);
            Position::lemma_spec_at(cell_of_text(s@.subrange(2, 4))->0);
        }
        self.make_input_move(origin, dest, promote)
    }
}

} // verus!
