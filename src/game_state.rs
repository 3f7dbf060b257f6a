use vstd::prelude::*;
use crate::bitboard::Bitboard;
use crate::castle_rights::CastleRights;
use crate::chess_move::Move;
use crate::piece::Piece;

verus! {

/// Undo record of one applied move: the move, the kind it captured, and the
/// en-passant target, castling rights and half-move counter from before it.
#[derive(Clone, Copy, PartialEq, Eq, Structural, Debug)]
pub struct StateDelta {
    pub move_: Move,
    pub captured_piece: Option<Piece>,
    pub en_pass: Bitboard,
    pub castle_rights: CastleRights,
    pub halfmove: u8,
}

impl StateDelta {
    pub fn new(
        move_: Move,
        captured_piece: Option<Piece>,
        en_pass: Bitboard,
        castle_rights: CastleRights,
        halfmove: u8,
    ) -> (r: StateDelta)
        ensures
            r == (StateDelta { move_, captured_piece, en_pass, castle_rights, halfmove }),
    {
        StateDelta { move_, captured_piece, en_pass, castle_rights, halfmove }
    }
}

} // verus!
