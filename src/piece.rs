use vstd::prelude::*;

verus! {

/// Kind of a piece; `NoPiece` is only a lookup-miss result and never stands on
/// the board.
#[derive(Clone, Copy, PartialEq, Eq, Structural, Debug)]
pub enum Piece {
    Pawn,
    Rook,
    Knight,
    Bishop,
    King,
    Queen,
    NoPiece,
}

/// Number of real piece kinds.
pub const PIECE_COUNT: usize = 6;

/// The kind with index `i` (0..5); any other index gives `NoPiece`.
pub open spec fn piece_of_index(i: int) -> Piece {
    if i == 0 {
        Piece::Pawn
    } else if i == 1 {
        Piece::Rook
    } else if i == 2 {
        Piece::Knight
    } else if i == 3 {
        Piece::Bishop
    } else if i == 4 {
        Piece::King
    } else if i == 5 {
        Piece::Queen
    } else {
        Piece::NoPiece
    }
}

/// The lower-case letter of a kind.
pub open spec fn piece_letter(p: Piece) -> char {
    match p {
        Piece::Pawn => 'p',
        Piece::Rook => 'r',
        Piece::Knight => 'n',
        Piece::Bishop => 'b',
        Piece::King => 'k',
        Piece::Queen => 'q',
        Piece::NoPiece => '-',
    }
}

/// The kind written by one letter of either case (`-` or a space for `NoPiece`).
pub open spec fn piece_of_letter(c: u8) -> Option<Piece> {
    match c {
        80u8 | 112u8 => Some(Piece::Pawn),
        82u8 | 114u8 => Some(Piece::Rook),
        78u8 | 110u8 => Some(Piece::Knight),
        66u8 | 98u8 => Some(Piece::Bishop),
        81u8 | 113u8 => Some(Piece::Queen),
        75u8 | 107u8 => Some(Piece::King),
        32u8 | 45u8 => Some(Piece::NoPiece),
        _ => None,
    }
}

impl Piece {
    /// Index of the kind within a side's six piece sets (6 for `NoPiece`).
    pub open spec fn spec_index(self) -> int {
        match self {
            Piece::Pawn => 0,
            Piece::Rook => 1,
            Piece::Knight => 2,
            Piece::Bishop => 3,
            Piece::King => 4,
            Piece::Queen => 5,
            Piece::NoPiece => 6,
        }
    }

    pub fn index(&self) -> (r: usize)
        ensures
            r == self.spec_index(),
    {
        match self {
            Piece::Pawn => 0,
            Piece::Rook => 1,
            Piece::Knight => 2,
            Piece::Bishop => 3,
            Piece::King => 4,
            Piece::Queen => 5,
            Piece::NoPiece => 6,
        }
    }

    /// One-letter lower-case notation (`-` for `NoPiece`).
    pub fn to_notation(&self) -> (r: String)
        ensures
            r@ == seq![piece_letter(*self)],
    {
        let c = match self {
            Piece::Pawn => 'p',
            Piece::Rook => 'r',
            Piece::Knight => 'n',
            Piece::Bishop => 'b',
            Piece::King => 'k',
            Piece::Queen => 'q',
            Piece::NoPiece => '-',
        };
        let mut s = String::new();
        crate::position::push_char(&mut s, c);
        assert(s@ =~= seq![piece_letter(*self)]);
        s
    }

    /// The kind written by one letter of either case (`-` or a space for `NoPiece`).
    pub fn from_letter(c: u8) -> (r: Result<Piece, ()>)
        ensures
            match piece_of_letter(c) {
                Some(p) => r == Ok::<Piece, ()>(p),
                None => r is Err,
            },
    {
        match c {
            80u8 | 112u8 => Ok(Piece::Pawn),
            82u8 | 114u8 => Ok(Piece::Rook),
            78u8 | 110u8 => Ok(Piece::Knight),
            66u8 | 98u8 => Ok(Piece::Bishop),
            81u8 | 113u8 => Ok(Piece::Queen),
            75u8 | 107u8 => Ok(Piece::King),
            32u8 | 45u8 => Ok(Piece::NoPiece),
            _ => Err(()),
        }
    }
}

impl Piece {
    /// The kind with index `value` (see `piece_of_index`).
    pub fn from_index(value: usize) -> (r: Piece)
        ensures
            r == piece_of_index(value as int),
    {
        match value {
            0 => Piece::Pawn,
            1 => Piece::Rook,
            2 => Piece::Knight,
            3 => Piece::Bishop,
            4 => Piece::King,
            5 => Piece::Queen,
            _ => Piece::NoPiece,
        }
    }
}

impl From<usize> for Piece {
    fn from(value: usize) -> (r: Piece) {
        Piece::from_index(value)
    }
}

impl vstd::std_specs::convert::FromSpecImpl<usize> for Piece {
    open spec fn obeys_from_spec() -> bool {
        true
    }

    open spec fn from_spec(v: usize) -> Piece {
        piece_of_index(v as int)
    }
}

} // verus!
