use vstd::prelude::*;
use crate::bitboard::{Bitboard, single};

verus! {

/// Relies on `String::push`: appends one character.
#[verifier::external_body]
pub(crate) fn push_char(s: &mut String, c: char)
    ensures
        final(s)@ == old(s)@.push(c),
{
    s.push(c);
}

/// The letter of file `f` (0..7).
pub open spec fn file_letter(f: int) -> char {
    if f == 0 {
        'a'
    } else if f == 1 {
        'b'
    } else if f == 2 {
        'c'
    } else if f == 3 {
        'd'
    } else if f == 4 {
        'e'
    } else if f == 5 {
        'f'
    } else if f == 6 {
        'g'
    } else if f == 7 {
        'h'
    } else {
        '-'
    }
}

/// The digit of rank `r` (0..7) as displayed, one-based.
pub open spec fn rank_digit(r: int) -> char {
    if r == 0 {
        '1'
    } else if r == 1 {
        '2'
    } else if r == 2 {
        '3'
    } else if r == 3 {
        '4'
    } else if r == 4 {
        '5'
    } else if r == 5 {
        '6'
    } else if r == 6 {
        '7'
    } else {
        '8'
    }
}

/// Two-character notation of cell `i`: file letter then one-based rank.
pub open spec fn cell_notation(i: int) -> Seq<char> {
    seq![file_letter(i % 8), rank_digit(i / 8)]
}

/// The file (0..7) of a notation letter, if it is one.
pub open spec fn file_of_letter(c: u8) -> Option<int> {
    if 97 <= c <= 104 {
        Some(c - 97)
    } else {
        None
    }
}

/// The zero-based rank of a notation digit, if it is one of `1`..`8`.
pub open spec fn rank_of_digit(c: u8) -> Option<int> {
    if 49 <= c <= 56 {
        Some(c - 49)
    } else {
        None
    }
}

/// The cell written by the two bytes `s`, if they are a file letter and a rank digit.
pub open spec fn cell_of_text(s: Seq<u8>) -> Option<int> {
    if s.len() == 2 && file_of_letter(s[0]) is Some && rank_of_digit(s[1]) is Some {
        Some(rank_of_digit(s[1])->0 * 8 + file_of_letter(s[0])->0)
    } else {
        None
    }
}

/// A cell of the board, index 0..63 (rank * 8 + file).
#[derive(Clone, Copy, PartialEq, Eq, Structural, Debug)]
pub struct Position(usize);

impl Position {
    pub const MAX_POS: usize = 64;

    #[verifier::type_invariant]
    spec fn inv(self) -> bool {
        self.0 < 64
    }

    /// The cell index.
    pub closed spec fn idx(self) -> int {
        self.0 as int
    }

    /// All 64 cells in index order.
    pub fn generate_all_pos() -> (r: [Position; 64])
        ensures
            forall|i: int| 0 <= i < 64 ==> r@[i].idx() == i,
    {
        let mut result = [Position(0); 64];
        let mut index: usize = 0;
        while index < 64
            invariant
                index <= 64,
                forall|i: int| 0 <= i < index ==> result@[i].idx() == i,
            decreases 64 - index,
        {
            result[index] = Position(index);
            index += 1;
        }
        result
    }

    pub fn new(index: usize) -> (r: Position)
        requires
            index < 64,
        ensures
            r.idx() == index,
    {
        Position(index)
    }

    pub fn from_file_and_rank(file: usize, rank: usize) -> (r: Position)
        requires
            file < 8,
            rank < 8,
        ensures
            r.idx() == rank * 8 + file,
    {
        Position(rank * 8 + file)
    }

    pub fn get_file_and_rank(&self) -> (r: (usize, usize))
        ensures
            r.0 == self.idx() % 8,
            r.1 == self.idx() / 8,
            r.0 < 8,
            r.1 < 8,
    {
        proof {
            use_type_invariant(self);
        }
        (self.0 % 8, self.0 / 8)
    }

    /// The cell `d_file` files and `d_rank` ranks away, if it is on the board.
    pub fn try_rank_file_offset(&self, d_file: i8, d_rank: i8) -> (r: Option<Position>)
        ensures
            ({
                let f = self.idx() % 8 + d_file;
                let k = self.idx() / 8 + d_rank;
                if 0 <= f < 8 && 0 <= k < 8 {
                    r == Some(Position::spec_at(k * 8 + f))
                } else {
                    r is None
                }
            }),
    {
        proof {
            use_type_invariant(self);
        }
        let file = (self.0 % 8) as i8 as i16 + d_file as i16;
        let rank = (self.0 / 8) as i8 as i16 + d_rank as i16;
        if file >= 0 && rank >= 0 && file < 8 && rank < 8 {
            return Some(Position::from_file_and_rank(file as usize, rank as usize));
        }
        None
    }

    /// The cell `offset` indices away, if the index stays in 0..63.
    pub fn try_offset(&self, offset: i8) -> (r: Option<Position>)
        ensures
            ({
                let j = self.idx() + offset;
                if 0 <= j < 64 {
                    r == Some(Position::spec_at(j))
                } else {
                    r is None
                }
            }),
    {
        proof {
            use_type_invariant(self);
        }
        let index = self.0 as i16 + offset as i16;
        if index >= 0 && index < 64 {
            return Some(Position(index as usize));
        }
        None
    }

    /// The cell with index `i` (0..63).
    pub closed spec fn spec_at(i: int) -> Position {
        Position(i as usize)
    }

    pub proof fn lemma_spec_at(i: int)
        requires
            0 <= i < 64,
        ensures
            Position::spec_at(i).idx() == i,
    {
    }

    pub fn as_usize(&self) -> (r: usize)
        ensures
            r == self.idx(),
            r < 64,
    {
        proof {
            use_type_invariant(self);
        }
        self.0
    }

    /// The one-cell set of this cell.
    pub fn bitboard(&self) -> (r: Bitboard)
        ensures
            r.0 == single(self.idx()),
    {
        proof {
            use_type_invariant(self);
        }
        Bitboard(1u64 << self.0 as u64)
    }

    /// Appends the notation of this cell.
    pub(crate) fn push_notation(&self, out: &mut String)
        ensures
            final(out)@ == old(out)@ + cell_notation(self.idx()),
    {
        proof {
            use_type_invariant(self);
        }
        let file = self.0 % 8;
        let rank = self.0 / 8;
        let f: char = if file == 0 {
            'a'
        } else if file == 1 {
            'b'
        } else if file == 2 {
            'c'
        } else if file == 3 {
            'd'
        } else if file == 4 {
            'e'
        } else if file == 5 {
            'f'
        } else if file == 6 {
            'g'
        } else {
            'h'
        };
        let k: char = if rank == 0 {
            '1'
        } else if rank == 1 {
            '2'
        } else if rank == 2 {
            '3'
        } else if rank == 3 {
            '4'
        } else if rank == 4 {
            '5'
        } else if rank == 5 {
            '6'
        } else if rank == 6 {
            '7'
        } else {
            '8'
        };
        push_char(out, f);
        push_char(out, k);
        assert(final(out)@ =~= old(out)@ + cell_notation(self.idx()));
    }

    /// Notation such as `e4`.
    pub fn algebraic_notation(&self) -> (r: String)
        ensures
            r@ == cell_notation(self.idx()),
    {
        let mut s = String::new();
        self.push_notation(&mut s);
        assert(s@ =~= cell_notation(self.idx()));
        s
    }

    /// The cell written as a file letter and a rank digit (`e4`).
    pub fn from_text(s: &[u8]) -> (r: Result<Position, ()>)
        ensures
            match cell_of_text(s@) {
                Some(i) => r == Ok::<Position, ()>(Position::spec_at(i)),
                None => r is Err,
            },
    {
        if s.len() != 2 {
            return Err(());
        }
        let c = s[0];
        let d = s[1];
        if c < 97 || c > 104 || d < 49 || d > 56 {
            return Err(());
        }
        Ok(Position::from_file_and_rank((c - 97) as usize, (d - 49) as usize))
    }
}

impl From<Position> for usize {
    fn from(pos: Position) -> (r: usize) {
        pos.as_usize()
    }
}

impl vstd::std_specs::convert::FromSpecImpl<Position> for usize {
    open spec fn obeys_from_spec() -> bool {
        true
    }

    open spec fn from_spec(v: Position) -> usize {
        v.idx() as usize
    }
}

} // verus!
