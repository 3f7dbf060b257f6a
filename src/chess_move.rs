use vstd::prelude::*;
use crate::castle_rights::{Turn, WHITE};
use crate::piece::{Piece, piece_letter};
use crate::position::{Position, cell_notation, push_char};

verus! {

/// Kind of a move: the top two bits of its code.
#[derive(Clone, Copy, PartialEq, Eq, Structural, Debug)]
pub enum SpecialMove {
    Promotion,
    EnPassant,
    Castle,
    NormalMove,
}

// Promotion selector, bits 12-13.
pub const PROMOTE_TO_KNIGHT: u16 = 0x1000;

pub const PROMOTE_TO_BISHOP: u16 = 0x2000;

pub const PROMOTE_TO_ROOK: u16 = 0x3000;

pub const PROMOTE_TO_QUEEN: u16 = 0;

// Move kind, bits 14-15.
pub const NORMAL_MOVE: u16 = 0;

pub const EN_PASSANT: u16 = 0x4000;

pub const CASTLING: u16 = 0x8000;

pub const PROMOTION: u16 = 0xC000;

/// Destination cell of a move code: bits 0-5.
pub open spec fn dest_of(raw: u16) -> int {
    (raw & 63u16) as int
}

/// Origin cell: bits 6-11.
pub open spec fn origin_of(raw: u16) -> int {
    ((raw >> 6u16) & 63u16) as int
}

/// Promotion selector: bits 12-13 (0 queen, 1 knight, 2 bishop, 3 rook).
pub open spec fn promo_of(raw: u16) -> int {
    ((raw >> 12u16) & 3u16) as int
}

/// Kind: bits 14-15 (0 normal, 1 en passant, 2 castle, 3 promotion).
pub open spec fn kind_of(raw: u16) -> int {
    (raw >> 14u16) as int
}

/// The code with the given fields.
pub open spec fn pack(origin: int, dest: int, promo: int, kind: int) -> u16 {
    (dest as u16) | ((origin as u16) << 6u16) | ((promo as u16) << 12u16) | ((kind as u16) << 14u16)
}

pub open spec fn special_of_kind(k: int) -> SpecialMove {
    if k == 3 {
        SpecialMove::Promotion
    } else if k == 1 {
        SpecialMove::EnPassant
    } else if k == 2 {
        SpecialMove::Castle
    } else {
        SpecialMove::NormalMove
    }
}

pub open spec fn promo_piece(p: int) -> Piece {
    if p == 1 {
        Piece::Knight
    } else if p == 2 {
        Piece::Bishop
    } else if p == 3 {
        Piece::Rook
    } else {
        Piece::Queen
    }
}

pub proof fn lemma_pack(origin: int, dest: int, promo: int, kind: int)
    requires
        0 <= origin < 64,
        0 <= dest < 64,
        0 <= promo < 4,
        0 <= kind < 4,
    ensures
        dest_of(pack(origin, dest, promo, kind)) == dest,
        origin_of(pack(origin, dest, promo, kind)) == origin,
        promo_of(pack(origin, dest, promo, kind)) == promo,
        kind_of(pack(origin, dest, promo, kind)) == kind,
{
    let o = origin as u16;
    let d = dest as u16;
    let p = promo as u16;
    let k = kind as u16;
    let r = pack(origin, dest, promo, kind);
    assert(r == d | (o << 6u16) | (p << 12u16) | (k << 14u16));
    assert(r & 63u16 == d && (r >> 6u16) & 63u16 == o && (r >> 12u16) & 3u16 == p && r >> 14u16
        == k) by (bit_vector)
        requires
            o < 64,
            d < 64,
            p < 4,
            k < 4,
            r == d | (o << 6u16) | (p << 12u16) | (k << 14u16),
    ;
}

/// Every code is the packing of its own fields.
pub proof fn lemma_unpack(raw: u16)
    ensures
        pack(origin_of(raw), dest_of(raw), promo_of(raw), kind_of(raw)) == raw,
        0 <= origin_of(raw) < 64,
        0 <= dest_of(raw) < 64,
        0 <= promo_of(raw) < 4,
        0 <= kind_of(raw) < 4,
{
    let o = (raw >> 6u16) & 63u16;
    let d = raw & 63u16;
    let p = (raw >> 12u16) & 3u16;
    let k = raw >> 14u16;
    assert(d | (o << 6u16) | (p << 12u16) | (k << 14u16) == raw && o < 64 && d < 64 && p < 4 && k
        < 4) by (bit_vector)
        requires
            o == (raw >> 6u16) & 63u16,
            d == raw & 63u16,
            p == (raw >> 12u16) & 3u16,
            k == raw >> 14u16,
    ;
}

/// A move packed into 16 bits: destination (bits 0-5), origin (6-11),
/// promotion selector (12-13) and kind (14-15).
#[derive(Clone, Copy, PartialEq, Eq, Structural, Debug)]
pub struct Move(u16);

impl Move {
    pub closed spec fn raw(self) -> u16 {
        self.0
    }

    pub open spec fn dest(self) -> int {
        dest_of(self.raw())
    }

    pub open spec fn origin(self) -> int {
        origin_of(self.raw())
    }

    pub open spec fn promo(self) -> int {
        promo_of(self.raw())
    }

    pub open spec fn kind(self) -> int {
        kind_of(self.raw())
    }

    /// The move with code `raw`.
    pub closed spec fn spec_from_raw(raw: u16) -> Move {
        Move(raw)
    }

    pub proof fn lemma_from_raw(raw: u16)
        ensures
            Move::spec_from_raw(raw).raw() == raw,
    {
    }

    /// Codes determine moves.
    pub proof fn lemma_raw_injective(a: Move, b: Move)
        ensures
            (a.raw() == b.raw()) == (a == b),
    {
    }

    pub fn make_raw(data: u16) -> (r: Move)
        ensures
            r.raw() == data,
    {
        Move(data)
    }

    pub fn get_raw(&self) -> (r: u16)
        ensures
            r == self.raw(),
    {
        self.0
    }

    pub fn get_dest(&self) -> (r: Position)
        ensures
            r.idx() == self.dest(),
    {
        proof {
            lemma_unpack(self.0);
        }
        Position::new((self.0 & 63u16) as usize)
    }

    pub fn get_origin(&self) -> (r: Position)
        ensures
            r.idx() == self.origin(),
    {
        proof {
            lemma_unpack(self.0);
        }
        Position::new(((self.0 >> 6u16) & 63u16) as usize)
    }

    pub fn get_org_and_dest(&self) -> (r: (Position, Position))
        ensures
            r.0.idx() == self.origin(),
            r.1.idx() == self.dest(),
    {
        (self.get_origin(), self.get_dest())
    }

    pub fn get_special_move(&self) -> (r: SpecialMove)
        ensures
            r == special_of_kind(self.kind()),
    {
        let k = self.0 >> 14u16;
        if k == 3 {
            SpecialMove::Promotion
        } else if k == 1 {
            SpecialMove::EnPassant
        } else if k == 2 {
            SpecialMove::Castle
        } else {
            SpecialMove::NormalMove
        }
    }

    pub fn get_promotion(&self) -> (r: Piece)
        ensures
            r == promo_piece(self.promo()),
    {
        let p = (self.0 >> 12u16) & 3u16;
        if p == 1 {
            Piece::Knight
        } else if p == 2 {
            Piece::Bishop
        } else if p == 3 {
            Piece::Rook
        } else {
            Piece::Queen
        }
    }

    fn create_move_mask(origin: Position, destination: Position) -> (r: u16)
        ensures
            r == pack(origin.idx(), destination.idx(), 0, 0),
    {
        let o = origin.as_usize() as u16;
        let d = destination.as_usize() as u16;
        assert(d | ((o & 63u16) << 6u16) == d | (o << 6u16) | (0u16 << 12u16) | (0u16 << 14u16))
            by (bit_vector)
            requires
                o < 64,
        ;
        d | ((o & 63u16) << 6u16)
    }

    /// A plain move (kind normal, selector queen).
    pub fn new_default(origin: Position, destination: Position) -> (r: Move)
        ensures
            r.raw() == pack(origin.idx(), destination.idx(), 0, 0),
    {
        let mask = Self::create_move_mask(origin, destination);
        // Selector queen and kind normal are both zero.
        Move(mask)
    }

    /// The four promotions from `origin` to `destination`: knight, bishop,
    /// rook, queen.
    pub fn new_promote(origin: Position, destination: Position) -> (r: [Move; 4])
        ensures
            r[0].raw() == pack(origin.idx(), destination.idx(), 1, 3),
            r[1].raw() == pack(origin.idx(), destination.idx(), 2, 3),
            r[2].raw() == pack(origin.idx(), destination.idx(), 3, 3),
            r[3].raw() == pack(origin.idx(), destination.idx(), 0, 3),
    {
        let mask: u16 = Move::create_move_mask(origin, destination);
        let o = origin.as_usize() as u16;
        let d = destination.as_usize() as u16;
        assert(mask | 0xC000u16 | 0x1000u16 == d | (o << 6u16) | (1u16 << 12u16) | (3u16 << 14u16)
            && mask | 0xC000u16 | 0x2000u16 == d | (o << 6u16) | (2u16 << 12u16) | (3u16 << 14u16)
            && mask | 0xC000u16 | 0x3000u16 == d | (o << 6u16) | (3u16 << 12u16) | (3u16 << 14u16)
            && mask | 0xC000u16 | 0u16 == d | (o << 6u16) | (0u16 << 12u16) | (3u16 << 14u16))
            by (bit_vector)
            requires
                mask == d | (o << 6u16) | (0u16 << 12u16) | (0u16 << 14u16),
        ;
        let m = mask | PROMOTION;
        [
            Move(m | PROMOTE_TO_KNIGHT),
            Move(m | PROMOTE_TO_BISHOP),
            Move(m | PROMOTE_TO_ROOK),
            Move(m | PROMOTE_TO_QUEEN),
        ]
    }

    /// A move of the given kind code (one of `NORMAL_MOVE`, `EN_PASSANT`,
    /// `CASTLING`, `PROMOTION`, possibly with a promotion selector).
    pub fn new_special(origin: Position, destination: Position, special: u16) -> (r: Move)
        ensures
            r.raw() == pack(origin.idx(), destination.idx(), 0, 0) | special,
            special == EN_PASSANT ==> r.raw() == pack(origin.idx(), destination.idx(), 0, 1),
            special == CASTLING ==> r.raw() == pack(origin.idx(), destination.idx(), 0, 2),
    {
        let mask = Self::create_move_mask(origin, destination);
        let o = origin.as_usize() as u16;
        let d = destination.as_usize() as u16;
        assert(mask | 0x4000u16 == d | (o << 6u16) | (0u16 << 12u16) | (1u16 << 14u16) && mask
            | 0x8000u16 == d | (o << 6u16) | (0u16 << 12u16) | (2u16 << 14u16)) by (bit_vector)
            requires
                mask == d | (o << 6u16) | (0u16 << 12u16) | (0u16 << 14u16),
        ;
        Move(mask | special)
    }

    /// The castle of `turn` on the given side: king from its start cell two
    /// files towards the rook.
    pub fn new_castle(king_side: bool, turn: Turn) -> (r: Move)
        ensures
            r.raw() == pack(
                if turn { 60 } else { 4 },
                if turn { 56int } else { 0int } + if king_side { 6int } else { 2int },
                0,
                2,
            ),
    {
        let rank: usize = if turn == WHITE { 0 } else { 7 };
        let file: usize = if king_side { 6 } else { 2 };
        let origin = Position::from_file_and_rank(4, rank);
        let dest = Position::from_file_and_rank(file, rank);
        let mask = Self::create_move_mask(origin, dest);
        let o = origin.as_usize() as u16;
        let d = dest.as_usize() as u16;
        assert(mask | 0x8000u16 == d | (o << 6u16) | (0u16 << 12u16) | (2u16 << 14u16))
            by (bit_vector)
            requires
                mask == d | (o << 6u16) | (0u16 << 12u16) | (0u16 << 14u16),
        ;
        Move(mask | CASTLING)
    }

    /// Notation: origin, destination and, for a promotion, the letter of the
    /// new kind (`e7e8q`).
    pub fn to_string(&self) -> (r: String)
        ensures
            r@ == cell_notation(self.origin()) + cell_notation(self.dest()) + if self.kind() == 3 {
                seq![piece_letter(promo_piece(self.promo()))]
            } else {
                Seq::<char>::empty()
            },
    {
        let mut out = String::new();
        self.get_origin().push_notation(&mut out);
        self.get_dest().push_notation(&mut out);
        if self.get_special_move() == SpecialMove::Promotion {
            let p = self.get_promotion();
            let c = match p {
                Piece::Pawn => 'p',
                Piece::Rook => 'r',
                Piece::Knight => 'n',
                Piece::Bishop => 'b',
                Piece::King => 'k',
                Piece::Queen => 'q',
                Piece::NoPiece => '-',
            };
            push_char(&mut out, c);
        }
        assert(out@ =~= cell_notation(self.origin()) + cell_notation(self.dest()) + if self.kind()
            == 3 {
            seq![piece_letter(promo_piece(self.promo()))]
        } else {
            Seq::<char>::empty()
        });
        out
    }
}

} // verus!
