use vstd::prelude::*;

verus! {

/// Side to move: `false` is the first side (White), `true` the second (Black).
pub type Turn = bool;

pub const WHITE: Turn = false;

pub const BLACK: Turn = true;

/// Bit index of the right of side `turn` on the king's or queen's side:
/// White king side 0, White queen side 1, Black king side 2, Black queen side 3.
pub open spec fn right_index(turn: Turn, king_side: bool) -> int {
    2 * (if turn { 1int } else { 0int }) + (if king_side { 0int } else { 1int })
}

/// Bit `i` of `flags`.
pub open spec fn flag_at(flags: u8, i: int) -> bool {
    (flags >> (i as u8)) & 1u8 == 1u8
}

proof fn lemma_flags(f: u8, i: u8)
    requires
        i < 4,
    ensures
        forall|j: u8| j < 8 ==> (((f & !(1u8 << i)) >> j) & 1u8 == 1u8) == (j != i && (f >> j)
            & 1u8 == 1u8),
        ((f & (1u8 << i)) != 0) == ((f >> i) & 1u8 == 1u8),
{
    assert(forall|j: u8| j < 8 ==> (((f & !(1u8 << i)) >> j) & 1u8 == 1u8) == (j != i && (f >> j)
        & 1u8 == 1u8)) by (bit_vector)
        requires
            i < 4,
    ;
    assert(((f & (1u8 << i)) != 0) == ((f >> i) & 1u8 == 1u8)) by (bit_vector)
        requires
            i < 4,
    ;
}

/// The four castling rights, packed into the low four bits of a byte.
#[derive(Clone, Copy, PartialEq, Eq, Structural, Debug)]
pub struct CastleRights {
    flags: u8,
}

impl CastleRights {
    /// Right number `i` (see `right_index`).
    pub closed spec fn right(self, i: int) -> bool {
        0 <= i < 4 && flag_at(self.flags, i)
    }

    /// Only the four right bits are ever set.
    pub closed spec fn wf(self) -> bool {
        self.flags < 16
    }

    /// Equal rights are equal values.
    pub proof fn lemma_ext(a: CastleRights, b: CastleRights)
        requires
            a.wf(),
            b.wf(),
            forall|i: int| 0 <= i < 4 ==> a.right(i) == b.right(i),
        ensures
            a == b,
    {
        let x = a.flags;
        let y = b.flags;
        assert(a.right(0) == b.right(0) && a.right(1) == b.right(1));
        assert(a.right(2) == b.right(2) && a.right(3) == b.right(3));
        assert(flag_at(x, 0) == flag_at(y, 0) && flag_at(x, 1) == flag_at(y, 1));
        assert(flag_at(x, 2) == flag_at(y, 2) && flag_at(x, 3) == flag_at(y, 3));
        assert(x == y) by (bit_vector)
            requires
                x < 16,
                y < 16,
                ((x >> 0u8) & 1u8 == 1u8) == ((y >> 0u8) & 1u8 == 1u8),
                ((x >> 1u8) & 1u8 == 1u8) == ((y >> 1u8) & 1u8 == 1u8),
                ((x >> 2u8) & 1u8 == 1u8) == ((y >> 2u8) & 1u8 == 1u8),
                ((x >> 3u8) & 1u8 == 1u8) == ((y >> 3u8) & 1u8 == 1u8),
        ;
    }

    /// The rights with right `right_index(turn, king_side)` cleared.
    pub closed spec fn spec_remove(self, turn: Turn, king_side: bool) -> CastleRights {
        CastleRights { flags: self.flags & !(1u8 << (right_index(turn, king_side) as u8)) }
    }

    pub proof fn lemma_remove(self, turn: Turn, king_side: bool)
        requires
            self.wf(),
        ensures
            self.spec_remove(turn, king_side).wf(),
            forall|i: int|
                0 <= i < 4 ==> #[trigger] self.spec_remove(turn, king_side).right(i) == (self.right(
                    i,
                ) && i != right_index(turn, king_side)),
            !self.right(right_index(turn, king_side)) ==> self.spec_remove(turn, king_side)
                == self,
    {
        let index = right_index(turn, king_side) as u8;
        let f = self.flags;
        lemma_flags(f, index);
        assert(f & !(1u8 << index) < 16) by (bit_vector)
            requires
                f < 16,
        ;
        let r = self.spec_remove(turn, king_side);
        assert forall|i: int| 0 <= i < 4 implies #[trigger] r.right(i) == (self.right(i) && i
            != right_index(turn, king_side)) by {
            let j = i as u8;
            assert(j < 8);
        }
        if !self.right(right_index(turn, king_side)) {
            CastleRights::lemma_ext(r, self);
        }
    }

    /// All four rights.
    pub fn make_default() -> (r: CastleRights)
        ensures
            r.wf(),
            forall|i: int| 0 <= i < 4 ==> r.right(i),
    {
        let r = CastleRights { flags: 0b1111 };
        assert forall|i: int| 0 <= i < 4 implies r.right(i) by {
            let j = i as u8;
            assert((15u8 >> j) & 1u8 == 1u8) by (bit_vector)
                requires
                    j < 4,
            ;
        }
        r
    }

    pub fn make(
        white_king_side: bool,
        white_queen_side: bool,
        black_king_side: bool,
        black_queen_side: bool,
    ) -> (r: CastleRights)
        ensures
            r.wf(),
            r.right(0) == white_king_side,
            r.right(1) == white_queen_side,
            r.right(2) == black_king_side,
            r.right(3) == black_queen_side,
    {
        let a: u8 = if white_king_side { 1 } else { 0 };
        let b: u8 = if white_queen_side { 2 } else { 0 };
        let c: u8 = if black_king_side { 4 } else { 0 };
        let d: u8 = if black_queen_side { 8 } else { 0 };
        let flags = a | b | c | d;
        assert(flags < 16 && flag_at(flags, 0) == (a == 1) && flag_at(flags, 1) == (b == 2)
            && flag_at(flags, 2) == (c == 4) && flag_at(flags, 3) == (d == 8)) by (bit_vector)
            requires
                a == 0 || a == 1,
                b == 0 || b == 2,
                c == 0 || c == 4,
                d == 0 || d == 8,
                flags == a | b | c | d,
        ;
        CastleRights { flags }
    }

    /// Index of the right of `turn` on the given side.
    pub fn castle_index(&self, turn: Turn, king_side: bool) -> (r: usize)
        ensures
            r == right_index(turn, king_side),
    {
        2 * (if turn { 1 } else { 0 }) + (if king_side { 0 } else { 1 })
    }

    pub fn can_castle(&self, turn: Turn, king_side: bool) -> (r: bool)
        ensures
            r == self.right(right_index(turn, king_side)),
    {
        let index = self.castle_index(turn, king_side) as u8;
        proof {
            lemma_flags(self.flags, index);
        }
        self.flags & (1u8 << index) != 0
    }

    /// Clears one right; the others are kept.
    pub fn remove_castle_right(&mut self, turn: Turn, king_side: bool)
        requires
            old(self).wf(),
        ensures
            *final(self) == old(self).spec_remove(turn, king_side),
            final(self).wf(),
            forall|i: int|
                0 <= i < 4 ==> final(self).right(i) == (old(self).right(i) && i != right_index(
                    turn,
                    king_side,
                )),
    {
        let index = self.castle_index(turn, king_side) as u8;
        let f = self.flags;
        proof {
            lemma_flags(f, index);
        }
        assert(f & !(1u8 << index) < 16) by (bit_vector)
            requires
                f < 16,
        ;
        self.flags = self.flags & !(1u8 << index);
        assert forall|i: int| 0 <= i < 4 implies final(self).right(i) == (old(self).right(i) && i
            != right_index(turn, king_side)) by {
            let j = i as u8;
            assert(j < 8);
        }
    }

    pub fn castle_at_index(&self, index: usize) -> (r: bool)
        requires
            index < 4,
        ensures
            r == self.right(index as int),
    {
        proof {
            lemma_flags(self.flags, index as u8);
        }
        self.flags & (1u8 << index as u8) != 0
    }
}

} // verus!
