use vstd::prelude::*;
use vstd::std_specs::bits::u64_trailing_zeros;
use vstd::std_specs::bits::u64_leading_zeros;

verus! {

/// Whether cell `sq` (0..63) is a member of the set encoded by `b`.
pub open spec fn bit_at(b: u64, sq: int) -> bool {
    0 <= sq < 64 && (b >> (sq as u64)) & 1u64 == 1u64
}

/// The single-cell set `{sq}`.
pub open spec fn single(sq: int) -> u64 {
    1u64 << (sq as u64)
}

pub broadcast proof fn lemma_bit_or(a: u64, b: u64, i: int)
    ensures
        #[trigger] bit_at(a | b, i) == (bit_at(a, i) || bit_at(b, i)),
{
    if 0 <= i < 64 {
        let s = i as u64;
        assert(((a | b) >> s) & 1u64 == 1u64 <==> ((a >> s) & 1u64 == 1u64 || (b >> s) & 1u64
            == 1u64)) by (bit_vector)
            requires
                s < 64,
        ;
    }
}

pub broadcast proof fn lemma_bit_and(a: u64, b: u64, i: int)
    ensures
        #[trigger] bit_at(a & b, i) == (bit_at(a, i) && bit_at(b, i)),
{
    if 0 <= i < 64 {
        let s = i as u64;
        assert(((a & b) >> s) & 1u64 == 1u64 <==> ((a >> s) & 1u64 == 1u64 && (b >> s) & 1u64
            == 1u64)) by (bit_vector)
            requires
                s < 64,
        ;
    }
}

pub broadcast proof fn lemma_bit_xor(a: u64, b: u64, i: int)
    ensures
        #[trigger] bit_at(a ^ b, i) == (bit_at(a, i) != bit_at(b, i)),
{
    if 0 <= i < 64 {
        let s = i as u64;
        assert(((a ^ b) >> s) & 1u64 == 1u64 <==> ((a >> s) & 1u64 == 1u64) != ((b >> s) & 1u64
            == 1u64)) by (bit_vector)
            requires
                s < 64,
        ;
    }
}

pub broadcast proof fn lemma_bit_not(a: u64, i: int)
    ensures
        #[trigger] bit_at(!a, i) == (0 <= i < 64 && !bit_at(a, i)),
{
    if 0 <= i < 64 {
        let s = i as u64;
        assert(((!a) >> s) & 1u64 == 1u64 <==> !((a >> s) & 1u64 == 1u64)) by (bit_vector)
            requires
                s < 64,
        ;
    }
}

pub broadcast proof fn lemma_bit_single(s: int, i: int)
    requires
        0 <= s < 64,
    ensures
        #[trigger] bit_at(single(s), i) == (i == s),
{
    if 0 <= i < 64 {
        let a = s as u64;
        let b = i as u64;
        assert(((1u64 << a) >> b) & 1u64 == 1u64 <==> a == b) by (bit_vector)
            requires
                a < 64,
                b < 64,
        ;
    }
}

pub broadcast group group_bits {
    lemma_bit_or,
    lemma_bit_and,
    lemma_bit_xor,
    lemma_bit_not,
    lemma_bit_single,
}

/// Two words with the same members are equal.
pub proof fn lemma_bits_ext(a: u64, b: u64)
    requires
        forall|i: int| 0 <= i < 64 ==> bit_at(a, i) == bit_at(b, i),
    ensures
        a == b,
{
    let x = a ^ b;
    if x != 0 {
        broadcast use vstd::std_specs::bits::axiom_u64_trailing_zeros;
        let t = u64_trailing_zeros(x) as int;
        assert(bit_at(x, t));
        lemma_bit_xor(a, b, t);
        assert(false);
    }
    assert(a ^ b == 0 ==> a == b) by (bit_vector);
}

pub proof fn lemma_bit_zero(i: int)
    ensures
        !bit_at(0u64, i),
{
    if 0 <= i < 64 {
        let s = i as u64;
        assert((0u64 >> s) & 1u64 == 0u64) by (bit_vector);
    }
}

/// `x & (x - 1)` removes exactly the lowest member of a non-empty set.
pub proof fn lemma_lowest_bit(x: u64)
    requires
        x != 0,
    ensures
        (u64_trailing_zeros(x) as int) < 64,
        bit_at(x, u64_trailing_zeros(x) as int),
        forall|j: int| 0 <= j < u64_trailing_zeros(x) ==> !bit_at(x, j),
        x & ((x - 1) as u64) == x & !single(u64_trailing_zeros(x) as int),
{
    broadcast use vstd::std_specs::bits::axiom_u64_trailing_zeros;
    let t = u64_trailing_zeros(x) as u64;
    assert(t < 64);
    assert forall|j: int| 0 <= j < u64_trailing_zeros(x) implies !bit_at(x, j) by {
        let jj = j as u64;
        assert((x >> jj) & 1u64 == 0u64);
    }
    assert(x << vstd::prelude::sub(64, t) == 0);
    assert(x & ((x - 1) as u64) == x & !(1u64 << t))
        by (bit_vector)
        requires
            x != 0,
            t < 64,
            (x >> t) & 1u64 == 1u64,
            x << vstd::prelude::sub(64, t) == 0,
    ;
}

/// Population count: the number of members.
pub open spec fn popcount(x: u64) -> nat
    decreases x,
{
    if x == 0 {
        0
    } else {
        (x % 2) as nat + popcount(x / 2)
    }
}

/// The cell mirrored through the board centre (file and rank both mirrored): cell `63 - i`.
pub open spec fn reversed_cell(i: int) -> int {
    63 - i
}

/// The cell on the same file with the rank mirrored.
pub open spec fn flipped_cell(i: int) -> int {
    (7 - i / 8) * 8 + i % 8
}

/// Relies on `u64::count_ones`: the number of one bits.
#[verifier::external_body]
fn count_ones(x: u64) -> (r: u32)
    ensures
        r as nat == popcount(x),
{
    x.count_ones()
}

/// Relies on `u64::reverse_bits`: bit `i` of the result is bit `63 - i` of `x`.
#[verifier::external_body]
fn reverse_bits(x: u64) -> (r: u64)
    ensures
        forall|i: int| 0 <= i < 64 ==> bit_at(r, i) == bit_at(x, reversed_cell(i)),
{
    x.reverse_bits()
}

/// Relies on `u64::swap_bytes`: byte `k` of the result is byte `7 - k` of `x`.
#[verifier::external_body]
fn swap_bytes(x: u64) -> (r: u64)
    ensures
        forall|i: int| 0 <= i < 64 ==> bit_at(r, i) == bit_at(x, flipped_cell(i)),
{
    x.swap_bytes()
}

/// A set of board cells, one bit per cell, cell index = rank * 8 + file.
#[derive(Clone, Copy, PartialEq, Eq, Structural, Hash, Debug, Default)]
pub struct Bitboard(pub u64);

impl Bitboard {
    /// Membership of cell `sq`.
    pub open spec fn has(self, sq: int) -> bool {
        bit_at(self.0, sq)
    }

    pub fn new() -> (r: Bitboard)
        ensures
            r.0 == 0,
    {
        Bitboard(0)
    }

    pub fn from_u64(value: u64) -> (r: Bitboard)
        ensures
            r.0 == value,
    {
        Bitboard(value)
    }

    pub fn full() -> (r: Bitboard)
        ensures
            r.0 == u64::MAX,
    {
        Bitboard(u64::MAX)
    }

    pub fn set_square(&mut self, square: usize)
        ensures
            final(self).0 == if square < 64 {
                old(self).0 | single(square as int)
            } else {
                old(self).0
            },
    {
        if square < 64 {
            self.0 = self.0 | (1u64 << square as u64);
        }
    }

    pub fn clear_square(&mut self, square: usize)
        ensures
            final(self).0 == if square < 64 {
                old(self).0 & !single(square as int)
            } else {
                old(self).0
            },
    {
        if square < 64 {
            self.0 = self.0 & !(1u64 << square as u64);
        }
    }

    pub fn toggle_square(&mut self, square: usize)
        ensures
            final(self).0 == if square < 64 {
                old(self).0 ^ single(square as int)
            } else {
                old(self).0
            },
    {
        if square < 64 {
            self.0 = self.0 ^ (1u64 << square as u64);
        }
    }

    pub fn is_square_set(&self, square: usize) -> (r: bool)
        ensures
            r == self.has(square as int),
    {
        if square < 64 {
            let s = square as u64;
            let x = self.0;
            assert((x & (1u64 << s)) != 0 <==> (x >> s) & 1u64 == 1u64) by (bit_vector)
                requires
                    s < 64,
            ;
            (self.0 & (1u64 << s)) != 0
        } else {
            false
        }
    }

    pub fn get_bits(&self) -> (r: u64)
        ensures
            r == self.0,
    {
        self.0
    }

    pub fn is_empty(&self) -> (r: bool)
        ensures
            r == (self.0 == 0),
    {
        self.0 == 0
    }

    pub fn is_not_empty(&self) -> (r: bool)
        ensures
            r == (self.0 != 0),
    {
        self.0 != 0
    }

    pub fn clear(&mut self)
        ensures
            final(self).0 == 0,
    {
        self.0 = 0;
    }

    pub fn fill(&mut self)
        ensures
            final(self).0 == u64::MAX,
    {
        self.0 = u64::MAX;
    }

    pub fn count_bits(&self) -> (r: u32)
        ensures
            r as nat == popcount(self.0),
    {
        count_ones(self.0)
    }

    pub fn leading_zeros(&self) -> (r: u32)
        ensures
            r as int == u64_leading_zeros(self.0),
    {
        self.0.leading_zeros()
    }

    pub fn trailing_zeros(&self) -> (r: usize)
        ensures
            r == u64_trailing_zeros(self.0) as usize,
            r <= 64,
            self.0 == 0 <==> r == 64,
    {
        broadcast use vstd::std_specs::bits::axiom_u64_trailing_zeros;
        self.0.trailing_zeros() as usize
    }

    /// Lowest member, if any.
    pub fn first_set_bit(&self) -> (r: Option<usize>)
        ensures
            self.0 == 0 ==> r is None,
            self.0 != 0 ==> r == Some(u64_trailing_zeros(self.0) as usize),
    {
        if self.0 == 0 {
            None
        } else {
            Some(self.0.trailing_zeros() as usize)
        }
    }

    /// Highest member, if any.
    pub fn last_set_bit(&self) -> (r: Option<usize>)
        ensures
            self.0 == 0 ==> r is None,
            self.0 != 0 ==> r == Some((63 - u64_leading_zeros(self.0)) as usize),
    {
        broadcast use vstd::std_specs::bits::axiom_u64_leading_zeros;
        if self.0 == 0 {
            None
        } else {
            Some(63 - self.0.leading_zeros() as usize)
        }
    }

    /// Removes the lowest member and returns it.
    pub fn pop_lsb(&mut self) -> (r: Option<usize>)
        ensures
            old(self).0 == 0 ==> r is None && final(self).0 == 0,
            old(self).0 != 0 ==> r == Some(u64_trailing_zeros(old(self).0) as usize)
                && final(self).0 == old(self).0 & !single(u64_trailing_zeros(old(self).0) as int),
    {
        if self.0 == 0 {
            None
        } else {
            proof {
                lemma_lowest_bit(self.0);
            }
            let lsb = self.0.trailing_zeros() as usize;
            self.0 = self.0 & (self.0 - 1);
            Some(lsb)
        }
    }

    /// The lowest member as a one-cell set (empty for an empty set).
    pub fn lsb(&self) -> (r: Bitboard)
        ensures
            self.0 == 0 ==> r.0 == 0,
            self.0 != 0 ==> r.0 == single(u64_trailing_zeros(self.0) as int),
    {
        if self.0 == 0 {
            Bitboard(0)
        } else {
            Bitboard(1u64 << self.0.trailing_zeros())
        }
    }

    /// Removes the lowest member; an empty set stays empty.
    pub fn reset_lsb(&mut self)
        ensures
            old(self).0 == 0 ==> final(self).0 == 0,
            old(self).0 != 0 ==> final(self).0 == old(self).0 & !single(
                u64_trailing_zeros(old(self).0) as int,
            ),
    {
        if self.0 != 0 {
            proof {
                lemma_lowest_bit(self.0);
            }
            self.0 = self.0 & (self.0 - 1);
        }
    }

    /// All cells of file `file` (empty when `file >= 8`).
    pub fn file_mask(file: usize) -> (r: Bitboard)
        ensures
            forall|i: int| 0 <= i < 64 ==> r.has(i) == (file < 8 && i % 8 == file),
    {
        if file < 8 {
            let f = file as u64;
            let r = Bitboard(0x0101010101010101u64 << f);
            assert forall|i: int| 0 <= i < 64 implies r.has(i) == (i % 8 == file) by {
                let ii = i as u64;
                assert(((0x0101010101010101u64 << f) >> ii) & 1u64 == 1u64 <==> ii % 8 == f)
                    by (bit_vector)
                    requires
                        f < 8,
                        ii < 64,
                ;
            }
            r
        } else {
            proof {
                assert forall|i: int| 0 <= i < 64 implies !bit_at(0u64, i) by {
                    lemma_bit_zero(i);
                }
            }
            Bitboard(0)
        }
    }

    /// All cells of rank `rank` (empty when `rank >= 8`).
    pub fn rank_mask(rank: usize) -> (r: Bitboard)
        ensures
            forall|i: int| 0 <= i < 64 ==> r.has(i) == (rank < 8 && i / 8 == rank),
    {
        if rank < 8 {
            let k = (rank * 8) as u64;
            let r = Bitboard(0xFFu64 << k);
            assert forall|i: int| 0 <= i < 64 implies r.has(i) == (i / 8 == rank) by {
                let ii = i as u64;
                let rr = rank as u64;
                assert(((0xFFu64 << (rr * 8)) >> ii) & 1u64 == 1u64 <==> ii / 8 == rr)
                    by (bit_vector)
                    requires
                        rr < 8,
                        ii < 64,
                ;
            }
            r
        } else {
            proof {
                assert forall|i: int| 0 <= i < 64 implies !bit_at(0u64, i) by {
                    lemma_bit_zero(i);
                }
            }
            Bitboard(0)
        }
    }

    /// The members on file `file`.
    pub fn get_file(&self, file: usize) -> (r: Bitboard)
        ensures
            forall|i: int| 0 <= i < 64 ==> r.has(i) == (self.has(i) && file < 8 && i % 8 == file),
    {
        let m = Self::file_mask(file);
        let r = Bitboard(self.0 & m.0);
        assert forall|i: int| 0 <= i < 64 implies r.has(i) == (self.has(i) && file < 8 && i % 8
            == file) by {
            lemma_bit_and(self.0, m.0, i);
            assert(m.has(i) == (file < 8 && i % 8 == file));
        }
        r
    }

    /// The members on rank `rank`.
    pub fn get_rank(&self, rank: usize) -> (r: Bitboard)
        ensures
            forall|i: int| 0 <= i < 64 ==> r.has(i) == (self.has(i) && rank < 8 && i / 8 == rank),
    {
        let m = Self::rank_mask(rank);
        let r = Bitboard(self.0 & m.0);
        assert forall|i: int| 0 <= i < 64 implies r.has(i) == (self.has(i) && rank < 8 && i / 8
            == rank) by {
            lemma_bit_and(self.0, m.0, i);
            assert(m.has(i) == (rank < 8 && i / 8 == rank));
        }
        r
    }

    pub fn square_from_coords(file: usize, rank: usize) -> (r: Option<usize>)
        ensures
            r == if file < 8 && rank < 8 {
                Some((rank * 8 + file) as usize)
            } else {
                None
            },
    {
        if file < 8 && rank < 8 {
            Some(rank * 8 + file)
        } else {
            None
        }
    }

    pub fn coords_from_square(square: usize) -> (r: Option<(usize, usize)>)
        ensures
            r == if square < 64 {
                Some(((square % 8) as usize, (square / 8) as usize))
            } else {
                None
            },
    {
        if square < 64 {
            Some((square % 8, square / 8))
        } else {
            None
        }
    }

    /// A walk over the members, lowest first, on a private copy.
    pub fn iter_set_bits(&self) -> (r: BitboardIterator)
        ensures
            r.remaining() == *self,
    {
        BitboardIterator { bitboard: *self }
    }

    /// Mirror through the centre of the board: cell `i` goes to `63 - i`.
    pub fn reverse(&self) -> (r: Bitboard)
        ensures
            forall|i: int| 0 <= i < 64 ==> r.has(i) == self.has(reversed_cell(i)),
    {
        Bitboard(reverse_bits(self.0))
    }

    /// Swap the ranks: rank `k` goes to rank `7 - k`.
    pub fn flip_vertical(&self) -> (r: Bitboard)
        ensures
            forall|i: int| 0 <= i < 64 ==> r.has(i) == self.has(flipped_cell(i)),
    {
        Bitboard(swap_bytes(self.0))
    }

    /// Rotate by half a turn: both files and ranks mirrored.
    pub fn rotate_180(&self) -> (r: Bitboard)
        ensures
            forall|i: int| 0 <= i < 64 ==> r.has(i) == self.has(reversed_cell(flipped_cell(i))),
    {
        Bitboard(swap_bytes(reverse_bits(self.0)))
    }
}

impl core::ops::BitOr for Bitboard {
    type Output = Bitboard;

    fn bitor(self, rhs: Bitboard) -> (r: Bitboard) {
        Bitboard(self.0 | rhs.0)
    }
}

impl vstd::std_specs::ops::BitOrSpecImpl for Bitboard {
    open spec fn obeys_bitor_spec() -> bool {
        true
    }

    open spec fn bitor_req(self, rhs: Bitboard) -> bool {
        true
    }

    open spec fn bitor_spec(self, rhs: Bitboard) -> Bitboard {
        Bitboard(self.0 | rhs.0)
    }
}

impl core::ops::BitAnd for Bitboard {
    type Output = Bitboard;

    fn bitand(self, rhs: Bitboard) -> (r: Bitboard) {
        Bitboard(self.0 & rhs.0)
    }
}

impl vstd::std_specs::ops::BitAndSpecImpl for Bitboard {
    open spec fn obeys_bitand_spec() -> bool {
        true
    }

    open spec fn bitand_req(self, rhs: Bitboard) -> bool {
        true
    }

    open spec fn bitand_spec(self, rhs: Bitboard) -> Bitboard {
        Bitboard(self.0 & rhs.0)
    }
}

impl core::ops::BitXor for Bitboard {
    type Output = Bitboard;

    fn bitxor(self, rhs: Bitboard) -> (r: Bitboard) {
        Bitboard(self.0 ^ rhs.0)
    }
}

impl vstd::std_specs::ops::BitXorSpecImpl for Bitboard {
    open spec fn obeys_bitxor_spec() -> bool {
        true
    }

    open spec fn bitxor_req(self, rhs: Bitboard) -> bool {
        true
    }

    open spec fn bitxor_spec(self, rhs: Bitboard) -> Bitboard {
        Bitboard(self.0 ^ rhs.0)
    }
}

impl core::ops::Not for Bitboard {
    type Output = Bitboard;

    fn not(self) -> (r: Bitboard) {
        Bitboard(!self.0)
    }
}

impl vstd::std_specs::ops::NotSpecImpl for Bitboard {
    open spec fn obeys_not_spec() -> bool {
        true
    }

    open spec fn not_req(self) -> bool {
        true
    }

    open spec fn not_spec(self) -> Bitboard {
        Bitboard(!self.0)
    }
}

/// Shift by `rhs` cells towards higher indices; cells pushed past the top are
/// lost, and a shift of 64 or more empties the set.
impl core::ops::Shl<u32> for Bitboard {
    type Output = Bitboard;

    fn shl(self, rhs: u32) -> (r: Bitboard) {
        if rhs >= 64 {
            Bitboard(0)
        } else {
            Bitboard(self.0 << rhs)
        }
    }
}

impl vstd::std_specs::ops::ShlSpecImpl<u32> for Bitboard {
    open spec fn obeys_shl_spec() -> bool {
        true
    }

    open spec fn shl_req(self, rhs: u32) -> bool {
        true
    }

    open spec fn shl_spec(self, rhs: u32) -> Bitboard {
        if rhs >= 64 {
            Bitboard(0)
        } else {
            Bitboard(self.0 << rhs)
        }
    }
}

/// Shift by `rhs` cells towards lower indices.
impl core::ops::Shr<u32> for Bitboard {
    type Output = Bitboard;

    fn shr(self, rhs: u32) -> (r: Bitboard) {
        if rhs >= 64 {
            Bitboard(0)
        } else {
            Bitboard(self.0 >> rhs)
        }
    }
}

impl vstd::std_specs::ops::ShrSpecImpl<u32> for Bitboard {
    open spec fn obeys_shr_spec() -> bool {
        true
    }

    open spec fn shr_req(self, rhs: u32) -> bool {
        true
    }

    open spec fn shr_spec(self, rhs: u32) -> Bitboard {
        if rhs >= 64 {
            Bitboard(0)
        } else {
            Bitboard(self.0 >> rhs)
        }
    }
}

impl From<u64> for Bitboard {
    fn from(value: u64) -> (r: Bitboard) {
        Bitboard(value)
    }
}

impl vstd::std_specs::convert::FromSpecImpl<u64> for Bitboard {
    open spec fn obeys_from_spec() -> bool {
        true
    }

    open spec fn from_spec(v: u64) -> Bitboard {
        Bitboard(v)
    }
}

impl From<Bitboard> for u64 {
    fn from(value: Bitboard) -> (r: u64) {
        value.0
    }
}

impl vstd::std_specs::convert::FromSpecImpl<Bitboard> for u64 {
    open spec fn obeys_from_spec() -> bool {
        true
    }

    open spec fn from_spec(v: Bitboard) -> u64 {
        v.0
    }
}

/// A walk over the members of a set, lowest first; each step removes the
/// member it returns from the walk's own copy.
pub struct BitboardIterator {
    bitboard: Bitboard,
}

impl BitboardIterator {
    pub closed spec fn remaining(self) -> Bitboard {
        self.bitboard
    }

    pub fn next(&mut self) -> (r: Option<usize>)
        ensures
            old(self).remaining().0 == 0 ==> r is None && final(self).remaining().0 == 0,
            old(self).remaining().0 != 0 ==> r == Some(
                u64_trailing_zeros(old(self).remaining().0) as usize,
            ) && final(self).remaining().0 == old(self).remaining().0 & !single(
                u64_trailing_zeros(old(self).remaining().0) as int,
            ),
    {
        self.bitboard.pop_lsb()
    }
}

} // verus!
