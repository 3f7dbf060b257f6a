use vstd::prelude::*;
use vstd::arithmetic::power2::pow2;
use rand_pcg::Pcg64Mcg;
use crate::bitboard::{Bitboard, bit_at};
use crate::computed_boards::{slide_attack, lemma_slide_word, get_sliding_moves, check_slider_square, table_ok, magic_ok, slide_word, lemma_table_gives_magic_ok};
use crate::position::Position;

verus! {

#[verifier::external_type_specification]
#[verifier::external_body]
pub struct ExPcg64Mcg(rand_pcg::Mcg128Xsl64);

/// Relies on `rand_core::SeedableRng::seed_from_u64` for `Pcg64Mcg`: a
/// generator whose stream depends on the seed alone.
#[verifier::external_body]
pub(crate) fn rng_from_seed(seed: u64) -> (r: Pcg64Mcg) {
    <Pcg64Mcg as rand::SeedableRng>::seed_from_u64(seed)
}

/// Relies on `rand_core::SeedableRng::from_rng` for `Pcg64Mcg`, seeded from
/// `rand::rngs::OsRng`: a generator seeded by the operating system, or `None`
/// when the system source of randomness fails (`from_rng` returns its error).
#[verifier::external_body]
pub(crate) fn rng_from_entropy() -> (r: Option<Pcg64Mcg>) {
    <Pcg64Mcg as rand::SeedableRng>::from_rng(rand::rngs::OsRng).ok()
}

/// Relies on `rand::Rng::gen::<u64>`: the next word of the stream; nothing is
/// known of its value.
#[verifier::external_body]
pub(crate) fn next_u64(rng: &mut Pcg64Mcg) -> (r: u64) {
    rand::Rng::gen::<u64>(rng)
}

/// Whether `c` is one of the blocker configurations of `mask` (a subset).
pub open spec fn is_subset_of(c: u64, mask: u64) -> bool {
    c & !mask == 0
}

/// A subset is no larger than its set.
pub proof fn lemma_subset_le(c: u64, mask: u64)
    ensures
        is_subset_of(c, mask) ==> c <= mask,
{
    assert(c & !mask == 0 ==> c <= mask) by (bit_vector);
}

/// The carry-rippler step: `(c - mask) & mask`, the subtraction wrapping.
pub open spec fn next_subset(c: u64, mask: u64) -> u64 {
    vstd::wrapping::u64_specs::wrapping_sub(c, mask) & mask
}

/// The carry-rippler step moves from a subset of `mask` to the next larger
/// subset, and from `mask` itself back to the empty set.
pub proof fn lemma_next_subset(c: u64, mask: u64, x: u64)
    requires
        is_subset_of(c, mask),
    ensures
        is_subset_of(next_subset(c, mask), mask),
        c == mask ==> next_subset(c, mask) == 0,
        c != mask ==> c < next_subset(c, mask),
        c != mask && is_subset_of(x, mask) && c < x ==> next_subset(c, mask) <= x,
{
    let n = vstd::wrapping::u64_specs::wrapping_sub(c, mask);
    let big: u64 = 0xFFFF_FFFF_FFFF_FFFF;
    if c >= mask {
        assert(n == c - mask);
    } else {
        assert(n == c + (big - mask) + 1);
    }
    assert((n & mask) & !mask == 0) by (bit_vector);
    assert(c & !mask == 0 && c == mask ==> n & mask == 0) by (bit_vector)
        requires
            c >= mask ==> n == c - mask,
            c < mask ==> n == c + (big - mask) + 1,
            big == 0xFFFF_FFFF_FFFF_FFFFu64,
    ;
    assert(c & !mask == 0 && c != mask ==> c < (n & mask)) by (bit_vector)
        requires
            c >= mask ==> n == c - mask,
            c < mask ==> n == c + (big - mask) + 1,
            big == 0xFFFF_FFFF_FFFF_FFFFu64,
    ;
    assert(c & !mask == 0 && c != mask && x & !mask == 0 && c < x ==> (n & mask) <= x)
        by (bit_vector)
        requires
            c >= mask ==> n == c - mask,
            c < mask ==> n == c + (big - mask) + 1,
            big == 0xFFFF_FFFF_FFFF_FFFFu64,
    ;
}

/// Upper bound on random candidates tried for one cell before the search gives up.
pub const MAGIC_SEARCH_LIMIT: u64 = 100000000;

/// Index of the blocker configuration `blockers` under a magic entry:
/// relevant blockers times the multiplier, modulo 2^64, shifted right.
pub open spec fn magic_hash(mask: u64, magic: u64, shift: u8, blockers: u64) -> int {
    (vstd::wrapping::u64_specs::wrapping_mul(blockers & mask, magic) >> shift) as int
}

/// Per-cell data of a sliding piece's attack lookup: the relevant blockers,
/// the multiplier, the shift, and the start of the cell's slice of the
/// shared attack table.
#[derive(Clone, Copy, PartialEq, Eq, Structural, Debug)]
pub struct MagicEntry {
    pub mask: Bitboard,
    pub magic: u64,
    pub shift: u8,
    pub offset: usize,
}

impl MagicEntry {
    pub open spec fn spec_index(self, blockers: Bitboard) -> int {
        magic_hash(self.mask.0, self.magic, self.shift, blockers.0)
    }

    pub fn magic_index(&self, blockers: Bitboard) -> (r: usize)
        requires
            32 <= self.shift < 64,
        ensures
            r == self.spec_index(blockers),
            r < vstd::arithmetic::power2::pow2((64 - self.shift) as nat),
    {
        let b = blockers.0 & self.mask.0;
        let hash = b.wrapping_mul(self.magic);
        let s = self.shift;
        let s64: u64 = s as u64;
        assert(hash >> s64 <= 0xffff_ffffu64) by (bit_vector)
            requires
                32 <= s64 < 64,
        ;
        proof {
            let k = (64 - s) as nat;
            vstd::bits::lemma_u64_shr_is_div(hash, s64);
            vstd::arithmetic::power2::lemma_pow2_adds(s as nat, k);
            vstd::arithmetic::power2::lemma2_to64();
            vstd::arithmetic::power2::lemma_pow2_pos(s as nat);
            vstd::arithmetic::div_mod::lemma_multiply_divide_lt(
                hash as int,
                vstd::arithmetic::power2::pow2(s as nat) as int,
                vstd::arithmetic::power2::pow2(k) as int,
            );
            assert(hash >> s64 == hash >> s);
        }
        (hash >> s) as usize
    }
}

/// The multiplier found for the rook on cell `sq`.
pub fn rook_magic_number(sq: usize) -> (r: u64)
    requires
        sq < 64,
{
    let table: [u64; 64] = [
            0x0080001140028420u64,
            0x0040014020003006u64,
            0x410010A001C10008u64,
            0x0080100015280080u64,
            0x8200084402002010u64,
            0x0200060008100304u64,
            0x09001200088B0014u64,
            0x008000C021000080u64,
            0x1000802040008000u64,
            0x0102002601008044u64,
            0x800080200A801000u64,
            0x1000804800900080u64,
            0x2480800800CC0080u64,
            0x2006800200802400u64,
            0x0004001008048201u64,
            0x0C188001000C5080u64,
            0x0401908000400024u64,
            0x000480802008400Du64,
            0x420A020041801022u64,
            0x0014210008100102u64,
            0x4001010004100800u64,
            0x8200808044000200u64,
            0x0A00B40001100208u64,
            0x2043820004850844u64,
            0x0000852080094000u64,
            0x0430004040002010u64,
            0x2220028080100128u64,
            0x0004100080280080u64,
            0x0020040080080080u64,
            0x1302000200241008u64,
            0x4801000101020004u64,
            0x0002150200006084u64,
            0x00008040008000A0u64,
            0x0210002000C00042u64,
            0x0008310041002000u64,
            0x4600852800801000u64,
            0x0000180080800400u64,
            0x40A600843A004810u64,
            0x0020481044000241u64,
            0x000480194A800300u64,
            0x0A10204000848010u64,
            0x02005000200E4000u64,
            0x0001100020008080u64,
            0x40404200100A0020u64,
            0x024030880101000Cu64,
            0x6005340002008080u64,
            0x1302D05201240008u64,
            0x08012040A1020004u64,
            0x0C04A08002400480u64,
            0x40150082C0006100u64,
            0x0240312000450900u64,
            0x050490002900A100u64,
            0x0220640080480080u64,
            0x3044000200800480u64,
            0x0088100259080400u64,
            0x000024C401148200u64,
            0x0002C18221D20102u64,
            0x48044202822302B2u64,
            0x00808010E0410A02u64,
            0x8002004011182006u64,
            0x0022000820441002u64,
            0x0006000410010852u64,
            0x100200210400C802u64,
            0x0028005484010022u64
    ];
    table[sq]
}

/// The multiplier found for the bishop on cell `sq`.
pub fn bishop_magic_number(sq: usize) -> (r: u64)
    requires
        sq < 64,
{
    let table: [u64; 64] = [
            0x200204104C860080u64,
            0x0808220842002121u64,
            0x8622020401E40388u64,
            0x20060A0200200803u64,
            0x24040520000D0001u64,
            0x0201100210000002u64,
            0x4028410820108002u64,
            0x0300818800822021u64,
            0x0000280208720401u64,
            0x4000200184028884u64,
            0x0080900400404031u64,
            0x0150040400900202u64,
            0x000004102844A311u64,
            0x60A0020802080060u64,
            0x3000004304202040u64,
            0x0004020090841004u64,
            0x2240900C10049100u64,
            0x0002269004080880u64,
            0x0030000800409220u64,
            0xC80807108200C008u64,
            0x0805021190400A00u64,
            0x7000802808042600u64,
            0x101400C14C140400u64,
            0x2809204504020208u64,
            0x0004304040100100u64,
            0x10440A0414081800u64,
            0x8348040006040010u64,
            0x0048080010820202u64,
            0x9400840102802000u64,
            0x0002820059080202u64,
            0x00070A0401082101u64,
            0x040180B503010806u64,
            0x2008206400088800u64,
            0x1086901000040400u64,
            0x40C1540200900980u64,
            0x0040940100900900u64,
            0x8040820A000C0108u64,
            0x4210004200004500u64,
            0x00081204008AC150u64,
            0x8008020020198390u64,
            0x001802D210402000u64,
            0x084202072000E440u64,
            0x02501040B0000800u64,
            0x0001042011089800u64,
            0x0604024CA2000402u64,
            0x084005C081000080u64,
            0x000C2840C4002900u64,
            0x2004080080324100u64,
            0x0304040C24442410u64,
            0x4200920811140020u64,
            0x4000A0212808210Au64,
            0x2042024142022004u64,
            0x0802248C10540885u64,
            0x0842086028208008u64,
            0x2004880888008381u64,
            0x0406020405020000u64,
            0x0300410809101200u64,
            0x0001104104100200u64,
            0x0020800100411020u64,
            0x2224090000A08800u64,
            0x2181020420342421u64,
            0x0441220C04480200u64,
            0x008010D010810040u64,
            0x1010101004802048u64
    ];
    table[sq]
}

/// Number of entries of the slice of entry `e`: two to the number of index bits.
pub open spec fn slice_size(e: MagicEntry) -> int {
    pow2((64 - e.shift) as nat) as int
}

/// Builds the attack slice of one cell under a candidate entry: every
/// blocker configuration of the mask (walked with the carry-rippler step)
/// goes to its index; two different attack sets on one index are a
/// collision, and the candidate is refused. The slice is then checked for
/// every configuration. The result is `Ok` exactly when the entry is
/// collision-free, and an `Ok` slice holds each configuration's ray cast.
pub fn try_make_table(
    deltas: &[(i8, i8); 4],
    pos: Position,
    magic_entry: &MagicEntry,
) -> (r: Result<Vec<Bitboard>, String>)
    requires
        forall|d: int| 0 <= d < 4 ==> -1 <= #[trigger] deltas@[d].0 <= 1 && -1 <= deltas@[d].1 <= 1,
        48 < magic_entry.shift < 64,
        magic_entry.offset == 0,
    ensures
        r matches Ok(t) ==> t.len() == slice_size(*magic_entry) && (forall|c: u64|
            is_subset_of(c, magic_entry.mask.0) ==> #[trigger] table_ok(
                t@,
                *magic_entry,
                pos.idx(),
                deltas@,
                c,
            )),
        magic_ok(*magic_entry, pos.idx(), deltas@) ==> r is Ok,
        r is Ok ==> magic_ok(*magic_entry, pos.idx(), deltas@),
{
    let ghost cf = magic_ok(*magic_entry, pos.idx(), deltas@);
    let ghost sq = pos.idx();
    let index_bits: u8 = 64 - magic_entry.shift;
    proof {
        vstd::arithmetic::power2::lemma2_to64();
        vstd::arithmetic::power2::lemma_pow2_strictly_increases(index_bits as nat, 16);
        vstd::bits::lemma_u64_shl_is_mul(1, index_bits as u64);
    }
    let size: usize = (1u64 << index_bits as u64) as usize;
    let mut table: Vec<Bitboard> = Vec::new();
    let mut i: usize = 0;
    while i < size
        invariant
            i <= size,
            table.len() == i,
            forall|k: int| 0 <= k < i ==> (#[trigger] table@[k]).0 == 0,
        decreases size - i,
    {
        table.push(Bitboard(0));
        i += 1;
    }
    let mask = magic_entry.mask.0;
    let mut c: u64 = 0;
    proof {
        crate::computed_boards::lemma_subset_zero(mask);
        lemma_subset_le(0, mask);
    }
    loop
        invariant_except_break
            forall|d: int| 0 <= d < 4 ==> -1 <= #[trigger] deltas@[d].0 <= 1 && -1 <= deltas@[d].1 <= 1,
            48 < magic_entry.shift < 64,
            magic_entry.offset == 0,
            mask == magic_entry.mask.0,
            sq == pos.idx(),
            cf == magic_ok(*magic_entry, sq, deltas@),
            size == slice_size(*magic_entry),
            table.len() == size,
            is_subset_of(c, mask),
            c <= mask,
            cf ==> forall|x: u64|
                is_subset_of(x, mask) && x < c ==> #[trigger] table_ok(table@, *magic_entry, sq, deltas@, x),
            cf ==> forall|i: int|
                0 <= i < size ==> (#[trigger] table@[i]).0 == 0 || exists|x: u64|
                    is_subset_of(x, mask) && x < c && #[trigger] magic_entry.spec_index(Bitboard(x)) == i
                        && table@[i].0 == slide_word(sq, deltas@, x),
        ensures
            48 < magic_entry.shift < 64,
            magic_entry.offset == 0,
            mask == magic_entry.mask.0,
            sq == pos.idx(),
            table.len() == size,
            cf ==> forall|x: u64|
                is_subset_of(x, mask) && x <= mask ==> #[trigger] table_ok(table@, *magic_entry, sq, deltas@, x),
        decreases mask - c,
    {
        let moves = get_sliding_moves(deltas, pos, Bitboard(c));
        let index = magic_entry.magic_index(Bitboard(c));
        proof {
            assert forall|t: int| 0 <= t < 64 implies #[trigger] bit_at(moves.0, t) == slide_attack(sq, deltas@, c, t) by {
                assert(moves.has(t) == slide_attack(sq, deltas@, c, t));
            }
            lemma_slide_word(moves.0, sq, deltas@, c);
        }
        if index >= size {
            return Err(String::new());
        }
        let current = table[index];
        let ghost before = table@;
        if current.0 == 0 {
            table.set(index, moves);
        } else if current.0 != moves.0 {
            proof {
                if cf {
                    let x = choose|x: u64|
                        is_subset_of(x, mask) && x < c && #[trigger] magic_entry.spec_index(Bitboard(x))
                            == index as int && before[index as int].0 == slide_word(sq, deltas@, x);
                    assert(magic_entry.spec_index(Bitboard(x)) == magic_entry.spec_index(Bitboard(c)));
                }
            }
            return Err(String::new());
        }
        proof {
            if cf {
                assert forall|x: u64|
                    is_subset_of(x, mask) && x <= c implies #[trigger] table_ok(table@, *magic_entry, sq, deltas@, x) by {
                    if x < c {
                        assert(table_ok(before, *magic_entry, sq, deltas@, x));
                        if magic_entry.spec_index(Bitboard(x)) == index as int {
                            assert(magic_entry.spec_index(Bitboard(x)) == magic_entry.spec_index(Bitboard(c)));
                        }
                    }
                }
                assert forall|i: int|
                    0 <= i < size implies (#[trigger] table@[i]).0 == 0 || exists|x: u64|
                        is_subset_of(x, mask) && x <= c && #[trigger] magic_entry.spec_index(Bitboard(x)) == i
                            && table@[i].0 == slide_word(sq, deltas@, x) by {
                    if i == index as int {
                        assert(magic_entry.spec_index(Bitboard(c)) == i);
                    } else {
                        assert(table@[i] == before[i]);
                    }
                }
            }
        }
        if c == mask {
            break;
        }
        let next = if c >= mask {
            c - mask
        } else {
            c + (0xFFFF_FFFF_FFFF_FFFFu64 - mask) + 1
        } & mask;
        proof {
            assert(next == next_subset(c, mask));
            lemma_next_subset(c, mask, 0);
            lemma_subset_le(next, mask);
            if cf {
                assert forall|x: u64|
                    is_subset_of(x, mask) && x < next implies #[trigger] table_ok(table@, *magic_entry, sq, deltas@, x) by {
                    lemma_next_subset(c, mask, x);
                }
            }
        }
        c = next;
    }
    proof {
        if cf {
            assert forall|x: u64| is_subset_of(x, mask) implies #[trigger] table_ok(table@, *magic_entry, sq, deltas@, x) by {
                lemma_subset_le(x, mask);
            }
        }
    }
    if !check_slider_square(deltas, pos, magic_entry, &table) {
        return Err(String::new());
    }
    proof {
        crate::computed_boards::lemma_table_gives_magic_ok(table@, *magic_entry, sq, deltas@);
    }
    Ok(table)
}

/// Searches random sparse multipliers for cell `pos` until one maps every
/// blocker configuration without collision; `None` only after
/// `MAGIC_SEARCH_LIMIT` refused candidates.
pub fn find_magic(
    deltas: &[(i8, i8); 4],
    blockers: &Vec<Bitboard>,
    pos: Position,
    index_bits: u8,
    rng: &mut Pcg64Mcg,
) -> (r: Option<(MagicEntry, Vec<Bitboard>)>)
    requires
        forall|d: int| 0 <= d < 4 ==> -1 <= #[trigger] deltas@[d].0 <= 1 && -1 <= deltas@[d].1 <= 1,
        blockers.len() == 64,
        0 < index_bits < 16,
    ensures
        r matches Some((e, t)) ==> e.mask == blockers[pos.idx()] && e.shift == 64 - index_bits
            && e.offset == 0 && t.len() == slice_size(e) && magic_ok(e, pos.idx(), deltas@) && (
        forall|c: u64| is_subset_of(c, e.mask.0) ==> #[trigger] table_ok(t@, e, pos.idx(), deltas@, c)),
{
    let mask = blockers[pos.as_usize()];
    let shift: u8 = 64 - index_bits;
    let mut attempts: u64 = 0;
    while attempts < MAGIC_SEARCH_LIMIT
        invariant
            forall|d: int| 0 <= d < 4 ==> -1 <= #[trigger] deltas@[d].0 <= 1 && -1 <= deltas@[d].1 <= 1,
            mask == blockers[pos.idx()],
            shift == 64 - index_bits,
            48 < shift < 64,
        decreases MAGIC_SEARCH_LIMIT - attempts,
    {
        // Sparse candidates work best: three draws are intersected.
        let a = next_u64(rng);
        let b = next_u64(rng);
        let c = next_u64(rng);
        let magic_entry = MagicEntry { mask, magic: a & b & c, shift, offset: 0 };
        match try_make_table(deltas, pos, &magic_entry) {
            Ok(table) => {
                proof {
                    lemma_table_gives_magic_ok(table@, magic_entry, pos.idx(), deltas@);
                }
                return Some((magic_entry, table));
            },
            Err(_) => {},
        }
        attempts += 1;
    }
    None
}

/// Finds a collision-free entry for each of the 64 cells, shift
/// `64 - popcount(mask)`, with offsets that lay the slices end to end;
/// returns the entries and the total table size. `None` only when
/// `find_magic` gives up on some cell.
pub fn find_all_magics(deltas: &[(i8, i8); 4], blockers: &Vec<Bitboard>, rng: &mut Pcg64Mcg) -> (r:
    Option<(Vec<MagicEntry>, usize)>)
    requires
        forall|d: int| 0 <= d < 4 ==> -1 <= #[trigger] deltas@[d].0 <= 1 && -1 <= deltas@[d].1 <= 1,
        blockers.len() == 64,
        forall|i: int| 0 <= i < 64 ==> 0 < #[trigger] crate::bitboard::popcount(blockers[i].0) < 16,
    ensures
        r matches Some((entries, total)) ==> {
            &&& entries.len() == 64
            &&& forall|k: int|
                0 <= k < 64 ==> (#[trigger] entries[k]).mask == blockers[k] && entries[k].shift == 64
                    - crate::bitboard::popcount(blockers[k].0) && magic_ok(entries[k], k, deltas@)
            &&& entries[0].offset == 0
            &&& forall|k: int|
                0 <= k < 63 ==> #[trigger] entries[k + 1].offset == entries[k].offset + slice_size(
                    entries[k],
                )
            &&& total == entries[63].offset + slice_size(entries[63])
        },
{
    let mut entries: Vec<MagicEntry> = Vec::new();
    let mut total: usize = 0;
    let mut i: usize = 0;
    while i < 64
        invariant
            forall|d: int| 0 <= d < 4 ==> -1 <= #[trigger] deltas@[d].0 <= 1 && -1 <= deltas@[d].1 <= 1,
            i <= 64,
            entries.len() == i,
            total <= i * 0x8000,
            blockers.len() == 64,
            forall|i: int| 0 <= i < 64 ==> 0 < #[trigger] crate::bitboard::popcount(blockers[i].0) < 16,
            forall|k: int|
                0 <= k < i ==> (#[trigger] entries[k]).mask == blockers[k] && entries[k].shift == 64
                    - crate::bitboard::popcount(blockers[k].0) && magic_ok(entries[k], k, deltas@),
            i > 0 ==> entries[0].offset == 0,
            forall|k: int|
                0 <= k < i - 1 ==> #[trigger] entries[k + 1].offset == entries[k].offset + slice_size(
                    entries[k],
                ),
            i == 0 ==> total == 0,
            i > 0 ==> total == entries[i - 1].offset + slice_size(entries[i - 1]),
        decreases 64 - i,
    {
        let pos = Position::new(i);
        let bits = blockers[i].count_bits() as u8;
        match find_magic(deltas, blockers, pos, bits, rng) {
            Some((entry, table)) => {
                let ghost e0 = entry;
                proof {
                    vstd::arithmetic::power2::lemma2_to64();
                    if bits < 15 {
                        vstd::arithmetic::power2::lemma_pow2_strictly_increases(bits as nat, 15);
                    }
                }
                let placed = MagicEntry { offset: total, ..entry };
                proof {
                    assert(placed.spec_index(Bitboard(0)) == e0.spec_index(Bitboard(0)));
                    assert forall|c1: u64, c2: u64|
                        is_subset_of(c1, placed.mask.0) && is_subset_of(c2, placed.mask.0)
                            && #[trigger] placed.spec_index(Bitboard(c1)) == #[trigger] placed.spec_index(
                            Bitboard(c2),
                        ) implies slide_word(i as int, deltas@, c1) == slide_word(
                        i as int,
                        deltas@,
                        c2,
                    ) by {
                        assert(placed.spec_index(Bitboard(c1)) == e0.spec_index(Bitboard(c1)));
                        assert(placed.spec_index(Bitboard(c2)) == e0.spec_index(Bitboard(c2)));
                    }
                }
                entries.push(placed);
                total = total + table.len();
            },
            None => {
                return None;
            },
        }
        i += 1;
    }
    Some((entries, total))
}

} // verus!
