use vstd::prelude::*;
use crate::bitboard::Bitboard;
use crate::board::{Board, BoardState, bb_index};
use crate::legality::consistent;
use crate::castle_rights::{CastleRights, Turn, WHITE, BLACK};
use crate::piece::{Piece, piece_of_letter};
use vstd::string::StringSliceAdditionalSpecFns;
use crate::position::{Position, cell_of_text};
use crate::bitboard::single;

verus! {

pub const START_POS_FEN: &'static str = "rnbqkbnr/pppppppp/8/8/8/8/PPPPPPPP/RNBQKBNR w KQkq - 0 1";

/// Whether `c` separates fields.
pub open spec fn is_space(c: u8) -> bool {
    c == 32 || c == 9 || c == 10 || c == 13
}

/// Whether a field of `s` starts at `i`: a non-space byte at the start or
/// after a space.
pub open spec fn is_field_start(s: Seq<u8>, i: int) -> bool {
    0 <= i < s.len() && !is_space(s[i]) && (i == 0 || is_space(s[i - 1]))
}

/// Number of fields starting before `n`.
pub open spec fn starts_upto(s: Seq<u8>, n: nat) -> nat
    decreases n,
{
    if n == 0 {
        0
    } else {
        starts_upto(s, (n - 1) as nat) + if is_field_start(s, n - 1) {
            1nat
        } else {
            0nat
        }
    }
}

/// Number of space-separated fields of `s`.
pub open spec fn field_count(s: Seq<u8>) -> nat {
    starts_upto(s, s.len())
}

/// Whether `s[a..e]` is a whole field: it starts a field, holds no space,
/// and ends at a space or at the end.
pub open spec fn is_field(s: Seq<u8>, a: int, e: int) -> bool {
    &&& is_field_start(s, a)
    &&& a < e <= s.len()
    &&& (e == s.len() || is_space(s[e]))
    &&& forall|j: int| a <= j < e ==> !is_space(#[trigger] s[j])
}

/// The bytes of field number `k` (counting from 0), or nothing if there is none.
pub open spec fn field_text(s: Seq<u8>, k: int) -> Seq<u8> {
    if exists|a: int, e: int| #[trigger] is_field(s, a, e) && starts_upto(s, a as nat) == k {
        let (a, e) = choose|a: int, e: int| #[trigger] is_field(s, a, e) && starts_upto(s, a as nat) == k;
        s.subrange(a, e)
    } else {
        Seq::empty()
    }
}

proof fn lemma_starts_monotone(s: Seq<u8>, a: nat, b: nat)
    requires
        a <= b <= s.len(),
    ensures
        starts_upto(s, a) <= starts_upto(s, b),
        a < b && is_field_start(s, a as int) ==> starts_upto(s, a) < starts_upto(s, b),
    decreases b - a,
{
    if a < b {
        lemma_starts_monotone(s, a, (b - 1) as nat);
        if is_field_start(s, a as int) && a == b - 1 {
        }
    }
}

/// A field is determined by its number.
proof fn lemma_field_unique(s: Seq<u8>, a1: int, e1: int, a2: int, e2: int)
    requires
        is_field(s, a1, e1),
        is_field(s, a2, e2),
        starts_upto(s, a1 as nat) == starts_upto(s, a2 as nat),
    ensures
        a1 == a2 && e1 == e2,
{
    if a1 < a2 {
        lemma_starts_monotone(s, a1 as nat, a2 as nat);
    } else if a2 < a1 {
        lemma_starts_monotone(s, a2 as nat, a1 as nat);
    }
    if e1 < e2 {
        assert(!is_space(s[e1]));
    } else if e2 < e1 {
        assert(!is_space(s[e2]));
    }
}

/// The field pairs of `tokens` are the fields, in order.
proof fn lemma_token_text(s: Seq<u8>, a: int, e: int, k: int)
    requires
        is_field(s, a, e),
        starts_upto(s, a as nat) == k,
    ensures
        field_text(s, k) == s.subrange(a, e),
{
    let (a2, e2) = choose|a2: int, e2: int| #[trigger] is_field(s, a2, e2) && starts_upto(s, a2 as nat) == k;
    lemma_field_unique(s, a, e, a2, e2);
}

/// The maximal runs of non-space bytes of `s`, as (start, end) pairs.
fn tokens(s: &[u8]) -> (r: Vec<(usize, usize)>)
    ensures
        forall|i: int| 0 <= i < r@.len() ==> (#[trigger] r@[i]).0 < r@[i].1 <= s@.len(),
        r@.len() == field_count(s@),
        forall|i: int|
            0 <= i < r@.len() ==> field_text(s@, i) == s@.subrange(
                (#[trigger] r@[i]).0 as int,
                r@[i].1 as int,
            ),
{
    let mut result: Vec<(usize, usize)> = Vec::new();
    let mut i: usize = 0;
    while i < s.len()
        invariant
            i <= s@.len(),
            forall|k: int| 0 <= k < result@.len() ==> (#[trigger] result@[k]).0 < result@[k].1 <= s@.len(),
            result@.len() == starts_upto(s@, i as nat),
            i == 0 || i == s@.len() || is_space(s@[i - 1]) || is_space(s@[i as int]),
            forall|k: int|
                0 <= k < result@.len() ==> field_text(s@, k) == s@.subrange(
                    (#[trigger] result@[k]).0 as int,
                    result@[k].1 as int,
                ),
        decreases s@.len() - i,
    {
        let c = s[i];
        if c == 32 || c == 9 || c == 10 || c == 13 {
            i += 1;
        } else {
            let start = i;
            i += 1;
            while i < s.len() && !(s[i] == 32 || s[i] == 9 || s[i] == 10 || s[i] == 13)
                invariant
                    start < i <= s@.len(),
                    !is_space(s@[i - 1]),
                    starts_upto(s@, i as nat) == starts_upto(s@, start as nat) + 1,
                    is_field_start(s@, start as int),
                    forall|j: int| start <= j < i ==> !is_space(#[trigger] s@[j]),
                decreases s@.len() - i,
            {
                i += 1;
            }
            proof {
                assert(is_field(s@, start as int, i as int));
                lemma_token_text(s@, start as int, i as int, result@.len() as int);
            }
            let ghost before = result@;
            result.push((start, i));
            proof {
                assert forall|k: int|
                    0 <= k < result@.len() implies field_text(s@, k) == s@.subrange(
                    (#[trigger] result@[k]).0 as int,
                    result@[k].1 as int,
                ) by {
                    if k < before.len() {
                        assert(result@[k] == before[k]);
                    }
                }
            }
        }
    }
    result
}

/// Every byte of `f` is a decimal digit.
pub open spec fn all_digits(f: Seq<u8>) -> bool {
    forall|j: int| 0 <= j < f.len() ==> 48 <= #[trigger] f[j] <= 57
}

/// Decimal value of the digits `f`.
pub open spec fn dec_value(f: Seq<u8>) -> nat
    decreases f.len(),
{
    if f.len() == 0 {
        0
    } else {
        dec_value(f.drop_last()) * 10 + (f.last() - 48) as nat
    }
}

/// Appending digits never lowers the value.
proof fn lemma_dec_grows(f: Seq<u8>, n: int)
    requires
        0 <= n <= f.len(),
        all_digits(f),
    ensures
        dec_value(f.subrange(0, n)) <= dec_value(f),
    decreases f.len() - n,
{
    if n < f.len() {
        let g = f.subrange(0, n + 1);
        assert(g.drop_last() =~= f.subrange(0, n));
        lemma_dec_grows(f, n + 1);
    } else {
        assert(f.subrange(0, n) =~= f);
    }
}

/// Decimal value of the digits `s[start..end]`, if they are all digits and
/// the value fits in a `u32`.
fn parse_u32(s: &[u8], start: usize, end: usize) -> (r: Option<u32>)
    requires
        start < end <= s@.len(),
    ensures
        ({
            let f = s@.subrange(start as int, end as int);
            match r {
                Some(v) => all_digits(f) && v == dec_value(f),
                None => !all_digits(f) || dec_value(f) > u32::MAX,
            }
        }),
{
    let ghost f = s@.subrange(start as int, end as int);
    let mut value: u32 = 0;
    let mut i = start;
    proof {
        assert(f.subrange(0, 0) =~= Seq::<u8>::empty());
    }
    while i < end
        invariant
            start <= i <= end,
            end <= s@.len(),
            f == s@.subrange(start as int, end as int),
            all_digits(f.subrange(0, i - start)),
            value == dec_value(f.subrange(0, i - start)),
        decreases end - i,
    {
        let c = s[i];
        assert(f[i - start] == c);
        if c < 48 || c > 57 {
            return None;
        }
        let digit = (c - 48) as u32;
        let ghost g = f.subrange(0, i - start + 1);
        proof {
            assert(g.drop_last() =~= f.subrange(0, i - start));
            assert(g.last() == c);
            assert forall|j: int| 0 <= j < g.len() implies 48 <= #[trigger] g[j] <= 57 by {
                if j < g.len() - 1 {
                    assert(g[j] == f.subrange(0, i - start)[j]);
                }
            }
        }
        if value > (u32::MAX - digit) / 10 {
            proof {
                if all_digits(f) {
                    lemma_dec_grows(f, i - start + 1);
                }
            }
            return None;
        }
        value = value * 10 + digit;
        i += 1;
    }
    proof {
        assert(f.subrange(0, end - start) =~= f);
    }
    Some(value)
}

/// Reads the placement field `f` from byte `j` on, with `rank` ranks done
/// (0 at rank 8) and `x` files done on the current one, into the sets `pb`:
/// `/` ends a rank, a digit 1..9 skips cells, a piece letter (upper case
/// White) puts that piece on the next cell. `None` when the field is
/// malformed: more than 8 ranks or cells, an unknown letter, or fewer than 8 ranks.
pub open spec fn place_from(f: Seq<u8>, j: int, rank: int, x: int, pb: Seq<Bitboard>) -> Option<
    Seq<Bitboard>,
>
    decreases f.len() - j,
{
    if j >= f.len() {
        if rank == 7 {
            Some(pb)
        } else {
            None
        }
    } else if j < 0 {
        None
    } else {
        let ch = f[j];
        if ch == 47 {
            if rank + 1 > 7 {
                None
            } else {
                place_from(f, j + 1, rank + 1, 0, pb)
            }
        } else if 49 <= ch <= 57 {
            if x + (ch - 48) > 8 {
                None
            } else {
                place_from(f, j + 1, rank, x + (ch - 48), pb)
            }
        } else {
            match piece_of_letter(ch) {
                Some(p) => {
                    if p == Piece::NoPiece || x >= 8 {
                        None
                    } else {
                        let k = bb_index(p, 97 <= ch <= 122);
                        place_from(
                            f,
                            j + 1,
                            rank,
                            x + 1,
                            pb.update(k, Bitboard(pb[k].0 | single((7 - rank) * 8 + x))),
                        )
                    }
                },
                None => None,
            }
        }
    }
}

/// The twelve piece sets a placement field describes, if it is well formed.
pub open spec fn board_field(f: Seq<u8>) -> Option<Seq<Bitboard>> {
    place_from(f, 0, 0, 0, Seq::new(12, |i: int| Bitboard(0)))
}

/// Every field of the description `fs` is well formed.
pub open spec fn fen_ok(fs: Seq<u8>) -> bool {
    &&& field_count(fs) == 6
    &&& board_field(field_text(fs, 0)) is Some
    &&& side_field(field_text(fs, 1)) is Some
    &&& castle_field_ok(field_text(fs, 2))
    &&& ep_field(field_text(fs, 3)) is Some
    &&& counter_field(field_text(fs, 4), 255) is Some
    &&& counter_field(field_text(fs, 5), 65535) is Some
}

/// The side named by a field: `w` or `b`.
pub open spec fn side_field(f: Seq<u8>) -> Option<Turn> {
    if f == seq![119u8] {
        Some(WHITE)
    } else if f == seq![98u8] {
        Some(BLACK)
    } else {
        None
    }
}

/// The castling letters `K`, `Q`, `k`, `q`, in right order.
pub open spec fn castle_letter(i: int) -> u8 {
    if i == 0 {
        75
    } else if i == 1 {
        81
    } else if i == 2 {
        107
    } else {
        113
    }
}

/// A castling field: `-`, or castling letters only.
pub open spec fn castle_field_ok(f: Seq<u8>) -> bool {
    f == seq![45u8] || forall|j: int|
        0 <= j < f.len() ==> exists|i: int| 0 <= i < 4 && #[trigger] f[j] == castle_letter(i)
}

/// The en-passant target named by a field: `-` for none, or a cell.
pub open spec fn ep_field(f: Seq<u8>) -> Option<u64> {
    if f == seq![45u8] {
        Some(0)
    } else if cell_of_text(f) is Some {
        Some(single(cell_of_text(f)->0))
    } else {
        None
    }
}

/// A counter field: digits whose value is at most `max`.
pub open spec fn counter_field(f: Seq<u8>, max: nat) -> Option<nat> {
    if all_digits(f) && dec_value(f) <= max {
        Some(dec_value(f))
    } else {
        None
    }
}

/// A run of bytes is the one-byte text `c` exactly when it has length one and holds `c`.
proof fn lemma_one_byte(s: Seq<u8>, a: int, e: int, c: u8)
    requires
        0 <= a < e <= s.len(),
    ensures
        (s.subrange(a, e) == seq![c]) == (e == a + 1 && s[a] == c),
{
    if e == a + 1 && s[a] == c {
        assert(s.subrange(a, e) =~= seq![c]);
    }
    if s.subrange(a, e) == seq![c] {
        assert(seq![c].len() == 1);
        assert(s.subrange(a, e).len() == e - a);
        assert(s.subrange(a, e)[0] == s[a]);
        assert(seq![c][0] == c);
    }
}

/// Whether `s[start..end]` is the one byte `c`.
fn is_byte(s: &[u8], start: usize, end: usize, c: u8) -> (r: bool)
    requires
        start < end <= s@.len(),
    ensures
        r == (end == start + 1 && s@[start as int] == c),
{
    end == start + 1 && s[start] == c
}

/// The twelve piece sets of the start position (White pawn, rook, knight,
/// bishop, king, queen, then Black's).
pub open spec fn start_pieces() -> Seq<Bitboard> {
    seq![
        Bitboard(0xFF00u64),
        Bitboard(0x81u64),
        Bitboard(0x42u64),
        Bitboard(0x24u64),
        Bitboard(0x10u64),
        Bitboard(0x08u64),
        Bitboard(0x00FF_0000_0000_0000u64),
        Bitboard(0x8100_0000_0000_0000u64),
        Bitboard(0x4200_0000_0000_0000u64),
        Bitboard(0x2400_0000_0000_0000u64),
        Bitboard(0x1000_0000_0000_0000u64),
        Bitboard(0x0800_0000_0000_0000u64),
    ]
}

/// The start position is consistent: its sets are disjoint, and its king and
/// rooks stand on their start cells.
proof fn lemma_start_consistent(b: &Board)
    requires
        b.piece_boards@ == start_pieces(),
        b.turn == WHITE,
        b.en_passant.0 == 0,
    ensures
        consistent(b),
{
    let pb = b.piece_boards@;
    let v: Seq<u64> = seq![
        0xFF00u64,
        0x81u64,
        0x42u64,
        0x24u64,
        0x10u64,
        0x08u64,
        0x00FF_0000_0000_0000u64,
        0x8100_0000_0000_0000u64,
        0x4200_0000_0000_0000u64,
        0x2400_0000_0000_0000u64,
        0x1000_0000_0000_0000u64,
        0x0800_0000_0000_0000u64,
    ];
    assert forall|a: int, c: int| 0 <= a < 12 && 0 <= c < 12 && a != c implies #[trigger] (v[a] & v[c]) == 0 by {
        let x = v[a];
        let y = v[c];
        assert(x & y == 0) by (bit_vector)
            requires
                (x == 0xFF00u64 || x == 0x81u64 || x == 0x42u64 || x == 0x24u64 || x == 0x10u64 || x
                    == 0x08u64 || x == 0x00FF_0000_0000_0000u64 || x == 0x8100_0000_0000_0000u64 || x
                    == 0x4200_0000_0000_0000u64 || x == 0x2400_0000_0000_0000u64 || x
                    == 0x1000_0000_0000_0000u64 || x == 0x0800_0000_0000_0000u64),
                (y == 0xFF00u64 || y == 0x81u64 || y == 0x42u64 || y == 0x24u64 || y == 0x10u64 || y
                    == 0x08u64 || y == 0x00FF_0000_0000_0000u64 || y == 0x8100_0000_0000_0000u64 || y
                    == 0x4200_0000_0000_0000u64 || y == 0x2400_0000_0000_0000u64 || y
                    == 0x1000_0000_0000_0000u64 || y == 0x0800_0000_0000_0000u64),
                x != y,
        ;
    }
    assert forall|a: int, c: int, i: int|
        0 <= a < 12 && 0 <= c < 12 && a != c && #[trigger] pb[a].has(i) implies !#[trigger] pb[c].has(
        i,
    ) by {
        assert(pb[a].0 == v[a] && pb[c].0 == v[c]);
        assert(v[a] & v[c] == 0);
        crate::bitboard::lemma_bit_and(v[a], v[c], i);
        crate::bitboard::lemma_bit_zero(i);
    }
    assert(((0x81u64 >> 7u64) & 1u64 == 1u64) && ((0x81u64 >> 0u64) & 1u64 == 1u64) && ((0x10u64
        >> 4u64) & 1u64 == 1u64)) by (bit_vector);
    assert(pb[1].has(7) && pb[1].has(0) && pb[4].has(4));
}

impl Board {
    /// A board from a position description: placement (ranks 8 to 1, `/`
    /// between ranks, digits for empty cells, letters for pieces, upper case
    /// White), side to move (`w` or `b`), castling rights (`KQkq` or `-`),
    /// en-passant cell (or `-`), half-move and full-move counters.
    pub fn from_fen(string: &str) -> (r: Result<Board, String>)
        ensures
            r matches Ok(b) ==> b.wf() && b.history@.len() == 0 && field_count(string.spec_bytes())
                == 6,
            field_count(string.spec_bytes()) != 6 ==> (r matches Err(e) && e@
                == "FEN must have 6 fields"@),
            side_field(field_text(string.spec_bytes(), 1)) is None ==> r is Err,
            !castle_field_ok(field_text(string.spec_bytes(), 2)) ==> r is Err,
            ep_field(field_text(string.spec_bytes(), 3)) is None ==> r is Err,
            counter_field(field_text(string.spec_bytes(), 4), 255) is None ==> r is Err,
            counter_field(field_text(string.spec_bytes(), 5), 65535) is None ==> r is Err,
            (r is Ok) == fen_ok(string.spec_bytes()),
            r matches Ok(b) ==> {
                let fs = string.spec_bytes();
                &&& board_field(field_text(fs, 0)) == Some(b.piece_boards@)
                &&& side_field(field_text(fs, 1)) == Some(b.turn)
                &&& ep_field(field_text(fs, 3)) == Some(b.en_passant.0)
                &&& counter_field(field_text(fs, 4), 255) == Some(b.halfmove_count as nat)
                &&& counter_field(field_text(fs, 5), 65535) == Some(b.fullmove_count as nat)
                &&& forall|i: int|
                    0 <= i < 4 ==> #[trigger] b.castle_rights.right(i) == field_text(fs, 2).contains(
                        castle_letter(i),
                    )
            },
    {
        let s = string.as_bytes();
        let parts = tokens(s);
        if parts.len() != 6 {
            proof {
                reveal_strlit("FEN must have 6 fields");
            }
            return Err("FEN must have 6 fields".to_owned());
        }
        let mut piece_boards: [Bitboard; 12] = [Bitboard(0); 12];
        let (p0, p1) = parts[0];
        let ghost f0 = s@.subrange(p0 as int, p1 as int);
        let mut rank_index: usize = 0;
        let mut x: usize = 0;
        let mut i = p0;
        proof {
            assert(piece_boards@ =~= Seq::new(12, |i: int| Bitboard(0)));
        }
        while i < p1
            invariant
                p0 <= i <= p1,
                p1 <= s@.len(),
                field_count(string.spec_bytes()) == 6,
                s@ == string.spec_bytes(),
                parts@.len() == 6,
                forall|k: int|
                    0 <= k < 6 ==> field_text(s@, k) == s@.subrange(
                        (#[trigger] parts@[k]).0 as int,
                        parts@[k].1 as int,
                    ) && parts@[k].0 < parts@[k].1 <= s@.len(),
                rank_index <= 7,
                x <= 8,
                f0 == s@.subrange(p0 as int, p1 as int),
                f0 == field_text(s@, 0),
                board_field(f0) == place_from(
                    f0,
                    i - p0,
                    rank_index as int,
                    x as int,
                    piece_boards@,
                ),
            decreases p1 - i,
        {
            let ch = s[i];
            assert(f0[i - p0] == ch);
            if ch == 47 {
                rank_index += 1;
                x = 0;
                if rank_index > 7 {
                    return Err("Board must have 8 ranks".to_owned());
                }
            } else if ch >= 49 && ch <= 57 {
                x = x + (ch - 48) as usize;
                if x > 8 {
                    return Err("Rank has more than 8 cells".to_owned());
                }
            } else {
                let turn: Turn = if ch >= 97 && ch <= 122 { BLACK } else { WHITE };
                let piece = match Piece::from_letter(ch) {
                    Ok(p) => p,
                    Err(_) => {
                        return Err("Invalid piece encoding".to_owned());
                    },
                };
                if piece == Piece::NoPiece || x >= 8 {
                    return Err("Invalid piece encoding".to_owned());
                }
                let position = Position::from_file_and_rank(x, 7 - rank_index);
                let k = Board::get_bb_index(piece, turn);
                let mut b = piece_boards[k];
                b.set_square(position.as_usize());
                let ghost old_pb = piece_boards@;
                piece_boards[k] = b;
                proof {
                    assert(piece_boards@ == old_pb.update(
                        k as int,
                        Bitboard(old_pb[k as int].0 | single((7 - rank_index) * 8 + x)),
                    ));
                }
                x += 1;
            }
            i += 1;
        }
        if rank_index != 7 {
            return Err("Board must have 8 ranks".to_owned());
        }
        let ghost fs = string.spec_bytes();
        let (t0, t1) = parts[1];
        proof {
            lemma_one_byte(s@, t0 as int, t1 as int, 119);
            lemma_one_byte(s@, t0 as int, t1 as int, 98);
        }
        let turn: Turn = if is_byte(s, t0, t1, 119) {
            WHITE
        } else if is_byte(s, t0, t1, 98) {
            BLACK
        } else {
            return Err("Invalid side to move".to_owned());
        };
        let (c0, c1) = parts[2];
        let ghost f2 = field_text(fs, 2);
        let mut rights = [false, false, false, false];
        proof {
            lemma_one_byte(s@, c0 as int, c1 as int, 45);
        }
        if !is_byte(s, c0, c1, 45) {
            let mut j = c0;
            while j < c1
                invariant
                    c0 <= j <= c1,
                    c1 <= s@.len(),
                    f2 == s@.subrange(c0 as int, c1 as int),
                    f2 != seq![45u8],
                    f2 == field_text(string.spec_bytes(), 2),
                    field_count(string.spec_bytes()) == 6,
                    forall|x: int| 0 <= x < j - c0 ==> exists|i: int| 0 <= i < 4 && #[trigger] f2[x] == castle_letter(i),
                    forall|i: int|
                        0 <= i < 4 ==> #[trigger] rights@[i] == exists|x: int|
                            0 <= x < j - c0 && #[trigger] f2[x] == castle_letter(i),
                decreases c1 - j,
            {
                let ch = s[j];
                assert(f2[j - c0] == ch);
                let ghost old_rights = rights@;
                if ch == 75 {
                    rights[0] = true;
                } else if ch == 81 {
                    rights[1] = true;
                } else if ch == 107 {
                    rights[2] = true;
                } else if ch == 113 {
                    rights[3] = true;
                } else {
                    proof {
                        assert(!(exists|i: int| 0 <= i < 4 && f2[j - c0] == castle_letter(i)));
                        assert(!castle_field_ok(f2));
                    }
                    return Err("Invalid castle character".to_owned());
                }
                proof {
                    assert(exists|i: int| 0 <= i < 4 && #[trigger] f2[j - c0] == castle_letter(i)) by {
                        if ch == 75 { assert(f2[j - c0] == castle_letter(0)); }
                        else if ch == 81 { assert(f2[j - c0] == castle_letter(1)); }
                        else if ch == 107 { assert(f2[j - c0] == castle_letter(2)); }
                        else { assert(f2[j - c0] == castle_letter(3)); }
                    }
                    assert forall|i: int|
                        0 <= i < 4 implies #[trigger] rights@[i] == exists|x: int|
                            0 <= x < j + 1 - c0 && #[trigger] f2[x] == castle_letter(i) by {
                        if f2[j - c0] == castle_letter(i) {
                            assert(0 <= j - c0 < j + 1 - c0);
                        } else {
                            if exists|x: int| 0 <= x < j + 1 - c0 && #[trigger] f2[x] == castle_letter(i) {
                                let x = choose|x: int| 0 <= x < j + 1 - c0 && #[trigger] f2[x] == castle_letter(i);
                                assert(x < j - c0);
                            }
                        }
                    }
                }
                j += 1;
            }
            proof {
                assert forall|i: int| 0 <= i < 4 implies #[trigger] rights@[i] == f2.contains(castle_letter(i)) by {
                    if f2.contains(castle_letter(i)) {
                        let x = choose|x: int| 0 <= x < f2.len() && f2[x] == castle_letter(i);
                        assert(0 <= x < j - c0 && f2[x] == castle_letter(i));
                    }
                }
            }
        } else {
            proof {
                assert(f2 =~= seq![45u8]);
                assert forall|i: int| 0 <= i < 4 implies #[trigger] rights@[i] == f2.contains(castle_letter(i)) by {
                    if f2.contains(castle_letter(i)) {
                        let x = choose|x: int| 0 <= x < f2.len() && f2[x] == castle_letter(i);
                        assert(f2[0] == 45u8);
                    }
                }
            }
        }
        let castle = CastleRights::make(rights[0], rights[1], rights[2], rights[3]);
        let (e0, e1) = parts[3];
        let mut en_passant = Bitboard(0);
        let ghost mut ep_sq: int = 0;
        proof {
            lemma_one_byte(s@, e0 as int, e1 as int, 45);
            if cell_of_text(field_text(fs, 3)) is Some {
                Position::lemma_spec_at(cell_of_text(field_text(fs, 3))->0);
            }
        }
        if !is_byte(s, e0, e1, 45) {
            match Position::from_text(slice_of(s, e0, e1)) {
                Ok(pos) => {
                    let sq = pos.as_usize();
                    en_passant = pos.bitboard();
                    proof {
                        ep_sq = sq as int;
                    }
                },
                Err(_) => {
                    return Err("Invalid en passant position".to_owned());
                },
            }
        }
        let (h0, h1) = parts[4];
        let halfmove = match parse_u32(s, h0, h1) {
            Some(v) if v <= 255 => v as u8,
            _ => {
                return Err("Invalid halfmove clock".to_owned());
            },
        };
        let (f0, f1) = parts[5];
        let fullmove = match parse_u32(s, f0, f1) {
            Some(v) if v <= 65535 => v as u16,
            _ => {
                return Err("Invalid fullmove".to_owned());
            },
        };
        proof {
            if en_passant.0 != 0 {
                assert(0 <= ep_sq < 64 && en_passant.0 == crate::bitboard::single(ep_sq));
            }
        }
        Ok(Board::new_from_bitboards(piece_boards, turn, en_passant, halfmove, fullmove, castle))
    }

    /// The standard start position (the position `START_POS_FEN` describes):
    /// always `Ok`, consistent, White to move, all castling rights, no
    /// en-passant target, counters 0 and 1.
    pub fn new_start_pos() -> (r: Result<Board, String>)
        ensures
            r matches Ok(b) && b.wf() && consistent(&b) && b.view() == (BoardState {
                pieces: start_pieces(),
                turn: WHITE,
                ep: 0,
                half: 0,
                full: 1,
                castle: b.castle_rights,
                history: Seq::empty(),
            }) && forall|i: int| 0 <= i < 4 ==> #[trigger] b.castle_rights.right(i),
    {
        let pieces: [Bitboard; 12] = [
            Bitboard(0xFF00),
            Bitboard(0x81),
            Bitboard(0x42),
            Bitboard(0x24),
            Bitboard(0x10),
            Bitboard(0x08),
            Bitboard(0x00FF_0000_0000_0000),
            Bitboard(0x8100_0000_0000_0000),
            Bitboard(0x4200_0000_0000_0000),
            Bitboard(0x2400_0000_0000_0000),
            Bitboard(0x1000_0000_0000_0000),
            Bitboard(0x0800_0000_0000_0000),
        ];
        proof {
            assert(pieces@ =~= start_pieces());
        }
        let castle = CastleRights::make_default();
        let b = Board::new_from_bitboards(pieces, WHITE, Bitboard(0), 0, 1, castle);
        proof {
            lemma_start_consistent(&b);
        }
        Ok(b)
    }
}

/// Relies on slice indexing with a range: `s[start..end]`.
#[verifier::external_body]
pub(crate) fn slice_of(s: &[u8], start: usize, end: usize) -> (r: &[u8])
    requires
        start <= end <= s@.len(),
    ensures
        r@ == s@.subrange(start as int, end as int),
{
    &s[start..end]
}

} // verus!
