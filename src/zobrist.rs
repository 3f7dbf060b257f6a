use vstd::prelude::*;
use crate::magic_tables::{next_u64, rng_from_entropy, rng_from_seed};
use crate::board::{Board, board_hash, pieces_hash, full_hash};
use crate::castle_rights::WHITE;

verus! {

/// A 64-bit position fingerprint.
pub type ZobristHash = u64;

/// Hash keys: one per (side, kind, cell), one for White to move, one per
/// castling right and one per en-passant file.
pub struct ZobristTable {
    /// Key of (side, kind, cell) at index `(side * 6 + kind) * 64 + cell`.
    pub piece_square: Vec<ZobristHash>,
    pub white_to_move: ZobristHash,
    pub castle_rights: [ZobristHash; 4],
    pub en_passant_file: [ZobristHash; 8],
}

impl ZobristTable {
    pub open spec fn wf(&self) -> bool {
        self.piece_square.len() == 768
    }

    /// Draws every key from a generator seeded with `seed`; when there is
    /// none, from system entropy, or from the fixed `ZOBRIST_SEED` if the
    /// system source fails. Never panics.
    pub fn new(seed: Option<u64>) -> (r: ZobristTable)
        ensures
            r.wf(),
    {
        let mut rng = match seed {
            Some(s) => rng_from_seed(s),
            None => match rng_from_entropy() {
                Some(r) => r,
                // The system source failed: fall back to the fixed seed.
                None => rng_from_seed(crate::board::ZOBRIST_SEED),
            },
        };
        let white_to_move = next_u64(&mut rng);
        let mut piece_square: Vec<ZobristHash> = Vec::new();
        let mut i: usize = 0;
        while i < 768
            invariant
                i <= 768,
                piece_square.len() == i,
            decreases 768 - i,
        {
            piece_square.push(next_u64(&mut rng));
            i += 1;
        }
        let mut castle_rights: [ZobristHash; 4] = [0; 4];
        let mut j: usize = 0;
        while j < 4
            invariant
                j <= 4,
            decreases 4 - j,
        {
            castle_rights[j] = next_u64(&mut rng);
            j += 1;
        }
        let mut en_passant_file: [ZobristHash; 8] = [0; 8];
        let mut f: usize = 0;
        while f < 8
            invariant
                f <= 8,
            decreases 8 - f,
        {
            en_passant_file[f] = next_u64(&mut rng);
            f += 1;
        }
        ZobristTable { piece_square, white_to_move, castle_rights, en_passant_file }
    }
}

/// XOR is associative and commutative, with 0 as unit and every word its
/// own inverse.
pub proof fn lemma_xor(a: u64, b: u64, c: u64)
    ensures
        (a ^ b) ^ c == a ^ (b ^ c),
        a ^ b == b ^ a,
        a ^ 0 == a,
        a ^ a == 0,
{
    assert((a ^ b) ^ c == a ^ (b ^ c) && a ^ b == b ^ a && a ^ 0 == a && a ^ a == 0)
        by (bit_vector);
}

/// Flipping one of the four parts of a fingerprint by `k` flips the whole by `k`.
pub proof fn lemma_xor_parts(a: u64, b: u64, c: u64, d: u64, k: u64)
    ensures
        (((a ^ k) ^ b) ^ c) ^ d == (((a ^ b) ^ c) ^ d) ^ k,
        ((a ^ (b ^ k)) ^ c) ^ d == (((a ^ b) ^ c) ^ d) ^ k,
        ((a ^ b) ^ (c ^ k)) ^ d == (((a ^ b) ^ c) ^ d) ^ k,
        ((a ^ b) ^ c) ^ (d ^ k) == (((a ^ b) ^ c) ^ d) ^ k,
{
    assert((((a ^ k) ^ b) ^ c) ^ d == (((a ^ b) ^ c) ^ d) ^ k && ((a ^ (b ^ k)) ^ c) ^ d == (((a
        ^ b) ^ c) ^ d) ^ k && ((a ^ b) ^ (c ^ k)) ^ d == (((a ^ b) ^ c) ^ d) ^ k && ((a ^ b) ^ c)
        ^ (d ^ k) == (((a ^ b) ^ c) ^ d) ^ k) by (bit_vector);
}

impl ZobristTable {
    /// The fingerprint of `board` computed from scratch.
    pub fn hash_position(&self, board: &Board) -> (r: ZobristHash)
        requires
            self.wf(),
        ensures
            r == full_hash(
                board.piece_boards@,
                board.turn,
                board.castle_rights,
                board.en_passant.0,
                *self,
            ),
    {
        let mut hash: u64 = 0;
        let mut k: usize = 0;
        while k < 12
            invariant
                k <= 12,
                self.wf(),
                hash == pieces_hash(board.piece_boards@, self.piece_square@, k as nat),
            decreases 12 - k,
        {
            let b = board.piece_boards[k];
            let mut h: u64 = 0;
            let mut sq: usize = 0;
            while sq < 64
                invariant
                    sq <= 64,
                    k < 12,
                    self.wf(),
                    b == board.piece_boards@[k as int],
                    h == board_hash(b.0, self.piece_square@, k * 64, sq as nat),
                decreases 64 - sq,
            {
                let key = self.piece_square[k * 64 + sq];
                proof {
                    lemma_xor(h, 0, 0);
                }
                if b.is_square_set(sq) {
                    h = h ^ key;
                }
                sq += 1;
            }
            hash = hash ^ h;
            k += 1;
        }
        proof {
            lemma_xor(hash, 0, 0);
        }
        let t: u64 = if board.turn == WHITE {
            self.white_to_move
        } else {
            0
        };
        hash = hash ^ t;
        let c0: u64 = if board.castle_rights.castle_at_index(0) {
            self.castle_rights[0]
        } else {
            0
        };
        let c1: u64 = if board.castle_rights.castle_at_index(1) {
            self.castle_rights[1]
        } else {
            0
        };
        let c2: u64 = if board.castle_rights.castle_at_index(2) {
            self.castle_rights[2]
        } else {
            0
        };
        let c3: u64 = if board.castle_rights.castle_at_index(3) {
            self.castle_rights[3]
        } else {
            0
        };
        hash = hash ^ (c0 ^ c1 ^ c2 ^ c3);
        let e: u64 = if board.en_passant.0 != 0 {
            let f = board.en_passant.trailing_zeros() % 8;
            self.en_passant_file[f]
        } else {
            0
        };
        hash = hash ^ e;
        hash
    }
}

} // verus!
