use vstd::prelude::*;
use crate::utils::{bit, group_bits, get_bit};
use crate::board_state::BoardState;

verus! {

broadcast use group_bits;

/// Relies on rand::random: a fresh value of the thread-local generator;
/// nothing is promised of it. Like the thread-local generator itself, it
/// panics only if the operating system's generator cannot be initialised.
#[verifier::external_body]
fn random_key() -> u64 {
    rand::random::<u64>()
}

/// The random keys of Zobrist hashing: one per (plane, square), one for
/// Black to move, one per castling right and one per en-passant file.
pub struct ZobristTables {
    /// Key of plane `p` on square `s` at index `p * 64 + s`.
    pub piece_square: Vec<u64>,
    pub black_to_move: u64,
    pub castling_rights: [u64; 4],
    pub en_passant_file: [u64; 8],
}

impl ZobristTables {
    pub open spec fn wf(&self) -> bool {
        self.piece_square@.len() == 768
    }

    /// Draws every key at random.
    pub fn new() -> (r: Self)
        ensures
            r.wf(),
    {
        let mut piece_square: Vec<u64> = Vec::new();
        let mut i: usize = 0;
        while i < 768
            invariant
                i <= 768,
                piece_square@.len() == i,
            decreases 768 - i,
        {
            piece_square.push(random_key());
            i = i + 1;
        }
        let black_to_move = random_key();
        let mut castling_rights: [u64; 4] = [0u64; 4];
        let mut j: usize = 0;
        while j < 4
            invariant
                j <= 4,
            decreases 4 - j,
        {
            castling_rights[j] = random_key();
            j = j + 1;
        }
        let mut en_passant_file: [u64; 8] = [0u64; 8];
        let mut k: usize = 0;
        while k < 8
            invariant
                k <= 8,
            decreases 8 - k,
        {
            en_passant_file[k] = random_key();
            k = k + 1;
        }
        ZobristTables { piece_square, black_to_move, castling_rights, en_passant_file }
    }
}

/// XOR of the keys of the occupied (plane, square) pairs among the first `n`,
/// taken plane by plane and square by square.
pub open spec fn pieces_hash(keys: Seq<u64>, b: Seq<u64>, n: int) -> u64
    decreases n,
{
    if n <= 0 {
        0
    } else {
        let k = n - 1;
        let h = pieces_hash(keys, b, k);
        if bit(b[k / 64], k % 64) {
            h ^ keys[k]
        } else {
            h
        }
    }
}

/// XOR of `key` into `h` when `on` holds.
pub open spec fn toggle(h: u64, on: bool, key: u64) -> u64 {
    if on {
        h ^ key
    } else {
        h
    }
}

/// The Zobrist hash of a position: the occupied (plane, square) keys, then
/// Black to move, the held castling rights and the en-passant file.
pub open spec fn board_hash(z: &ZobristTables, b: BoardState) -> u64 {
    let h0 = pieces_hash(z.piece_square@, b.bitboards@, 768);
    let h1 = toggle(h0, !b.white_to_move, z.black_to_move);
    let h2 = toggle(h1, b.white_kingside_castle, z.castling_rights@[0]);
    let h3 = toggle(h2, b.white_queenside_castle, z.castling_rights@[1]);
    let h4 = toggle(h3, b.black_kingside_castle, z.castling_rights@[2]);
    let h5 = toggle(h4, b.black_queenside_castle, z.castling_rights@[3]);
    match b.en_passant_target {
        Some(sq) => h5 ^ z.en_passant_file@[(sq % 8) as int],
        None => h5,
    }
}

/// The Zobrist hash of `board`.
pub fn compute_board_hash(z: &ZobristTables, board: &BoardState) -> (r: u64)
    requires
        z.wf(),
    ensures
        r == board_hash(z, *board),
{
    let mut hash: u64 = 0;
    let mut p: usize = 0;
    while p < 12
        invariant
            p <= 12,
            z.wf(),
            hash == pieces_hash(z.piece_square@, board.bitboards@, p * 64),
        decreases 12 - p,
    {
        let bb = board.bitboards[p];
        let mut s: u8 = 0;
        while s < 64
            invariant
                p < 12,
                s <= 64,
                z.wf(),
                bb == board.bitboards@[p as int],
                hash == pieces_hash(z.piece_square@, board.bitboards@, p * 64 + s),
            decreases 64 - s,
        {
            let ghost k = p * 64 + s;
            assert(k / 64 == p && k % 64 == s);
            if get_bit(bb, s) {
                hash = hash ^ z.piece_square[p * 64 + s as usize];
            }
            s = s + 1;
        }
        p = p + 1;
    }
    if !board.white_to_move {
        hash = hash ^ z.black_to_move;
    }
    if board.white_kingside_castle {
        hash = hash ^ z.castling_rights[0];
    }
    if board.white_queenside_castle {
        hash = hash ^ z.castling_rights[1];
    }
    if board.black_kingside_castle {
        hash = hash ^ z.castling_rights[2];
    }
    if board.black_queenside_castle {
        hash = hash ^ z.castling_rights[3];
    }
    match board.en_passant_target {
        Some(sq) => {
            hash = hash ^ z.en_passant_file[(sq % 8) as usize];
        },
        None => {},
    }
    hash
}

} // verus!
