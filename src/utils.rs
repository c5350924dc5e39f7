use vstd::prelude::*;
use vstd::std_specs::bits::u64_trailing_zeros;
use crate::types::{Board, WP, WN, WB, WR, WQ, WK, BP, BN, BB, BR, BQ, BK};

verus! {

/// Whether bit `sq` of `bb` is set.
pub open spec fn bit(bb: u64, sq: int) -> bool {
    (bb >> (sq as u64)) & 1u64 == 1u64
}

/// The single-bit mask of square `sq`.
pub open spec fn mask(sq: int) -> u64 {
    1u64 << (sq as u64)
}

/// A square of the board, 0 (a8) to 63 (h1).
pub open spec fn is_square(sq: int) -> bool {
    0 <= sq < 64
}

/// A square of a union is set in one of its parts.
pub broadcast proof fn lemma_bit_or(a: u64, b: u64, s: int)
    requires
        is_square(s),
    ensures
        #[trigger] bit(a | b, s) == (bit(a, s) || bit(b, s)),
{
    let t = s as u64;
    assert(((a | b) >> t) & 1u64 == 1u64 <==> ((a >> t) & 1u64 == 1u64 || (b >> t) & 1u64 == 1u64))
        by (bit_vector);
}

/// A square of an intersection is set in both parts.
pub broadcast proof fn lemma_bit_and(a: u64, b: u64, s: int)
    requires
        is_square(s),
    ensures
        #[trigger] bit(a & b, s) == (bit(a, s) && bit(b, s)),
{
    let t = s as u64;
    assert(((a & b) >> t) & 1u64 == 1u64 <==> ((a >> t) & 1u64 == 1u64 && (b >> t) & 1u64 == 1u64))
        by (bit_vector);
}

/// A square of a complement is set exactly when it is not set in the original.
pub broadcast proof fn lemma_bit_not(a: u64, s: int)
    requires
        is_square(s),
    ensures
        #[trigger] bit(!a, s) == !bit(a, s),
{
    let t = s as u64;
    assert(t < 64 ==> ((!a >> t) & 1u64 == 1u64 <==> !((a >> t) & 1u64 == 1u64))) by (bit_vector);
}

/// The mask of a square holds that square only.
pub broadcast proof fn lemma_bit_mask(s: int, t: int)
    requires
        is_square(s),
        is_square(t),
    ensures
        #[trigger] bit(mask(s), t) == (s == t),
{
    let x = s as u64;
    let y = t as u64;
    assert(x < 64 && y < 64 ==> (((1u64 << x) >> y) & 1u64 == 1u64 <==> x == y)) by (bit_vector);
}

/// The empty bitboard holds no square.
pub broadcast proof fn lemma_bit_zero(s: int)
    requires
        is_square(s),
    ensures
        !#[trigger] bit(0u64, s),
{
    let t = s as u64;
    assert((0u64 >> t) & 1u64 != 1u64) by (bit_vector);
}

/// Two bitboards that agree on every square are equal.
pub proof fn lemma_bits_ext(a: u64, b: u64)
    requires
        forall|s: int| is_square(s) ==> #[trigger] bit(a, s) == bit(b, s),
    ensures
        a == b,
{
    if a != b {
        let x = a ^ b;
        assert(a != b ==> a ^ b != 0u64) by (bit_vector);
        broadcast use vstd::std_specs::bits::axiom_u64_trailing_zeros;
        let t = u64_trailing_zeros(x) as u64;
        assert(t < 64);
        assert((x >> t) & 1u64 == 1u64);
        assert(x == a ^ b && (x >> t) & 1u64 == 1u64 ==> (((a >> t) & 1u64 == 1u64) != ((b >> t) & 1u64 == 1u64)))
            by (bit_vector);
        assert(is_square(t as int));
        assert(bit(a, t as int) == bit(b, t as int));
    }
}

pub broadcast group group_bits {
    lemma_bit_or,
    lemma_bit_and,
    lemma_bit_not,
    lemma_bit_mask,
    lemma_bit_zero,
}

/// Whether square `square` is set in `bitboard`.
pub fn get_bit(bitboard: u64, square: u8) -> (r: bool)
    requires
        square < 64,
    ensures
        r == bit(bitboard, square as int),
{
    (bitboard >> (square as u64)) & 1u64 == 1u64
}

/// Sets square `square` in `bitboard`.
pub fn set_bit(bitboard: &mut u64, square: u8)
    requires
        square < 64,
    ensures
        *final(bitboard) == *old(bitboard) | mask(square as int),
{
    *bitboard = *bitboard | (1u64 << (square as u64));
}

/// Clears square `square` in `bitboard`.
pub fn clear_bit(bitboard: &mut u64, square: u8)
    requires
        square < 64,
    ensures
        *final(bitboard) == *old(bitboard) & !mask(square as int),
{
    *bitboard = *bitboard & !(1u64 << (square as u64));
}

/// Number of set bits of `bb` among squares `0..n`.
pub open spec fn popcount_upto(bb: u64, n: int) -> int
    decreases n,
{
    if n <= 0 {
        0
    } else {
        popcount_upto(bb, n - 1) + if bit(bb, n - 1) { 1int } else { 0int }
    }
}

/// Number of set bits of `bb`.
pub open spec fn popcount(bb: u64) -> int {
    popcount_upto(bb, 64)
}

/// A count over `n` squares lies between 0 and `n`.
pub proof fn lemma_popcount_bounds(bb: u64, n: int)
    requires
        0 <= n,
    ensures
        0 <= popcount_upto(bb, n) <= n,
    decreases n,
{
    if n > 0 {
        lemma_popcount_bounds(bb, n - 1);
    }
}

/// Number of set bits of `bitboard`.
pub fn count_bits(bitboard: u64) -> (r: u32)
    ensures
        r as int == popcount(bitboard),
{
    let mut c: u32 = 0;
    let mut i: u8 = 0;
    while i < 64
        invariant
            i <= 64,
            c as int == popcount_upto(bitboard, i as int),
            c <= i,
        decreases 64 - i,
    {
        if get_bit(bitboard, i) {
            c = c + 1;
        }
        i = i + 1;
    }
    c
}

/// The lowest set square of `bb`, if any.
pub open spec fn lsb(bb: u64) -> Option<u8> {
    if bb == 0 {
        None
    } else {
        Some(u64_trailing_zeros(bb) as u8)
    }
}

/// What the lowest set square is: set, below 64, with no set square under it.
pub proof fn lemma_lsb(bb: u64)
    ensures
        lsb(bb) is None <==> bb == 0,
        lsb(bb) matches Some(s) ==> s < 64 && bit(bb, s as int) && forall|t: int|
            0 <= t < s ==> !#[trigger] bit(bb, t),
{
    broadcast use vstd::std_specs::bits::axiom_u64_trailing_zeros;
    if bb != 0 {
        let s = u64_trailing_zeros(bb);
        assert(s < 64);
        assert(((s as u8) as int) as u64 == s as u64);
        assert forall|t: int| 0 <= t < s implies !#[trigger] bit(bb, t) by {
            let u = t as u64;
            assert((bb >> u) & 1u64 == 0u64);
        }
    }
}

/// The lowest set square of `bitboard`, or `None` when it is empty.
pub fn get_lsb(bitboard: u64) -> (r: Option<u8>)
    ensures
        r == lsb(bitboard),
{
    if bitboard == 0 {
        None
    } else {
        proof {
            broadcast use vstd::std_specs::bits::axiom_u64_trailing_zeros;
        }
        Some(bitboard.trailing_zeros() as u8)
    }
}

/// Union of the six white planes.
pub open spec fn white_occ(b: Seq<u64>) -> u64 {
    b[0] | b[1] | b[2] | b[3] | b[4] | b[5]
}

/// Union of the six black planes.
pub open spec fn black_occ(b: Seq<u64>) -> u64 {
    b[6] | b[7] | b[8] | b[9] | b[10] | b[11]
}

/// Union of all twelve planes.
pub open spec fn all_occ(b: Seq<u64>) -> u64 {
    black_occ(b) | white_occ(b)
}

/// Some plane in `lo..hi` holds square `sq`.
pub open spec fn occupied_in(b: Seq<u64>, sq: int, lo: int, hi: int) -> bool {
    exists|p: int| lo <= p < hi && #[trigger] bit(b[p], sq)
}

/// Occupancy of a colour, square by square.
pub proof fn lemma_occ(b: Seq<u64>, sq: int)
    requires
        b.len() == 12,
        is_square(sq),
    ensures
        bit(white_occ(b), sq) == occupied_in(b, sq, 0, 6),
        bit(black_occ(b), sq) == occupied_in(b, sq, 6, 12),
        bit(all_occ(b), sq) == occupied_in(b, sq, 0, 12),
{
    broadcast use group_bits;
    if occupied_in(b, sq, 0, 12) {
        let p = choose|p: int| 0 <= p < 12 && #[trigger] bit(b[p], sq);
        assert(p < 6 ==> occupied_in(b, sq, 0, 6));
        assert(p >= 6 ==> occupied_in(b, sq, 6, 12));
    }
    if bit(white_occ(b), sq) {
        assert(bit(b[0], sq) || bit(b[1], sq) || bit(b[2], sq) || bit(b[3], sq) || bit(b[4], sq)
            || bit(b[5], sq));
    }
    if bit(black_occ(b), sq) {
        assert(bit(b[6], sq) || bit(b[7], sq) || bit(b[8], sq) || bit(b[9], sq) || bit(b[10], sq)
            || bit(b[11], sq));
    }
}

/// Every square occupied by a white piece.
pub fn get_all_white(board: Board) -> (r: u64)
    ensures
        r == white_occ(board@),
{
    board[WP] | board[WN] | board[WB] | board[WR] | board[WQ] | board[WK]
}

/// Every square occupied by a black piece.
pub fn get_all_black(board: Board) -> (r: u64)
    ensures
        r == black_occ(board@),
{
    board[BP] | board[BN] | board[BB] | board[BR] | board[BQ] | board[BK]
}

/// Every occupied square.
pub fn get_all_occupied(board: Board) -> (r: u64)
    ensures
        r == all_occ(board@),
{
    get_all_black(board) | get_all_white(board)
}

/// Every empty square.
pub fn get_all_empty(board: Board) -> (r: u64)
    ensures
        r == !all_occ(board@),
{
    !(get_all_black(board) | get_all_white(board))
}

/// Whether any piece stands on `square`.
pub fn is_square_occupied(board: &Board, square: u8) -> (r: bool)
    requires
        square < 64,
    ensures
        r == occupied_in(board@, square as int, 0, 12),
{
    proof {
        lemma_occ(board@, square as int);
    }
    get_bit(get_all_occupied(*board), square)
}

/// The first plane among `lo..hi` that holds square `sq`.
pub open spec fn first_plane(b: Seq<u64>, sq: int, lo: int, hi: int) -> Option<usize>
    decreases hi - lo,
{
    if lo >= hi {
        None
    } else if bit(b[lo], sq) {
        Some(lo as usize)
    } else {
        first_plane(b, sq, lo + 1, hi)
    }
}

/// What `first_plane` finds: a plane in range holding the square, with none
/// before it; and `None` exactly when no plane in range holds it.
pub proof fn lemma_first_plane(b: Seq<u64>, sq: int, lo: int, hi: int)
    requires
        0 <= lo,
        hi <= b.len() <= 12,
    ensures
        first_plane(b, sq, lo, hi) is None <==> !occupied_in(b, sq, lo, hi),
        first_plane(b, sq, lo, hi) matches Some(p) ==> lo <= p < hi && bit(b[p as int], sq)
            && forall|q: int| lo <= q < p ==> !#[trigger] bit(b[q], sq),
    decreases hi - lo,
{
    if lo < hi {
        lemma_first_plane(b, sq, lo + 1, hi);
        if !bit(b[lo], sq) {
            if occupied_in(b, sq, lo, hi) {
                let p = choose|p: int| lo <= p < hi && #[trigger] bit(b[p], sq);
                assert(occupied_in(b, sq, lo + 1, hi));
            }
        }
    }
}

/// The plane of the piece on `square`, if any.
pub fn get_piece_at_square(board: &Board, square: u8) -> (r: Option<usize>)
    requires
        square < 64,
    ensures
        r == first_plane(board@, square as int, 0, 12),
{
    let mut p: usize = 0;
    while p < 12
        invariant
            p <= 12,
            square < 64,
            first_plane(board@, square as int, 0, 12) == first_plane(board@, square as int, p as int, 12),
        decreases 12 - p,
    {
        if get_bit(board[p], square) {
            return Some(p);
        }
        p = p + 1;
    }
    None
}

/// Material value of a plane's piece; kings and unknown planes count 0.
pub open spec fn piece_value(p: int) -> i32 {
    if p == 0 || p == 6 {
        100
    } else if p == 1 || p == 7 || p == 2 || p == 8 {
        300
    } else if p == 3 || p == 9 {
        500
    } else if p == 4 || p == 10 {
        900
    } else {
        0
    }
}

/// Material value of the piece of plane `piece_type`.
pub fn get_piece_value(piece_type: usize) -> (r: i32)
    ensures
        r == piece_value(piece_type as int),
{
    if piece_type == WP || piece_type == BP {
        100
    } else if piece_type == WN || piece_type == BN || piece_type == WB || piece_type == BB {
        300
    } else if piece_type == WR || piece_type == BR {
        500
    } else if piece_type == WQ || piece_type == BQ {
        900
    } else {
        0
    }
}

} // verus!
