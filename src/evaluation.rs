use vstd::prelude::*;
use crate::utils::{bit, is_square, group_bits, get_bit, piece_value, get_piece_value, mask};
use crate::board_state::BoardState;

verus! {

broadcast use group_bits;

/// Piece-square bonuses of the pawns, authored with White at the bottom.
pub const PAWN_TABLE: [i8; 64] = [
    0, 0, 0, 0, 0, 0, 0, 0,
    50, 50, 50, 50, 50, 50, 50, 50,
    10, 10, 20, 30, 30, 20, 10, 10,
    5, 5, 10, 25, 25, 10, 5, 5,
    0, 0, 0, 20, 20, 0, 0, 0,
    5, -5, -10, 0, 0, -10, -5, 5,
    5, 10, 10, -20, -20, 10, 10, 5,
    0, 0, 0, 0, 0, 0, 0, 0,
];

/// Piece-square bonuses of the knights, authored with White at the bottom.
pub const KNIGHT_TABLE: [i8; 64] = [
    -50, -40, -30, -30, -30, -30, -40, -50,
    -40, -20, 0, 0, 0, 0, -20, -40,
    -30, 0, 10, 15, 15, 10, 0, -30,
    -30, 5, 15, 20, 20, 15, 5, -30,
    -30, 0, 15, 20, 20, 15, 0, -30,
    -30, 5, 10, 15, 15, 10, 5, -30,
    -40, -20, 0, 5, 5, 0, -20, -40,
    -50, -40, -30, -30, -30, -30, -40, -50,
];

/// Piece-square bonuses of the bishops, authored with White at the bottom.
pub const BISHOP_TABLE: [i8; 64] = [
    -20, -10, -10, -10, -10, -10, -10, -20,
    -10, 0, 0, 0, 0, 0, 0, -10,
    -10, 0, 5, 10, 10, 5, 0, -10,
    -10, 5, 5, 10, 10, 5, 5, -10,
    -10, 0, 10, 10, 10, 10, 0, -10,
    -10, 10, 10, 10, 10, 10, 10, -10,
    -10, 5, 0, 0, 0, 0, 5, -10,
    -20, -10, -10, -10, -10, -10, -10, -20,
];

/// Piece-square bonuses of the rooks, authored with White at the bottom.
pub const ROOK_TABLE: [i8; 64] = [
    0, 0, 0, 0, 0, 0, 0, 0,
    5, 10, 10, 10, 10, 10, 10, 5,
    -5, 0, 0, 0, 0, 0, 0, -5,
    -5, 0, 0, 0, 0, 0, 0, -5,
    -5, 0, 0, 0, 0, 0, 0, -5,
    -5, 0, 0, 0, 0, 0, 0, -5,
    -5, 0, 0, 0, 0, 0, 0, -5,
    0, 0, 0, 5, 5, 0, 0, 0,
];

/// Piece-square bonuses of the queens, authored with White at the bottom.
pub const QUEEN_TABLE: [i8; 64] = [
    -20, -10, -10, -5, -5, -10, -10, -20,
    -10, 0, 0, 0, 0, 0, 0, -10,
    -10, 0, 5, 5, 5, 5, 0, -10,
    -5, 0, 5, 5, 5, 5, 0, -5,
    0, 0, 5, 5, 5, 5, 0, -5,
    -10, 5, 5, 5, 5, 5, 0, -10,
    -10, 0, 5, 0, 0, 0, 0, -10,
    -20, -10, -10, -5, -5, -10, -10, -20,
];

/// Piece-square bonuses of the kings, authored with White at the bottom.
pub const KING_TABLE: [i8; 64] = [
    -30, -40, -40, -50, -50, -40, -40, -30,
    -30, -40, -40, -50, -50, -40, -40, -30,
    -30, -40, -40, -50, -50, -40, -40, -30,
    -30, -40, -40, -50, -50, -40, -40, -30,
    -20, -30, -30, -40, -40, -30, -30, -20,
    -10, -20, -20, -20, -20, -20, -20, -10,
    20, 20, 0, 0, 0, 0, 20, 20,
    20, 30, 10, 0, 0, 10, 30, 20,
];

/// No static score lies outside `-EVAL_BOUND..=EVAL_BOUND`.
pub const EVAL_BOUND: i32 = 844_800;

/// Entry `i` of the piece-square table of piece kind `k` (0 pawn .. 5 king).
pub open spec fn table_value(k: int, i: int) -> int {
    if k == 0 {
        PAWN_TABLE@[i] as int
    } else if k == 1 {
        KNIGHT_TABLE@[i] as int
    } else if k == 2 {
        BISHOP_TABLE@[i] as int
    } else if k == 3 {
        ROOK_TABLE@[i] as int
    } else if k == 4 {
        QUEEN_TABLE@[i] as int
    } else {
        KING_TABLE@[i] as int
    }
}

/// What plane `p` contributes on square `s`, from White's side: material,
/// plus the piece-square bonus when `pst` holds. White reads its table at
/// `63 - s`, Black at `s` with the sign turned.
pub open spec fn plane_score(b: Seq<u64>, p: int, s: int, pst: bool) -> int {
    if !bit(b[p], s) {
        0
    } else if p < 6 {
        piece_value(p) + if pst { table_value(p, 63 - s) } else { 0 }
    } else {
        -(piece_value(p) + if pst { table_value(p - 6, s) } else { 0 })
    }
}

/// The contributions of planes `0..n` on square `s`.
pub open spec fn square_score(b: Seq<u64>, s: int, n: int, pst: bool) -> int
    decreases n,
{
    if n <= 0 {
        0
    } else {
        square_score(b, s, n - 1, pst) + plane_score(b, n - 1, s, pst)
    }
}

/// The contributions of every plane on squares `0..n`.
pub open spec fn score_upto(b: Seq<u64>, n: int, pst: bool) -> int
    decreases n,
{
    if n <= 0 {
        0
    } else {
        score_upto(b, n - 1, pst) + square_score(b, n - 1, 12, pst)
    }
}

/// The static score of the planes from White's side: material and
/// piece-square terms.
pub open spec fn evaluation(b: Seq<u64>) -> int {
    score_upto(b, 64, true)
}

/// The material term alone.
pub open spec fn material(b: Seq<u64>) -> int {
    score_upto(b, 64, false)
}

/// Entry `i` of the piece-square table of piece kind `k`.
fn get_table_value(k: usize, i: usize) -> (r: i32)
    requires
        k < 6,
        i < 64,
    ensures
        r == table_value(k as int, i as int),
{
    if k == 0 {
        PAWN_TABLE[i] as i32
    } else if k == 1 {
        KNIGHT_TABLE[i] as i32
    } else if k == 2 {
        BISHOP_TABLE[i] as i32
    } else if k == 3 {
        ROOK_TABLE[i] as i32
    } else if k == 4 {
        QUEEN_TABLE[i] as i32
    } else {
        KING_TABLE[i] as i32
    }
}

/// Scores a position from White's side (positive favours White): each piece
/// counts its material value and its piece-square bonus.
pub fn evaluate_board_advanced(board: &BoardState) -> (r: i32)
    ensures
        r as int == evaluation(board.bitboards@),
        -EVAL_BOUND <= r <= EVAL_BOUND,
{
    let b = &board.bitboards;
    let mut score: i32 = 0;
    let mut square: u8 = 0;
    while square < 64
        invariant
            square <= 64,
            score as int == score_upto(b@, square as int, true),
            -13200 * square <= score <= 13200 * square,
        decreases 64 - square,
    {
        let mut sq_score: i32 = 0;
        let mut p: usize = 0;
        while p < 12
            invariant
                p <= 12,
                square < 64,
                sq_score as int == square_score(b@, square as int, p as int, true),
                -1100 * p <= sq_score <= 1100 * p,
            decreases 12 - p,
        {
            if get_bit(b[p], square) {
                if p < 6 {
                    sq_score = sq_score + get_piece_value(p) + get_table_value(p, (63 - square) as usize);
                } else {
                    sq_score = sq_score - (get_piece_value(p) + get_table_value(p - 6, square as usize));
                }
            }
            p = p + 1;
        }
        score = score + sq_score;
        square = square + 1;
    }
    score
}

/// Taking a black pawn off square `s` changes the square's score by the
/// pawn's material and bonus, and no other square's.
proof fn lemma_square_without_black_pawn(b: Seq<u64>, s: int, t: int, n: int, pst: bool)
    requires
        b.len() == 12,
        is_square(s),
        is_square(t),
        bit(b[6], s),
        0 <= n <= 12,
    ensures
        square_score(b.update(6, b[6] & !mask(s)), t, n, pst) == square_score(b, t, n, pst) + if t == s
            && n > 6 {
            100 + if pst { table_value(0, s) } else { 0 }
        } else {
            0
        },
    decreases n,
{
    if n > 0 {
        lemma_square_without_black_pawn(b, s, t, n - 1, pst);
        assert(bit(mask(s), t) == (s == t));
    }
}

/// Summed over squares `0..n`, the change of the square lemma.
proof fn lemma_score_without_black_pawn(b: Seq<u64>, s: int, n: int, pst: bool)
    requires
        b.len() == 12,
        is_square(s),
        bit(b[6], s),
        0 <= n <= 64,
    ensures
        score_upto(b.update(6, b[6] & !mask(s)), n, pst) == score_upto(b, n, pst) + if n > s {
            100 + if pst { table_value(0, s) } else { 0 }
        } else {
            0
        },
    decreases n,
{
    if n > 0 {
        lemma_score_without_black_pawn(b, s, n - 1, pst);
        lemma_square_without_black_pawn(b, s, n - 1, 12, pst);
    }
}

/// Removing one black pawn raises the material term by exactly 100, and the
/// whole score by 100 plus that pawn's piece-square bonus.
pub proof fn lemma_remove_black_pawn(b: Seq<u64>, s: int)
    requires
        b.len() == 12,
        is_square(s),
        bit(b[6], s),
    ensures
        material(b.update(6, b[6] & !mask(s))) == material(b) + 100,
        evaluation(b.update(6, b[6] & !mask(s))) == evaluation(b) + 100 + table_value(0, s),
{
    lemma_score_without_black_pawn(b, s, 64, false);
    lemma_score_without_black_pawn(b, s, 64, true);
}

/// The square on the same file of the mirrored rank.
pub open spec fn flip_rank(s: int) -> int {
    (7 - s / 8) * 8 + s % 8
}

/// The plane of the same piece kind in the other colour.
pub open spec fn swap_colour(p: int) -> int {
    if p < 6 {
        p + 6
    } else {
        p - 6
    }
}

/// `m` is `b` with the colours swapped and the ranks mirrored.
pub open spec fn mirrored(b: Seq<u64>, m: Seq<u64>) -> bool {
    &&& b.len() == 12
    &&& m.len() == 12
    &&& forall|p: int, s: int|
        0 <= p < 12 && is_square(s) ==> #[trigger] bit(m[p], s) == bit(b[swap_colour(p)], flip_rank(s))
}

/// On each square the material of a mirrored position is the opposite of the
/// original's on the mirrored square.
proof fn lemma_mirror_square(b: Seq<u64>, m: Seq<u64>, s: int)
    requires
        mirrored(b, m),
        is_square(s),
    ensures
        square_score(m, s, 12, false) == -square_score(b, flip_rank(s), 12, false),
{
    reveal_with_fuel(square_score, 13);
    let t = flip_rank(s);
    assert forall|p: int| 0 <= p < 12 implies plane_score(m, p, s, false) == -plane_score(b, swap_colour(p), t, false) by {
        assert(bit(m[p], s) == bit(b[swap_colour(p)], t));
    }
    assert(plane_score(m, 0, s, false) == -plane_score(b, 6, t, false));
    assert(plane_score(m, 1, s, false) == -plane_score(b, 7, t, false));
    assert(plane_score(m, 2, s, false) == -plane_score(b, 8, t, false));
    assert(plane_score(m, 3, s, false) == -plane_score(b, 9, t, false));
    assert(plane_score(m, 4, s, false) == -plane_score(b, 10, t, false));
    assert(plane_score(m, 5, s, false) == -plane_score(b, 11, t, false));
    assert(plane_score(m, 6, s, false) == -plane_score(b, 0, t, false));
    assert(plane_score(m, 7, s, false) == -plane_score(b, 1, t, false));
    assert(plane_score(m, 8, s, false) == -plane_score(b, 2, t, false));
    assert(plane_score(m, 9, s, false) == -plane_score(b, 3, t, false));
    assert(plane_score(m, 10, s, false) == -plane_score(b, 4, t, false));
    assert(plane_score(m, 11, s, false) == -plane_score(b, 5, t, false));
}

/// The material on the eight squares of rank `r`.
pub open spec fn rank_material(x: Seq<u64>, r: int) -> int {
    score_upto(x, 8 * r + 8, false) - score_upto(x, 8 * r, false)
}

/// The material of a rank is that of its eight squares.
proof fn lemma_rank_material_sum(x: Seq<u64>, r: int)
    requires
        0 <= r < 8,
    ensures
        rank_material(x, r) == square_score(x, 8 * r, 12, false) + square_score(x, 8 * r + 1, 12, false)
            + square_score(x, 8 * r + 2, 12, false) + square_score(x, 8 * r + 3, 12, false) + square_score(
            x,
            8 * r + 4,
            12,
            false,
        ) + square_score(x, 8 * r + 5, 12, false) + square_score(x, 8 * r + 6, 12, false) + square_score(
            x,
            8 * r + 7,
            12,
            false,
        ),
{
    reveal_with_fuel(score_upto, 9);
}

/// Mirroring a position (colours swapped, ranks mirrored) negates its
/// material term.
pub proof fn lemma_mirror_negates_material(b: Seq<u64>, m: Seq<u64>)
    requires
        mirrored(b, m),
    ensures
        material(m) == -material(b),
{
    assert forall|r: int| 0 <= r < 8 implies #[trigger] rank_material(m, r) == -rank_material(b, 7 - r) by {
        lemma_rank_material_sum(m, r);
        lemma_rank_material_sum(b, 7 - r);
        assert forall|f: int| 0 <= f < 8 implies #[trigger] flip_rank(8 * r + f) == 8 * (7 - r) + f by {
            assert((8 * r + f) / 8 == r);
            assert((8 * r + f) % 8 == f);
        }
        lemma_mirror_square(b, m, 8 * r);
        lemma_mirror_square(b, m, 8 * r + 1);
        lemma_mirror_square(b, m, 8 * r + 2);
        lemma_mirror_square(b, m, 8 * r + 3);
        lemma_mirror_square(b, m, 8 * r + 4);
        lemma_mirror_square(b, m, 8 * r + 5);
        lemma_mirror_square(b, m, 8 * r + 6);
        lemma_mirror_square(b, m, 8 * r + 7);
        assert(flip_rank(8 * r) == 8 * (7 - r));
        assert(flip_rank(8 * r + 1) == 8 * (7 - r) + 1);
        assert(flip_rank(8 * r + 2) == 8 * (7 - r) + 2);
        assert(flip_rank(8 * r + 3) == 8 * (7 - r) + 3);
        assert(flip_rank(8 * r + 4) == 8 * (7 - r) + 4);
        assert(flip_rank(8 * r + 5) == 8 * (7 - r) + 5);
        assert(flip_rank(8 * r + 6) == 8 * (7 - r) + 6);
        assert(flip_rank(8 * r + 7) == 8 * (7 - r) + 7);
    }
    assert(material(m) == rank_material(m, 0) + rank_material(m, 1) + rank_material(m, 2) + rank_material(m, 3)
        + rank_material(m, 4) + rank_material(m, 5) + rank_material(m, 6) + rank_material(m, 7));
    assert(material(b) == rank_material(b, 0) + rank_material(b, 1) + rank_material(b, 2) + rank_material(b, 3)
        + rank_material(b, 4) + rank_material(b, 5) + rank_material(b, 6) + rank_material(b, 7));
}

} // verus!
