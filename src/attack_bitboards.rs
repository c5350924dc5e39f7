use vstd::prelude::*;
use crate::types::{Board, WP, WN, WB, WR, WQ, WK, BP, BN, BB, BR, BQ, BK};
use crate::utils::{
    bit, is_square, group_bits, get_bit, get_lsb, get_all_occupied, all_occ, lsb, lemma_lsb,
};
use crate::attacks::{
    rank, file, on_board, ray_from, AttackTables, table_matches, knight_attack, king_attack,
    pawn_attack, bishop_ray, rook_ray, queen_ray, get_bishop_attacks, get_rook_attacks,
    get_queen_attacks,
};

verus! {

broadcast use group_bits;

/// `t` is attacked by some piece of the set `pieces` that attacks as `attack`.
pub open spec fn covers(pieces: u64, attack: spec_fn(int, int) -> bool, t: int) -> bool {
    exists|s: int| is_square(s) && #[trigger] bit(pieces, s) && attack(s, t)
}

/// Plane offset of a colour: 0 for White, 6 for Black.
pub open spec fn base(white: bool) -> int {
    if white {
        0
    } else {
        6
    }
}

/// `t` is attacked by some piece of the given colour, sliders being blocked by
/// every occupied square.
pub open spec fn attacked_by(b: Seq<u64>, white: bool, t: int) -> bool {
    let o = base(white);
    let occ = all_occ(b);
    ||| covers(b[o], |s: int, u: int| pawn_attack(white, s, u), t)
    ||| covers(b[o + 1], |s: int, u: int| knight_attack(s, u), t)
    ||| covers(b[o + 2], |s: int, u: int| bishop_ray(s, occ, u), t)
    ||| covers(b[o + 3], |s: int, u: int| rook_ray(s, occ, u), t)
    ||| covers(b[o + 4], |s: int, u: int| queen_ray(s, occ, u), t)
    ||| covers(b[o + 5], |s: int, u: int| king_attack(s, u), t)
}

/// The king of the given colour stands on an attacked square; the lowest
/// square of its plane counts as its square, and a missing king is not in check.
pub open spec fn in_check(b: Seq<u64>, white: bool) -> bool {
    match lsb(b[base(white) + 5]) {
        Some(s) => attacked_by(b, !white, s as int),
        None => false,
    }
}

/// The union of the table entries of every square of `pieces`.
fn table_union(pieces: u64, table: &[u64; 64], Ghost(attack): Ghost<spec_fn(int, int) -> bool>) -> (r: u64)
    requires
        table_matches(table@, attack),
    ensures
        forall|t: int| is_square(t) ==> #[trigger] bit(r, t) == covers(pieces, attack, t),
{
    let mut acc: u64 = 0;
    let mut sq: u8 = 0;
    while sq < 64
        invariant
            sq <= 64,
            table_matches(table@, attack),
            forall|t: int| is_square(t) ==> #[trigger] bit(acc, t) == exists|s: int|
                0 <= s < sq && #[trigger] bit(pieces, s) && attack(s, t),
        decreases 64 - sq,
    {
        if get_bit(pieces, sq) {
            acc = acc | table[sq as usize];
        }
        assert forall|t: int| is_square(t) implies #[trigger] bit(acc, t) == exists|s: int|
            0 <= s < sq + 1 && #[trigger] bit(pieces, s) && attack(s, t) by {
            if bit(pieces, sq as int) && attack(sq as int, t) {
                assert(bit(table@[sq as int], t));
            }
        }
        sq = sq + 1;
    }
    acc
}

/// Sliding attacks of one kind: 0 bishop, 1 rook, 2 queen.
pub open spec fn slide(kind: u8, s: int, occ: u64, t: int) -> bool {
    if kind == 0 {
        bishop_ray(s, occ, t)
    } else if kind == 1 {
        rook_ray(s, occ, t)
    } else {
        queen_ray(s, occ, t)
    }
}

/// The union of the sliding attacks of every square of `pieces`.
fn slide_union(pieces: u64, occ: u64, kind: u8) -> (r: u64)
    ensures
        forall|t: int| is_square(t) ==> #[trigger] bit(r, t) == covers(pieces, |s: int, u: int| slide(kind, s, occ, u), t),
{
    let ghost attack = |s: int, u: int| slide(kind, s, occ, u);
    let mut acc: u64 = 0;
    let mut sq: u8 = 0;
    while sq < 64
        invariant
            sq <= 64,
            attack == (|s: int, u: int| slide(kind, s, occ, u)),
            forall|t: int| is_square(t) ==> #[trigger] bit(acc, t) == exists|s: int|
                0 <= s < sq && #[trigger] bit(pieces, s) && attack(s, t),
        decreases 64 - sq,
    {
        if get_bit(pieces, sq) {
            let m = if kind == 0 {
                get_bishop_attacks(sq, occ)
            } else if kind == 1 {
                get_rook_attacks(sq, occ)
            } else {
                get_queen_attacks(sq, occ)
            };
            assert(forall|t: int| is_square(t) ==> #[trigger] bit(m, t) == attack(sq as int, t));
            acc = acc | m;
        }
        assert forall|t: int| is_square(t) implies #[trigger] bit(acc, t) == exists|s: int|
            0 <= s < sq + 1 && #[trigger] bit(pieces, s) && attack(s, t) by {
            if bit(pieces, sq as int) && attack(sq as int, t) {
            }
        }
        sq = sq + 1;
    }
    acc
}

/// Every square attacked by the pawns of one colour.
pub fn get_pawn_attacks_bitboard(tables: &AttackTables, board: &Board, white_pawns: bool) -> (r: u64)
    requires
        tables.wf(),
    ensures
        forall|t: int| is_square(t) ==> #[trigger] bit(r, t) == covers(
            board@[base(white_pawns)],
            |s: int, u: int| pawn_attack(white_pawns, s, u),
            t,
        ),
{
    if white_pawns {
        table_union(board[WP], &tables.white_pawn, Ghost(|s: int, u: int| pawn_attack(true, s, u)))
    } else {
        table_union(board[BP], &tables.black_pawn, Ghost(|s: int, u: int| pawn_attack(false, s, u)))
    }
}

/// Every square attacked by the knights of one colour.
pub fn get_knight_attacks_bitboard(tables: &AttackTables, board: &Board, white_knights: bool) -> (r: u64)
    requires
        tables.wf(),
    ensures
        forall|t: int| is_square(t) ==> #[trigger] bit(r, t) == covers(
            board@[base(white_knights) + 1],
            |s: int, u: int| knight_attack(s, u),
            t,
        ),
{
    let knights = if white_knights { board[WN] } else { board[BN] };
    table_union(knights, &tables.knight, Ghost(|s: int, u: int| knight_attack(s, u)))
}

/// Every square attacked by the bishops of one colour.
pub fn get_bishop_attacks_bitboard(board: &Board, white_bishops: bool) -> (r: u64)
    ensures
        forall|t: int| is_square(t) ==> #[trigger] bit(r, t) == covers(
            board@[base(white_bishops) + 2],
            |s: int, u: int| bishop_ray(s, all_occ(board@), u),
            t,
        ),
{
    let bishops = if white_bishops { board[WB] } else { board[BB] };
    let r = slide_union(bishops, get_all_occupied(*board), 0);
    proof {
        let occ = all_occ(board@);
        assert((|s: int, u: int| slide(0, s, occ, u)) =~= (|s: int, u: int| bishop_ray(s, occ, u)));
    }
    r
}

/// Every square attacked by the rooks of one colour.
pub fn get_rook_attacks_bitboard(board: &Board, white_rooks: bool) -> (r: u64)
    ensures
        forall|t: int| is_square(t) ==> #[trigger] bit(r, t) == covers(
            board@[base(white_rooks) + 3],
            |s: int, u: int| rook_ray(s, all_occ(board@), u),
            t,
        ),
{
    let rooks = if white_rooks { board[WR] } else { board[BR] };
    let r = slide_union(rooks, get_all_occupied(*board), 1);
    proof {
        let occ = all_occ(board@);
        assert((|s: int, u: int| slide(1, s, occ, u)) =~= (|s: int, u: int| rook_ray(s, occ, u)));
    }
    r
}

/// Every square attacked by the queens of one colour.
pub fn get_queen_attacks_bitboard(board: &Board, white_queens: bool) -> (r: u64)
    ensures
        forall|t: int| is_square(t) ==> #[trigger] bit(r, t) == covers(
            board@[base(white_queens) + 4],
            |s: int, u: int| queen_ray(s, all_occ(board@), u),
            t,
        ),
{
    let queens = if white_queens { board[WQ] } else { board[BQ] };
    let r = slide_union(queens, get_all_occupied(*board), 2);
    proof {
        let occ = all_occ(board@);
        assert((|s: int, u: int| slide(2, s, occ, u)) =~= (|s: int, u: int| queen_ray(s, occ, u)));
    }
    r
}

/// Every square attacked by the king of one colour.
pub fn get_king_attacks_bitboard(tables: &AttackTables, board: &Board, white_king: bool) -> (r: u64)
    requires
        tables.wf(),
    ensures
        forall|t: int| is_square(t) ==> #[trigger] bit(r, t) == covers(
            board@[base(white_king) + 5],
            |s: int, u: int| king_attack(s, u),
            t,
        ),
{
    let king = if white_king { board[WK] } else { board[BK] };
    table_union(king, &tables.king, Ghost(|s: int, u: int| king_attack(s, u)))
}

/// Every square attacked by any piece of one colour.
pub fn complete_attacks_bitboard(tables: &AttackTables, board: &Board, white_attacking: bool) -> (r: u64)
    requires
        tables.wf(),
    ensures
        forall|t: int| is_square(t) ==> #[trigger] bit(r, t) == attacked_by(board@, white_attacking, t),
{
    let mut attacks: u64 = 0;
    attacks = attacks | get_pawn_attacks_bitboard(tables, board, white_attacking);
    attacks = attacks | get_knight_attacks_bitboard(tables, board, white_attacking);
    attacks = attacks | get_bishop_attacks_bitboard(board, white_attacking);
    attacks = attacks | get_rook_attacks_bitboard(board, white_attacking);
    attacks = attacks | get_queen_attacks_bitboard(board, white_attacking);
    attacks = attacks | get_king_attacks_bitboard(tables, board, white_attacking);
    attacks
}

/// Whether the king of the given colour is attacked by the other colour.
pub fn is_check(tables: &AttackTables, board: Board, white_king: bool) -> (r: bool)
    requires
        tables.wf(),
    ensures
        r == in_check(board@, white_king),
{
    let attack_bitboard = complete_attacks_bitboard(tables, &board, !white_king);
    let king_square = if white_king { get_lsb(board[WK]) } else { get_lsb(board[BK]) };
    match king_square {
        Some(square) => {
            proof {
                lemma_lsb(board@[base(white_king) + 5]);
            }
            get_bit(attack_bitboard, square)
        },
        None => false,
    }
}

/// A ray along a rank reaches every square up to the first occupied one.
proof fn lemma_rank_ray_reaches(r: int, f: int, df: int, occ: u64, ft: int)
    requires
        on_board(r, f),
        0 <= ft < 8,
        df == 1 || df == -1,
        df == 1 ==> f < ft,
        df == -1 ==> ft < f,
        forall|g: int|
            (if df == 1 { f < g < ft } else { ft < g < f }) ==> !#[trigger] bit(occ, r * 8 + g),
    ensures
        ray_from(r, f, 0, df, occ, r * 8 + ft),
    decreases (if df == 1 { ft - f } else { f - ft }),
{
    reveal_with_fuel(ray_from, 1);
    if f + df != ft {
        assert(!bit(occ, r * 8 + (f + df)));
        lemma_rank_ray_reaches(r, f + df, df, occ, ft);
    }
}

/// A rook on the same rank as a king, with only empty squares between them,
/// gives check.
pub proof fn lemma_rook_on_open_rank_checks(b: Seq<u64>, white_king: bool, rook: int, king: int)
    requires
        b.len() == 12,
        is_square(rook),
        is_square(king),
        rook != king,
        rank(rook) == rank(king),
        lsb(b[base(white_king) + 5]) == Some(king as u8),
        bit(b[base(!white_king) + 3], rook),
        forall|s: int|
            rank(s) == rank(rook) && (rook < s < king || king < s < rook) ==> !#[trigger] bit(all_occ(b), s),
    ensures
        in_check(b, white_king),
{
    let occ = all_occ(b);
    let r = rank(rook);
    let df: int = if rook < king { 1 } else { -1 };
    assert forall|g: int|
        (if df == 1 { file(rook) < g < file(king) } else { file(king) < g < file(rook) }) implies !#[trigger] bit(
        occ,
        r * 8 + g,
    ) by {
        let s = r * 8 + g;
        assert(rank(s) == r);
    }
    lemma_rank_ray_reaches(r, file(rook), df, occ, file(king));
    assert(r * 8 + file(king) == king);
    assert(rook_ray(rook, occ, king));
    let rooks = b[base(!white_king) + 3];
    assert(covers(rooks, |s: int, u: int| rook_ray(s, occ, u), king));
}

} // verus!
