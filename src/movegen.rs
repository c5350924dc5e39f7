use vstd::prelude::*;
use crate::types::{Board, WP, WN, WB, WR, WQ, WK, BP, BK};
use crate::utils::{
    bit, is_square, group_bits, get_bit, set_bit, get_lsb, lsb, lemma_lsb, white_occ, black_occ,
    all_occ, get_all_white, get_all_black, get_all_occupied,
};
use crate::attacks::{
    AttackTables, knight_attack, king_attack, pawn_attack, bishop_ray, rook_ray, queen_ray,
    get_bishop_attacks, get_rook_attacks, get_queen_attacks,
};
use crate::attack_bitboards::{base, attacked_by, complete_attacks_bitboard};
use crate::board_state::{BoardState, CastlingRights};

verus! {

broadcast use group_bits;

/// Squares occupied by the given colour.
pub open spec fn own_occ(b: Seq<u64>, white: bool) -> u64 {
    if white {
        white_occ(b)
    } else {
        black_occ(b)
    }
}

/// Squares occupied by the other colour.
pub open spec fn enemy_occ(b: Seq<u64>, white: bool) -> u64 {
    if white {
        black_occ(b)
    } else {
        white_occ(b)
    }
}

/// Every move in the list names two squares of the board.
pub open spec fn moves_ok(s: Seq<(u8, u8)>) -> bool {
    forall|i: int| 0 <= i < s.len() ==> (#[trigger] s[i]).0 < 64 && s[i].1 < 64
}

/// A pawn move: a push onto an empty square ahead, a double push from the
/// starting rank over two empty squares, or a diagonal capture of an enemy.
pub open spec fn pawn_move(b: Seq<u64>, white: bool, f: int, t: int) -> bool {
    let empty = |s: int| !bit(all_occ(b), s);
    &&& bit(b[base(white)], f)
    &&& {
        ||| (white && f >= 8 && t == f - 8 && empty(t))
        ||| (white && 48 <= f < 56 && t == f - 16 && empty(f - 8) && empty(t))
        ||| (!white && f < 56 && t == f + 8 && empty(t))
        ||| (!white && 8 <= f < 16 && t == f + 16 && empty(f + 8) && empty(t))
        ||| (pawn_attack(white, f, t) && bit(enemy_occ(b, white), t))
    }
}

/// Where a knight (1), bishop (2), rook (3) or queen (4) on `f` reaches.
pub open spec fn piece_reach(kind: int, f: int, occ: u64, t: int) -> bool {
    if kind == 1 {
        knight_attack(f, t)
    } else if kind == 2 {
        bishop_ray(f, occ, t)
    } else if kind == 3 {
        rook_ray(f, occ, t)
    } else {
        queen_ray(f, occ, t)
    }
}

/// A knight, bishop, rook or queen move onto a square not held by its own side.
pub open spec fn piece_move(b: Seq<u64>, white: bool, kind: int, f: int, t: int) -> bool {
    &&& bit(b[base(white) + kind], f)
    &&& piece_reach(kind, f, all_occ(b), t)
    &&& !bit(own_occ(b, white), t)
}

/// A one-square king move from the king's square (the lowest of its plane).
pub open spec fn king_step(b: Seq<u64>, white: bool, f: int, t: int) -> bool {
    &&& lsb(b[base(white) + 5]) == Some(f as u8)
    &&& king_attack(f, t)
    &&& !bit(own_occ(b, white), t)
}

/// The castling condition for one side: the right is held, the squares in
/// `empty` are free, and none of the squares in `safe` is attacked.
pub open spec fn castle_ok(b: Seq<u64>, white: bool, right: bool, empty: Seq<int>, safe: Seq<int>) -> bool {
    &&& right
    &&& forall|i: int| 0 <= i < empty.len() ==> !bit(all_occ(b), #[trigger] empty[i])
    &&& forall|i: int| 0 <= i < safe.len() ==> !attacked_by(b, !white, #[trigger] safe[i])
}

/// A castling move, as a two-square king move, while the king's plane is
/// not empty.
pub open spec fn castle_move(b: Seq<u64>, r: CastlingRights, white: bool, f: int, t: int) -> bool {
    b[base(white) + 5] != 0 && castle_target(b, r, white, f, t)
}

/// The castling moves of one colour whose conditions hold.
pub open spec fn castle_target(b: Seq<u64>, r: CastlingRights, white: bool, f: int, t: int) -> bool {
    if white {
        ||| (f == 60 && t == 62 && castle_ok(b, true, r.0, seq![61, 62], seq![60, 61, 62]))
        ||| (f == 60 && t == 58 && castle_ok(b, true, r.1, seq![59, 58, 57], seq![60, 59, 58]))
    } else {
        ||| (f == 4 && t == 6 && castle_ok(b, false, r.2, seq![5, 6], seq![4, 5, 6]))
        ||| (f == 4 && t == 2 && castle_ok(b, false, r.3, seq![3, 2, 1], seq![4, 3, 2]))
    }
}

/// A pseudo-legal move of the given colour: it may leave its own king in check.
pub open spec fn pseudo_legal(b: Seq<u64>, r: CastlingRights, white: bool, f: int, t: int) -> bool {
    ||| pawn_move(b, white, f, t)
    ||| piece_move(b, white, 1, f, t)
    ||| piece_move(b, white, 2, f, t)
    ||| piece_move(b, white, 3, f, t)
    ||| piece_move(b, white, 4, f, t)
    ||| king_step(b, white, f, t)
    ||| castle_move(b, r, white, f, t)
}

/// A list with one more entry contains exactly that entry besides its own.
pub proof fn lemma_push_contains(s: Seq<(u8, u8)>, x: (u8, u8), m: (u8, u8))
    ensures
        s.push(x).contains(m) == (s.contains(m) || m == x),
{
    if s.contains(m) {
        let i = choose|i: int| 0 <= i < s.len() && s[i] == m;
        assert(s.push(x)[i] == m);
    }
    if m == x {
        assert(s.push(x)[s.len() as int] == m);
    }
    if s.push(x).contains(m) {
        let j = choose|j: int| 0 <= j < s.push(x).len() && s.push(x)[j] == m;
        if j < s.len() {
            assert(s[j] == m);
        }
    }
}

/// The entries of `new` past the first `old.len()`.
pub open spec fn added(old: Seq<(u8, u8)>, new: Seq<(u8, u8)>) -> Seq<(u8, u8)> {
    new.subrange(old.len() as int, new.len() as int)
}

/// The order of a move by origin, then destination.
pub open spec fn key(m: (u8, u8)) -> int {
    m.0 * 64 + m.1
}

/// The moves are in strictly increasing order of origin, then destination.
pub open spec fn increasing(s: Seq<(u8, u8)>) -> bool {
    forall|i: int, j: int| 0 <= i < j < s.len() ==> key(#[trigger] s[i]) < key(#[trigger] s[j])
}

/// A strictly increasing list has no duplicates.
proof fn lemma_increasing_no_dup(s: Seq<(u8, u8)>)
    requires
        increasing(s),
    ensures
        s.no_duplicates(),
{
    assert forall|i: int, j: int| 0 <= i < s.len() && 0 <= j < s.len() && i != j implies s[i] != s[j] by {
        if i < j {
            assert(key(s[i]) < key(s[j]));
        } else {
            assert(key(s[j]) < key(s[i]));
        }
    }
}

/// Two lists without duplicates and without a common entry make one.
pub proof fn lemma_append_no_dup(a: Seq<(u8, u8)>, b: Seq<(u8, u8)>)
    requires
        a.no_duplicates(),
        b.no_duplicates(),
        forall|i: int, j: int| 0 <= i < a.len() && 0 <= j < b.len() ==> a[i] != b[j],
    ensures
        (a + b).no_duplicates(),
{
    let c = a + b;
    assert forall|i: int, j: int| 0 <= i < c.len() && 0 <= j < c.len() && i != j implies c[i] != c[j] by {
        if i < a.len() && j >= a.len() {
            assert(a[i] != b[j - a.len()]);
        } else if j < a.len() && i >= a.len() {
            assert(a[j] != b[i - a.len()]);
        }
    }
}

/// Appending a block of moves from `from` to an increasing list of moves
/// from lower squares keeps it increasing.
proof fn lemma_block_append(a: Seq<(u8, u8)>, b: Seq<(u8, u8)>, from: int)
    requires
        increasing(a),
        increasing(b),
        forall|i: int| 0 <= i < a.len() ==> (#[trigger] a[i]).0 < from && a[i].1 < 64,
        forall|i: int| 0 <= i < b.len() ==> (#[trigger] b[i]).0 == from && b[i].1 < 64,
    ensures
        increasing(a + b),
        forall|i: int| 0 <= i < (a + b).len() ==> (#[trigger] (a + b)[i]).0 < from + 1 && (a + b)[i].1 < 64,
{
    let c = a + b;
    assert forall|i: int, j: int| 0 <= i < j < c.len() implies key(#[trigger] c[i]) < key(#[trigger] c[j]) by {
        if j >= a.len() && i < a.len() {
            assert(c[i] == a[i] && c[j] == b[j - a.len()]);
        } else if i >= a.len() {
            assert(c[i] == b[i - a.len()] && c[j] == b[j - a.len()]);
        } else {
            assert(c[i] == a[i] && c[j] == a[j]);
        }
    }
    assert forall|i: int| 0 <= i < c.len() implies (#[trigger] c[i]).0 < from + 1 && c[i].1 < 64 by {
        if i < a.len() {
            assert(c[i] == a[i]);
        } else {
            assert(c[i] == b[i - a.len()]);
        }
    }
}

/// A list that extends `old` is `old` followed by what was added.
proof fn lemma_added_push(m0: Seq<(u8, u8)>, s: Seq<(u8, u8)>, x: (u8, u8))
    requires
        s == m0 + added(m0, s),
    ensures
        s.push(x) == m0 + added(m0, s.push(x)),
        added(m0, s.push(x)) == added(m0, s).push(x),
{
    assert(added(m0, s.push(x)) =~= added(m0, s).push(x));
    assert(s.push(x) =~= m0 + added(m0, s.push(x)));
}

/// Extending twice is extending once by both additions.
proof fn lemma_added_twice(m0: Seq<(u8, u8)>, s1: Seq<(u8, u8)>, s2: Seq<(u8, u8)>)
    requires
        s1 == m0 + added(m0, s1),
        s2 == s1 + added(s1, s2),
    ensures
        s2 == m0 + added(m0, s2),
        added(m0, s2) == added(m0, s1) + added(s1, s2),
{
    assert(added(m0, s2) =~= added(m0, s1) + added(s1, s2));
    assert(s2 =~= m0 + added(m0, s2));
}

/// Appends `(from, t)` for every square `t` of `targets`, in increasing order.
fn push_targets(moves: &mut Vec<(u8, u8)>, from: u8, targets: u64)
    requires
        from < 64,
    ensures
        final(moves)@ == old(moves)@ + added(old(moves)@, final(moves)@),
        increasing(added(old(moves)@, final(moves)@)),
        moves_ok(added(old(moves)@, final(moves)@)),
        forall|i: int| 0 <= i < added(old(moves)@, final(moves)@).len() ==> (#[trigger] added(old(moves)@, final(moves)@)[i]).0 == from
            && added(old(moves)@, final(moves)@)[i].1 < 64,
        forall|m: (u8, u8)|
            #[trigger] added(old(moves)@, final(moves)@).contains(m) == (m.0 == from && m.1 < 64 && bit(targets, m.1 as int)),
        forall|m: (u8, u8)|
            #[trigger] final(moves)@.contains(m) == (old(moves)@.contains(m) || (m.0 == from && m.1 < 64
                && bit(targets, m.1 as int))),
{
    let ghost m0 = moves@;
    assert(m0 =~= m0 + added(m0, m0));
    let mut t: u8 = 0;
    while t < 64
        invariant
            t <= 64,
            from < 64,
            moves@ == m0 + added(m0, moves@),
            increasing(added(m0, moves@)),
            forall|i: int| 0 <= i < added(m0, moves@).len() ==> (#[trigger] added(m0, moves@)[i]).0 == from
                && added(m0, moves@)[i].1 < t,
            forall|m: (u8, u8)|
                #[trigger] added(m0, moves@).contains(m) == (m.0 == from && m.1 < t && bit(targets, m.1 as int)),
        decreases 64 - t,
    {
        if get_bit(targets, t) {
            let ghost before = moves@;
            moves.push((from, t));
            proof {
                lemma_added_push(m0, before, (from, t));
                let a = added(m0, moves@);
                assert forall|m: (u8, u8)| #[trigger] a.contains(m) == (m.0 == from && m.1 < t + 1 && bit(
                    targets,
                    m.1 as int,
                )) by {
                    lemma_push_contains(added(m0, before), (from, t), m);
                }
                assert forall|i: int, j: int| 0 <= i < j < a.len() implies key(#[trigger] a[i]) < key(#[trigger] a[j]) by {
                    if j == a.len() - 1 {
                        assert(a[i] == added(m0, before)[i]);
                    } else {
                        assert(a[i] == added(m0, before)[i] && a[j] == added(m0, before)[j]);
                    }
                }
            }
        }
        t = t + 1;
    }
    proof {
        let a = added(m0, moves@);
        assert forall|m: (u8, u8)| #[trigger] moves@.contains(m) == (m0.contains(m) || a.contains(m)) by {
            crate::search::lemma_concat_contains(m0, a, m);
        }
    }
}

/// Appends every move of the knights (1), bishops (2), rooks (3) or queens
/// (4) of one colour.
fn generate_piece_moves(tables: &AttackTables, board: &Board, moves: &mut Vec<(u8, u8)>, white: bool, kind: usize)
    requires
        tables.wf(),
        1 <= kind <= 4,
    ensures
        final(moves)@ == old(moves)@ + added(old(moves)@, final(moves)@),
        increasing(added(old(moves)@, final(moves)@)),
        moves_ok(added(old(moves)@, final(moves)@)),
        forall|m: (u8, u8)|
            #[trigger] added(old(moves)@, final(moves)@).contains(m) == (m.0 < 64 && m.1 < 64 && piece_move(board@, white, kind as int, m.0 as int, m.1 as int)),
        forall|m: (u8, u8)|
            #[trigger] final(moves)@.contains(m) == (old(moves)@.contains(m) || (m.0 < 64 && m.1 < 64
                && piece_move(board@, white, kind as int, m.0 as int, m.1 as int))),
{
    let ghost m0 = moves@;
    assert(m0 =~= m0 + added(m0, m0));
    let pieces = if white { board[kind] } else { board[kind + 6] };
    let friendly = if white { get_all_white(*board) } else { get_all_black(*board) };
    let all_occupied = get_all_occupied(*board);
    let mut from: u8 = 0;
    while from < 64
        invariant
            from <= 64,
            tables.wf(),
            1 <= kind <= 4,
            pieces == board@[base(white) + kind],
            friendly == own_occ(board@, white),
            all_occupied == all_occ(board@),
            moves@ == m0 + added(m0, moves@),
            increasing(added(m0, moves@)),
            forall|i: int| 0 <= i < added(m0, moves@).len() ==> (#[trigger] added(m0, moves@)[i]).0 < from
                && added(m0, moves@)[i].1 < 64,
            forall|m: (u8, u8)|
                #[trigger] added(m0, moves@).contains(m) == (m.0 < from && m.1 < 64 && piece_move(board@, white, kind as int, m.0 as int, m.1 as int)),
        decreases 64 - from,
    {
        if get_bit(pieces, from) {
            let reach = if kind == 1 {
                tables.knight[from as usize]
            } else if kind == 2 {
                get_bishop_attacks(from, all_occupied)
            } else if kind == 3 {
                get_rook_attacks(from, all_occupied)
            } else {
                get_queen_attacks(from, all_occupied)
            };
            assert(forall|t: int|
                is_square(t) ==> #[trigger] bit(reach, t) == piece_reach(kind as int, from as int, all_occupied, t));
            let targets = reach & !friendly;
            let ghost before = moves@;
            push_targets(moves, from, targets);
            proof {
                lemma_added_twice(m0, before, moves@);
                let a0 = added(m0, before);
                let b0 = added(before, moves@);
                let a = added(m0, moves@);
                lemma_block_append(a0, b0, from as int);
                assert forall|m: (u8, u8)| #[trigger] a.contains(m) == (m.0 < from + 1 && m.1 < 64 && piece_move(board@, white, kind as int, m.0 as int, m.1 as int)) by {
                    crate::search::lemma_concat_contains(a0, b0, m);
                }
            }
        }
        from = from + 1;
    }
    proof {
        let a = added(m0, moves@);
        assert forall|m: (u8, u8)| #[trigger] moves@.contains(m) == (m0.contains(m) || a.contains(m)) by {
            crate::search::lemma_concat_contains(m0, a, m);
        }
        assert forall|i: int| 0 <= i < a.len() implies (#[trigger] a[i]).0 < 64 && a[i].1 < 64 by {
            assert(a.contains(a[i]));
        }
    }
}

/// Appends every pawn move of one colour.
#[verifier::rlimit(60)]
pub fn generate_pawn_moves(tables: &AttackTables, board: &Board, moves: &mut Vec<(u8, u8)>, white: bool)
    requires
        tables.wf(),
    ensures
        final(moves)@ == old(moves)@ + added(old(moves)@, final(moves)@),
        increasing(added(old(moves)@, final(moves)@)),
        moves_ok(added(old(moves)@, final(moves)@)),
        forall|m: (u8, u8)|
            #[trigger] added(old(moves)@, final(moves)@).contains(m) == (m.0 < 64 && m.1 < 64 && pawn_move(board@, white, m.0 as int, m.1 as int)),
        forall|m: (u8, u8)|
            #[trigger] final(moves)@.contains(m) == (old(moves)@.contains(m) || (m.0 < 64 && m.1 < 64
                && pawn_move(board@, white, m.0 as int, m.1 as int))),
{
    let ghost m0 = moves@;
    assert(m0 =~= m0 + added(m0, m0));
    let pawns = if white { board[WP] } else { board[BP] };
    let enemy = if white { get_all_black(*board) } else { get_all_white(*board) };
    let all_occupied = get_all_occupied(*board);
    let mut from: u8 = 0;
    while from < 64
        invariant
            from <= 64,
            tables.wf(),
            pawns == board@[base(white)],
            enemy == enemy_occ(board@, white),
            all_occupied == all_occ(board@),
            moves@ == m0 + added(m0, moves@),
            increasing(added(m0, moves@)),
            forall|i: int| 0 <= i < added(m0, moves@).len() ==> (#[trigger] added(m0, moves@)[i]).0 < from
                && added(m0, moves@)[i].1 < 64,
            forall|m: (u8, u8)|
                #[trigger] added(m0, moves@).contains(m) == (m.0 < from && m.1 < 64 && pawn_move(board@, white, m.0 as int, m.1 as int)),
        decreases 64 - from,
    {
        if get_bit(pawns, from) {
            let mut targets: u64 = tables.pawn(white, from) & enemy;
            let ghost t0 = targets;
            if white {
                if from >= 8 && !get_bit(all_occupied, from - 8) {
                    set_bit(&mut targets, from - 8);
                    if from >= 48 && from < 56 && !get_bit(all_occupied, from - 16) {
                        set_bit(&mut targets, from - 16);
                    }
                }
            } else {
                if from < 56 && !get_bit(all_occupied, from + 8) {
                    set_bit(&mut targets, from + 8);
                    if from >= 8 && from < 16 && !get_bit(all_occupied, from + 16) {
                        set_bit(&mut targets, from + 16);
                    }
                }
            }
            assert forall|t: int| is_square(t) implies #[trigger] bit(targets, t) == pawn_move(
                board@,
                white,
                from as int,
                t,
            ) by {
                assert(bit(t0, t) == (pawn_attack(white, from as int, t) && bit(enemy, t)));
            }
            let ghost before = moves@;
            push_targets(moves, from, targets);
            proof {
                lemma_added_twice(m0, before, moves@);
                let a0 = added(m0, before);
                let b0 = added(before, moves@);
                let a = added(m0, moves@);
                lemma_block_append(a0, b0, from as int);
                assert forall|m: (u8, u8)| #[trigger] a.contains(m) == (m.0 < from + 1 && m.1 < 64 && pawn_move(board@, white, m.0 as int, m.1 as int)) by {
                    crate::search::lemma_concat_contains(a0, b0, m);
                }
            }
        }
        from = from + 1;
    }
    proof {
        let a = added(m0, moves@);
        assert forall|m: (u8, u8)| #[trigger] moves@.contains(m) == (m0.contains(m) || a.contains(m)) by {
            crate::search::lemma_concat_contains(m0, a, m);
        }
        assert forall|i: int| 0 <= i < a.len() implies (#[trigger] a[i]).0 < 64 && a[i].1 < 64 by {
            assert(a.contains(a[i]));
        }
    }
}

/// Appends every knight move of one colour.
pub fn generate_knight_moves(tables: &AttackTables, board: &Board, moves: &mut Vec<(u8, u8)>, white: bool)
    requires
        tables.wf(),
    ensures
        final(moves)@ == old(moves)@ + added(old(moves)@, final(moves)@),
        increasing(added(old(moves)@, final(moves)@)),
        moves_ok(added(old(moves)@, final(moves)@)),
        forall|m: (u8, u8)|
            #[trigger] added(old(moves)@, final(moves)@).contains(m) == (m.0 < 64 && m.1 < 64 && piece_move(
                board@,
                white,
                1,
                m.0 as int,
                m.1 as int,
            )),
        forall|m: (u8, u8)|
            #[trigger] final(moves)@.contains(m) == (old(moves)@.contains(m) || (m.0 < 64 && m.1 < 64
                && piece_move(board@, white, 1, m.0 as int, m.1 as int))),
{
    generate_piece_moves(tables, board, moves, white, WN);
}

/// Appends every bishop move of one colour.
pub fn generate_bishop_moves(tables: &AttackTables, board: &Board, moves: &mut Vec<(u8, u8)>, white: bool)
    requires
        tables.wf(),
    ensures
        final(moves)@ == old(moves)@ + added(old(moves)@, final(moves)@),
        increasing(added(old(moves)@, final(moves)@)),
        moves_ok(added(old(moves)@, final(moves)@)),
        forall|m: (u8, u8)|
            #[trigger] added(old(moves)@, final(moves)@).contains(m) == (m.0 < 64 && m.1 < 64 && piece_move(
                board@,
                white,
                2,
                m.0 as int,
                m.1 as int,
            )),
        forall|m: (u8, u8)|
            #[trigger] final(moves)@.contains(m) == (old(moves)@.contains(m) || (m.0 < 64 && m.1 < 64
                && piece_move(board@, white, 2, m.0 as int, m.1 as int))),
{
    generate_piece_moves(tables, board, moves, white, WB);
}

/// Appends every rook move of one colour.
pub fn generate_rook_moves(tables: &AttackTables, board: &Board, moves: &mut Vec<(u8, u8)>, white: bool)
    requires
        tables.wf(),
    ensures
        final(moves)@ == old(moves)@ + added(old(moves)@, final(moves)@),
        increasing(added(old(moves)@, final(moves)@)),
        moves_ok(added(old(moves)@, final(moves)@)),
        forall|m: (u8, u8)|
            #[trigger] added(old(moves)@, final(moves)@).contains(m) == (m.0 < 64 && m.1 < 64 && piece_move(
                board@,
                white,
                3,
                m.0 as int,
                m.1 as int,
            )),
        forall|m: (u8, u8)|
            #[trigger] final(moves)@.contains(m) == (old(moves)@.contains(m) || (m.0 < 64 && m.1 < 64
                && piece_move(board@, white, 3, m.0 as int, m.1 as int))),
{
    generate_piece_moves(tables, board, moves, white, WR);
}

/// Appends every queen move of one colour.
pub fn generate_queen_moves(tables: &AttackTables, board: &Board, moves: &mut Vec<(u8, u8)>, white: bool)
    requires
        tables.wf(),
    ensures
        final(moves)@ == old(moves)@ + added(old(moves)@, final(moves)@),
        increasing(added(old(moves)@, final(moves)@)),
        moves_ok(added(old(moves)@, final(moves)@)),
        forall|m: (u8, u8)|
            #[trigger] added(old(moves)@, final(moves)@).contains(m) == (m.0 < 64 && m.1 < 64 && piece_move(
                board@,
                white,
                4,
                m.0 as int,
                m.1 as int,
            )),
        forall|m: (u8, u8)|
            #[trigger] final(moves)@.contains(m) == (old(moves)@.contains(m) || (m.0 < 64 && m.1 < 64
                && piece_move(board@, white, 4, m.0 as int, m.1 as int))),
{
    generate_piece_moves(tables, board, moves, white, WQ);
}

/// The castling moves of one colour whose conditions hold, kingside first.
pub open spec fn castle_list(b: Seq<u64>, r: CastlingRights, white: bool) -> Seq<(u8, u8)> {
    let kf: u8 = if white { 60 } else { 4 };
    let kt: u8 = if white { 62 } else { 6 };
    let qt: u8 = if white { 58 } else { 2 };
    (if castle_target(b, r, white, kf as int, kt as int) {
        seq![(kf, kt)]
    } else {
        seq![]
    }) + (if castle_target(b, r, white, kf as int, qt as int) {
        seq![(kf, qt)]
    } else {
        seq![]
    })
}

/// The castling list holds exactly the castling moves whose conditions hold.
proof fn lemma_castle_list_contains(b: Seq<u64>, r: CastlingRights, white: bool, m: (u8, u8))
    ensures
        castle_list(b, r, white).contains(m) == castle_target(b, r, white, m.0 as int, m.1 as int),
{
    let kf: u8 = if white { 60 } else { 4 };
    let kt: u8 = if white { 62 } else { 6 };
    let qt: u8 = if white { 58 } else { 2 };
    let x = if castle_target(b, r, white, kf as int, kt as int) { seq![(kf, kt)] } else { seq![] };
    let y = if castle_target(b, r, white, kf as int, qt as int) { seq![(kf, qt)] } else { seq![] };
    crate::search::lemma_concat_contains(x, y, m);
    if x.len() > 0 {
        assert(x[0] == (kf, kt));
    }
    if y.len() > 0 {
        assert(y[0] == (kf, qt));
    }
    if x.contains(m) {
        assert(m == (kf, kt));
    }
    if y.contains(m) {
        assert(m == (kf, qt));
    }
    if castle_target(b, r, white, m.0 as int, m.1 as int) {
        if m.1 == kt {
            assert(x[0] == m);
        } else {
            assert(y[0] == m);
        }
    }
}

/// Appends the castling moves of one colour whose conditions hold on the
/// current position: the right is held, the squares between king and rook are
/// empty, and the king's start, transit and destination squares are not
/// attacked.
pub fn generate_castling_moves(
    tables: &AttackTables,
    board: &Board,
    moves: &mut Vec<(u8, u8)>,
    white: bool,
    board_state: &BoardState,
    _king_square: u8,
)
    requires
        tables.wf(),
    ensures
        final(moves)@ == old(moves)@ + castle_list(board@, board_state.rights(), white),
        forall|m: (u8, u8)|
            #[trigger] final(moves)@.contains(m) == (old(moves)@.contains(m) || castle_target(
                board@,
                board_state.rights(),
                white,
                m.0 as int,
                m.1 as int,
            )),
{
    let ghost m0 = moves@;
    let ghost b = board@;
    let all_occupied = get_all_occupied(*board);
    let enemy_attacks = complete_attacks_bitboard(tables, board, !white);
    let (ks, qs, kf, kt, qt): (bool, bool, u8, u8, u8) = if white {
        (board_state.white_kingside_castle, board_state.white_queenside_castle, 60, 62, 58)
    } else {
        (board_state.black_kingside_castle, board_state.black_queenside_castle, 4, 6, 2)
    };
    let kingside = ks && !get_bit(all_occupied, kf + 1) && !get_bit(all_occupied, kf + 2)
        && !get_bit(enemy_attacks, kf) && !get_bit(enemy_attacks, kf + 1) && !get_bit(enemy_attacks, kf + 2);
    let queenside = qs && !get_bit(all_occupied, kf - 1) && !get_bit(all_occupied, kf - 2)
        && !get_bit(all_occupied, kf - 3) && !get_bit(enemy_attacks, kf) && !get_bit(enemy_attacks, kf - 1)
        && !get_bit(enemy_attacks, kf - 2);
    proof {
        let r = board_state.rights();
        let e1 = if white { seq![61int, 62] } else { seq![5int, 6] };
        let s1 = if white { seq![60int, 61, 62] } else { seq![4int, 5, 6] };
        let e2 = if white { seq![59int, 58, 57] } else { seq![3int, 2, 1] };
        let s2 = if white { seq![60int, 59, 58] } else { seq![4int, 3, 2] };
        assert(kingside == castle_ok(b, white, ks, e1, s1)) by {
            if castle_ok(b, white, ks, e1, s1) {
                assert(e1[0] == kf + 1 && e1[1] == kf + 2);
                assert(s1[0] == kf && s1[1] == kf + 1 && s1[2] == kf + 2);
            }
        }
        assert(queenside == castle_ok(b, white, qs, e2, s2)) by {
            if castle_ok(b, white, qs, e2, s2) {
                assert(e2[0] == kf - 1 && e2[1] == kf - 2 && e2[2] == kf - 3);
                assert(s2[0] == kf && s2[1] == kf - 1 && s2[2] == kf - 2);
            }
        }
    }
    if kingside {
        let ghost before = moves@;
        moves.push((kf, kt));
        proof {
            assert forall|m: (u8, u8)| #[trigger] moves@.contains(m) == (before.contains(m) || m == (kf, kt)) by {
                lemma_push_contains(before, (kf, kt), m);
            }
        }
    }
    if queenside {
        let ghost before = moves@;
        moves.push((kf, qt));
        proof {
            assert forall|m: (u8, u8)| #[trigger] moves@.contains(m) == (before.contains(m) || m == (kf, qt)) by {
                lemma_push_contains(before, (kf, qt), m);
            }
        }
    }
    proof {
        assert(moves@ =~= m0 + castle_list(board@, board_state.rights(), white));
    }
}

/// Appends the king's one-square moves and its castling moves, when the
/// colour has a king.
#[verifier::rlimit(100)]
pub fn generate_king_moves(
    tables: &AttackTables,
    board: &Board,
    moves: &mut Vec<(u8, u8)>,
    white: bool,
    board_state: &BoardState,
)
    requires
        tables.wf(),
    ensures
        final(moves)@ == old(moves)@ + added(old(moves)@, final(moves)@),
        added(old(moves)@, final(moves)@).no_duplicates(),
        moves_ok(added(old(moves)@, final(moves)@)),
        forall|m: (u8, u8)|
            #[trigger] added(old(moves)@, final(moves)@).contains(m) == (m.0 < 64 && m.1 < 64 && (king_step(
                board@,
                white,
                m.0 as int,
                m.1 as int,
            ) || castle_move(board@, board_state.rights(), white, m.0 as int, m.1 as int))),
{
    let ghost m0 = moves@;
    let king = if white { board[WK] } else { board[BK] };
    let friendly = if white { get_all_white(*board) } else { get_all_black(*board) };
    proof {
        lemma_lsb(king);
        assert(m0 =~= m0 + added(m0, m0));
    }
    if king != 0 {
        let from = get_lsb(king).unwrap();
        let targets = tables.king[from as usize] & !friendly;
        push_targets(moves, from, targets);
        let ghost mid = moves@;
        generate_castling_moves(tables, board, moves, white, board_state, from);
        proof {
            let a = added(m0, mid);
            let c = castle_list(board@, board_state.rights(), white);
            assert(added(mid, moves@) =~= c);
            lemma_added_twice(m0, mid, moves@);
            lemma_increasing_no_dup(a);
            assert(forall|i: int| 0 <= i < a.len() ==> king_attack(from as int, #[trigger] a[i].1 as int)) by {
                assert forall|i: int| 0 <= i < a.len() implies king_attack(from as int, #[trigger] a[i].1 as int) by {
                    assert(a.contains(a[i]));
                    assert(bit(tables.king@[from as int], a[i].1 as int));
                }
            }
            assert forall|i: int, j: int| 0 <= i < a.len() && 0 <= j < c.len() implies a[i] != c[j] by {
                assert(a.contains(a[i]));
                assert(a[i].0 == from);
                assert(c.contains(c[j]));
            }
            lemma_append_no_dup(a, c);
            assert forall|m: (u8, u8)| #[trigger] added(m0, moves@).contains(m) == (m.0 < 64 && m.1 < 64 && (king_step(
                board@,
                white,
                m.0 as int,
                m.1 as int,
            ) || castle_move(board@, board_state.rights(), white, m.0 as int, m.1 as int))) by {
                crate::search::lemma_concat_contains(a, c, m);
                lemma_castle_list_contains(board@, board_state.rights(), white, m);
                if m.0 == from && m.1 < 64 && king_step(board@, white, m.0 as int, m.1 as int) {
                    assert(bit(tables.king@[from as int], m.1 as int));
                }
            }
        }
    } else {
        proof {
            assert(added(m0, moves@) =~= Seq::<(u8, u8)>::empty());
        }
    }
}

/// Every move of the list starts on a square of plane `p`.
pub open spec fn from_plane(s: Seq<(u8, u8)>, b: Seq<u64>, p: int) -> bool {
    forall|i: int| 0 <= i < s.len() ==> bit(b[p], (#[trigger] s[i]).0 as int)
}

/// Every move of the list starts on a square of some plane in `lo..hi`.
pub open spec fn from_planes(s: Seq<(u8, u8)>, b: Seq<u64>, lo: int, hi: int) -> bool {
    forall|i: int| 0 <= i < s.len() ==> crate::utils::occupied_in(b, (#[trigger] s[i]).0 as int, lo, hi)
}

/// Appending moves from plane `hi` to moves from planes `lo..hi` of a board
/// whose planes never share a square adds no duplicate.
proof fn lemma_append_block(s: Seq<(u8, u8)>, x: Seq<(u8, u8)>, b: Seq<u64>, lo: int, hi: int)
    requires
        crate::move_execution::exclusive(b),
        b.len() == 12,
        0 <= lo <= hi < 12,
        s.no_duplicates(),
        x.no_duplicates(),
        from_planes(s, b, lo, hi),
        from_plane(x, b, hi),
        forall|i: int| 0 <= i < x.len() ==> (#[trigger] x[i]).0 < 64,
    ensures
        (s + x).no_duplicates(),
        from_planes(s + x, b, lo, hi + 1),
{
    assert forall|i: int, j: int| 0 <= i < s.len() && 0 <= j < x.len() implies s[i] != x[j] by {
        assert(crate::utils::occupied_in(b, s[i].0 as int, lo, hi));
        let p = choose|p: int| lo <= p < hi && #[trigger] bit(b[p], s[i].0 as int);
        if s[i] == x[j] {
            assert(bit(b[p], x[j].0 as int) && bit(b[hi], x[j].0 as int));
            assert(is_square(x[j].0 as int));
        }
    }
    lemma_append_no_dup(s, x);
    let c = s + x;
    assert forall|i: int| 0 <= i < c.len() implies crate::utils::occupied_in(b, (#[trigger] c[i]).0 as int, lo, hi + 1) by {
        if i < s.len() {
            assert(c[i] == s[i]);
            assert(crate::utils::occupied_in(b, s[i].0 as int, lo, hi));
            let p = choose|p: int| lo <= p < hi && #[trigger] bit(b[p], s[i].0 as int);
            assert(bit(b[p], c[i].0 as int));
        } else {
            assert(c[i] == x[i - s.len()]);
            assert(bit(b[hi], c[i].0 as int));
        }
    }
}

/// Every pseudo-legal move of the given colour: pawns, knights, bishops,
/// rooks, queens, then the king and castling. On a board whose planes never
/// share a square and whose castling rights have their pieces at home, no
/// move is listed twice.
pub fn generate_moves(tables: &AttackTables, board: Board, white_move: bool, board_state: &BoardState) -> (r: Vec<(u8, u8)>)
    requires
        tables.wf(),
    ensures
        moves_ok(r@),
        forall|m: (u8, u8)|
            #[trigger] r@.contains(m) == (m.0 < 64 && m.1 < 64 && pseudo_legal(
                board@,
                board_state.rights(),
                white_move,
                m.0 as int,
                m.1 as int,
            )),
        crate::move_execution::exclusive(board@) && crate::move_execution::castling_pieces_home(*board_state)
            && board_state.bitboards == board ==> r@.no_duplicates(),
{
    let mut moves: Vec<(u8, u8)> = Vec::new();
    let ghost s0 = moves@;
    generate_pawn_moves(tables, &board, &mut moves, white_move);
    let ghost s1 = moves@;
    generate_knight_moves(tables, &board, &mut moves, white_move);
    let ghost s2 = moves@;
    generate_bishop_moves(tables, &board, &mut moves, white_move);
    let ghost s3 = moves@;
    generate_rook_moves(tables, &board, &mut moves, white_move);
    let ghost s4 = moves@;
    generate_queen_moves(tables, &board, &mut moves, white_move);
    let ghost s5 = moves@;
    generate_king_moves(tables, &board, &mut moves, white_move, board_state);
    proof {
        let b = board@;
        let x1 = added(s0, s1);
        let x2 = added(s1, s2);
        let x3 = added(s2, s3);
        let x4 = added(s3, s4);
        let x5 = added(s4, s5);
        let x6 = added(s5, moves@);
        assert(s1 =~= x1);
        assert(moves@ =~= x1 + x2 + x3 + x4 + x5 + x6);
        assert forall|m: (u8, u8)| #[trigger] moves@.contains(m) == (m.0 < 64 && m.1 < 64 && pseudo_legal(
            b,
            board_state.rights(),
            white_move,
            m.0 as int,
            m.1 as int,
        )) by {
            crate::search::lemma_concat_contains(x1, x2, m);
            crate::search::lemma_concat_contains(x1 + x2, x3, m);
            crate::search::lemma_concat_contains(x1 + x2 + x3, x4, m);
            crate::search::lemma_concat_contains(x1 + x2 + x3 + x4, x5, m);
            crate::search::lemma_concat_contains(x1 + x2 + x3 + x4 + x5, x6, m);
        }
        assert forall|i: int| 0 <= i < moves@.len() implies (#[trigger] moves@[i]).0 < 64 && moves@[i].1 < 64 by {
            assert(moves@.contains(moves@[i]));
        }
        if crate::move_execution::exclusive(b) && crate::move_execution::castling_pieces_home(*board_state)
            && board_state.bitboards == board {
            let o = base(white_move);
            lemma_increasing_no_dup(x1);
            lemma_increasing_no_dup(x2);
            lemma_increasing_no_dup(x3);
            lemma_increasing_no_dup(x4);
            lemma_increasing_no_dup(x5);
            assert forall|i: int| 0 <= i < x1.len() implies bit(b[o], (#[trigger] x1[i]).0 as int) by {
                assert(x1.contains(x1[i]));
            }
            assert forall|i: int| 0 <= i < x2.len() implies bit(b[o + 1], (#[trigger] x2[i]).0 as int) by {
                assert(x2.contains(x2[i]));
            }
            assert forall|i: int| 0 <= i < x3.len() implies bit(b[o + 2], (#[trigger] x3[i]).0 as int) by {
                assert(x3.contains(x3[i]));
            }
            assert forall|i: int| 0 <= i < x4.len() implies bit(b[o + 3], (#[trigger] x4[i]).0 as int) by {
                assert(x4.contains(x4[i]));
            }
            assert forall|i: int| 0 <= i < x5.len() implies bit(b[o + 4], (#[trigger] x5[i]).0 as int) by {
                assert(x5.contains(x5[i]));
            }
            assert forall|i: int| 0 <= i < x6.len() implies bit(b[o + 5], (#[trigger] x6[i]).0 as int) by {
                assert(x6.contains(x6[i]));
                if king_step(b, white_move, x6[i].0 as int, x6[i].1 as int) {
                    lemma_lsb(b[o + 5]);
                }
            }
            assert forall|i: int| 0 <= i < x1.len() implies crate::utils::occupied_in(b, (#[trigger] x1[i]).0 as int, o, o + 1) by {
                assert(bit(b[o], x1[i].0 as int));
            }
            lemma_append_block(x1, x2, b, o, o + 1);
            lemma_append_block(x1 + x2, x3, b, o, o + 2);
            lemma_append_block(x1 + x2 + x3, x4, b, o, o + 3);
            lemma_append_block(x1 + x2 + x3 + x4, x5, b, o, o + 4);
            lemma_append_block(x1 + x2 + x3 + x4 + x5, x6, b, o, o + 5);
        }
    }
    moves
}

} // verus!
