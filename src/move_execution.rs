use vstd::prelude::*;
use crate::types::{Board, WK, BK, WR, BR};
use crate::utils::{
    bit, mask, is_square, group_bits, get_bit, set_bit, clear_bit, first_plane, lemma_bits_ext,
    popcount, popcount_upto,
};
use crate::attacks::AttackTables;
use crate::attack_bitboards::base;
use crate::board_state::{BoardState, CastlingRights, rights_after_rook_move};

verus! {

broadcast use group_bits;

/// What a move did, enough to take it back exactly.
#[derive(Clone, Copy, Debug)]
pub struct Move {
    pub from: u8,
    pub to: u8,
    pub piece: usize,
    pub captured_piece: Option<usize>,
    pub promotion: Option<usize>,
    pub castling_move: bool,
    pub en_passant: bool,
    pub previous_castling_rights: CastlingRights,
    pub previous_en_passant_target: Option<u8>,
}

/// `x` without square `s`.
pub open spec fn clear_sq(x: u64, s: int) -> u64 {
    x & !mask(s)
}

/// `x` with square `s`.
pub open spec fn set_sq(x: u64, s: int) -> u64 {
    x | mask(s)
}

/// The plane of the side to move's piece on `from`, if any.
pub open spec fn mover_plane(b: BoardState, from: int) -> Option<usize> {
    first_plane(b.bitboards@, from, base(b.white_to_move), base(b.white_to_move) + 6)
}

/// A king moving two files is a castling move.
pub open spec fn is_castling(p: int, from: int, to: int) -> bool {
    (p == 5 || p == 11) && (from - to == 2 || to - from == 2)
}

/// King origin, king destination, rook origin and rook destination of the
/// castling of one colour towards `to`.
pub open spec fn castle_squares(white: bool, to: int) -> (int, int, int, int) {
    if white {
        if to == 62 {
            (60, 62, 63, 61)
        } else {
            (60, 58, 56, 59)
        }
    } else {
        if to == 6 {
            (4, 6, 7, 5)
        } else {
            (4, 2, 0, 3)
        }
    }
}

/// The record of a castling move of one colour.
pub open spec fn castle_record(b: BoardState, from: int, to: int, white: bool) -> Move {
    Move {
        from: from as u8,
        to: to as u8,
        piece: if white { 5 } else { 11 },
        captured_piece: None,
        promotion: None,
        castling_move: true,
        en_passant: false,
        previous_castling_rights: b.rights(),
        previous_en_passant_target: b.en_passant_target,
    }
}

/// The record `make_move` returns for `from`-`to` on `b`: none when the side to
/// move has no piece on `from`.
pub open spec fn record_of(b: BoardState, from: int, to: int) -> Option<Move> {
    match mover_plane(b, from) {
        None => None,
        Some(p) => if is_castling(p as int, from, to) {
            Some(castle_record(b, from, to, p == 5))
        } else {
            let e = base(!b.white_to_move);
            Some(
                Move {
                    from: from as u8,
                    to: to as u8,
                    piece: p,
                    captured_piece: first_plane(b.bitboards@, to, e, e + 6),
                    promotion: None,
                    castling_move: false,
                    en_passant: false,
                    previous_castling_rights: b.rights(),
                    previous_en_passant_target: b.en_passant_target,
                },
            )
        },
    }
}

/// The planes after a castling move of one colour towards `to`.
pub open spec fn castle_planes(planes: Seq<u64>, white: bool, to: int) -> Seq<u64> {
    let sq = castle_squares(white, to);
    let k = if white { 5int } else { 11int };
    let r = if white { 3int } else { 9int };
    let with_king = planes.update(k, set_sq(clear_sq(planes[k], sq.0), sq.1));
    with_king.update(r, set_sq(clear_sq(with_king[r], sq.2), sq.3))
}

/// The planes after an ordinary move: the mover leaves `from`, a captured
/// piece leaves `to`, and the mover arrives on `to`.
pub open spec fn normal_planes(planes: Seq<u64>, m: Move) -> Seq<u64> {
    let p = m.piece as int;
    let lifted = planes.update(p, clear_sq(planes[p], m.from as int));
    let cleared = match m.captured_piece {
        Some(c) => lifted.update(c as int, clear_sq(lifted[c as int], m.to as int)),
        None => lifted,
    };
    cleared.update(p, set_sq(cleared[p], m.to as int))
}

/// The planes after the move recorded by `m`.
pub open spec fn planes_after(planes: Seq<u64>, m: Move) -> Seq<u64> {
    if m.castling_move {
        castle_planes(planes, m.piece == 5, m.to as int)
    } else {
        normal_planes(planes, m)
    }
}

/// Rights after a move: a king move (castling included) revokes both rights
/// of its colour, a rook leaving its corner revokes that corner's right.
pub open spec fn rights_after(r: CastlingRights, m: Move) -> CastlingRights {
    if m.piece == 5 {
        (false, false, r.2, r.3)
    } else if m.piece == 11 {
        (r.0, r.1, false, false)
    } else if m.piece == 3 || m.piece == 9 {
        rights_after_rook_move(r, m.from as int, m.piece == 3)
    } else {
        r
    }
}

/// `nb` is `b` after the move recorded by `m`.
pub open spec fn moved(b: BoardState, m: Move, nb: BoardState) -> bool {
    &&& nb.bitboards@ == planes_after(b.bitboards@, m)
    &&& nb.white_to_move == !b.white_to_move
    &&& nb.rights() == rights_after(b.rights(), m)
    &&& nb.en_passant_target == b.en_passant_target
    &&& nb.wf()
}

/// The square a captured piece is put back on.
pub open spec fn restore_square(m: Move, mover_white: bool) -> int {
    if m.en_passant {
        if mover_white {
            m.to + 8
        } else {
            m.to - 8
        }
    } else {
        m.to as int
    }
}

/// The planes after taking back the move recorded by `m`.
pub open spec fn unmake_planes(planes: Seq<u64>, m: Move, mover_white: bool) -> Seq<u64> {
    let p = m.piece as int;
    let returned = planes.update(p, set_sq(clear_sq(planes[p], m.to as int), m.from as int));
    let restored = match m.captured_piece {
        Some(c) => returned.update(c as int, set_sq(returned[c as int], restore_square(m, mover_white))),
        None => returned,
    };
    if m.castling_move {
        if m.to == 62 {
            restored.update(3, set_sq(clear_sq(restored[3], 61), 63))
        } else if m.to == 58 {
            restored.update(3, set_sq(clear_sq(restored[3], 59), 56))
        } else if m.to == 6 {
            restored.update(9, set_sq(clear_sq(restored[9], 5), 7))
        } else if m.to == 2 {
            restored.update(9, set_sq(clear_sq(restored[9], 3), 0))
        } else {
            restored
        }
    } else {
        restored
    }
}

/// `nb` is `b` with the move recorded by `m` taken back.
pub open spec fn unmoved(b: BoardState, m: Move, nb: BoardState) -> bool {
    &&& nb.bitboards@ == unmake_planes(b.bitboards@, m, !b.white_to_move)
    &&& nb.white_to_move == !b.white_to_move
    &&& nb.rights() == m.previous_castling_rights
    &&& nb.en_passant_target == m.previous_en_passant_target
    &&& nb.wf()
}

/// A record `unmake_move` can take back without leaving the board.
pub open spec fn record_ok(m: Move) -> bool {
    &&& m.from < 64
    &&& m.to < 64
    &&& m.piece < 12
    &&& m.captured_piece matches Some(c) ==> c < 12 && 0 <= restore_square(m, m.piece < 6) < 64
}

/// The first plane in `lo..hi` holding `square`.
fn find_plane(board: &Board, square: u8, lo: usize, hi: usize) -> (r: Option<usize>)
    requires
        square < 64,
        lo <= hi <= 12,
    ensures
        r == first_plane(board@, square as int, lo as int, hi as int),
        r matches Some(p) ==> lo <= p < hi,
{
    proof {
        crate::utils::lemma_first_plane(board@, square as int, lo as int, hi as int);
    }
    let mut p: usize = lo;
    while p < hi
        invariant
            lo <= p <= hi <= 12,
            square < 64,
            first_plane(board@, square as int, lo as int, hi as int) == first_plane(
                board@,
                square as int,
                p as int,
                hi as int,
            ),
        decreases hi - p,
    {
        if get_bit(board[p], square) {
            return Some(p);
        }
        p = p + 1;
    }
    None
}

/// Clears square `from` and sets square `to` in plane `p`.
fn shift_piece(board: &mut BoardState, p: usize, from: u8, to: u8)
    requires
        p < 12,
        from < 64,
        to < 64,
    ensures
        final(board).bitboards@ == old(board).bitboards@.update(
            p as int,
            set_sq(clear_sq(old(board).bitboards@[p as int], from as int), to as int),
        ),
        final(board).white_to_move == old(board).white_to_move,
        final(board).rights() == old(board).rights(),
        final(board).en_passant_target == old(board).en_passant_target,
        final(board).white_king_in_check == old(board).white_king_in_check,
        final(board).black_king_in_check == old(board).black_king_in_check,
{
    let mut v = board.bitboards[p];
    clear_bit(&mut v, from);
    set_bit(&mut v, to);
    board.bitboards[p] = v;
}

/// Plays `from`-`to` for the side to move: fails when that side has no piece
/// on `from`; a king moving two files castles.
pub fn make_move(tables: &AttackTables, board: &mut BoardState, from: u8, to: u8) -> (r: Option<Move>)
    requires
        tables.wf(),
        from < 64,
        to < 64,
    ensures
        r == record_of(*old(board), from as int, to as int),
        r is None ==> *final(board) == *old(board),
        r matches Some(m) ==> moved(*old(board), m, *final(board)),
{
    let ghost b0 = *board;
    let previous_castling: CastlingRights = (
        board.white_kingside_castle,
        board.white_queenside_castle,
        board.black_kingside_castle,
        board.black_queenside_castle,
    );
    let start: usize = if board.white_to_move { 0 } else { 6 };
    let moving_piece = match find_plane(&board.bitboards, from, start, start + 6) {
        Some(p) => p,
        None => return None,
    };
    if (moving_piece == WK || moving_piece == BK) && (from as i32 - to as i32 == 2 || to as i32 - from as i32 == 2) {
        return make_castling_move(tables, board, from, to, moving_piece == WK);
    }
    let enemy_start: usize = if board.white_to_move { 6 } else { 0 };
    let captured_piece = find_plane(&board.bitboards, to, enemy_start, enemy_start + 6);
    let mut v = board.bitboards[moving_piece];
    clear_bit(&mut v, from);
    board.bitboards[moving_piece] = v;
    match captured_piece {
        Some(c) => {
            let mut w = board.bitboards[c];
            clear_bit(&mut w, to);
            board.bitboards[c] = w;
        },
        None => {},
    }
    let mut v2 = board.bitboards[moving_piece];
    set_bit(&mut v2, to);
    board.bitboards[moving_piece] = v2;
    if moving_piece == WK || moving_piece == BK {
        board.king_moved(moving_piece == WK);
    } else if moving_piece == WR || moving_piece == BR {
        board.rook_moved(from, moving_piece == WR);
    }
    board.white_to_move = !board.white_to_move;
    board.update_check_status(tables);
    let m = Move {
        from,
        to,
        piece: moving_piece,
        captured_piece,
        promotion: None,
        castling_move: false,
        en_passant: false,
        previous_castling_rights: previous_castling,
        previous_en_passant_target: board.en_passant_target,
    };
    assert(board.bitboards@ =~= planes_after(b0.bitboards@, m));
    Some(m)
}

/// Castles for the given colour towards `to`: king and rook move together,
/// both rights of that colour are revoked and the side to move changes.
pub fn make_castling_move(tables: &AttackTables, board: &mut BoardState, from: u8, to: u8, white: bool) -> (r: Option<Move>)
    requires
        tables.wf(),
        from < 64,
        to < 64,
    ensures
        r == Some(castle_record(*old(board), from as int, to as int, white)),
        moved(*old(board), castle_record(*old(board), from as int, to as int, white), *final(board)),
{
    let ghost b0 = *board;
    let previous_castling: CastlingRights = (
        board.white_kingside_castle,
        board.white_queenside_castle,
        board.black_kingside_castle,
        board.black_queenside_castle,
    );
    let (king_from, king_to, rook_from, rook_to): (u8, u8, u8, u8) = if white {
        if to == 62 {
            (60, 62, 63, 61)
        } else {
            (60, 58, 56, 59)
        }
    } else {
        if to == 6 {
            (4, 6, 7, 5)
        } else {
            (4, 2, 0, 3)
        }
    };
    shift_piece(board, if white { WK } else { BK }, king_from, king_to);
    shift_piece(board, if white { WR } else { BR }, rook_from, rook_to);
    board.king_moved(white);
    board.white_to_move = !board.white_to_move;
    board.update_check_status(tables);
    let m = Move {
        from,
        to,
        piece: if white { WK } else { BK },
        captured_piece: None,
        promotion: None,
        castling_move: true,
        en_passant: false,
        previous_castling_rights: previous_castling,
        previous_en_passant_target: board.en_passant_target,
    };
    assert(board.bitboards@ =~= planes_after(b0.bitboards@, m));
    Some(m)
}

/// Takes back the move recorded by `mv`: the side to move flips back, the
/// piece returns, a captured piece reappears, a castling rook goes home, and
/// the rights, en-passant target and check flags are restored.
pub fn unmake_move(tables: &AttackTables, board: &mut BoardState, mv: &Move)
    requires
        tables.wf(),
        record_ok(*mv),
        mv.piece < 6 <==> !old(board).white_to_move,
    ensures
        unmoved(*old(board), *mv, *final(board)),
{
    let ghost b0 = *board;
    board.white_to_move = !board.white_to_move;
    shift_piece(board, mv.piece, mv.to, mv.from);
    match mv.captured_piece {
        Some(c) => {
            let sq: u8 = if mv.en_passant {
                if board.white_to_move {
                    mv.to + 8
                } else {
                    mv.to - 8
                }
            } else {
                mv.to
            };
            let mut w = board.bitboards[c];
            set_bit(&mut w, sq);
            board.bitboards[c] = w;
        },
        None => {},
    }
    if mv.castling_move {
        if mv.to == 62 {
            shift_piece(board, WR, 61, 63);
        } else if mv.to == 58 {
            shift_piece(board, WR, 59, 56);
        } else if mv.to == 6 {
            shift_piece(board, BR, 5, 7);
        } else if mv.to == 2 {
            shift_piece(board, BR, 3, 0);
        }
    }
    board.white_kingside_castle = mv.previous_castling_rights.0;
    board.white_queenside_castle = mv.previous_castling_rights.1;
    board.black_kingside_castle = mv.previous_castling_rights.2;
    board.black_queenside_castle = mv.previous_castling_rights.3;
    board.en_passant_target = mv.previous_en_passant_target;
    board.update_check_status(tables);
    assert(board.bitboards@ =~= unmake_planes(b0.bitboards@, *mv, !b0.white_to_move));
}

/// The move `from`-`to` touches only squares it can restore: an ordinary
/// move does not land on a square of its own plane; a castling move starts
/// and ends on its colour's king squares and finds its rook at home with the
/// rook's destination free.
pub open spec fn reversible(b: BoardState, from: int, to: int) -> bool {
    match mover_plane(b, from) {
        None => false,
        Some(p) => if is_castling(p as int, from, to) {
            let white = p == 5;
            let sq = castle_squares(white, to);
            let r = if white { 3int } else { 9int };
            &&& from == sq.0
            &&& to == sq.1
            &&& !bit(b.bitboards@[p as int], to)
            &&& bit(b.bitboards@[r], sq.2)
            &&& !bit(b.bitboards@[r], sq.3)
        } else {
            from == to || !bit(b.bitboards@[p as int], to)
        },
    }
}

/// Moving a piece away and back restores its plane.
proof fn lemma_shift_back(x: u64, f: int, t: int)
    requires
        is_square(f),
        is_square(t),
        bit(x, f),
        f == t || !bit(x, t),
    ensures
        set_sq(clear_sq(set_sq(clear_sq(x, f), t), t), f) == x,
{
    let y = set_sq(clear_sq(set_sq(clear_sq(x, f), t), t), f);
    assert forall|s: int| is_square(s) implies #[trigger] bit(y, s) == bit(x, s) by {
        assert(bit(mask(f), s) == (f == s));
        assert(bit(mask(t), s) == (t == s));
    }
    lemma_bits_ext(y, x);
}

/// Removing a piece and putting it back restores its plane.
proof fn lemma_clear_back(x: u64, t: int)
    requires
        is_square(t),
        bit(x, t),
    ensures
        set_sq(clear_sq(x, t), t) == x,
{
    let y = set_sq(clear_sq(x, t), t);
    assert forall|s: int| is_square(s) implies #[trigger] bit(y, s) == bit(x, s) by {
        assert(bit(mask(t), s) == (t == s));
    }
    lemma_bits_ext(y, x);
}

/// Taking back a move restores the exact prior position: all twelve planes,
/// the side to move, the four castling rights, the en-passant target and both
/// check flags.
pub proof fn lemma_make_unmake_round_trip(
    b: BoardState,
    from: int,
    to: int,
    m: Move,
    after: BoardState,
    restored: BoardState,
)
    requires
        b.wf(),
        is_square(from),
        is_square(to),
        reversible(b, from, to),
        record_of(b, from, to) == Some(m),
        moved(b, m, after),
        unmoved(after, m, restored),
    ensures
        restored == b,
{
    broadcast use vstd::array::group_array_axioms;
    let planes = b.bitboards@;
    let w = b.white_to_move;
    let p = mover_plane(b, from)->Some_0 as int;
    crate::utils::lemma_first_plane(planes, from, base(w), base(w) + 6);
    if m.castling_move {
        let white = p == 5;
        let sq = castle_squares(white, to);
        let r = if white { 3int } else { 9int };
        lemma_shift_back(planes[p], from, to);
        lemma_shift_back(planes[r], sq.2, sq.3);
        assert(restored.bitboards@ =~= planes);
    } else {
        lemma_shift_back(planes[p], from, to);
        match m.captured_piece {
            Some(c) => {
                let e = base(!w);
                crate::utils::lemma_first_plane(planes, to, e, e + 6);
                lemma_clear_back(planes[c as int], to);
            },
            None => {},
        }
        assert(restored.bitboards@ =~= planes);
    }
    assert(restored.bitboards =~= b.bitboards);
}

/// Number of pieces on planes `0..n`.
pub open spec fn pieces_upto(b: Seq<u64>, n: int) -> int
    decreases n,
{
    if n <= 0 {
        0
    } else {
        pieces_upto(b, n - 1) + popcount(b[n - 1])
    }
}

/// Number of pieces on the board.
pub open spec fn piece_count(b: Seq<u64>) -> int {
    pieces_upto(b, 12)
}

/// Piece counts are never negative.
pub proof fn lemma_pieces_nonneg(b: Seq<u64>, n: int)
    requires
        0 <= n <= b.len(),
    ensures
        pieces_upto(b, n) >= 0,
    decreases n,
{
    if n > 0 {
        lemma_pieces_nonneg(b, n - 1);
        crate::utils::lemma_popcount_bounds(b[n - 1], 64);
    }
}

/// Clearing a set square removes one from the count of the squares past it.
proof fn lemma_popcount_clear(x: u64, s: int, n: int)
    requires
        is_square(s),
        bit(x, s),
        0 <= n <= 64,
    ensures
        popcount_upto(clear_sq(x, s), n) == popcount_upto(x, n) - if s < n { 1int } else { 0int },
    decreases n,
{
    if n > 0 {
        lemma_popcount_clear(x, s, n - 1);
        assert(bit(mask(s), n - 1) == (s == n - 1));
    }
}

/// Setting a square adds at most one to a count, nothing to one below it.
proof fn lemma_popcount_set(x: u64, s: int, n: int)
    requires
        is_square(s),
        0 <= n <= 64,
    ensures
        popcount_upto(set_sq(x, s), n) <= popcount_upto(x, n) + 1,
        popcount_upto(set_sq(x, s), n) >= popcount_upto(x, n),
        s >= n ==> popcount_upto(set_sq(x, s), n) == popcount_upto(x, n),
    decreases n,
{
    if n > 0 {
        lemma_popcount_set(x, s, n - 1);
        assert(bit(mask(s), n - 1) == (s == n - 1));
    }
}

/// Replacing one plane changes the piece count by that plane's difference.
proof fn lemma_pieces_update(b: Seq<u64>, p: int, v: u64, n: int)
    requires
        0 <= p < b.len(),
        0 <= n <= b.len(),
    ensures
        pieces_upto(b.update(p, v), n) == pieces_upto(b, n) + if p < n {
            popcount(v) - popcount(b[p])
        } else {
            0
        },
    decreases n,
{
    if n > 0 {
        lemma_pieces_update(b, p, v, n - 1);
    }
}

/// A capture lowers the number of pieces on the board.
pub proof fn lemma_capture_shrinks(b: BoardState, from: int, to: int)
    requires
        is_square(from),
        is_square(to),
        record_of(b, from, to) matches Some(m) && m.captured_piece is Some && !m.castling_move,
    ensures
        piece_count(planes_after(b.bitboards@, record_of(b, from, to)->Some_0)) < piece_count(b.bitboards@),
{
    let m = record_of(b, from, to)->Some_0;
    let planes = b.bitboards@;
    let w = b.white_to_move;
    crate::utils::lemma_first_plane(planes, from, base(w), base(w) + 6);
    let e = base(!w);
    crate::utils::lemma_first_plane(planes, to, e, e + 6);
    let p = m.piece as int;
    let c = m.captured_piece->Some_0 as int;
    let x = clear_sq(planes[p], from);
    let lifted = planes.update(p, x);
    let y = clear_sq(lifted[c], to);
    let cleared = lifted.update(c, y);
    let z = set_sq(cleared[p], to);
    lemma_popcount_clear(planes[p], from, 64);
    lemma_popcount_clear(planes[c], to, 64);
    lemma_popcount_set(x, to, 64);
    lemma_pieces_update(planes, p, x, 12);
    lemma_pieces_update(lifted, c, y, 12);
    lemma_pieces_update(cleared, p, z, 12);
}

/// No square holds two pieces.
pub open spec fn exclusive(b: Seq<u64>) -> bool {
    forall|p: int, q: int, s: int|
        0 <= p < 12 && 0 <= q < 12 && p != q && is_square(s) ==> !(#[trigger] bit(b[p], s) && #[trigger] bit(
            b[q],
            s,
        ))
}

/// Every castling right still held has its king and rook at home.
pub open spec fn castling_pieces_home(b: BoardState) -> bool {
    let p = b.bitboards@;
    &&& b.white_kingside_castle ==> bit(p[5], 60) && bit(p[3], 63)
    &&& b.white_queenside_castle ==> bit(p[5], 60) && bit(p[3], 56)
    &&& b.black_kingside_castle ==> bit(p[11], 4) && bit(p[9], 7)
    &&& b.black_queenside_castle ==> bit(p[11], 4) && bit(p[9], 0)
}

/// With planes that never share a square, the plane `first_plane` finds for
/// a square is the only one in range holding it.
proof fn lemma_first_plane_unique(b: Seq<u64>, sq: int, lo: int, hi: int, q: int)
    requires
        b.len() == 12,
        exclusive(b),
        is_square(sq),
        0 <= lo <= q < hi <= 12,
        bit(b[q], sq),
    ensures
        first_plane(b, sq, lo, hi) == Some(q as usize),
{
    crate::utils::lemma_first_plane(b, sq, lo, hi);
    let p = first_plane(b, sq, lo, hi)->Some_0 as int;
    if p != q {
        assert(bit(b[p], sq) && bit(b[q], sq));
    }
}

/// A pseudo-legal move of a position whose planes never share a square and
/// whose castling rights have their pieces at home can be made and taken
/// back exactly.
pub proof fn lemma_pseudo_legal_reversible(b: BoardState, from: int, to: int)
    requires
        exclusive(b.bitboards@),
        castling_pieces_home(b),
        is_square(from),
        is_square(to),
        crate::movegen::pseudo_legal(b.bitboards@, b.rights(), b.white_to_move, from, to),
    ensures
        reversible(b, from, to),
        record_of(b, from, to) is Some,
{
    let planes = b.bitboards@;
    let w = b.white_to_move;
    let o = base(w);
    crate::utils::lemma_occ(planes, to);
    crate::utils::lemma_occ(planes, from);
    // the plane of the moving piece
    let q: int = if crate::movegen::pawn_move(planes, w, from, to) {
        o
    } else if crate::movegen::piece_move(planes, w, 1, from, to) {
        o + 1
    } else if crate::movegen::piece_move(planes, w, 2, from, to) {
        o + 2
    } else if crate::movegen::piece_move(planes, w, 3, from, to) {
        o + 3
    } else if crate::movegen::piece_move(planes, w, 4, from, to) {
        o + 4
    } else {
        o + 5
    };
    if crate::movegen::king_step(planes, w, from, to) && !crate::movegen::pawn_move(planes, w, from, to)
        && !crate::movegen::piece_move(planes, w, 1, from, to) && !crate::movegen::piece_move(planes, w, 2, from, to)
        && !crate::movegen::piece_move(planes, w, 3, from, to) && !crate::movegen::piece_move(planes, w, 4, from, to) {
        crate::utils::lemma_lsb(planes[o + 5]);
    }
    assert(bit(planes[q], from));
    lemma_first_plane_unique(planes, from, o, o + 6, q);
    assert(mover_plane(b, from) == Some(q as usize));
    if !bit(crate::utils::all_occ(planes), to) {
        assert(!bit(planes[q], to));
    } else if bit(crate::movegen::enemy_occ(planes, w), to) {
        let e = choose|e: int| base(!w) <= e < base(!w) + 6 && #[trigger] bit(planes[e], to);
        assert(!bit(planes[q], to));
    } else {
        assert(!bit(crate::movegen::own_occ(planes, w), to));
        assert(!bit(planes[q], to));
    }
}

/// Making any pseudo-legal move of such a position and taking it back gives
/// the position back exactly.
pub proof fn lemma_pseudo_legal_round_trip(b: BoardState, from: int, to: int, after: BoardState, restored: BoardState)
    requires
        b.wf(),
        exclusive(b.bitboards@),
        castling_pieces_home(b),
        is_square(from),
        is_square(to),
        crate::movegen::pseudo_legal(b.bitboards@, b.rights(), b.white_to_move, from, to),
        moved(b, record_of(b, from, to)->Some_0, after),
        unmoved(after, record_of(b, from, to)->Some_0, restored),
    ensures
        record_of(b, from, to) is Some,
        restored == b,
{
    lemma_pseudo_legal_reversible(b, from, to);
    lemma_make_unmake_round_trip(b, from, to, record_of(b, from, to)->Some_0, after, restored);
}

/// A position together with the records of the moves played on it, most
/// recent last, so that they can be taken back in order.
pub struct SearchState {
    pub move_history: Vec<Move>,
    pub board: BoardState,
}

/// Every record can be taken back, and the records alternate colours, the
/// last one belonging to the side that is not to move.
pub open spec fn history_ok(h: Seq<Move>, white_to_move: bool) -> bool {
    forall|i: int|
        0 <= i < h.len() ==> record_ok(#[trigger] h[i]) && ((h[i].piece < 6) == (((h.len() - i) % 2
            == 1) != white_to_move))
}

impl SearchState {
    pub open spec fn wf(&self) -> bool {
        &&& self.board.wf()
        &&& history_ok(self.move_history@, self.board.white_to_move)
    }

    /// A search state on `board` with no moves played yet.
    pub fn new(board: BoardState) -> (r: Self)
        ensures
            r.board == board,
            r.move_history@.len() == 0,
    {
        SearchState { move_history: Vec::new(), board }
    }

    /// Plays `from`-`to` and records it; false, with nothing changed, when
    /// the side to move has no piece on `from`.
    pub fn make_move(&mut self, tables: &AttackTables, from: u8, to: u8) -> (r: bool)
        requires
            tables.wf(),
            old(self).wf(),
            from < 64,
            to < 64,
        ensures
            final(self).wf(),
            r == record_of(old(self).board, from as int, to as int) is Some,
            r ==> moved(
                old(self).board,
                record_of(old(self).board, from as int, to as int)->Some_0,
                final(self).board,
            ) && final(self).move_history@ == old(self).move_history@.push(
                record_of(old(self).board, from as int, to as int)->Some_0,
            ),
            !r ==> final(self).board == old(self).board && final(self).move_history@
                == old(self).move_history@,
    {
        let ghost b0 = self.board;
        proof {
            crate::utils::lemma_first_plane(b0.bitboards@, from as int, base(b0.white_to_move), base(b0.white_to_move) + 6);
            let e = base(!b0.white_to_move);
            crate::utils::lemma_first_plane(b0.bitboards@, to as int, e, e + 6);
        }
        match make_move(tables, &mut self.board, from, to) {
            Some(mv) => {
                let ghost h0 = self.move_history@;
                self.move_history.push(mv);
                assert forall|i: int| 0 <= i < self.move_history@.len() implies record_ok(#[trigger] self.move_history@[i])
                    && ((self.move_history@[i].piece < 6) == (((self.move_history@.len() - i) % 2 == 1)
                    != self.board.white_to_move)) by {
                    if i < h0.len() {
                        assert(self.move_history@[i] == h0[i]);
                    }
                }
                true
            },
            None => false,
        }
    }

    /// Takes back the most recent move; false, with nothing changed, when
    /// no move is recorded.
    pub fn unmake_move(&mut self, tables: &AttackTables) -> (r: bool)
        requires
            tables.wf(),
            old(self).wf(),
        ensures
            final(self).wf(),
            r == (old(self).move_history@.len() > 0),
            r ==> unmoved(old(self).board, old(self).move_history@.last(), final(self).board)
                && final(self).move_history@ == old(self).move_history@.drop_last(),
            !r ==> final(self).board == old(self).board && final(self).move_history@
                == old(self).move_history@,
    {
        let ghost h0 = self.move_history@;
        match self.move_history.pop() {
            Some(mv) => {
                proof {
                    assert(h0[h0.len() - 1] == mv);
                }
                unmake_move(tables, &mut self.board, &mv);
                assert forall|i: int| 0 <= i < self.move_history@.len() implies record_ok(#[trigger] self.move_history@[i])
                    && ((self.move_history@[i].piece < 6) == (((self.move_history@.len() - i) % 2 == 1)
                    != self.board.white_to_move)) by {
                    assert(self.move_history@[i] == h0[i]);
                }
                true
            },
            None => false,
        }
    }
}

} // verus!
