use vstd::prelude::*;
use crate::utils::{
    is_square, occupied_in, get_bit, get_all_black, get_all_white,
    get_piece_at_square, get_piece_value, lemma_occ,
};
use crate::attacks::AttackTables;
use crate::attack_bitboards::{in_check, base};
use crate::board_state::BoardState;
use crate::move_execution::{
    rights_after, moved,
    SearchState, make_move, record_of, planes_after, piece_count, lemma_capture_shrinks,
};
use crate::movegen::{generate_moves, pseudo_legal, moves_ok};
use crate::move_ordering::{
    HISTORY_HEADROOM,
    ThreadSafeHistoryTable, KillerMoves, order_moves, add_killer_move, update_history_score,
    sort_by_score,
};
use crate::transposition_table::{
    TTEntry, stored, recorded_move,
    TranspositionTable, get_best_move_from_tt, probed, scores_within, LOWER, UPPER, EXACT,
};
use crate::zobrist::{ZobristTables, compute_board_hash, board_hash};
use crate::evaluation::{evaluate_board_advanced, evaluation, EVAL_BOUND};

verus! {

/// Half-width of the aspiration window of iterative deepening.
pub const ASPIRATION_WINDOW: i32 = 50;

/// The largest score magnitude of the negamax search: `i32::MAX`, so that
/// `-INF` is `i32::MIN + 1` and every score can be negated.
pub const INF: i32 = 2_147_483_647;

/// Everything a search reads and updates besides the position: attack
/// tables, Zobrist keys, the transposition table and the ordering heuristics.
pub struct Engine {
    pub tables: AttackTables,
    pub zobrist: ZobristTables,
    pub tt: TranspositionTable,
    pub history: ThreadSafeHistoryTable,
    pub killers: KillerMoves,
}

impl Engine {
    pub open spec fn wf(&self) -> bool {
        &&& self.tables.wf()
        &&& self.zobrist.wf()
        &&& self.tt.wf()
        &&& self.history.wf()
        &&& self.killers.wf()
        &&& scores_within(self.tt.entries@, INF as int)
    }

    /// Fresh tables and keys, with a transposition table of about
    /// `tt_size_mb` megabytes.
    pub fn new(tt_size_mb: usize) -> (r: Self)
        requires
            tt_size_mb * 1048576 <= usize::MAX,
        ensures
            r.wf(),
            forall|i: int| 0 <= i < r.tt.size ==> r.tt.entries@[i] is None,
            forall|i: int| 0 <= i < 4096 ==> r.history.table@[i] == 0,
            forall|i: int| 0 <= i < 128 ==> r.killers.slots@[i] is None,
    {
        let tt = TranspositionTable::new(tt_size_mb);
        Engine {
            tables: AttackTables::new(),
            zobrist: ZobristTables::new(),
            tt,
            history: ThreadSafeHistoryTable::new(),
            killers: KillerMoves::new(),
        }
    }
}

/// Playing `from`-`to` does not leave the mover's own king in check.
pub open spec fn legal(b: BoardState, from: int, to: int) -> bool {
    match record_of(b, from, to) {
        Some(m) => !in_check(planes_after(b.bitboards@, m), b.white_to_move),
        None => false,
    }
}

/// A pseudo-legal move of the side to move that passes the legality filter.
pub open spec fn legal_move(b: BoardState, from: int, to: int) -> bool {
    &&& is_square(from)
    &&& is_square(to)
    &&& pseudo_legal(b.bitboards@, b.rights(), b.white_to_move, from, to)
    &&& legal(b, from, to)
}

/// The side to move has a legal move.
pub open spec fn has_legal_move(b: BoardState) -> bool {
    exists|from: int, to: int| legal_move(b, from, to)
}

/// The score of a position without legal moves: mate against White is
/// `i32::MIN + 1`, mate against Black `i32::MAX - 1`, stalemate 0.
pub open spec fn terminal_score(b: BoardState) -> int {
    if b.current_in_check() {
        if b.white_to_move {
            i32::MIN + 1
        } else {
            i32::MAX - 1
        }
    } else {
        0
    }
}

/// The position after the move `from`-`to` of the side to move.
pub open spec fn after(b: BoardState, from: int, to: int) -> BoardState {
    let m = record_of(b, from, to)->Some_0;
    let planes = choose|a: [u64; 12]| #[trigger] a@ == planes_after(b.bitboards@, m);
    let r = rights_after(b.rights(), m);
    BoardState {
        bitboards: planes,
        white_to_move: !b.white_to_move,
        white_kingside_castle: r.0,
        white_queenside_castle: r.1,
        black_kingside_castle: r.2,
        black_queenside_castle: r.3,
        white_king_in_check: in_check(planes@, true),
        black_king_in_check: in_check(planes@, false),
        en_passant_target: b.en_passant_target,
    }
}

/// A position that `make_move` produced is `after`.
proof fn lemma_after(b: BoardState, from: int, to: int, nb: BoardState)
    requires
        record_of(b, from, to) is Some,
        moved(b, record_of(b, from, to)->Some_0, nb),
    ensures
        nb == after(b, from, to),
{
    broadcast use vstd::array::group_array_axioms;
    let m = record_of(b, from, to)->Some_0;
    assert(exists|a: [u64; 12]| #[trigger] a@ == planes_after(b.bitboards@, m)) by {
        assert(nb.bitboards@ == planes_after(b.bitboards@, m));
    }
    let planes = choose|a: [u64; 12]| #[trigger] a@ == planes_after(b.bitboards@, m);
    assert(planes =~= nb.bitboards);
}

/// The minimax value of a position searched `depth` plies deep, from White's
/// side, the player named by `maximizing_player` choosing: the static score
/// at depth 0, the terminal score without legal moves, otherwise the best
/// child value for that player.
pub open spec fn minimax_value(b: BoardState, depth: int, maximizing_player: bool) -> int
    decreases depth, 4097int,
{
    if depth <= 0 {
        evaluation(b.bitboards@)
    } else if !has_legal_move(b) {
        terminal_score(b)
    } else {
        best_child(b, depth, maximizing_player, 4096)
    }
}

/// The best child value among the legal moves numbered below `k` (move
/// `from`-`to` is number `from * 64 + to`), starting from the worst value
/// for the player.
pub open spec fn best_child(b: BoardState, depth: int, maximizing_player: bool, k: int) -> int
    decreases depth, k,
{
    if depth <= 0 || k <= 0 {
        if maximizing_player {
            i32::MIN as int
        } else {
            i32::MAX as int
        }
    } else {
        let prev = best_child(b, depth, maximizing_player, k - 1);
        let f = (k - 1) / 64;
        let t = (k - 1) % 64;
        if legal_move(b, f, t) {
            let v = minimax_value(after(b, f, t), depth - 1, !maximizing_player);
            if maximizing_player {
                if v > prev {
                    v
                } else {
                    prev
                }
            } else {
                if v < prev {
                    v
                } else {
                    prev
                }
            }
        } else {
            prev
        }
    }
}

/// The value of the child reached by the move `m`.
pub open spec fn child_value(b: BoardState, depth: int, maximizing_player: bool, m: (u8, u8)) -> int {
    minimax_value(after(b, m.0 as int, m.1 as int), depth - 1, !maximizing_player)
}

/// Static scores stay within `-EVAL_BOUND..=EVAL_BOUND`.
proof fn lemma_evaluation_bounds(b: Seq<u64>)
    requires
        b.len() == 12,
    ensures
        -EVAL_BOUND <= evaluation(b) <= EVAL_BOUND,
{
    assert forall|s: int, n: int| 0 <= n <= 12 implies -1100 * n <= #[trigger] crate::evaluation::square_score(
        b,
        s,
        n,
        true,
    ) <= 1100 * n by {
        lemma_square_score_bounds(b, s, n);
    }
    lemma_score_upto_bounds(b, 64);
}

proof fn lemma_square_score_bounds(b: Seq<u64>, s: int, n: int)
    requires
        0 <= n <= 12,
    ensures
        -1100 * n <= crate::evaluation::square_score(b, s, n, true) <= 1100 * n,
    decreases n,
{
    if n > 0 {
        lemma_square_score_bounds(b, s, n - 1);
    }
}

proof fn lemma_score_upto_bounds(b: Seq<u64>, n: int)
    requires
        0 <= n <= 64,
        forall|s: int, k: int| 0 <= k <= 12 ==> -1100 * k <= #[trigger] crate::evaluation::square_score(
            b,
            s,
            k,
            true,
        ) <= 1100 * k,
    ensures
        -13200 * n <= crate::evaluation::score_upto(b, n, true) <= 13200 * n,
    decreases n,
{
    if n > 0 {
        lemma_score_upto_bounds(b, n - 1);
        assert(-13200 <= crate::evaluation::square_score(b, n - 1, 12, true) <= 13200);
    }
}

/// Minimax values are `i32` values.
proof fn lemma_minimax_bounds(b: BoardState, depth: int, maximizing_player: bool)
    ensures
        i32::MIN <= minimax_value(b, depth, maximizing_player) <= i32::MAX,
    decreases depth, 4097int,
{
    if depth <= 0 {
        lemma_evaluation_bounds(b.bitboards@);
    } else if has_legal_move(b) {
        lemma_best_child(b, depth, maximizing_player, 4096);
    }
}

/// What `best_child` is: no counted legal move's child is better, and it is
/// the worst value or some counted legal move's child value.
proof fn lemma_best_child(b: BoardState, depth: int, maximizing_player: bool, k: int)
    requires
        depth > 0,
        0 <= k <= 4096,
    ensures
        i32::MIN <= best_child(b, depth, maximizing_player, k) <= i32::MAX,
        forall|f: int, t: int|
            0 <= f < 64 && 0 <= t < 64 && f * 64 + t < k && legal_move(b, f, t) ==> no_worse(
                maximizing_player,
                best_child(b, depth, maximizing_player, k),
                minimax_value(after(b, f, t), depth - 1, !maximizing_player),
            ),
        best_child(b, depth, maximizing_player, k) == (if maximizing_player {
            i32::MIN as int
        } else {
            i32::MAX as int
        }) || exists|f: int, t: int|
            0 <= f < 64 && 0 <= t < 64 && legal_move(b, f, t) && best_child(b, depth, maximizing_player, k)
                == minimax_value(after(b, f, t), depth - 1, !maximizing_player),
    decreases depth, k,
{
    if k > 0 {
        lemma_best_child(b, depth, maximizing_player, k - 1);
        let f0 = (k - 1) / 64;
        let t0 = (k - 1) % 64;
        assert(f0 * 64 + t0 == k - 1);
        if legal_move(b, f0, t0) {
            lemma_minimax_bounds(after(b, f0, t0), depth - 1, !maximizing_player);
        }
        assert forall|f: int, t: int|
            0 <= f < 64 && 0 <= t < 64 && f * 64 + t < k && legal_move(b, f, t) implies no_worse(
            maximizing_player,
            best_child(b, depth, maximizing_player, k),
            minimax_value(after(b, f, t), depth - 1, !maximizing_player),
        ) by {
            if f * 64 + t == k - 1 {
                assert(f == f0 && t == t0);
            }
        }
    }
}

/// The minimax value of a position with legal moves is its best child value:
/// no legal move's child is better, and some legal move's child has it.
proof fn lemma_minimax_best(b: BoardState, depth: int, maximizing_player: bool)
    requires
        depth > 0,
        has_legal_move(b),
    ensures
        forall|f: int, t: int| legal_move(b, f, t) ==> no_worse(
            maximizing_player,
            minimax_value(b, depth, maximizing_player),
            minimax_value(after(b, f, t), depth - 1, !maximizing_player),
        ),
        exists|f: int, t: int| legal_move(b, f, t) && minimax_value(b, depth, maximizing_player) == minimax_value(
            after(b, f, t),
            depth - 1,
            !maximizing_player,
        ),
{
    lemma_best_child(b, depth, maximizing_player, 4096);
    let v = minimax_value(b, depth, maximizing_player);
    let (f, t) = choose|f: int, t: int| legal_move(b, f, t);
    lemma_minimax_bounds(after(b, f, t), depth - 1, !maximizing_player);
    if v == (if maximizing_player { i32::MIN as int } else { i32::MAX as int }) {
        if !(exists|f: int, t: int| legal_move(b, f, t) && v == minimax_value(after(b, f, t), depth - 1, !maximizing_player)) {
            assert(no_worse(maximizing_player, v, minimax_value(after(b, f, t), depth - 1, !maximizing_player)));
            assert(v == minimax_value(after(b, f, t), depth - 1, !maximizing_player));
        }
    }
}

/// The fail-soft alpha-beta relation between a search result `r` and the
/// true value `v` in the window `alpha..beta`: a result at or below `alpha`
/// bounds `v` from above, one at or above `beta` from below, and one inside
/// the window is `v`.
pub open spec fn fail_soft(r: int, v: int, alpha: int, beta: int) -> bool {
    &&& r <= alpha ==> v <= r
    &&& r >= beta ==> v >= r
    &&& alpha < r < beta ==> r == v
}

/// Whether `from`-`to` leaves the mover's own king out of check, judged by
/// playing it on a copy of the position.
pub fn is_move_legal_fast(tables: &AttackTables, board: &BoardState, from: u8, to: u8) -> (r: bool)
    requires
        tables.wf(),
        from < 64,
        to < 64,
    ensures
        r == legal(*board, from as int, to as int),
{
    let mut board_copy = *board;
    if make_move(tables, &mut board_copy, from, to).is_none() {
        return false;
    }
    if board.white_to_move {
        !board_copy.white_king_in_check
    } else {
        !board_copy.black_king_in_check
    }
}

/// Every legal move of the side to move.
pub fn legal_moves(tables: &AttackTables, board: &BoardState) -> (r: Vec<(u8, u8)>)
    requires
        tables.wf(),
    ensures
        moves_ok(r@),
        forall|m: (u8, u8)| #[trigger] r@.contains(m) == legal_move(*board, m.0 as int, m.1 as int),
{
    let all = generate_moves(tables, board.bitboards, board.white_to_move, board);
    let mut found: Vec<(u8, u8)> = Vec::new();
    let mut i: usize = 0;
    while i < all.len()
        invariant
            i <= all@.len(),
            tables.wf(),
            moves_ok(all@),
            moves_ok(found@),
            forall|m: (u8, u8)|
                #[trigger] found@.contains(m) == (all@.take(i as int).contains(m) && legal(
                    *board,
                    m.0 as int,
                    m.1 as int,
                )),
        decreases all@.len() - i,
    {
        let (from, to) = all[i];
        let ok = is_move_legal_fast(tables, board, from, to);
        let ghost before = found@;
        if ok {
            found.push((from, to));
        }
        proof {
            assert forall|m: (u8, u8)| #[trigger] found@.contains(m) == (all@.take(i + 1).contains(m) && legal(
                *board,
                m.0 as int,
                m.1 as int,
            )) by {
                assert(all@.take(i + 1) =~= all@.take(i as int).push((from, to)));
                crate::movegen::lemma_push_contains(all@.take(i as int), (from, to), m);
                if ok {
                    crate::movegen::lemma_push_contains(before, (from, to), m);
                }
            }
        }
        i = i + 1;
    }
    proof {
        assert(all@.take(all@.len() as int) =~= all@);
    }
    found
}

/// An entry of two lists joined is an entry of one of them.
pub proof fn lemma_concat_contains(a: Seq<(u8, u8)>, b: Seq<(u8, u8)>, m: (u8, u8))
    ensures
        (a + b).contains(m) == (a.contains(m) || b.contains(m)),
{
    let c = a + b;
    if a.contains(m) {
        let i = choose|i: int| 0 <= i < a.len() && a[i] == m;
        assert(c[i] == m);
    }
    if b.contains(m) {
        let j = choose|j: int| 0 <= j < b.len() && b[j] == m;
        assert(c[a.len() + j] == m);
    }
    if c.contains(m) {
        let k = choose|k: int| 0 <= k < c.len() && c[k] == m;
        if k < a.len() {
            assert(a[k] == m);
        } else {
            assert(b[k - a.len()] == m);
        }
    }
}

/// The position has a legal move exactly when the list of legal moves is
/// not empty.
proof fn lemma_legal_list(b: BoardState, legal: Seq<(u8, u8)>)
    requires
        forall|m: (u8, u8)| #[trigger] legal.contains(m) == legal_move(b, m.0 as int, m.1 as int),
    ensures
        has_legal_move(b) == (legal.len() > 0),
{
    if has_legal_move(b) {
        let (f, t) = choose|f: int, t: int| legal_move(b, f, t);
        assert(legal.contains((f as u8, t as u8)));
    }
    if legal.len() > 0 {
        assert(legal.contains(legal[0]));
        assert(legal_move(b, legal[0].0 as int, legal[0].1 as int));
    }
}

/// The terminal score of the position, from its check flags.
fn terminal_value(board: &BoardState) -> (r: i32)
    ensures
        r == terminal_score(*board),
{
    if board.is_current_king_in_check() {
        if board.white_to_move {
            i32::MIN + 1
        } else {
            i32::MAX - 1
        }
    } else {
        0
    }
}

/// Depth-limited minimax with alpha-beta pruning, scores from White's side:
/// at depth 0 the static score; without legal moves the terminal score;
/// otherwise the best child score for the player to move, White maximising.
/// With `alpha < beta` the result stands to `minimax_value` as fail-soft
/// alpha-beta does: equal inside the window, an upper bound at or below
/// `alpha`, a lower bound at or above `beta`. The search state comes back
/// unchanged.
pub fn minimax(
    engine: &Engine,
    search_state: &mut SearchState,
    depth: i32,
    alpha: i32,
    beta: i32,
    maximizing_player: bool,
) -> (r: i32)
    requires
        engine.wf(),
        old(search_state).wf(),
        depth >= 0,
    ensures
        final(search_state).wf(),
        depth == 0 ==> r == evaluation(old(search_state).board.bitboards@),
        final(search_state).board == old(search_state).board,
        final(search_state).move_history@ == old(search_state).move_history@,
        depth == 0 ==> -EVAL_BOUND <= r <= EVAL_BOUND,
        depth > 0 && !has_legal_move(old(search_state).board) ==> r == terminal_score(old(search_state).board),
        alpha < beta ==> fail_soft(r as int, minimax_value(old(search_state).board, depth as int, maximizing_player), alpha as int, beta as int),
    decreases depth,
{
    if depth == 0 {
        return evaluate_board_advanced(&search_state.board);
    }
    let legal = legal_moves(&engine.tables, &search_state.board);
    proof {
        lemma_legal_list(search_state.board, legal@);
    }
    if legal.len() == 0 {
        return terminal_value(&search_state.board);
    }
    let ordered = order_moves(
        &engine.zobrist,
        &engine.tt,
        &engine.killers,
        &engine.history,
        &search_state.board,
        legal.as_slice(),
    );
    let ghost b0 = search_state.board;
    let ghost h0 = search_state.move_history@;
    let ghost alpha0 = alpha;
    let ghost beta0 = beta;
    let ghost valid = alpha < beta;
    proof {
        lemma_minimax_best(b0, depth as int, maximizing_player);
    }
    let mut lo = alpha;
    let mut hi = beta;
    let mut best: i32 = if maximizing_player { i32::MIN } else { i32::MAX };
    let mut i: usize = 0;
    while i < ordered.len()
        invariant
            engine.wf(),
            search_state.wf(),
            depth > 0,
            moves_ok(legal@),
            i <= ordered@.len(),
            forall|k: int| 0 <= k < ordered@.len() ==> legal@.contains(((#[trigger] ordered@[k]).1, ordered@[k].2)),
            forall|m: (u8, u8)| #[trigger] legal@.contains(m) == legal_move(b0, m.0 as int, m.1 as int),
            search_state.board == b0,
            search_state.move_history@ == h0,
            b0 == old(search_state).board,
            h0 == old(search_state).move_history@,
            valid == (alpha0 < beta0),
            alpha0 == alpha,
            beta0 == beta,
            valid ==> lo < hi,
            valid && maximizing_player ==> hi == beta0 && lo == (if best > alpha0 { best } else { alpha0 })
                && best < beta0,
            valid && !maximizing_player ==> lo == alpha0 && hi == (if best < beta0 { best } else { beta0 })
                && best > alpha0,
            valid ==> forall|k: int|
                0 <= k < i ==> #[trigger] no_worse(maximizing_player, best as int, child_value(
                    b0,
                    depth as int,
                    maximizing_player,
                    (ordered@[k].1, ordered@[k].2),
                )),
            valid && maximizing_player && best > alpha0 ==> exists|k: int|
                0 <= k < i && best == child_value(b0, depth as int, maximizing_player, (ordered@[k].1, ordered@[k].2)),
            valid && !maximizing_player && best < beta0 ==> exists|k: int|
                0 <= k < i && best == child_value(b0, depth as int, maximizing_player, (ordered@[k].1, ordered@[k].2)),
        decreases ordered@.len() - i,
    {
        let (_, from, to) = ordered[i];
        proof {
            let j = choose|j: int| 0 <= j < legal@.len() && legal@[j] == (from, to);
            assert((ordered@[i as int].1, ordered@[i as int].2) == (from, to));
        }
        let saved = search_state.board;
        search_state.make_move(&engine.tables, from, to);
        proof {
            lemma_after(b0, from as int, to as int, search_state.board);
        }
        let value = minimax(engine, search_state, depth - 1, lo, hi, !maximizing_player);
        search_state.unmake_move(&engine.tables);
        // unmake cannot bring back a rook captured on its corner while its
        // castling right was still held; the saved copy makes the restore exact
        search_state.board = saved;
        let ghost old_best = best;
        let ghost old_alpha = lo;
        let ghost old_beta = hi;
        let ghost cv = child_value(b0, depth as int, maximizing_player, (from, to));
        if maximizing_player {
            if value > best {
                best = value;
            }
            if value > lo {
                lo = value;
            }
        } else {
            if value < best {
                best = value;
            }
            if value < hi {
                hi = value;
            }
        }
        if hi <= lo {
            proof {
                if valid {
                    assert(fail_soft(value as int, cv, old_alpha as int, old_beta as int));
                    assert(legal_move(b0, from as int, to as int));
                    assert(has_legal_move(b0));
                    lemma_minimax_best(b0, depth as int, maximizing_player);
                    assert(no_worse(maximizing_player, minimax_value(b0, depth as int, maximizing_player), cv));
                }
            }
            return best;
        }
        proof {
            if valid {
                assert(fail_soft(value as int, cv, old_alpha as int, old_beta as int));
                assert(legal_move(b0, from as int, to as int));
                assert forall|k: int| 0 <= k < i + 1 implies #[trigger] no_worse(maximizing_player, best as int, child_value(
                    b0,
                    depth as int,
                    maximizing_player,
                    (ordered@[k].1, ordered@[k].2),
                )) by {
                    if k < i {
                        assert(no_worse(maximizing_player, old_best as int, child_value(
                            b0,
                            depth as int,
                            maximizing_player,
                            (ordered@[k].1, ordered@[k].2),
                        )));
                    }
                }
                if maximizing_player && best > alpha0 && best != old_best {
                    assert(best == child_value(b0, depth as int, maximizing_player, (ordered@[i as int].1, ordered@[i as int].2)));
                }
                if !maximizing_player && best < beta0 && best != old_best {
                    assert(best == child_value(b0, depth as int, maximizing_player, (ordered@[i as int].1, ordered@[i as int].2)));
                }
            }
        }
        i = i + 1;
    }
    proof {
        if valid {
            let v = minimax_value(b0, depth as int, maximizing_player);
            let (f, t) = choose|f: int, t: int| legal_move(b0, f, t) && v == minimax_value(
                after(b0, f, t),
                depth - 1,
                !maximizing_player,
            );
            assert(legal@.contains((f as u8, t as u8)));
            let k = choose|k: int| 0 <= k < ordered@.len() && ordered@[k].1 == f as u8 && ordered@[k].2 == t as u8;
            assert(no_worse(maximizing_player, best as int, child_value(
                b0,
                depth as int,
                maximizing_player,
                (ordered@[k].1, ordered@[k].2),
            )));
            if maximizing_player && best > alpha0 {
                let k2 = choose|k2: int|
                    0 <= k2 < i && best == child_value(b0, depth as int, maximizing_player, (ordered@[k2].1, ordered@[k2].2));
                assert(legal@.contains((ordered@[k2].1, ordered@[k2].2)));
            }
            if !maximizing_player && best < beta0 {
                let k2 = choose|k2: int|
                    0 <= k2 < i && best == child_value(b0, depth as int, maximizing_player, (ordered@[k2].1, ordered@[k2].2));
                assert(legal@.contains((ordered@[k2].1, ordered@[k2].2)));
            }
        }
    }
    best
}

/// Searches every legal move of the position to `depth` plies (at least one)
/// and returns the best for the side to move, the first found among equals;
/// `None` exactly when there is no legal move (mate or stalemate, told apart
/// by the check flag). The move returned has the best minimax value, its
/// child searched `depth - 1` plies, among all the legal moves.
pub fn find_best_move(engine: &Engine, board_state: &BoardState, depth: u8) -> (r: Option<(u8, u8)>)
    requires
        engine.wf(),
        board_state.wf(),
    ensures
        r is None <==> !has_legal_move(*board_state),
        r matches Some(m) ==> legal_move(*board_state, m.0 as int, m.1 as int),
        r matches Some(m) ==> best_root_move(*board_state, root_depth(depth), m),
{
    let ghost b0 = *board_state;
    let mut search_state = SearchState::new(*board_state);
    let legal = legal_moves(&engine.tables, board_state);
    proof {
        lemma_legal_list(*board_state, legal@);
    }
    if legal.len() == 0 {
        return None;
    }
    let ordered = order_moves(
        &engine.zobrist,
        &engine.tt,
        &engine.killers,
        &engine.history,
        &search_state.board,
        legal.as_slice(),
    );
    let child_depth: i32 = if depth == 0 { 0 } else { depth as i32 - 1 };
    let ghost cd = root_depth(depth);
    let mut best_move: Option<(u8, u8)> = None;
    let mut best_value: i32 = if board_state.white_to_move { i32::MIN } else { i32::MAX };
    let mut i: usize = 0;
    while i < ordered.len()
        invariant
            engine.wf(),
            search_state.wf(),
            b0 == *board_state,
            search_state.board == b0,
            child_depth >= 0,
            child_depth == cd,
            moves_ok(legal@),
            ordered@.len() == legal@.len(),
            i <= ordered@.len(),
            forall|k: int| 0 <= k < ordered@.len() ==> legal@.contains(((#[trigger] ordered@[k]).1, ordered@[k].2)),
            forall|m: (u8, u8)| #[trigger] legal@.contains(m) == legal_move(b0, m.0 as int, m.1 as int),
            forall|m: (u8, u8)|
                #[trigger] legal@.contains(m) ==> exists|k: int|
                    0 <= k < ordered@.len() && ordered@[k].1 == m.0 && ordered@[k].2 == m.1,
            i > 0 ==> best_move is Some,
            best_move matches Some(m) ==> legal_move(b0, m.0 as int, m.1 as int),
            best_move matches Some(m) ==> best_value == root_value(b0, cd, m),
            forall|k: int|
                0 <= k < i ==> #[trigger] no_worse(b0.white_to_move, best_value as int, root_value(
                    b0,
                    cd,
                    (ordered@[k].1, ordered@[k].2),
                )),
        decreases ordered@.len() - i,
    {
        let (_, from, to) = ordered[i];
        proof {
            assert(legal@.contains((from, to)));
            let j = choose|j: int| 0 <= j < legal@.len() && legal@[j] == (from, to);
        }
        let saved = search_state.board;
        search_state.make_move(&engine.tables, from, to);
        proof {
            lemma_after(b0, from as int, to as int, search_state.board);
            lemma_minimax_bounds(search_state.board, child_depth as int, !board_state.white_to_move);
        }
        let value = minimax(engine, &mut search_state, child_depth, i32::MIN, i32::MAX, !board_state.white_to_move);
        search_state.unmake_move(&engine.tables);
        search_state.board = saved;
        proof {
            assert(value == root_value(b0, cd, (from, to)));
        }
        let ghost old_best = best_value;
        let better = if board_state.white_to_move { value > best_value } else { value < best_value };
        if better || best_move.is_none() {
            best_value = value;
            best_move = Some((from, to));
        }
        proof {
            assert forall|k: int| 0 <= k < i + 1 implies #[trigger] no_worse(
                b0.white_to_move,
                best_value as int,
                root_value(b0, cd, (ordered@[k].1, ordered@[k].2)),
            ) by {
                if k < i {
                    assert(no_worse(b0.white_to_move, old_best as int, root_value(b0, cd, (ordered@[k].1, ordered@[k].2))));
                } else {
                    assert((ordered@[k].1, ordered@[k].2) == (from, to));
                }
            }
        }
        i = i + 1;
    }
    proof {
        let m = best_move->Some_0;
        assert forall|f: int, t: int| legal_move(b0, f, t) implies no_worse(
            b0.white_to_move,
            root_value(b0, cd, m),
            root_value(b0, cd, (f as u8, t as u8)),
        ) by {
            assert(legal@.contains((f as u8, t as u8)));
            let k = choose|k: int| 0 <= k < ordered@.len() && ordered@[k].1 == f as u8 && ordered@[k].2 == t as u8;
            assert(no_worse(b0.white_to_move, best_value as int, root_value(b0, cd, (ordered@[k].1, ordered@[k].2))));
        }
    }
    best_move
}

/// The depth the children of the root are searched to.
pub open spec fn root_depth(depth: u8) -> int {
    if depth == 0 {
        0
    } else {
        depth - 1
    }
}

/// The minimax value of the child the move `m` leads to, searched `d` plies.
pub open spec fn root_value(b: BoardState, d: int, m: (u8, u8)) -> int {
    minimax_value(after(b, m.0 as int, m.1 as int), d, !b.white_to_move)
}

/// `m` has the best minimax value for the side to move among all the legal
/// moves, its child searched `d` plies.
pub open spec fn best_root_move(b: BoardState, d: int, m: (u8, u8)) -> bool {
    forall|f: int, t: int|
        legal_move(b, f, t) ==> no_worse(b.white_to_move, root_value(b, d, m), root_value(b, d, (f as u8, t as u8)))
}

/// `v` is at least as good as `s` for the maximising player, at most as
/// good for the minimising one.
pub open spec fn no_worse(maximizing_player: bool, v: int, s: int) -> bool {
    if maximizing_player {
        v >= s
    } else {
        v <= s
    }
}

/// The static score from the side of the player named by `maximizing_player`
/// (White when it holds).
pub open spec fn stand_pat(b: BoardState, maximizing_player: bool) -> int {
    if maximizing_player {
        evaluation(b.bitboards@)
    } else {
        -evaluation(b.bitboards@)
    }
}

/// `to` holds a piece of the side not to move.
pub open spec fn is_capture(b: BoardState, to: int) -> bool {
    occupied_in(b.bitboards@, to, base(!b.white_to_move), base(!b.white_to_move) + 6)
}

/// The side to move has a legal capture.
pub open spec fn has_capture(b: BoardState) -> bool {
    exists|from: int, to: int| legal_move(b, from, to) && is_capture(b, to)
}

/// Without a legal capture, the list of legal captures is empty.
proof fn lemma_no_capture_empty(b: BoardState, captures: Seq<(u8, u8)>)
    requires
        forall|m: (u8, u8)|
            #[trigger] captures.contains(m) == (legal_move(b, m.0 as int, m.1 as int) && is_capture(b, m.1 as int)),
        !has_capture(b),
    ensures
        captures.len() == 0,
{
    if captures.len() > 0 {
        assert(captures.contains(captures[0]));
        let m = captures[0];
        assert(legal_move(b, m.0 as int, m.1 as int) && is_capture(b, m.1 as int));
    }
}

/// Every legal move of the side to move that captures an enemy piece.
fn generate_capture_moves(tables: &AttackTables, search_state: &SearchState) -> (r: Vec<(u8, u8)>)
    requires
        tables.wf(),
    ensures
        moves_ok(r@),
        forall|m: (u8, u8)|
            #[trigger] r@.contains(m) == (legal_move(search_state.board, m.0 as int, m.1 as int) && is_capture(
                search_state.board,
                m.1 as int,
            )),
{
    let board = &search_state.board;
    let all = legal_moves(tables, board);
    let enemy = if board.white_to_move { get_all_black(board.bitboards) } else { get_all_white(board.bitboards) };
    let mut captures: Vec<(u8, u8)> = Vec::new();
    let mut i: usize = 0;
    while i < all.len()
        invariant
            i <= all@.len(),
            moves_ok(all@),
            moves_ok(captures@),
            forall|m: (u8, u8)| #[trigger] all@.contains(m) == legal_move(*board, m.0 as int, m.1 as int),
            enemy == crate::movegen::enemy_occ(board.bitboards@, board.white_to_move),
            forall|m: (u8, u8)|
                #[trigger] captures@.contains(m) == (all@.take(i as int).contains(m) && is_capture(*board, m.1 as int)),
        decreases all@.len() - i,
    {
        let (from, to) = all[i];
        proof {
            lemma_occ(board.bitboards@, to as int);
        }
        let hit = get_bit(enemy, to);
        let ghost before = captures@;
        if hit {
            captures.push((from, to));
        }
        proof {
            assert forall|m: (u8, u8)|
                #[trigger] captures@.contains(m) == (all@.take(i + 1).contains(m) && is_capture(*board, m.1 as int)) by {
                assert(all@.take(i + 1) =~= all@.take(i as int).push((from, to)));
                crate::movegen::lemma_push_contains(all@.take(i as int), (from, to), m);
                if hit {
                    crate::movegen::lemma_push_contains(before, (from, to), m);
                }
            }
        }
        i = i + 1;
    }
    proof {
        assert(all@.take(all@.len() as int) =~= all@);
    }
    captures
}

/// Plays `from`-`to` on a copy of `board` and, when it captured, searches
/// the reply by quiescence; the copy bounds the recursion by the number of
/// pieces on `board`. Returns the score from the mover's side, within
/// `alpha..=beta`.
fn quiescence_child(
    engine: &Engine,
    board: &BoardState,
    from: u8,
    to: u8,
    alpha: i32,
    beta: i32,
    maximizing_player: bool,
    ordered: bool,
) -> (r: i32)
    requires
        engine.wf(),
        board.wf(),
        from < 64,
        to < 64,
        -INF <= alpha <= beta <= INF,
    ensures
        alpha <= r <= beta,
        r == alpha || r <= EVAL_BOUND,
    decreases piece_count(board.bitboards@), 0int,
{
    let mut child = SearchState::new(*board);
    if !child.make_move(&engine.tables, from, to) {
        return alpha;
    }
    let last = child.move_history.len() - 1;
    let capture = child.move_history[last].captured_piece.is_some() && !child.move_history[last].castling_move;
    if !capture {
        return alpha;
    }
    proof {
        assert(child.move_history@[last as int] == record_of(*board, from as int, to as int)->Some_0);
        lemma_capture_shrinks(*board, from as int, to as int);
        assert(piece_count(child.board.bitboards@) < piece_count(board.bitboards@));
        crate::move_execution::lemma_pieces_nonneg(child.board.bitboards@, 12);
    }
    let score = if ordered {
        quiescence_search_enhanced(engine, &mut child, -beta, -alpha, !maximizing_player)
    } else {
        quiescence_search(engine, &mut child, -beta, -alpha, !maximizing_player)
    };
    -score
}

/// Quiescence search over captures, fail-hard: the side named by
/// `maximizing_player` may stand pat on the static score; each legal capture
/// is searched with the window negated. The result is `beta` on a cutoff and
/// otherwise at least the larger of `alpha` and the stand-pat score.
pub fn quiescence_search(
    engine: &Engine,
    search_state: &mut SearchState,
    alpha: i32,
    beta: i32,
    maximizing_player: bool,
) -> (r: i32)
    requires
        engine.wf(),
        old(search_state).wf(),
        -INF <= alpha <= beta <= INF,
    ensures
        final(search_state).wf(),
        alpha <= r <= beta,
        stand_pat(old(search_state).board, maximizing_player) >= beta ==> r == beta,
        r == beta || r >= stand_pat(old(search_state).board, maximizing_player),
        *final(search_state) == *old(search_state),
        r <= (if alpha > EVAL_BOUND { alpha } else { EVAL_BOUND }),
        r == beta || r >= -EVAL_BOUND,
        !has_capture(old(search_state).board) && stand_pat(old(search_state).board, maximizing_player) < beta
            ==> r == if stand_pat(old(search_state).board, maximizing_player) > alpha {
            stand_pat(old(search_state).board, maximizing_player)
        } else {
            alpha as int
        },
    decreases piece_count(search_state.board.bitboards@), 1int,
{
    let ghost b0 = search_state.board;
    let eval = evaluate_board_advanced(&search_state.board);
    let stand = if maximizing_player { eval } else { -eval };
    if stand >= beta {
        return beta;
    }
    let mut a = alpha;
    if stand > a {
        a = stand;
    }
    let captures = generate_capture_moves(&engine.tables, search_state);
    proof {
        if !has_capture(b0) {
            lemma_no_capture_empty(b0, captures@);
        }
    }
    let mut i: usize = 0;
    while i < captures.len()
        invariant
            engine.wf(),
            search_state.wf(),
            *search_state == *old(search_state),
            search_state.board == b0,
            b0 == old(search_state).board,
            !has_capture(b0) ==> captures@.len() == 0 && a == (if stand > alpha { stand } else { alpha }),
            i <= captures@.len(),
            moves_ok(captures@),
            stand <= a <= beta <= INF,
            a <= (if alpha > EVAL_BOUND { alpha } else { EVAL_BOUND }),
            -EVAL_BOUND <= stand <= EVAL_BOUND,
            -INF <= alpha <= a,
            stand == stand_pat(b0, maximizing_player),
        decreases captures@.len() - i,
    {
        let (from, to) = captures[i];
        let score = quiescence_child(engine, &search_state.board, from, to, a, beta, maximizing_player, false);
        if score >= beta {
            return beta;
        }
        if score > a {
            a = score;
        }
        i = i + 1;
    }
    a
}

/// `minimax`, except that depth 0 is resolved by `quiescence_search` for the
/// side to move instead of the static score.
pub fn minimax_with_quiescence(
    engine: &Engine,
    search_state: &mut SearchState,
    depth: i32,
    alpha: i32,
    beta: i32,
    maximizing_player: bool,
) -> (r: i32)
    requires
        engine.wf(),
        old(search_state).wf(),
        depth >= 0,
        depth == 0 ==> -INF <= alpha <= beta <= INF,
    ensures
        final(search_state).wf(),
        depth == 0 ==> alpha <= r <= beta && (r == beta || r >= stand_pat(
            old(search_state).board,
            old(search_state).board.white_to_move,
        )),
        depth > 0 && !has_legal_move(old(search_state).board) ==> r == terminal_score(old(search_state).board),
        depth > 0 && alpha < beta ==> fail_soft(
            r as int,
            minimax_value(old(search_state).board, depth as int, maximizing_player),
            alpha as int,
            beta as int,
        ),
        final(search_state).board == old(search_state).board,
{
    if depth == 0 {
        let maximizing = search_state.board.white_to_move;
        return quiescence_search(engine, search_state, alpha, beta, maximizing);
    }
    minimax(engine, search_state, depth, alpha, beta, maximizing_player)
}

/// Quiescence search over captures, tried in MVV-LVA order, fail-hard: the
/// same contract as `quiescence_search`.
pub fn quiescence_search_enhanced(
    engine: &Engine,
    search_state: &mut SearchState,
    alpha: i32,
    beta: i32,
    maximizing_player: bool,
) -> (r: i32)
    requires
        engine.wf(),
        old(search_state).wf(),
        -INF <= alpha <= beta <= INF,
    ensures
        final(search_state).wf(),
        alpha <= r <= beta,
        stand_pat(old(search_state).board, maximizing_player) >= beta ==> r == beta,
        r == beta || r >= stand_pat(old(search_state).board, maximizing_player),
        *final(search_state) == *old(search_state),
        r <= (if alpha > EVAL_BOUND { alpha } else { EVAL_BOUND }),
        r == beta || r >= -EVAL_BOUND,
        !has_capture(old(search_state).board) && stand_pat(old(search_state).board, maximizing_player) < beta
            ==> r == if stand_pat(old(search_state).board, maximizing_player) > alpha {
            stand_pat(old(search_state).board, maximizing_player)
        } else {
            alpha as int
        },
    decreases piece_count(search_state.board.bitboards@), 1int,
{
    let ghost b0 = search_state.board;
    let eval = evaluate_board_advanced(&search_state.board);
    let stand = if maximizing_player { eval } else { -eval };
    if stand >= beta {
        return beta;
    }
    let mut a = alpha;
    if stand > a {
        a = stand;
    }
    let captures = generate_capture_moves(&engine.tables, search_state);
    proof {
        if !has_capture(b0) {
            lemma_no_capture_empty(b0, captures@);
        }
    }
    let mut keyed: Vec<(i32, u8, u8)> = Vec::new();
    let mut k: usize = 0;
    while k < captures.len()
        invariant
            k <= captures@.len(),
            keyed@.len() == k,
            moves_ok(captures@),
            forall|j: int| 0 <= j < keyed@.len() ==> (#[trigger] keyed@[j]).1 < 64 && keyed@[j].2 < 64,
        decreases captures@.len() - k,
    {
        let (from, to) = captures[k];
        let mut key: i32 = 0;
        if let Some(victim) = get_piece_at_square(&search_state.board.bitboards, to) {
            let aggressor = match get_piece_at_square(&search_state.board.bitboards, from) {
                Some(a) => get_piece_value(a),
                None => 0,
            };
            key = 10_000 + get_piece_value(victim) * 10 - aggressor;
        }
        keyed.push((key, from, to));
        k = k + 1;
    }
    let ghost unsorted = keyed@;
    let sorted = sort_by_score(keyed);
    proof {
        broadcast use vstd::seq_lib::group_to_multiset_ensures;
        assert(sorted@.len() == sorted@.to_multiset().len());
        assert(unsorted.len() == unsorted.to_multiset().len());
        assert forall|j: int| 0 <= j < sorted@.len() implies (#[trigger] sorted@[j]).1 < 64 && sorted@[j].2 < 64 by {
            assert(sorted@.contains(sorted@[j]));
            assert(sorted@.to_multiset().count(sorted@[j]) > 0);
            assert(unsorted.contains(sorted@[j]));
        }
    }
    let mut i: usize = 0;
    while i < sorted.len()
        invariant
            engine.wf(),
            search_state.wf(),
            *search_state == *old(search_state),
            search_state.board == b0,
            b0 == old(search_state).board,
            !has_capture(b0) ==> sorted@.len() == 0 && a == (if stand > alpha { stand } else { alpha }),
            i <= sorted@.len(),
            forall|j: int| 0 <= j < sorted@.len() ==> (#[trigger] sorted@[j]).1 < 64 && sorted@[j].2 < 64,
            stand <= a <= beta <= INF,
            a <= (if alpha > EVAL_BOUND { alpha } else { EVAL_BOUND }),
            -EVAL_BOUND <= stand <= EVAL_BOUND,
            -INF <= alpha <= a,
            stand == stand_pat(b0, maximizing_player),
        decreases sorted@.len() - i,
    {
        let (_, from, to) = sorted[i];
        let score = quiescence_child(engine, &search_state.board, from, to, a, beta, maximizing_player, true);
        if score >= beta {
            return beta;
        }
        if score > a {
            a = score;
        }
        i = i + 1;
    }
    a
}

/// Stores a result in the engine's transposition table.
fn store_result(engine: &mut Engine, hash: u64, depth: i32, score: i32, flag: u8, best_move: (u8, u8))
    requires
        old(engine).wf(),
        -INF <= score <= INF,
    ensures
        final(engine).wf(),
        final(engine).zobrist == old(engine).zobrist,
        final(engine).tables == old(engine).tables,
        final(engine).tt.entries@ == stored(old(engine).tt.entries@, hash, depth, score, flag, best_move),
{
    engine.tt.store(hash, depth, score, flag, best_move);
    assert forall|i: int| 0 <= i < engine.tt.entries@.len() implies (#[trigger] engine.tt.entries@[i] matches Some(e)
        ==> -INF <= e.score <= INF) by {
        if engine.tt.entries@[i] != old(engine).tt.entries@[i] {
            let e = crate::transposition_table::TTEntry { hash, depth, score, flag, best_move };
            assert(engine.tt.entries@[i] == Some(e));
        }
    }
}

/// The bound kind of a result: an upper bound when it is at most the
/// window's `alpha` at entry, a lower bound when it is at least `beta`, exact
/// otherwise.
pub open spec fn bound_flag(r: int, alpha: int, beta: int) -> u8 {
    if r <= alpha {
        UPPER
    } else if r >= beta {
        LOWER
    } else {
        EXACT
    }
}

/// The score of being mated `ply` plies from the root: `i32::MIN + ply`,
/// and `i32::MIN + 1` at the root itself, so that it can be negated.
pub open spec fn mate_score(ply: int) -> int {
    if ply == 0 {
        i32::MIN + 1
    } else {
        i32::MIN + ply
    }
}

/// A smaller search depth has a smaller square.
proof fn lemma_square_smaller(d: int, e: int)
    requires
        0 <= e <= d,
    ensures
        e * e <= d * d,
{
    assert(e * e <= d * d) by (nonlinear_arith)
        requires
            0 <= e <= d,
    ;
}

/// The negamax search of the position from the side to move: a table hit
/// usable at this depth and window returns its score; null-move pruning at
/// depth 3 and more when not in check; from the fifth move on, at depth 3
/// and more, a quiet move that gives no check is searched two plies
/// shallower first; later moves with a null window first; a quiet move
/// causing a cutoff becomes a killer and gains history. At depth 0 the
/// captures are searched by quiescence. The result is stored in the table
/// under the position's hash with its bound kind and the move that produced
/// it; the search state comes back unchanged.
pub fn negamax_enhanced(
    engine: &mut Engine,
    search_state: &mut SearchState,
    depth: i32,
    alpha: i32,
    beta: i32,
    ply: usize,
) -> (r: i32)
    requires
        old(engine).wf(),
        old(search_state).wf(),
        0 <= depth,
        ply + depth <= i32::MAX,
        depth * depth <= HISTORY_HEADROOM,
        -INF <= alpha < beta <= INF,
    ensures
        final(search_state).board == old(search_state).board,
        final(search_state).move_history@ == old(search_state).move_history@,
        final(engine).wf(),
        final(engine).zobrist == old(engine).zobrist,
        final(engine).tables == old(engine).tables,
        -INF <= r <= INF,
        depth == 0 ==> alpha <= r <= beta,
        depth == 0 ==> r == beta || r >= stand_pat(old(search_state).board, old(search_state).board.white_to_move),
        depth == 0 ==> r <= (if alpha > EVAL_BOUND { alpha } else { EVAL_BOUND }) && (r == beta || r >= -EVAL_BOUND),
        depth == 0 ==> *final(engine) == *old(engine),
        depth > 0 && probed(old(engine).tt.entries@, board_hash(&old(engine).zobrist, old(search_state).board), depth, alpha, beta) is None
            && !has_legal_move(old(search_state).board) ==> if old(search_state).board.current_in_check() {
            r == mate_score(ply as int)
        } else {
            depth < 3 ==> r == 0
        },
        depth > 0 && probed(old(engine).tt.entries@, board_hash(&old(engine).zobrist, old(search_state).board), depth, alpha, beta) is None
            && has_legal_move(old(search_state).board) ==> (depth >= 3 && !old(search_state).board.current_in_check() && r == beta) || exists|
            e: Seq<Option<TTEntry>>,
            m: (u8, u8),
        |
            (legal_move(old(search_state).board, m.0 as int, m.1 as int) || m == (0u8, 0u8)) && final(engine).tt.entries@ == stored(
                e,
                board_hash(&old(engine).zobrist, old(search_state).board),
                depth,
                r,
                bound_flag(r as int, alpha as int, beta as int),
                m,
            ),
        depth == 1 && alpha == -INF && beta == INF && probed(
            old(engine).tt.entries@,
            board_hash(&old(engine).zobrist, old(search_state).board),
            depth,
            alpha,
            beta,
        ) is None && has_legal_move(old(search_state).board) ==> -EVAL_BOUND <= r <= EVAL_BOUND && exists|m: (u8, u8)|
            legal_move(old(search_state).board, m.0 as int, m.1 as int) && final(engine).tt.entries@ == stored(
                old(engine).tt.entries@,
                board_hash(&old(engine).zobrist, old(search_state).board),
                depth,
                r,
                EXACT,
                m,
            ),
    decreases depth, 1int,
{
    if depth == 0 {
        let maximizing = search_state.board.white_to_move;
        return quiescence_search_enhanced(engine, search_state, alpha, beta, maximizing);
    }
    let alpha_at_entry = alpha;
    let hash = compute_board_hash(&engine.zobrist, &search_state.board);
    if let Some((score, best_move)) = engine.tt.probe(hash, depth, alpha, beta) {
        if score >= beta && best_move.0 != best_move.1 {
            add_killer_move(&mut engine.killers, ply, best_move.0, best_move.1);
        }
        proof {
            let i = crate::transposition_table::slot(hash, engine.tt.entries@.len() as int);
            assert(engine.tt.entries@[i] matches Some(e) ==> -INF <= e.score <= INF);
        }
        return score;
    }
    proof {
        lemma_square_smaller(depth as int, depth - 1);
        if depth >= 2 {
            lemma_square_smaller(depth as int, depth - 2);
        }
        if depth >= 3 {
            lemma_square_smaller(depth as int, depth - 3);
        }
    }
    if depth >= 3 && !search_state.board.is_current_king_in_check() {
        let mut null_board = search_state.board;
        null_board.white_to_move = !null_board.white_to_move;
        let null_score = -negamax_root(engine, &null_board, depth - 3, -beta, -beta + 1, ply + 1);
        if null_score >= beta {
            return beta;
        }
    }
    let legal = legal_moves(&engine.tables, &search_state.board);
    proof {
        lemma_legal_list(search_state.board, legal@);
    }
    if legal.len() == 0 {
        if search_state.board.is_current_king_in_check() {
            if ply == 0 {
                return i32::MIN + 1;
            } else {
                return i32::MIN + ply as i32;
            }
        } else {
            return 0;
        }
    }
    let ordered = order_moves(
        &engine.zobrist,
        &engine.tt,
        &engine.killers,
        &engine.history,
        &search_state.board,
        legal.as_slice(),
    );
    let ghost b0 = search_state.board;
    let ghost h0 = search_state.move_history@;
    let ghost tt0 = engine.tt.entries@;
    let ghost full = depth == 1 && alpha == -INF && beta == INF;
    let mut lower = alpha;
    let mut best_score: i32 = -INF;
    let mut best_move_found: (u8, u8) = (0, 0);
    let mut moves_searched: usize = 0;
    let mut i: usize = 0;
    while i < ordered.len()
        invariant
            engine.wf(),
            search_state.wf(),
            search_state.board == b0,
            search_state.move_history@ == h0,
            b0 == old(search_state).board,
            h0 == old(search_state).move_history@,
            engine.zobrist == old(engine).zobrist,
            engine.tables == old(engine).tables,
            hash == board_hash(&engine.zobrist, b0),
            depth > 0,
            ply + depth <= i32::MAX,
            depth * depth <= HISTORY_HEADROOM,
            (depth - 1) * (depth - 1) <= HISTORY_HEADROOM,
            depth >= 2 ==> (depth - 2) * (depth - 2) <= HISTORY_HEADROOM,
            -INF <= alpha_at_entry <= lower < beta <= INF,
            alpha_at_entry == alpha,
            -INF <= best_score <= INF,
            best_score == -INF || legal_move(b0, best_move_found.0 as int, best_move_found.1 as int),
            best_move_found == (0u8, 0u8) || legal_move(b0, best_move_found.0 as int, best_move_found.1 as int),
            lower == (if best_score > alpha_at_entry { best_score } else { alpha_at_entry }),
            moves_searched <= i,
            moves_searched == i,
            i <= ordered@.len(),
            has_legal_move(b0),
            moves_ok(legal@),
            forall|k: int| 0 <= k < ordered@.len() ==> legal@.contains(((#[trigger] ordered@[k]).1, ordered@[k].2)),
            forall|m: (u8, u8)| #[trigger] legal@.contains(m) == legal_move(b0, m.0 as int, m.1 as int),
            full == (depth == 1 && alpha_at_entry == -INF && beta == INF),
            full ==> engine.tt.entries@ == tt0,
            full ==> (i > 0 ==> -EVAL_BOUND <= best_score <= EVAL_BOUND && legal_move(
                b0,
                best_move_found.0 as int,
                best_move_found.1 as int,
            )),
            full ==> (i == 0 ==> best_score == -INF),
        decreases ordered@.len() - i,
    {
        let (_, from, to) = ordered[i];
        proof {
            let j = choose|j: int| 0 <= j < legal@.len() && legal@[j] == (from, to);
        }
        let quiet = get_piece_at_square(&search_state.board.bitboards, to).is_none();
        let saved = search_state.board;
        search_state.make_move(&engine.tables, from, to);
        let mut score: i32;
        if moves_searched >= 4 && depth >= 3 && !search_state.board.is_current_king_in_check() && quiet {
            score = -negamax_enhanced(engine, search_state, depth - 2, -lower - 1, -lower, ply + 1);
            if score > lower {
                score = -negamax_enhanced(engine, search_state, depth - 1, -beta, -lower, ply + 1);
            }
        } else if moves_searched == 0 {
            score = -negamax_enhanced(engine, search_state, depth - 1, -beta, -lower, ply + 1);
        } else {
            score = -negamax_enhanced(engine, search_state, depth - 1, -lower - 1, -lower, ply + 1);
            if score > lower && score < beta {
                score = -negamax_enhanced(engine, search_state, depth - 1, -beta, -lower, ply + 1);
            }
        }
        search_state.unmake_move(&engine.tables);
        // unmake cannot bring back a rook captured on its corner while its
        // castling right was still held; the saved copy makes the restore exact
        search_state.board = saved;
        if score >= beta {
            if quiet {
                add_killer_move(&mut engine.killers, ply, from, to);
                update_history_score(&mut engine.history, from, to, depth);
            }
            let ghost before = engine.tt.entries@;
            store_result(engine, hash, depth, beta, LOWER, (from, to));
            proof {
                assert(bound_flag(beta as int, alpha_at_entry as int, beta as int) == LOWER);
                assert(legal_move(b0, from as int, to as int));
                assert(engine.tt.entries@ == stored(before, hash, depth, beta, LOWER, (from, to)));
            }
            return beta;
        }
        if score > best_score {
            best_score = score;
            best_move_found = (from, to);
            if score > lower {
                lower = score;
            }
        }
        moves_searched = moves_searched + 1;
        i = i + 1;
    }
    let flag = if best_score <= alpha_at_entry {
        UPPER
    } else if best_score >= beta {
        LOWER
    } else {
        EXACT
    };
    let ghost before = engine.tt.entries@;
    store_result(engine, hash, depth, best_score, flag, best_move_found);
    proof {
        assert(flag == bound_flag(best_score as int, alpha_at_entry as int, beta as int));
        assert(engine.tt.entries@ == stored(before, hash, depth, best_score, flag, best_move_found));
    }
    best_score
}

/// `negamax_enhanced` on a fresh search state holding a copy of `board_state`.
pub fn negamax_root(
    engine: &mut Engine,
    board_state: &BoardState,
    depth: i32,
    alpha: i32,
    beta: i32,
    ply: usize,
) -> (r: i32)
    requires
        old(engine).wf(),
        board_state.wf(),
        0 <= depth,
        ply + depth <= i32::MAX,
        depth * depth <= HISTORY_HEADROOM,
        -INF <= alpha < beta <= INF,
    ensures
        final(engine).wf(),
        final(engine).zobrist == old(engine).zobrist,
        final(engine).tables == old(engine).tables,
        -INF <= r <= INF,
        depth == 0 ==> alpha <= r <= beta,
        depth == 0 ==> r == beta || r >= stand_pat(*board_state, board_state.white_to_move),
        depth == 0 ==> r <= (if alpha > EVAL_BOUND { alpha } else { EVAL_BOUND }) && (r == beta || r >= -EVAL_BOUND),
        depth == 0 ==> *final(engine) == *old(engine),
        depth > 0 && probed(old(engine).tt.entries@, board_hash(&old(engine).zobrist, *board_state), depth, alpha, beta) is None
            && !has_legal_move(*board_state) ==> if board_state.current_in_check() {
            r == mate_score(ply as int)
        } else {
            depth < 3 ==> r == 0
        },
        depth > 0 && probed(old(engine).tt.entries@, board_hash(&old(engine).zobrist, *board_state), depth, alpha, beta) is None
            && has_legal_move(*board_state) ==> (depth >= 3 && !board_state.current_in_check() && r == beta) || exists|
            e: Seq<Option<TTEntry>>,
            m: (u8, u8),
        |
            (legal_move(*board_state, m.0 as int, m.1 as int) || m == (0u8, 0u8)) && final(engine).tt.entries@ == stored(
                e,
                board_hash(&old(engine).zobrist, *board_state),
                depth,
                r,
                bound_flag(r as int, alpha as int, beta as int),
                m,
            ),
        depth == 1 && alpha == -INF && beta == INF && probed(
            old(engine).tt.entries@,
            board_hash(&old(engine).zobrist, *board_state),
            depth,
            alpha,
            beta,
        ) is None && has_legal_move(*board_state) ==> -EVAL_BOUND <= r <= EVAL_BOUND && exists|m: (u8, u8)|
            legal_move(*board_state, m.0 as int, m.1 as int) && final(engine).tt.entries@ == stored(
                old(engine).tt.entries@,
                board_hash(&old(engine).zobrist, *board_state),
                depth,
                r,
                EXACT,
                m,
            ),
    decreases depth, 2int,
{
    let mut search_state = SearchState::new(*board_state);
    negamax_enhanced(engine, &mut search_state, depth, alpha, beta, ply)
}

/// Whether `m` is in the list.
fn list_contains(v: &Vec<(u8, u8)>, m: (u8, u8)) -> (r: bool)
    ensures
        r == v@.contains(m),
{
    let mut i: usize = 0;
    while i < v.len()
        invariant
            i <= v@.len(),
            forall|j: int| 0 <= j < i ==> v@[j] != m,
        decreases v@.len() - i,
    {
        if v[i].0 == m.0 && v[i].1 == m.1 {
            return true;
        }
        i = i + 1;
    }
    false
}

/// Iterative deepening over `negamax_root` from depth 1 to `max_depth` with
/// an aspiration window of `ASPIRATION_WINDOW` on each side of the previous
/// score, widened to the whole range on the side that failed (and kept within
/// `-INF..=INF`); after each depth whose score fell inside the window, the
/// move the table records for the position becomes the answer when it is one
/// of the position's legal moves. The table is emptied first; the time limit
/// is not consulted.
pub fn find_best_move_iterative_deepening_optimized(
    engine: &mut Engine,
    board_state: &BoardState,
    max_depth: u8,
    _time_limit_ms: u64,
) -> (r: Option<(u8, u8)>)
    requires
        old(engine).wf(),
        board_state.wf(),
    ensures
        final(engine).wf(),
        max_depth == 0 ==> r is None,
        max_depth >= 1 && has_legal_move(*board_state) ==> r is Some,
        r matches Some(m) ==> legal_move(*board_state, m.0 as int, m.1 as int),
{
    let legal = legal_moves(&engine.tables, board_state);
    proof {
        lemma_legal_list(*board_state, legal@);
    }
    engine.tt.clear();
    proof {
        assert forall|i: int| 0 <= i < engine.tt.entries@.len() implies (#[trigger] engine.tt.entries@[i] matches Some(e)
            ==> -INF <= e.score <= INF) by {}
    }
    let mut best_move: Option<(u8, u8)> = None;
    let mut alpha: i32 = -INF;
    let mut beta: i32 = INF;
    let mut depth: u8 = 1;
    while depth <= max_depth
        invariant
            engine.wf(),
            board_state.wf(),
            1 <= depth,
            -INF <= alpha < beta <= INF,
            max_depth == 0 ==> best_move is None,
            depth > 1 && has_legal_move(*board_state) ==> best_move is Some,
            depth == 1 ==> alpha == -INF && beta == INF && forall|i: int|
                0 <= i < engine.tt.entries@.len() ==> #[trigger] engine.tt.entries@[i] is None,
            forall|m: (u8, u8)| #[trigger] legal@.contains(m) == legal_move(*board_state, m.0 as int, m.1 as int),
            best_move matches Some(m) ==> legal_move(*board_state, m.0 as int, m.1 as int),
        ensures
            max_depth >= 1 && has_legal_move(*board_state) ==> best_move is Some,
        decreases max_depth + 1 - depth,
    {
        assert(depth * depth <= 65025) by (nonlinear_arith)
            requires
                1 <= depth <= 255,
        ;
        let ghost tt0 = engine.tt.entries@;
        let ghost h = board_hash(&engine.zobrist, *board_state);
        let score = negamax_root(engine, board_state, depth as i32, alpha, beta, 0);
        proof {
            if depth == 1 && has_legal_move(*board_state) {
                let i = crate::transposition_table::slot(h, tt0.len() as int);
                assert(tt0[i] is None);
                assert(probed(tt0, h, 1, alpha, beta) is None);
                let m = choose|m: (u8, u8)|
                    legal_move(*board_state, m.0 as int, m.1 as int) && engine.tt.entries@ == stored(
                        tt0,
                        h,
                        1,
                        score,
                        EXACT,
                        m,
                    );
                assert(recorded_move(engine.tt.entries@, h) == Some(m));
                assert(legal@.contains(m));
            }
        }
        if score <= alpha {
            alpha = -INF;
            beta = if score < INF - ASPIRATION_WINDOW { score + ASPIRATION_WINDOW } else { INF };
        } else if score >= beta {
            alpha = if score > -INF + ASPIRATION_WINDOW { score - ASPIRATION_WINDOW } else { -INF };
            beta = INF;
        } else {
            alpha = if score > -INF + ASPIRATION_WINDOW { score - ASPIRATION_WINDOW } else { -INF };
            beta = if score < INF - ASPIRATION_WINDOW { score + ASPIRATION_WINDOW } else { INF };
            if let Some(m) = get_best_move_from_tt(&engine.zobrist, board_state, &engine.tt) {
                if list_contains(&legal, m) {
                    best_move = Some(m);
                }
            }
        }
        if depth == 255 {
            break;
        }
        depth = depth + 1;
    }
    best_move
}

} // verus!
