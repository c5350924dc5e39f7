use vstd::prelude::*;
use crate::types::{WP, WN, BP, BN};
use crate::utils::{
    first_plane, piece_value, get_piece_at_square, get_piece_value, lemma_first_plane,
};
use crate::board_state::BoardState;
use crate::movegen::moves_ok;
use crate::zobrist::{ZobristTables, board_hash, compute_board_hash};
use crate::transposition_table::{TranspositionTable, recorded_move, get_tt_move};

verus! {

/// The cap above which a history counter is halved.
pub const HISTORY_CAP: i32 = 1_000_000;

/// No history counter exceeds this: half of `i32::MAX`, rounded down, which
/// leaves room for one more credit of up to `HISTORY_HEADROOM`.
pub const HISTORY_LIMIT: i32 = 1_073_741_823;

/// The largest credit `depth * depth` that always fits on top of a counter.
pub const HISTORY_HEADROOM: i32 = 1_073_741_824;

/// History counters: one per (from, to) pair, at index `from * 64 + to`.
pub struct ThreadSafeHistoryTable {
    pub table: Vec<i32>,
}

/// A counter after a cutoff at `depth`: raised by `depth * depth`, then
/// halved when it passes the cap.
pub open spec fn bumped(cur: int, depth: int) -> int {
    let n = cur + depth * depth;
    if n > HISTORY_CAP {
        n / 2
    } else {
        n
    }
}

impl ThreadSafeHistoryTable {
    pub open spec fn wf(&self) -> bool {
        &&& self.table@.len() == 4096
        &&& forall|i: int| 0 <= i < 4096 ==> 0 <= #[trigger] self.table@[i] <= HISTORY_LIMIT
    }

    /// Every counter at zero.
    pub fn new() -> (r: Self)
        ensures
            r.wf(),
            forall|i: int| 0 <= i < 4096 ==> r.table@[i] == 0,
    {
        let mut table: Vec<i32> = Vec::new();
        let mut i: usize = 0;
        while i < 4096
            invariant
                i <= 4096,
                table@.len() == i,
                forall|j: int| 0 <= j < i ==> table@[j] == 0,
            decreases 4096 - i,
        {
            table.push(0);
            i = i + 1;
        }
        ThreadSafeHistoryTable { table }
    }

    /// The counter of `from`-`to`.
    pub fn get(&self, from: u8, to: u8) -> (r: i32)
        requires
            self.wf(),
            from < 64,
            to < 64,
        ensures
            r == self.table@[from * 64 + to],
    {
        self.table[from as usize * 64 + to as usize]
    }

    /// Credits `from`-`to` with a cutoff found at `depth`.
    pub fn update(&mut self, from: u8, to: u8, depth: i32)
        requires
            old(self).wf(),
            from < 64,
            to < 64,
            old(self).table@[from * 64 + to] + depth * depth <= i32::MAX,
        ensures
            final(self).wf(),
            final(self).table@ == old(self).table@.update(
                from * 64 + to,
                bumped(old(self).table@[from * 64 + to] as int, depth as int) as i32,
            ),
    {
        let index = from as usize * 64 + to as usize;
        let current = self.table[index];
        assert(0 <= depth * depth) by (nonlinear_arith);
        let new_value = current + depth * depth;
        let capped_value = if new_value > HISTORY_CAP { new_value / 2 } else { new_value };
        self.table.set(index, capped_value);
    }
}

/// A table of history counters, all at zero.
pub fn init_history_table() -> (r: ThreadSafeHistoryTable)
    ensures
        r.wf(),
        forall|i: int| 0 <= i < 4096 ==> r.table@[i] == 0,
{
    ThreadSafeHistoryTable::new()
}

/// The history counter of `from`-`to`.
pub fn get_history_score(history: &ThreadSafeHistoryTable, from: u8, to: u8, _white_to_move: bool) -> (r: i32)
    requires
        history.wf(),
        from < 64,
        to < 64,
    ensures
        r == history.table@[from * 64 + to],
{
    history.get(from, to)
}

/// Credits `from`-`to` with a cutoff found at `depth`.
pub fn update_history_score(history: &mut ThreadSafeHistoryTable, from: u8, to: u8, depth: i32)
    requires
        old(history).wf(),
        from < 64,
        to < 64,
        old(history).table@[from * 64 + to] + depth * depth <= i32::MAX,
    ensures
        final(history).wf(),
        final(history).table@ == old(history).table@.update(
            from * 64 + to,
            bumped(old(history).table@[from * 64 + to] as int, depth as int) as i32,
        ),
{
    history.update(from, to, depth);
}

/// Killer moves: two slots per ply for 64 plies, slot `s` of ply `p` at
/// index `2 * p + s`, the newer in slot 0.
pub struct KillerMoves {
    pub slots: Vec<Option<(u8, u8)>>,
}

impl KillerMoves {
    pub open spec fn wf(&self) -> bool {
        self.slots@.len() == 128
    }

    /// No killer recorded.
    pub fn new() -> (r: Self)
        ensures
            r.wf(),
            forall|i: int| 0 <= i < 128 ==> r.slots@[i] is None,
    {
        let mut slots: Vec<Option<(u8, u8)>> = Vec::new();
        let mut i: usize = 0;
        while i < 128
            invariant
                i <= 128,
                slots@.len() == i,
                forall|j: int| 0 <= j < i ==> slots@[j] is None,
            decreases 128 - i,
        {
            slots.push(None);
            i = i + 1;
        }
        KillerMoves { slots }
    }
}

/// `m` is recorded as a killer at some ply.
pub open spec fn is_killer(slots: Seq<Option<(u8, u8)>>, m: (u8, u8)) -> bool {
    exists|i: int| 0 <= i < slots.len() && slots[i] == Some(m)
}

/// The slots after recording `m` at `ply`: nothing changes when the ply is
/// out of range or already holds `m`; otherwise slot 0 moves to slot 1 and
/// `m` takes slot 0.
pub open spec fn killers_after(slots: Seq<Option<(u8, u8)>>, ply: int, m: (u8, u8)) -> Seq<Option<(u8, u8)>> {
    if ply >= 64 || slots[2 * ply] == Some(m) || slots[2 * ply + 1] == Some(m) {
        slots
    } else {
        slots.update(2 * ply + 1, slots[2 * ply]).update(2 * ply, Some(m))
    }
}

/// Whether `from`-`to` is recorded as a killer at any ply.
pub fn is_killer_move(killers: &KillerMoves, from: u8, to: u8, _white_to_move: bool) -> (r: bool)
    requires
        killers.wf(),
    ensures
        r == is_killer(killers.slots@, (from, to)),
{
    let mut i: usize = 0;
    while i < 128
        invariant
            i <= 128,
            killers.wf(),
            forall|j: int| 0 <= j < i ==> killers.slots@[j] != Some((from, to)),
        decreases 128 - i,
    {
        if let Some((kfrom, kto)) = killers.slots[i] {
            if kfrom == from && kto == to {
                return true;
            }
        }
        i = i + 1;
    }
    false
}

/// Records the quiet move `from`-`to` that caused a cutoff at `ply`.
pub fn add_killer_move(killers: &mut KillerMoves, ply: usize, from: u8, to: u8)
    requires
        old(killers).wf(),
    ensures
        final(killers).wf(),
        final(killers).slots@ == killers_after(old(killers).slots@, ply as int, (from, to)),
{
    if ply >= 64 {
        return;
    }
    let mut slot: usize = 0;
    while slot < 2
        invariant
            slot <= 2,
            ply < 64,
            killers.wf(),
            killers.slots@ == old(killers).slots@,
            forall|j: int| 0 <= j < slot ==> #[trigger] killers.slots@[2 * ply + j] != Some((from, to)),
        decreases 2 - slot,
    {
        if let Some((kfrom, kto)) = killers.slots[2 * ply + slot] {
            if kfrom == from && kto == to {
                return;
            }
        }
        slot = slot + 1;
    }
    assert(killers.slots@[2 * ply + 0] != Some((from, to)));
    assert(killers.slots@[2 * ply + 1] != Some((from, to)));
    let ghost s0 = killers.slots@;
    let first = killers.slots[2 * ply];
    killers.slots.set(2 * ply + 1, first);
    killers.slots.set(2 * ply, Some((from, to)));
    assert(killers.slots@ =~= killers_after(s0, ply as int, (from, to)));
}

/// The plane of the piece on `s`, if any.
pub open spec fn piece_on(b: Seq<u64>, s: int) -> Option<usize> {
    first_plane(b, s, 0, 12)
}

/// A pawn reaching the far rank.
pub open spec fn is_promotion(b: Seq<u64>, m: (u8, u8)) -> bool {
    ||| piece_on(b, m.0 as int) == Some(0usize) && m.1 < 8
    ||| piece_on(b, m.0 as int) == Some(6usize) && m.1 >= 56
}

/// A knight landing on one of the four centre squares.
pub open spec fn knight_to_center(b: Seq<u64>, m: (u8, u8)) -> bool {
    (piece_on(b, m.0 as int) == Some(1usize) || piece_on(b, m.0 as int) == Some(7usize)) && (m.1 == 27
        || m.1 == 28 || m.1 == 35 || m.1 == 36)
}

/// The MVV-LVA score of a capture: ten times the victim's value per unit of
/// `scale`, less the aggressor's, with a bonus when the aggressor is cheaper.
pub open spec fn capture_score(b: Seq<u64>, m: (u8, u8)) -> int {
    let victim = piece_value(piece_on(b, m.1 as int)->Some_0 as int) as int;
    let aggressor = match piece_on(b, m.0 as int) {
        Some(p) => piece_value(p as int) as int,
        None => 0,
    };
    100_000 + victim * 100 - aggressor + if aggressor < victim { 500int } else { 0int }
}

/// The priority of a move: the recorded best move first, then captures by
/// MVV-LVA, promotions, killers, and the history counter; knights landing in
/// the centre get 50 more.
pub open spec fn move_score(
    tt_move: Option<(u8, u8)>,
    b: Seq<u64>,
    killers: Seq<Option<(u8, u8)>>,
    history: Seq<i32>,
    m: (u8, u8),
) -> int {
    let base = if tt_move == Some(m) {
        1_000_000
    } else if piece_on(b, m.1 as int) is Some {
        capture_score(b, m)
    } else if is_promotion(b, m) {
        90_000
    } else if is_killer(killers, m) {
        80_000
    } else {
        history[m.0 * 64 + m.1] as int
    };
    base + if knight_to_center(b, m) { 50int } else { 0int }
}

/// The scores are in non-increasing order.
pub open spec fn sorted_desc(s: Seq<(i32, u8, u8)>) -> bool {
    forall|i: int, j: int| 0 <= i < j < s.len() ==> (#[trigger] s[i]).0 >= (#[trigger] s[j]).0
}

/// Sorts by score, highest first.
pub(crate) fn sort_by_score(v: Vec<(i32, u8, u8)>) -> (r: Vec<(i32, u8, u8)>)
    ensures
        r@.to_multiset() == v@.to_multiset(),
        sorted_desc(r@),
{
    broadcast use vstd::seq_lib::group_to_multiset_ensures;
    let mut rest = v;
    let mut out: Vec<(i32, u8, u8)> = Vec::new();
    while rest.len() > 0
        invariant
            out@.to_multiset().add(rest@.to_multiset()) == v@.to_multiset(),
            sorted_desc(out@),
            forall|i: int, j: int| 0 <= i < out@.len() && 0 <= j < rest@.len() ==> out@[i].0 >= rest@[j].0,
        decreases rest@.len(),
    {
        let mut best: usize = 0;
        let mut k: usize = 1;
        while k < rest.len()
            invariant
                0 <= best < rest@.len(),
                1 <= k <= rest@.len(),
                forall|j: int| 0 <= j < k ==> rest@[best as int].0 >= rest@[j].0,
            decreases rest@.len() - k,
        {
            if rest[k].0 > rest[best].0 {
                best = k;
            }
            k = k + 1;
        }
        let ghost r0 = rest@;
        let ghost o0 = out@;
        let x = rest.remove(best);
        out.push(x);
        proof {
            assert(out@ == o0.push(x));
            assert(rest@ == r0.remove(best as int));
            o0.to_multiset_ensures();
            r0.to_multiset_ensures();
            assert(out@.to_multiset() == o0.to_multiset().insert(x));
            assert(rest@.to_multiset() == r0.to_multiset().remove(x));
            assert(out@.to_multiset().add(rest@.to_multiset()) =~= o0.to_multiset().add(r0.to_multiset()));
            assert forall|i: int, j: int| 0 <= i < j < out@.len() implies (#[trigger] out@[i]).0 >= (
                #[trigger] out@[j]).0 by {
                if j == out@.len() - 1 {
                    assert(out@[j] == r0[best as int]);
                } else {
                    assert(out@[i] == o0[i] && out@[j] == o0[j]);
                }
            }
            assert forall|i: int, j: int| 0 <= i < out@.len() && 0 <= j < rest@.len() implies out@[i].0 >= rest@[j].0 by {
                let jj = if j < best { j } else { j + 1 };
                assert(rest@[j] == r0[jj]);
                if i < o0.len() {
                    assert(out@[i] == o0[i]);
                }
            }
        }
    }
    assert(rest@.to_multiset() =~= vstd::multiset::Multiset::empty());
    assert(out@.to_multiset().add(rest@.to_multiset()) =~= out@.to_multiset());
    out
}

/// The moves paired with their priorities, in the given order.
pub open spec fn scored(
    tt_move: Option<(u8, u8)>,
    b: Seq<u64>,
    killers: Seq<Option<(u8, u8)>>,
    history: Seq<i32>,
    moves: Seq<(u8, u8)>,
) -> Seq<(i32, u8, u8)> {
    moves.map_values(|m: (u8, u8)| (move_score(tt_move, b, killers, history, m) as i32, m.0, m.1))
}

/// The best move the table records for a position.
pub open spec fn tt_move_of(z: &ZobristTables, tt: &TranspositionTable, board: BoardState) -> Option<(u8, u8)> {
    recorded_move(tt.entries@, board_hash(z, board))
}

/// A history table whose counters are all below `bound`.
pub open spec fn history_below(history: Seq<i32>, bound: int) -> bool {
    forall|i: int| 0 <= i < history.len() ==> 0 <= #[trigger] history[i] < bound
}

/// The priority of one move.
fn score_move(
    tt_move: Option<(u8, u8)>,
    board: &BoardState,
    killers: &KillerMoves,
    history: &ThreadSafeHistoryTable,
    from: u8,
    to: u8,
) -> (r: i32)
    requires
        killers.wf(),
        history.wf(),
        from < 64,
        to < 64,
    ensures
        r as int == move_score(tt_move, board.bitboards@, killers.slots@, history.table@, (from, to)),
{
    let b = &board.bitboards;
    let from_piece = get_piece_at_square(b, from);
    proof {
        lemma_first_plane(b@, from as int, 0, 12);
        lemma_first_plane(b@, to as int, 0, 12);
    }
    let mut score: i32 = if tt_move == Some((from, to)) {
        1_000_000
    } else if let Some(captured_piece) = get_piece_at_square(b, to) {
        let victim_value = get_piece_value(captured_piece);
        let aggressor_value = match from_piece {
            Some(aggressor) => get_piece_value(aggressor),
            None => 0,
        };
        let bonus: i32 = if aggressor_value < victim_value { 500 } else { 0 };
        100_000 + victim_value * 100 - aggressor_value + bonus
    } else if (from_piece == Some(WP) && to < 8) || (from_piece == Some(BP) && to >= 56) {
        90_000
    } else if is_killer_move(killers, from, to, board.white_to_move) {
        80_000
    } else {
        history.get(from, to)
    };
    if from_piece == Some(WN) || from_piece == Some(BN) {
        if to == 27 || to == 28 || to == 35 || to == 36 {
            score = score + 50;
        }
    }
    score
}

/// Scores every move and sorts them, highest priority first.
pub fn order_moves(
    z: &ZobristTables,
    tt: &TranspositionTable,
    killers: &KillerMoves,
    history: &ThreadSafeHistoryTable,
    board: &BoardState,
    moves: &[(u8, u8)],
) -> (r: Vec<(i32, u8, u8)>)
    requires
        z.wf(),
        tt.wf(),
        killers.wf(),
        history.wf(),
        moves_ok(moves@),
    ensures
        sorted_desc(r@),
        r@.to_multiset() == scored(
            tt_move_of(z, tt, *board),
            board.bitboards@,
            killers.slots@,
            history.table@,
            moves@,
        ).to_multiset(),
        r@.len() == moves@.len(),
        forall|i: int| 0 <= i < r@.len() ==> moves@.contains(((#[trigger] r@[i]).1, r@[i].2)),
        forall|m: (u8, u8)| #[trigger] moves@.contains(m) ==> exists|k: int| 0 <= k < r@.len() && r@[k].1 == m.0 && r@[k].2 == m.1,
{
    let hash = compute_board_hash(z, board);
    let tt_move = get_tt_move(tt, hash);
    let ghost all = scored(tt_move, board.bitboards@, killers.slots@, history.table@, moves@);
    let mut scored_moves: Vec<(i32, u8, u8)> = Vec::new();
    let mut i: usize = 0;
    while i < moves.len()
        invariant
            i <= moves@.len(),
            killers.wf(),
            history.wf(),
            moves_ok(moves@),
            all == scored(tt_move, board.bitboards@, killers.slots@, history.table@, moves@),
            scored_moves@ == all.take(i as int),
        decreases moves@.len() - i,
    {
        let (from, to) = moves[i];
        let score = score_move(tt_move, board, killers, history, from, to);
        scored_moves.push((score, from, to));
        assert(scored_moves@ =~= all.take(i + 1));
        i = i + 1;
    }
    assert(all.take(moves@.len() as int) =~= all);
    let r = sort_by_score(scored_moves);
    proof {
        broadcast use vstd::seq_lib::group_to_multiset_ensures;
        assert(r@.len() == r@.to_multiset().len());
        assert forall|i: int| 0 <= i < r@.len() implies moves@.contains(((#[trigger] r@[i]).1, r@[i].2)) by {
            lemma_ordered_entry(tt_move, board.bitboards@, killers.slots@, history.table@, moves@, r@, i);
        }
        assert forall|m: (u8, u8)| #[trigger] moves@.contains(m) implies exists|k: int| 0 <= k < r@.len() && r@[k].1 == m.0 && r@[k].2 == m.1 by {
            let j = choose|j: int| 0 <= j < moves@.len() && moves@[j] == m;
            let e = all[j];
            assert(all.contains(e));
            assert(r@.to_multiset().count(e) > 0);
            assert(r@.contains(e));
            let k = choose|k: int| 0 <= k < r@.len() && r@[k] == e;
            assert(r@[k].1 == m.0 && r@[k].2 == m.1);
        }
    }
    r
}

/// What every entry of an ordered list is: a move of the list with its own
/// priority.
proof fn lemma_ordered_entry(
    tt_move: Option<(u8, u8)>,
    b: Seq<u64>,
    killers: Seq<Option<(u8, u8)>>,
    history: Seq<i32>,
    moves: Seq<(u8, u8)>,
    r: Seq<(i32, u8, u8)>,
    i: int,
)
    requires
        r.to_multiset() == scored(tt_move, b, killers, history, moves).to_multiset(),
        0 <= i < r.len(),
    ensures
        moves.contains((r[i].1, r[i].2)),
        r[i].0 == move_score(tt_move, b, killers, history, (r[i].1, r[i].2)) as i32,
{
    broadcast use vstd::seq_lib::group_to_multiset_ensures;
    let s = scored(tt_move, b, killers, history, moves);
    assert(r.contains(r[i]));
    assert(s.to_multiset().count(r[i]) > 0);
    assert(s.contains(r[i]));
    let k = choose|k: int| 0 <= k < s.len() && s[k] == r[i];
    assert(moves[k] == (r[i].1, r[i].2));
}

/// Bounds on priorities: a capture scores at least 99,100; a quiet move that
/// is neither a promotion nor a killer scores its history counter plus at
/// most 50; only the recorded move reaches 1,000,000.
proof fn lemma_score_bounds(
    tt_move: Option<(u8, u8)>,
    b: Seq<u64>,
    killers: Seq<Option<(u8, u8)>>,
    history: Seq<i32>,
    m: (u8, u8),
)
    requires
        b.len() == 12,
        history.len() == 4096,
        history_below(history, 99_000),
        m.0 < 64,
        m.1 < 64,
    ensures
        tt_move == Some(m) ==> move_score(tt_move, b, killers, history, m) >= 1_000_000,
        tt_move != Some(m) ==> move_score(tt_move, b, killers, history, m) < 1_000_000,
        piece_on(b, m.1 as int) is Some ==> move_score(tt_move, b, killers, history, m) >= 99_100,
        tt_move != Some(m) && piece_on(b, m.1 as int) is None && !is_promotion(b, m) && !is_killer(killers, m)
            ==> move_score(tt_move, b, killers, history, m) < 99_050,
{
    lemma_first_plane(b, m.1 as int, 0, 12);
    lemma_first_plane(b, m.0 as int, 0, 12);
    assert(0 <= m.0 * 64 + m.1 < 4096);
}

/// In an ordered list the move recorded in the table comes first, and, while
/// every history counter stays below 99,000, each capture comes before every
/// quiet move that is neither a promotion nor a killer.
pub proof fn lemma_ordering_priority(
    tt_move: Option<(u8, u8)>,
    b: Seq<u64>,
    killers: Seq<Option<(u8, u8)>>,
    history: Seq<i32>,
    moves: Seq<(u8, u8)>,
    r: Seq<(i32, u8, u8)>,
)
    requires
        b.len() == 12,
        history.len() == 4096,
        history_below(history, 99_000),
        moves_ok(moves),
        sorted_desc(r),
        r.to_multiset() == scored(tt_move, b, killers, history, moves).to_multiset(),
    ensures
        tt_move matches Some(t) ==> (moves.contains(t) ==> r.len() > 0 && (r[0].1, r[0].2) == t),
        forall|i: int, j: int|
            0 <= i < r.len() && 0 <= j < r.len() && piece_on(b, r[i].2 as int) is Some && tt_move != Some(
                (r[j].1, r[j].2),
            ) && piece_on(b, r[j].2 as int) is None && !is_promotion(b, (r[j].1, r[j].2)) && !is_killer(
                killers,
                (r[j].1, r[j].2),
            ) ==> i < j,
{
    broadcast use vstd::seq_lib::group_to_multiset_ensures;
    let s = scored(tt_move, b, killers, history, moves);
    assert forall|i: int| 0 <= i < r.len() implies (#[trigger] r[i]).1 < 64 && r[i].1 < 64 && r[i].2 < 64
        && r[i].0 == move_score(tt_move, b, killers, history, (r[i].1, r[i].2)) as i32 by {
        lemma_ordered_entry(tt_move, b, killers, history, moves, r, i);
        let k = choose|k: int| 0 <= k < moves.len() && moves[k] == (r[i].1, r[i].2);
        assert(moves_ok(moves));
        assert(moves[k].0 < 64 && moves[k].1 < 64);
    }
    if let Some(t) = tt_move {
        if moves.contains(t) {
            let k = choose|k: int| 0 <= k < moves.len() && moves[k] == t;
            let e = s[k];
            assert(s.contains(e));
            assert(r.to_multiset().count(e) > 0);
            assert(r.contains(e));
            let i = choose|i: int| 0 <= i < r.len() && r[i] == e;
            lemma_score_bounds(tt_move, b, killers, history, t);
            lemma_score_bounds(tt_move, b, killers, history, (r[0].1, r[0].2));
            if (r[0].1, r[0].2) != t {
                assert(r[0].0 >= r[i].0);
            }
        }
    }
    assert forall|i: int, j: int|
        0 <= i < r.len() && 0 <= j < r.len() && piece_on(b, r[i].2 as int) is Some && tt_move != Some(
            (r[j].1, r[j].2),
        ) && piece_on(b, r[j].2 as int) is None && !is_promotion(b, (r[j].1, r[j].2)) && !is_killer(
            killers,
            (r[j].1, r[j].2),
        ) implies i < j by {
        lemma_score_bounds(tt_move, b, killers, history, (r[i].1, r[i].2));
        lemma_score_bounds(tt_move, b, killers, history, (r[j].1, r[j].2));
        if j <= i {
            assert(r[j].0 >= r[i].0);
        }
    }
}

} // verus!
