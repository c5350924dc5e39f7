use vstd::prelude::*;
use crate::attacks::AttackTables;
use crate::board_state::BoardState;
use crate::move_execution::{make_move, record_of, planes_after};
use crate::evaluation::{evaluate_board_advanced, evaluation};

verus! {

/// Milliseconds that must remain before another depth is started.
pub const MIN_REMAINING_MS: u64 = 50;

/// Static scores beyond this magnitude end a timed search early.
pub const DECISIVE_SCORE: i32 = 9000;

/// Whether a time-bounded iterative deepening starts its next depth: not
/// after a stop request, and, under a time limit, only while the limit is
/// not reached and at least `MIN_REMAINING_MS` of it remain.
pub fn should_start_depth(elapsed_ms: u64, limit_ms: Option<u64>, stop_requested: bool) -> (r: bool)
    ensures
        r == (!stop_requested && match limit_ms {
            None => true,
            Some(l) => elapsed_ms < l && l - elapsed_ms >= MIN_REMAINING_MS,
        }),
{
    if stop_requested {
        return false;
    }
    match limit_ms {
        None => true,
        Some(limit) => {
            if elapsed_ms >= limit {
                false
            } else {
                limit - elapsed_ms >= MIN_REMAINING_MS
            }
        },
    }
}

/// Whether a time-bounded iterative deepening ends after a completed depth:
/// on a decisive score, a stop request, or a reached time limit.
pub fn should_stop_after_depth(best_score: i32, elapsed_ms: u64, limit_ms: Option<u64>, stop_requested: bool) -> (r: bool)
    ensures
        r == (best_score > DECISIVE_SCORE || best_score < -DECISIVE_SCORE || stop_requested || match limit_ms {
            None => false,
            Some(l) => elapsed_ms >= l,
        }),
{
    if best_score > DECISIVE_SCORE || best_score < -DECISIVE_SCORE {
        return true;
    }
    if stop_requested {
        return true;
    }
    match limit_ms {
        None => false,
        Some(limit) => elapsed_ms >= limit,
    }
}

/// The static score of the position after `from`-`to`, as a timed search
/// reports it for its chosen move; `None` when the side to move has no piece
/// on `from`.
pub fn score_after_move(tables: &AttackTables, board_state: &BoardState, from: u8, to: u8) -> (r: Option<i32>)
    requires
        tables.wf(),
        from < 64,
        to < 64,
    ensures
        r is None <==> record_of(*board_state, from as int, to as int) is None,
        r matches Some(v) ==> v == evaluation(
            planes_after(board_state.bitboards@, record_of(*board_state, from as int, to as int)->Some_0),
        ),
{
    let mut after = *board_state;
    match make_move(tables, &mut after, from, to) {
        Some(_) => Some(evaluate_board_advanced(&after)),
        None => None,
    }
}

/// Search limits of a UCI `go` command, times in milliseconds.
pub struct UCISearchParams {
    pub depth: Option<u8>,
    pub movetime: Option<u64>,
    pub wtime: Option<u64>,
    pub btime: Option<u64>,
    pub winc: Option<u64>,
    pub binc: Option<u64>,
    pub movestogo: Option<u32>,
    pub infinite: bool,
}

/// `x + y`, or `u64::MAX` when that does not fit.
pub open spec fn sat_add(x: int, y: int) -> int {
    if x + y > u64::MAX {
        u64::MAX as int
    } else {
        x + y
    }
}

/// The time to spend on a move: none for an infinite search; a fixed move
/// time as given; otherwise, with the mover's clock known, 80% of the clock
/// shared over the moves to go (20 when unknown, at least 1) plus the
/// increment, sums stopping at `u64::MAX`.
pub open spec fn time_limit(p: UCISearchParams, white_to_move: bool) -> Option<u64> {
    if p.infinite {
        None
    } else if p.movetime is Some {
        p.movetime
    } else {
        let clock = if white_to_move { p.wtime } else { p.btime };
        let inc = match (if white_to_move { p.winc } else { p.binc }) {
            Some(i) => i as int,
            None => 0,
        };
        let mtg = match p.movestogo {
            Some(m) => if m == 0 { 1int } else { m as int },
            None => 20,
        };
        match clock {
            Some(t) => {
                let per_move = sat_add(t as int / mtg, inc);
                let scaled = if per_move * 80 > u64::MAX { u64::MAX as int } else { per_move * 80 };
                Some((scaled / 100) as u64)
            },
            None => None,
        }
    }
}

impl UCISearchParams {
    /// No limit given.
    pub fn new() -> (r: Self)
        ensures
            r.depth is None && r.movetime is None && r.wtime is None && r.btime is None,
            r.winc is None && r.binc is None && r.movestogo is None && !r.infinite,
    {
        UCISearchParams {
            depth: None,
            movetime: None,
            wtime: None,
            btime: None,
            winc: None,
            binc: None,
            movestogo: None,
            infinite: false,
        }
    }

    /// The time, in milliseconds, to spend on the next move of the given side.
    pub fn calculate_time_limit(&self, white_to_move: bool) -> (r: Option<u64>)
        ensures
            r == time_limit(*self, white_to_move),
    {
        if self.infinite {
            return None;
        }
        if let Some(mt) = self.movetime {
            return Some(mt);
        }
        let clock = if white_to_move { self.wtime } else { self.btime };
        let time_left = match clock {
            Some(t) => t,
            None => return None,
        };
        let increment = match (if white_to_move { self.winc } else { self.binc }) {
            Some(i) => i,
            None => 0,
        };
        let moves_to_go: u64 = match self.movestogo {
            Some(m) => if m == 0 { 1 } else { m as u64 },
            None => 20,
        };
        let per_move = (time_left / moves_to_go).saturating_add(increment);
        let scaled = match per_move.checked_mul(80) {
            Some(v) => v,
            None => u64::MAX,
        };
        Some(scaled / 100)
    }
}

} // verus!
