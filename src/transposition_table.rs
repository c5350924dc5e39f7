use vstd::prelude::*;
use crate::board_state::BoardState;
use crate::zobrist::{ZobristTables, board_hash, compute_board_hash};

verus! {

/// Bound kind of an entry whose score is exact.
pub const EXACT: u8 = 0;
/// Bound kind of an entry whose score is an upper bound.
pub const UPPER: u8 = 1;
/// Bound kind of an entry whose score is a lower bound.
pub const LOWER: u8 = 2;

/// Bytes taken by one entry.
pub const TT_ENTRY_BYTES: usize = 24;

/// One remembered search result.
#[derive(Clone, Copy, Debug)]
pub struct TTEntry {
    pub hash: u64,
    pub depth: i32,
    pub score: i32,
    /// `EXACT`, `UPPER` or `LOWER`.
    pub flag: u8,
    pub best_move: (u8, u8),
}

/// A fixed-size table of search results, one entry per slot, indexed by
/// the hash modulo the capacity.
pub struct TranspositionTable {
    pub entries: Vec<Option<TTEntry>>,
    pub size: usize,
}

/// The slot of a hash in a table of `size` entries.
pub open spec fn slot(hash: u64, size: int) -> int {
    hash as int % size
}

/// The entries after storing a result: a deeper entry for the same hash is
/// kept; anything else in the slot is overwritten.
pub open spec fn stored(
    entries: Seq<Option<TTEntry>>,
    hash: u64,
    depth: i32,
    score: i32,
    flag: u8,
    best_move: (u8, u8),
) -> Seq<Option<TTEntry>> {
    let i = slot(hash, entries.len() as int);
    match entries[i] {
        Some(e) if e.depth > depth && e.hash == hash => entries,
        _ => entries.update(i, Some(TTEntry { hash, depth, score, flag, best_move })),
    }
}

/// What a probe returns: nothing unless the slot holds this hash at least
/// as deep as asked; then an exact score as it is, an upper bound as `alpha`
/// when it is at most `alpha`, a lower bound as `beta` when it is at least
/// `beta`.
pub open spec fn probed(
    entries: Seq<Option<TTEntry>>,
    hash: u64,
    depth: i32,
    alpha: i32,
    beta: i32,
) -> Option<(i32, (u8, u8))> {
    match entries[slot(hash, entries.len() as int)] {
        Some(e) => if e.hash == hash && e.depth >= depth {
            if e.flag == EXACT {
                Some((e.score, e.best_move))
            } else if e.flag == UPPER && e.score <= alpha {
                Some((alpha, e.best_move))
            } else if e.flag == LOWER && e.score >= beta {
                Some((beta, e.best_move))
            } else {
                None
            }
        } else {
            None
        },
        None => None,
    }
}

/// The best move recorded for a hash, whatever the depth.
pub open spec fn recorded_move(entries: Seq<Option<TTEntry>>, hash: u64) -> Option<(u8, u8)> {
    match entries[slot(hash, entries.len() as int)] {
        Some(e) => if e.hash == hash {
            Some(e.best_move)
        } else {
            None
        },
        None => None,
    }
}

/// Every stored score lies within `-bound..=bound`.
pub open spec fn scores_within(entries: Seq<Option<TTEntry>>, bound: int) -> bool {
    forall|i: int| 0 <= i < entries.len() ==> (#[trigger] entries[i] matches Some(e) ==> -bound <= e.score <= bound)
}

impl TranspositionTable {
    pub open spec fn wf(&self) -> bool {
        &&& self.size == self.entries@.len()
        &&& self.size > 0
    }

    /// An empty table of about `size_mb` megabytes, with at least 1024 entries.
    pub fn new(size_mb: usize) -> (r: Self)
        requires
            size_mb * 1048576 <= usize::MAX,
        ensures
            r.wf(),
            r.size == if size_mb * 1048576 / TT_ENTRY_BYTES as int > 1024 {
                size_mb * 1048576 / TT_ENTRY_BYTES as int
            } else {
                1024
            },
            forall|i: int| 0 <= i < r.size ==> r.entries@[i] is None,
    {
        let bytes = size_mb * 1048576;
        let n = bytes / TT_ENTRY_BYTES;
        let size = if n > 1024 { n } else { 1024 };
        let mut entries: Vec<Option<TTEntry>> = Vec::new();
        let mut i: usize = 0;
        while i < size
            invariant
                i <= size,
                entries@.len() == i,
                forall|j: int| 0 <= j < i ==> entries@[j] is None,
            decreases size - i,
        {
            entries.push(None);
            i = i + 1;
        }
        TranspositionTable { entries, size }
    }

    fn index(&self, hash: u64) -> (r: usize)
        requires
            self.wf(),
        ensures
            r as int == slot(hash, self.size as int),
            r < self.size,
    {
        (hash % (self.size as u64)) as usize
    }

    /// Remembers a result unless the slot holds a deeper one for this hash.
    pub fn store(&mut self, hash: u64, depth: i32, score: i32, flag: u8, best_move: (u8, u8))
        requires
            old(self).wf(),
        ensures
            final(self).wf(),
            final(self).size == old(self).size,
            final(self).entries@ == stored(old(self).entries@, hash, depth, score, flag, best_move),
    {
        let index = self.index(hash);
        if let Some(existing) = &self.entries[index] {
            if existing.depth > depth && existing.hash == hash {
                return;
            }
        }
        self.entries.set(index, Some(TTEntry { hash, depth, score, flag, best_move }));
    }

    /// Looks up a result usable at `depth` within the window `alpha..beta`.
    pub fn probe(&self, hash: u64, depth: i32, alpha: i32, beta: i32) -> (r: Option<(i32, (u8, u8))>)
        requires
            self.wf(),
        ensures
            r == probed(self.entries@, hash, depth, alpha, beta),
    {
        let index = self.index(hash);
        if let Some(entry) = &self.entries[index] {
            if entry.hash == hash && entry.depth >= depth {
                if entry.flag == EXACT {
                    return Some((entry.score, entry.best_move));
                } else if entry.flag == UPPER {
                    if entry.score <= alpha {
                        return Some((alpha, entry.best_move));
                    }
                } else if entry.flag == LOWER {
                    if entry.score >= beta {
                        return Some((beta, entry.best_move));
                    }
                }
            }
        }
        None
    }

    /// Empties every slot.
    pub fn clear(&mut self)
        requires
            old(self).wf(),
        ensures
            final(self).wf(),
            final(self).size == old(self).size,
            forall|i: int| 0 <= i < final(self).size ==> final(self).entries@[i] is None,
    {
        let ghost n = self.size;
        let mut i: usize = 0;
        while i < self.size
            invariant
                self.wf(),
                self.size == n,
                i <= self.size,
                forall|j: int| 0 <= j < i ==> self.entries@[j] is None,
            decreases self.size - i,
        {
            self.entries.set(i, None);
            i = i + 1;
        }
    }
}

/// Number of occupied slots among the first `n`.
pub open spec fn used_upto(entries: Seq<Option<TTEntry>>, n: int) -> int
    decreases n,
{
    if n <= 0 {
        0
    } else {
        used_upto(entries, n - 1) + if entries[n - 1] is Some { 1int } else { 0int }
    }
}

impl TranspositionTable {
    /// The capacity and the number of occupied slots.
    pub fn stats(&self) -> (r: (usize, usize))
        requires
            self.wf(),
        ensures
            r.0 == self.size,
            r.1 == used_upto(self.entries@, self.size as int),
    {
        let mut used: usize = 0;
        let mut i: usize = 0;
        while i < self.size
            invariant
                self.wf(),
                i <= self.size,
                used == used_upto(self.entries@, i as int),
                used <= i,
            decreases self.size - i,
        {
            if self.entries[i].is_some() {
                used = used + 1;
            }
            i = i + 1;
        }
        (self.size, used)
    }
}

/// An empty table of about `size_mb` megabytes, with at least 1024 entries.
pub fn init_transposition_table(size_mb: usize) -> (r: TranspositionTable)
    requires
        size_mb * 1048576 <= usize::MAX,
    ensures
        r.wf(),
        r.size == if size_mb * 1048576 / TT_ENTRY_BYTES as int > 1024 {
            size_mb * 1048576 / TT_ENTRY_BYTES as int
        } else {
            1024
        },
        forall|i: int| 0 <= i < r.size ==> r.entries@[i] is None,
{
    TranspositionTable::new(size_mb)
}

/// The best move recorded for `hash`, whatever the depth.
pub fn get_tt_move(tt: &TranspositionTable, hash: u64) -> (r: Option<(u8, u8)>)
    requires
        tt.wf(),
    ensures
        r == recorded_move(tt.entries@, hash),
{
    let index = tt.index(hash);
    if let Some(entry) = &tt.entries[index] {
        if entry.hash == hash {
            return Some(entry.best_move);
        }
    }
    None
}

/// The best move recorded for `board_state`, whatever the depth.
pub fn get_best_move_from_tt(z: &ZobristTables, board_state: &BoardState, tt: &TranspositionTable) -> (r: Option<(u8, u8)>)
    requires
        tt.wf(),
        z.wf(),
    ensures
        r == recorded_move(tt.entries@, board_hash(z, *board_state)),
{
    let hash = compute_board_hash(z, board_state);
    get_tt_move(tt, hash)
}

/// Storing an exact result at depth `d` and probing the same hash at any
/// depth up to `d` gives back that score, whatever the window.
pub proof fn lemma_exact_entry_found(
    entries: Seq<Option<TTEntry>>,
    hash: u64,
    d: i32,
    score: i32,
    best_move: (u8, u8),
    depth: i32,
    alpha: i32,
    beta: i32,
)
    requires
        entries.len() > 0,
        depth <= d,
        entries[slot(hash, entries.len() as int)] matches Some(e) ==> (e.hash != hash || e.depth <= d),
    ensures
        probed(stored(entries, hash, d, score, EXACT, best_move), hash, depth, alpha, beta) == Some(
            (score, best_move),
        ),
{
}

/// Storing a lower bound and probing with `beta` at most that bound, at a
/// depth no deeper, gives a cutoff at `beta`.
pub proof fn lemma_lower_bound_cutoff(
    entries: Seq<Option<TTEntry>>,
    hash: u64,
    d: i32,
    score: i32,
    best_move: (u8, u8),
    depth: i32,
    alpha: i32,
    beta: i32,
)
    requires
        entries.len() > 0,
        depth <= d,
        beta <= score,
        entries[slot(hash, entries.len() as int)] matches Some(e) ==> (e.hash != hash || e.depth <= d),
    ensures
        probed(stored(entries, hash, d, score, LOWER, best_move), hash, depth, alpha, beta) == Some(
            (beta, best_move),
        ),
{
}

/// Probing deeper than what was stored gives nothing.
pub proof fn lemma_deeper_probe_misses(
    entries: Seq<Option<TTEntry>>,
    hash: u64,
    d: i32,
    score: i32,
    flag: u8,
    best_move: (u8, u8),
    depth: i32,
    alpha: i32,
    beta: i32,
)
    requires
        entries.len() > 0,
        depth > d,
        entries[slot(hash, entries.len() as int)] matches Some(e) ==> (e.hash != hash || e.depth <= d),
    ensures
        probed(stored(entries, hash, d, score, flag, best_move), hash, depth, alpha, beta) is None,
{
}

} // verus!
