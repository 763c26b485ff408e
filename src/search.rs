//! The search coordinator's bookkeeping: which batches of offsets were
//! searched without a hit, the best hit so far, how far the gap-free
//! no-hit prefix from 2 reaches, and when the best hit is final.
//!
//! The coordinator is a state machine: the caller dispatches the batches it
//! mints, runs them wherever it likes, and feeds each result back; every
//! step says what to do next.
use crate::progress::{nanos_of, total_nanos};
use std::time::Duration;
use vstd::prelude::*;

verus! {

/// Initial number of offsets per batch.
pub const INITIAL_BATCH_SIZE: u64 = 100;

/// A batch that returns without a hit in less time than this, in
/// nanoseconds, lets the batch size grow.
pub const GROWTH_THRESHOLD_NANOS: u128 = 30_000_000_000;

/// Relies on `num_cpus::get`: the CPUs available to this process, which its
/// documentation promises to be at least 1.
#[verifier::external_body]
fn available_cpus() -> (r: usize)
    ensures
        r >= 1,
{
    num_cpus::get()
}

/// How many workers to run on `cpus` CPUs: one less than the CPUs, at least one.
pub fn worker_count_for(cpus: usize) -> (r: usize)
    ensures
        r == if cpus > 1 {
            cpus - 1
        } else {
            1
        },
{
    if cpus > 1 {
        cpus - 1
    } else {
        1
    }
}

/// The default number of workers for this machine (at least one).
pub fn default_worker_count() -> (r: usize)
    ensures
        r >= 1,
{
    worker_count_for(available_cpus())
}

/// Whether a batch that took `elapsed` came back under the growth threshold.
pub fn completed_fast(elapsed: Duration) -> (r: bool)
    ensures
        r == (nanos_of(elapsed) < GROWTH_THRESHOLD_NANOS),
{
    total_nanos(&elapsed) < GROWTH_THRESHOLD_NANOS
}

/// Whether offset `x` lies in one of the half-open intervals `[start, end)`.
pub open spec fn covered(intervals: Seq<(u64, u64)>, x: int) -> bool {
    exists|i: int| 0 <= i < intervals.len() && #[trigger] intervals[i].0 <= x < intervals[i].1
}

/// Interval starts never decrease along the sequence.
pub open spec fn sorted_by_start(intervals: Seq<(u64, u64)>) -> bool {
    forall|i: int, j: int| 0 <= i < j < intervals.len() ==> intervals[i].0 <= intervals[j].0
}

/// `bound` is where the gap-free stretch of covered offsets from 2 ends:
/// every offset in `[2, bound)` is covered and `bound` itself is not.
pub open spec fn is_contiguous_bound(intervals: Seq<(u64, u64)>, bound: int) -> bool {
    &&& bound >= 2
    &&& forall|x: int| 2 <= x < bound ==> covered(intervals, x)
    &&& !covered(intervals, bound)
}

/// The end of the gap-free stretch of covered offsets that begins at 2.
pub fn compute_contiguous_lower_bound(intervals: &Vec<(u64, u64)>) -> (bound: u64)
    requires
        sorted_by_start(intervals@),
    ensures
        is_contiguous_bound(intervals@, bound as int),
{
    let mut bound: u64 = 2;
    let mut i: usize = 0;
    while i < intervals.len()
        invariant
            sorted_by_start(intervals@),
            0 <= i <= intervals.len(),
            bound >= 2,
            forall|x: int| 2 <= x < bound ==> covered(intervals@, x),
            forall|k: int| 0 <= k < i ==> intervals@[k].1 <= bound,
        decreases intervals.len() - i,
    {
        let (s, e) = intervals[i];
        if s <= bound {
            if e > bound {
                assert forall|x: int| 2 <= x < e implies covered(intervals@, x) by {
                    if x >= bound {
                        assert(intervals@[i as int].0 <= x < intervals@[i as int].1);
                    }
                }
                bound = e;
            }
            i = i + 1;
        } else {
            assert forall|k: int| 0 <= k < intervals.len() implies !(#[trigger] intervals@[k].0
                <= bound < intervals@[k].1) by {
                if k >= i {
                    assert(intervals@[i as int].0 <= intervals@[k].0);
                }
            }
            return bound;
        }
    }
    bound
}

/// Where the search stands.
#[derive(Debug, Clone, Copy, PartialEq, Eq, Structural)]
pub enum SearchPhase {
    /// No hit yet: new batches are dispatched as results come in.
    Searching,
    /// A hit is known: no new batches, in-flight ones are awaited.
    Draining,
    /// The best hit is proven minimal.
    Done,
    /// Every batch came back and no hit can be declared final.
    Failed,
}

/// What the caller does after a result.
#[derive(Debug, Clone, Copy, PartialEq, Eq, Structural)]
pub enum SearchStep {
    /// Run the batch of offsets `[start, end)`.
    Dispatch { start: u64, end: u64 },
    /// Await another result.
    Wait,
    /// The search is over: `best` is the answer.
    Finish { best: u64 },
    /// The search is over without an answer.
    Fail,
}

/// The coordinator's state, seen as plain values.
pub struct SearchView {
    pub best: Option<u64>,
    pub no_hit: Seq<(u64, u64)>,
    pub lower_bound: u64,
    pub batch_size: u64,
    pub next_start: u64,
    pub outstanding: Seq<(u64, u64)>,
    pub in_flight: nat,
    pub phase: SearchPhase,
}

/// The coordinator's state for one search.
pub struct SearchState {
    best: Option<u64>,
    no_hit: Vec<(u64, u64)>,
    proven_lower_bound: u64,
    batch_size: u64,
    next_start: u64,
    outstanding: Vec<(u64, u64)>,
    phase: SearchPhase,
}

impl View for SearchState {
    type V = SearchView;

    closed spec fn view(&self) -> SearchView {
        SearchView {
            best: self.best,
            no_hit: self.no_hit@,
            lower_bound: self.proven_lower_bound,
            batch_size: self.batch_size,
            next_start: self.next_start,
            outstanding: self.outstanding@,
            in_flight: self.outstanding@.len(),
            phase: self.phase,
        }
    }
}

/// The coordinator's invariants: the no-hit intervals are kept sorted, the
/// lower bound is exactly the reach of their gap-free prefix from 2, the
/// batch size is positive, every outstanding batch is non-empty and below
/// the next start, the phase matches whether a hit is known, a search still
/// running has a best hit (if any) beyond the lower bound, and a finished
/// search has a best hit that the lower bound reaches.
pub open spec fn search_wf(s: SearchView) -> bool {
    &&& sorted_by_start(s.no_hit)
    &&& s.in_flight == s.outstanding.len()
    &&& forall|i: int|
        0 <= i < s.outstanding.len() ==> (#[trigger] s.outstanding[i]).0 < s.outstanding[i].1
            <= s.next_start
    &&& (s.phase == SearchPhase::Searching || s.phase == SearchPhase::Draining) ==> !(
    s.best matches Some(b) && s.lower_bound >= b)
    &&& is_contiguous_bound(s.no_hit, s.lower_bound as int)
    &&& s.batch_size >= 1
    &&& s.next_start >= 2
    &&& (s.phase == SearchPhase::Searching ==> s.best is None)
    &&& (s.phase == SearchPhase::Draining ==> s.best is Some)
    &&& (s.phase == SearchPhase::Done ==> s.best is Some && s.lower_bound >= s.best->Some_0)
}

/// A batch report is truthful for the predicate `accept`: a hit is an
/// accepted offset below the batch's end and the smallest one from the
/// batch's start on, and no hit means nothing in `[start, end)` from 2 on is
/// accepted.
pub open spec fn truthful(start: u64, end: u64, outcome: Option<u64>, accept: spec_fn(int) -> bool) -> bool {
    match outcome {
        Some(m) => accept(m as int) && 2 <= m < end && forall|x: int|
            2 <= x && start <= x < m ==> !#[trigger] accept(x),
        None => forall|x: int| 2 <= x && start <= x < end ==> !#[trigger] accept(x),
    }
}

/// The state agrees with `accept`: no no-hit interval holds an accepted
/// offset from 2 on, and the best hit is accepted.
pub open spec fn agrees(s: SearchView, accept: spec_fn(int) -> bool) -> bool {
    &&& forall|x: int| 2 <= x && covered(s.no_hit, x) ==> !#[trigger] accept(x)
    &&& (s.best matches Some(b) ==> accept(b as int) && b >= 2)
}

/// The best hit after a report of `outcome`.
pub open spec fn improved(best: Option<u64>, outcome: Option<u64>) -> Option<u64> {
    match outcome {
        Some(c) => match best {
            Some(b) => if c < b {
                Some(c)
            } else {
                Some(b)
            },
            None => Some(c),
        },
        None => best,
    }
}

/// The no-hit intervals after a report: a batch without a hit is added
/// whole, and a batch with its smallest hit `m` adds `[start, m)`.
pub open spec fn recorded(
    old_no_hit: Seq<(u64, u64)>,
    new_no_hit: Seq<(u64, u64)>,
    start: u64,
    end: u64,
    outcome: Option<u64>,
) -> bool {
    forall|x: int|
        #[trigger] covered(new_no_hit, x) <==> (covered(old_no_hit, x) || match outcome {
            None => start <= x < end,
            Some(m) => start <= x < m,
        })
}

impl SearchState {
    /// A fresh search: nothing searched, the lower bound at 2, the first
    /// batch to start at 2.
    pub fn new(initial_batch_size: u64) -> (r: SearchState)
        requires
            initial_batch_size >= 1,
        ensures
            search_wf(r@),
            r@.best is None,
            r@.no_hit.len() == 0,
            r@.lower_bound == 2,
            r@.batch_size == initial_batch_size,
            r@.next_start == 2,
            r@.in_flight == 0,
            r@.phase == SearchPhase::Searching,
            accounted(r@),
    {
        SearchState {
            best: None,
            no_hit: Vec::new(),
            proven_lower_bound: 2,
            batch_size: initial_batch_size,
            next_start: 2,
            outstanding: Vec::new(),
            phase: SearchPhase::Searching,
        }
    }

    /// The best hit so far.
    pub fn best(&self) -> (r: Option<u64>)
        ensures
            r == self@.best,
    {
        self.best
    }

    /// The proven lower bound: every offset in `[2, bound)` was searched without a hit.
    pub fn proven_lower_bound(&self) -> (r: u64)
        ensures
            r == self@.lower_bound,
    {
        self.proven_lower_bound
    }

    /// The current batch size.
    pub fn batch_size(&self) -> (r: u64)
        ensures
            r == self@.batch_size,
    {
        self.batch_size
    }

    /// How many dispatched batches have not reported yet.
    pub fn in_flight(&self) -> (r: usize)
        ensures
            r == self@.in_flight,
    {
        self.outstanding.len()
    }

    /// The phase.
    pub fn phase(&self) -> (r: SearchPhase)
        ensures
            r == self@.phase,
    {
        self.phase
    }

    /// Mints the next batch `[next_start, next_start + batch_size)` while
    /// searching; `None` once a hit is known (no new batches then) or when
    /// the offsets run out of the `u64` range.
    pub fn mint(&mut self) -> (r: Option<(u64, u64)>)
        requires
            search_wf(old(self)@),
        ensures
            search_wf(final(self)@),
            final(self)@.best == old(self)@.best,
            final(self)@.no_hit == old(self)@.no_hit,
            final(self)@.lower_bound == old(self)@.lower_bound,
            final(self)@.batch_size == old(self)@.batch_size,
            final(self)@.phase == old(self)@.phase,
            old(self)@.phase != SearchPhase::Searching ==> r is None,
            r is None ==> final(self)@.next_start == old(self)@.next_start,
            r is None ==> final(self)@.in_flight == old(self)@.in_flight,
            old(self)@.phase == SearchPhase::Searching && old(self)@.next_start
                + old(self)@.batch_size <= u64::MAX && old(self)@.in_flight < usize::MAX ==> r
                == Some((old(self)@.next_start, (old(self)@.next_start + old(self)@.batch_size) as u64)),
            r is Some ==> final(self)@.next_start == r->Some_0.1 && final(self)@.in_flight
                == old(self)@.in_flight + 1,
            r is Some ==> r->Some_0.0 == old(self)@.next_start && r->Some_0.1 == old(self)@.next_start
                + old(self)@.batch_size && r->Some_0.0 < r->Some_0.1,
            r is Some ==> final(self)@.outstanding == old(self)@.outstanding.push(r->Some_0),
            r is None ==> final(self)@.outstanding == old(self)@.outstanding,
            accounted(old(self)@) ==> accounted(final(self)@),
    {
        if self.phase != SearchPhase::Searching {
            return None;
        }
        match self.next_start.checked_add(self.batch_size) {
            Some(end) => {
                if self.outstanding.len() == usize::MAX {
                    return None;
                }
                let start = self.next_start;
                let ghost before = self@;
                self.next_start = end;
                self.outstanding.push((start, end));
                proof {
                    let after = self@;
                    assert(after.outstanding[after.outstanding.len() - 1] == (start, end));
                    assert forall|i: int| 0 <= i < after.outstanding.len() implies (
                    #[trigger] after.outstanding[i]).0 < after.outstanding[i].1 <= after.next_start by {
                        if i < before.outstanding.len() {
                            assert(after.outstanding[i] == before.outstanding[i]);
                        }
                    }
                    if accounted(before) {
                        assert forall|x: int|
                            2 <= x < after.next_start && (after.best matches Some(b) ==> x < b)
                                implies #[trigger] covered(after.no_hit, x) || covered(
                            after.outstanding,
                            x,
                        ) by {
                            if x >= start {
                                assert(after.outstanding[after.outstanding.len() - 1].0 <= x);
                            } else if !covered(before.no_hit, x) {
                                let k = choose|k: int|
                                    0 <= k < before.outstanding.len()
                                        && #[trigger] before.outstanding[k].0 <= x
                                        < before.outstanding[k].1;
                                assert(after.outstanding[k] == before.outstanding[k]);
                            }
                        }
                    }
                }
                Some((start, end))
            },
            None => None,
        }
    }

    /// Mints up to `count` batches one after another, each of the current
    /// batch size, starting at the next start. While searching, exactly
    /// `count` are minted when their offsets fit in `u64`; fewer only when
    /// the offsets run out.
    pub fn seed(&mut self, count: usize) -> (r: Vec<(u64, u64)>)
        requires
            search_wf(old(self)@),
        ensures
            search_wf(final(self)@),
            final(self)@.best == old(self)@.best,
            final(self)@.no_hit == old(self)@.no_hit,
            final(self)@.lower_bound == old(self)@.lower_bound,
            final(self)@.batch_size == old(self)@.batch_size,
            final(self)@.phase == old(self)@.phase,
            final(self)@.in_flight == old(self)@.in_flight + r.len(),
            r.len() <= count,
            old(self)@.phase != SearchPhase::Searching ==> r.len() == 0,
            old(self)@.phase == SearchPhase::Searching && old(self)@.next_start + count
                * old(self)@.batch_size <= u64::MAX && old(self)@.in_flight + count <= usize::MAX
                ==> r.len() == count,
            forall|i: int|
                0 <= i < r.len() ==> (#[trigger] r@[i]).0 == old(self)@.next_start + i * old(self)@.batch_size
                    && r@[i].1 == old(self)@.next_start + (i + 1) * old(self)@.batch_size,
            final(self)@.next_start == old(self)@.next_start + r.len() * old(self)@.batch_size,
            final(self)@.outstanding == old(self)@.outstanding + r@,
            accounted(old(self)@) ==> accounted(final(self)@),
    {
        let mut out: Vec<(u64, u64)> = Vec::new();
        let ghost start = self@;
        let ghost bs = self@.batch_size as int;
        let mut i: usize = 0;
        let mut running = true;
        while running && i < count
            invariant
                search_wf(self@),
                self@.best == start.best,
                self@.no_hit == start.no_hit,
                self@.lower_bound == start.lower_bound,
                self@.phase == start.phase,
                self@.batch_size == bs,
                bs >= 1,
                self@.in_flight == start.in_flight + out.len(),
                start.phase != SearchPhase::Searching ==> out.len() == 0,
                out.len() == i,
                i <= count,
                forall|k: int|
                    0 <= k < out.len() ==> (#[trigger] out@[k]).0 == start.next_start + k * bs
                        && out@[k].1 == start.next_start + (k + 1) * bs,
                self@.next_start == start.next_start + out.len() * bs,
                self@.outstanding == start.outstanding + out@,
                accounted(start) ==> accounted(self@),
                !running ==> !(start.phase == SearchPhase::Searching && start.next_start + count * bs
                    <= u64::MAX && start.in_flight + count <= usize::MAX),
            decreases count - i + if running {
                1int
            } else {
                0int
            },
        {
            let ghost prev = out@;
            proof {
                lemma_next_batch(start.next_start as int, i as int, bs, count as int);
            }
            match self.mint() {
                Some(b) => {
                    out.push(b);
                    proof {
                        assert forall|k: int| 0 <= k < out.len() implies (#[trigger] out@[k]).0
                            == start.next_start + k * bs && out@[k].1 == start.next_start + (k + 1)
                            * bs by {
                            if k < i {
                                assert(out@[k] == prev[k]);
                            }
                        }
                        assert(self@.outstanding =~= start.outstanding + out@);
                    }
                    i = i + 1;
                },
                None => {
                    running = false;
                },
            }
        }
        out
    }

    /// Adds `[start, end)` to the no-hit intervals, keeping them sorted.
    fn record_no_hit(&mut self, start: u64, end: u64)
        requires
            sorted_by_start(old(self).no_hit@),
        ensures
            sorted_by_start(final(self).no_hit@),
            forall|x: int|
                #[trigger] covered(final(self).no_hit@, x) <==> (covered(old(self).no_hit@, x) || (
                start <= x < end)),
            final(self).best == old(self).best,
            final(self).proven_lower_bound == old(self).proven_lower_bound,
            final(self).batch_size == old(self).batch_size,
            final(self).next_start == old(self).next_start,
            final(self).outstanding == old(self).outstanding,
            final(self).phase == old(self).phase,
    {
        let mut i: usize = 0;
        while i < self.no_hit.len() && self.no_hit[i].0 <= start
            invariant
                i <= self.no_hit.len(),
                forall|k: int| 0 <= k < i ==> self.no_hit@[k].0 <= start,
            decreases self.no_hit.len() - i,
        {
            i = i + 1;
        }
        let ghost old_seq = self.no_hit@;
        self.no_hit.insert(i, (start, end));
        let ghost new_seq = self.no_hit@;
        assert(new_seq == old_seq.insert(i as int, (start, end)));
        assert forall|a: int, b: int| 0 <= a < b < new_seq.len() implies new_seq[a].0
            <= new_seq[b].0 by {
            if b < i {
            } else if b == i {
                assert(new_seq[a] == old_seq[a]);
            } else if a == i {
                assert(new_seq[b] == old_seq[b - 1]);
            } else if a < i {
                assert(new_seq[b] == old_seq[b - 1]);
            } else {
                assert(new_seq[a] == old_seq[a - 1]);
            }
        }
        assert forall|x: int| #[trigger] covered(new_seq, x) <==> (covered(old_seq, x) || (start
            <= x < end)) by {
            if covered(old_seq, x) {
                let k = choose|k: int| 0 <= k < old_seq.len() && #[trigger] old_seq[k].0 <= x
                    < old_seq[k].1;
                if k < i {
                    assert(new_seq[k] == old_seq[k]);
                    assert(new_seq[k].0 <= x < new_seq[k].1);
                } else {
                    assert(new_seq[k + 1] == old_seq[k]);
                    assert(new_seq[k + 1].0 <= x < new_seq[k + 1].1);
                }
                assert(covered(new_seq, x));
            }
            if start <= x < end {
                assert(new_seq[i as int] == (start, end));
                assert(new_seq[i as int].0 <= x < new_seq[i as int].1);
                assert(covered(new_seq, x));
            }
            if covered(new_seq, x) {
                let k = choose|k: int| 0 <= k < new_seq.len() && #[trigger] new_seq[k].0 <= x
                    < new_seq[k].1;
                if k < i {
                    assert(new_seq[k] == old_seq[k]);
                    assert(old_seq[k].0 <= x < old_seq[k].1);
                } else if k > i {
                    assert(new_seq[k] == old_seq[k - 1]);
                    assert(old_seq[k - 1].0 <= x < old_seq[k - 1].1);
                }
            }
        }
    }

    /// Takes the result of the batch `[start, end)`: `outcome` is its
    /// smallest hit, if any, and `fast` whether it came back under the time
    /// threshold. Returns what to do next. A result for a batch that is not
    /// outstanding changes nothing.
    #[verifier::rlimit(40)]
    pub fn on_result(&mut self, start: u64, end: u64, outcome: Option<u64>, fast: bool) -> (r:
        SearchStep)
        requires
            search_wf(old(self)@),
            old(self)@.phase == SearchPhase::Searching || old(self)@.phase == SearchPhase::Draining,
        ensures
            search_wf(final(self)@),
            !old(self)@.outstanding.contains((start, end)) ==> final(self)@ == old(self)@
                && r is Wait,
            old(self)@.outstanding.contains((start, end)) ==> final(self)@.best == improved(
                old(self)@.best,
                outcome,
            ),
            old(self)@.best matches Some(b) ==> final(self)@.best matches Some(c) && c <= b,
            old(self)@.outstanding.contains((start, end)) ==> recorded(
                old(self)@.no_hit,
                final(self)@.no_hit,
                start,
                end,
                outcome,
            ),
            final(self)@.lower_bound >= old(self)@.lower_bound,
            final(self)@.batch_size >= old(self)@.batch_size,
            old(self)@.outstanding.contains((start, end)) && outcome is None && fast
                && old(self)@.batch_size <= end - start ==> final(self)@.batch_size
                == if old(self)@.batch_size <= u64::MAX / 2 {
                (2 * old(self)@.batch_size) as u64
            } else {
                u64::MAX
            },
            !(old(self)@.outstanding.contains((start, end)) && outcome is None && fast
                && old(self)@.batch_size <= end - start) ==> final(self)@.batch_size
                == old(self)@.batch_size,
            r matches SearchStep::Finish { best } ==> final(self)@.best == Some(best)
                && final(self)@.lower_bound >= best && final(self)@.phase == SearchPhase::Done,
            r matches SearchStep::Finish { best } ==> forall|x: int|
                2 <= x < best ==> covered(final(self)@.no_hit, x),
            final(self)@.phase == SearchPhase::Done <==> r is Finish,
            final(self)@.best matches Some(b) && final(self)@.lower_bound >= b ==> r is Finish,
            r matches SearchStep::Dispatch { start: s, end: e } ==> final(self)@.best is None
                && s == old(self)@.next_start && s < e && e == final(self)@.next_start && e - s
                == final(self)@.batch_size && final(self)@.outstanding.contains((s, e)),
            !(r is Dispatch) ==> final(self)@.next_start == old(self)@.next_start,
            old(self)@.outstanding.contains((start, end)) && final(self)@.best is None
                && old(self)@.next_start + final(self)@.batch_size <= u64::MAX ==> r is Dispatch,
            forall|iv: (u64, u64)|
                old(self)@.outstanding.contains(iv) && iv != (start, end)
                    ==> final(self)@.outstanding.contains(iv),
            old(self)@.outstanding.contains((start, end)) && !(r is Dispatch)
                ==> final(self)@.in_flight == old(self)@.in_flight - 1,
            old(self)@.outstanding.contains((start, end)) && r is Dispatch
                ==> final(self)@.in_flight == old(self)@.in_flight,
            r is Fail ==> final(self)@.in_flight == 0 && final(self)@.phase == SearchPhase::Failed,
            old(self)@.outstanding.contains((start, end)) && r is Wait ==> final(self)@.in_flight
                > 0,
            final(self)@.phase == SearchPhase::Searching ==> final(self)@.best is None,
            accounted(old(self)@) && (outcome matches Some(m) ==> m < end) ==> accounted(
                final(self)@,
            ),
            accounted(final(self)@) && final(self)@.best is Some ==> !(r is Fail),
            accounted(old(self)@) && (outcome matches Some(m) ==> m < end)
                && old(self)@.outstanding.contains((start, end)) && final(self)@.best is Some
                && final(self)@.in_flight == 0 ==> r is Finish,
    {
        let mut idx: usize = 0;
        while idx < self.outstanding.len() && !(self.outstanding[idx].0 == start
            && self.outstanding[idx].1 == end)
            invariant
                idx <= self.outstanding.len(),
                forall|k: int| 0 <= k < idx ==> self.outstanding@[k] != (start, end),
            decreases self.outstanding.len() - idx,
        {
            idx = idx + 1;
        }
        if idx == self.outstanding.len() {
            assert(!self@.outstanding.contains((start, end)));
            return SearchStep::Wait;
        }
        let ghost before = self@;
        assert(before.outstanding[idx as int] == (start, end));
        assert(before.outstanding.contains((start, end)));
        self.outstanding.remove(idx);
        let ghost removed = self.outstanding@;
        assert(removed == before.outstanding.remove(idx as int));
        match outcome {
            Some(c) => {
                let better = match self.best {
                    Some(b) => c < b,
                    None => true,
                };
                if better {
                    self.best = Some(c);
                }
                self.phase = SearchPhase::Draining;
                if start < c {
                    self.record_no_hit(start, c);
                }
            },
            None => {
                self.record_no_hit(start, end);
            },
        }
        assert(recorded(before.no_hit, self.no_hit@, start, end, outcome));
        let ghost old_bound = self.proven_lower_bound;
        let bound = compute_contiguous_lower_bound(&self.no_hit);
        proof {
            if bound < old_bound {
                assert(covered(before.no_hit, bound as int));
            }
        }
        self.proven_lower_bound = bound;
        if outcome.is_none() && fast && self.batch_size <= end - start {
            self.batch_size = if self.batch_size <= u64::MAX / 2 {
                2 * self.batch_size
            } else {
                u64::MAX
            };
        }
        proof {
            lemma_report_bookkeeping(before, self@, idx as int, start, end, outcome);
        }
        let ghost now_state = self@;
        if let Some(b) = self.best {
            if bound >= b {
                self.phase = SearchPhase::Done;
                return SearchStep::Finish { best: b };
            }
        }
        if self.best.is_none() {
            match self.mint() {
                Some((s, e)) => {
                    proof {
                        let pushed = self@.outstanding;
                        assert(pushed[pushed.len() - 1] == (s, e));
                        assert forall|iv: (u64, u64)|
                            now_state.outstanding.contains(iv) implies pushed.contains(iv) by {
                            let k = choose|k: int|
                                0 <= k < now_state.outstanding.len() && now_state.outstanding[k] == iv;
                            assert(pushed[k] == iv);
                        }
                    }
                    return SearchStep::Dispatch { start: s, end: e };
                },
                None => {},
            }
        }
        if self.outstanding.len() == 0 {
            let ghost pre = self@;
            proof {
                if accounted(pre) && pre.best is Some {
                    lemma_accounted_search_is_proven(pre);
                }
            }
            self.phase = SearchPhase::Failed;
            assert(self@.best == pre.best && self@.no_hit == pre.no_hit && self@.outstanding
                == pre.outstanding && self@.next_start == pre.next_start);
            assert(accounted(self@) == accounted(pre));
            SearchStep::Fail
        } else {
            SearchStep::Wait
        }
    }
}

/// What taking one report does to the outstanding batches and to the
/// accounting of offsets, given the state before the report and after it
/// was recorded.
proof fn lemma_report_bookkeeping(
    before: SearchView,
    now: SearchView,
    idx: int,
    start: u64,
    end: u64,
    outcome: Option<u64>,
)
    requires
        search_wf(before),
        0 <= idx < before.outstanding.len(),
        before.outstanding[idx] == (start, end),
        now.outstanding == before.outstanding.remove(idx),
        now.next_start == before.next_start,
        now.best == improved(before.best, outcome),
        recorded(before.no_hit, now.no_hit, start, end, outcome),
    ensures
        forall|iv: (u64, u64)|
            before.outstanding.contains(iv) && iv != (start, end) ==> now.outstanding.contains(iv),
        forall|i: int|
            0 <= i < now.outstanding.len() ==> (#[trigger] now.outstanding[i]).0
                < now.outstanding[i].1 <= now.next_start,
        accounted(before) && (outcome matches Some(m) ==> m < end) ==> accounted(now),
{
    assert forall|iv: (u64, u64)|
        before.outstanding.contains(iv) && iv != (start, end) implies now.outstanding.contains(iv) by {
        let k = choose|k: int| 0 <= k < before.outstanding.len() && before.outstanding[k] == iv;
        if k < idx {
            assert(now.outstanding[k] == iv);
        } else {
            assert(k != idx);
            assert(now.outstanding[k - 1] == iv);
        }
    }
    assert forall|i: int| 0 <= i < now.outstanding.len() implies (#[trigger] now.outstanding[i]).0
        < now.outstanding[i].1 <= now.next_start by {
        if i < idx {
            assert(now.outstanding[i] == before.outstanding[i]);
        } else {
            assert(now.outstanding[i] == before.outstanding[i + 1]);
        }
    }
    if accounted(before) && (outcome matches Some(m) ==> m < end) {
        assert(before.outstanding[idx].1 <= before.next_start);
        assert forall|x: int|
            2 <= x < now.next_start && (now.best matches Some(b) ==> x < b) implies #[trigger] covered(
            now.no_hit,
            x,
        ) || covered(now.outstanding, x) by {
            if start <= x < end {
                match outcome {
                    None => {},
                    Some(m) => {
                        assert(x < m);
                    },
                }
            } else if !covered(before.no_hit, x) {
                assert(before.best matches Some(b) ==> x < b);
                let k = choose|k: int|
                    0 <= k < before.outstanding.len() && #[trigger] before.outstanding[k].0 <= x
                        < before.outstanding[k].1;
                let iv = before.outstanding[k];
                assert(before.outstanding.contains(iv));
                assert(now.outstanding.contains(iv));
                let j = choose|j: int| 0 <= j < now.outstanding.len() && now.outstanding[j] == iv;
                assert(now.outstanding[j].0 <= x < now.outstanding[j].1);
            }
        }
    }
}

/// The batch after `i` batches of size `bs` from `ns` ends at
/// `ns + (i + 1) * bs`, which is at most `ns + count * bs` while `i < count`.
proof fn lemma_next_batch(ns: int, i: int, bs: int, count: int)
    requires
        0 <= i,
        bs >= 1,
    ensures
        ns + i * bs + bs == ns + (i + 1) * bs,
        i < count ==> ns + (i + 1) * bs <= ns + count * bs,
{
    assert(i * bs + bs == (i + 1) * bs) by (nonlinear_arith);
    if i < count {
        assert((i + 1) * bs <= count * bs) by (nonlinear_arith)
            requires
                i + 1 <= count,
                bs >= 1,
        ;
    }
}

/// Every offset from 2 below the next start and below the best hit is
/// accounted for: searched without a hit, or inside an outstanding batch;
/// and the best hit lies below the next start.
pub open spec fn accounted(s: SearchView) -> bool {
    &&& (s.best matches Some(b) ==> b < s.next_start)
    &&& forall|x: int|
        2 <= x < s.next_start && (s.best matches Some(b) ==> x < b) ==> #[trigger] covered(
            s.no_hit,
            x,
        ) || covered(s.outstanding, x)
}

/// A search whose offsets below its best hit are all accounted for and
/// that has no batch outstanding has proven its best hit: its lower bound
/// reaches it.
pub proof fn lemma_accounted_search_is_proven(s: SearchView)
    requires
        search_wf(s),
        accounted(s),
        s.best is Some,
        s.in_flight == 0,
    ensures
        s.lower_bound >= s.best->Some_0,
{
    let b = s.best->Some_0;
    if s.lower_bound < b {
        assert(covered(s.no_hit, s.lower_bound as int) || covered(s.outstanding, s.lower_bound as int));
    }
}

/// A report that tells the truth keeps the state in agreement with the
/// predicate it tells of.
pub proof fn lemma_truthful_report_keeps_agreement(
    before: SearchView,
    after: SearchView,
    start: u64,
    end: u64,
    outcome: Option<u64>,
    accept: spec_fn(int) -> bool,
)
    requires
        agrees(before, accept),
        truthful(start, end, outcome, accept),
        after.best == improved(before.best, outcome),
        recorded(before.no_hit, after.no_hit, start, end, outcome),
    ensures
        agrees(after, accept),
{
    assert forall|x: int| 2 <= x && covered(after.no_hit, x) implies !#[trigger] accept(x) by {
        if !covered(before.no_hit, x) {
            match outcome {
                None => assert(start <= x < end),
                Some(m) => assert(start <= x < m),
            }
        }
    }
}

/// A finished search returns the least accepted offset: when every report
/// so far told the truth, the state finished with `best` has `best`
/// accepted and no accepted offset in `[2, best)`; and no offset below
/// `best` is outside the no-hit intervals.
pub proof fn lemma_finish_is_least_accepted(s: SearchView, accept: spec_fn(int) -> bool)
    requires
        search_wf(s),
        agrees(s, accept),
        s.phase == SearchPhase::Done,
    ensures
        accept(s.best->Some_0 as int),
        forall|x: int| 2 <= x < s.best->Some_0 ==> covered(s.no_hit, x) && !accept(x),
{
}

/// A search space whose only accepted offset is an injected `k >= 2`: a
/// truthful search can only finish with `best == k`, and only once the
/// proven lower bound has reached `k`.
pub proof fn lemma_injected_hit_is_found(s: SearchView, k: int)
    requires
        k >= 2,
        search_wf(s),
        agrees(s, |x: int| x == k),
        s.phase == SearchPhase::Done,
    ensures
        s.best == Some(k as u64),
        s.lower_bound >= k,
{
}

} // verus!
