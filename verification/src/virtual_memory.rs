//! The frame-allocation policies' shared machinery: the per-process
//! allocation state with its LRU tracker, the single emulation step that
//! the equal-split and proportional engines share, and the one entry
//! point every policy implements.
//!
//! Page identifiers are shared between the per-process traces and the one
//! bounded pool, so the engines require the processes' page sets to be
//! pairwise disjoint; the harness assigns each process its own page range.

use vstd::prelude::*;

use crate::arith::sum_usize;
use crate::lru::Lru;
use crate::page_set::PageSet;
use crate::process::{trace_accesses, Process};

pub mod equal_allocation;
pub mod page_fault_frequency;
pub mod proportional;
pub mod working_set_size;

verus! {

/// A policy run that cannot go on: a process needs a frame, holds none,
/// and no frame can be freed or reclaimed for it. Surfacing this as a
/// hard failure keeps a run from silently fabricating fault counts.
#[derive(Clone, Copy, Debug, PartialEq, Eq, Structural)]
pub enum EmulationError {
    Starvation,
}

/// What one visit to a process produced.
pub(crate) enum EmulationStepResult {
    Done(usize),
    NoMemoryAvailable,
    NoMoreWork,
}

/// No page is referenced by both processes.
pub open spec fn pages_disjoint(a: &Process, b: &Process) -> bool {
    forall|p: usize| a.pages().contains(p) ==> !b.pages().contains(p)
}

/// Every trace is well-formed and no two share a page.
pub open spec fn processes_ok(ps: Seq<Process>) -> bool {
    &&& forall|i: int| 0 <= i < ps.len() ==> (#[trigger] ps[i]).wf()
    &&& forall|i: int, j: int|
        0 <= i < ps.len() && 0 <= j < ps.len() && i != j ==> pages_disjoint(&ps[i], &ps[j])
}

/// Every trace is short enough for a per-process access counter.
pub open spec fn traces_fit(ps: Seq<Process>) -> bool {
    forall|i: int|
        0 <= i < ps.len() ==> trace_accesses((#[trigger] ps[i]).bursts()) <= usize::MAX as int
}

/// One process's allocation state under the equal-split and proportional
/// policies: its remaining trace, the LRU tracker over its resident
/// pages, the frames it holds, its current quota, and its private
/// logical clock.
pub(crate) struct ProcessWrapper {
    pub(crate) process: Process,
    pub(crate) lru: Lru,
    pub(crate) used_space: usize,
    pub(crate) available_size: usize,
    pub(crate) abstract_time_counter: usize,
}

/// Structural soundness of one wrapper on its own: the trace is
/// well-formed, the tracker counts exactly the held frames, every tracked
/// page is the process's own, recorded times stay below the clock, and
/// the clock has room for the remaining accesses.
pub(crate) open spec fn wrapper_ok(w: &ProcessWrapper) -> bool {
    &&& w.process.wf()
    &&& w.lru.wf()
    &&& w.lru@.len() == w.used_space
    &&& forall|k: int|
        0 <= k < w.lru@.len() ==> (#[trigger] w.lru@[k]).timev() < w.abstract_time_counter
    &&& forall|k: int|
        0 <= k < w.lru@.len() ==> w.process.pages().contains((#[trigger] w.lru@[k]).valv())
    &&& w.abstract_time_counter + trace_accesses(w.process.bursts()) <= usize::MAX
}

/// The wrapper's quota covers every page its process ever references:
/// under such a quota a process never evicts its own pages.
pub(crate) open spec fn adequate_quota(w: &ProcessWrapper) -> bool {
    w.available_size >= w.process.page_count_spec()
}

/// The wrapper agrees with the pool: every page it tracks is resident,
/// and every resident page of its own is tracked.
pub(crate) open spec fn wrapper_in_pool(w: &ProcessWrapper, mem: &PageSet) -> bool {
    &&& forall|k: int| 0 <= k < w.lru@.len() ==> mem.has((#[trigger] w.lru@[k]).valv())
    &&& forall|p: usize| w.process.pages().contains(p) && mem.has(p) ==> w.lru.has_val(p)
}

/// The one entry point every allocation policy implements: feed it the
/// process traces and get one fault count per process, positionally
/// aligned with the input, or the starvation failure. Each policy states
/// what it asks of its inputs in `emulate_pre`; every implementation
/// returns a count vector of the right length in which an empty trace
/// contributes zero faults and no count exceeds the trace's references.
pub trait VirtualMemory {
    /// What this policy requires of a run's inputs.
    spec fn emulate_pre(&self, ps: Seq<Process>) -> bool;

    fn emulate(&self, processes: Vec<Process>) -> (r: Result<Vec<usize>, EmulationError>)
        requires
            self.emulate_pre(processes@),
        ensures
            match r {
                Ok(v) => {
                    &&& v@.len() == processes@.len()
                    &&& forall|i: int|
                        0 <= i < processes@.len() && (#[trigger] processes@[i]).bursts().len()
                            == 0 ==> v@[i] == 0
                    &&& forall|i: int|
                        0 <= i < processes@.len() ==> (#[trigger] v@[i]) as int <= trace_accesses(
                            processes@[i].bursts(),
                        )
                },
                Err(e) => e == EmulationError::Starvation,
            },
            (forall|j: int|
                0 <= j < processes@.len() ==> (#[trigger] processes@[j]).bursts().len() == 0)
                ==> (r is Ok),
    ;
}

/// The pool can never outgrow the policy's size: the resident pages are
/// exactly the frames the processes hold, each holding stays within its
/// quota, and the quotas together stay within the pool size. The
/// equal-split and proportional engines maintain each premise as a loop
/// invariant and re-establish this bound after every burst.
pub proof fn lemma_pool_within_memory(
    useds_now: Seq<usize>,
    avails_now: Seq<usize>,
    pool_len: int,
    m: usize,
)
    requires
        useds_now.len() == avails_now.len(),
        pool_len == crate::arith::sum_usize(useds_now),
        forall|j: int| 0 <= j < useds_now.len() ==> useds_now[j] <= avails_now[j],
        crate::arith::sum_usize(avails_now) <= m,
    ensures
        pool_len <= m,
{
    crate::arith::lemma_sum_le(useds_now, avails_now);
}

/// The frames each wrapper currently holds.
pub(crate) open spec fn useds(ws: Seq<ProcessWrapper>) -> Seq<usize> {
    ws.map_values(|w: ProcessWrapper| w.used_space)
}

/// The quota each wrapper currently has.
pub(crate) open spec fn avails(ws: Seq<ProcessWrapper>) -> Seq<usize> {
    ws.map_values(|w: ProcessWrapper| w.available_size)
}

/// The number of bursts still unconsumed across all wrappers.
pub(crate) open spec fn burst_counts(ws: Seq<ProcessWrapper>) -> int
    decreases ws.len(),
{
    if ws.len() == 0 {
        0
    } else {
        ws[0].process.bursts().len() + burst_counts(ws.drop_first())
    }
}

pub(crate) proof fn lemma_burst_counts_update(ws: Seq<ProcessWrapper>, j: int, w2: ProcessWrapper)
    requires
        0 <= j < ws.len(),
    ensures
        burst_counts(ws.update(j, w2)) == burst_counts(ws) - ws[j].process.bursts().len()
            + w2.process.bursts().len(),
    decreases ws.len(),
{
    if j == 0 {
        assert(ws.update(0, w2).drop_first() =~= ws.drop_first());
    } else {
        assert(ws.update(j, w2).drop_first() =~= ws.drop_first().update(j - 1, w2));
        lemma_burst_counts_update(ws.drop_first(), j - 1, w2);
    }
}

pub(crate) proof fn lemma_burst_counts_nonneg(ws: Seq<ProcessWrapper>)
    ensures
        burst_counts(ws) >= 0,
    decreases ws.len(),
{
    if ws.len() > 0 {
        lemma_burst_counts_nonneg(ws.drop_first());
    }
}

/// Whether process index `j` occupies some slot.
pub(crate) open spec fn in_slots(slots: Seq<usize>, j: usize) -> bool {
    exists|s: int| 0 <= s < slots.len() && slots[s] == j
}

/// Wraps every process, in order, with empty allocation state.
pub(crate) fn wrap_all(processes: Vec<Process>) -> (r: Vec<ProcessWrapper>)
    requires
        processes_ok(processes@),
        traces_fit(processes@),
    ensures
        r@.len() == processes@.len(),
        forall|j: int| 0 <= j < r@.len() ==> (#[trigger] r@[j]).process == processes@[j],
        forall|j: int| 0 <= j < r@.len() ==> wrapper_ok(&r@[j]),
        forall|j: int|
            0 <= j < r@.len() ==> (#[trigger] r@[j]).used_space == 0 && r@[j].available_size == 0
                && r@[j].lru@.len() == 0,
{
    let ghost ps = processes@;
    let mut rest = processes;
    let mut out: Vec<ProcessWrapper> = Vec::new();
    while rest.len() > 0
        invariant
            processes_ok(ps),
            traces_fit(ps),
            out@.len() + rest@.len() == ps.len(),
            rest@ == ps.subrange(out@.len() as int, ps.len() as int),
            forall|j: int| 0 <= j < out@.len() ==> (#[trigger] out@[j]).process == ps[j],
            forall|j: int| 0 <= j < out@.len() ==> wrapper_ok(&out@[j]),
            forall|j: int|
                0 <= j < out@.len() ==> (#[trigger] out@[j]).used_space == 0
                    && out@[j].available_size == 0 && out@[j].lru@.len() == 0,
        decreases rest@.len(),
    {
        assert(rest@[0] == ps[out@.len() as int]);
        let p = rest.remove(0);
        assert(rest@ =~= ps.subrange(out@.len() as int + 1, ps.len() as int));
        let w = ProcessWrapper::from_process(p);
        out.push(w);
    }
    out
}

/// A fault-count vector of the right length, all zero.
pub(crate) fn zero_counts(n: usize) -> (r: Vec<usize>)
    ensures
        r@.len() == n,
        forall|k: int| 0 <= k < n ==> r@[k] == 0,
{
    let mut r: Vec<usize> = Vec::new();
    let mut i: usize = 0;
    while i < n
        invariant
            r@.len() == i <= n,
            forall|k: int| 0 <= k < i ==> r@[k] == 0,
        decreases n - i,
    {
        r.push(0);
        i += 1;
    }
    r
}

impl ProcessWrapper {
    pub(crate) fn from_process(process: Process) -> (r: Self)
        requires
            process.wf(),
            trace_accesses(process.bursts()) <= usize::MAX as int,
        ensures
            wrapper_ok(&r),
            r.process == process,
            r.used_space == 0,
            r.available_size == 0,
            r.lru@.len() == 0,
    {
        ProcessWrapper {
            process,
            lru: Lru::new(),
            used_space: 0,
            available_size: 0,
            abstract_time_counter: 0,
        }
    }

    pub(crate) fn get_available_memory(&self) -> (r: usize)
        ensures
            r == self.available_size,
    {
        self.available_size
    }

    pub(crate) fn set_available_memory(&mut self, space: usize)
        ensures
            *final(self) == (ProcessWrapper { available_size: space, ..*old(self) }),
    {
        self.available_size = space;
    }

    /// Evicts this process's own least-recently-used pages until it is
    /// back within its quota, as after a quota recomputation shrank it.
    pub(crate) fn trim(&mut self, memory: &mut PageSet)
        requires
            wrapper_ok(old(self)),
            old(memory).wf(),
            wrapper_in_pool(old(self), old(memory)),
        ensures
            wrapper_ok(final(self)),
            final(memory).wf(),
            wrapper_in_pool(final(self), final(memory)),
            final(self).available_size == old(self).available_size,
            final(self).process == old(self).process,
            final(self).abstract_time_counter == old(self).abstract_time_counter,
            final(self).used_space == (if old(self).used_space <= old(self).available_size {
                old(self).used_space as int
            } else {
                old(self).available_size as int
            }),
            forall|p: usize|
                !old(self).process.pages().contains(p) ==> (final(memory).has(p) <==> old(
                    memory,
                ).has(p)),
            final(memory)@.len() as int - old(memory)@.len() as int == final(self).used_space as int
                - old(self).used_space as int,
            old(self).used_space <= old(self).available_size ==> *final(self) == *old(self)
                && final(memory)@ == old(memory)@,
    {
        let ghost pages0 = self.process.pages();
        let ghost mem0 = old(memory)@;
        let ghost used0 = self.used_space;
        while self.used_space > self.available_size
            invariant
                old(self).used_space <= old(self).available_size ==> *self == *old(self)
                    && memory@ == mem0,
                mem0 == old(memory)@,
                self.available_size == old(self).available_size,
                self.process == old(self).process,
                self.abstract_time_counter == old(self).abstract_time_counter,
                self.process.wf(),
                self.used_space >= self.available_size || self.used_space == used0,
                self.used_space <= used0,
                self.lru.wf(),
                self.lru@.len() == self.used_space,
                forall|k: int|
                    0 <= k < self.lru@.len() ==> (#[trigger] self.lru@[k]).timev()
                        < self.abstract_time_counter,
                forall|k: int|
                    0 <= k < self.lru@.len() ==> pages0.contains((#[trigger] self.lru@[k]).valv()),
                memory.wf(),
                forall|k: int|
                    0 <= k < self.lru@.len() ==> memory.has((#[trigger] self.lru@[k]).valv()),
                forall|p: usize| pages0.contains(p) && memory.has(p) ==> self.lru.has_val(p),
                forall|p: usize| !pages0.contains(p) ==> (memory.has(p) <==> mem0.contains(p)),
                memory@.len() as int - mem0.len() as int == self.used_space as int - used0 as int,
            decreases self.used_space,
        {
            let ghost lru_pre = self.lru@;
            let victim = match self.lru.pop_lru() {
                Option::Some(v) => v,
                Option::None => {
                    proof {
                        assert(false);
                    }
                    0
                },
            };
            assert(memory.has(victim)) by {
                assert(lru_pre[0].valv() == victim);
            }
            memory.remove(victim);
            self.used_space -= 1;
            proof {
                assert forall|k: int| 0 <= k < self.lru@.len() implies memory.has(
                    (#[trigger] self.lru@[k]).valv(),
                ) by {
                    assert(self.lru@[k] == lru_pre[k + 1]);
                    assert(lru_pre[k + 1].valv() != victim);
                }
                assert forall|p: usize|
                    pages0.contains(p) && memory.has(p) implies self.lru.has_val(p) by {
                    assert(p != victim);
                    assert(crate::lru::seq_has_val(lru_pre, p));
                    let k = choose|k: int| 0 <= k < lru_pre.len() && lru_pre[k].valv() == p;
                    assert(k != 0);
                    assert(self.lru@[k - 1].valv() == p);
                }
            }
        }
    }

    /// Serves one burst of this process: counts a fault for each
    /// referenced page not yet resident, evicting this process's own
    /// least-recently-used pages whenever it stands at its quota, and
    /// flushes all of its resident pages once the trace is exhausted.
    /// A process with remaining work but no quota is blocked instead.
    pub(crate) fn next(&mut self, memory: &mut PageSet) -> (r: EmulationStepResult)
        requires
            wrapper_ok(old(self)),
            old(memory).wf(),
            wrapper_in_pool(old(self), old(memory)),
        ensures
            wrapper_ok(final(self)),
            final(memory).wf(),
            wrapper_in_pool(final(self), final(memory)),
            final(self).available_size == old(self).available_size,
            final(self).process.pages() == old(self).process.pages(),
            final(self).process.page_count_spec() == old(self).process.page_count_spec(),
            forall|p: usize|
                !old(self).process.pages().contains(p) ==> (final(memory).has(p) <==> old(
                    memory,
                ).has(p)),
            final(memory)@.len() as int - old(memory)@.len() as int == final(self).used_space as int
                - old(self).used_space as int,
            old(self).process.bursts().len() > 0 && old(self).available_size >= 1 ==> (r
                is Done),
            old(self).process.bursts().len() > 0 && old(self).available_size == 0 ==> (r
                is NoMemoryAvailable),
            match r {
                EmulationStepResult::NoMoreWork => {
                    &&& old(self).process.bursts().len() == 0
                    &&& final(self).used_space == old(self).used_space
                    &&& final(memory)@ == old(memory)@
                    &&& final(self).process.bursts() == old(self).process.bursts()
                },
                EmulationStepResult::NoMemoryAvailable => {
                    &&& old(self).process.bursts().len() > 0
                    &&& old(self).available_size == 0
                    &&& final(self).used_space == old(self).used_space
                    &&& final(memory)@ == old(memory)@
                    &&& final(self).process.bursts() == old(self).process.bursts()
                },
                EmulationStepResult::Done(f) => {
                    &&& old(self).process.bursts().len() > 0
                    &&& final(self).process.bursts() == old(self).process.bursts().drop_first()
                    &&& f <= old(self).process.bursts()[0].len()
                    &&& (final(self).process.bursts().len() == 0 ==> final(self).used_space == 0)
                    &&& (final(self).used_space <= old(self).used_space || final(self).used_space
                        <= old(self).available_size)
                    &&& (adequate_quota(old(self)) && final(self).process.bursts().len() > 0
                        ==> f as int == final(self).used_space as int - old(
                        self,
                    ).used_space as int)
                    &&& (adequate_quota(old(self)) && final(self).process.bursts().len() > 0
                        ==> (forall|v: usize|
                        #[trigger] final(self).lru.has_val(v) <==> (old(self).lru.has_val(v)
                            || old(self).process.bursts()[0].contains(v))))
                    &&& ((adequate_quota(old(self)) && final(self).process.bursts().len() == 0
                        && (forall|p: usize|
                        old(self).process.pages().contains(p) ==> old(self).lru.has_val(p) || old(
                            self,
                        ).process.bursts()[0].contains(p))) ==> f as int + old(
                        self,
                    ).used_space as int == old(self).process.page_count_spec() as int)
                },
            },
    {
        if !self.process.is_empty() && self.available_size == 0 {
            return EmulationStepResult::NoMemoryAvailable;
        }
        let ghost pages0 = self.process.pages();
        let ghost mem0 = old(memory)@;
        let ghost used0 = self.used_space;
        let ghost avail0 = self.available_size;
        let ghost bursts0 = self.process.bursts();
        match self.process.next() {
            Option::Some(accesses) => {
                let ghost burst0 = accesses@;
                let ghost rest = self.process.bursts();
                let ghost timer0 = self.abstract_time_counter;
                let ghost adq = adequate_quota(old(self));
                let ghost lru0 = self.lru@;
                let ghost pc0 = self.process.page_count_spec();
                assert(burst0 == bursts0[0] && rest == bursts0.drop_first());
                assert(trace_accesses(bursts0) == burst0.len() + trace_accesses(rest));
                assert(forall|x: int| 0 <= x < burst0.len() ==> pages0.contains(burst0[x]));
                let mut ans: usize = 0;
                let mut j: usize = 0;
                while j < accesses.len()
                    invariant
                        accesses@ == burst0,
                        0 <= j <= burst0.len(),
                        ans <= j,
                        self.available_size == avail0,
                        avail0 >= 1,
                        self.process.wf(),
                        self.process.pages() == pages0,
                        self.process.bursts() == rest,
                        self.process.page_count_spec() == old(self).process.page_count_spec(),
                        forall|x: int| 0 <= x < burst0.len() ==> pages0.contains(burst0[x]),
                        self.lru.wf(),
                        self.lru@.len() == self.used_space,
                        forall|k: int|
                            0 <= k < self.lru@.len() ==> (#[trigger] self.lru@[k]).timev()
                                < self.abstract_time_counter,
                        forall|k: int|
                            0 <= k < self.lru@.len() ==> pages0.contains(
                                (#[trigger] self.lru@[k]).valv(),
                            ),
                        memory.wf(),
                        forall|k: int|
                            0 <= k < self.lru@.len() ==> memory.has(
                                (#[trigger] self.lru@[k]).valv(),
                            ),
                        forall|p: usize|
                            pages0.contains(p) && memory.has(p) ==> self.lru.has_val(p),
                        forall|p: usize|
                            !pages0.contains(p) ==> (memory.has(p) <==> mem0.contains(p)),
                        memory@.len() as int - mem0.len() as int == self.used_space as int
                            - used0 as int,
                        self.used_space <= used0 || self.used_space <= avail0,
                        self.abstract_time_counter == timer0 + j,
                        timer0 + burst0.len() + trace_accesses(rest) <= usize::MAX,
                        adq == (avail0 >= pc0),
                        pc0 == self.process.page_count_spec(),
                        lru0 == old(self).lru@,
                        adq ==> ans as int == self.used_space as int - used0 as int,
                        adq ==> used0 <= self.used_space,
                        adq ==> (forall|v: usize|
                            #[trigger] self.lru.has_val(v) <==> (crate::lru::seq_has_val(lru0, v)
                                || (exists|x: int| 0 <= x < j && burst0[x] == v))),
                    decreases burst0.len() - j,
                {
                    let access = accesses[j];
                    if !memory.contains(access) {
                        proof {
                            if adq {
                                // The page is its own and fresh, so the held
                                // distinct pages stay strictly under the count.
                                let avals = Seq::new(
                                    self.lru@.len(),
                                    |k: int| self.lru@[k].valv(),
                                );
                                assert forall|a: int, b: int|
                                    0 <= a < b < avals.len() implies avals[a] != avals[b] by {
                                    assert(self.lru@[a].valv() != self.lru@[b].valv());
                                }
                                assert forall|v: usize| avals.contains(v) implies pages0.contains(
                                    v,
                                ) by {
                                    let k = choose|k: int|
                                        0 <= k < avals.len() && avals[k] == v;
                                    assert(self.lru@[k].valv() == v);
                                }
                                assert(!avals.contains(access)) by {
                                    if avals.contains(access) {
                                        let k = choose|k: int|
                                            0 <= k < avals.len() && avals[k] == access;
                                        assert(memory.has(self.lru@[k].valv()));
                                    }
                                }
                                assert(pages0.contains(burst0[j as int]));
                                crate::arith::lemma_distinct_proper_subset_len(
                                    avals,
                                    pages0,
                                    access,
                                );
                                assert(self.used_space < pc0);
                            }
                        }
                        while self.available_size <= self.used_space
                            invariant
                                self.available_size == avail0,
                                avail0 >= 1,
                                accesses@ == burst0,
                                0 <= j < burst0.len(),
                                access == burst0[j as int],
                                ans <= j,
                                self.process.wf(),
                                self.process.pages() == pages0,
                                self.process.bursts() == rest,
                                self.process.page_count_spec() == old(
                                    self,
                                ).process.page_count_spec(),
                                self.abstract_time_counter == timer0 + j,
                                timer0 + burst0.len() + trace_accesses(rest) <= usize::MAX,
                                forall|x: int| 0 <= x < burst0.len() ==> pages0.contains(burst0[x]),
                                self.lru.wf(),
                                self.lru@.len() == self.used_space,
                                forall|k: int|
                                    0 <= k < self.lru@.len() ==> (#[trigger] self.lru@[k]).timev()
                                        < self.abstract_time_counter,
                                forall|k: int|
                                    0 <= k < self.lru@.len() ==> pages0.contains(
                                        (#[trigger] self.lru@[k]).valv(),
                                    ),
                                memory.wf(),
                                forall|k: int|
                                    0 <= k < self.lru@.len() ==> memory.has(
                                        (#[trigger] self.lru@[k]).valv(),
                                    ),
                                forall|p: usize|
                                    pages0.contains(p) && memory.has(p) ==> self.lru.has_val(p),
                                forall|p: usize|
                                    !pages0.contains(p) ==> (memory.has(p) <==> mem0.contains(p)),
                                memory@.len() as int - mem0.len() as int == self.used_space as int
                                    - used0 as int,
                                self.used_space <= used0 || self.used_space <= avail0,
                                !memory.has(access),
                                adq == (avail0 >= pc0),
                                pc0 == self.process.page_count_spec(),
                                adq ==> self.available_size > self.used_space,
                                adq ==> ans as int == self.used_space as int - used0 as int,
                                adq ==> used0 <= self.used_space,
                                adq ==> (forall|v: usize|
                                    #[trigger] self.lru.has_val(v) <==> (crate::lru::seq_has_val(
                                        lru0,
                                        v,
                                    ) || (exists|x: int| 0 <= x < j && burst0[x] == v))),
                            decreases self.used_space,
                        {
                            let ghost lru_pre = self.lru@;
                            let victim = match self.lru.pop_lru() {
                                Option::Some(v) => v,
                                Option::None => {
                                    proof {
                                        assert(false);
                                    }
                                    0
                                },
                            };
                            assert(victim == lru_pre[0].valv());
                            assert(memory.has(victim)) by {
                                assert(lru_pre[0].valv() == victim);
                            }
                            memory.remove(victim);
                            self.used_space -= 1;
                            proof {
                                assert forall|k: int| 0 <= k < self.lru@.len() implies memory.has(
                                    (#[trigger] self.lru@[k]).valv(),
                                ) by {
                                    assert(self.lru@[k] == lru_pre[k + 1]);
                                    assert(lru_pre[k + 1].valv() != victim);
                                }
                                assert forall|p: usize|
                                    pages0.contains(p) && memory.has(p) implies self.lru.has_val(
                                    p,
                                ) by {
                                    assert(p != victim);
                                    assert(crate::lru::seq_has_val(lru_pre, p));
                                    let k = choose|k: int|
                                        0 <= k < lru_pre.len() && lru_pre[k].valv() == p;
                                    assert(k != 0);
                                    assert(self.lru@[k - 1].valv() == p);
                                }
                            }
                        }
                        self.used_space += 1;
                        memory.insert(access);
                        ans += 1;
                    }
                    let ghost lru_mid = self.lru@;
                    let ghost timer_now = self.abstract_time_counter;
                    proof {
                        // A tracked copy of the page would already be resident.
                        if crate::lru::seq_has_val(lru_mid, access) {
                            let k0 = choose|k0: int|
                                0 <= k0 < lru_mid.len() && lru_mid[k0].valv() == access;
                            assert(memory.has(access));
                        }
                    }
                    self.lru.use_val(access, self.abstract_time_counter);
                    proof {
                        assert forall|k: int| 0 <= k < self.lru@.len() implies memory.has(
                            (#[trigger] self.lru@[k]).valv(),
                        ) && pages0.contains(self.lru@[k].valv()) && self.lru@[k].timev()
                            < timer_now + 1 by {
                            let e = self.lru@[k];
                            assert(self.lru.has_entry(e.timev(), e.valv()));
                            if e.valv() != access {
                                assert(crate::lru::seq_has_entry(lru_mid, e.timev(), e.valv()));
                                let k2 = choose|k2: int|
                                    0 <= k2 < lru_mid.len() && lru_mid[k2].timev() == e.timev()
                                        && lru_mid[k2].valv() == e.valv();
                                assert(lru_mid[k2].valv() == e.valv());
                            } else {
                                assert(e.timev() == timer_now);
                                assert(pages0.contains(burst0[j as int]));
                                assert(memory.has(access));
                            }
                        }
                        assert forall|p: usize|
                            pages0.contains(p) && memory.has(p) implies self.lru.has_val(p) by {}
                        assert(self.lru@.len() == self.used_space) by {
                            if crate::lru::seq_has_val(lru_mid, access) {
                                assert(self.lru@.len() == lru_mid.len());
                            } else {
                                assert(self.lru@.len() == lru_mid.len() + 1);
                            }
                        }
                    }
                    self.abstract_time_counter += 1;
                    j += 1;
                }
                if self.process.is_empty() {
                    proof {
                        assert((adq && (forall|p: usize|
                            old(self).process.pages().contains(p) ==> old(self).lru.has_val(p)
                                || old(self).process.bursts()[0].contains(p))) ==> ans as int
                            + used0 as int == pc0 as int) by {
                        if adq && (forall|p: usize|
                            old(self).process.pages().contains(p) ==> old(self).lru.has_val(p)
                                || old(self).process.bursts()[0].contains(p)) {
                            assert(pages0 == old(self).process.pages());
                            assert(lru0 == old(self).lru@);
                            assert(burst0 == old(self).process.bursts()[0]);
                            assert forall|p: usize| pages0.contains(p) implies (
                            crate::lru::seq_has_val(lru0, p) || burst0.contains(p)) by {
                                assert(old(self).process.pages().contains(p));
                                assert(old(self).lru.has_val(p) || old(
                                    self,
                                ).process.bursts()[0].contains(p));
                            }
                            // Every page of the trace is resident now, so the
                            // holding equals the distinct-page count.
                            assert forall|p: usize| pages0.contains(p) implies self.lru.has_val(
                                p,
                            ) by {
                                if burst0.contains(p) {
                                    let x = choose|x: int| 0 <= x < burst0.len() && burst0[x] == p;
                                }
                            }
                            let avals = Seq::new(self.lru@.len(), |k: int| self.lru@[k].valv());
                            assert forall|a: int, b: int|
                                0 <= a < b < avals.len() implies avals[a] != avals[b] by {
                                assert(self.lru@[a].valv() != self.lru@[b].valv());
                            }
                            assert forall|v: usize| avals.contains(v) implies pages0.contains(
                                v,
                            ) by {
                                let k = choose|k: int| 0 <= k < avals.len() && avals[k] == v;
                                assert(self.lru@[k].valv() == v);
                            }
                            assert forall|v: usize| pages0.contains(v) implies avals.contains(
                                v,
                            ) by {
                                assert(self.lru.has_val(v));
                                let k = choose|k: int|
                                    0 <= k < self.lru@.len() && self.lru@[k].valv() == v;
                                assert(avals[k] == v);
                            }
                            crate::arith::lemma_distinct_subset_len(avals, pages0);
                            crate::arith::lemma_distinct_subset_len(pages0, avals);
                            assert(self.used_space == pc0);
                            assert(ans as int + used0 as int == pc0 as int);
                        }
                        }
                    }
                    while self.used_space > 0
                        invariant
                            self.available_size == avail0,
                            self.process.wf(),
                            self.process.pages() == pages0,
                            self.process.bursts() == rest,
                            self.process.bursts().len() == 0,
                            self.process.page_count_spec() == old(self).process.page_count_spec(),
                            self.abstract_time_counter == timer0 + burst0.len(),
                            timer0 + burst0.len() + trace_accesses(rest) <= usize::MAX,
                            self.lru.wf(),
                            self.lru@.len() == self.used_space,
                            forall|k: int|
                                0 <= k < self.lru@.len() ==> (#[trigger] self.lru@[k]).timev()
                                    < self.abstract_time_counter,
                            forall|k: int|
                                0 <= k < self.lru@.len() ==> pages0.contains(
                                    (#[trigger] self.lru@[k]).valv(),
                                ),
                            memory.wf(),
                            forall|k: int|
                                0 <= k < self.lru@.len() ==> memory.has(
                                    (#[trigger] self.lru@[k]).valv(),
                                ),
                            forall|p: usize|
                                pages0.contains(p) && memory.has(p) ==> self.lru.has_val(p),
                            forall|p: usize|
                                !pages0.contains(p) ==> (memory.has(p) <==> mem0.contains(p)),
                            memory@.len() as int - mem0.len() as int == self.used_space as int
                                - used0 as int,
                        decreases self.used_space,
                    {
                        let ghost lru_pre = self.lru@;
                        let victim = match self.lru.pop_lru() {
                            Option::Some(v) => v,
                            Option::None => {
                                proof {
                                    assert(false);
                                }
                                0
                            },
                        };
                        assert(memory.has(victim)) by {
                            assert(lru_pre[0].valv() == victim);
                        }
                        memory.remove(victim);
                        self.used_space -= 1;
                        proof {
                            assert forall|k: int| 0 <= k < self.lru@.len() implies memory.has(
                                (#[trigger] self.lru@[k]).valv(),
                            ) by {
                                assert(self.lru@[k] == lru_pre[k + 1]);
                                assert(lru_pre[k + 1].valv() != victim);
                            }
                            assert forall|p: usize|
                                pages0.contains(p) && memory.has(p) implies self.lru.has_val(
                                p,
                            ) by {
                                assert(p != victim);
                                assert(crate::lru::seq_has_val(lru_pre, p));
                                let k = choose|k: int|
                                    0 <= k < lru_pre.len() && lru_pre[k].valv() == p;
                                assert(k != 0);
                                assert(self.lru@[k - 1].valv() == p);
                            }
                        }
                    }
                }
                EmulationStepResult::Done(ans)
            },
            Option::None => EmulationStepResult::NoMoreWork,
        }
    }
}

} // verus!
