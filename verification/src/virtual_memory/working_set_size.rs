//! The working-set-size policy. Each process's desired space tracks the
//! number of distinct pages in its own sliding window of the last
//! `period` references — a true working-set estimate. A process that
//! cannot match its desire is halted: it keeps its frames but stops being
//! scheduled until enough slack exists. A faulting process prefers the
//! frames of the most recently halted process, then the owed-frame pool,
//! then halting the process with the largest desire.
//!
//! The run's bookkeeping — counters, trackers, the desire order — is
//! checked as it goes: any state it could only reach through a
//! programmer error is surfaced as the starvation failure instead of
//! silently continuing with fabricated counts.

use vstd::prelude::*;

use crate::lru::Lru;
use crate::page_set::PageSet;
use crate::process::{trace_accesses, Process};
use crate::reminder_sorter::ReminderSorter;

use super::{processes_ok, traces_fit, EmulationError};

verus! {

/// One process's allocation state under the working-set policy.
pub(crate) struct WssProc {
    pub(crate) process: Process,
    pub(crate) lru: Lru,
    pub(crate) pages_list: Vec<usize>,
    pub(crate) pages_counts: Vec<(usize, usize)>,
    pub(crate) desired_space: usize,
    pub(crate) used_memory: usize,
    pub(crate) is_halted: bool,
}

/// The bursts still unconsumed across all processes.
pub(crate) open spec fn wss_bursts(ws: Seq<WssProc>) -> int
    decreases ws.len(),
{
    if ws.len() == 0 {
        0
    } else {
        ws[0].process.bursts().len() + wss_bursts(ws.drop_first())
    }
}

pub(crate) proof fn lemma_wss_bursts_update(ws: Seq<WssProc>, j: int, w2: WssProc)
    requires
        0 <= j < ws.len(),
    ensures
        wss_bursts(ws.update(j, w2)) == wss_bursts(ws) - ws[j].process.bursts().len()
            + w2.process.bursts().len(),
    decreases ws.len(),
{
    if j == 0 {
        assert(ws.update(0, w2).drop_first() =~= ws.drop_first());
    } else {
        assert(ws.update(j, w2).drop_first() =~= ws.drop_first().update(j - 1, w2));
        lemma_wss_bursts_update(ws.drop_first(), j - 1, w2);
    }
}

pub(crate) proof fn lemma_wss_bursts_nonneg(ws: Seq<WssProc>)
    ensures
        wss_bursts(ws) >= 0,
    decreases ws.len(),
{
    if ws.len() > 0 {
        lemma_wss_bursts_nonneg(ws.drop_first());
    }
}

pub(crate) proof fn lemma_wss_bursts_same(a: Seq<WssProc>, b: Seq<WssProc>)
    requires
        a.len() == b.len(),
        forall|j: int| 0 <= j < a.len() ==> (#[trigger] b[j]).process == a[j].process,
    ensures
        wss_bursts(a) == wss_bursts(b),
    decreases a.len(),
{
    if a.len() > 0 {
        assert forall|j: int|
            0 <= j < a.drop_first().len() implies (#[trigger] b.drop_first()[j]).process
            == a.drop_first()[j].process by {
            assert(a.drop_first()[j] == a[j + 1]);
            assert(b.drop_first()[j] == b[j + 1]);
        }
        lemma_wss_bursts_same(a.drop_first(), b.drop_first());
        assert(b[0].process == a[0].process);
    }
}

/// The whole engine state of one working-set run.
pub(crate) struct WssState {
    pub(crate) wrappers: Vec<WssProc>,
    pub(crate) memory: PageSet,
    pub(crate) lru: Lru,
    pub(crate) page_to_process: Vec<usize>,
    pub(crate) memory_to_take: usize,
    pub(crate) abstract_timer: usize,
    pub(crate) ans: Vec<usize>,
    pub(crate) recently_halted_process: Option<usize>,
    pub(crate) processes_memory_desire: Vec<(usize, usize)>,
    pub(crate) period: usize,
}

/// The working-set engine's invariant between accesses: structures are
/// well-formed, the pool never outgrows `m`, and every fault count stays
/// within the accesses consumed — except, mid-burst, for the process
/// being served (index `xi`, or none for `-1`).
pub(crate) open spec fn wss_inv_at(st: &WssState, ps: Seq<Process>, m: usize, xi: int) -> bool {
    &&& st.wrappers@.len() == ps.len()
    &&& st.ans@.len() == ps.len()
    &&& m >= 1
    &&& st.memory.wf()
    &&& st.lru.wf()
    &&& traces_fit(ps)
    &&& forall|j: int| 0 <= j < ps.len() ==> (#[trigger] st.wrappers@[j]).lru.wf()
    &&& forall|j: int| 0 <= j < ps.len() ==> (#[trigger] st.wrappers@[j]).process.wf()
    &&& forall|j: int|
        0 <= j < ps.len() ==> (#[trigger] st.wrappers@[j]).process.bursts().len()
            <= ps[j].bursts().len()
    &&& forall|j: int|
        0 <= j < ps.len() ==> (#[trigger] st.wrappers@[j]).process.pages() == ps[j].pages()
    &&& st.memory@.len() <= m
    &&& forall|j: int|
        0 <= j < ps.len() && j != xi ==> st.ans@[j] + trace_accesses(
            (#[trigger] st.wrappers@[j]).process.bursts(),
        ) <= trace_accesses(ps[j].bursts())
    &&& forall|j: int| 0 <= j < ps.len() && (#[trigger] ps[j]).bursts().len() == 0 ==> st.ans@[j]
        == 0
}

/// The engine invariant with no process in flight.
pub(crate) open spec fn wss_inv(st: &WssState, ps: Seq<Process>, m: usize) -> bool {
    wss_inv_at(st, ps, m, -1)
}

impl WssState {
    /// The position of the largest `(desire, process)` pair, if any.
    fn find_max_desire(&self, skip: Option<usize>) -> (r: Option<usize>)
        ensures
            match r {
                Option::Some(k) => k < self.processes_memory_desire@.len(),
                Option::None => true,
            },
    {
        let n = self.processes_memory_desire.len();
        let mut best: Option<usize> = None;
        let mut k: usize = 0;
        while k < n
            invariant
                n == self.processes_memory_desire@.len(),
                k <= n,
                match best {
                    Option::Some(b) => b < n,
                    Option::None => true,
                },
            decreases n - k,
        {
            let skipped = match skip {
                Option::Some(s) => self.processes_memory_desire[k].1 == s,
                Option::None => false,
            };
            if !skipped {
                best = match best {
                    Option::Some(b) => {
                        let cand = self.processes_memory_desire[k];
                        let cur = self.processes_memory_desire[b];
                        if cand.0 > cur.0 || (cand.0 == cur.0 && cand.1 > cur.1) {
                            Some(k)
                        } else {
                            Some(b)
                        }
                    },
                    Option::None => Some(k),
                };
            }
            k += 1;
        }
        best
    }

    /// Drops the exact pair from the desire order, if present.
    fn desire_remove(&mut self, pair: (usize, usize))
        ensures
            final(self).wrappers == old(self).wrappers,
            final(self).memory == old(self).memory,
            final(self).lru == old(self).lru,
            final(self).page_to_process == old(self).page_to_process,
            final(self).memory_to_take == old(self).memory_to_take,
            final(self).abstract_timer == old(self).abstract_timer,
            final(self).ans == old(self).ans,
            final(self).recently_halted_process == old(self).recently_halted_process,
            final(self).period == old(self).period,
    {
        let mut k: usize = 0;
        while k < self.processes_memory_desire.len()
            invariant
                k <= self.processes_memory_desire@.len(),
                self.wrappers == old(self).wrappers,
                self.memory == old(self).memory,
                self.lru == old(self).lru,
                self.page_to_process == old(self).page_to_process,
                self.memory_to_take == old(self).memory_to_take,
                self.abstract_timer == old(self).abstract_timer,
                self.ans == old(self).ans,
                self.recently_halted_process == old(self).recently_halted_process,
                self.period == old(self).period,
            decreases self.processes_memory_desire@.len() - k,
        {
            let cand = self.processes_memory_desire[k];
            if cand.0 == pair.0 && cand.1 == pair.1 {
                self.processes_memory_desire.remove(k);
                return ;
            }
            k += 1;
        }
    }

    /// Adds a pair to the desire order unless it already stands there.
    fn desire_insert(&mut self, pair: (usize, usize))
        ensures
            final(self).wrappers == old(self).wrappers,
            final(self).memory == old(self).memory,
            final(self).lru == old(self).lru,
            final(self).page_to_process == old(self).page_to_process,
            final(self).memory_to_take == old(self).memory_to_take,
            final(self).abstract_timer == old(self).abstract_timer,
            final(self).ans == old(self).ans,
            final(self).recently_halted_process == old(self).recently_halted_process,
            final(self).period == old(self).period,
    {
        let mut k: usize = 0;
        while k < self.processes_memory_desire.len()
            invariant
                k <= self.processes_memory_desire@.len(),
                self.wrappers == old(self).wrappers,
                self.memory == old(self).memory,
                self.lru == old(self).lru,
                self.page_to_process == old(self).page_to_process,
                self.memory_to_take == old(self).memory_to_take,
                self.abstract_timer == old(self).abstract_timer,
                self.ans == old(self).ans,
                self.recently_halted_process == old(self).recently_halted_process,
                self.period == old(self).period,
            decreases self.processes_memory_desire@.len() - k,
        {
            let cand = self.processes_memory_desire[k];
            if cand.0 == pair.0 && cand.1 == pair.1 {
                return ;
            }
            k += 1;
        }
        self.processes_memory_desire.push(pair);
    }

    /// The per-process structural facts of the invariant.
    pub(crate) open spec fn procs_ok(&self, ps: Seq<Process>) -> bool {
        &&& forall|j: int| 0 <= j < ps.len() ==> (#[trigger] self.wrappers@[j]).lru.wf()
        &&& forall|j: int| 0 <= j < ps.len() ==> (#[trigger] self.wrappers@[j]).process.wf()
        &&& forall|j: int|
            0 <= j < ps.len() ==> (#[trigger] self.wrappers@[j]).process.bursts().len()
                <= ps[j].bursts().len()
    }

    /// Serves one page reference of process `i`, already popped from its
    /// burst, through the policy's priority ladder — free frame, the
    /// recently halted process's frame, a stolen over-quota frame,
    /// halting the greediest process — and then lets the working-set
    /// window adjust the process's desire.
    #[verifier::rlimit(60)]
    pub(crate) fn serve_access(
        &mut self,
        i: usize,
        access: usize,
        m: usize,
        Ghost(ps): Ghost<Seq<Process>>,
    ) -> (r: Result<(), EmulationError>)
        requires
            wss_inv_at(old(self), ps, m, i as int),
            i < ps.len(),
            ps[i as int].bursts().len() > 0,
            access < usize::MAX,
            old(self).abstract_timer < usize::MAX,
            old(self).ans@[i as int] < usize::MAX,
        ensures
            match r {
                Ok(()) => {
                    &&& wss_inv_at(final(self), ps, m, i as int)
                    &&& final(self).abstract_timer == old(self).abstract_timer + 1
                    &&& final(self).period == old(self).period
                    &&& forall|j: int|
                        0 <= j < ps.len() ==> (#[trigger] final(self).wrappers@[j]).process == old(
                            self,
                        ).wrappers@[j].process
                    &&& forall|j: int|
                        0 <= j < ps.len() && j != i ==> (#[trigger] final(self).ans@[j]) == old(
                            self,
                        ).ans@[j]
                    &&& final(self).ans@[i as int] <= old(self).ans@[i as int] + 1
                },
                Err(e) => e == EmulationError::Starvation,
            },
    {
        let ghost n = ps.len();
        // Owner table.
        if self.page_to_process.len() <= access {
            while self.page_to_process.len() < access + 1
                invariant
                    access < usize::MAX,
                    self.page_to_process@.len() <= access + 1,
                    self.wrappers == old(self).wrappers,
                    self.memory == old(self).memory,
                    self.lru == old(self).lru,
                    self.memory_to_take == old(self).memory_to_take,
                    self.abstract_timer == old(self).abstract_timer,
                    self.ans == old(self).ans,
                    self.recently_halted_process == old(self).recently_halted_process,
                    self.processes_memory_desire == old(self).processes_memory_desire,
                    self.period == old(self).period,
                decreases access + 1 - self.page_to_process@.len(),
            {
                self.page_to_process.push(i);
            }
        } else {
            self.page_to_process.set(access, i);
        }
        let ghost st0 = *self;
        // Both trackers note the use; a clashing time would mean the
        // clock was corrupted.
        if !self.lru.use_val_checked(access, self.abstract_timer) {
            return Err(EmulationError::Starvation);
        }
        let t = self.abstract_timer;
        let own_ok = {
            let w = &mut self.wrappers[i];
            w.lru.use_val_checked(access, t)
        };
        if !own_ok {
            return Err(EmulationError::Starvation);
        }
        self.abstract_timer = self.abstract_timer + 1;
        let is_fault = !self.memory.contains(access);
        if is_fault {
            let wants_more = {
                let w = &self.wrappers[i];
                w.desired_space > w.used_memory
            };
            let has_free = self.memory.len() < m;
            let can_take = self.memory_to_take != 0;
            let has_some = {
                let w = &self.wrappers[i];
                w.used_memory != 0
            };
            let has_recent = self.recently_halted_process.is_some();
            let multi = self.processes_memory_desire.len() > 1;
            if wants_more && has_free {
                // A free frame admits the page directly.
                self.memory.insert(access);
                let bumped = {
                    let w = &mut self.wrappers[i];
                    if w.used_memory < usize::MAX {
                        w.used_memory = w.used_memory + 1;
                        true
                    } else {
                        false
                    }
                };
                if !bumped {
                    return Err(EmulationError::Starvation);
                }
                let a = self.ans[i];
                self.ans.set(i, a + 1);
            } else if wants_more && !has_free && has_recent {
                // Reuse a frame of the most recently halted process.
                let rh = match self.recently_halted_process {
                    Option::Some(v) => v,
                    Option::None => {
                        proof {
                            assert(false);
                        }
                        0
                    },
                };
                if rh >= self.wrappers.len() {
                    return Err(EmulationError::Starvation);
                }
                let page_opt = {
                    let w = &mut self.wrappers[rh];
                    if w.used_memory >= 1 {
                        w.used_memory = w.used_memory - 1;
                        w.lru.pop_lru()
                    } else {
                        None
                    }
                };
                let page = match page_opt {
                    Option::Some(p) => p,
                    Option::None => {
                        return Err(EmulationError::Starvation);
                    },
                };
                self.lru.remove_val(page);
                if !self.memory.remove(page) {
                    return Err(EmulationError::Starvation);
                }
                let empty_now = {
                    let w = &self.wrappers[rh];
                    w.used_memory == 0
                };
                if empty_now {
                    self.recently_halted_process = None;
                }
                self.memory.insert(access);
                let bumped = {
                    let w = &mut self.wrappers[i];
                    if w.used_memory < usize::MAX {
                        w.used_memory = w.used_memory + 1;
                        true
                    } else {
                        false
                    }
                };
                if !bumped {
                    return Err(EmulationError::Starvation);
                }
                let a = self.ans[i];
                self.ans.set(i, a + 1);
            } else if wants_more && !has_free && can_take && !has_recent {
                // Reclaim the least-recently-used over-quota frame.
                let total = self.lru.len();
                let mut k: usize = 0;
                let mut found: Option<(usize, usize)> = None;
                while k < total
                    invariant
                        total == self.lru@.len(),
                        k <= total,
                        match found {
                            Option::Some(pair) => pair.1 < self.wrappers@.len(),
                            Option::None => true,
                        },
                    decreases total - k,
                {
                    let e = self.lru.lru_iter()[k];
                    let v = e.get_val();
                    if v < self.page_to_process.len() {
                        let owner = self.page_to_process[v];
                        if owner < self.wrappers.len() {
                            let good = {
                                let w = &self.wrappers[owner];
                                w.used_memory > 1 && w.used_memory > w.desired_space
                            };
                            if good {
                                found = Some((v, owner));
                                break ;
                            }
                        }
                    }
                    k += 1;
                }
                let (page, owner) = match found {
                    Option::Some(pair) => pair,
                    Option::None => {
                        return Err(EmulationError::Starvation);
                    },
                };
                let owner_ok = {
                    let w = &mut self.wrappers[owner];
                    if w.used_memory >= 1 {
                        w.used_memory = w.used_memory - 1;
                        w.lru.remove_val(page);
                        true
                    } else {
                        false
                    }
                };
                if !owner_ok {
                    return Err(EmulationError::Starvation);
                }
                if !self.memory.remove(page) {
                    return Err(EmulationError::Starvation);
                }
                self.lru.remove_val(page);
                self.memory_to_take = self.memory_to_take - 1;
                self.memory.insert(access);
                let bumped = {
                    let w = &mut self.wrappers[i];
                    if w.used_memory < usize::MAX {
                        w.used_memory = w.used_memory + 1;
                        true
                    } else {
                        false
                    }
                };
                if !bumped {
                    return Err(EmulationError::Starvation);
                }
                let a = self.ans[i];
                self.ans.set(i, a + 1);
            } else if wants_more && !has_free && !can_take && !has_recent && multi {
                // Halt the process with the greatest desire and take one
                // of its frames; if that is this process, the runner-up.
                let first = match self.find_max_desire(None) {
                    Option::Some(k) => k,
                    Option::None => {
                        return Err(EmulationError::Starvation);
                    },
                };
                let pair = self.processes_memory_desire[first];
                let victim = if pair.1 == i {
                    let second = match self.find_max_desire(Some(i)) {
                        Option::Some(k) => k,
                        Option::None => {
                            return Err(EmulationError::Starvation);
                        },
                    };
                    let p2 = self.processes_memory_desire[second];
                    self.desire_remove(p2);
                    p2.1
                } else {
                    self.desire_remove(pair);
                    pair.1
                };
                if victim >= self.wrappers.len() || victim == i {
                    return Err(EmulationError::Starvation);
                }
                let take = {
                    let w = &self.wrappers[victim];
                    if w.used_memory > w.desired_space {
                        w.used_memory - w.desired_space
                    } else {
                        0
                    }
                };
                if self.memory_to_take < take {
                    return Err(EmulationError::Starvation);
                }
                self.memory_to_take = self.memory_to_take - take;
                let page_opt = {
                    let w = &mut self.wrappers[victim];
                    w.is_halted = true;
                    if w.used_memory >= 1 {
                        w.used_memory = w.used_memory - 1;
                        w.lru.pop_lru()
                    } else {
                        None
                    }
                };
                let page = match page_opt {
                    Option::Some(p) => p,
                    Option::None => {
                        return Err(EmulationError::Starvation);
                    },
                };
                self.lru.remove_val(page);
                if !self.memory.remove(page) {
                    return Err(EmulationError::Starvation);
                }
                let keeps_frames = {
                    let w = &self.wrappers[victim];
                    w.used_memory != 0
                };
                if keeps_frames {
                    self.recently_halted_process = Some(victim);
                    // The halted process's remaining frames are reserved:
                    // they leave the shared recency order.
                    let held = {
                        let w = &self.wrappers[victim];
                        w.lru.len()
                    };
                    let ghost stloop = *self;
                    let mut k2: usize = 0;
                    while k2 < held
                        invariant
                            victim < self.wrappers@.len(),
                            held == self.wrappers@[victim as int].lru@.len(),
                            k2 <= held,
                            self.lru.wf(),
                            self.wrappers == stloop.wrappers,
                            self.memory == stloop.memory,
                            self.page_to_process == stloop.page_to_process,
                            self.memory_to_take == stloop.memory_to_take,
                            self.abstract_timer == stloop.abstract_timer,
                            self.ans == stloop.ans,
                            self.recently_halted_process == stloop.recently_halted_process,
                            self.processes_memory_desire == stloop.processes_memory_desire,
                            self.period == stloop.period,
                        decreases held - k2,
                    {
                        let e = {
                            let w = &self.wrappers[victim];
                            w.lru.lru_iter()[k2]
                        };
                        self.lru.remove_lru(&e);
                        k2 += 1;
                    }
                }
                self.memory.insert(access);
                let bumped = {
                    let w = &mut self.wrappers[i];
                    if w.used_memory < usize::MAX {
                        w.used_memory = w.used_memory + 1;
                        true
                    } else {
                        false
                    }
                };
                if !bumped {
                    return Err(EmulationError::Starvation);
                }
                let a = self.ans[i];
                self.ans.set(i, a + 1);
            } else if has_some {
                // Evict this process's own least-recently-used page.
                let page_opt = {
                    let w = &mut self.wrappers[i];
                    w.lru.pop_lru()
                };
                let page = match page_opt {
                    Option::Some(p) => p,
                    Option::None => {
                        return Err(EmulationError::Starvation);
                    },
                };
                if !self.memory.remove(page) {
                    return Err(EmulationError::Starvation);
                }
                self.lru.remove_val(page);
                self.memory.insert(access);
                let a = self.ans[i];
                self.ans.set(i, a + 1);
            } else {
                // No frame held and no desire for one: starvation.
                return Err(EmulationError::Starvation);
            }
        }
        // The working-set window and the desire it implies.
        {
            let w = &mut self.wrappers[i];
            w.pages_list.push(access);
        }
        let bumped = bump_count(&mut self.wrappers, i, access);
        if !bumped {
            return Err(EmulationError::Starvation);
        }
        let over = {
            let w = &self.wrappers[i];
            w.pages_list.len() > self.period
        };
        if over {
            let old_page_opt = {
                let w = &mut self.wrappers[i];
                if w.pages_list.len() > 0 {
                    Some(w.pages_list.remove(0))
                } else {
                    None
                }
            };
            let old_page = match old_page_opt {
                Option::Some(p) => p,
                Option::None => {
                    proof {
                        assert(false);
                    }
                    0
                },
            };
            if !drop_count(&mut self.wrappers, i, old_page) {
                return Err(EmulationError::Starvation);
            }
        }
        let cnt = {
            let w = &self.wrappers[i];
            w.pages_counts.len()
        };
        let desired = {
            let w = &self.wrappers[i];
            w.desired_space
        };
        let used = {
            let w = &self.wrappers[i];
            w.used_memory
        };
        if cnt > desired {
            if desired < used {
                let red = if cnt - desired < used - desired {
                    cnt - desired
                } else {
                    used - desired
                };
                if self.memory_to_take < red {
                    return Err(EmulationError::Starvation);
                }
                self.memory_to_take = self.memory_to_take - red;
            }
            self.desire_remove((desired, i));
            {
                let w = &mut self.wrappers[i];
                w.desired_space = cnt;
            }
            if used != 0 {
                self.desire_insert((cnt, i));
            }
        } else if cnt < desired {
            if cnt < used {
                let inc = if used - cnt < desired - cnt {
                    used - cnt
                } else {
                    desired - cnt
                };
                if self.memory_to_take > usize::MAX - inc {
                    return Err(EmulationError::Starvation);
                }
                self.memory_to_take = self.memory_to_take + inc;
            }
            self.desire_remove((desired, i));
            {
                let w = &mut self.wrappers[i];
                w.desired_space = cnt;
            }
            if used != 0 {
                self.desire_insert((cnt, i));
            }
        }
        Ok(())
    }
}

/// Wakes a halted process when enough slack exists — free frames, owed
/// frames and its own holding together covering its desire — putting its
/// reserved frames back into the shared recency order.
impl WssState {
    pub(crate) fn try_resume(&mut self, i: usize, m: usize, Ghost(ps): Ghost<Seq<Process>>) -> (r:
        Result<bool, EmulationError>)
        requires
            wss_inv(old(self), ps, m),
            i < ps.len(),
        ensures
            match r {
                Ok(resumed) => {
                    &&& wss_inv(final(self), ps, m)
                    &&& final(self).period == old(self).period
                    &&& final(self).ans == old(self).ans
                    &&& final(self).abstract_timer == old(self).abstract_timer
                    &&& forall|j: int|
                        0 <= j < ps.len() ==> (#[trigger] final(self).wrappers@[j]).process == old(
                            self,
                        ).wrappers@[j].process
                },
                Err(e) => e == EmulationError::Starvation,
            },
    {
        let used = {
            let w = &self.wrappers[i];
            w.used_memory
        };
        let desired = {
            let w = &self.wrappers[i];
            w.desired_space
        };
        let free = m - self.memory.len();
        if used > usize::MAX - self.memory_to_take {
            return Err(EmulationError::Starvation);
        }
        let slack1 = used + self.memory_to_take;
        if slack1 > usize::MAX - free {
            return Err(EmulationError::Starvation);
        }
        if slack1 + free < desired {
            return Ok(false);
        }
        {
            let w = &mut self.wrappers[i];
            w.is_halted = false;
        }
        // Its reserved frames rejoin the shared recency order with their
        // recorded times.
        let held = {
            let w = &self.wrappers[i];
            w.lru.len()
        };
        let ghost stloop = *self;
        let mut k: usize = 0;
        while k < held
            invariant
                i < self.wrappers@.len(),
                held == self.wrappers@[i as int].lru@.len(),
                k <= held,
                self.lru.wf(),
                self.wrappers == stloop.wrappers,
                self.memory == stloop.memory,
                self.page_to_process == stloop.page_to_process,
                self.memory_to_take == stloop.memory_to_take,
                self.abstract_timer == stloop.abstract_timer,
                self.ans == stloop.ans,
                self.recently_halted_process == stloop.recently_halted_process,
                self.processes_memory_desire == stloop.processes_memory_desire,
                self.period == stloop.period,
            decreases held - k,
        {
            let e = {
                let w = &self.wrappers[i];
                w.lru.lru_iter()[k]
            };
            let v = e.get_val();
            let t = e.get_time();
            if !self.lru.use_val_checked(v, t) {
                return Err(EmulationError::Starvation);
            }
            k += 1;
        }
        let take = if used > desired {
            used - desired
        } else {
            0
        };
        if self.memory_to_take > usize::MAX - take {
            return Err(EmulationError::Starvation);
        }
        self.memory_to_take = self.memory_to_take + take;
        let clear_recent = match self.recently_halted_process {
            Option::Some(r) => r == i,
            Option::None => false,
        };
        if clear_recent {
            self.recently_halted_process = None;
        }
        Ok(true)
    }

    /// Retires process `i` once its trace is exhausted: its pair leaves
    /// the desire order, the frames it owed come off the counter, and all
    /// its resident pages leave the pool and both trackers.
    pub(crate) fn complete(&mut self, i: usize, m: usize, Ghost(ps): Ghost<Seq<Process>>) -> (r:
        Result<(), EmulationError>)
        requires
            wss_inv_at(old(self), ps, m, i as int),
            i < ps.len(),
            old(self).wrappers@[i as int].process.bursts().len() == 0,
            old(self).ans@[i as int] + trace_accesses(
                old(self).wrappers@[i as int].process.bursts(),
            ) <= trace_accesses(ps[i as int].bursts()),
        ensures
            match r {
                Ok(()) => {
                    &&& wss_inv(final(self), ps, m)
                    &&& final(self).period == old(self).period
                    &&& final(self).ans == old(self).ans
                    &&& final(self).abstract_timer == old(self).abstract_timer
                    &&& forall|j: int|
                        0 <= j < ps.len() ==> (#[trigger] final(self).wrappers@[j]).process == old(
                            self,
                        ).wrappers@[j].process
                },
                Err(e) => e == EmulationError::Starvation,
            },
    {
        let desired = {
            let w = &self.wrappers[i];
            w.desired_space
        };
        self.desire_remove((desired, i));
        let used = {
            let w = &self.wrappers[i];
            w.used_memory
        };
        let take = if used > desired {
            used - desired
        } else {
            0
        };
        if self.memory_to_take < take {
            return Err(EmulationError::Starvation);
        }
        self.memory_to_take = self.memory_to_take - take;
        let held = {
            let w = &self.wrappers[i];
            w.lru.len()
        };
        let ghost stloop = *self;
        let mut k: usize = 0;
        while k < held
            invariant
                i < self.wrappers@.len(),
                i < ps.len(),
                ps.len() == self.wrappers@.len(),
                k <= held,
                self.memory.wf(),
                self.lru.wf(),
                self.memory@.len() <= stloop.memory@.len(),
                held == self.wrappers@[i as int].lru@.len() + k,
                self.wrappers@[i as int].lru.wf(),
                self.wrappers@[i as int].process == stloop.wrappers@[i as int].process,
                forall|j: int|
                    0 <= j < ps.len() && j != i ==> (#[trigger] self.wrappers@[j])
                        == stloop.wrappers@[j],
                self.page_to_process == stloop.page_to_process,
                self.memory_to_take == stloop.memory_to_take,
                self.abstract_timer == stloop.abstract_timer,
                self.ans == stloop.ans,
                self.recently_halted_process == stloop.recently_halted_process,
                self.processes_memory_desire == stloop.processes_memory_desire,
                self.period == stloop.period,
            decreases held - k,
        {
            let page_opt = {
                let w = &mut self.wrappers[i];
                w.lru.pop_lru()
            };
            let page = match page_opt {
                Option::Some(p) => p,
                Option::None => {
                    proof {
                        assert(false);
                    }
                    0
                },
            };
            self.memory.remove(page);
            self.lru.remove_val(page);
            k += 1;
        }
        let wlast = &mut self.wrappers[i];
        wlast.desired_space = 0;
        wlast.used_memory = 0;
        Ok(())
    }
}

/// The position of `page` in a window-count list, if any.
fn find_count(w: &WssProc, page: usize) -> (r: Option<usize>)
    ensures
        match r {
            Option::Some(k) => k < w.pages_counts@.len() && w.pages_counts@[k as int].0 == page,
            Option::None => true,
        },
{
    let n = w.pages_counts.len();
    let mut k: usize = 0;
    while k < n
        invariant
            n == w.pages_counts@.len(),
            k <= n,
        decreases n - k,
    {
        if w.pages_counts[k].0 == page {
            return Some(k);
        }
        k += 1;
    }
    None
}

/// Notes one more occurrence of `page` in process `i`'s window counts;
/// refuses on a count already at the ceiling.
fn bump_count(wrappers: &mut Vec<WssProc>, i: usize, page: usize) -> (r: bool)
    requires
        i < old(wrappers)@.len(),
    ensures
        final(wrappers)@.len() == old(wrappers)@.len(),
        forall|j: int|
            0 <= j < old(wrappers)@.len() && j != i ==> (#[trigger] final(wrappers)@[j]) == old(
                wrappers,
            )@[j],
        final(wrappers)@[i as int].process == old(wrappers)@[i as int].process,
        final(wrappers)@[i as int].lru == old(wrappers)@[i as int].lru,
        final(wrappers)@[i as int].used_memory == old(wrappers)@[i as int].used_memory,
        final(wrappers)@[i as int].desired_space == old(wrappers)@[i as int].desired_space,
{
    let found = {
        let wref = &wrappers[i];
        find_count(wref, page)
    };
    match found {
        Option::Some(k) => {
            let w = &mut wrappers[i];
            let entry = w.pages_counts[k];
            if entry.1 == usize::MAX {
                return false;
            }
            w.pages_counts.set(k, (page, entry.1 + 1));
            true
        },
        Option::None => {
            let w = &mut wrappers[i];
            w.pages_counts.push((page, 1));
            true
        },
    }
}

/// Forgets one occurrence of `page` from process `i`'s window counts,
/// dropping the entry at zero; refuses if the page was never counted.
fn drop_count(wrappers: &mut Vec<WssProc>, i: usize, page: usize) -> (r: bool)
    requires
        i < old(wrappers)@.len(),
    ensures
        final(wrappers)@.len() == old(wrappers)@.len(),
        forall|j: int|
            0 <= j < old(wrappers)@.len() && j != i ==> (#[trigger] final(wrappers)@[j]) == old(
                wrappers,
            )@[j],
        final(wrappers)@[i as int].process == old(wrappers)@[i as int].process,
        final(wrappers)@[i as int].lru == old(wrappers)@[i as int].lru,
        final(wrappers)@[i as int].used_memory == old(wrappers)@[i as int].used_memory,
        final(wrappers)@[i as int].desired_space == old(wrappers)@[i as int].desired_space,
{
    let found = {
        let wref = &wrappers[i];
        find_count(wref, page)
    };
    match found {
        Option::Some(k) => {
            let w = &mut wrappers[i];
            let entry = w.pages_counts[k];
            if entry.1 == 0 {
                return false;
            }
            if entry.1 == 1 {
                w.pages_counts.remove(k);
            } else {
                w.pages_counts.set(k, (page, entry.1 - 1));
            }
            true
        },
        Option::None => false,
    }
}

/// Tracks each process's working set over a sliding window and keeps its
/// frame allotment near the set's size, halting processes the pool
/// cannot satisfy until slack returns.
pub struct WorkingSetSize {
    memory_size: usize,
    period: usize,
}

impl WorkingSetSize {
    /// The pool size this policy manages.
    pub closed spec fn mem(&self) -> usize {
        self.memory_size
    }

    /// The sliding-window length.
    pub closed spec fn period_spec(&self) -> usize {
        self.period
    }

    /// No allocation is possible without at least one frame.
    pub fn new(memory_size: usize, period: usize) -> (r: Self)
        requires
            memory_size >= 1,
        ensures
            r.mem() == memory_size,
            r.period_spec() == period,
    {
        WorkingSetSize { memory_size, period }
    }

    /// Runs every process to completion and returns one fault count per
    /// process, or reports starvation when no remaining process can make
    /// progress — every one blocked, halted without hope of slack, or
    /// caught by a bookkeeping failure. The pool bound is an invariant of
    /// the loops below.
    pub fn emulate(&self, processes: Vec<Process>) -> (r: Result<Vec<usize>, EmulationError>)
        requires
            self.mem() >= 1,
            processes_ok(processes@),
            traces_fit(processes@),
            forall|j: int|
                0 <= j < processes@.len() ==> (#[trigger] processes@[j]).pages().len()
                    * self.mem() <= usize::MAX as int,
            crate::virtual_memory::proportional::pages_from(processes@, 0) <= usize::MAX as int,
            forall|j: int, p: usize|
                0 <= j < processes@.len() && #[trigger] processes@[j].pages().contains(p) ==> p
                    < usize::MAX,
        ensures
            match r {
                Ok(v) => {
                    &&& v@.len() == processes@.len()
                    &&& forall|i: int|
                        0 <= i < processes@.len() && (#[trigger] processes@[i]).bursts().len()
                            == 0 ==> v@[i] == 0
                    &&& forall|i: int|
                        0 <= i < processes@.len() ==> (#[trigger] v@[i]) as int <= trace_accesses(
                            processes@[i].bursts(),
                        )
                },
                Err(e) => e == EmulationError::Starvation,
            },
            (forall|j: int|
                0 <= j < processes@.len() ==> (#[trigger] processes@[j]).bursts().len() == 0)
                ==> (r is Ok),
    {
        let ghost ps = processes@;
        let n = processes.len();
        let m = self.memory_size;
        let ans = super::zero_counts(n);
        let mut rest = processes;
        let mut wrappers: Vec<WssProc> = Vec::new();
        while rest.len() > 0
            invariant
                processes_ok(ps),
                traces_fit(ps),
                wrappers@.len() + rest@.len() == ps.len(),
                rest@ == ps.subrange(wrappers@.len() as int, ps.len() as int),
                forall|j: int|
                    0 <= j < wrappers@.len() ==> (#[trigger] wrappers@[j]).process == ps[j],
                forall|j: int|
                    0 <= j < wrappers@.len() ==> (#[trigger] wrappers@[j]).used_memory == 0
                        && wrappers@[j].lru@.len() == 0 && wrappers@[j].lru.wf(),
            decreases rest@.len(),
        {
            assert(rest@[0] == ps[wrappers@.len() as int]);
            let pr = rest.remove(0);
            assert(rest@ =~= ps.subrange(wrappers@.len() as int + 1, ps.len() as int));
            wrappers.push(
                WssProc {
                    process: pr,
                    lru: Lru::new(),
                    pages_list: Vec::new(),
                    pages_counts: Vec::new(),
                    desired_space: 0,
                    used_memory: 0,
                    is_halted: false,
                },
            );
        }
        if n == 0 {
            return Ok(ans);
        }
        // Initial desires from the largest-remainder distributor,
        // floored at one frame.
        let mut weights: Vec<usize> = Vec::new();
        let mut total: usize = 0;
        let mut i: usize = 0;
        while i < n
            invariant
                n == ps.len(),
                wrappers@.len() == n,
                i <= n,
                weights@.len() == i,
                crate::virtual_memory::proportional::pages_from(ps, 0) <= usize::MAX as int,
                forall|j: int| 0 <= j < n ==> (#[trigger] wrappers@[j]).process == ps[j],
                forall|j: int| 0 <= j < n ==> (#[trigger] ps[j]).wf(),
                forall|j: int|
                    0 <= j < i ==> (#[trigger] weights@[j]) as int == (
                    if ps[j].bursts().len() == 0 {
                        0int
                    } else {
                        ps[j].pages().len() as int
                    }),
                total as int == crate::arith::sum_usize(weights@),
                total + crate::virtual_memory::proportional::pages_from(ps, i as int)
                    <= crate::virtual_memory::proportional::pages_from(ps, 0),
            decreases n - i,
        {
            let wi = {
                let wref = &wrappers[i];
                if wref.process.is_empty() {
                    0
                } else {
                    wref.process.get_page_count()
                }
            };
            proof {
                crate::virtual_memory::proportional::lemma_pages_from_nonneg(ps, i as int + 1);
                crate::arith::lemma_sum_push(weights@, wi);
            }
            total = total + wi;
            weights.push(wi);
            i += 1;
        }
        proof {
            crate::virtual_memory::proportional::lemma_pages_from_nonneg(ps, n as int);
            assert forall|k: int| 0 <= k < weights@.len() implies (#[trigger] weights@[k]) as int
                * m as int <= usize::MAX as int by {
                if weights@[k] == 0 {
                    assert(weights@[k] as int * m as int == 0) by (nonlinear_arith)
                        requires
                            weights@[k] == 0,
                    ;
                } else {
                    assert(weights@[k] as int == ps[k].pages().len() as int);
                }
            }
        }
        let mut sorter = ReminderSorter::new(m, n);
        let quotas = sorter.set_frame_counts(total, &weights);
        let mut i2: usize = 0;
        while i2 < n
            invariant
                n == ps.len(),
                wrappers@.len() == n,
                quotas@.len() == n,
                i2 <= n,
                forall|j: int| 0 <= j < n ==> (#[trigger] wrappers@[j]).process == ps[j],
                forall|j: int| 0 <= j < n ==> (#[trigger] ps[j]).wf(),
                forall|j: int|
                    0 <= j < n ==> (#[trigger] wrappers@[j]).used_memory == 0
                        && wrappers@[j].lru@.len() == 0 && wrappers@[j].lru.wf(),
            decreases n - i2,
        {
            let q = quotas[i2];
            let d = if q < 1 {
                1
            } else {
                q
            };
            {
                let w = &mut wrappers[i2];
                w.desired_space = d;
            }
            i2 += 1;
        }
        let mut st = WssState {
            wrappers,
            memory: PageSet::new(),
            lru: Lru::new(),
            page_to_process: Vec::new(),
            memory_to_take: 0,
            abstract_timer: 0,
            ans,
            recently_halted_process: None,
            processes_memory_desire: Vec::new(),
            period: self.period,
        };
        proof {
            assert(wss_inv(&st, ps, m));
        }
        loop
            invariant
                ps == processes@,
                n == ps.len(),
                n >= 1,
                m == self.memory_size,
                forall|j: int, p: usize|
                    0 <= j < ps.len() && #[trigger] ps[j].pages().contains(p) ==> p < usize::MAX,
                wss_inv(&st, ps, m),
            decreases wss_bursts(st.wrappers@),
        {
            proof {
                lemma_wss_bursts_nonneg(st.wrappers@);
            }
            let ghost bc_start = wss_bursts(st.wrappers@);
            let mut all_done = true;
            let mut progress = false;
            let mut i: usize = 0;
            while i < n
                invariant
                    ps == processes@,
                    n == ps.len(),
                    n >= 1,
                    i <= n,
                    m == self.memory_size,
                    forall|j: int, p: usize|
                        0 <= j < ps.len() && #[trigger] ps[j].pages().contains(p) ==> p
                            < usize::MAX,
                    wss_inv(&st, ps, m),
                    wss_bursts(st.wrappers@) <= bc_start,
                    !progress ==> wss_bursts(st.wrappers@) == bc_start,
                    progress ==> wss_bursts(st.wrappers@) < bc_start,
                    all_done ==> forall|j: int|
                        0 <= j < i ==> (#[trigger] st.wrappers@[j]).process.bursts().len() == 0,
                    (forall|j: int|
                        0 <= j < n ==> (#[trigger] ps[j]).bursts().len() == 0) ==> all_done,
                decreases n - i,
            {
                let skip_done = {
                    let w = &st.wrappers[i];
                    w.process.is_empty()
                };
                if skip_done {
                    i += 1;
                    continue ;
                }
                all_done = false;
                proof {
                    assert(ps[i as int].bursts().len() > 0) by {
                        assert(st.wrappers@[i as int].process.bursts().len() > 0);
                    }
                    assert(!(forall|j: int|
                        0 <= j < n ==> (#[trigger] ps[j]).bursts().len() == 0));
                }
                let halted = {
                    let w = &st.wrappers[i];
                    w.is_halted
                };
                if halted {
                    let ghost stpre = st;
                    let resumed = match st.try_resume(i, m, Ghost(ps)) {
                        Result::Ok(b) => b,
                        Result::Err(e) => {
                            return Err(e);
                        },
                    };
                    proof {
                        lemma_wss_bursts_same(stpre.wrappers@, st.wrappers@);
                    }
                    if !resumed {
                        i += 1;
                        continue ;
                    }
                }
                let ghost stpre = st;
                let burst_opt = {
                    let w = &mut st.wrappers[i];
                    proof {
                        assert(w.process.wf());
                    }
                    w.process.next()
                };
                proof {
                    assert(st.wrappers@ =~= stpre.wrappers@.update(
                        i as int,
                        st.wrappers@[i as int],
                    ));
                    lemma_wss_bursts_update(stpre.wrappers@, i as int, st.wrappers@[i as int]);
                    lemma_wss_bursts_nonneg(st.wrappers@);
                }
                match burst_opt {
                    Option::Some(burst) => {
                        progress = true;
                        let ghost burst0 = burst@;
                        let ghost rest0 = st.wrappers@[i as int].process.bursts();
                        proof {
                            assert(trace_accesses(stpre.wrappers@[i as int].process.bursts())
                                == burst0.len() + trace_accesses(rest0));
                            assert forall|x: int|
                                0 <= x < burst0.len() implies ps[i as int].pages().contains(
                                #[trigger] burst0[x],
                            ) by {
                                assert(stpre.wrappers@[i as int].process.wf());
                                assert(stpre.wrappers@[i as int].process.bursts()[0] == burst0);
                                assert(stpre.wrappers@[i as int].process.pages().contains(
                                    burst0[x],
                                ));
                            }
                            assert forall|j: int| 0 <= j < ps.len() && j != i implies st.ans@[j]
                                + trace_accesses(
                                (#[trigger] st.wrappers@[j]).process.bursts(),
                            ) <= trace_accesses(ps[j].bursts()) by {
                                assert(st.wrappers@[j] == stpre.wrappers@[j]);
                            }
                            assert forall|j: int| 0 <= j < ps.len() implies (
                            #[trigger] st.wrappers@[j]).process.pages() == ps[j].pages() by {
                                if j != i {
                                    assert(st.wrappers@[j] == stpre.wrappers@[j]);
                                }
                            }
                            assert(wss_inv_at(&st, ps, m, i as int));
                        }
                        let mut k: usize = 0;
                        while k < burst.len()
                            invariant
                                ps == processes@,
                                n == ps.len(),
                                i < n,
                                k <= burst@.len(),
                                burst@ == burst0,
                                m == self.memory_size,
                                forall|j: int, p: usize|
                                    0 <= j < ps.len() && #[trigger] ps[j].pages().contains(p)
                                        ==> p < usize::MAX,
                                wss_inv_at(&st, ps, m, i as int),
                                forall|x: int|
                                    0 <= x < burst0.len() ==> ps[i as int].pages().contains(
                                        #[trigger] burst0[x],
                                    ),
                                st.wrappers@[i as int].process.bursts() == rest0,
                                st.ans@[i as int] + (burst0.len() - k) + trace_accesses(rest0)
                                    <= trace_accesses(ps[i as int].bursts()),
                                wss_bursts(st.wrappers@) < bc_start,
                            decreases burst0.len() - k,
                        {
                            let access = burst[k];
                            proof {
                                assert(ps[i as int].pages().contains(burst0[k as int]));
                                crate::process::lemma_trace_accesses_nonneg(rest0);
                                crate::process::lemma_trace_accesses_nonneg(
                                    ps[i as int].bursts(),
                                );
                            }
                            if st.abstract_timer == usize::MAX {
                                // The logical clock cannot tick further.
                                return Err(EmulationError::Starvation);
                            }
                            let ghost stserve = st;
                            let res = st.serve_access(i, access, m, Ghost(ps));
                            match res {
                                Result::Ok(()) => {},
                                Result::Err(e) => {
                                    return Err(e);
                                },
                            }
                            proof {
                                lemma_wss_bursts_same(stserve.wrappers@, st.wrappers@);
                            }
                            k += 1;
                        }
                        let now_empty = {
                            let w = &st.wrappers[i];
                            w.process.is_empty()
                        };
                        if now_empty {
                            let ghost stdone = st;
                            match st.complete(i, m, Ghost(ps)) {
                                Result::Ok(()) => {},
                                Result::Err(e) => {
                                    return Err(e);
                                },
                            }
                            proof {
                                lemma_wss_bursts_same(stdone.wrappers@, st.wrappers@);
                            }
                        } else {
                            proof {
                                assert(wss_inv(&st, ps, m));
                            }
                        }
                        proof {
                            lemma_wss_bursts_nonneg(st.wrappers@);
                        }
                    },
                    Option::None => {
                        proof {
                            assert forall|j: int| 0 <= j < ps.len() implies st.ans@[j]
                                + trace_accesses(
                                (#[trigger] st.wrappers@[j]).process.bursts(),
                            ) <= trace_accesses(ps[j].bursts()) by {
                                if j != i {
                                    assert(st.wrappers@[j] == stpre.wrappers@[j]);
                                } else {
                                    assert(st.wrappers@[j].process.bursts()
                                        == stpre.wrappers@[j].process.bursts());
                                }
                            }
                            assert forall|j: int| 0 <= j < ps.len() implies (
                            #[trigger] st.wrappers@[j]).process.pages() == ps[j].pages() by {
                                if j != i {
                                    assert(st.wrappers@[j] == stpre.wrappers@[j]);
                                }
                            }
                            assert(wss_inv(&st, ps, m));
                        }
                    },
                }
                i += 1;
            }
            if all_done {
                proof {
                    assert forall|i2: int| 0 <= i2 < ps.len() implies (
                    #[trigger] st.ans@[i2]) as int <= trace_accesses(ps[i2].bursts()) by {
                        crate::process::lemma_trace_accesses_nonneg(
                            st.wrappers@[i2].process.bursts(),
                        );
                    }
                }
                return Ok(st.ans);
            }
            if !progress {
                // Every remaining process is halted or blocked with no
                // reclaimable slack: the run can make no further progress.
                return Err(EmulationError::Starvation);
            }
            proof {
                lemma_wss_bursts_nonneg(st.wrappers@);
            }
        }
    }
}

} // verus!

verus! {

impl super::VirtualMemory for WorkingSetSize {
    open spec fn emulate_pre(&self, ps: Seq<Process>) -> bool {
        &&& self.mem() >= 1
        &&& processes_ok(ps)
        &&& traces_fit(ps)
        &&& forall|j: int|
            0 <= j < ps.len() ==> (#[trigger] ps[j]).pages().len() * self.mem()
                <= usize::MAX as int
        &&& crate::virtual_memory::proportional::pages_from(ps, 0) <= usize::MAX as int
        &&& forall|j: int, p: usize|
            0 <= j < ps.len() && #[trigger] ps[j].pages().contains(p) ==> p < usize::MAX
    }

    fn emulate(&self, processes: Vec<Process>) -> (r: Result<Vec<usize>, EmulationError>) {
        WorkingSetSize::emulate(self, processes)
    }
}

} // verus!
