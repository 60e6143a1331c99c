//! The proportional policy. Every active process weighs in with its
//! distinct-page count and the largest-remainder distributor turns the
//! weights into quotas. On a fault at quota the process evicts its own
//! least-recently-used page. When a process finishes, its weight drops to
//! zero, quotas are recomputed over the remaining processes, and every
//! process now above its new quota is trimmed at once.

use vstd::prelude::*;

use crate::arith::{lemma_sum_element_le, lemma_sum_push, lemma_sum_update, lemma_sum_zero, sum_usize};
use crate::page_set::PageSet;
use crate::process::{trace_accesses, Process};
use crate::reminder_sorter::ReminderSorter;

use super::{
    avails, burst_counts, lemma_burst_counts_nonneg, lemma_burst_counts_update, processes_ok,
    traces_fit, useds, wrap_all, wrapper_in_pool, wrapper_ok, zero_counts, EmulationError,
    EmulationStepResult, ProcessWrapper,
};
use super::equal_allocation::preserve_other_wrapper;

verus! {

/// The distinct-page counts of the processes from index `i` on.
pub open spec fn pages_from(ps: Seq<Process>, i: int) -> int
    decreases ps.len() - i,
{
    if i < 0 || i >= ps.len() {
        0
    } else {
        ps[i].pages().len() + pages_from(ps, i + 1)
    }
}

pub proof fn lemma_pages_from_nonneg(ps: Seq<Process>, i: int)
    ensures
        pages_from(ps, i) >= 0,
    decreases ps.len() - i,
{
    if 0 <= i < ps.len() {
        lemma_pages_from_nonneg(ps, i + 1);
    }
}

/// The weights match the processes: an exhausted process weighs nothing,
/// a live one weighs its distinct-page count.
pub(crate) open spec fn weights_ok(
    ws: Seq<ProcessWrapper>,
    weights: Seq<usize>,
    ps: Seq<Process>,
) -> bool {
    &&& weights.len() == ws.len()
    &&& forall|j: int|
        0 <= j < ws.len() ==> (#[trigger] weights[j]) as int == (
        if ws[j].process.bursts().len() == 0 {
            0int
        } else {
            ps[j].pages().len() as int
        })
}

/// The running state the proportional engine preserves between visits.
pub(crate) open spec fn prop_inv(
    ws: Seq<ProcessWrapper>,
    mem: &PageSet,
    ans: Seq<usize>,
    ps: Seq<Process>,
    m: usize,
) -> bool {
    &&& ws.len() == ps.len()
    &&& ans.len() == ps.len()
    &&& m >= 1
    &&& mem.wf()
    &&& processes_ok(ps)
    &&& traces_fit(ps)
    &&& forall|j: int|
        0 <= j < ps.len() ==> (#[trigger] ps[j]).pages().len() * m <= usize::MAX as int
    &&& forall|j: int| 0 <= j < ws.len() ==> wrapper_ok(&(#[trigger] ws[j]))
    &&& forall|j: int| 0 <= j < ws.len() ==> wrapper_in_pool(&(#[trigger] ws[j]), mem)
    &&& forall|j: int| 0 <= j < ws.len() ==> (#[trigger] ws[j]).process.pages() == ps[j].pages()
    &&& forall|j: int|
        0 <= j < ws.len() ==> (#[trigger] ws[j]).process.bursts().len() <= ps[j].bursts().len()
    &&& forall|j: int| 0 <= j < ws.len() ==> (#[trigger] ws[j]).used_space <= ws[j].available_size
    &&& forall|j: int|
        0 <= j < ws.len() && (#[trigger] ws[j]).process.bursts().len() == 0 ==> ws[j].used_space
            == 0
    &&& sum_usize(avails(ws)) <= m
    &&& mem@.len() == sum_usize(useds(ws))
    &&& forall|j: int|
        0 <= j < ws.len() ==> ans[j] + trace_accesses((#[trigger] ws[j]).process.bursts())
            <= trace_accesses(ps[j].bursts())
    &&& forall|j: int| 0 <= j < ps.len() && (#[trigger] ps[j]).bursts().len() == 0 ==> ans[j] == 0
}

/// The running shape of the disjoint-pages argument, carried only when
/// the pool covers the total distinct-page count and every recorded page
/// is actually referenced: every live process's quota covers its count,
/// its pages are each resident or still ahead in its trace, and its
/// fault count so far equals its holding — page counts exactly, once the
/// trace is out.
pub(crate) open spec fn p4_covered(
    ws: Seq<ProcessWrapper>,
    ans: Seq<usize>,
    ps: Seq<Process>,
) -> bool {
    &&& forall|j: int|
        0 <= j < ws.len() && (#[trigger] ws[j]).process.bursts().len() > 0
            ==> ws[j].available_size as int >= ws[j].process.page_count_spec() as int
    &&& forall|j: int|
        0 <= j < ws.len() && (#[trigger] ws[j]).process.bursts().len() > 0 ==> (forall|p: usize|
            ws[j].process.pages().contains(p) ==> ws[j].lru.has_val(p)
                || crate::process::trace_has_page(ws[j].process.bursts(), p))
    &&& forall|j: int|
        0 <= j < ws.len() ==> (#[trigger] ans[j]) as int == (if ws[j].process.bursts().len()
            == 0 {
            ps[j].pages().len() as int
        } else {
            ws[j].used_space as int
        })
}

/// Shares the pool in proportion to each live process's distinct-page
/// count, recomputing on every completion.
pub struct Proportional {
    memory_size: usize,
}

impl Proportional {
    /// The pool size this policy divides.
    pub closed spec fn mem(&self) -> usize {
        self.memory_size
    }

    /// No allocation is possible without at least one frame.
    pub fn new(memory_size: usize) -> (r: Self)
        requires
            memory_size >= 1,
        ensures
            r.mem() == memory_size,
    {
        Proportional { memory_size }
    }

    /// Runs every process to completion and returns one fault count per
    /// process, or reports starvation if a full round of visits can make
    /// no progress because every remaining process is out of quota. The
    /// pool never outgrows the policy's size: that bound is an invariant
    /// of the loop below.
    pub fn emulate(&self, processes: Vec<Process>) -> (r: Result<Vec<usize>, EmulationError>)
        requires
            self.mem() >= 1,
            processes_ok(processes@),
            traces_fit(processes@),
            forall|j: int|
                0 <= j < processes@.len() ==> (#[trigger] processes@[j]).pages().len()
                    * self.mem() <= usize::MAX as int,
            pages_from(processes@, 0) <= usize::MAX as int,
        ensures
            match r {
                Ok(v) => {
                    &&& v@.len() == processes@.len()
                    &&& forall|i: int|
                        0 <= i < processes@.len() && (#[trigger] processes@[i]).bursts().len()
                            == 0 ==> v@[i] == 0
                    &&& forall|i: int|
                        0 <= i < processes@.len() ==> (#[trigger] v@[i]) as int <= trace_accesses(
                            processes@[i].bursts(),
                        )
                },
                Err(e) => e == EmulationError::Starvation,
            },
            (pages_from(processes@, 0) <= self.mem() as int && (forall|j: int, p: usize|
                0 <= j < processes@.len() && #[trigger] processes@[j].pages().contains(p)
                    ==> crate::process::trace_has_page(processes@[j].bursts(), p))) ==> (match r {
                Ok(v) => forall|i: int|
                    0 <= i < processes@.len() ==> (#[trigger] v@[i]) as int
                        == processes@[i].pages().len() as int,
                Err(e) => true,
            }),
            (forall|j: int|
                0 <= j < processes@.len() ==> (#[trigger] processes@[j]).bursts().len() == 0)
                ==> (r is Ok),
            (pages_from(processes@, 0) <= self.mem() as int && (forall|j: int, p: usize|
                0 <= j < processes@.len() && #[trigger] processes@[j].pages().contains(p)
                    ==> crate::process::trace_has_page(processes@[j].bursts(), p)) && (forall|
                j: int,
            |
                0 <= j < processes@.len() && (#[trigger] processes@[j]).bursts().len() > 0
                    ==> processes@[j].pages().len() > 0)) ==> (r is Ok),
    {
        let ghost ps = processes@;
        let ghost g = pages_from(processes@, 0) <= self.mem() as int && (forall|j: int, p: usize|
            0 <= j < processes@.len() && #[trigger] processes@[j].pages().contains(p)
                ==> crate::process::trace_has_page(processes@[j].bursts(), p));
        let ghost g2 = g && (forall|j: int|
            0 <= j < processes@.len() && (#[trigger] processes@[j]).bursts().len() > 0
                ==> processes@[j].pages().len() > 0);
        let n = processes.len();
        let m = self.memory_size;
        let mut ans = zero_counts(n);
        let mut wrappers = wrap_all(processes);
        let mut memory = PageSet::new();
        if n == 0 {
            return Ok(ans);
        }
        proof {
            lemma_sum_zero(useds(wrappers@));
            lemma_sum_zero(avails(wrappers@));
        }
        // Weigh every live process.
        let mut weights: Vec<usize> = Vec::new();
        let mut total: usize = 0;
        let mut i: usize = 0;
        while i < n
            invariant
                n == ps.len(),
                wrappers@.len() == n,
                i <= n,
                weights@.len() == i,
                pages_from(ps, 0) <= usize::MAX as int,
                forall|j: int| 0 <= j < n ==> (#[trigger] wrappers@[j]).process == ps[j],
                forall|j: int| 0 <= j < n ==> wrapper_ok(&(#[trigger] wrappers@[j])),
                forall|j: int|
                    0 <= j < i ==> (#[trigger] weights@[j]) as int == (
                    if ps[j].bursts().len() == 0 {
                        0int
                    } else {
                        ps[j].pages().len() as int
                    }),
                total as int == sum_usize(weights@),
                total + pages_from(ps, i as int) <= pages_from(ps, 0),
            decreases n - i,
        {
            let wi = {
                let wref = &wrappers[i];
                if wref.process.is_empty() {
                    0
                } else {
                    wref.process.get_page_count()
                }
            };
            proof {
                lemma_pages_from_nonneg(ps, i as int + 1);
                lemma_sum_push(weights@, wi);
            }
            total = total + wi;
            weights.push(wi);
            i += 1;
        }
        proof {
            lemma_pages_from_nonneg(ps, n as int);
        }
        let mut sorter = ReminderSorter::new(m, n);
        proof {
            assert forall|k: int| 0 <= k < weights@.len() implies (#[trigger] weights@[k]) as int
                * m as int <= usize::MAX as int by {
                if weights@[k] == 0 {
                    assert(weights@[k] as int * m as int == 0) by (nonlinear_arith)
                        requires
                            weights@[k] == 0,
                    ;
                } else {
                    assert(weights@[k] as int == ps[k].pages().len() as int);
                }
            }
        }
        let quotas = sorter.set_frame_counts(total, &weights);
        proof {
            if total == 0 {
                lemma_sum_zero(quotas@);
            }
        }
        apply_quotas(&mut wrappers, &quotas, Ghost(ps), Ghost(m));
        proof {
            assert(prop_inv(wrappers@, &memory, ans@, ps, m));
            assert(weights_ok(wrappers@, weights@, ps));
            if g {
                assert(p4_covered(wrappers@, ans@, ps)) by {
                    assert forall|j: int|
                        0 <= j < n && (#[trigger] wrappers@[j]).process.bursts().len()
                            > 0 implies wrappers@[j].available_size as int
                        >= wrappers@[j].process.page_count_spec() as int by {
                        if weights@[j] > 0 {
                            lemma_sum_element_le(weights@, j);
                            crate::virtual_memory::proportional::lemma_pages_from_nonneg(
                                ps,
                                n as int,
                            );
                            assert(total as int <= pages_from(ps, 0));
                            assert(total as int <= m as int);
                            crate::reminder_sorter::lemma_quota_covers_weight(
                                weights@,
                                m,
                                total,
                                j,
                            );
                            assert(weights@[j] as int == ps[j].pages().len() as int);
                            assert(wrappers@[j].process == ps[j]);
                            assert(wrappers@[j].available_size == quotas@[j]);
                            assert(quotas@[j] as int >= crate::reminder_sorter::base_quota(
                                weights@,
                                m,
                                total,
                                j,
                            ));
                        } else {
                            assert(ps[j].pages().len() == 0) by {
                                if ps[j].pages().len() > 0 {
                                    assert(ps[j].pages().contains(ps[j].pages()[0]));
                                    crate::process::lemma_trace_has_page_step(
                                        ps[j].bursts(),
                                        ps[j].pages()[0],
                                    );
                                }
                            }
                        }
                    }
                    assert forall|j: int|
                        0 <= j < n && (#[trigger] ps[j]).bursts().len() == 0 implies ps[j].pages().len()
                        == 0 by {
                        if ps[j].pages().len() > 0 {
                            assert(ps[j].pages().contains(ps[j].pages()[0]));
                            crate::process::lemma_trace_has_page_step(
                                ps[j].bursts(),
                                ps[j].pages()[0],
                            );
                        }
                    }
                }
            }
        }
        loop
            invariant
                ps == processes@,
                g == (pages_from(processes@, 0) <= m as int && (forall|j: int, p: usize|
                    0 <= j < processes@.len() && #[trigger] processes@[j].pages().contains(p)
                        ==> crate::process::trace_has_page(processes@[j].bursts(), p))),
                m == self.memory_size,
                n == ps.len(),
                n >= 1,
                wrappers@.len() == n,
                weights@.len() == n,
                sorter.mem() == m,
                prop_inv(wrappers@, &memory, ans@, ps, m),
                weights_ok(wrappers@, weights@, ps),
                total as int == sum_usize(weights@),
                total as int <= pages_from(ps, 0),
                g ==> p4_covered(wrappers@, ans@, ps),
                g2 == (g && (forall|j: int|
                    0 <= j < processes@.len() && (#[trigger] processes@[j]).bursts().len() > 0
                        ==> processes@[j].pages().len() > 0)),
            decreases burst_counts(wrappers@),
        {
            proof {
                lemma_burst_counts_nonneg(wrappers@);
            }
            let ghost bc_start = burst_counts(wrappers@);
            let mut progress = false;
            let mut all_done = true;
            let mut i: usize = 0;
            while i < n
                invariant
                    ps == processes@,
                    g == (pages_from(processes@, 0) <= m as int && (forall|j: int, p: usize|
                        0 <= j < processes@.len() && #[trigger] processes@[j].pages().contains(p)
                            ==> crate::process::trace_has_page(processes@[j].bursts(), p))),
                    m == self.memory_size,
                    n == ps.len(),
                    n >= 1,
                    i <= n,
                    wrappers@.len() == n,
                    weights@.len() == n,
                    sorter.mem() == m,
                    prop_inv(wrappers@, &memory, ans@, ps, m),
                    weights_ok(wrappers@, weights@, ps),
                    total as int == sum_usize(weights@),
                    total as int <= pages_from(ps, 0),
                    progress ==> burst_counts(wrappers@) < bc_start,
                    !progress ==> burst_counts(wrappers@) == bc_start,
                    all_done ==> forall|j: int|
                        0 <= j < i ==> (#[trigger] wrappers@[j]).process.bursts().len() == 0,
                    g ==> p4_covered(wrappers@, ans@, ps),
                    g2 == (g && (forall|j: int|
                        0 <= j < processes@.len() && (#[trigger] processes@[j]).bursts().len()
                            > 0 ==> processes@[j].pages().len() > 0)),
                    (forall|j: int|
                        0 <= j < n ==> (#[trigger] ps[j]).bursts().len() == 0) ==> all_done,
                    g2 ==> (!all_done ==> progress),
                decreases n - i,
            {
                let ghost pre = wrappers@;
                let ghost mempre = memory;
                let step = {
                    let w = &mut wrappers[i];
                    w.next(&mut memory)
                };
                proof {
                    assert(useds(wrappers@) =~= useds(pre).update(
                        i as int,
                        wrappers@[i as int].used_space,
                    ));
                    assert(avails(wrappers@) =~= avails(pre));
                    lemma_sum_update(useds(pre), i as int, wrappers@[i as int].used_space);
                    lemma_burst_counts_update(pre, i as int, wrappers@[i as int]);
                    assert forall|j2: int|
                        0 <= j2 < n && j2 != i implies wrapper_in_pool(
                        &(#[trigger] wrappers@[j2]),
                        &memory,
                    ) by {
                        preserve_other_wrapper(pre, wrappers@, ps, i as int, j2, memory, mempre);
                    }
                    lemma_burst_counts_nonneg(wrappers@);
                }
                match step {
                    EmulationStepResult::Done(f) => {
                        let cur = ans[i];
                        proof {
                            assert(trace_accesses(pre[i as int].process.bursts())
                                == pre[i as int].process.bursts()[0].len() + trace_accesses(
                                wrappers@[i as int].process.bursts(),
                            ));
                        }
                        ans.set(i, cur + f);
                        progress = true;
                        proof {
                            if g {
                                // The quota covered the count, so the step
                                // evicted nothing and faulted once per new page.
                                assert(super::adequate_quota(&pre[i as int]));
                                crate::process::lemma_trace_has_page_step(
                                    pre[i as int].process.bursts(),
                                    0,
                                );
                                if wrappers@[i as int].process.bursts().len() > 0 {
                                    assert(ans@[i as int] as int
                                        == wrappers@[i as int].used_space as int);
                                    assert forall|p: usize|
                                        wrappers@[i as int].process.pages().contains(
                                            p,
                                        ) implies wrappers@[i as int].lru.has_val(p)
                                        || crate::process::trace_has_page(
                                        wrappers@[i as int].process.bursts(),
                                        p,
                                    ) by {
                                        assert(pre[i as int].process.pages().contains(p));
                                        crate::process::lemma_trace_has_page_step(
                                            pre[i as int].process.bursts(),
                                            p,
                                        );
                                    }
                                } else {
                                    assert(pre[i as int].process.bursts().len() == 1);
                                    assert forall|p: usize|
                                        pre[i as int].process.pages().contains(p) implies pre[i as int].lru.has_val(
                                        p,
                                    ) || pre[i as int].process.bursts()[0].contains(p) by {
                                        crate::process::lemma_trace_has_page_step(
                                            pre[i as int].process.bursts(),
                                            p,
                                        );
                                        crate::process::lemma_trace_has_page_step(
                                            pre[i as int].process.bursts().drop_first(),
                                            p,
                                        );
                                    }
                                    assert(f as int + pre[i as int].used_space as int
                                        == pre[i as int].process.page_count_spec() as int);
                                    assert(ans@[i as int] as int == ps[i as int].pages().len() as int);
                                }
                                assert forall|j: int|
                                    0 <= j < n && j != i implies (#[trigger] wrappers@[j])
                                    == pre[j] by {}
                            }
                        }
                        let ghost post_serve = wrappers@;
                        let ghost ans_serve = ans@;
                        let now_empty = {
                            let wref = &wrappers[i];
                            wref.process.is_empty()
                        };
                        if now_empty {
                            // The weight drops out; quotas are redealt and
                            // everyone sheds down to the new quota.
                            let wi_old = weights[i];
                            proof {
                                lemma_sum_element_le(weights@, i as int);
                                lemma_sum_update(weights@, i as int, 0usize);
                            }
                            weights.set(i, 0);
                            total = total - wi_old;
                            proof {
                                assert forall|k: int|
                                    0 <= k < weights@.len() implies (#[trigger] weights@[k]) as int
                                    * m as int <= usize::MAX as int by {
                                    if weights@[k] == 0 {
                                        assert(weights@[k] as int * m as int == 0)
                                            by (nonlinear_arith)
                                            requires
                                                weights@[k] == 0,
                                        ;
                                    } else {
                                        assert(weights@[k] as int == ps[k].pages().len() as int);
                                    }
                                }
                            }
                            let quotas = sorter.set_frame_counts(total, &weights);
                            proof {
                                if total == 0 {
                                    lemma_sum_zero(quotas@);
                                }
                            }
                            apply_quotas(&mut wrappers, &quotas, Ghost(ps), Ghost(m));
                            let ghost post_apply = wrappers@;
                            let ghost mem_apply = memory@;
                            proof {
                                if g {
                                    // New quotas still cover every live count,
                                    // and nobody stands above one, so the trim
                                    // below changes nothing.
                                    assert forall|j: int|
                                        0 <= j < n && (#[trigger] wrappers@[j]).process.bursts().len()
                                            > 0 implies wrappers@[j].available_size as int
                                        >= wrappers@[j].process.page_count_spec() as int by {
                                        assert(weights@[j] as int == (
                                        if post_serve[j].process.bursts().len() == 0 {
                                            0int
                                        } else {
                                            ps[j].pages().len() as int
                                        }));
                                        if weights@[j] > 0 {
                                            lemma_sum_element_le(weights@, j);
                                            crate::reminder_sorter::lemma_quota_covers_weight(
                                                weights@,
                                                m,
                                                total,
                                                j,
                                            );
                                        } else {
                                            assert(ps[j].pages().len() == 0) by {
                                                if ps[j].pages().len() > 0 {
                                                    assert(ps[j].pages().contains(
                                                        ps[j].pages()[0],
                                                    ));
                                                    crate::process::lemma_trace_has_page_step(
                                                        ps[j].bursts(),
                                                        ps[j].pages()[0],
                                                    );
                                                }
                                            }
                                        }
                                    }
                                    assert forall|j: int|
                                        0 <= j < n implies (#[trigger] wrappers@[j]).used_space
                                        <= wrappers@[j].available_size by {
                                        if wrappers@[j].process.bursts().len() > 0 {
                                            let w = wrappers@[j];
                                            let avals = Seq::new(
                                                w.lru@.len(),
                                                |k: int| w.lru@[k].valv(),
                                            );
                                            assert forall|a: int, b: int|
                                                0 <= a < b < avals.len() implies avals[a]
                                                != avals[b] by {
                                                assert(w.lru@[a].valv() != w.lru@[b].valv());
                                            }
                                            assert forall|v: usize|
                                                avals.contains(v) implies w.process.pages().contains(
                                                v,
                                            ) by {
                                                let k = choose|k: int|
                                                    0 <= k < avals.len() && avals[k] == v;
                                                assert(w.lru@[k].valv() == v);
                                            }
                                            crate::arith::lemma_distinct_subset_len(
                                                avals,
                                                w.process.pages(),
                                            );
                                        }
                                    }
                                }
                            }
                            trim_all(&mut wrappers, &mut memory, Ghost(ps), Ghost(m), Ghost(ans@));
                            proof {
                                if g {
                                    assert(wrappers@ == post_apply);
                                    assert(p4_covered(wrappers@, ans@, ps)) by {
                                        assert forall|j: int|
                                            0 <= j < n && (#[trigger] wrappers@[j]).process.bursts().len()
                                                > 0 implies (forall|p: usize|
                                            wrappers@[j].process.pages().contains(p)
                                                ==> wrappers@[j].lru.has_val(p)
                                                || crate::process::trace_has_page(
                                                wrappers@[j].process.bursts(),
                                                p,
                                            )) by {
                                            assert(wrappers@[j].lru == post_serve[j].lru);
                                            assert(wrappers@[j].process
                                                == post_serve[j].process);
                                        }
                                    }
                                }
                            }
                        } else {
                            all_done = false;
                            proof {
                                assert(ps[i as int].bursts().len() > 0) by {
                                    assert(wrappers@[i as int].process.bursts().len() > 0);
                                }
                                if g {
                                    assert(p4_covered(wrappers@, ans@, ps));
                                }
                            }
                        }
                        proof {
                            assert(prop_inv(wrappers@, &memory, ans@, ps, m));
                        }
                    },
                    EmulationStepResult::NoMemoryAvailable => {
                        all_done = false;
                        proof {
                            assert(ps[i as int].bursts().len() > 0) by {
                                assert(pre[i as int].process.bursts().len() > 0);
                            }
                            if g2 {
                                // A live process with pages in a covered pool
                                // always holds a positive quota; it cannot be
                                // blocked at quota zero.
                                assert(pre[i as int].available_size as int
                                    >= pre[i as int].process.page_count_spec() as int);
                                assert(ps[i as int].pages().len() > 0);
                                assert(false);
                            }
                            if g {
                                assert(p4_covered(wrappers@, ans@, ps)) by {
                                    assert forall|j: int|
                                        0 <= j < n && j != i implies (#[trigger] wrappers@[j])
                                        == pre[j] by {}
                                    assert(ps[i as int].pages().len() == 0) by {
                                        // Blocked at quota zero: the quota covers
                                        // the count, so the count is zero.
                                        assert(pre[i as int].available_size == 0);
                                    }
                                    assert forall|p: usize|
                                        wrappers@[i as int].process.pages().contains(
                                            p,
                                        ) implies wrappers@[i as int].lru.has_val(p)
                                        || crate::process::trace_has_page(
                                        wrappers@[i as int].process.bursts(),
                                        p,
                                    ) by {
                                        assert(wrappers@[i as int].process.pages()
                                            == ps[i as int].pages());
                                        assert(ps[i as int].pages().contains(p));
                                        assert(ps[i as int].pages().len() > 0);
                                    }
                                }
                            }
                        }
                    },
                    EmulationStepResult::NoMoreWork => {
                        proof {
                            if g {
                                assert(p4_covered(wrappers@, ans@, ps)) by {
                                    assert forall|j: int|
                                        0 <= j < n && j != i implies (#[trigger] wrappers@[j])
                                        == pre[j] by {}
                                    assert(wrappers@[i as int].process.bursts().len() == 0);
                                    assert(wrappers@[i as int].used_space
                                        == pre[i as int].used_space);
                                    assert(ans@[i as int] == ans@[i as int]);
                                }
                            }
                        }
                    },
                }
                i += 1;
            }
            proof {
                lemma_burst_counts_nonneg(wrappers@);
            }
            if all_done {
                proof {
                    assert forall|i2: int| 0 <= i2 < ps.len() implies (#[trigger] ans@[i2]) as int
                        <= trace_accesses(ps[i2].bursts()) by {
                        assert(ans@[i2] + trace_accesses(wrappers@[i2].process.bursts())
                            <= trace_accesses(ps[i2].bursts()));
                    }
                    if g {
                        assert forall|i2: int| 0 <= i2 < ps.len() implies (
                        #[trigger] ans@[i2]) as int == ps[i2].pages().len() as int by {
                            assert(wrappers@[i2].process.bursts().len() == 0);
                        }
                    }
                }
                return Ok(ans);
            }
            if !progress {
                // Every remaining process is blocked at quota zero: the
                // run can make no further progress. With every quota
                // covering its process's page count this cannot happen,
                // so the failure names its own cause.
                proof {
                    assert(!(forall|j: int|
                        0 <= j < processes@.len() ==> (#[trigger] processes@[j]).bursts().len()
                            == 0));
                    assert(!g2);
                }
                return Err(EmulationError::Starvation);
            }
        }
    }
}

/// Hands each wrapper its freshly computed quota.
fn apply_quotas(
    wrappers: &mut Vec<ProcessWrapper>,
    quotas: &Vec<usize>,
    Ghost(ps): Ghost<Seq<Process>>,
    Ghost(m): Ghost<usize>,
)
    requires
        old(wrappers)@.len() == quotas@.len(),
        sum_usize(quotas@) <= m,
        forall|j: int| 0 <= j < old(wrappers)@.len() ==> wrapper_ok(&(#[trigger] old(wrappers)@[j])),
    ensures
        final(wrappers)@.len() == old(wrappers)@.len(),
        forall|j: int|
            0 <= j < final(wrappers)@.len() ==> (#[trigger] final(wrappers)@[j]) == (
            ProcessWrapper { available_size: quotas@[j], ..old(wrappers)@[j] }),
        sum_usize(avails(final(wrappers)@)) == sum_usize(quotas@),
        burst_counts(final(wrappers)@) == burst_counts(old(wrappers)@),
        useds(final(wrappers)@) == useds(old(wrappers)@),
{
    let n = wrappers.len();
    let ghost pre0 = wrappers@;
    let mut i: usize = 0;
    while i < n
        invariant
            n == pre0.len(),
            wrappers@.len() == n,
            quotas@.len() == n,
            i <= n,
            forall|j: int|
                0 <= j < i ==> (#[trigger] wrappers@[j]) == (ProcessWrapper {
                    available_size: quotas@[j],
                    ..pre0[j]
                }),
            forall|j: int| i <= j < n ==> (#[trigger] wrappers@[j]) == pre0[j],
            burst_counts(wrappers@) == burst_counts(pre0),
            useds(wrappers@) =~= useds(pre0),
        decreases n - i,
    {
        let q = quotas[i];
        let ghost pre = wrappers@;
        {
            let w = &mut wrappers[i];
            w.available_size = q;
        }
        proof {
            assert(useds(wrappers@) =~= useds(pre));
            assert(wrappers@[i as int].process == pre[i as int].process);
            lemma_burst_counts_update(pre, i as int, wrappers@[i as int]);
        }
        i += 1;
    }
    proof {
        assert(avails(wrappers@) =~= quotas@);
        assert(useds(wrappers@) =~= useds(pre0));
    }
}

/// Evicts every wrapper down to its quota after a recomputation.
fn trim_all(
    wrappers: &mut Vec<ProcessWrapper>,
    memory: &mut PageSet,
    Ghost(ps): Ghost<Seq<Process>>,
    Ghost(m): Ghost<usize>,
    Ghost(ans): Ghost<Seq<usize>>,
)
    requires
        old(wrappers)@.len() == ps.len(),
        ans.len() == ps.len(),
        m >= 1,
        old(memory).wf(),
        processes_ok(ps),
        traces_fit(ps),
        forall|j: int|
            0 <= j < ps.len() ==> (#[trigger] ps[j]).pages().len() * m <= usize::MAX as int,
        forall|j: int| 0 <= j < old(wrappers)@.len() ==> wrapper_ok(&(#[trigger] old(wrappers)@[j])),
        forall|j: int|
            0 <= j < old(wrappers)@.len() ==> wrapper_in_pool(
                &(#[trigger] old(wrappers)@[j]),
                old(memory),
            ),
        forall|j: int|
            0 <= j < old(wrappers)@.len() ==> (#[trigger] old(wrappers)@[j]).process.pages()
                == ps[j].pages(),
        forall|j: int|
            0 <= j < old(wrappers)@.len() ==> (#[trigger] old(wrappers)@[j]).process.bursts().len()
                <= ps[j].bursts().len(),
        forall|j: int|
            0 <= j < old(wrappers)@.len() && (#[trigger] old(wrappers)@[j]).process.bursts().len()
                == 0 ==> old(wrappers)@[j].used_space == 0,
        sum_usize(avails(old(wrappers)@)) <= m,
        old(memory)@.len() == sum_usize(useds(old(wrappers)@)),
        forall|j: int|
            0 <= j < old(wrappers)@.len() ==> ans[j] + trace_accesses(
                (#[trigger] old(wrappers)@[j]).process.bursts(),
            ) <= trace_accesses(ps[j].bursts()),
        forall|j: int| 0 <= j < ps.len() && (#[trigger] ps[j]).bursts().len() == 0 ==> ans[j] == 0,
    ensures
        prop_inv(final(wrappers)@, final(memory), ans, ps, m),
        final(wrappers)@.len() == old(wrappers)@.len(),
        forall|j: int|
            0 <= j < final(wrappers)@.len() ==> (#[trigger] final(wrappers)@[j]).process == old(
                wrappers,
            )@[j].process && final(wrappers)@[j].available_size == old(
                wrappers,
            )@[j].available_size,
        burst_counts(final(wrappers)@) == burst_counts(old(wrappers)@),
        (forall|j: int|
            0 <= j < old(wrappers)@.len() ==> (#[trigger] old(wrappers)@[j]).used_space <= old(
                wrappers,
            )@[j].available_size) ==> (final(wrappers)@ == old(wrappers)@ && final(memory)@
            == old(memory)@),
{
    let n = wrappers.len();
    let mut i: usize = 0;
    while i < n
        invariant
            n == ps.len(),
            wrappers@.len() == n,
            ans.len() == n,
            i <= n,
            m >= 1,
            memory.wf(),
            processes_ok(ps),
            traces_fit(ps),
            forall|j: int|
                0 <= j < ps.len() ==> (#[trigger] ps[j]).pages().len() * m <= usize::MAX as int,
            forall|j: int| 0 <= j < n ==> wrapper_ok(&(#[trigger] wrappers@[j])),
            forall|j: int| 0 <= j < n ==> wrapper_in_pool(&(#[trigger] wrappers@[j]), &memory),
            forall|j: int|
                0 <= j < n ==> (#[trigger] wrappers@[j]).process == old(wrappers)@[j].process
                    && wrappers@[j].available_size == old(wrappers)@[j].available_size,
            forall|j: int|
                0 <= j < n ==> (#[trigger] wrappers@[j]).process.pages() == ps[j].pages(),
            forall|j: int|
                0 <= j < n ==> (#[trigger] wrappers@[j]).process.bursts().len()
                    <= ps[j].bursts().len(),
            forall|j: int|
                0 <= j < n && (#[trigger] wrappers@[j]).process.bursts().len() == 0
                    ==> wrappers@[j].used_space == 0,
            forall|j: int| 0 <= j < i ==> (#[trigger] wrappers@[j]).used_space
                <= wrappers@[j].available_size,
            sum_usize(avails(wrappers@)) <= m,
            memory@.len() == sum_usize(useds(wrappers@)),
            forall|j: int|
                0 <= j < n ==> ans[j] + trace_accesses(
                    (#[trigger] wrappers@[j]).process.bursts(),
                ) <= trace_accesses(ps[j].bursts()),
            burst_counts(wrappers@) == burst_counts(old(wrappers)@),
            (forall|j: int|
                0 <= j < n ==> (#[trigger] old(wrappers)@[j]).used_space <= old(
                    wrappers,
                )@[j].available_size) ==> wrappers@ == old(wrappers)@ && memory@ == old(memory)@,
        decreases n - i,
    {
        let ghost pre = wrappers@;
        let ghost mempre = *memory;
        {
            let w = &mut wrappers[i];
            w.trim(memory);
        }
        proof {
            assert(useds(wrappers@) =~= useds(pre).update(
                i as int,
                wrappers@[i as int].used_space,
            ));
            assert(avails(wrappers@) =~= avails(pre));
            lemma_sum_update(useds(pre), i as int, wrappers@[i as int].used_space);
            assert(wrappers@[i as int].process == pre[i as int].process);
            lemma_burst_counts_update(pre, i as int, wrappers@[i as int]);
            assert forall|j2: int|
                0 <= j2 < n && j2 != i implies wrapper_in_pool(
                &(#[trigger] wrappers@[j2]),
                &memory,
            ) by {
                preserve_other_wrapper(pre, wrappers@, ps, i as int, j2, *memory, mempre);
            }
        }
        i += 1;
    }
    proof {
        assert forall|j: int| 0 <= j < ps.len() && (#[trigger] ps[j]).bursts().len()
            == 0 implies ans[j] == 0 by {}
        assert(prop_inv(wrappers@, memory, ans, ps, m));
    }
}

} // verus!

verus! {

impl super::VirtualMemory for Proportional {
    open spec fn emulate_pre(&self, ps: Seq<Process>) -> bool {
        &&& self.mem() >= 1
        &&& processes_ok(ps)
        &&& traces_fit(ps)
        &&& forall|j: int|
            0 <= j < ps.len() ==> (#[trigger] ps[j]).pages().len() * self.mem()
                <= usize::MAX as int
        &&& pages_from(ps, 0) <= usize::MAX as int
    }

    fn emulate(&self, processes: Vec<Process>) -> (r: Result<Vec<usize>, EmulationError>) {
        Proportional::emulate(self, processes)
    }
}

} // verus!
