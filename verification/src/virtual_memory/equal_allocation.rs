//! The equal-split policy. The pool is divided evenly over
//! `min(memory_size, process count)` slots, with the leftover frames going
//! to the lowest-numbered slots. Each slot runs one process to
//! completion; a finished slot is refilled with the next unstarted
//! process, which inherits the vacated quota unchanged, or removed, upon
//! which the remaining slots' quotas are recomputed and any slot left
//! above its new quota sheds its least-recently-used pages.

use vstd::prelude::*;

use crate::arith::{
    equal_share, lemma_div_ge_one, lemma_sum_parts_prefix_le, lemma_sum_update,
    lemma_sum_zero, sum_parts, sum_usize,
};
use crate::page_set::PageSet;
use crate::process::{trace_accesses, Process};

use super::{
    avails, burst_counts, in_slots, lemma_burst_counts_update, pages_disjoint, processes_ok, traces_fit, useds,
    wrap_all, wrapper_in_pool, wrapper_ok, zero_counts, EmulationStepResult, ProcessWrapper,
};

verus! {

/// How many slots the policy opens: one per process, but never more than
/// the pool holds.
pub open spec fn initial_slots(n: int, m: usize) -> int {
    if n < m as int {
        n
    } else {
        m as int
    }
}

/// The running shape of the disjoint-pages argument for equal split,
/// carried only when every process's distinct-page count fits within the
/// smallest share any slot can ever receive, and every recorded page is
/// actually referenced: every slot's quota stays at or above the initial
/// equal share, each live process's pages are each resident or still
/// ahead in its trace, and its fault count so far equals its holding —
/// its page count exactly, once its trace is out.
pub(crate) open spec fn eq_p4(
    ws: Seq<ProcessWrapper>,
    slots: Seq<usize>,
    ans: Seq<usize>,
    ps: Seq<Process>,
    m: usize,
    e0: int,
) -> bool {
    &&& forall|s: int|
        0 <= s < slots.len() ==> (#[trigger] ws[slots[s] as int].available_size) as int
            >= m as int / e0
    &&& forall|j: int|
        0 <= j < ws.len() && (#[trigger] ws[j]).process.bursts().len() > 0 ==> (forall|p: usize|
            ws[j].process.pages().contains(p) ==> ws[j].lru.has_val(p)
                || crate::process::trace_has_page(ws[j].process.bursts(), p))
    &&& forall|j: int|
        0 <= j < ws.len() ==> (#[trigger] ans[j]) as int == (if ws[j].process.bursts().len()
            == 0 {
            ps[j].pages().len() as int
        } else {
            ws[j].used_space as int
        })
}

} // verus!

verus! {

/// The running state every outer iteration of the equal-split engine
/// preserves: sound wrappers agreeing with the pool, slots holding
/// distinct live process indexes with positive quotas, idle processes
/// holding nothing, total quota within the pool size, the pool exactly as
/// large as the frames held — hence never larger than `m` — and fault
/// counts bounded by the accesses consumed.
pub(crate) open spec fn eq_inv(
    ws: Seq<ProcessWrapper>,
    slots: Seq<usize>,
    mem: &PageSet,
    ans: Seq<usize>,
    ps: Seq<Process>,
    m: usize,
) -> bool {
    &&& ws.len() == ps.len()
    &&& ans.len() == ps.len()
    &&& m >= 1
    &&& mem.wf()
    &&& processes_ok(ps)
    &&& traces_fit(ps)
    &&& forall|j: int| 0 <= j < ws.len() ==> wrapper_ok(&(#[trigger] ws[j]))
    &&& forall|j: int| 0 <= j < ws.len() ==> wrapper_in_pool(&(#[trigger] ws[j]), mem)
    &&& forall|j: int| 0 <= j < ws.len() ==> (#[trigger] ws[j]).process.pages() == ps[j].pages()
    &&& forall|j: int|
        0 <= j < ws.len() ==> (#[trigger] ws[j]).process.bursts().len() <= ps[j].bursts().len()
    &&& forall|j: int|
        0 <= j < ws.len() ==> (#[trigger] ws[j]).used_space <= ws[j].available_size
    &&& forall|j: int|
        0 <= j < ws.len() && (#[trigger] ws[j]).process.bursts().len() == 0 ==> ws[j].used_space
            == 0
    &&& sum_usize(avails(ws)) <= m
    &&& mem@.len() == sum_usize(useds(ws))
    &&& slots.len() <= m
    &&& forall|s: int|
        0 <= s < slots.len() ==> (#[trigger] slots[s]) < ws.len() && ws[slots[s] as int].available_size
            >= 1
    &&& forall|s1: int, s2: int| 0 <= s1 < s2 < slots.len() ==> slots[s1] != slots[s2]
    &&& forall|j: usize|
        j < ws.len() && !in_slots(slots, j) ==> (#[trigger] ws[j as int]).available_size == 0
            && ws[j as int].used_space == 0
    &&& forall|j: int|
        0 <= j < ws.len() ==> ans[j] + trace_accesses((#[trigger] ws[j]).process.bursts())
            <= trace_accesses(ps[j].bursts())
    &&& forall|j: int| 0 <= j < ps.len() && (#[trigger] ps[j]).bursts().len() == 0 ==> ans[j] == 0
}

/// Splits the pool evenly over as many slots as it can hold and runs
/// every process to completion through those slots.
pub struct EqualAllocation {
    memory_size: usize,
}

impl EqualAllocation {
    /// The pool size this policy divides.
    pub closed spec fn mem(&self) -> usize {
        self.memory_size
    }

    /// No allocation is possible without at least one frame.
    pub fn new(memory_size: usize) -> (r: Self)
        requires
            memory_size >= 1,
        ensures
            r.mem() == memory_size,
    {
        EqualAllocation { memory_size }
    }

    /// The share of slot `n` when `count` frames are split evenly over
    /// `elements` slots: the quotient, plus one of the leftover frames
    /// for the first `count % elements` slots.
    pub fn div_into_nth(count: usize, elements: usize, n: usize) -> (r: usize)
        requires
            elements > 0,
        ensures
            r as int == equal_share(count, elements, n as int),
    {
        let d = count / elements;
        let rem = count % elements;
        if n < rem {
            proof {
                assert(d * elements + rem == count && d >= 0) by (nonlinear_arith)
                    requires
                        elements > 0,
                        d == count as int / elements as int,
                        rem == count as int % elements as int,
                ;
                assert(d <= count - 1) by (nonlinear_arith)
                    requires
                        d * elements + rem == count,
                        rem >= 1,
                        elements >= 1,
                        d >= 0,
                ;
            }
            d + 1
        } else {
            d
        }
    }

    /// Runs every process to completion and returns one fault count per
    /// process. The pool never outgrows the policy's size: that bound is
    /// an invariant of the loop below, re-established after every burst.
    #[verifier::rlimit(100)]
    pub fn emulate(&self, processes: Vec<Process>) -> (r: Vec<usize>)
        requires
            self.mem() >= 1,
            processes_ok(processes@),
            traces_fit(processes@),
        ensures
            r@.len() == processes@.len(),
            forall|i: int|
                0 <= i < processes@.len() && (#[trigger] processes@[i]).bursts().len() == 0
                    ==> r@[i] == 0,
            forall|i: int|
                0 <= i < processes@.len() ==> (#[trigger] r@[i]) as int <= trace_accesses(
                    processes@[i].bursts(),
                ),
            ((forall|j: int, p: usize|
                0 <= j < processes@.len() && #[trigger] processes@[j].pages().contains(p)
                    ==> crate::process::trace_has_page(processes@[j].bursts(), p)) && (forall|
                j: int,
            |
                0 <= j < processes@.len() ==> (#[trigger] processes@[j]).pages().len() as int
                    <= self.mem() as int / initial_slots(
                    processes@.len() as int,
                    self.mem(),
                ))) ==> (forall|i: int|
                0 <= i < processes@.len() ==> (#[trigger] r@[i]) as int
                    == processes@[i].pages().len() as int),
    {
        let ghost ps = processes@;
        let ghost ge = (forall|j: int, p: usize|
            0 <= j < processes@.len() && #[trigger] processes@[j].pages().contains(p)
                ==> crate::process::trace_has_page(processes@[j].bursts(), p)) && (forall|j: int|
            0 <= j < processes@.len() ==> (#[trigger] processes@[j]).pages().len() as int
                <= self.mem() as int / initial_slots(processes@.len() as int, self.mem()));
        let n = processes.len();
        let m = self.memory_size;
        let mut ans = zero_counts(n);
        let mut wrappers = wrap_all(processes);
        let mut memory = PageSet::new();
        if n == 0 {
            return ans;
        }
        proof {
            lemma_sum_zero(useds(wrappers@));
            lemma_sum_zero(avails(wrappers@));
        }
        let e0: usize = if n < m {
            n
        } else {
            m
        };
        let mut slots: Vec<usize> = Vec::new();
        let mut s: usize = 0;
        while s < e0
            invariant
                1 <= e0 <= m,
                e0 <= n,
                n == ps.len(),
                wrappers@.len() == n,
                s <= e0,
                slots@.len() == s,
                forall|k: int| 0 <= k < s ==> slots@[k] == k,
                forall|j: int| 0 <= j < n ==> wrapper_ok(&(#[trigger] wrappers@[j])),
                forall|j: int| 0 <= j < n ==> (#[trigger] wrappers@[j]).process == ps[j],
                forall|j: int|
                    0 <= j < n ==> (#[trigger] wrappers@[j]).used_space == 0
                        && wrappers@[j].lru@.len() == 0,
                forall|j: int|
                    0 <= j < s ==> (#[trigger] wrappers@[j]).available_size as int == equal_share(
                        m,
                        e0,
                        j,
                    ),
                forall|j: int| s <= j < n ==> (#[trigger] wrappers@[j]).available_size == 0,
                sum_usize(avails(wrappers@)) == sum_parts(m, e0, s as int),
            decreases e0 - s,
        {
            let q = Self::div_into_nth(m, e0, s);
            slots.push(s);
            let ghost pre = wrappers@;
            let w = &mut wrappers[s];
            w.available_size = q;
            proof {
                assert(avails(wrappers@) =~= avails(pre).update(s as int, q));
                lemma_sum_update(avails(pre), s as int, q);
            }
            s += 1;
        }
        proof {
            lemma_sum_parts_prefix_le(m, e0, e0 as int);
            lemma_div_ge_one(m as int, e0 as int);
            lemma_sum_zero(useds(wrappers@));
            assert forall|s2: int| 0 <= s2 < slots@.len() implies (#[trigger] slots@[s2]) < n
                && wrappers@[slots@[s2] as int].available_size >= 1 by {
                crate::arith::lemma_equal_share_bounds(m, e0, s2);
            }
            assert forall|j: usize|
                j < n && !in_slots(slots@, j) implies wrappers@[j as int].available_size == 0
                && wrappers@[j as int].used_space == 0 by {
                if j < e0 {
                    assert(slots@[j as int] == j);
                }
            }
            assert(eq_inv(wrappers@, slots@, &memory, ans@, ps, m));
            if ge {
                assert(eq_p4(wrappers@, slots@, ans@, ps, m, e0 as int)) by {
                    assert(initial_slots(n as int, m) == e0 as int);
                    assert forall|s2: int|
                        0 <= s2 < slots@.len() implies (
                    #[trigger] wrappers@[slots@[s2] as int].available_size) as int >= m as int
                        / e0 as int by {
                        crate::arith::lemma_equal_share_bounds(m, e0, s2);
                    }
                    assert forall|j: int|
                        0 <= j < n && (#[trigger] ps[j]).bursts().len() == 0 implies ps[j].pages().len()
                        == 0 by {
                        if ps[j].pages().len() > 0 {
                            assert(ps[j].pages().contains(ps[j].pages()[0]));
                            crate::process::lemma_trace_has_page_step(
                                ps[j].bursts(),
                                ps[j].pages()[0],
                            );
                        }
                    }
                }
            }
        }
        let mut fresh_next: usize = e0;
        let mut cursor: usize = 0;
        while slots.len() > 0
            invariant
                ps == processes@,
                m == self.memory_size,
                n == ps.len(),
                1 <= e0 <= m,
                e0 <= n,
                wrappers@.len() == n,
                eq_inv(wrappers@, slots@, &memory, ans@, ps, m),
                cursor < slots@.len() || slots@.len() == 0,
                fresh_next <= n,
                slots@.len() <= e0,
                forall|j: usize| fresh_next <= j < n ==> !in_slots(slots@, j),
                forall|s: int| 0 <= s < slots@.len() ==> (#[trigger] slots@[s]) < fresh_next,
                forall|j: usize|
                    j < fresh_next && !in_slots(slots@, j) ==> wrappers@[j as int].process.bursts().len()
                        == 0,
                slots@.len() == 0 ==> fresh_next == n,
                ge == ((forall|j: int, p: usize|
                    0 <= j < processes@.len() && #[trigger] processes@[j].pages().contains(p)
                        ==> crate::process::trace_has_page(processes@[j].bursts(), p)) && (forall|
                    j: int,
                |
                    0 <= j < processes@.len() ==> (#[trigger] processes@[j]).pages().len() as int
                        <= self.mem() as int / initial_slots(
                        processes@.len() as int,
                        self.mem(),
                    ))),
                initial_slots(n as int, m) == e0 as int,
                ge ==> eq_p4(wrappers@, slots@, ans@, ps, m, e0 as int),
            decreases burst_counts(wrappers@), n - fresh_next, slots@.len(),
        {
            proof {
                super::lemma_burst_counts_nonneg(wrappers@);
            }
            let s_idx = slots[cursor];
            let is_done = {
                let wref = &wrappers[s_idx];
                wref.process.is_empty()
            };
            if is_done {
                if fresh_next < n {
                    // Refill the slot: the next process inherits the quota.
                    let ghost pre = wrappers@;
                    let q = {
                        let wref = &wrappers[s_idx];
                        wref.available_size
                    };
                    {
                        let w = &mut wrappers[s_idx];
                        w.available_size = 0;
                    }
                    let ghost mid = wrappers@;
                    {
                        let w2 = &mut wrappers[fresh_next];
                        w2.available_size = q;
                    }
                    proof {
                        assert(!in_slots(slots@, fresh_next));
                        assert(s_idx != fresh_next);
                        assert(avails(mid) =~= avails(pre).update(s_idx as int, 0usize));
                        assert(avails(wrappers@) =~= avails(mid).update(fresh_next as int, q));
                        lemma_sum_update(avails(pre), s_idx as int, 0usize);
                        lemma_sum_update(avails(mid), fresh_next as int, q);
                        assert(useds(wrappers@) =~= useds(pre));
                        assert(mid[s_idx as int].process == pre[s_idx as int].process);
                        assert(wrappers@[fresh_next as int].process == mid[fresh_next as int].process);
                        lemma_burst_counts_update(
                            pre,
                            s_idx as int,
                            mid[s_idx as int],
                        );
                        lemma_burst_counts_update(
                            mid,
                            fresh_next as int,
                            wrappers@[fresh_next as int],
                        );
                        assert(burst_counts(wrappers@) == burst_counts(pre));
                    }
                    let ghost slots_pre = slots@;
                    slots.set(cursor, fresh_next);
                    fresh_next += 1;
                    proof {
                        assert forall|j: usize|
                            j < n && !in_slots(slots@, j) implies wrappers@[j as int].available_size
                            == 0 && wrappers@[j as int].used_space == 0 by {
                            assert(slots@[cursor as int] == (fresh_next - 1) as usize);
                            assert(j != (fresh_next - 1) as usize);
                            if j == s_idx {
                                assert(pre[s_idx as int].process.bursts().len() == 0);
                                assert(pre[s_idx as int].used_space == 0);
                                assert(wrappers@[j as int] == mid[j as int]);
                                assert(wrappers@[j as int].available_size == 0);
                                assert(wrappers@[j as int].used_space == pre[s_idx as int].used_space);
                            } else {
                                assert(!in_slots(slots_pre, j)) by {
                                    if in_slots(slots_pre, j) {
                                        let s2 = choose|s2: int|
                                            0 <= s2 < slots_pre.len() && slots_pre[s2] == j;
                                        assert(s2 != cursor);
                                        assert(slots@[s2] == j);
                                    }
                                }
                                assert(wrappers@[j as int] == pre[j as int]);
                            }
                        }
                        assert forall|s2: int|
                            0 <= s2 < slots@.len() implies (#[trigger] slots@[s2]) < n
                            && wrappers@[slots@[s2] as int].available_size >= 1 by {
                            if s2 == cursor {
                                assert(wrappers@[fresh_next - 1].available_size == q);
                                assert(pre[s_idx as int].available_size == q);
                                assert(slots_pre[cursor as int] == s_idx);
                            } else {
                                assert(slots@[s2] == slots_pre[s2]);
                                assert(slots_pre[s2] != s_idx || s2 == cursor);
                            }
                        }
                        assert forall|s1: int, s2: int|
                            0 <= s1 < s2 < slots@.len() implies slots@[s1] != slots@[s2] by {
                            if s1 == cursor {
                                assert(slots@[s2] == slots_pre[s2]);
                                assert(!in_slots(slots_pre, (fresh_next - 1) as usize));
                            } else if s2 == cursor {
                                assert(slots@[s1] == slots_pre[s1]);
                                assert(!in_slots(slots_pre, (fresh_next - 1) as usize));
                            }
                        }
                        assert(eq_inv(wrappers@, slots@, &memory, ans@, ps, m));
                        assert forall|j: usize|
                            fresh_next <= j < n implies !in_slots(slots@, j) by {
                            if in_slots(slots@, j) {
                                let s2 = choose|s2: int|
                                    0 <= s2 < slots@.len() && slots@[s2] == j;
                                assert(s2 != cursor);
                                assert(slots_pre[s2] == j);
                            }
                        }
                        assert forall|j: usize|
                            j < fresh_next && !in_slots(slots@, j) implies wrappers@[j as int].process.bursts().len()
                            == 0 by {
                            if j == s_idx {
                                assert(pre[s_idx as int].process.bursts().len() == 0);
                            } else {
                                assert(j != (fresh_next - 1) as usize) by {
                                    assert(slots@[cursor as int] == (fresh_next - 1) as usize);
                                }
                                assert(!in_slots(slots_pre, j)) by {
                                    if in_slots(slots_pre, j) {
                                        let s2 = choose|s2: int|
                                            0 <= s2 < slots_pre.len() && slots_pre[s2] == j;
                                        assert(s2 != cursor);
                                        assert(slots@[s2] == j);
                                    }
                                }
                                assert(wrappers@[j as int] == pre[j as int]);
                            }
                        }
                        if ge {
                            assert(eq_p4(wrappers@, slots@, ans@, ps, m, e0 as int)) by {
                                assert forall|s2: int|
                                    0 <= s2 < slots@.len() implies (
                                #[trigger] wrappers@[slots@[s2] as int].available_size) as int
                                    >= m as int / e0 as int by {
                                    if s2 == cursor {
                                        assert(slots@[s2] == (fresh_next - 1) as usize);
                                        assert(wrappers@[fresh_next - 1].available_size == q);
                                        assert(slots_pre[cursor as int] == s_idx);
                                        assert(pre[s_idx as int].available_size == q);
                                    } else {
                                        assert(slots@[s2] == slots_pre[s2]);
                                        assert(slots_pre[s2] != s_idx);
                                        assert(slots_pre[s2] < (fresh_next - 1) as usize);
                                        assert(wrappers@[slots_pre[s2] as int]
                                            == pre[slots_pre[s2] as int]);
                                    }
                                }
                                assert forall|j: int|
                                    0 <= j < n implies (#[trigger] wrappers@[j]).process
                                    == pre[j].process && wrappers@[j].lru == pre[j].lru
                                    && wrappers@[j].used_space == pre[j].used_space by {}
                            }
                        }
                    }
                } else {
                    // Remove the slot and split the pool over the rest.
                    let ghost pre = wrappers@;
                    let ghost bc0 = burst_counts(pre);
                    {
                        let w = &mut wrappers[s_idx];
                        w.available_size = 0;
                    }
                    proof {
                        assert(avails(wrappers@) =~= avails(pre).update(s_idx as int, 0usize));
                        assert(useds(wrappers@) =~= useds(pre));
                        lemma_sum_update(avails(pre), s_idx as int, 0usize);
                        assert(wrappers@[s_idx as int].process == pre[s_idx as int].process);
                        lemma_burst_counts_update(pre, s_idx as int, wrappers@[s_idx as int]);
                        assert(burst_counts(wrappers@) == bc0);
                    }
                    let ghost wrem = wrappers@;
                    let ghost slots_pre = slots@;
                    slots.swap_remove(cursor);
                    proof {
                        assert forall|s2: int|
                            0 <= s2 < slots@.len() implies (#[trigger] slots@[s2]) < n
                            && wrappers@[slots@[s2] as int].available_size >= 1 by {
                            if s2 == cursor {
                                assert(slots@[s2] == slots_pre[slots_pre.len() - 1]);
                                assert(slots_pre[slots_pre.len() - 1] != s_idx || cursor
                                    == slots_pre.len() - 1);
                            } else {
                                assert(slots@[s2] == slots_pre[s2]);
                                assert(slots_pre[s2] != s_idx);
                            }
                        }
                        assert forall|s1: int, s2: int|
                            0 <= s1 < s2 < slots@.len() implies slots@[s1] != slots@[s2] by {
                            let a1: int = if s1 == cursor {
                                slots_pre.len() - 1
                            } else {
                                s1
                            };
                            let a2: int = if s2 == cursor {
                                slots_pre.len() - 1
                            } else {
                                s2
                            };
                            assert(slots@[s1] == slots_pre[a1] && slots@[s2] == slots_pre[a2]);
                        }
                        assert forall|j: usize|
                            j < n && !in_slots(slots@, j) implies wrappers@[j as int].available_size
                            == 0 && wrappers@[j as int].used_space == 0 by {
                            if j != s_idx && in_slots(slots_pre, j) {
                                let s2 = choose|s2: int|
                                    0 <= s2 < slots_pre.len() && slots_pre[s2] == j;
                                if s2 == slots_pre.len() - 1 {
                                    assert(cursor < slots_pre.len() - 1 || cursor == s2);
                                    assert(slots@[cursor as int] == j || j == s_idx);
                                } else {
                                    assert(s2 != cursor);
                                    assert(slots@[s2] == j);
                                }
                            }
                        }
                    }
                    let e = slots.len();
                    if e > 0 {
                        // Clear every remaining quota, then deal the shares.
                        let mut si: usize = 0;
                        while si < e
                            invariant
                                e == slots@.len(),
                                si <= e,
                                n == ps.len(),
                                wrappers@.len() == n,
                                memory.wf(),
                                processes_ok(ps),
                                traces_fit(ps),
                                m >= 1,
                                e <= m,
                                ans@.len() == n,
                                forall|s2: int|
                                    0 <= s2 < e ==> (#[trigger] slots@[s2]) < n,
                                forall|s1: int, s2: int|
                                    0 <= s1 < s2 < e ==> slots@[s1] != slots@[s2],
                                forall|j: int|
                                    0 <= j < n ==> wrapper_ok(&(#[trigger] wrappers@[j])),
                                forall|j: int|
                                    0 <= j < n ==> wrapper_in_pool(
                                        &(#[trigger] wrappers@[j]),
                                        &memory,
                                    ),
                                forall|j: int|
                                    0 <= j < n ==> (#[trigger] wrappers@[j]).process.pages()
                                        == ps[j].pages(),
                                forall|j: int|
                                    0 <= j < n ==> (#[trigger] wrappers@[j]).process.bursts().len()
                                        <= ps[j].bursts().len(),
                                forall|j: int|
                                    0 <= j < n && (#[trigger] wrappers@[j]).process.bursts().len()
                                        == 0 ==> wrappers@[j].used_space == 0,
                                memory@.len() == sum_usize(useds(wrappers@)),
                                forall|j: int|
                                    0 <= j < n ==> ans@[j] + trace_accesses(
                                        (#[trigger] wrappers@[j]).process.bursts(),
                                    ) <= trace_accesses(ps[j].bursts()),
                                forall|j: int|
                                    0 <= j < ps.len() && (#[trigger] ps[j]).bursts().len() == 0
                                        ==> ans@[j] == 0,
                                forall|s2: int|
                                    0 <= s2 < si ==> wrappers@[slots@[s2] as int].available_size
                                        == 0,
                                forall|j: usize|
                                    j < n && !in_slots(slots@, j) ==> wrappers@[j as int].available_size
                                        == 0 && wrappers@[j as int].used_space == 0,
                                forall|j: int|
                                    0 <= j < n ==> (#[trigger] wrappers@[j]).process
                                        == wrem[j].process && wrappers@[j].lru == wrem[j].lru
                                        && wrappers@[j].used_space == wrem[j].used_space,
                                burst_counts(wrappers@) == bc0,
                            decreases e - si,
                        {
                            let j = slots[si];
                            let ghost pre2 = wrappers@;
                            {
                                let w = &mut wrappers[j];
                                w.available_size = 0;
                            }
                            proof {
                                assert(useds(wrappers@) =~= useds(pre2));
                                assert(wrappers@[j as int].process == pre2[j as int].process);
                                lemma_burst_counts_update(
                                    pre2,
                                    j as int,
                                    wrappers@[j as int],
                                );
                            }
                            si += 1;
                        }
                        proof {
                            assert forall|j: int|
                                0 <= j < n implies (#[trigger] wrappers@[j]).available_size
                                == 0 by {
                                if in_slots(slots@, j as usize) {
                                    let s2 = choose|s2: int|
                                        0 <= s2 < slots@.len() && slots@[s2] == j as usize;
                                }
                            }
                            lemma_sum_zero(avails(wrappers@));
                        }
                        let mut si2: usize = 0;
                        while si2 < e
                            invariant
                                e == slots@.len(),
                                si2 <= e,
                                n == ps.len(),
                                wrappers@.len() == n,
                                memory.wf(),
                                processes_ok(ps),
                                traces_fit(ps),
                                m >= 1,
                                1 <= e <= m,
                                ans@.len() == n,
                                forall|s2: int|
                                    0 <= s2 < e ==> (#[trigger] slots@[s2]) < n,
                                forall|s1: int, s2: int|
                                    0 <= s1 < s2 < e ==> slots@[s1] != slots@[s2],
                                forall|j: int|
                                    0 <= j < n ==> wrapper_ok(&(#[trigger] wrappers@[j])),
                                forall|j: int|
                                    0 <= j < n ==> wrapper_in_pool(
                                        &(#[trigger] wrappers@[j]),
                                        &memory,
                                    ),
                                forall|j: int|
                                    0 <= j < n ==> (#[trigger] wrappers@[j]).process.pages()
                                        == ps[j].pages(),
                                forall|j: int|
                                    0 <= j < n ==> (#[trigger] wrappers@[j]).process.bursts().len()
                                        <= ps[j].bursts().len(),
                                forall|j: int|
                                    0 <= j < n && (#[trigger] wrappers@[j]).process.bursts().len()
                                        == 0 ==> wrappers@[j].used_space == 0,
                                memory@.len() == sum_usize(useds(wrappers@)),
                                forall|j: int|
                                    0 <= j < n ==> ans@[j] + trace_accesses(
                                        (#[trigger] wrappers@[j]).process.bursts(),
                                    ) <= trace_accesses(ps[j].bursts()),
                                forall|j: int|
                                    0 <= j < ps.len() && (#[trigger] ps[j]).bursts().len() == 0
                                        ==> ans@[j] == 0,
                                forall|s2: int|
                                    0 <= s2 < si2 ==> wrappers@[slots@[s2] as int].available_size as int
                                        == equal_share(m, e, s2),
                                forall|s2: int|
                                    si2 <= s2 < e ==> wrappers@[slots@[s2] as int].available_size
                                        == 0,
                                forall|j: usize|
                                    j < n && !in_slots(slots@, j) ==> wrappers@[j as int].available_size
                                        == 0 && wrappers@[j as int].used_space == 0,
                                forall|j: int|
                                    0 <= j < n ==> (#[trigger] wrappers@[j]).process
                                        == wrem[j].process && wrappers@[j].lru == wrem[j].lru
                                        && wrappers@[j].used_space == wrem[j].used_space,
                                sum_usize(avails(wrappers@)) == sum_parts(m, e, si2 as int),
                                burst_counts(wrappers@) == bc0,
                            decreases e - si2,
                        {
                            let q = Self::div_into_nth(m, e, si2);
                            let j = slots[si2];
                            let ghost pre2 = wrappers@;
                            {
                                let w = &mut wrappers[j];
                                w.available_size = q;
                            }
                            proof {
                                assert(useds(wrappers@) =~= useds(pre2));
                                assert(avails(wrappers@) =~= avails(pre2).update(j as int, q));
                                lemma_sum_update(avails(pre2), j as int, q);
                                assert(wrappers@[j as int].process == pre2[j as int].process);
                                lemma_burst_counts_update(
                                    pre2,
                                    j as int,
                                    wrappers@[j as int],
                                );
                                assert forall|s2: int|
                                    0 <= s2 < si2 + 1 implies wrappers@[slots@[s2] as int].available_size as int
                                    == equal_share(m, e, s2) by {
                                    if s2 < si2 {
                                        assert(slots@[s2] != slots@[si2 as int]);
                                    }
                                }
                            }
                            si2 += 1;
                        }
                        proof {
                            lemma_sum_parts_prefix_le(m, e, e as int);
                            lemma_div_ge_one(m as int, e as int);
                            assert forall|s2: int| 0 <= s2 < e implies (#[trigger] slots@[s2]) < n
                                && wrappers@[slots@[s2] as int].available_size >= 1 by {
                                crate::arith::lemma_equal_share_bounds(m, e, s2);
                            }
                        }
                        let ghost wtr = wrappers@;
                        let ghost memtr = memory@;
                        proof {
                            if ge {
                                // Nobody stands above the fresh shares: each
                                // holding fits its page count, which fits the
                                // smallest share.
                                assert forall|j: int|
                                    0 <= j < n implies (#[trigger] wtr[j]).used_space as int
                                    <= ps[j].pages().len() as int by {
                                    let w = wtr[j];
                                    let avals = Seq::new(w.lru@.len(), |k: int| w.lru@[k].valv());
                                    assert forall|a: int, b: int|
                                        0 <= a < b < avals.len() implies avals[a] != avals[b] by {
                                        assert(w.lru@[a].valv() != w.lru@[b].valv());
                                    }
                                    assert forall|v: usize|
                                        avals.contains(v) implies ps[j].pages().contains(v) by {
                                        let k = choose|k: int|
                                            0 <= k < avals.len() && avals[k] == v;
                                        assert(w.lru@[k].valv() == v);
                                        assert(w.process.pages().contains(v));
                                    }
                                    crate::arith::lemma_distinct_subset_len(avals, ps[j].pages());
                                }
                                assert forall|s2: int|
                                    0 <= s2 < e implies (
                                #[trigger] wtr[slots@[s2] as int]).used_space
                                    <= wtr[slots@[s2] as int].available_size by {
                                    crate::arith::lemma_equal_share_bounds(m, e, s2);
                                    crate::arith::lemma_div_antitone(
                                        m as int,
                                        e as int,
                                        e0 as int,
                                    );
                                    assert(wtr[slots@[s2] as int].available_size as int
                                        >= m as int / e0 as int);
                                    assert(ps[slots@[s2] as int].pages().len() as int
                                        <= m as int / e0 as int);
                                }
                            }
                        }
                        // Shed pages from any slot now above its quota.
                        let mut si3: usize = 0;
                        while si3 < e
                            invariant
                                e == slots@.len(),
                                si3 <= e,
                                n == ps.len(),
                                wrappers@.len() == n,
                                memory.wf(),
                                processes_ok(ps),
                                traces_fit(ps),
                                m >= 1,
                                1 <= e <= m,
                                ans@.len() == n,
                                forall|s2: int|
                                    0 <= s2 < e ==> (#[trigger] slots@[s2]) < n
                                        && wrappers@[slots@[s2] as int].available_size >= 1,
                                forall|s1: int, s2: int|
                                    0 <= s1 < s2 < e ==> slots@[s1] != slots@[s2],
                                forall|j: int|
                                    0 <= j < n ==> wrapper_ok(&(#[trigger] wrappers@[j])),
                                forall|j: int|
                                    0 <= j < n ==> wrapper_in_pool(
                                        &(#[trigger] wrappers@[j]),
                                        &memory,
                                    ),
                                forall|j: int|
                                    0 <= j < n ==> (#[trigger] wrappers@[j]).process.pages()
                                        == ps[j].pages(),
                                forall|j: int|
                                    0 <= j < n ==> (#[trigger] wrappers@[j]).process.bursts().len()
                                        <= ps[j].bursts().len(),
                                forall|j: int|
                                    0 <= j < n && (#[trigger] wrappers@[j]).process.bursts().len()
                                        == 0 ==> wrappers@[j].used_space == 0,
                                memory@.len() == sum_usize(useds(wrappers@)),
                                sum_usize(avails(wrappers@)) <= m,
                                forall|j: int|
                                    0 <= j < n ==> ans@[j] + trace_accesses(
                                        (#[trigger] wrappers@[j]).process.bursts(),
                                    ) <= trace_accesses(ps[j].bursts()),
                                forall|j: int|
                                    0 <= j < ps.len() && (#[trigger] ps[j]).bursts().len() == 0
                                        ==> ans@[j] == 0,
                                forall|s2: int|
                                    0 <= s2 < si3 ==> wrappers@[slots@[s2] as int].used_space
                                        <= wrappers@[slots@[s2] as int].available_size,
                                forall|j: usize|
                                    j < n && !in_slots(slots@, j) ==> wrappers@[j as int].available_size
                                        == 0 && wrappers@[j as int].used_space == 0,
                                ge ==> (forall|s2: int|
                                    0 <= s2 < e ==> (#[trigger] wtr[slots@[s2] as int]).used_space
                                        <= wtr[slots@[s2] as int].available_size),
                                ge ==> wrappers@ == wtr && memory@ == memtr,
                                forall|j: int|
                                    0 <= j < n ==> (#[trigger] wrappers@[j]).process
                                        == wrem[j].process,
                                burst_counts(wrappers@) == bc0,
                            decreases e - si3,
                        {
                            let j = slots[si3];
                            let ghost pre2 = wrappers@;
                            let ghost mempre = memory;
                            {
                                let w = &mut wrappers[j];
                                w.trim(&mut memory);
                            }
                            proof {
                                assert(useds(wrappers@) =~= useds(pre2).update(
                                    j as int,
                                    wrappers@[j as int].used_space,
                                ));
                                assert(avails(wrappers@) =~= avails(pre2));
                                lemma_sum_update(
                                    useds(pre2),
                                    j as int,
                                    wrappers@[j as int].used_space,
                                );
                                assert(wrappers@[j as int].process == pre2[j as int].process);
                                lemma_burst_counts_update(
                                    pre2,
                                    j as int,
                                    wrappers@[j as int],
                                );
                                assert forall|j2: int|
                                    0 <= j2 < n && j2 != j implies wrapper_in_pool(
                                    &(#[trigger] wrappers@[j2]),
                                    &memory,
                                ) by {
                                    preserve_other_wrapper(
                                        pre2,
                                        wrappers@,
                                        ps,
                                        j as int,
                                        j2,
                                        memory,
                                        mempre,
                                    );
                                }
                                assert forall|s2: int|
                                    0 <= s2 < si3 + 1 implies wrappers@[slots@[s2] as int].used_space
                                    <= wrappers@[slots@[s2] as int].available_size by {
                                    if s2 < si3 {
                                        assert(slots@[s2] != slots@[si3 as int]);
                                    }
                                }
                            }
                            si3 += 1;
                        }
                        proof {
                            assert forall|j: int|
                                0 <= j < n implies (#[trigger] wrappers@[j]).used_space
                                <= wrappers@[j].available_size by {
                                if in_slots(slots@, j as usize) {
                                    let s2 = choose|s2: int|
                                        0 <= s2 < slots@.len() && slots@[s2] == j as usize;
                                }
                            }
                            assert(eq_inv(wrappers@, slots@, &memory, ans@, ps, m));
                            assert forall|j: usize|
                                j < fresh_next && !in_slots(slots@, j) implies wrappers@[j as int].process.bursts().len()
                                == 0 by {
                                if j == s_idx {
                                    assert(wrem[j as int].process.bursts().len() == 0);
                                    assert(wrappers@[j as int].process == wrem[j as int].process);
                                } else {
                                    assert(!in_slots(slots_pre, j)) by {
                                        if in_slots(slots_pre, j) {
                                            let s2 = choose|s2: int|
                                                0 <= s2 < slots_pre.len() && slots_pre[s2] == j;
                                            let a2: int = if s2 == slots_pre.len() - 1 {
                                                cursor as int
                                            } else {
                                                s2
                                            };
                                            if s2 != cursor {
                                                assert(slots@[a2] == j || in_slots(slots@, j));
                                            }
                                        }
                                    }
                                    assert(wrem[j as int].process.bursts().len() == 0) by {
                                        assert(pre[j as int].process.bursts().len() == 0);
                                        assert(wrem[j as int].process == pre[j as int].process);
                                    }
                                    assert(wrappers@[j as int].process == wrem[j as int].process);
                                }
                            }
                            if ge {
                                assert(eq_p4(wrappers@, slots@, ans@, ps, m, e0 as int)) by {
                                    assert(wrappers@ == wtr);
                                    assert forall|s2: int|
                                        0 <= s2 < slots@.len() implies (
                                    #[trigger] wrappers@[slots@[s2] as int].available_size) as int
                                        >= m as int / e0 as int by {
                                        crate::arith::lemma_equal_share_bounds(m, e, s2);
                                        crate::arith::lemma_div_antitone(
                                            m as int,
                                            e as int,
                                            e0 as int,
                                        );
                                    }
                                    assert forall|j: int|
                                        0 <= j < n implies (#[trigger] wrappers@[j]).process
                                        == wrem[j].process && wrappers@[j].lru == wrem[j].lru
                                        && wrappers@[j].used_space == wrem[j].used_space by {}
                                    assert forall|j: int|
                                        0 <= j < n implies (#[trigger] wrem[j]).process
                                        == pre[j].process && wrem[j].lru == pre[j].lru
                                        && wrem[j].used_space == pre[j].used_space by {}
                                }
                            }
                        }
                    } else {
                        proof {
                            assert(eq_inv(wrappers@, slots@, &memory, ans@, ps, m));
                            assert forall|j: usize|
                                j < fresh_next && !in_slots(slots@, j) implies wrappers@[j as int].process.bursts().len()
                                == 0 by {
                                if j == s_idx {
                                    assert(pre[j as int].process.bursts().len() == 0);
                                    assert(wrappers@[j as int].process == pre[j as int].process);
                                } else {
                                    assert(!in_slots(slots_pre, j)) by {
                                        if in_slots(slots_pre, j) {
                                            let s2 = choose|s2: int|
                                                0 <= s2 < slots_pre.len() && slots_pre[s2] == j;
                                        }
                                    }
                                    assert(wrappers@[j as int].process == pre[j as int].process);
                                }
                            }
                            if ge {
                                assert(eq_p4(wrappers@, slots@, ans@, ps, m, e0 as int)) by {
                                    assert(slots@.len() == 0);
                                    assert forall|j: int|
                                        0 <= j < n implies (#[trigger] wrappers@[j]).process
                                        == pre[j].process && wrappers@[j].lru == pre[j].lru
                                        && wrappers@[j].used_space == pre[j].used_space by {}
                                }
                            }
                        }
                    }
                    if cursor >= slots.len() {
                        cursor = 0;
                    }
                }
            } else {
                let ghost pre = wrappers@;
                let ghost mempre = memory;
                let step = {
                    let w = &mut wrappers[s_idx];
                    w.next(&mut memory)
                };
                proof {
                    assert(useds(wrappers@) =~= useds(pre).update(
                        s_idx as int,
                        wrappers@[s_idx as int].used_space,
                    ));
                    assert(avails(wrappers@) =~= avails(pre));
                    lemma_sum_update(useds(pre), s_idx as int, wrappers@[s_idx as int].used_space);
                    lemma_burst_counts_update(pre, s_idx as int, wrappers@[s_idx as int]);
                    assert(burst_counts(wrappers@) <= burst_counts(pre));
                    super::lemma_burst_counts_nonneg(wrappers@);
                    assert forall|j2: int|
                        0 <= j2 < n && j2 != s_idx implies wrapper_in_pool(
                        &(#[trigger] wrappers@[j2]),
                        &memory,
                    ) by {
                        preserve_other_wrapper(
                            pre,
                            wrappers@,
                            ps,
                            s_idx as int,
                            j2,
                            memory,
                            mempre,
                        );
                    }
                }
                match step {
                    EmulationStepResult::Done(f) => {
                        let cur = ans[s_idx];
                        proof {
                            assert(trace_accesses(pre[s_idx as int].process.bursts())
                                == pre[s_idx as int].process.bursts()[0].len() + trace_accesses(
                                wrappers@[s_idx as int].process.bursts(),
                            ));
                        }
                        ans.set(s_idx, cur + f);
                        let now_empty = {
                            let wref = &wrappers[s_idx];
                            wref.process.is_empty()
                        };
                        proof {
                            assert(eq_inv(wrappers@, slots@, &memory, ans@, ps, m));
                            if ge {
                                // The slot's quota covered the count, so the
                                // step evicted nothing and faulted once per
                                // new page.
                                assert(slots@[cursor as int] == s_idx);
                                assert(pre[s_idx as int].available_size as int >= m as int
                                    / e0 as int);
                                assert(ps[s_idx as int].pages().len() as int <= m as int
                                    / e0 as int);
                                assert(super::adequate_quota(&pre[s_idx as int]));
                                crate::process::lemma_trace_has_page_step(
                                    pre[s_idx as int].process.bursts(),
                                    0,
                                );
                                if wrappers@[s_idx as int].process.bursts().len() > 0 {
                                    assert(ans@[s_idx as int] as int
                                        == wrappers@[s_idx as int].used_space as int);
                                    assert forall|p: usize|
                                        wrappers@[s_idx as int].process.pages().contains(
                                            p,
                                        ) implies wrappers@[s_idx as int].lru.has_val(p)
                                        || crate::process::trace_has_page(
                                        wrappers@[s_idx as int].process.bursts(),
                                        p,
                                    ) by {
                                        assert(pre[s_idx as int].process.pages().contains(p));
                                        crate::process::lemma_trace_has_page_step(
                                            pre[s_idx as int].process.bursts(),
                                            p,
                                        );
                                    }
                                } else {
                                    assert(pre[s_idx as int].process.bursts().len() == 1);
                                    assert forall|p: usize|
                                        pre[s_idx as int].process.pages().contains(
                                            p,
                                        ) implies pre[s_idx as int].lru.has_val(p)
                                        || pre[s_idx as int].process.bursts()[0].contains(p) by {
                                        crate::process::lemma_trace_has_page_step(
                                            pre[s_idx as int].process.bursts(),
                                            p,
                                        );
                                        crate::process::lemma_trace_has_page_step(
                                            pre[s_idx as int].process.bursts().drop_first(),
                                            p,
                                        );
                                    }
                                    assert(f as int + pre[s_idx as int].used_space as int
                                        == pre[s_idx as int].process.page_count_spec() as int);
                                    assert(ans@[s_idx as int] as int
                                        == ps[s_idx as int].pages().len() as int);
                                }
                                assert forall|j: int|
                                    0 <= j < n && j != s_idx implies (#[trigger] wrappers@[j])
                                    == pre[j] by {}
                                assert(eq_p4(wrappers@, slots@, ans@, ps, m, e0 as int)) by {
                                    assert forall|s2: int|
                                        0 <= s2 < slots@.len() implies (
                                    #[trigger] wrappers@[slots@[s2] as int].available_size) as int
                                        >= m as int / e0 as int by {
                                        if slots@[s2] == s_idx {
                                            assert(wrappers@[s_idx as int].available_size
                                                == pre[s_idx as int].available_size);
                                        }
                                    }
                                }
                            }
                        }
                        if !now_empty {
                            cursor += 1;
                            if cursor >= slots.len() {
                                cursor = 0;
                            }
                        }
                    },
                    EmulationStepResult::NoMemoryAvailable => {
                        proof {
                            assert(false);
                        }
                    },
                    EmulationStepResult::NoMoreWork => {
                        proof {
                            assert(false);
                        }
                    },
                }
            }
        }
        proof {
            assert forall|i: int| 0 <= i < ps.len() implies (#[trigger] ans@[i]) as int
                <= trace_accesses(ps[i].bursts()) by {
                assert(ans@[i] + trace_accesses(wrappers@[i].process.bursts()) <= trace_accesses(
                    ps[i].bursts(),
                ));
            }
            if ge {
                assert forall|i: int| 0 <= i < ps.len() implies (#[trigger] ans@[i]) as int
                    == ps[i].pages().len() as int by {
                    assert(!in_slots(slots@, i as usize));
                    assert(i < fresh_next);
                    assert(wrappers@[i].process.bursts().len() == 0);
                }
            }
        }
        ans
    }
}

/// A step that only touched process `j`'s own pages leaves every other
/// wrapper in agreement with the pool.
pub(crate) proof fn preserve_other_wrapper(
    pre: Seq<ProcessWrapper>,
    now: Seq<ProcessWrapper>,
    ps: Seq<Process>,
    j: int,
    j2: int,
    mem_now: PageSet,
    mem_pre: PageSet,
)
    requires
        pre.len() == now.len() == ps.len(),
        0 <= j < pre.len(),
        0 <= j2 < pre.len(),
        j2 != j,
        now[j2] == pre[j2],
        processes_ok(ps),
        forall|k: int| 0 <= k < pre.len() ==> (#[trigger] pre[k]).process.pages() == ps[k].pages(),
        now[j].process.pages() == pre[j].process.pages(),
        wrapper_ok(&pre[j2]),
        wrapper_in_pool(&pre[j2], &mem_pre),
        forall|p: usize|
            !pre[j].process.pages().contains(p) ==> (mem_now.has(p) <==> mem_pre.has(p)),
    ensures
        wrapper_in_pool(&now[j2], &mem_now),
{
    assert(pages_disjoint(&ps[j2], &ps[j]));
    assert forall|k: int| 0 <= k < now[j2].lru@.len() implies mem_now.has(
        (#[trigger] now[j2].lru@[k]).valv(),
    ) by {
        let v = now[j2].lru@[k].valv();
        assert(pre[j2].process.pages().contains(v));
        assert(ps[j2].pages().contains(v));
        assert(!ps[j].pages().contains(v));
        assert(!pre[j].process.pages().contains(v));
        assert(mem_pre.has(v));
    }
    assert forall|p: usize|
        now[j2].process.pages().contains(p) && mem_now.has(p) implies now[j2].lru.has_val(p) by {
        assert(ps[j2].pages().contains(p));
        assert(!ps[j].pages().contains(p));
        assert(!pre[j].process.pages().contains(p));
        assert(mem_pre.has(p));
    }
}

} // verus!

verus! {

impl super::VirtualMemory for EqualAllocation {
    open spec fn emulate_pre(&self, ps: Seq<Process>) -> bool {
        &&& self.mem() >= 1
        &&& processes_ok(ps)
        &&& traces_fit(ps)
    }

    fn emulate(&self, processes: Vec<Process>) -> (r: Result<
        Vec<usize>,
        super::EmulationError,
    >) {
        Ok(EqualAllocation::emulate(self, processes))
    }
}

} // verus!
