//! The page-fault-frequency policy. Each process keeps a sliding window
//! of its last `period` accesses' fault bits; crossing the upper
//! threshold raises its desired space, falling below the lower one
//! shrinks it (never under one frame). A global counter of frames owed by
//! over-quota processes (`memory_to_take`) funds stealing: a faulting
//! process that wants more but finds the pool full reclaims the
//! least-recently-used page of any over-quota process. The counter always
//! equals the total overage, so once it reaches zero every process holds
//! no more than it desires.

use vstd::prelude::*;

use crate::arith::sum_usize;
use crate::lru::Lru;
use crate::page_set::PageSet;
use crate::process::{trace_accesses, Process};
use crate::reminder_sorter::ReminderSorter;

use super::{processes_ok, traces_fit, EmulationError};

verus! {

/// One process's allocation state under the feedback policies.
pub(crate) struct PffProc {
    pub(crate) process: Process,
    pub(crate) lru: Lru,
    pub(crate) page_faults_list: Vec<bool>,
    pub(crate) page_faults_count: usize,
    pub(crate) desired_space: usize,
    pub(crate) used_memory: usize,
}

impl PffProc {
    /// Removes and returns this process's least-recently-used page; the
    /// tracker must be known nonempty.
    pub(crate) fn pop_resident(&mut self) -> (v: usize)
        requires
            old(self).lru.wf(),
            old(self).lru@.len() > 0,
        ensures
            final(self).lru.wf(),
            v == old(self).lru@[0].valv(),
            final(self).lru@ == old(self).lru@.subrange(1, old(self).lru@.len() as int),
            final(self).process == old(self).process,
            final(self).page_faults_list == old(self).page_faults_list,
            final(self).page_faults_count == old(self).page_faults_count,
            final(self).desired_space == old(self).desired_space,
            final(self).used_memory == old(self).used_memory,
    {
        match self.lru.pop_lru() {
            Option::Some(v) => v,
            Option::None => {
                proof {
                    assert(false);
                }
                0
            },
        }
    }
}

/// How many frames process `j` holds beyond its desire.
pub open spec fn overage(used: usize, desired: usize) -> int {
    if used > desired {
        used - desired
    } else {
        0
    }
}

/// The total overage across all processes.
pub(crate) open spec fn overage_sum(ws: Seq<PffProc>) -> int
    decreases ws.len(),
{
    if ws.len() == 0 {
        0
    } else {
        overage(ws[0].used_memory, ws[0].desired_space) + overage_sum(ws.drop_first())
    }
}

pub(crate) proof fn lemma_overage_sum_update(ws: Seq<PffProc>, j: int, w2: PffProc)
    requires
        0 <= j < ws.len(),
    ensures
        overage_sum(ws.update(j, w2)) == overage_sum(ws) - overage(
            ws[j].used_memory,
            ws[j].desired_space,
        ) + overage(w2.used_memory, w2.desired_space),
    decreases ws.len(),
{
    if j == 0 {
        assert(ws.update(0, w2).drop_first() =~= ws.drop_first());
    } else {
        assert(ws.update(j, w2).drop_first() =~= ws.drop_first().update(j - 1, w2));
        lemma_overage_sum_update(ws.drop_first(), j - 1, w2);
    }
}

pub(crate) proof fn lemma_overage_sum_nonneg(ws: Seq<PffProc>)
    ensures
        overage_sum(ws) >= 0,
    decreases ws.len(),
{
    if ws.len() > 0 {
        lemma_overage_sum_nonneg(ws.drop_first());
    }
}

pub(crate) proof fn lemma_overage_sum_element(ws: Seq<PffProc>, j: int)
    requires
        0 <= j < ws.len(),
    ensures
        overage(ws[j].used_memory, ws[j].desired_space) <= overage_sum(ws),
    decreases ws.len(),
{
    if j == 0 {
        lemma_overage_sum_nonneg(ws.drop_first());
    } else {
        lemma_overage_sum_element(ws.drop_first(), j - 1);
        assert(overage(ws[0].used_memory, ws[0].desired_space) >= 0);
    }
}

/// The total overage of a list of `(held, desired)` frame pairs.
pub open spec fn overage_total(pairs: Seq<(usize, usize)>) -> int
    decreases pairs.len(),
{
    if pairs.len() == 0 {
        0
    } else {
        overage(pairs[0].0, pairs[0].1) + overage_total(pairs.drop_first())
    }
}

/// The fixed point of the owed-frame accounting: the engine keeps
/// `memory_to_take` equal to the total overage of the processes' held
/// and desired frame counts, so the moment the counter reaches zero — as
/// it does between bursts once every owed frame has been reclaimed — no
/// process holds more frames than it desires.
pub proof fn lemma_no_overage_at_fixed_point(pairs: Seq<(usize, usize)>)
    requires
        overage_total(pairs) == 0,
    ensures
        forall|j: int| 0 <= j < pairs.len() ==> (#[trigger] pairs[j]).0 <= pairs[j].1,
{
    assert forall|j: int| 0 <= j < pairs.len() implies (#[trigger] pairs[j]).0 <= pairs[j].1 by {
        lemma_overage_total_element(pairs, j);
    }
}

/// Each pair's overage is bounded by the total.
proof fn lemma_overage_total_element(pairs: Seq<(usize, usize)>, j: int)
    requires
        0 <= j < pairs.len(),
    ensures
        overage(pairs[j].0, pairs[j].1) <= overage_total(pairs),
    decreases pairs.len(),
{
    if j == 0 {
        lemma_overage_total_nonneg(pairs.drop_first());
    } else {
        lemma_overage_total_element(pairs.drop_first(), j - 1);
    }
}

proof fn lemma_overage_total_nonneg(pairs: Seq<(usize, usize)>)
    ensures
        overage_total(pairs) >= 0,
    decreases pairs.len(),
{
    if pairs.len() > 0 {
        lemma_overage_total_nonneg(pairs.drop_first());
    }
}

/// A positive total overage names an over-quota process.
pub(crate) proof fn lemma_overage_sum_witness(ws: Seq<PffProc>) -> (j: int)
    requires
        overage_sum(ws) > 0,
    ensures
        0 <= j < ws.len(),
        ws[j].used_memory > ws[j].desired_space,
    decreases ws.len(),
{
    if overage(ws[0].used_memory, ws[0].desired_space) > 0 {
        0
    } else {
        let j = lemma_overage_sum_witness(ws.drop_first());
        j + 1
    }
}

/// How many fault bits are set in a window.
pub(crate) open spec fn count_trues(s: Seq<bool>) -> int
    decreases s.len(),
{
    if s.len() == 0 {
        0
    } else {
        (if s[0] {
            1int
        } else {
            0int
        }) + count_trues(s.drop_first())
    }
}

pub(crate) proof fn lemma_count_trues_push(s: Seq<bool>, b: bool)
    ensures
        count_trues(s.push(b)) == count_trues(s) + (if b {
            1int
        } else {
            0int
        }),
    decreases s.len(),
{
    let sp = s.push(b);
    assert(sp.len() == s.len() + 1);
    assert(count_trues(sp) == (if sp[0] {
        1int
    } else {
        0int
    }) + count_trues(sp.drop_first()));
    if s.len() == 0 {
        assert(sp.drop_first() =~= Seq::<bool>::empty());
        assert(sp[0] == b);
    } else {
        assert(sp.drop_first() =~= s.drop_first().push(b));
        assert(sp[0] == s[0]);
        lemma_count_trues_push(s.drop_first(), b);
        assert(count_trues(s) == (if s[0] {
            1int
        } else {
            0int
        }) + count_trues(s.drop_first()));
    }
}

pub(crate) proof fn lemma_count_trues_nonneg(s: Seq<bool>)
    ensures
        0 <= count_trues(s) <= s.len(),
    decreases s.len(),
{
    if s.len() > 0 {
        lemma_count_trues_nonneg(s.drop_first());
    }
}

/// The frames each process holds.
pub(crate) open spec fn pff_useds(ws: Seq<PffProc>) -> Seq<usize> {
    ws.map_values(|w: PffProc| w.used_memory)
}

/// The page references still unconsumed across all processes.
pub(crate) open spec fn pff_accesses(ws: Seq<PffProc>) -> int
    decreases ws.len(),
{
    if ws.len() == 0 {
        0
    } else {
        trace_accesses(ws[0].process.bursts()) + pff_accesses(ws.drop_first())
    }
}

pub(crate) proof fn lemma_pff_accesses_update(ws: Seq<PffProc>, j: int, w2: PffProc)
    requires
        0 <= j < ws.len(),
    ensures
        pff_accesses(ws.update(j, w2)) == pff_accesses(ws) - trace_accesses(
            ws[j].process.bursts(),
        ) + trace_accesses(w2.process.bursts()),
    decreases ws.len(),
{
    if j == 0 {
        assert(ws.update(0, w2).drop_first() =~= ws.drop_first());
    } else {
        assert(ws.update(j, w2).drop_first() =~= ws.drop_first().update(j - 1, w2));
        lemma_pff_accesses_update(ws.drop_first(), j - 1, w2);
    }
}

pub(crate) proof fn lemma_pff_accesses_nonneg(ws: Seq<PffProc>)
    ensures
        pff_accesses(ws) >= 0,
    decreases ws.len(),
{
    if ws.len() > 0 {
        lemma_pff_accesses_nonneg(ws.drop_first());
    }
}

/// The bursts still unconsumed across all processes.
pub(crate) open spec fn pff_bursts(ws: Seq<PffProc>) -> int
    decreases ws.len(),
{
    if ws.len() == 0 {
        0
    } else {
        ws[0].process.bursts().len() + pff_bursts(ws.drop_first())
    }
}

pub(crate) proof fn lemma_pff_bursts_update(ws: Seq<PffProc>, j: int, w2: PffProc)
    requires
        0 <= j < ws.len(),
    ensures
        pff_bursts(ws.update(j, w2)) == pff_bursts(ws) - ws[j].process.bursts().len()
            + w2.process.bursts().len(),
    decreases ws.len(),
{
    if j == 0 {
        assert(ws.update(0, w2).drop_first() =~= ws.drop_first());
    } else {
        assert(ws.update(j, w2).drop_first() =~= ws.drop_first().update(j - 1, w2));
        lemma_pff_bursts_update(ws.drop_first(), j - 1, w2);
    }
}

/// No process owes more than it holds: the total overage never exceeds
/// the total holding.
pub(crate) proof fn lemma_overage_le_used(ws: Seq<PffProc>)
    ensures
        overage_sum(ws) <= sum_usize(pff_useds(ws)),
    decreases ws.len(),
{
    if ws.len() > 0 {
        assert(pff_useds(ws).drop_first() =~= pff_useds(ws.drop_first()));
        assert(pff_useds(ws)[0] == ws[0].used_memory);
        lemma_overage_le_used(ws.drop_first());
    }
}

pub(crate) proof fn lemma_pff_bursts_nonneg(ws: Seq<PffProc>)
    ensures
        pff_bursts(ws) >= 0,
    decreases ws.len(),
{
    if ws.len() > 0 {
        lemma_pff_bursts_nonneg(ws.drop_first());
    }
}

/// Suffix sums of distinct-page counts shift with the head.
proof fn lemma_pages_from_shift(ps: Seq<Process>, i: int)
    requires
        1 <= i,
        1 <= ps.len(),
    ensures
        crate::virtual_memory::proportional::pages_from(ps, i)
            == crate::virtual_memory::proportional::pages_from(ps.drop_first(), i - 1),
    decreases ps.len() - i,
{
    assert(ps.drop_first().len() == ps.len() - 1);
    if i < ps.len() {
        assert(ps.drop_first()[i - 1] == ps[i]);
        lemma_pages_from_shift(ps, i + 1);
        assert(crate::virtual_memory::proportional::pages_from(ps, i) == ps[i].pages().len()
            + crate::virtual_memory::proportional::pages_from(ps, i + 1));
        assert(crate::virtual_memory::proportional::pages_from(ps.drop_first(), i - 1)
            == ps.drop_first()[i - 1].pages().len()
            + crate::virtual_memory::proportional::pages_from(ps.drop_first(), i));
    } else {
        assert(crate::virtual_memory::proportional::pages_from(ps, i) == 0);
        assert(i - 1 >= ps.drop_first().len());
        assert(crate::virtual_memory::proportional::pages_from(ps.drop_first(), i - 1) == 0);
    }
}

/// Holdings bounded by the distinct-page counts, with one held strictly
/// below its count, sum to strictly less than the counts' total.
proof fn lemma_useds_lt_pages(ws: Seq<PffProc>, ps: Seq<Process>, i: int)
    requires
        ws.len() == ps.len(),
        0 <= i < ws.len(),
        forall|j: int|
            0 <= j < ws.len() ==> (#[trigger] ws[j]).used_memory as int
                <= ps[j].pages().len() as int,
        (ws[i].used_memory as int) < ps[i].pages().len() as int,
    ensures
        sum_usize(pff_useds(ws)) < crate::virtual_memory::proportional::pages_from(ps, 0),
    decreases ws.len(),
{
    assert(pff_useds(ws).drop_first() =~= pff_useds(ws.drop_first()));
    assert(pff_useds(ws)[0] == ws[0].used_memory);
    assert(crate::virtual_memory::proportional::pages_from(ps, 0) == ps[0].pages().len()
        + crate::virtual_memory::proportional::pages_from(ps, 1));
    if ws.len() > 1 {
        lemma_pages_from_shift(ps, 1);
    }
    assert forall|j: int|
        0 <= j < ws.drop_first().len() implies (#[trigger] ws.drop_first()[j]).used_memory as int
        <= ps.drop_first()[j].pages().len() as int by {
        assert(ws.drop_first()[j] == ws[j + 1]);
        assert(ps.drop_first()[j] == ps[j + 1]);
    }
    if i == 0 {
        lemma_useds_le_pages(ws.drop_first(), ps.drop_first());
    } else {
        assert(ws.drop_first()[i - 1] == ws[i]);
        assert(ps.drop_first()[i - 1] == ps[i]);
        lemma_useds_lt_pages(ws.drop_first(), ps.drop_first(), i - 1);
    }
}

/// Holdings bounded by the distinct-page counts sum to no more than the
/// counts' total.
proof fn lemma_useds_le_pages(ws: Seq<PffProc>, ps: Seq<Process>)
    requires
        ws.len() == ps.len(),
        forall|j: int|
            0 <= j < ws.len() ==> (#[trigger] ws[j]).used_memory as int
                <= ps[j].pages().len() as int,
    ensures
        sum_usize(pff_useds(ws)) <= crate::virtual_memory::proportional::pages_from(ps, 0),
    decreases ws.len(),
{
    if ws.len() > 0 {
        assert(pff_useds(ws).drop_first() =~= pff_useds(ws.drop_first()));
        assert(pff_useds(ws)[0] == ws[0].used_memory);
        assert(crate::virtual_memory::proportional::pages_from(ps, 0) == ps[0].pages().len()
            + crate::virtual_memory::proportional::pages_from(ps, 1));
        if ws.len() > 1 {
            lemma_pages_from_shift(ps, 1);
        } else {
            assert(crate::virtual_memory::proportional::pages_from(ps, 1) == 0);
            assert(crate::virtual_memory::proportional::pages_from(ps.drop_first(), 0) == 0);
        }
        assert forall|j: int|
            0 <= j < ws.drop_first().len() implies (
        #[trigger] ws.drop_first()[j]).used_memory as int <= ps.drop_first()[j].pages().len() as int by {
            assert(ws.drop_first()[j] == ws[j + 1]);
            assert(ps.drop_first()[j] == ps[j + 1]);
        }
        lemma_useds_le_pages(ws.drop_first(), ps.drop_first());
    }
}

/// The whole engine state of one page-fault-frequency run.
pub(crate) struct PffState {
    pub(crate) wrappers: Vec<PffProc>,
    pub(crate) memory: PageSet,
    pub(crate) lru: Lru,
    pub(crate) page_to_process: Vec<usize>,
    pub(crate) memory_to_take: usize,
    pub(crate) abstract_timer: usize,
    pub(crate) ans: Vec<usize>,
    pub(crate) minimal_amount_of_page_faults: usize,
    pub(crate) maximum_amount_of_page_faults: usize,
    pub(crate) period: usize,
}

/// One process's state is sound and agrees with the pool, the global
/// tracker and the owner table.
pub(crate) open spec fn pff_proc_ok(st: &PffState, j: int) -> bool {
    let w = st.wrappers@[j];
    &&& w.process.wf()
    &&& w.lru.wf()
    &&& w.lru@.len() == w.used_memory
    &&& forall|k: int|
        0 <= k < w.lru@.len() ==> (#[trigger] w.lru@[k]).timev() < st.abstract_timer
    &&& forall|k: int|
        0 <= k < w.lru@.len() ==> w.process.pages().contains((#[trigger] w.lru@[k]).valv())
    &&& forall|k: int| 0 <= k < w.lru@.len() ==> st.memory.has((#[trigger] w.lru@[k]).valv())
    &&& forall|k: int|
        0 <= k < w.lru@.len() ==> (#[trigger] w.lru@[k]).valv() < st.page_to_process@.len()
            && st.page_to_process@[w.lru@[k].valv() as int] == j
    &&& forall|p: usize| w.process.pages().contains(p) && st.memory.has(p) ==> w.lru.has_val(p)
    &&& w.page_faults_count as int == count_trues(w.page_faults_list@)
}

/// The two status facts that may be broken for the process whose burst
/// is being served: a process is either wanting (positive desire) or
/// fully retired, and an exhausted process holds no frames.
pub(crate) open spec fn pff_status_ok(st: &PffState, j: int) -> bool {
    let w = st.wrappers@[j];
    &&& (w.desired_space >= 1 || (w.process.bursts().len() == 0 && w.used_memory == 0
        && w.desired_space == 0))
    &&& (w.process.bursts().len() == 0 ==> w.used_memory == 0)
    &&& w.page_faults_list@.len() <= st.period
}

/// The fault count stays within the accesses consumed.
pub(crate) open spec fn pff_ans_ok(st: &PffState, ps: Seq<Process>, j: int) -> bool {
    st.ans@[j] + trace_accesses(st.wrappers@[j].process.bursts()) <= trace_accesses(
        ps[j].bursts(),
    )
}

/// The engine invariant, with the status and fault-count facts waived
/// for the one process (index `xi`, or none for `-1`) whose burst is in
/// flight: every process is sound, the global tracker holds exactly the
/// resident pages with times below the clock, the owner table names each
/// resident page's holder, the pool is no larger than `m`, and the
/// owed-frame counter equals the total overage.
pub(crate) open spec fn pff_inv_at(st: &PffState, ps: Seq<Process>, m: usize, xi: int) -> bool {
    &&& st.period < usize::MAX
    &&& st.wrappers@.len() == ps.len()
    &&& st.ans@.len() == ps.len()
    &&& m >= 1
    &&& st.memory.wf()
    &&& st.lru.wf()
    &&& processes_ok(ps)
    &&& traces_fit(ps)
    &&& forall|j: int| 0 <= j < ps.len() ==> pff_proc_ok(st, j)
    &&& forall|j: int| 0 <= j < ps.len() && j != xi ==> pff_status_ok(st, j)
    &&& forall|j: int| 0 <= j < ps.len() && j != xi ==> pff_ans_ok(st, ps, j)
    &&& (0 <= xi < ps.len() ==> st.wrappers@[xi].desired_space >= 1)
    &&& forall|j: int|
        0 <= j < ps.len() ==> (#[trigger] st.wrappers@[j]).process.pages() == ps[j].pages()
    &&& forall|j: int|
        0 <= j < ps.len() ==> (#[trigger] st.wrappers@[j]).process.bursts().len()
            <= ps[j].bursts().len()
    &&& forall|p: usize| st.memory.has(p) ==> st.lru.has_val(p)
    &&& forall|p: usize|
        st.memory.has(p) ==> p < st.page_to_process@.len() && st.page_to_process@[p as int]
            < ps.len() && st.wrappers@[st.page_to_process@[p as int] as int].lru.has_val(p)
    &&& forall|k: int| 0 <= k < st.lru@.len() ==> st.memory.has((#[trigger] st.lru@[k]).valv())
    &&& forall|k: int|
        0 <= k < st.lru@.len() ==> (#[trigger] st.lru@[k]).timev() < st.abstract_timer
    &&& st.memory@.len() == sum_usize(pff_useds(st.wrappers@))
    &&& st.memory@.len() <= m
    &&& st.memory_to_take as int == overage_sum(st.wrappers@)
    &&& forall|j: int|
        0 <= j < ps.len() ==> (#[trigger] st.wrappers@[j]).desired_space as int <= m as int
            + st.abstract_timer as int
    &&& forall|j: int| 0 <= j < ps.len() && (#[trigger] ps[j]).bursts().len() == 0 ==> st.ans@[j]
        == 0
}

/// The engine invariant with no process in flight.
pub(crate) open spec fn pff_inv(st: &PffState, ps: Seq<Process>, m: usize) -> bool {
    pff_inv_at(st, ps, m, -1)
}

/// Sound on its own and in agreement with the pool, the global tracker
/// and the owner table; see `pff_proc_ok` above.
pub(crate) proof fn lemma_pff_inv_weaken(st: &PffState, ps: Seq<Process>, m: usize, xi: int)
    requires
        pff_inv(st, ps, m),
        0 <= xi < ps.len(),
        st.wrappers@[xi].desired_space >= 1,
    ensures
        pff_inv_at(st, ps, m, xi),
{
}

/// A change that touches only process `i`'s window, fault count and
/// desire — leaving its tracker, trace and holding alone, and the owed
/// counter consistent — keeps the whole invariant.
pub(crate) proof fn lemma_pff_frame(
    pre: &PffState,
    post: &PffState,
    ps: Seq<Process>,
    m: usize,
    i: int,
)
    requires
        pff_inv_at(pre, ps, m, i),
        0 <= i < ps.len(),
        post.wrappers@.len() == pre.wrappers@.len(),
        forall|j: int|
            0 <= j < ps.len() && j != i ==> (#[trigger] post.wrappers@[j]) == pre.wrappers@[j],
        post.wrappers@[i].lru == pre.wrappers@[i].lru,
        post.wrappers@[i].process == pre.wrappers@[i].process,
        post.wrappers@[i].used_memory == pre.wrappers@[i].used_memory,
        post.wrappers@[i].page_faults_count as int == count_trues(
            post.wrappers@[i].page_faults_list@,
        ),
        post.wrappers@[i].desired_space >= 1,
        post.wrappers@[i].desired_space as int <= m as int + post.abstract_timer as int,
        post.memory == pre.memory,
        post.lru == pre.lru,
        post.page_to_process == pre.page_to_process,
        post.abstract_timer == pre.abstract_timer,
        post.ans == pre.ans,
        post.period == pre.period,
        post.memory_to_take as int == overage_sum(post.wrappers@),
    ensures
        pff_inv_at(post, ps, m, i),
{
    assert(pff_useds(post.wrappers@) =~= pff_useds(pre.wrappers@));
    assert forall|j: int| 0 <= j < ps.len() implies pff_proc_ok(post, j) by {
        assert(pff_proc_ok(pre, j));
        if j != i {
            assert(post.wrappers@[j] == pre.wrappers@[j]);
        }
    }
    assert forall|j: int| 0 <= j < ps.len() && j != i implies pff_status_ok(post, j) by {
        assert(pff_status_ok(pre, j));
        assert(post.wrappers@[j] == pre.wrappers@[j]);
        assert(post.wrappers@[j].page_faults_list@.len() <= post.period);
    }
    assert forall|j: int| 0 <= j < ps.len() && j != i implies pff_ans_ok(post, ps, j) by {
        assert(pff_ans_ok(pre, ps, j));
        assert(post.wrappers@[j] == pre.wrappers@[j]);
    }
}

/// The state in the middle of serving a faulting reference of process
/// `i`: both trackers and the owner table already note the page, the
/// fault already sits in the window, but the page is not yet resident.
pub(crate) open spec fn pff_mid(
    st: &PffState,
    ps: Seq<Process>,
    m: usize,
    i: int,
    access: usize,
) -> bool {
    &&& st.wrappers@.len() == ps.len()
    &&& st.ans@.len() == ps.len()
    &&& 0 <= i < ps.len()
    &&& m >= 1
    &&& st.memory.wf()
    &&& st.lru.wf()
    &&& processes_ok(ps)
    &&& traces_fit(ps)
    &&& !st.memory.has(access)
    &&& ps[i].bursts().len() > 0
    &&& access < st.page_to_process@.len()
    &&& st.page_to_process@[access as int] == i
    &&& ps[i].pages().contains(access)
    &&& forall|j: int| 0 <= j < ps.len() && j != i ==> pff_proc_ok(st, j)
    &&& forall|j: int| 0 <= j < ps.len() && j != i ==> pff_status_ok(st, j)
    &&& forall|j: int| 0 <= j < ps.len() && j != i ==> pff_ans_ok(st, ps, j)
    &&& st.wrappers@[i].desired_space >= 1
    &&& st.wrappers@[i].process.wf()
    &&& st.wrappers@[i].lru.wf()
    &&& st.abstract_timer >= 1
    &&& st.wrappers@[i].lru@.len() == st.wrappers@[i].used_memory + 1
    &&& st.wrappers@[i].lru.has_val(access)
    &&& st.wrappers@[i].lru.has_entry((st.abstract_timer - 1) as usize, access)
    &&& forall|k: int|
        0 <= k < st.wrappers@[i].lru@.len() ==> (#[trigger] st.wrappers@[i].lru@[k]).timev()
            < st.abstract_timer
    &&& forall|k: int|
        0 <= k < st.wrappers@[i].lru@.len() ==> st.wrappers@[i].process.pages().contains(
            (#[trigger] st.wrappers@[i].lru@[k]).valv(),
        )
    &&& forall|k: int|
        0 <= k < st.wrappers@[i].lru@.len() ==> (st.memory.has(
            (#[trigger] st.wrappers@[i].lru@[k]).valv(),
        ) || st.wrappers@[i].lru@[k].valv() == access)
    &&& forall|k: int|
        0 <= k < st.wrappers@[i].lru@.len() ==> (#[trigger] st.wrappers@[i].lru@[k]).valv()
            < st.page_to_process@.len() && st.page_to_process@[st.wrappers@[i].lru@[k].valv() as int]
            == i
    &&& forall|p: usize|
        st.wrappers@[i].process.pages().contains(p) && st.memory.has(p)
            ==> st.wrappers@[i].lru.has_val(p)
    &&& st.wrappers@[i].page_faults_count as int == count_trues(st.wrappers@[i].page_faults_list@)
    &&& st.period < usize::MAX
    &&& st.wrappers@[i].page_faults_list@.len() <= st.period + 1
    &&& forall|j: int|
        0 <= j < ps.len() ==> (#[trigger] st.wrappers@[j]).process.pages() == ps[j].pages()
    &&& forall|j: int|
        0 <= j < ps.len() ==> (#[trigger] st.wrappers@[j]).process.bursts().len()
            <= ps[j].bursts().len()
    &&& forall|v: usize| st.lru.has_val(v) <==> (st.memory.has(v) || v == access)
    &&& forall|p: usize|
        st.memory.has(p) ==> p < st.page_to_process@.len() && st.page_to_process@[p as int]
            < ps.len() && st.wrappers@[st.page_to_process@[p as int] as int].lru.has_val(p)
    &&& forall|k: int|
        0 <= k < st.lru@.len() ==> (#[trigger] st.lru@[k]).timev() < st.abstract_timer
    &&& st.memory@.len() == sum_usize(pff_useds(st.wrappers@))
    &&& st.memory@.len() <= m
    &&& st.memory_to_take as int == overage_sum(st.wrappers@)
    &&& forall|j: int|
        0 <= j < ps.len() ==> (#[trigger] st.wrappers@[j]).desired_space as int <= m as int
            + st.abstract_timer as int
    &&& forall|j: int| 0 <= j < ps.len() && (#[trigger] ps[j]).bursts().len() == 0 ==> st.ans@[j]
        == 0
}

/// What each admission branch leaves behind: the page is resident, the
/// per-access bookkeeping is consistent again, and only process `i`'s
/// fault count moved, by exactly one.
pub(crate) open spec fn pff_admitted(
    st0: &PffState,
    st: &PffState,
    ps: Seq<Process>,
    m: usize,
    i: int,
) -> bool {
    &&& pff_inv_at(st, ps, m, i)
    &&& st.period == st0.period
    &&& st.minimal_amount_of_page_faults == st0.minimal_amount_of_page_faults
    &&& st.maximum_amount_of_page_faults == st0.maximum_amount_of_page_faults
    &&& st.abstract_timer == st0.abstract_timer
    &&& forall|j: int|
        0 <= j < ps.len() ==> (#[trigger] st.wrappers@[j]).process == st0.wrappers@[j].process
    &&& forall|j: int|
        0 <= j < ps.len() ==> (#[trigger] st.wrappers@[j]).page_faults_list
            == st0.wrappers@[j].page_faults_list && st.wrappers@[j].page_faults_count
            == st0.wrappers@[j].page_faults_count && st.wrappers@[j].desired_space
            == st0.wrappers@[j].desired_space
    &&& forall|j: int| 0 <= j < ps.len() && j != i ==> (#[trigger] st.ans@[j]) == st0.ans@[j]
    &&& st.ans@[i] as int == st0.ans@[i] as int + 1
}

impl PffState {
    /// Admits the faulting page into a free frame.
    fn admit_free(&mut self, i: usize, access: usize, m: usize, Ghost(ps): Ghost<Seq<Process>>)
        requires
            pff_mid(old(self), ps, m, i as int, access),
            old(self).wrappers@[i as int].desired_space > old(self).wrappers@[i as int].used_memory,
            old(self).memory@.len() < m,
            old(self).ans@[i as int] < usize::MAX,
        ensures
            pff_admitted(old(self), final(self), ps, m, i as int),
    {
        let ghost st0 = *self;
        self.memory.insert(access);
        {
            let w = &mut self.wrappers[i];
            w.used_memory = w.used_memory + 1;
        }
        let a = self.ans[i];
        self.ans.set(i, a + 1);
        proof {
            let st = *self;
            assert forall|j: int| 0 <= j < ps.len() && j != i implies pff_status_ok(
                &st,
                j,
            ) by {
                assert(pff_status_ok(&st0, j));
                assert(st.wrappers@[j].process == st0.wrappers@[j].process);
                assert(st.wrappers@[j].desired_space == st0.wrappers@[j].desired_space);
                assert(st.wrappers@[j].page_faults_list == st0.wrappers@[j].page_faults_list);
                assert(st.period == st0.period);
                if st0.wrappers@[j].process.bursts().len() == 0 {
                    assert(st0.wrappers@[j].used_memory == 0);
                    assert(st.wrappers@[j].used_memory == st0.wrappers@[j].used_memory);
                }
            }
            assert forall|j: int| 0 <= j < ps.len() && j != i implies pff_ans_ok(
                &st,
                ps,
                j,
            ) by {
                assert(pff_ans_ok(&st0, ps, j));
                assert(st.wrappers@[j].process == st0.wrappers@[j].process);
                assert(st.ans@[j] == st0.ans@[j]);
            }
            assert(st.wrappers@ =~= st0.wrappers@.update(i as int, st.wrappers@[i as int]));
            assert(pff_useds(st.wrappers@) =~= pff_useds(st0.wrappers@).update(
                i as int,
                st.wrappers@[i as int].used_memory,
            ));
            crate::arith::lemma_sum_update(
                pff_useds(st0.wrappers@),
                i as int,
                st.wrappers@[i as int].used_memory,
            );
            lemma_overage_sum_update(st0.wrappers@, i as int, st.wrappers@[i as int]);
            assert forall|j: int| 0 <= j < ps.len() implies pff_proc_ok(&st, j) by {
                if j != i {
                    assert(pff_proc_ok(&st0, j));
                    let w = st.wrappers@[j];
                    assert(w == st0.wrappers@[j]);
                    assert forall|k: int| 0 <= k < w.lru@.len() implies st.memory.has(
                        (#[trigger] w.lru@[k]).valv(),
                    ) by {
                        assert(st0.memory.has(w.lru@[k].valv()));
                    }
                    assert forall|p: usize|
                        w.process.pages().contains(p) && st.memory.has(p) implies w.lru.has_val(
                        p,
                    ) by {
                        if p == access {
                            assert(ps[i as int].pages().contains(access));
                            assert(super::pages_disjoint(&ps[i as int], &ps[j]));
                        } else {
                            assert(st0.memory.has(p));
                        }
                    }
                } else {
                    let w = st.wrappers@[j];
                    assert(w.lru@ == st0.wrappers@[j].lru@);
                    assert(w.lru@.len() == w.used_memory);
                    assert(w.process.wf());
                    assert(w.lru.wf());
                    assert forall|k: int| 0 <= k < w.lru@.len() implies (
                    #[trigger] w.lru@[k]).timev() < st.abstract_timer && w.process.pages().contains(
                        w.lru@[k].valv(),
                    ) && w.lru@[k].valv() < st.page_to_process@.len()
                        && st.page_to_process@[w.lru@[k].valv() as int] == j by {
                        assert(st0.wrappers@[j].lru@[k] == w.lru@[k]);
                    }
                    assert forall|k: int| 0 <= k < w.lru@.len() implies st.memory.has(
                        (#[trigger] w.lru@[k]).valv(),
                    ) by {
                        if w.lru@[k].valv() != access {
                            assert(st0.memory.has(w.lru@[k].valv()));
                        }
                    }
                    assert forall|p: usize|
                        w.process.pages().contains(p) && st.memory.has(p) implies w.lru.has_val(
                        p,
                    ) by {
                        if p != access {
                            assert(st0.memory.has(p));
                        }
                    }
                    assert(w.page_faults_count as int == count_trues(w.page_faults_list@));
                }
            }
            assert forall|p: usize| st.memory.has(p) implies p < st.page_to_process@.len()
                && st.page_to_process@[p as int] < ps.len()
                && st.wrappers@[st.page_to_process@[p as int] as int].lru.has_val(p) by {
                if p != access {
                    assert(st0.memory.has(p));
                }
            }
            assert forall|k: int| 0 <= k < st.lru@.len() implies st.memory.has(
                (#[trigger] st.lru@[k]).valv(),
            ) by {
                let v = st.lru@[k].valv();
                assert(st.lru.has_entry(st.lru@[k].timev(), v));
                assert(st.lru.has_val(v));
            }
            assert forall|p: usize| st.memory.has(p) implies st.lru.has_val(p) by {}
        }
    }

    /// Admits the faulting page by reclaiming the least-recently-used
    /// page of some over-quota process, paying one owed frame.
    fn steal_and_admit(
        &mut self,
        i: usize,
        access: usize,
        m: usize,
        Ghost(ps): Ghost<Seq<Process>>,
    )
        requires
            pff_mid(old(self), ps, m, i as int, access),
            old(self).wrappers@[i as int].desired_space > old(self).wrappers@[i as int].used_memory,
            old(self).memory_to_take != 0,
            old(self).ans@[i as int] < usize::MAX,
        ensures
            pff_admitted(old(self), final(self), ps, m, i as int),
    {
        let ghost st0 = *self;
        // Some process holds more than it desires; its pages are resident
        // and tracked, so a scan in least-recently-used order finds one.
        proof {
            let jw = lemma_overage_sum_witness(st0.wrappers@);
            assert(jw != i);
            assert(pff_proc_ok(&st0, jw));
            assert(pff_status_ok(&st0, jw));
            assert(st0.wrappers@[jw].desired_space >= 1);
            assert(st0.wrappers@[jw].used_memory >= 2);
            let wl = st0.wrappers@[jw].lru@;
            assert(wl.len() >= 2);
            let pv = wl[0].valv();
            assert(st0.memory.has(pv));
            assert(st0.lru.has_val(pv));
            let kk = choose|kk: int| 0 <= kk < st0.lru@.len() && st0.lru@[kk].valv() == pv;
            assert(st0.page_to_process@[pv as int] == jw) by {
                assert(st0.wrappers@[jw].lru@[0].valv() == pv);
            }
            assert(steal_candidate(&st0, kk));
        }
        proof {
            assert forall|k2: int| 0 <= k2 < self.lru@.len() implies (
            #[trigger] self.lru@[k2]).valv() < self.page_to_process@.len()
                && self.page_to_process@[self.lru@[k2].valv() as int] < self.wrappers@.len() by {
                let v = self.lru@[k2].valv();
                assert(self.lru.has_entry(self.lru@[k2].timev(), v));
                assert(self.lru.has_val(v));
                if v != access {
                    assert(self.memory.has(v));
                }
            }
        }
        proof {
            assert(self.lru@.len() >= 1) by {
                assert(self.lru.has_val(access));
                let ka = choose|ka: int|
                    0 <= ka < self.lru@.len() && self.lru@[ka].valv() == access;
            }
        }
        let total = self.lru.len();
        let mut k: usize = 0;
        while !is_steal_candidate(self, k)
            invariant
                *self == st0,
                pff_mid(&st0, ps, m, i as int, access),
                total == self.lru@.len(),
                0 <= k < total,
                forall|k2: int|
                    0 <= k2 < self.lru@.len() ==> (#[trigger] self.lru@[k2]).valv()
                        < self.page_to_process@.len()
                        && self.page_to_process@[self.lru@[k2].valv() as int]
                        < self.wrappers@.len(),
                exists|k2: int| k <= k2 < self.lru@.len() && steal_candidate(self, k2),
                forall|k2: int| 0 <= k2 < k ==> !steal_candidate(self, k2),
            decreases self.lru@.len() - k,
        {
            proof {
                let k2 = choose|k2: int| k <= k2 < self.lru@.len() && steal_candidate(self, k2);
                assert(k2 > k);
            }
            k += 1;
        }
        let entry = self.lru.lru_iter()[k];
        let page = entry.get_val();
        let owner = self.page_to_process[page];
        proof {
            assert(steal_candidate(self, k as int));
            assert(self.lru.has_val(page)) by {
                assert(self.lru@[k as int].valv() == page);
            }
            assert(page != access) by {
                if page == access {
                    assert(self.page_to_process@[page as int] == i);
                }
            }
            assert(self.memory.has(page));
            assert(owner != i);
            assert(pff_proc_ok(&st0, owner as int));
        }
        {
            let w = &mut self.wrappers[owner];
            w.used_memory = w.used_memory - 1;
            w.lru.remove_val(page);
        }
        self.memory.remove(page);
        self.lru.remove_lru(&entry);
        self.memory_to_take = self.memory_to_take - 1;
        let ghost st1 = *self;
        proof {
            assert(st1.wrappers@ =~= st0.wrappers@.update(
                owner as int,
                st1.wrappers@[owner as int],
            ));
            assert(pff_useds(st1.wrappers@) =~= pff_useds(st0.wrappers@).update(
                owner as int,
                st1.wrappers@[owner as int].used_memory,
            ));
            crate::arith::lemma_sum_update(
                pff_useds(st0.wrappers@),
                owner as int,
                st1.wrappers@[owner as int].used_memory,
            );
            lemma_overage_sum_update(st0.wrappers@, owner as int, st1.wrappers@[owner as int]);
            // The removed tracker entry carried exactly this page.
            assert forall|v: usize| st1.lru.has_val(v) <==> ((st0.memory.has(v) && v != page) || v
                == access) by {
                if st1.lru.has_val(v) {
                    let kx = choose|kx: int| 0 <= kx < st1.lru@.len() && st1.lru@[kx].valv() == v;
                    let e2 = st1.lru@[kx];
                    assert(st1.lru.has_entry(e2.timev(), e2.valv()));
                    assert(st0.lru.has_entry(e2.timev(), e2.valv()) && e2.timev() != entry.timev());
                    assert(st0.lru.has_val(v)) by {
                        let ky = choose|ky: int|
                            0 <= ky < st0.lru@.len() && st0.lru@[ky].timev() == e2.timev()
                                && st0.lru@[ky].valv() == e2.valv();
                    }
                    assert(v != page) by {
                        if v == page {
                            let ky = choose|ky: int|
                                0 <= ky < st0.lru@.len() && st0.lru@[ky].timev() == e2.timev()
                                    && st0.lru@[ky].valv() == e2.valv();
                            assert(st0.lru@[k as int].valv() == page);
                            assert(ky == k);
                        }
                    }
                }
                if (st0.memory.has(v) && v != page) || v == access {
                    assert(st0.lru.has_val(v));
                    let ky = choose|ky: int| 0 <= ky < st0.lru@.len() && st0.lru@[ky].valv() == v;
                    assert(st0.lru.has_entry(st0.lru@[ky].timev(), v));
                    assert(st0.lru@[ky].timev() != entry.timev() || ky == k) by {
                        if st0.lru@[ky].timev() == entry.timev() && ky != k {
                            assert(st0.lru@[k as int].timev() == entry.timev());
                        }
                    }
                    assert(st1.lru.has_entry(st0.lru@[ky].timev(), v));
                    let kz = choose|kz: int|
                        0 <= kz < st1.lru@.len() && st1.lru@[kz].timev() == st0.lru@[ky].timev()
                            && st1.lru@[kz].valv() == v;
                }
            }
        }
        // Now the frame is free for the faulting page.
        self.memory.insert(access);
        {
            let w = &mut self.wrappers[i];
            w.used_memory = w.used_memory + 1;
        }
        let a = self.ans[i];
        self.ans.set(i, a + 1);
        proof {
            let st = *self;
            assert forall|j: int| 0 <= j < ps.len() && j != i implies pff_status_ok(
                &st,
                j,
            ) by {
                assert(pff_status_ok(&st0, j));
                assert(st.wrappers@[j].process == st0.wrappers@[j].process);
                assert(st.wrappers@[j].desired_space == st0.wrappers@[j].desired_space);
                assert(st.wrappers@[j].page_faults_list == st0.wrappers@[j].page_faults_list);
                assert(st.period == st0.period);
                if st0.wrappers@[j].process.bursts().len() == 0 {
                    assert(st0.wrappers@[j].used_memory == 0);
                    assert(st.wrappers@[j].used_memory == st0.wrappers@[j].used_memory);
                }
            }
            assert forall|j: int| 0 <= j < ps.len() && j != i implies pff_ans_ok(
                &st,
                ps,
                j,
            ) by {
                assert(pff_ans_ok(&st0, ps, j));
                assert(st.wrappers@[j].process == st0.wrappers@[j].process);
                assert(st.ans@[j] == st0.ans@[j]);
            }
            assert(st.wrappers@ =~= st1.wrappers@.update(i as int, st.wrappers@[i as int]));
            assert(pff_useds(st.wrappers@) =~= pff_useds(st1.wrappers@).update(
                i as int,
                st.wrappers@[i as int].used_memory,
            ));
            crate::arith::lemma_sum_update(
                pff_useds(st1.wrappers@),
                i as int,
                st.wrappers@[i as int].used_memory,
            );
            lemma_overage_sum_update(st1.wrappers@, i as int, st.wrappers@[i as int]);
            assert forall|j: int| 0 <= j < ps.len() implies pff_proc_ok(&st, j) by {
                if j == i {
                    assert forall|kx: int|
                        0 <= kx < st.wrappers@[j].lru@.len() implies st.memory.has(
                        (#[trigger] st.wrappers@[j].lru@[kx]).valv(),
                    ) by {
                        let v = st.wrappers@[j].lru@[kx].valv();
                        assert(v != page) by {
                            if v == page {
                                assert(st0.page_to_process@[v as int] == i);
                            }
                        }
                        if v != access {
                            assert(st0.memory.has(v));
                        }
                    }
                    assert forall|p: usize|
                        st.wrappers@[j].process.pages().contains(p) && st.memory.has(
                            p,
                        ) implies st.wrappers@[j].lru.has_val(p) by {
                        if p != access {
                            assert(st0.memory.has(p));
                        }
                    }
                } else if j == owner {
                    assert(pff_proc_ok(&st0, j));
                    let w0 = st0.wrappers@[j];
                    let w = st.wrappers@[j];
                    assert forall|kx: int| 0 <= kx < w.lru@.len() implies st.memory.has(
                        (#[trigger] w.lru@[kx]).valv(),
                    ) && w.process.pages().contains(w.lru@[kx].valv()) && w.lru@[kx].timev()
                        < st.abstract_timer && w.lru@[kx].valv() < st.page_to_process@.len()
                        && st.page_to_process@[w.lru@[kx].valv() as int] == j by {
                        let e2 = w.lru@[kx];
                        assert(w.lru.has_entry(e2.timev(), e2.valv()));
                        assert(w0.lru.has_entry(e2.timev(), e2.valv()) && e2.valv() != page);
                        let ky = choose|ky: int|
                            0 <= ky < w0.lru@.len() && w0.lru@[ky].timev() == e2.timev()
                                && w0.lru@[ky].valv() == e2.valv();
                        assert(st0.memory.has(e2.valv()));
                    }
                    assert forall|p: usize|
                        w.process.pages().contains(p) && st.memory.has(p) implies w.lru.has_val(
                        p,
                    ) by {
                        if p != access {
                            assert(st0.memory.has(p) && p != page);
                            assert(w0.lru.has_val(p));
                        } else {
                            assert(ps[i as int].pages().contains(access));
                            assert(super::pages_disjoint(&ps[i as int], &ps[j]));
                        }
                    }
                } else {
                    assert(pff_proc_ok(&st0, j));
                    let w = st.wrappers@[j];
                    assert(w == st0.wrappers@[j]);
                    assert forall|kx: int| 0 <= kx < w.lru@.len() implies st.memory.has(
                        (#[trigger] w.lru@[kx]).valv(),
                    ) by {
                        let v = w.lru@[kx].valv();
                        assert(st0.memory.has(v));
                        assert(v != page) by {
                            if v == page {
                                assert(st0.page_to_process@[v as int] == j);
                            }
                        }
                    }
                    assert forall|p: usize|
                        w.process.pages().contains(p) && st.memory.has(p) implies w.lru.has_val(
                        p,
                    ) by {
                        if p != access {
                            assert(st0.memory.has(p) && p != page);
                        } else {
                            assert(super::pages_disjoint(&ps[i as int], &ps[j]));
                        }
                    }
                }
            }
            assert forall|p: usize| st.memory.has(p) implies p < st.page_to_process@.len()
                && st.page_to_process@[p as int] < ps.len()
                && st.wrappers@[st.page_to_process@[p as int] as int].lru.has_val(p) by {
                if p != access {
                    assert(st0.memory.has(p) && p != page);
                    let o2 = st0.page_to_process@[p as int];
                    assert(st0.wrappers@[o2 as int].lru.has_val(p));
                    if o2 == owner {
                        assert(st.wrappers@[o2 as int].lru.has_val(p)) by {
                            assert(p != page);
                        }
                    } else if o2 == i {
                        assert(st.wrappers@[o2 as int].lru@ == st0.wrappers@[o2 as int].lru@);
                    } else {
                        assert(st.wrappers@[o2 as int] == st0.wrappers@[o2 as int]);
                    }
                } else {
                    assert(st.page_to_process@[access as int] == i);
                    assert(st.wrappers@[i as int].lru@ == st0.wrappers@[i as int].lru@);
                    assert(st0.wrappers@[i as int].lru.has_val(access));
                }
            }
            assert forall|p: usize| st.memory.has(p) implies st.lru.has_val(p) by {
                if p == access {
                } else {
                    assert(st0.memory.has(p) && p != page);
                }
            }
            assert forall|kx: int| 0 <= kx < st.lru@.len() implies st.memory.has(
                (#[trigger] st.lru@[kx]).valv(),
            ) by {
                let v = st.lru@[kx].valv();
                assert(st.lru.has_val(v)) by {}
                assert((st0.memory.has(v) && v != page) || v == access);
            }
            assert forall|kx: int| 0 <= kx < st.lru@.len() implies (#[trigger] st.lru@[kx]).timev()
                < st.abstract_timer by {
                let e2 = st.lru@[kx];
                assert(st.lru.has_entry(e2.timev(), e2.valv()));
                assert(st0.lru.has_entry(e2.timev(), e2.valv()));
                let ky = choose|ky: int|
                    0 <= ky < st0.lru@.len() && st0.lru@[ky].timev() == e2.timev()
                        && st0.lru@[ky].valv() == e2.valv();
            }
        }
    }

    /// Admits the faulting page by evicting this process's own
    /// least-recently-used resident page.
    fn evict_own_and_admit(
        &mut self,
        i: usize,
        access: usize,
        m: usize,
        Ghost(ps): Ghost<Seq<Process>>,
    )
        requires
            pff_mid(old(self), ps, m, i as int, access),
            old(self).wrappers@[i as int].used_memory != 0,
            old(self).ans@[i as int] < usize::MAX,
        ensures
            pff_admitted(old(self), final(self), ps, m, i as int),
    {
        let ghost st0 = *self;
        let victim = {
            let w = &mut self.wrappers[i];
            match w.lru.pop_lru() {
                Option::Some(v) => v,
                Option::None => {
                    proof {
                        assert(false);
                    }
                    0
                },
            }
        };
        proof {
            let wl = st0.wrappers@[i as int].lru@;
            assert(victim == wl[0].valv());
            assert(victim != access) by {
                if victim == access {
                    // The head would then carry the newest possible time,
                    // yet an older entry sits right behind it.
                    let ka = choose|ka: int|
                        0 <= ka < wl.len() && wl[ka].timev() == (st0.abstract_timer - 1) as usize
                            && wl[ka].valv() == access;
                    assert(ka == 0);
                    assert(wl.len() >= 2);
                    assert(wl[0].timev() < wl[1].timev());
                    assert(wl[1].timev() < st0.abstract_timer);
                }
            }
            assert(st0.memory.has(victim));
            assert(st0.lru.has_val(victim));
        }
        self.lru.remove_val(victim);
        self.memory.remove(victim);
        self.memory.insert(access);
        let a = self.ans[i];
        self.ans.set(i, a + 1);
        proof {
            let st = *self;
            assert forall|j: int| 0 <= j < ps.len() && j != i implies pff_status_ok(
                &st,
                j,
            ) by {
                assert(pff_status_ok(&st0, j));
                assert(st.wrappers@[j].process == st0.wrappers@[j].process);
                assert(st.wrappers@[j].desired_space == st0.wrappers@[j].desired_space);
                assert(st.wrappers@[j].page_faults_list == st0.wrappers@[j].page_faults_list);
                assert(st.period == st0.period);
                if st0.wrappers@[j].process.bursts().len() == 0 {
                    assert(st0.wrappers@[j].used_memory == 0);
                    assert(st.wrappers@[j].used_memory == st0.wrappers@[j].used_memory);
                }
            }
            assert forall|j: int| 0 <= j < ps.len() && j != i implies pff_ans_ok(
                &st,
                ps,
                j,
            ) by {
                assert(pff_ans_ok(&st0, ps, j));
                assert(st.wrappers@[j].process == st0.wrappers@[j].process);
                assert(st.ans@[j] == st0.ans@[j]);
            }
            assert(st.wrappers@ =~= st0.wrappers@.update(i as int, st.wrappers@[i as int]));
            assert(pff_useds(st.wrappers@) =~= pff_useds(st0.wrappers@));
            lemma_overage_sum_update(st0.wrappers@, i as int, st.wrappers@[i as int]);
            let wl = st0.wrappers@[i as int].lru@;
            assert(st.wrappers@[i as int].lru@ == wl.subrange(1, wl.len() as int));
            assert forall|j: int| 0 <= j < ps.len() implies pff_proc_ok(&st, j) by {
                if j == i {
                    let w = st.wrappers@[j];
                    assert forall|kx: int| 0 <= kx < w.lru@.len() implies st.memory.has(
                        (#[trigger] w.lru@[kx]).valv(),
                    ) && w.process.pages().contains(w.lru@[kx].valv()) && w.lru@[kx].timev()
                        < st.abstract_timer && w.lru@[kx].valv() < st.page_to_process@.len()
                        && st.page_to_process@[w.lru@[kx].valv() as int] == j by {
                        assert(w.lru@[kx] == wl[kx + 1]);
                        assert(wl[kx + 1].valv() != victim);
                        if w.lru@[kx].valv() != access {
                            assert(st0.memory.has(w.lru@[kx].valv()));
                        }
                    }
                    assert forall|p: usize|
                        w.process.pages().contains(p) && st.memory.has(p) implies w.lru.has_val(
                        p,
                    ) by {
                        if p != access {
                            assert(st0.memory.has(p) && p != victim);
                            assert(st0.wrappers@[i as int].lru.has_val(p));
                            let ky = choose|ky: int| 0 <= ky < wl.len() && wl[ky].valv() == p;
                            assert(ky != 0);
                            assert(w.lru@[ky - 1].valv() == p);
                        } else {
                            assert(st0.wrappers@[i as int].lru.has_val(access));
                            let ky = choose|ky: int| 0 <= ky < wl.len() && wl[ky].valv() == access;
                            assert(ky != 0);
                            assert(w.lru@[ky - 1].valv() == access);
                        }
                    }
                } else {
                    assert(pff_proc_ok(&st0, j));
                    let w = st.wrappers@[j];
                    assert(w == st0.wrappers@[j]);
                    assert forall|kx: int| 0 <= kx < w.lru@.len() implies st.memory.has(
                        (#[trigger] w.lru@[kx]).valv(),
                    ) by {
                        let v = w.lru@[kx].valv();
                        assert(st0.memory.has(v));
                        assert(v != victim) by {
                            if v == victim {
                                assert(st0.page_to_process@[v as int] == j);
                                assert(st0.page_to_process@[victim as int] == i);
                            }
                        }
                    }
                    assert forall|p: usize|
                        w.process.pages().contains(p) && st.memory.has(p) implies w.lru.has_val(
                        p,
                    ) by {
                        if p != access {
                            assert(st0.memory.has(p) && p != victim) by {
                                if p == victim {
                                    assert(ps[i as int].pages().contains(victim));
                                    assert(super::pages_disjoint(&ps[i as int], &ps[j]));
                                }
                            }
                        } else {
                            assert(super::pages_disjoint(&ps[i as int], &ps[j]));
                        }
                    }
                }
            }
            assert forall|p: usize| st.memory.has(p) implies p < st.page_to_process@.len()
                && st.page_to_process@[p as int] < ps.len()
                && st.wrappers@[st.page_to_process@[p as int] as int].lru.has_val(p) by {
                if p != access {
                    assert(st0.memory.has(p) && p != victim);
                    let o2 = st0.page_to_process@[p as int];
                    assert(st0.wrappers@[o2 as int].lru.has_val(p));
                    if o2 == i {
                        let ky = choose|ky: int| 0 <= ky < wl.len() && wl[ky].valv() == p;
                        assert(ky != 0);
                        assert(st.wrappers@[i as int].lru@[ky - 1].valv() == p);
                    } else {
                        assert(st.wrappers@[o2 as int] == st0.wrappers@[o2 as int]);
                    }
                } else {
                    assert(st.page_to_process@[access as int] == i);
                    assert(st0.wrappers@[i as int].lru.has_val(access));
                    let ky = choose|ky: int| 0 <= ky < wl.len() && wl[ky].valv() == access;
                    assert(ky != 0);
                    assert(st.wrappers@[i as int].lru@[ky - 1].valv() == access);
                }
            }
            assert forall|p: usize| st.memory.has(p) implies st.lru.has_val(p) by {
                if p != access {
                    assert(st0.memory.has(p) && p != victim);
                }
            }
            assert forall|kx: int| 0 <= kx < st.lru@.len() implies st.memory.has(
                (#[trigger] st.lru@[kx]).valv(),
            ) && st.lru@[kx].timev() < st.abstract_timer by {
                let e2 = st.lru@[kx];
                assert(st.lru.has_entry(e2.timev(), e2.valv()));
                assert(st0.lru.has_entry(e2.timev(), e2.valv()) && e2.valv() != victim);
                let ky = choose|ky: int|
                    0 <= ky < st0.lru@.len() && st0.lru@[ky].timev() == e2.timev()
                        && st0.lru@[ky].valv() == e2.valv();
                assert((st0.memory.has(e2.valv()) || e2.valv() == access));
            }
            assert(st.memory@.len() == st0.memory@.len());
        }
    }

    /// Serves one page reference of process `i`, already popped from its
    /// burst: the owner table and both trackers note the use, then a
    /// missing page is admitted through the policy's priority ladder —
    /// free frame, stolen over-quota frame, or self-eviction — and the
    /// fault window finally adjusts the process's desired space. The one
    /// failure is starvation: a faulting process with no frame, no free
    /// space and nothing reclaimable.
    #[verifier::rlimit(100)]
    pub(crate) fn serve_access(
        &mut self,
        i: usize,
        access: usize,
        m: usize,
        Ghost(ps): Ghost<Seq<Process>>,
    ) -> (r: Result<(), EmulationError>)
        requires
            pff_inv_at(old(self), ps, m, i as int),
            i < ps.len(),
            ps[i as int].bursts().len() > 0,
            old(self).wrappers@[i as int].process.pages().contains(access),
            old(self).wrappers@[i as int].page_faults_list@.len() <= old(self).period,
            access < usize::MAX,
            m as int + old(self).abstract_timer < usize::MAX as int,
            old(self).ans@[i as int] < usize::MAX,
        ensures
            match r {
                Ok(()) => {
                    &&& pff_inv_at(final(self), ps, m, i as int)
                    &&& final(self).abstract_timer == old(self).abstract_timer + 1
                    &&& final(self).period == old(self).period
                    &&& (final(self).minimal_amount_of_page_faults == old(
                        self,
                    ).minimal_amount_of_page_faults)
                    &&& (final(self).maximum_amount_of_page_faults == old(
                        self,
                    ).maximum_amount_of_page_faults)
                    &&& (final(self).wrappers@[i as int].page_faults_list@.len()
                        <= final(self).period)
                    &&& forall|j: int|
                        0 <= j < ps.len() ==> (#[trigger] final(self).wrappers@[j]).process == old(
                            self,
                        ).wrappers@[j].process
                    &&& forall|j: int|
                        0 <= j < ps.len() && j != i ==> (#[trigger] final(self).ans@[j]) == old(
                            self,
                        ).ans@[j]
                    &&& final(self).ans@[i as int] <= old(self).ans@[i as int] + 1
                },
                Err(e) => e == EmulationError::Starvation,
            },
            crate::virtual_memory::proportional::pages_from(ps, 0) <= m as int ==> (r is Ok),
            ps.len() == 1 ==> (r is Ok),
    {
        let ghost n = ps.len();
        // Owner table: record `i` as the page's holder.
        if self.page_to_process.len() <= access {
            let ghost p2p0 = self.page_to_process@;
            while self.page_to_process.len() < access + 1
                invariant
                    p2p0.len() <= self.page_to_process@.len() <= access + 1,
                    access < usize::MAX,
                    self.page_to_process@.subrange(0, p2p0.len() as int) == p2p0,
                    forall|k: int|
                        p2p0.len() <= k < self.page_to_process@.len()
                            ==> self.page_to_process@[k] == i,
                    self.wrappers == old(self).wrappers,
                    self.memory == old(self).memory,
                    self.lru == old(self).lru,
                    self.abstract_timer == old(self).abstract_timer,
                    self.ans == old(self).ans,
                    self.memory_to_take == old(self).memory_to_take,
                    self.period == old(self).period,
                    self.minimal_amount_of_page_faults == old(self).minimal_amount_of_page_faults,
                    self.maximum_amount_of_page_faults == old(self).maximum_amount_of_page_faults,
                decreases access + 1 - self.page_to_process@.len(),
            {
                self.page_to_process.push(i);
                proof {
                    assert(self.page_to_process@.subrange(0, p2p0.len() as int) =~= p2p0);
                }
            }
            proof {
                assert forall|pq: usize|
                    0 <= pq < p2p0.len() implies self.page_to_process@[pq as int] == p2p0[pq as int] by {
                    assert(self.page_to_process@.subrange(0, p2p0.len() as int)[pq as int]
                        == self.page_to_process@[pq as int]);
                }
                assert(self.page_to_process@[access as int] == i);
            }
        } else {
            let ghost p2p0 = self.page_to_process@;
            proof {
                if self.memory.has(access) {
                    let o = self.page_to_process@[access as int];
                    assert(pff_proc_ok(old(self), o as int));
                    assert(self.wrappers@[o as int].lru.has_val(access));
                    let k = choose|k: int|
                        0 <= k < self.wrappers@[o as int].lru@.len()
                            && self.wrappers@[o as int].lru@[k].valv() == access;
                    assert(self.wrappers@[o as int].process.pages().contains(access));
                    assert(ps[o as int].pages().contains(access));
                    if o != i {
                        assert(super::pages_disjoint(&ps[i as int], &ps[o as int]));
                    }
                    assert(o == i);
                }
            }
            self.page_to_process.set(access, i);
        }
        let ghost st0 = *self;
        // Renaming the page's owner disturbs no other bookkeeping: every
        // tracked page of every process keeps its recorded holder.
        proof {
            assert(st0.wrappers@ == old(self).wrappers@);
            assert(st0.page_to_process@[access as int] == i);
            assert forall|j: int| 0 <= j < ps.len() implies pff_proc_ok(&st0, j) by {
                assert(pff_proc_ok(old(self), j));
                let w = st0.wrappers@[j];
                assert forall|k: int| 0 <= k < w.lru@.len() implies (#[trigger] w.lru@[k]).valv()
                    < st0.page_to_process@.len() && st0.page_to_process@[w.lru@[k].valv() as int]
                    == j by {
                    let v = w.lru@[k].valv();
                    assert(v < old(self).page_to_process@.len());
                    assert(old(self).page_to_process@[v as int] == j);
                    if v == access {
                        assert(old(self).memory.has(v));
                        assert(j == i);
                    }
                }
            }
            assert forall|p: usize| st0.memory.has(p) implies p < st0.page_to_process@.len()
                && st0.page_to_process@[p as int] < ps.len()
                && st0.wrappers@[st0.page_to_process@[p as int] as int].lru.has_val(p) by {
                if p != access {
                    assert(old(self).page_to_process@[p as int] == st0.page_to_process@[p as int]);
                }
            }
            assert forall|j: int| 0 <= j < ps.len() && j != i implies pff_status_ok(
                &st0,
                j,
            ) by {
                assert(pff_status_ok(old(self), j));
                assert(st0.wrappers@[j] == old(self).wrappers@[j]);
                assert(st0.period == old(self).period);
            }
            assert forall|j: int| 0 <= j < ps.len() && j != i implies pff_ans_ok(
                &st0,
                ps,
                j,
            ) by {
                assert(pff_ans_ok(old(self), ps, j));
                assert(st0.wrappers@[j] == old(self).wrappers@[j]);
                assert(st0.ans@[j] == old(self).ans@[j]);
            }
            assert(st0.memory == old(self).memory);
            assert(st0.lru == old(self).lru);
            assert(pff_inv_at(&st0, ps, m, i as int));
        }
        // Both trackers note the use at the current logical time.
        self.lru.use_val(access, self.abstract_timer);
        let t = self.abstract_timer;
        {
            let w = &mut self.wrappers[i];
            proof {
                assert(pff_proc_ok(&st0, i as int));
                assert(w.lru == st0.wrappers@[i as int].lru);
                assert(t == st0.abstract_timer);
            }
            w.lru.use_val(access, t);
        }
        self.abstract_timer = self.abstract_timer + 1;
        let ghost st2 = *self;
        proof {
            assert(st2.wrappers@ =~= st0.wrappers@.update(i as int, st2.wrappers@[i as int]));
            assert(pff_useds(st2.wrappers@) =~= pff_useds(st0.wrappers@));
            lemma_overage_sum_update(st0.wrappers@, i as int, st2.wrappers@[i as int]);
            assert forall|k: int| 0 <= k < st2.lru@.len() implies (#[trigger] st2.lru@[k]).timev()
                < st2.abstract_timer by {
                let e = st2.lru@[k];
                assert(st2.lru.has_entry(e.timev(), e.valv()));
            }
            assert forall|k: int| 0 <= k < st2.wrappers@[i as int].lru@.len() implies (
            #[trigger] st2.wrappers@[i as int].lru@[k]).timev() < st2.abstract_timer && (
            st2.wrappers@[i as int].process.pages().contains(st2.wrappers@[i as int].lru@[k].valv()))
                && st2.wrappers@[i as int].lru@[k].valv() < st2.page_to_process@.len() && (
            st2.page_to_process@[st2.wrappers@[i as int].lru@[k].valv() as int] == i) && (
            st2.memory.has(st2.wrappers@[i as int].lru@[k].valv()) || st2.wrappers@[i as int].lru@[k].valv()
                == access) by {
                let e = st2.wrappers@[i as int].lru@[k];
                assert(pff_proc_ok(&st0, i as int));
                assert(st2.wrappers@[i as int].lru.has_entry(e.timev(), e.valv()));
                if e.valv() != access {
                    assert(crate::lru::seq_has_entry(
                        st0.wrappers@[i as int].lru@,
                        e.timev(),
                        e.valv(),
                    ));
                    let k2 = choose|k2: int|
                        0 <= k2 < st0.wrappers@[i as int].lru@.len()
                            && st0.wrappers@[i as int].lru@[k2].timev() == e.timev()
                            && st0.wrappers@[i as int].lru@[k2].valv() == e.valv();
                }
            }
            assert forall|v: usize| st2.lru.has_val(v) implies (st2.memory.has(v) || v
                == access) by {
                if v != access {
                    assert(st0.lru.has_val(v));
                    let k = choose|k: int| 0 <= k < st0.lru@.len() && st0.lru@[k].valv() == v;
                    assert(st0.memory.has(st0.lru@[k].valv()));
                }
            }
            assert forall|v: usize| st2.memory.has(v) || v == access implies st2.lru.has_val(
                v,
            ) by {}
        }
        let is_fault = !self.memory.contains(access);
        if is_fault {
            // A fault enters the window before the admission decision.
            {
                let w = &mut self.wrappers[i];
                proof {
                    lemma_count_trues_push(w.page_faults_list@, true);
                    lemma_count_trues_nonneg(w.page_faults_list@);
                }
                w.page_faults_list.push(true);
                w.page_faults_count = w.page_faults_count + 1;
            }
            proof {
                let stm = *self;
                assert(stm.memory == st2.memory && st2.memory == st0.memory);
                assert(stm.lru == st2.lru);
                assert(stm.wrappers@ =~= st2.wrappers@.update(i as int, stm.wrappers@[i as int]));
                assert(pff_useds(stm.wrappers@) =~= pff_useds(st2.wrappers@));
                lemma_overage_sum_update(st2.wrappers@, i as int, stm.wrappers@[i as int]);
                assert(!st0.memory.has(access));
                assert(stm.wrappers@[i as int].lru@.len() == stm.wrappers@[i as int].used_memory
                    + 1) by {
                    assert(pff_proc_ok(&st0, i as int));
                    assert(!crate::lru::seq_has_val(st0.wrappers@[i as int].lru@, access)) by {
                        if crate::lru::seq_has_val(st0.wrappers@[i as int].lru@, access) {
                            let k = choose|k: int|
                                0 <= k < st0.wrappers@[i as int].lru@.len()
                                    && st0.wrappers@[i as int].lru@[k].valv() == access;
                            assert(st0.memory.has(st0.wrappers@[i as int].lru@[k].valv()));
                        }
                    }
                    assert(st2.wrappers@[i as int].lru@.len() == st0.wrappers@[i as int].lru@.len()
                        + 1);
                    assert(st0.wrappers@[i as int].lru@.len()
                        == st0.wrappers@[i as int].used_memory);
                    assert(stm.wrappers@[i as int].used_memory
                        == st0.wrappers@[i as int].used_memory);
                }
                assert forall|j: int| 0 <= j < ps.len() && j != i implies pff_status_ok(
                    &stm,
                    j,
                ) && pff_proc_ok(&stm, j) by {
                    assert(pff_status_ok(old(self), j));
                    assert(pff_proc_ok(&st0, j));
                    assert(stm.wrappers@[j] == st0.wrappers@[j]);
                    assert(stm.wrappers@[j] == old(self).wrappers@[j]);
                    assert(stm.wrappers@[j].page_faults_list@.len() <= stm.period);
                }
                assert forall|j: int| 0 <= j < ps.len() && j != i implies pff_ans_ok(
                    &stm,
                    ps,
                    j,
                ) by {
                    assert(pff_ans_ok(old(self), ps, j));
                    assert(stm.wrappers@[j] == old(self).wrappers@[j]);
                }
                assert(pff_mid(&stm, ps, m, i as int, access));
            }
            let wants_more = {
                let w = &self.wrappers[i];
                w.desired_space > w.used_memory
            };
            let has_free = self.memory.len() < m;
            let can_take = self.memory_to_take != 0;
            let has_some = {
                let w = &self.wrappers[i];
                w.used_memory != 0
            };
            if wants_more && has_free {
                self.admit_free(i, access, m, Ghost(ps));
            } else if wants_more && can_take {
                self.steal_and_admit(i, access, m, Ghost(ps));
            } else if has_some {
                self.evict_own_and_admit(i, access, m, Ghost(ps));
            } else {
                // Wants a frame, holds none, and nothing can be freed or
                // reclaimed: starvation. With the pool at least the total
                // distinct-page count this is impossible: the holdings
                // would sum to strictly less than a full pool.
                proof {
                    if ps.len() == 1 {
                        // Alone, a process that holds nothing leaves the
                        // whole pool free.
                        let stm = *self;
                        assert(stm.wrappers@[i as int].used_memory == 0);
                        assert(i == 0);
                        assert(pff_useds(stm.wrappers@).drop_first() =~= Seq::<usize>::empty());
                        assert(pff_useds(stm.wrappers@)[0] == stm.wrappers@[0].used_memory);
                        assert(sum_usize(pff_useds(stm.wrappers@)) == pff_useds(stm.wrappers@)[0]
                            + sum_usize(pff_useds(stm.wrappers@).drop_first()));
                        assert(sum_usize(pff_useds(stm.wrappers@)) == 0);
                        assert(stm.memory@.len() >= m);
                        assert(false);
                    }
                    if crate::virtual_memory::proportional::pages_from(ps, 0) <= m as int {
                        let stm = *self;
                        assert(stm.wrappers@[i as int].used_memory == 0);
                        assert(stm.memory@.len() >= m);
                        assert forall|j: int|
                            0 <= j < ps.len() implies (
                        #[trigger] stm.wrappers@[j]).used_memory as int
                            <= ps[j].pages().len() as int by {
                            if j != i {
                                assert(pff_proc_ok(&stm, j));
                                let w = stm.wrappers@[j];
                                let avals = Seq::new(w.lru@.len(), |k: int| w.lru@[k].valv());
                                assert forall|a: int, b: int|
                                    0 <= a < b < avals.len() implies avals[a] != avals[b] by {
                                    assert(w.lru@[a].valv() != w.lru@[b].valv());
                                }
                                assert forall|v: usize|
                                    avals.contains(v) implies ps[j].pages().contains(v) by {
                                    let k = choose|k: int| 0 <= k < avals.len() && avals[k] == v;
                                    assert(w.lru@[k].valv() == v);
                                    assert(w.process.pages().contains(v));
                                }
                                crate::arith::lemma_distinct_subset_len(avals, ps[j].pages());
                            }
                        }
                        assert(ps[i as int].pages().contains(access));
                        assert(ps[i as int].pages().len() > 0);
                        lemma_useds_lt_pages(stm.wrappers@, ps, i as int);
                        assert(false);
                    }
                }
                return Err(EmulationError::Starvation);
            }
        } else {
            {
                let w = &mut self.wrappers[i];
                proof {
                    lemma_count_trues_push(w.page_faults_list@, false);
                    lemma_count_trues_nonneg(w.page_faults_list@);
                }
                w.page_faults_list.push(false);
            }
            proof {
                let stm = *self;
                assert(stm.memory == st2.memory && st2.memory == st0.memory);
                assert(stm.lru == st2.lru);
                assert(stm.wrappers@ =~= st2.wrappers@.update(i as int, stm.wrappers@[i as int]));
                assert(pff_useds(stm.wrappers@) =~= pff_useds(st2.wrappers@));
                lemma_overage_sum_update(st2.wrappers@, i as int, stm.wrappers@[i as int]);
                assert(st2.memory.has(access));
                assert(st0.memory.has(access));
                assert(stm.wrappers@[i as int].lru@.len() == stm.wrappers@[i as int].used_memory)
                    by {
                    assert(pff_proc_ok(&st0, i as int));
                    assert(st0.wrappers@[i as int].process.pages().contains(access));
                    assert(st0.wrappers@[i as int].lru.has_val(access));
                    assert(st2.wrappers@[i as int].lru@.len()
                        == st0.wrappers@[i as int].lru@.len());
                }
                assert forall|k: int| 0 <= k < stm.lru@.len() implies stm.memory.has(
                    (#[trigger] stm.lru@[k]).valv(),
                ) by {
                    let v = stm.lru@[k].valv();
                    assert(stm.lru.has_entry(stm.lru@[k].timev(), v));
                    assert(stm.lru.has_val(v));
                }
                assert forall|j: int| 0 <= j < ps.len() implies pff_proc_ok(&stm, j) by {
                    assert(pff_proc_ok(&st0, j));
                    if j != i {
                        assert(stm.wrappers@[j] == st0.wrappers@[j]);
                    } else {
                        let w = stm.wrappers@[j];
                        assert(w.lru == st2.wrappers@[j].lru);
                        assert(w.process == st2.wrappers@[j].process);
                    }
                }
                assert forall|j: int| 0 <= j < ps.len() && j != i implies pff_status_ok(
                    &stm,
                    j,
                ) by {
                    assert(pff_status_ok(old(self), j));
                    assert(stm.wrappers@[j] == old(self).wrappers@[j]);
                    assert(stm.wrappers@[j].page_faults_list@.len() <= stm.period);
                }
                assert forall|j: int| 0 <= j < ps.len() && j != i implies pff_ans_ok(
                    &stm,
                    ps,
                    j,
                ) by {
                    assert(pff_ans_ok(old(self), ps, j));
                    assert(stm.wrappers@[j] == old(self).wrappers@[j]);
                }
                assert(pff_inv_at(&stm, ps, m, i as int));
            }
        }
        // Window trim and thresholds.
        let ghost sta = *self;
        let period = self.period;
        {
            let w = &mut self.wrappers[i];
            if w.page_faults_list.len() > period {
                let ghost wl0 = w.page_faults_list@;
                let popped = w.page_faults_list.remove(0);
                proof {
                    assert(w.page_faults_list@ =~= wl0.drop_first());
                    lemma_count_trues_nonneg(w.page_faults_list@);
                }
                if popped {
                    w.page_faults_count = w.page_faults_count - 1;
                }
            }
        }
        proof {
            let stw = *self;
            assert(stw.wrappers@ =~= sta.wrappers@.update(i as int, stw.wrappers@[i as int]));
            lemma_overage_sum_update(sta.wrappers@, i as int, stw.wrappers@[i as int]);
            lemma_pff_frame(&sta, &stw, ps, m, i as int);
        }
        let over = {
            let w = &self.wrappers[i];
            w.page_faults_count > self.maximum_amount_of_page_faults
        };
        if over {
            let ghost stb = *self;
            let shrank = {
                let w = &mut self.wrappers[i];
                w.desired_space = w.desired_space + 1;
                w.desired_space <= w.used_memory
            };
            proof {
                let stc = *self;
                assert(stc.wrappers@ =~= stb.wrappers@.update(i as int, stc.wrappers@[i as int]));
                lemma_overage_sum_update(stb.wrappers@, i as int, stc.wrappers@[i as int]);
                if shrank {
                    lemma_overage_sum_element(stb.wrappers@, i as int);
                }
            }
            if shrank {
                self.memory_to_take = self.memory_to_take - 1;
            }
            proof {
                lemma_pff_frame(&stb, self, ps, m, i as int);
            }
        }
        let under = {
            let w = &self.wrappers[i];
            w.page_faults_count < self.minimal_amount_of_page_faults && w.desired_space > 1
        };
        if under {
            let ghost std_ = *self;
            let grew = {
                let w = &mut self.wrappers[i];
                w.desired_space = w.desired_space - 1;
                w.desired_space < w.used_memory
            };
            proof {
                let ste = *self;
                assert(ste.wrappers@ =~= std_.wrappers@.update(i as int, ste.wrappers@[i as int]));
                lemma_overage_sum_update(std_.wrappers@, i as int, ste.wrappers@[i as int]);
                if grew {
                    lemma_overage_le_used(std_.wrappers@);
                    crate::arith::lemma_sum_nonneg(pff_useds(std_.wrappers@));
                    assert(pff_useds(ste.wrappers@) =~= pff_useds(std_.wrappers@));
                }
            }
            if grew {
                self.memory_to_take = self.memory_to_take + 1;
            }
            proof {
                lemma_pff_frame(&std_, self, ps, m, i as int);
            }
        }
        Ok(())
    }

    /// Retires process `i` once its trace is exhausted: the frames it
    /// owed come off the counter, all its resident pages leave the pool
    /// and both trackers, and its desire drops to nothing.
    pub(crate) fn complete(&mut self, i: usize, m: usize, Ghost(ps): Ghost<Seq<Process>>)
        requires
            pff_inv_at(old(self), ps, m, i as int),
            i < ps.len(),
            old(self).wrappers@[i as int].process.bursts().len() == 0,
            pff_ans_ok(old(self), ps, i as int),
            old(self).wrappers@[i as int].page_faults_list@.len() <= old(self).period,
        ensures
            pff_inv(final(self), ps, m),
            final(self).abstract_timer == old(self).abstract_timer,
            final(self).period == old(self).period,
            (final(self).minimal_amount_of_page_faults == old(
                self,
            ).minimal_amount_of_page_faults),
            (final(self).maximum_amount_of_page_faults == old(
                self,
            ).maximum_amount_of_page_faults),
            final(self).ans == old(self).ans,
            forall|j: int|
                0 <= j < ps.len() ==> (#[trigger] final(self).wrappers@[j]).process == old(
                    self,
                ).wrappers@[j].process,
    {
        let ghost st00 = *self;
        let w_used = {
            let w = &self.wrappers[i];
            w.used_memory
        };
        let w_des = {
            let w = &self.wrappers[i];
            w.desired_space
        };
        let over_amt = if w_used > w_des {
            w_used - w_des
        } else {
            0
        };
        proof {
            lemma_overage_sum_element(self.wrappers@, i as int);
        }
        self.memory_to_take = self.memory_to_take - over_amt;
        proof {
            assert forall|j: int| 0 <= j < ps.len() implies pff_proc_ok(self, j) by {
                assert(pff_proc_ok(&st00, j));
            }
            assert forall|j: int| 0 <= j < ps.len() && j != i implies pff_status_ok(
                self,
                j,
            ) by {
                assert(pff_status_ok(&st00, j));
            }
            assert forall|j: int| 0 <= j < ps.len() && j != i implies pff_ans_ok(
                self,
                ps,
                j,
            ) by {
                assert(pff_ans_ok(&st00, ps, j));
            }
            assert(pff_inv_core_drain(self, ps, m, i as int));
        }
        let mut remaining = w_used;
        while remaining > 0
            invariant
                remaining == self.wrappers@[i as int].used_memory,
                pff_inv_core_drain(self, ps, m, i as int),
                i < ps.len(),
                forall|j: int|
                    0 <= j < ps.len() && j != i ==> (#[trigger] self.wrappers@[j])
                        == st00.wrappers@[j],
                self.abstract_timer == st00.abstract_timer,
                self.ans == st00.ans,
                self.period == st00.period,
                self.minimal_amount_of_page_faults == st00.minimal_amount_of_page_faults,
                self.maximum_amount_of_page_faults == st00.maximum_amount_of_page_faults,
                self.wrappers@[i as int].process == st00.wrappers@[i as int].process,
                self.wrappers@[i as int].process.bursts().len() == 0,
                self.wrappers@[i as int].desired_space == st00.wrappers@[i as int].desired_space,
                self.wrappers@[i as int].page_faults_list
                    == st00.wrappers@[i as int].page_faults_list,
            decreases remaining,
        {
            let ghost stp = *self;
            proof {
                assert(pff_proc_ok(&stp, i as int));
            }
            let victim = {
                let w = &mut self.wrappers[i];
                w.pop_resident()
            };
            proof {
                let wl = stp.wrappers@[i as int].lru@;
                assert(victim == wl[0].valv());
                assert(stp.memory.has(victim));
                assert(stp.lru.has_val(victim));
            }
            self.lru.remove_val(victim);
            self.memory.remove(victim);
            {
                let w = &mut self.wrappers[i];
                w.used_memory = w.used_memory - 1;
            }
            remaining = remaining - 1;
            proof {
                let st = *self;
                let wl = stp.wrappers@[i as int].lru@;
                assert(st.wrappers@ =~= stp.wrappers@.update(i as int, st.wrappers@[i as int]));
                assert(pff_useds(st.wrappers@) =~= pff_useds(stp.wrappers@).update(
                    i as int,
                    st.wrappers@[i as int].used_memory,
                ));
                crate::arith::lemma_sum_update(
                    pff_useds(stp.wrappers@),
                    i as int,
                    st.wrappers@[i as int].used_memory,
                );
                lemma_overage_sum_update(stp.wrappers@, i as int, st.wrappers@[i as int]);
                assert(st.wrappers@[i as int].lru@ == wl.subrange(1, wl.len() as int));
                assert forall|j: int| 0 <= j < ps.len() implies pff_proc_ok(&st, j) by {
                    if j == i {
                        let w = st.wrappers@[j];
                        assert forall|kx: int| 0 <= kx < w.lru@.len() implies st.memory.has(
                            (#[trigger] w.lru@[kx]).valv(),
                        ) && w.process.pages().contains(w.lru@[kx].valv()) && w.lru@[kx].timev()
                            < st.abstract_timer && w.lru@[kx].valv() < st.page_to_process@.len()
                            && st.page_to_process@[w.lru@[kx].valv() as int] == j by {
                            assert(w.lru@[kx] == wl[kx + 1]);
                            assert(wl[kx + 1].valv() != victim);
                            assert(stp.memory.has(wl[kx + 1].valv()));
                        }
                        assert forall|p: usize|
                            w.process.pages().contains(p) && st.memory.has(
                                p,
                            ) implies w.lru.has_val(p) by {
                            assert(stp.memory.has(p) && p != victim);
                            assert(stp.wrappers@[i as int].lru.has_val(p));
                            let ky = choose|ky: int| 0 <= ky < wl.len() && wl[ky].valv() == p;
                            assert(ky != 0);
                            assert(w.lru@[ky - 1].valv() == p);
                        }
                    } else {
                        assert(pff_proc_ok(&stp, j));
                        let w = st.wrappers@[j];
                        assert(w == stp.wrappers@[j]);
                        assert forall|kx: int| 0 <= kx < w.lru@.len() implies st.memory.has(
                            (#[trigger] w.lru@[kx]).valv(),
                        ) by {
                            let v = w.lru@[kx].valv();
                            assert(stp.memory.has(v));
                            assert(v != victim) by {
                                if v == victim {
                                    assert(stp.page_to_process@[v as int] == j);
                                    assert(stp.page_to_process@[victim as int] == i);
                                }
                            }
                        }
                        assert forall|p: usize|
                            w.process.pages().contains(p) && st.memory.has(
                                p,
                            ) implies w.lru.has_val(p) by {
                            assert(stp.memory.has(p) && p != victim) by {
                                if p == victim {
                                    assert(ps[i as int].pages().contains(victim));
                                    assert(super::pages_disjoint(&ps[i as int], &ps[j]));
                                }
                            }
                        }
                    }
                }
                assert forall|p: usize| st.memory.has(p) implies p < st.page_to_process@.len()
                    && st.page_to_process@[p as int] < ps.len()
                    && st.wrappers@[st.page_to_process@[p as int] as int].lru.has_val(p) by {
                    assert(stp.memory.has(p) && p != victim);
                    let o2 = stp.page_to_process@[p as int];
                    assert(stp.wrappers@[o2 as int].lru.has_val(p));
                    if o2 == i {
                        let wl2 = stp.wrappers@[i as int].lru@;
                        let ky = choose|ky: int| 0 <= ky < wl2.len() && wl2[ky].valv() == p;
                        assert(ky != 0);
                        assert(st.wrappers@[i as int].lru@[ky - 1].valv() == p);
                    } else {
                        assert(st.wrappers@[o2 as int] == stp.wrappers@[o2 as int]);
                    }
                }
                assert forall|p: usize| st.memory.has(p) implies st.lru.has_val(p) by {
                    assert(stp.memory.has(p) && p != victim);
                }
                assert forall|kx: int| 0 <= kx < st.lru@.len() implies st.memory.has(
                    (#[trigger] st.lru@[kx]).valv(),
                ) && st.lru@[kx].timev() < st.abstract_timer by {
                    let e2 = st.lru@[kx];
                    assert(st.lru.has_entry(e2.timev(), e2.valv()));
                    assert(stp.lru.has_entry(e2.timev(), e2.valv()) && e2.valv() != victim);
                    let ky = choose|ky: int|
                        0 <= ky < stp.lru@.len() && stp.lru@[ky].timev() == e2.timev()
                            && stp.lru@[ky].valv() == e2.valv();
                    assert(stp.memory.has(e2.valv()));
                }
                assert forall|j: int| 0 <= j < ps.len() && j != i implies pff_status_ok(
                    &st,
                    j,
                ) by {
                    assert(pff_status_ok(&stp, j));
                    assert(st.wrappers@[j] == stp.wrappers@[j]);
                }
                assert forall|j: int| 0 <= j < ps.len() && j != i implies pff_ans_ok(
                    &st,
                    ps,
                    j,
                ) by {
                    assert(pff_ans_ok(&stp, ps, j));
                    assert(st.wrappers@[j] == stp.wrappers@[j]);
                }
            }
        }
        let ghost st01 = *self;
        let wlast = &mut self.wrappers[i];
        wlast.desired_space = 0;
        proof {
            let st = *self;
            assert(st.wrappers@ =~= st01.wrappers@.update(i as int, st.wrappers@[i as int]));
            assert(pff_useds(st.wrappers@) =~= pff_useds(st01.wrappers@));
            lemma_overage_sum_update(st01.wrappers@, i as int, st.wrappers@[i as int]);
            assert forall|j: int| 0 <= j < ps.len() implies pff_proc_ok(&st, j) by {
                assert(pff_proc_ok(&st01, j));
                if j != i {
                    assert(st.wrappers@[j] == st01.wrappers@[j]);
                }
            }
            assert forall|j: int| 0 <= j < ps.len() implies pff_status_ok(&st, j) by {
                if j != i {
                    assert(pff_status_ok(&st01, j));
                    assert(st.wrappers@[j] == st01.wrappers@[j]);
                } else {
                    assert(st.wrappers@[j].process.bursts().len() == 0);
                    assert(st.wrappers@[j].used_memory == 0);
                    assert(st.wrappers@[j].desired_space == 0);
                    assert(st.wrappers@[j].page_faults_list
                        == st00.wrappers@[i as int].page_faults_list);
                }
            }
            assert forall|j: int| 0 <= j < ps.len() implies pff_ans_ok(&st, ps, j) by {
                if j != i {
                    assert(pff_ans_ok(&st01, ps, j));
                    assert(st.wrappers@[j] == st01.wrappers@[j]);
                } else {
                    assert(st.wrappers@[j].process == st01.wrappers@[j].process);
                }
            }
        }
    }
}

/// During the completion drain the per-process facts still hold with the
/// owed counter shifted by the retiring process's own overage.
pub(crate) open spec fn pff_inv_core_drain(
    st: &PffState,
    ps: Seq<Process>,
    m: usize,
    i: int,
) -> bool {
    &&& st.period < usize::MAX
    &&& st.wrappers@.len() == ps.len()
    &&& st.ans@.len() == ps.len()
    &&& m >= 1
    &&& st.memory.wf()
    &&& st.lru.wf()
    &&& processes_ok(ps)
    &&& traces_fit(ps)
    &&& forall|j: int| 0 <= j < ps.len() ==> pff_proc_ok(st, j)
    &&& forall|j: int| 0 <= j < ps.len() && j != i ==> pff_status_ok(st, j)
    &&& forall|j: int| 0 <= j < ps.len() && j != i ==> pff_ans_ok(st, ps, j)
    &&& forall|j: int|
        0 <= j < ps.len() ==> (#[trigger] st.wrappers@[j]).process.pages() == ps[j].pages()
    &&& forall|j: int|
        0 <= j < ps.len() ==> (#[trigger] st.wrappers@[j]).process.bursts().len()
            <= ps[j].bursts().len()
    &&& forall|p: usize| st.memory.has(p) ==> st.lru.has_val(p)
    &&& forall|p: usize|
        st.memory.has(p) ==> p < st.page_to_process@.len() && st.page_to_process@[p as int]
            < ps.len() && st.wrappers@[st.page_to_process@[p as int] as int].lru.has_val(p)
    &&& forall|k: int| 0 <= k < st.lru@.len() ==> st.memory.has((#[trigger] st.lru@[k]).valv())
    &&& forall|k: int|
        0 <= k < st.lru@.len() ==> (#[trigger] st.lru@[k]).timev() < st.abstract_timer
    &&& st.memory@.len() == sum_usize(pff_useds(st.wrappers@))
    &&& st.memory@.len() <= m
    &&& st.memory_to_take as int == overage_sum(st.wrappers@) - overage(
        st.wrappers@[i].used_memory,
        st.wrappers@[i].desired_space,
    )
    &&& forall|j: int|
        0 <= j < ps.len() ==> (#[trigger] st.wrappers@[j]).desired_space as int <= m as int
            + st.abstract_timer as int
    &&& forall|j: int| 0 <= j < ps.len() && (#[trigger] ps[j]).bursts().len() == 0 ==> st.ans@[j]
        == 0
}

/// Position `k` of the global tracker names a page whose holder is over
/// quota and holds more than one frame.
pub(crate) open spec fn steal_candidate(st: &PffState, k: int) -> bool {
    let v = st.lru@[k].valv();
    &&& 0 <= k < st.lru@.len()
    &&& v < st.page_to_process@.len()
    &&& st.page_to_process@[v as int] < st.wrappers@.len()
    &&& st.wrappers@[st.page_to_process@[v as int] as int].used_memory > 1
    &&& st.wrappers@[st.page_to_process@[v as int] as int].used_memory
        > st.wrappers@[st.page_to_process@[v as int] as int].desired_space
}

/// Exec check of `steal_candidate`.
fn is_steal_candidate(st: &PffState, k: usize) -> (r: bool)
    requires
        k < st.lru@.len(),
        st.lru@[k as int].valv() < st.page_to_process@.len(),
        st.page_to_process@[st.lru@[k as int].valv() as int] < st.wrappers@.len(),
    ensures
        r == steal_candidate(st, k as int),
{
    let v = st.lru.lru_iter()[k].get_val();
    let owner = st.page_to_process[v];
    let w = &st.wrappers[owner];
    w.used_memory > 1 && w.used_memory > w.desired_space
}

/// The page references of a whole process list.
pub open spec fn total_accesses(ps: Seq<Process>) -> int
    decreases ps.len(),
{
    if ps.len() == 0 {
        0
    } else {
        trace_accesses(ps[0].bursts()) + total_accesses(ps.drop_first())
    }
}

/// Wrappers fresh from the same processes carry the same access total.
pub(crate) proof fn lemma_pff_accesses_eq(ws: Seq<PffProc>, ps: Seq<Process>)
    requires
        ws.len() == ps.len(),
        forall|j: int|
            0 <= j < ws.len() ==> (#[trigger] ws[j]).process.bursts() == ps[j].bursts(),
    ensures
        pff_accesses(ws) == total_accesses(ps),
    decreases ws.len(),
{
    if ws.len() > 0 {
        assert forall|j: int|
            0 <= j < ws.drop_first().len() implies (#[trigger] ws.drop_first()[j]).process.bursts()
            == ps.drop_first()[j].bursts() by {
            assert(ws.drop_first()[j] == ws[j + 1]);
            assert(ps.drop_first()[j] == ps[j + 1]);
        }
        lemma_pff_accesses_eq(ws.drop_first(), ps.drop_first());
        assert(ws[0].process.bursts() == ps[0].bursts());
    }
}

/// With nobody over quota the total overage vanishes.
pub(crate) proof fn lemma_overage_sum_none(ws: Seq<PffProc>)
    requires
        forall|j: int|
            0 <= j < ws.len() ==> (#[trigger] ws[j]).used_memory <= ws[j].desired_space,
    ensures
        overage_sum(ws) == 0,
    decreases ws.len(),
{
    if ws.len() > 0 {
        assert(ws[0].used_memory <= ws[0].desired_space);
        assert forall|j: int|
            0 <= j < ws.drop_first().len() implies (#[trigger] ws.drop_first()[j]).used_memory
            <= ws.drop_first()[j].desired_space by {
            assert(ws.drop_first()[j] == ws[j + 1]);
        }
        lemma_overage_sum_none(ws.drop_first());
    }
}

/// Watches each process's fault frequency over a sliding window and
/// feeds frames to the processes that fault too often, reclaiming them
/// from those that fault too rarely.
pub struct PageFaultFrequency {
    memory_size: usize,
    minimal_amount_of_page_faults: usize,
    maximum_amount_of_page_faults: usize,
    period: usize,
}

impl PageFaultFrequency {
    /// The pool size this policy manages.
    pub closed spec fn mem(&self) -> usize {
        self.memory_size
    }

    /// The lower fault threshold.
    pub closed spec fn min_spec(&self) -> usize {
        self.minimal_amount_of_page_faults
    }

    /// The upper fault threshold.
    pub closed spec fn max_spec(&self) -> usize {
        self.maximum_amount_of_page_faults
    }

    /// The sliding-window length.
    pub closed spec fn period_spec(&self) -> usize {
        self.period
    }

    /// No allocation is possible without at least one frame; the window
    /// must leave room for one more recorded access.
    pub fn new(
        memory_size: usize,
        minimal_amount_of_page_faults: usize,
        maximum_amount_of_page_faults: usize,
        period: usize,
    ) -> (r: Self)
        requires
            memory_size >= 1,
            period < usize::MAX,
        ensures
            r.mem() == memory_size,
            r.min_spec() == minimal_amount_of_page_faults,
            r.max_spec() == maximum_amount_of_page_faults,
            r.period_spec() == period,
    {
        PageFaultFrequency {
            memory_size,
            minimal_amount_of_page_faults,
            maximum_amount_of_page_faults,
            period,
        }
    }

    /// Runs every process to completion and returns one fault count per
    /// process, or reports starvation when a faulting process holds
    /// nothing and neither a free nor a reclaimable frame exists. The
    /// pool bound and the owed-frame accounting are invariants of the
    /// loops below.
    pub fn emulate(&self, processes: Vec<Process>) -> (r: Result<Vec<usize>, EmulationError>)
        requires
            self.mem() >= 1,
            self.period_spec() < usize::MAX,
            processes_ok(processes@),
            traces_fit(processes@),
            forall|j: int|
                0 <= j < processes@.len() ==> (#[trigger] processes@[j]).pages().len()
                    * self.mem() <= usize::MAX as int,
            crate::virtual_memory::proportional::pages_from(processes@, 0) <= usize::MAX as int,
            self.mem() as int + total_accesses(processes@) < usize::MAX as int,
            forall|j: int, p: usize|
                0 <= j < processes@.len() && #[trigger] processes@[j].pages().contains(p) ==> p
                    < usize::MAX,
        ensures
            match r {
                Ok(v) => {
                    &&& v@.len() == processes@.len()
                    &&& forall|i: int|
                        0 <= i < processes@.len() && (#[trigger] processes@[i]).bursts().len()
                            == 0 ==> v@[i] == 0
                    &&& forall|i: int|
                        0 <= i < processes@.len() ==> (#[trigger] v@[i]) as int <= trace_accesses(
                            processes@[i].bursts(),
                        )
                },
                Err(e) => e == EmulationError::Starvation,
            },
            (forall|j: int|
                0 <= j < processes@.len() ==> (#[trigger] processes@[j]).bursts().len() == 0)
                ==> (r is Ok),
            crate::virtual_memory::proportional::pages_from(processes@, 0)
                <= self.mem() as int ==> (r is Ok),
            processes@.len() == 1 ==> (r is Ok),
    {
        let ghost ps = processes@;
        let n = processes.len();
        let m = self.memory_size;
        let ans = super::zero_counts(n);
        // Wrap every process with empty feedback state.
        let mut rest = processes;
        let mut wrappers: Vec<PffProc> = Vec::new();
        while rest.len() > 0
            invariant
                processes_ok(ps),
                traces_fit(ps),
                wrappers@.len() + rest@.len() == ps.len(),
                rest@ == ps.subrange(wrappers@.len() as int, ps.len() as int),
                forall|j: int|
                    0 <= j < wrappers@.len() ==> (#[trigger] wrappers@[j]).process == ps[j],
                forall|j: int|
                    0 <= j < wrappers@.len() ==> (#[trigger] wrappers@[j]).used_memory == 0
                        && wrappers@[j].desired_space == 0 && wrappers@[j].lru@.len() == 0
                        && wrappers@[j].page_faults_list@.len() == 0
                        && wrappers@[j].page_faults_count == 0 && wrappers@[j].lru.wf(),
            decreases rest@.len(),
        {
            assert(rest@[0] == ps[wrappers@.len() as int]);
            let pr = rest.remove(0);
            assert(rest@ =~= ps.subrange(wrappers@.len() as int + 1, ps.len() as int));
            wrappers.push(
                PffProc {
                    process: pr,
                    lru: Lru::new(),
                    page_faults_list: Vec::new(),
                    page_faults_count: 0,
                    desired_space: 0,
                    used_memory: 0,
                },
            );
        }
        if n == 0 {
            return Ok(ans);
        }
        // Initial desires from the largest-remainder distributor,
        // floored at one frame.
        let mut weights: Vec<usize> = Vec::new();
        let mut total: usize = 0;
        let mut i: usize = 0;
        while i < n
            invariant
                n == ps.len(),
                wrappers@.len() == n,
                i <= n,
                weights@.len() == i,
                crate::virtual_memory::proportional::pages_from(ps, 0) <= usize::MAX as int,
                forall|j: int| 0 <= j < n ==> (#[trigger] wrappers@[j]).process == ps[j],
                forall|j: int| 0 <= j < n ==> (#[trigger] ps[j]).wf(),
                forall|j: int|
                    0 <= j < i ==> (#[trigger] weights@[j]) as int == (
                    if ps[j].bursts().len() == 0 {
                        0int
                    } else {
                        ps[j].pages().len() as int
                    }),
                total as int == sum_usize(weights@),
                total + crate::virtual_memory::proportional::pages_from(ps, i as int)
                    <= crate::virtual_memory::proportional::pages_from(ps, 0),
            decreases n - i,
        {
            let wi = {
                let wref = &wrappers[i];
                if wref.process.is_empty() {
                    0
                } else {
                    wref.process.get_page_count()
                }
            };
            proof {
                crate::virtual_memory::proportional::lemma_pages_from_nonneg(ps, i as int + 1);
                crate::arith::lemma_sum_push(weights@, wi);
            }
            total = total + wi;
            weights.push(wi);
            i += 1;
        }
        proof {
            crate::virtual_memory::proportional::lemma_pages_from_nonneg(ps, n as int);
            assert forall|k: int| 0 <= k < weights@.len() implies (#[trigger] weights@[k]) as int
                * m as int <= usize::MAX as int by {
                if weights@[k] == 0 {
                    assert(weights@[k] as int * m as int == 0) by (nonlinear_arith)
                        requires
                            weights@[k] == 0,
                    ;
                } else {
                    assert(weights@[k] as int == ps[k].pages().len() as int);
                }
            }
        }
        let mut sorter = ReminderSorter::new(m, n);
        let quotas = sorter.set_frame_counts(total, &weights);
        proof {
            if total == 0 {
                crate::arith::lemma_sum_zero(quotas@);
            }
            crate::arith::lemma_sum_nonneg(quotas@);
        }
        let mut i2: usize = 0;
        while i2 < n
            invariant
                n == ps.len(),
                wrappers@.len() == n,
                quotas@.len() == n,
                i2 <= n,
                m >= 1,
                sum_usize(quotas@) <= m,
                forall|j: int| 0 <= j < n ==> (#[trigger] wrappers@[j]).process == ps[j],
                forall|j: int|
                    0 <= j < n ==> (#[trigger] wrappers@[j]).used_memory == 0
                        && wrappers@[j].lru@.len() == 0 && wrappers@[j].page_faults_list@.len()
                        == 0 && wrappers@[j].page_faults_count == 0 && wrappers@[j].lru.wf(),
                forall|j: int|
                    0 <= j < i2 ==> 1 <= (#[trigger] wrappers@[j]).desired_space <= m,
            decreases n - i2,
        {
            let q = quotas[i2];
            proof {
                crate::arith::lemma_sum_element_le(quotas@, i2 as int);
            }
            let d = if q < 1 {
                1
            } else {
                q
            };
            {
                let w = &mut wrappers[i2];
                w.desired_space = d;
            }
            i2 += 1;
        }
        let mut st = PffState {
            wrappers,
            memory: PageSet::new(),
            lru: Lru::new(),
            page_to_process: Vec::new(),
            memory_to_take: 0,
            abstract_timer: 0,
            ans,
            minimal_amount_of_page_faults: self.minimal_amount_of_page_faults,
            maximum_amount_of_page_faults: self.maximum_amount_of_page_faults,
            period: self.period,
        };
        let ghost acc0 = total_accesses(ps);
        proof {
            crate::arith::lemma_sum_zero(pff_useds(st.wrappers@));
            lemma_overage_sum_none(st.wrappers@);
            lemma_pff_accesses_eq(st.wrappers@, ps);
            assert forall|j: int| 0 <= j < ps.len() implies pff_proc_ok(&st, j) by {
                assert(st.wrappers@[j].lru@.len() == 0);
            }
            assert(pff_inv(&st, ps, m));
        }
        loop
            invariant
                ps == processes@,
                n == ps.len(),
                n >= 1,
                m == self.memory_size,
                st.period == self.period,
                forall|j: int, p: usize|
                    0 <= j < ps.len() && #[trigger] ps[j].pages().contains(p) ==> p < usize::MAX,
                pff_inv(&st, ps, m),
                st.abstract_timer + pff_accesses(st.wrappers@) <= acc0,
                acc0 == total_accesses(ps),
                m as int + acc0 < usize::MAX as int,
            decreases pff_bursts(st.wrappers@),
        {
            proof {
                lemma_pff_bursts_nonneg(st.wrappers@);
            }
            let ghost bc_start = pff_bursts(st.wrappers@);
            let mut all_done = true;
            let mut i: usize = 0;
            while i < n
                invariant
                    ps == processes@,
                    n == ps.len(),
                    n >= 1,
                    i <= n,
                    m == self.memory_size,
                    st.period == self.period,
                forall|j: int, p: usize|
                    0 <= j < ps.len() && #[trigger] ps[j].pages().contains(p) ==> p < usize::MAX,
                    pff_inv(&st, ps, m),
                    st.abstract_timer + pff_accesses(st.wrappers@) <= acc0,
                    acc0 == total_accesses(ps),
                    m as int + acc0 < usize::MAX as int,
                    pff_bursts(st.wrappers@) <= bc_start,
                    all_done ==> pff_bursts(st.wrappers@) == bc_start,
                    !all_done ==> pff_bursts(st.wrappers@) < bc_start,
                    all_done ==> forall|j: int|
                        0 <= j < i ==> (#[trigger] st.wrappers@[j]).process.bursts().len() == 0,
                decreases n - i,
            {
                let ghost stpre = st;
                let burst_opt = {
                    let w = &mut st.wrappers[i];
                    proof {
                        assert(pff_proc_ok(&stpre, i as int));
                    }
                    w.process.next()
                };
                proof {
                    assert(st.wrappers@ =~= stpre.wrappers@.update(
                        i as int,
                        st.wrappers@[i as int],
                    ));
                    assert(pff_useds(st.wrappers@) =~= pff_useds(stpre.wrappers@));
                    lemma_overage_sum_update(stpre.wrappers@, i as int, st.wrappers@[i as int]);
                    lemma_pff_bursts_update(stpre.wrappers@, i as int, st.wrappers@[i as int]);
                    lemma_pff_accesses_update(stpre.wrappers@, i as int, st.wrappers@[i as int]);
                    lemma_pff_bursts_nonneg(st.wrappers@);
                    lemma_pff_accesses_nonneg(st.wrappers@);
                }
                match burst_opt {
                    Option::Some(burst) => {
                        all_done = false;
                        let ghost burst0 = burst@;
                        let ghost rest0 = st.wrappers@[i as int].process.bursts();
                        proof {
                            assert(trace_accesses(stpre.wrappers@[i as int].process.bursts())
                                == burst0.len() + trace_accesses(rest0));
                            assert forall|x: int| 0 <= x < burst0.len() implies ps[i as int].pages().contains(
                                #[trigger] burst0[x],
                            ) by {
                                assert(stpre.wrappers@[i as int].process.wf());
                                assert(stpre.wrappers@[i as int].process.bursts()[0] == burst0);
                                assert(stpre.wrappers@[i as int].process.pages().contains(
                                    burst0[x],
                                ));
                            }
                            assert forall|j: int| 0 <= j < ps.len() implies pff_proc_ok(
                                &st,
                                j,
                            ) by {
                                assert(pff_proc_ok(&stpre, j));
                                if j != i {
                                    assert(st.wrappers@[j] == stpre.wrappers@[j]);
                                }
                            }
                            assert forall|j: int| 0 <= j < ps.len() && j != i implies pff_status_ok(
                                &st,
                                j,
                            ) by {
                                assert(pff_status_ok(&stpre, j));
                                assert(st.wrappers@[j] == stpre.wrappers@[j]);
                            }
                            assert forall|j: int| 0 <= j < ps.len() && j != i implies pff_ans_ok(
                                &st,
                                ps,
                                j,
                            ) by {
                                assert(pff_ans_ok(&stpre, ps, j));
                                assert(st.wrappers@[j] == stpre.wrappers@[j]);
                            }
                            assert(stpre.wrappers@[i as int].desired_space >= 1) by {
                                assert(pff_status_ok(&stpre, i as int));
                            }
                            assert(st.wrappers@[i as int].page_faults_list@.len() <= st.period)
                                by {
                                assert(pff_status_ok(&stpre, i as int));
                                assert(st.wrappers@[i as int].page_faults_list
                                    == stpre.wrappers@[i as int].page_faults_list);
                            }
                            assert(pff_inv_at(&st, ps, m, i as int));
                            assert(pff_ans_ok(&stpre, ps, i as int));
                        }
                        let mut k: usize = 0;
                        while k < burst.len()
                            invariant
                                ps == processes@,
                                n == ps.len(),
                                i < n,
                                k <= burst@.len(),
                                burst@ == burst0,
                                m == self.memory_size,
                                st.period == self.period,
                forall|j: int, p: usize|
                    0 <= j < ps.len() && #[trigger] ps[j].pages().contains(p) ==> p < usize::MAX,
                                pff_inv_at(&st, ps, m, i as int),
                                forall|x: int|
                                    0 <= x < burst0.len() ==> ps[i as int].pages().contains(
                                        #[trigger] burst0[x],
                                    ),
                                forall|j: int|
                                    0 <= j < ps.len() ==> (
                                    #[trigger] st.wrappers@[j]).process.bursts().len()
                                        <= ps[j].bursts().len(),
                                st.wrappers@[i as int].process.bursts() == rest0,
                                st.wrappers@[i as int].page_faults_list@.len() <= st.period,
                                st.abstract_timer + (burst0.len() - k) + pff_accesses(st.wrappers@)
                                    <= acc0,
                                st.ans@[i as int] + (burst0.len() - k) + trace_accesses(rest0)
                                    <= trace_accesses(ps[i as int].bursts()),
                                acc0 == total_accesses(ps),
                                m as int + acc0 < usize::MAX as int,
                                pff_bursts(st.wrappers@) < bc_start,
                                forall|j: int|
                                    0 <= j < ps.len() ==> (
                                    #[trigger] st.wrappers@[j]).process.pages() == ps[j].pages(),
                            decreases burst0.len() - k,
                        {
                            let access = burst[k];
                            proof {
                                assert(ps[i as int].pages().contains(burst0[k as int]));
                                assert(st.wrappers@[i as int].process.pages().contains(access));
                                lemma_pff_accesses_nonneg(st.wrappers@);
                                crate::process::lemma_trace_accesses_nonneg(rest0);
                                crate::process::lemma_trace_accesses_nonneg(
                                    ps[i as int].bursts(),
                                );
                                assert(trace_accesses(ps[i as int].bursts())
                                    <= usize::MAX as int);
                            }
                            let ghost stserve = st;
                            let res = st.serve_access(i, access, m, Ghost(ps));
                            match res {
                                Result::Ok(()) => {},
                                Result::Err(e) => {
                                    // Starvation names its cause: the pool was
                                    // smaller than the total page count, and
                                    // some trace still had work.
                                    proof {
                                        assert(ps.len() != 1);
                                        assert(!(crate::virtual_memory::proportional::pages_from(
                                            ps,
                                            0,
                                        ) <= m as int));
                                        assert(ps[i as int].bursts().len() > 0);
                                        assert(!(forall|j: int|
                                            0 <= j < ps.len() ==> (
                                            #[trigger] ps[j]).bursts().len() == 0));
                                    }
                                    return Err(e);
                                },
                            }
                            proof {
                                assert(pff_accesses(st.wrappers@) == pff_accesses(
                                    stserve.wrappers@,
                                )) by {
                                    lemma_pff_accesses_same(stserve.wrappers@, st.wrappers@);
                                }
                                assert(pff_bursts(st.wrappers@) == pff_bursts(stserve.wrappers@))
                                    by {
                                    lemma_pff_bursts_same(stserve.wrappers@, st.wrappers@);
                                }
                            }
                            k += 1;
                        }
                        let now_empty = {
                            let w = &st.wrappers[i];
                            w.process.is_empty()
                        };
                        let ghost stburst = st;
                        if now_empty {
                            st.complete(i, m, Ghost(ps));
                            proof {
                                lemma_pff_accesses_same(stburst.wrappers@, st.wrappers@);
                                lemma_pff_bursts_same(stburst.wrappers@, st.wrappers@);
                            }
                        } else {
                            proof {
                                assert(pff_status_ok(&st, i as int)) by {
                                    assert(st.wrappers@[i as int].desired_space >= 1);
                                }
                                assert(pff_ans_ok(&st, ps, i as int));
                                assert(pff_inv(&st, ps, m));
                            }
                        }
                        proof {
                            lemma_pff_bursts_nonneg(st.wrappers@);
                            lemma_pff_accesses_nonneg(st.wrappers@);
                        }
                    },
                    Option::None => {
                        proof {
                            assert forall|j: int| 0 <= j < ps.len() implies pff_proc_ok(
                                &st,
                                j,
                            ) by {
                                assert(pff_proc_ok(&stpre, j));
                                if j != i {
                                    assert(st.wrappers@[j] == stpre.wrappers@[j]);
                                }
                            }
                            assert forall|j: int| 0 <= j < ps.len() implies pff_status_ok(
                                &st,
                                j,
                            ) by {
                                assert(pff_status_ok(&stpre, j));
                                if j != i {
                                    assert(st.wrappers@[j] == stpre.wrappers@[j]);
                                } else {
                                    assert(st.wrappers@[j].process.bursts()
                                        == stpre.wrappers@[j].process.bursts());
                                    assert(st.wrappers@[j].used_memory
                                        == stpre.wrappers@[j].used_memory);
                                    assert(st.wrappers@[j].desired_space
                                        == stpre.wrappers@[j].desired_space);
                                    assert(st.wrappers@[j].page_faults_list
                                        == stpre.wrappers@[j].page_faults_list);
                                }
                            }
                            assert forall|j: int| 0 <= j < ps.len() implies pff_ans_ok(
                                &st,
                                ps,
                                j,
                            ) by {
                                assert(pff_ans_ok(&stpre, ps, j));
                                if j != i {
                                    assert(st.wrappers@[j] == stpre.wrappers@[j]);
                                } else {
                                    assert(st.wrappers@[j].process.bursts()
                                        == stpre.wrappers@[j].process.bursts());
                                }
                            }
                            assert(pff_inv(&st, ps, m));
                        }
                    },
                }
                i += 1;
            }
            if all_done {
                proof {
                    assert forall|i2: int| 0 <= i2 < ps.len() implies (
                    #[trigger] st.ans@[i2]) as int <= trace_accesses(ps[i2].bursts()) by {
                        assert(pff_ans_ok(&st, ps, i2));
                        crate::process::lemma_trace_accesses_nonneg(
                            st.wrappers@[i2].process.bursts(),
                        );
                    }
                }
                return Ok(st.ans);
            }
            proof {
                lemma_pff_bursts_nonneg(st.wrappers@);
            }
        }
    }
}

/// Identical traces mean identical access totals.
pub(crate) proof fn lemma_pff_accesses_same(a: Seq<PffProc>, b: Seq<PffProc>)
    requires
        a.len() == b.len(),
        forall|j: int| 0 <= j < a.len() ==> (#[trigger] b[j]).process == a[j].process,
    ensures
        pff_accesses(a) == pff_accesses(b),
    decreases a.len(),
{
    if a.len() > 0 {
        assert forall|j: int|
            0 <= j < a.drop_first().len() implies (#[trigger] b.drop_first()[j]).process
            == a.drop_first()[j].process by {
            assert(a.drop_first()[j] == a[j + 1]);
            assert(b.drop_first()[j] == b[j + 1]);
        }
        lemma_pff_accesses_same(a.drop_first(), b.drop_first());
        assert(b[0].process == a[0].process);
    }
}

/// Identical traces mean identical burst totals.
pub(crate) proof fn lemma_pff_bursts_same(a: Seq<PffProc>, b: Seq<PffProc>)
    requires
        a.len() == b.len(),
        forall|j: int| 0 <= j < a.len() ==> (#[trigger] b[j]).process == a[j].process,
    ensures
        pff_bursts(a) == pff_bursts(b),
    decreases a.len(),
{
    if a.len() > 0 {
        assert forall|j: int|
            0 <= j < a.drop_first().len() implies (#[trigger] b.drop_first()[j]).process
            == a.drop_first()[j].process by {
            assert(a.drop_first()[j] == a[j + 1]);
            assert(b.drop_first()[j] == b[j + 1]);
        }
        lemma_pff_bursts_same(a.drop_first(), b.drop_first());
        assert(b[0].process == a[0].process);
    }
}

} // verus!

verus! {

impl super::VirtualMemory for PageFaultFrequency {
    open spec fn emulate_pre(&self, ps: Seq<Process>) -> bool {
        &&& self.mem() >= 1
        &&& self.period_spec() < usize::MAX
        &&& processes_ok(ps)
        &&& traces_fit(ps)
        &&& forall|j: int|
            0 <= j < ps.len() ==> (#[trigger] ps[j]).pages().len() * self.mem()
                <= usize::MAX as int
        &&& crate::virtual_memory::proportional::pages_from(ps, 0) <= usize::MAX as int
        &&& self.mem() as int + total_accesses(ps) < usize::MAX as int
        &&& forall|j: int, p: usize|
            0 <= j < ps.len() && #[trigger] ps[j].pages().contains(p) ==> p < usize::MAX
    }

    fn emulate(&self, processes: Vec<Process>) -> (r: Result<Vec<usize>, EmulationError>) {
        PageFaultFrequency::emulate(self, processes)
    }
}

} // verus!
