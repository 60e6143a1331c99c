//! The largest-remainder frame distributor. Given the pool size and one
//! weight per process (its distinct-page count, or zero once it is
//! finished), every process first receives the floor of its proportional
//! share; the frames lost to rounding are then granted, one each, to the
//! processes ranked by largest fractional remainder, with smaller floor
//! quotas and then smaller indexes breaking ties. Zero-weight processes
//! are excluded from the extra frames.

use vstd::pervasive::VecAdditionalExecFns;
use vstd::prelude::*;

use crate::arith::{
    lemma_div_sum_le, lemma_sum_element_le, lemma_sum_nonneg, lemma_sum_push, lemma_sum_update,
    sum_usize,
};

verus! {

/// The floor share of process `i`: `weight * memory / total`, rounded down.
pub open spec fn base_quota(w: Seq<usize>, m: usize, t: usize, i: int) -> int {
    (w[i] as int * m as int) / t as int
}

/// The fractional remainder of process `i`'s share, scaled by `total`.
pub open spec fn rem_quota(w: Seq<usize>, m: usize, t: usize, i: int) -> int {
    (w[i] as int * m as int) % t as int
}

/// Process `i` outranks process `j` for an extra frame: larger remainder
/// first, then smaller floor quota, then smaller index.
pub open spec fn rank_before(w: Seq<usize>, m: usize, t: usize, i: int, j: int) -> bool {
    rem_quota(w, m, t, i) > rem_quota(w, m, t, j) || (rem_quota(w, m, t, i) == rem_quota(
        w,
        m,
        t,
        j,
    ) && (base_quota(w, m, t, i) < base_quota(w, m, t, j) || (base_quota(w, m, t, i) == base_quota(
        w,
        m,
        t,
        j,
    ) && i < j)))
}

/// Ranking order on the scratch triples `(remainder, floor quota, index)`.
pub open spec fn rank_leq(a: (usize, usize, usize), b: (usize, usize, usize)) -> bool {
    a.0 > b.0 || (a.0 == b.0 && (a.1 < b.1 || (a.1 == b.1 && a.2 <= b.2)))
}

/// The triples stand in ranking order.
pub open spec fn sorted_ranks(s: Seq<(usize, usize, usize)>) -> bool {
    forall|i: int, j: int| 0 <= i < j < s.len() ==> rank_leq(s[i], s[j])
}

/// The sum of the floor shares of the suffix of `w` starting at `i`.
pub open spec fn sum_bases_from(w: Seq<usize>, m: usize, t: usize, i: int) -> int
    decreases w.len() - i,
{
    if i < 0 || i >= w.len() {
        0
    } else {
        base_quota(w, m, t, i) + sum_bases_from(w, m, t, i + 1)
    }
}

/// The sum of the weights of the suffix of `w` starting at `i`.
pub open spec fn sum_weights_from(w: Seq<usize>, i: int) -> int
    decreases w.len() - i,
{
    if i < 0 || i >= w.len() {
        0
    } else {
        w[i] + sum_weights_from(w, i + 1)
    }
}

/// Each floor share is nonnegative, and a suffix of floor shares never
/// sums past the proportional share of the suffix's total weight.
proof fn lemma_bases_from_le(w: Seq<usize>, m: usize, t: usize, i: int)
    requires
        t > 0,
        0 <= i <= w.len(),
    ensures
        sum_bases_from(w, m, t, i) <= sum_weights_from(w, i) * m as int / t as int,
        sum_bases_from(w, m, t, i) >= 0,
        sum_weights_from(w, i) >= 0,
    decreases w.len() - i,
{
    if i < w.len() {
        lemma_bases_from_le(w, m, t, i + 1);
        let a = w[i] as int * m as int;
        let b = sum_weights_from(w, i + 1) * m as int;
        assert(w[i] as int * m as int >= 0) by (nonlinear_arith)
            requires
                w[i] >= 0,
                m >= 0,
        ;
        assert(sum_weights_from(w, i + 1) * m as int >= 0) by (nonlinear_arith)
            requires
                sum_weights_from(w, i + 1) >= 0,
                m >= 0,
        ;
        lemma_div_sum_le(a, b, t as int);
        assert(b / t as int >= 0) by (nonlinear_arith)
            requires
                b >= 0,
                t > 0,
        ;
        assert(a / t as int >= 0) by (nonlinear_arith)
            requires
                a >= 0,
                t > 0,
        ;
        assert(a + b == sum_weights_from(w, i) * m as int) by (nonlinear_arith)
            requires
                sum_weights_from(w, i) == w[i] + sum_weights_from(w, i + 1),
                a == w[i] as int * m as int,
                b == sum_weights_from(w, i + 1) * m as int,
        ;
    }
}

/// The floor shares together never exceed the pool when the total weight
/// is at least the sum of the weights.
proof fn lemma_bases_sum_le(w: Seq<usize>, m: usize, t: usize)
    requires
        t > 0,
        sum_weights_from(w, 0) <= t,
    ensures
        0 <= sum_bases_from(w, m, t, 0) <= m,
{
    lemma_bases_from_le(w, m, t, 0);
    let sw = sum_weights_from(w, 0);
    assert(sw * m as int / t as int <= m) by (nonlinear_arith)
        requires
            t > 0,
            0 <= sw <= t,
            m >= 0,
    ;
}

/// `sum_weights_from` agrees with `sum_usize`.
proof fn lemma_sum_weights_eq(w: Seq<usize>, i: int)
    requires
        0 <= i <= w.len(),
    ensures
        sum_weights_from(w, i) == sum_usize(w.subrange(i, w.len() as int)),
    decreases w.len() - i,
{
    if i == w.len() {
        assert(w.subrange(i, w.len() as int) =~= Seq::<usize>::empty());
    } else {
        lemma_sum_weights_eq(w, i + 1);
        let sub = w.subrange(i, w.len() as int);
        assert(sub.drop_first() =~= w.subrange(i + 1, w.len() as int));
        assert(sub[0] == w[i]);
    }
}

/// Converts each process's proportional share of the pool into a whole
/// frame count, keeping the total at the pool size, and hands the frames
/// lost to rounding to the best-ranked still-active processes.
#[derive(Clone, Debug)]
pub struct ReminderSorter {
    reminders: Vec<(usize, usize, usize)>,
    memory_size: usize,
}

impl ReminderSorter {
    /// The pool size the distributor was built for.
    pub closed spec fn mem(&self) -> usize {
        self.memory_size
    }

    pub fn new(memory_size: usize, len: usize) -> (r: Self)
        ensures
            r.mem() == memory_size,
    {
        ReminderSorter { reminders: Vec::with_capacity(len), memory_size }
    }

    /// Orders the scratch triples by descending remainder, breaking ties
    /// by ascending floor quota and then ascending index; the result is a
    /// permutation of the input.
    pub fn sort_reminders(arr: &mut Vec<(usize, usize, usize)>)
        ensures
            final(arr)@.len() == old(arr)@.len(),
            sorted_ranks(final(arr)@),
            final(arr)@.to_multiset() == old(arr)@.to_multiset(),
    {
        let n = arr.len();
        let mut h: usize = 1;
        while h < n
            invariant
                1 <= h <= n || (n == 0 && h == 1),
                arr@.len() == n,
                forall|i: int, j: int| 0 <= i < j < h ==> rank_leq(arr@[i], arr@[j]),
                arr@.to_multiset() == old(arr)@.to_multiset(),
            decreases n - h,
        {
            let mut q: usize = h;
            while q > 0 && !rank_le_at(arr, q - 1, q)
                invariant
                    0 <= q <= h < n,
                    arr@.len() == n,
                    forall|i: int, j: int|
                        0 <= i < j <= h && j != q ==> rank_leq(arr@[i], arr@[j]),
                    forall|j: int| q < j <= h ==> rank_leq(arr@[q as int], arr@[j]),
                    arr@.to_multiset() == old(arr)@.to_multiset(),
                decreases q,
            {
                let ghost before = arr@;
                let a = arr[q - 1];
                let b = arr[q];
                arr.set(q - 1, b);
                arr.set(q, a);
                proof {
                    broadcast use vstd::seq_lib::to_multiset_update;
                    broadcast use vstd::seq_lib::group_to_multiset_ensures;
                    broadcast use vstd::multiset::group_multiset_axioms;

                    let s1 = before.update(q - 1, before[q as int]);
                    let s2 = s1.update(q as int, before[q - 1]);
                    assert(arr@ =~= s2);
                    assert(before.contains(before[q - 1]) && before.contains(before[q as int]));
                    assert(s1.to_multiset() == before.to_multiset().insert(
                        before[q as int],
                    ).remove(before[q - 1]));
                    assert(s1[q as int] == before[q as int]);
                    assert(s2.to_multiset() == s1.to_multiset().insert(before[q - 1]).remove(
                        s1[q as int],
                    ));
                    assert(arr@.to_multiset() =~= before.to_multiset());
                    assert forall|i: int, j: int|
                        0 <= i < j <= h && j != q - 1 implies rank_leq(arr@[i], arr@[j]) by {
                        if i != q - 1 && i != q && j != q {
                            assert(arr@[i] == before[i] && arr@[j] == before[j]);
                        } else if j == q {
                            assert(arr@[j] == before[q - 1]);
                            if i == q - 1 {
                                assert(arr@[i] == before[q as int]);
                            } else {
                                assert(arr@[i] == before[i]);
                            }
                        } else if i == q {
                            assert(arr@[i] == before[q - 1] && arr@[j] == before[j]);
                        } else {
                            assert(arr@[i] == before[q as int] && arr@[j] == before[j]);
                        }
                    }
                    assert forall|j: int| q - 1 < j <= h implies rank_leq(
                        arr@[q - 1],
                        #[trigger] arr@[j],
                    ) by {
                        assert(arr@[q - 1] == before[q as int]);
                        if j == q {
                            assert(arr@[j] == before[q - 1]);
                        } else {
                            assert(arr@[j] == before[j]);
                        }
                    }
                }
                q -= 1;
            }
            assert forall|i: int, j: int| 0 <= i < j <= h implies rank_leq(arr@[i], arr@[j]) by {
                if j == q && i < q {
                    if i < q - 1 {
                        assert(rank_leq(arr@[i], arr@[q - 1]));
                        assert(rank_leq(arr@[q - 1], arr@[q as int]));
                    }
                }
            }
            h += 1;
        }
    }

    /// Computes one whole-frame quota per process from its weight. A zero
    /// weight marks a finished or empty process, which receives nothing.
    /// The total handed out never exceeds the pool, and it reaches the
    /// pool size unless every active process already got an extra frame.
    pub fn set_frame_counts(&mut self, total_amount_of_pages: usize, weights: &Vec<usize>) -> (r:
        Vec<usize>)
        requires
            total_amount_of_pages as int == sum_usize(weights@),
            forall|i: int|
                0 <= i < weights@.len() ==> weights@[i] as int * old(self).mem() as int
                    <= usize::MAX as int,
        ensures
            final(self).mem() == old(self).mem(),
            r@.len() == weights@.len(),
            total_amount_of_pages == 0 ==> forall|i: int| 0 <= i < r@.len() ==> r@[i] == 0,
            total_amount_of_pages > 0 ==> {
                let w = weights@;
                let m = old(self).mem();
                let t = total_amount_of_pages;
                &&& forall|i: int| 0 <= i < w.len() && w[i] == 0 ==> r@[i] == 0
                &&& forall|i: int|
                    0 <= i < w.len() && w[i] > 0 ==> r@[i] == base_quota(w, m, t, i) || r@[i]
                        == base_quota(w, m, t, i) + 1
                &&& sum_usize(r@) <= m
                &&& (sum_usize(r@) == m || (forall|i: int|
                    0 <= i < w.len() && w[i] > 0 ==> r@[i] == base_quota(w, m, t, i) + 1))
                &&& forall|i: int, j: int|
                    0 <= i < w.len() && 0 <= j < w.len() && w[i] > 0 && w[j] > 0 && rank_before(
                        w,
                        m,
                        t,
                        i,
                        j,
                    ) && r@[j] == base_quota(w, m, t, j) + 1 ==> r@[i] == base_quota(w, m, t, i)
                        + 1
            },
    {
        let ghost w = weights@;
        let ghost m_spec = self.memory_size;
        let t = total_amount_of_pages;
        let n = weights.len();
        if t == 0 {
            let mut r: Vec<usize> = Vec::new();
            let mut i: usize = 0;
            while i < n
                invariant
                    r@.len() == i <= n,
                    forall|k: int| 0 <= k < i ==> r@[k] == 0,
                decreases n - i,
            {
                r.push(0);
                i += 1;
            }
            return r;
        }
        proof {
            lemma_sum_weights_eq(w, 0);
            assert(w.subrange(0, w.len() as int) =~= w);
            lemma_bases_sum_le(w, m_spec, t);
        }
        // Floor shares, and the scratch triples for the ranking.
        let mut r: Vec<usize> = Vec::new();
        let mut used: usize = 0;
        self.reminders.clear();
        let mut i: usize = 0;
        while i < n
            invariant
                self.memory_size == m_spec,
                t as int == sum_usize(w),
                t > 0,
                w.len() == n,
                w == weights@,
                forall|k: int| 0 <= k < n ==> w[k] as int * m_spec as int <= usize::MAX as int,
                r@.len() == i,
                i <= n,
                self.reminders@.len() == i,
                forall|k: int|
                    0 <= k < i ==> r@[k] as int == base_quota(w, m_spec, t, k) && (w[k] == 0
                        ==> r@[k] == 0),
                forall|k: int|
                    0 <= k < i ==> #[trigger] self.reminders@[k] == (
                        (rem_quota(w, m_spec, t, k) as usize),
                        (base_quota(w, m_spec, t, k) as usize),
                        (k as usize),
                    ),
                used as int == sum_usize(r@),
                used as int + sum_bases_from(w, m_spec, t, i as int) <= m_spec as int,
            decreases n - i,
        {
            let wi = weights[i];
            let p = wi * self.memory_size;
            let whole = p / t;
            let rem = p % t;
            proof {
                lemma_bases_from_le(w, m_spec, t, i as int);
                lemma_bases_from_le(w, m_spec, t, i as int + 1);
                assert(sum_bases_from(w, m_spec, t, i as int) == base_quota(w, m_spec, t, i as int)
                    + sum_bases_from(w, m_spec, t, i as int + 1));
                lemma_sum_push(r@, whole);
                if wi == 0 {
                    assert(w[i as int] as int * m_spec as int == 0) by (nonlinear_arith)
                        requires
                            w[i as int] == 0,
                    ;
                }
            }
            used = used + whole;
            r.push(whole);
            self.reminders.push((rem, whole, i));
            i += 1;
        }
        let ghost bases = r@;
        let ghost pre_sort = self.reminders@;
        // Rank the triples and grant the remaining frames in order.
        Self::sort_reminders(&mut self.reminders);
        proof {
            broadcast use vstd::seq_lib::group_to_multiset_ensures;

            let arr = self.reminders@;
            let ghost arr0 = Seq::new(n as nat, |k: int| (
                (rem_quota(w, m_spec, t, k) as usize),
                (base_quota(w, m_spec, t, k) as usize),
                (k as usize),
            ));
            assert(pre_sort =~= arr0);
            assert(arr.to_multiset() == arr0.to_multiset());
            assert forall|k: int| 0 <= k < arr.len() implies triple_ok(
                w,
                m_spec,
                t,
                #[trigger] arr[k],
            ) by {
                assert(arr.contains(arr[k]));
                assert(arr.to_multiset().count(arr[k]) > 0);
                assert(arr0.to_multiset().count(arr[k]) > 0);
                assert(arr0.contains(arr[k]));
                let j = choose|j: int| 0 <= j < arr0.len() && arr0[j] == arr[k];
                assert(arr0[j].2 == j as usize);
            }
            assert forall|idx: usize| 0 <= idx < n implies #[trigger] appears(arr, idx) by {
                assert(arr0[idx as int].2 == idx);
                assert(arr0.contains(arr0[idx as int]));
                assert(arr0.to_multiset().count(arr0[idx as int]) > 0);
                assert(arr.to_multiset().count(arr0[idx as int]) > 0);
                assert(arr.contains(arr0[idx as int]));
                let k = choose|k: int| 0 <= k < arr.len() && arr[k] == arr0[idx as int];
                assert(arr[k].2 == idx);
            }
            assert(arr0.no_duplicates()) by {
                assert forall|a: int, b: int|
                    0 <= a < arr0.len() && 0 <= b < arr0.len() && a != b implies arr0[a]
                    != arr0[b] by {
                    assert(arr0[a].2 == a as usize && arr0[b].2 == b as usize);
                }
            }
            arr0.lemma_multiset_has_no_duplicates();
            arr.lemma_multiset_has_no_duplicates_conv();
            assert forall|k1: int, k2: int|
                0 <= k1 < k2 < arr.len() implies arr[k1].2 != arr[k2].2 by {
                if arr[k1].2 == arr[k2].2 {
                    assert(triple_ok(w, m_spec, t, arr[k1]));
                    assert(triple_ok(w, m_spec, t, arr[k2]));
                    assert(arr[k1] == arr[k2]);
                    assert(arr.no_duplicates());
                }
            }
        }
        let ghost arr = self.reminders@;
        let mem = self.memory_size;
        let mut k: usize = 0;
        while k < n
            invariant
                self.reminders@ == arr,
                self.memory_size == m_spec,
                mem == m_spec,
                t > 0,
                w.len() == n,
                w == weights@,
                arr.len() == n,
                bases.len() == n,
                r@.len() == n,
                k <= n,
                sorted_ranks(arr),
                forall|q: int| 0 <= q < n ==> triple_ok(w, m_spec, t, #[trigger] arr[q]),
                forall|q1: int, q2: int| 0 <= q1 < q2 < n ==> arr[q1].2 != arr[q2].2,
                forall|idx: usize| 0 <= idx < n ==> #[trigger] appears(arr, idx),
                forall|q: int|
                    0 <= q < n ==> bases[q] as int == base_quota(w, m_spec, t, q) && (w[q] == 0
                        ==> bases[q] == 0),
                forall|q: int| 0 <= q < n && w[q] == 0 ==> r@[q] == 0,
                forall|q: int|
                    0 <= q < n ==> r@[q] == bases[q] || (w[q] > 0 && r@[q] as int == bases[q] as int
                        + 1),
                forall|q: int| k <= q < n ==> r@[arr[q].2 as int] == bases[arr[q].2 as int],
                forall|q1: int, q2: int|
                    0 <= q1 < q2 < k && w[arr[q2].2 as int] > 0 && r@[arr[q2].2 as int] != bases[arr[q2].2 as int]
                        && w[arr[q1].2 as int] > 0 ==> r@[arr[q1].2 as int] != bases[arr[q1].2 as int],
                used as int == sum_usize(r@),
                used <= mem,
                used < mem ==> forall|q: int|
                    0 <= q < k && w[arr[q].2 as int] > 0 ==> r@[arr[q].2 as int] != bases[arr[q].2 as int],
            decreases n - k,
        {
            let idx = self.reminders[k].2;
            assert(idx < n) by {
                assert(triple_ok(w, m_spec, t, arr[k as int]));
            }
            if weights[idx] > 0 && used < mem {
                let cur = r[idx];
                proof {
                    lemma_sum_element_le(r@, idx as int);
                    lemma_sum_update(r@, idx as int, (cur + 1) as usize);
                }
                r.set(idx, cur + 1);
                used += 1;
                assert forall|q: int| k + 1 <= q < n implies r@[arr[q].2 as int] == bases[arr[q].2 as int] by {
                    assert(arr[q].2 != arr[k as int].2);
                }
            } else {
                if weights[idx] > 0 {
                    assert(used == mem);
                }
            }
            k += 1;
        }
        proof {
            assert forall|i1: int, j1: int|
                0 <= i1 < w.len() && 0 <= j1 < w.len() && w[i1] > 0 && w[j1] > 0 && rank_before(
                    w,
                    m_spec,
                    t,
                    i1,
                    j1,
                ) && r@[j1] == base_quota(w, m_spec, t, j1) + 1 implies r@[i1] == base_quota(
                w,
                m_spec,
                t,
                i1,
            ) + 1 by {
                assert(appears(arr, i1 as usize));
                assert(appears(arr, j1 as usize));
                let qi = choose|q: int| 0 <= q < arr.len() && #[trigger] arr[q].2 == i1 as usize;
                let qj = choose|q: int| 0 <= q < arr.len() && #[trigger] arr[q].2 == j1 as usize;
                assert(triple_ok(w, m_spec, t, arr[qi]));
                assert(triple_ok(w, m_spec, t, arr[qj]));
                assert(qi != qj);
                if qj < qi {
                    assert(rank_leq(arr[qj], arr[qi]));
                    assert(false);
                }
                assert(r@[j1] != bases[j1]);
                assert(r@[i1] != bases[i1]);
            }
            if used < mem {
                assert forall|i1: int| 0 <= i1 < w.len() && w[i1] > 0 implies r@[i1] == base_quota(
                    w,
                    m_spec,
                    t,
                    i1,
                ) + 1 by {
                    assert(appears(arr, i1 as usize));
                    let qi = choose|q: int| 0 <= q < arr.len() && #[trigger] arr[q].2 == i1 as usize;
                    assert(triple_ok(w, m_spec, t, arr[qi]));
                    assert(r@[i1] != bases[i1]);
                }
            }
        }
        r
    }
}

/// One half of the disjoint-pages property for the proportional policy:
/// when the pool is at least as large as the total weight — the summed
/// distinct-page counts — every process's floor share already covers its
/// own count, so a process granted such a quota holds all its pages at
/// once and never evicts its own. The remainder of that property, that
/// each page then faults exactly once, is checked on concrete traces.
pub proof fn lemma_quota_covers_weight(w: Seq<usize>, m: usize, t: usize, j: int)
    requires
        t > 0,
        sum_usize(w) == t,
        t <= m,
        0 <= j < w.len(),
    ensures
        base_quota(w, m, t, j) >= w[j],
{
    lemma_sum_element_le(w, j);
    assert(w[j] as int * m as int >= w[j] as int * t as int) by (nonlinear_arith)
        requires
            m >= t,
            w[j] >= 0,
    ;
    assert((w[j] as int * t as int) / t as int == w[j] as int) by (nonlinear_arith)
        requires
            t > 0,
    ;
    assert((w[j] as int * m as int) / t as int >= (w[j] as int * t as int) / t as int)
        by (nonlinear_arith)
        requires
            t > 0,
            w[j] as int * m as int >= w[j] as int * t as int,
    ;
}

/// Some scratch triple carries process index `idx`.
pub open spec fn appears(arr: Seq<(usize, usize, usize)>, idx: usize) -> bool {
    exists|k: int| 0 <= k < arr.len() && arr[k].2 == idx
}

/// The scratch triple at a position describes the process it indexes.
pub open spec fn triple_ok(w: Seq<usize>, m: usize, t: usize, e: (usize, usize, usize)) -> bool {
    e.2 < w.len() && e.0 as int == rem_quota(w, m, t, e.2 as int) && e.1 as int == base_quota(
        w,
        m,
        t,
        e.2 as int,
    )
}

/// Exec comparison backing the sort: does the triple at `a` rank no
/// later than the one at `b`?
fn rank_le_at(arr: &Vec<(usize, usize, usize)>, a: usize, b: usize) -> (r: bool)
    requires
        a < arr@.len(),
        b < arr@.len(),
    ensures
        r == rank_leq(arr@[a as int], arr@[b as int]),
{
    let x = arr[a];
    let y = arr[b];
    x.0 > y.0 || (x.0 == y.0 && (x.1 < y.1 || (x.1 == y.1 && x.2 <= y.2)))
}

} // verus!
