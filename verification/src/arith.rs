//! Sums over sequences of machine integers and the division facts the
//! frame distributor and the policy engines rely on.

use vstd::prelude::*;

verus! {

/// The sum of a sequence of `usize` values, as an unbounded integer.
pub open spec fn sum_usize(s: Seq<usize>) -> int
    decreases s.len(),
{
    if s.len() == 0 {
        0
    } else {
        s[0] + sum_usize(s.drop_first())
    }
}

/// Appending one value adds it to the sum.
pub proof fn lemma_sum_push(s: Seq<usize>, v: usize)
    ensures
        sum_usize(s.push(v)) == sum_usize(s) + v,
    decreases s.len(),
{
    let sp = s.push(v);
    assert(sp.len() == s.len() + 1);
    assert(sum_usize(sp) == sp[0] + sum_usize(sp.drop_first()));
    if s.len() == 0 {
        assert(sp.drop_first() =~= Seq::<usize>::empty());
        assert(sp[0] == v);
        assert(sum_usize(sp.drop_first()) == 0);
    } else {
        assert(sp.drop_first() =~= s.drop_first().push(v));
        assert(sp[0] == s[0]);
        lemma_sum_push(s.drop_first(), v);
        assert(sum_usize(sp.drop_first()) == sum_usize(s.drop_first()) + v);
        assert(sum_usize(s) == s[0] + sum_usize(s.drop_first()));
    }
}

/// Replacing one element shifts the sum by the difference.
pub proof fn lemma_sum_update(s: Seq<usize>, i: int, v: usize)
    requires
        0 <= i < s.len(),
    ensures
        sum_usize(s.update(i, v)) == sum_usize(s) - s[i] + v,
    decreases s.len(),
{
    if i == 0 {
        assert(s.update(0, v).drop_first() =~= s.drop_first());
    } else {
        assert(s.update(i, v).drop_first() =~= s.drop_first().update(i - 1, v));
        lemma_sum_update(s.drop_first(), i - 1, v);
    }
}

/// A sum of nonnegative values bounds each element.
pub proof fn lemma_sum_element_le(s: Seq<usize>, i: int)
    requires
        0 <= i < s.len(),
    ensures
        s[i] <= sum_usize(s),
    decreases s.len(),
{
    if i > 0 {
        lemma_sum_element_le(s.drop_first(), i - 1);
    } else {
        lemma_sum_nonneg(s.drop_first());
    }
}

/// Sums of `usize` values are nonnegative.
pub proof fn lemma_sum_nonneg(s: Seq<usize>)
    ensures
        sum_usize(s) >= 0,
    decreases s.len(),
{
    if s.len() > 0 {
        lemma_sum_nonneg(s.drop_first());
    }
}

/// A sequence of zeroes sums to zero.
pub proof fn lemma_sum_zero(s: Seq<usize>)
    requires
        forall|k: int| 0 <= k < s.len() ==> s[k] == 0,
    ensures
        sum_usize(s) == 0,
    decreases s.len(),
{
    if s.len() > 0 {
        lemma_sum_zero(s.drop_first());
    }
}

/// Pointwise smaller sequences have smaller sums.
pub proof fn lemma_sum_le(a: Seq<usize>, b: Seq<usize>)
    requires
        a.len() == b.len(),
        forall|i: int| 0 <= i < a.len() ==> a[i] <= b[i],
    ensures
        sum_usize(a) <= sum_usize(b),
    decreases a.len(),
{
    if a.len() > 0 {
        lemma_sum_le(a.drop_first(), b.drop_first());
    }
}

/// A duplicate-free sequence has no more elements than a duplicate-free
/// sequence containing all of its values.
pub proof fn lemma_distinct_subset_len(a: Seq<usize>, b: Seq<usize>)
    requires
        forall|i: int, j: int| 0 <= i < j < a.len() ==> a[i] != a[j],
        forall|i: int, j: int| 0 <= i < j < b.len() ==> b[i] != b[j],
        forall|v: usize| a.contains(v) ==> b.contains(v),
    ensures
        a.len() <= b.len(),
{
    broadcast use vstd::seq_lib::seq_to_set_is_finite;

    assert(a.no_duplicates());
    assert(b.no_duplicates());
    a.unique_seq_to_set();
    b.unique_seq_to_set();
    assert(a.to_set().subset_of(b.to_set()));
    vstd::set_lib::lemma_len_subset(a.to_set(), b.to_set());
}

/// And strictly fewer when some value is missing.
pub proof fn lemma_distinct_proper_subset_len(a: Seq<usize>, b: Seq<usize>, x: usize)
    requires
        forall|i: int, j: int| 0 <= i < j < a.len() ==> a[i] != a[j],
        forall|i: int, j: int| 0 <= i < j < b.len() ==> b[i] != b[j],
        forall|v: usize| a.contains(v) ==> b.contains(v),
        b.contains(x),
        !a.contains(x),
    ensures
        a.len() < b.len(),
{
    broadcast use vstd::seq_lib::seq_to_set_is_finite;
    broadcast use vstd::set::group_set_axioms;

    assert(a.no_duplicates());
    assert(b.no_duplicates());
    a.unique_seq_to_set();
    b.unique_seq_to_set();
    let cut = b.to_set().remove(x);
    assert(a.to_set().subset_of(cut));
    vstd::set_lib::lemma_len_subset(a.to_set(), cut);
    assert(cut.len() == b.to_set().len() - 1);
}

/// Integer division distributes over addition with a loss of at most the
/// divisor: the floors of two shares never sum past the floor of the whole.
pub proof fn lemma_div_sum_le(a: int, b: int, t: int)
    requires
        t > 0,
        a >= 0,
        b >= 0,
    ensures
        a / t + b / t <= (a + b) / t,
{
    assert(a / t + b / t <= (a + b) / t) by (nonlinear_arith)
        requires
            t > 0,
            a >= 0,
            b >= 0,
    ;
}

/// An equal split with the remainder spread over the first slots adds up
/// to the whole: summing `c / e` plus one for each slot index below
/// `c % e` over all `e` slots gives back exactly `c`.
pub open spec fn equal_share(c: usize, e: usize, j: int) -> int {
    c as int / e as int + (if j < c as int % e as int {
        1int
    } else {
        0int
    })
}

pub proof fn lemma_equal_share_sum(c: usize, e: usize)
    requires
        e > 0,
    ensures
        sum_parts(c, e, e as int) == c,
{
    lemma_sum_parts(c, e, e as int);
    assert((c as int / e as int) * e as int + c as int % e as int == c) by (nonlinear_arith)
        requires
            e > 0,
    ;
    assert((c as int % e as int) < e as int) by (nonlinear_arith)
        requires
            e > 0,
    ;
    assert(0 <= c as int % e as int) by (nonlinear_arith)
        requires
            e > 0,
    ;
    assert(sum_parts(c, e, e as int) == (e as int) * (c as int / e as int) + (c as int
        % e as int));
    assert((e as int) * (c as int / e as int) == (c as int / e as int) * (e as int))
        by (nonlinear_arith);
}

/// A smaller divisor never yields a smaller quotient.
pub proof fn lemma_div_antitone(a: int, b1: int, b2: int)
    requires
        1 <= b1 <= b2,
        a >= 0,
    ensures
        a / b1 >= a / b2,
{
    assert(a / b1 >= a / b2) by (nonlinear_arith)
        requires
            1 <= b1 <= b2,
            a >= 0,
    ;
}

/// A quotient of values at least the divisor is at least one.
pub proof fn lemma_div_ge_one(a: int, b: int)
    requires
        1 <= b <= a,
    ensures
        a / b >= 1,
{
    assert(a / b >= 1) by (nonlinear_arith)
        requires
            1 <= b <= a,
    ;
}

/// Every equal share is at least the bare quotient, which is nonnegative.
pub proof fn lemma_equal_share_bounds(c: usize, e: usize, j: int)
    requires
        e > 0,
    ensures
        equal_share(c, e, j) >= c as int / e as int >= 0,
{
    assert(c as int / e as int >= 0) by (nonlinear_arith)
        requires
            e > 0,
            c >= 0,
    ;
}

/// A prefix of the equal shares never sums past the whole.
pub proof fn lemma_sum_parts_prefix_le(c: usize, e: usize, k: int)
    requires
        e > 0,
        0 <= k <= e,
    ensures
        0 <= sum_parts(c, e, k) <= c,
    decreases e - k,
{
    lemma_sum_parts_nonneg(c, e, k);
    if k == e {
        lemma_equal_share_sum(c, e);
    } else {
        lemma_sum_parts_prefix_le(c, e, k + 1);
        lemma_equal_share_bounds(c, e, k);
    }
}

proof fn lemma_sum_parts_nonneg(c: usize, e: usize, k: int)
    requires
        e > 0,
        k <= e,
    ensures
        sum_parts(c, e, k) >= 0,
    decreases k,
{
    if k > 0 {
        lemma_sum_parts_nonneg(c, e, k - 1);
        lemma_equal_share_bounds(c, e, k - 1);
    }
}

/// The sum of the first `k` equal shares.
pub open spec fn sum_parts(c: usize, e: usize, k: int) -> int
    decreases k,
{
    if k <= 0 {
        0
    } else {
        sum_parts(c, e, k - 1) + equal_share(c, e, k - 1)
    }
}

proof fn lemma_sum_parts(c: usize, e: usize, k: int)
    requires
        e > 0,
        0 <= k <= e,
    ensures
        sum_parts(c, e, k) == k * (c as int / e as int) + (if k <= c as int % e as int {
            k
        } else {
            c as int % e as int
        }),
    decreases k,
{
    let d = c as int / e as int;
    let m = c as int % e as int;
    assert(0 <= c as int % e as int) by (nonlinear_arith)
        requires
            e > 0,
    ;
    assert((c as int % e as int) < e as int) by (nonlinear_arith)
        requires
            e > 0,
    ;
    if k > 0 {
        lemma_sum_parts(c, e, k - 1);
        assert(k * d == (k - 1) * d + d) by (nonlinear_arith);
        assert(sum_parts(c, e, k) == sum_parts(c, e, k - 1) + equal_share(c, e, k - 1));
        if k <= m {
            assert(k - 1 <= m);
            assert(sum_parts(c, e, k - 1) == (k - 1) * d + (k - 1));
            assert(equal_share(c, e, k - 1) == d + 1);
            assert(sum_parts(c, e, k) == k * d + k);
        } else {
            assert(!(k - 1 < m));
            assert(equal_share(c, e, k - 1) == d);
            if k - 1 <= m {
                assert(sum_parts(c, e, k - 1) == (k - 1) * d + (k - 1));
                assert(k - 1 == m);
                assert(sum_parts(c, e, k) == k * d + m);
            } else {
                assert(sum_parts(c, e, k - 1) == (k - 1) * d + m);
                assert(sum_parts(c, e, k) == k * d + m);
            }
        }
    } else {
        assert(sum_parts(c, e, 0) == 0);
    }
    assert(sum_parts(c, e, k) == k * d + (if k <= m {
        k
    } else {
        m
    }));
}


} // verus!
