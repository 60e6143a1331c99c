//! Least-recently-used bookkeeping. Entries pair a page (or any integer
//! value) with the logical time of its last use; the tracker keeps them
//! ordered by time, oldest first, with every tracked value appearing at
//! most once. Times never tie because each engine draws them from a
//! strictly increasing counter.

use vstd::prelude::*;

verus! {

/// One tracked value together with the logical time of its last use.
#[derive(Clone, Copy, Debug)]
pub struct LRUUse {
    time: usize,
    value: usize,
}

impl LRUUse {
    /// The recorded time, for use in specifications.
    pub closed spec fn timev(&self) -> usize {
        self.time
    }

    /// The recorded value, for use in specifications.
    pub closed spec fn valv(&self) -> usize {
        self.value
    }

    fn new(time: usize, value: usize) -> (r: Self)
        ensures
            r.timev() == time,
            r.valv() == value,
    {
        LRUUse { time, value }
    }

    pub fn get_val(&self) -> (r: usize)
        ensures
            r == self.valv(),
    {
        self.value
    }

    pub fn get_time(&self) -> (r: usize)
        ensures
            r == self.timev(),
    {
        self.time
    }
}

/// Entries are ordered by strictly increasing use time.
pub open spec fn ordered(s: Seq<LRUUse>) -> bool {
    forall|i: int, j: int| 0 <= i < j < s.len() ==> s[i].timev() < s[j].timev()
}

/// No value is tracked twice.
pub open spec fn distinct_vals(s: Seq<LRUUse>) -> bool {
    forall|i: int, j: int| 0 <= i < j < s.len() ==> s[i].valv() != s[j].valv()
}

/// Some entry of `s` tracks `v`.
pub open spec fn seq_has_val(s: Seq<LRUUse>, v: usize) -> bool {
    exists|k: int| 0 <= k < s.len() && s[k].valv() == v
}

/// Some entry of `s` carries time `t`.
pub open spec fn seq_has_time(s: Seq<LRUUse>, t: usize) -> bool {
    exists|k: int| 0 <= k < s.len() && s[k].timev() == t
}

/// `s` holds the exact entry `(t, v)`.
pub open spec fn seq_has_entry(s: Seq<LRUUse>, t: usize, v: usize) -> bool {
    exists|k: int| 0 <= k < s.len() && s[k].timev() == t && s[k].valv() == v
}

/// An ordered tracker of the last use time of each value, supporting
/// "mark used", "pop the least recently used" and removal of a specific
/// entry.
#[derive(Debug)]
pub struct Lru {
    entries: Vec<LRUUse>,
}

impl Lru {
    /// The tracked entries, oldest first.
    pub closed spec fn view(&self) -> Seq<LRUUse> {
        self.entries@
    }

    /// Well-formed: ordered by time and without repeated values.
    pub open spec fn wf(&self) -> bool {
        ordered(self@) && distinct_vals(self@)
    }

    pub open spec fn has_val(&self, v: usize) -> bool {
        seq_has_val(self@, v)
    }

    pub open spec fn has_entry(&self, t: usize, v: usize) -> bool {
        seq_has_entry(self@, t, v)
    }

    pub fn new() -> (r: Self)
        ensures
            r.wf(),
            r@.len() == 0,
            forall|v: usize| !r.has_val(v),
    {
        Lru { entries: Vec::new() }
    }

    pub fn len(&self) -> (r: usize)
        ensures
            r == self@.len(),
    {
        self.entries.len()
    }

    /// Removes the entry at a known index, keeping order and distinctness.
    fn remove_at(&mut self, k: usize)
        requires
            old(self).wf(),
            k < old(self)@.len(),
        ensures
            final(self).wf(),
            final(self)@ == old(self)@.remove(k as int),
            final(self)@.len() == old(self)@.len() - 1,
            forall|t: usize, v: usize|
                seq_has_entry(final(self)@, t, v) <==> exists|i: int|
                    0 <= i < old(self)@.len() && i != k && old(self)@[i].timev() == t
                        && old(self)@[i].valv() == v,
    {
        let ghost pre = self.entries@;
        self.entries.remove(k);
        assert forall|i: int, j: int| 0 <= i < j < self@.len() implies self@[i].timev()
            < self@[j].timev() && self@[i].valv() != self@[j].valv() by {
            let pi: int = if i < k { i } else { i + 1 };
            let pj: int = if j < k { j } else { j + 1 };
            assert(self@[i] == pre[pi]);
            assert(self@[j] == pre[pj]);
        }
        assert forall|t: usize, v: usize| seq_has_entry(self@, t, v) implies exists|i: int|
            0 <= i < pre.len() && i != k && pre[i].timev() == t && pre[i].valv() == v by {
            let m = choose|m: int| 0 <= m < self@.len() && self@[m].timev() == t && self@[m].valv() == v;
            let pm: int = if m < k { m } else { m + 1 };
            assert(self@[m] == pre[pm]);
        }
        assert forall|t: usize, v: usize| exists|i: int|
            0 <= i < pre.len() && i != k && pre[i].timev() == t && pre[i].valv()
                == v implies seq_has_entry(self@, t, v) by {
            let i = choose|i: int| 0 <= i < pre.len() && i != k && pre[i].timev() == t
                && pre[i].valv() == v;
            let m: int = if i < k { i } else { i - 1 };
            assert(self@[m] == pre[i]);
        }
    }

    /// Finds the index of the entry tracking `value`, if any.
    fn find_val(&self, value: usize) -> (r: Option<usize>)
        ensures
            match r {
                Option::None => !seq_has_val(self@, value),
                Option::Some(k) => k < self@.len() && self@[k as int].valv() == value,
            },
    {
        let mut k: usize = 0;
        while k < self.entries.len()
            invariant
                0 <= k <= self@.len(),
                forall|i: int| 0 <= i < k ==> self@[i].valv() != value,
            decreases self@.len() - k,
        {
            if self.entries[k].get_val() == value {
                return Some(k);
            }
            k += 1;
        }
        None
    }

    /// Finds the index of the entry carrying time `t`, if any.
    fn find_time(&self, t: usize) -> (r: Option<usize>)
        ensures
            match r {
                Option::None => !seq_has_time(self@, t),
                Option::Some(k) => k < self@.len() && self@[k as int].timev() == t,
            },
    {
        let mut k: usize = 0;
        while k < self.entries.len()
            invariant
                0 <= k <= self@.len(),
                forall|i: int| 0 <= i < k ==> self@[i].timev() != t,
            decreases self@.len() - k,
        {
            if self.entries[k].get_time() == t {
                return Some(k);
            }
            k += 1;
        }
        None
    }

    /// Records or refreshes the last use of `value`. The time must not
    /// collide with the recorded time of any other value; engines guarantee
    /// this by drawing times from a strictly increasing counter.
    pub fn use_val(&mut self, value: usize, time: usize)
        requires
            old(self).wf(),
            forall|k: int|
                0 <= k < old(self)@.len() && old(self)@[k].valv() != value ==> old(
                    self,
                )@[k].timev() != time,
        ensures
            final(self).wf(),
            forall|t: usize, v: usize|
                final(self).has_entry(t, v) <==> ((old(self).has_entry(t, v) && v != value) || (t
                    == time && v == value)),
            forall|v: usize| final(self).has_val(v) <==> (old(self).has_val(v) || v == value),
            final(self)@.len() == old(self)@.len() + (if old(self).has_val(value) {
                0int
            } else {
                1int
            }),
    {
        let ghost pre = self.entries@;
        let found = self.find_val(value);
        let ghost kdrop: int = match found {
            Option::Some(k) => k as int,
            Option::None => -1,
        };
        if let Some(k) = found {
            self.remove_at(k);
            assert(old(self).has_val(value)) by {
                assert(pre[kdrop].valv() == value);
            }
        } else {
            assert(!old(self).has_val(value));
        }
        let ghost mid = self.entries@;
        // After the removal no entry tracks `value` and none carries `time`.
        assert(!seq_has_val(mid, value)) by {
            if seq_has_val(mid, value) {
                let m = choose|m: int| 0 <= m < mid.len() && mid[m].valv() == value;
                if kdrop >= 0 {
                    assert(seq_has_entry(mid, mid[m].timev(), value));
                    let i = choose|i: int|
                        0 <= i < pre.len() && i != kdrop && pre[i].timev() == mid[m].timev()
                            && pre[i].valv() == value;
                    assert(pre[kdrop].valv() == value);
                }
            }
        }
        assert forall|i: int| 0 <= i < mid.len() implies mid[i].timev() != time by {
            if kdrop >= 0 {
                assert(seq_has_entry(mid, mid[i].timev(), mid[i].valv()));
                let p = choose|p: int|
                    0 <= p < pre.len() && p != kdrop && pre[p].timev() == mid[i].timev()
                        && pre[p].valv() == mid[i].valv();
                assert(pre[kdrop].valv() == value);
                assert(mid[i].valv() != value);
            } else {
                assert(mid[i].valv() != value);
            }
        }
        // Insert the fresh entry at its ordered position.
        let mut idx: usize = 0;
        while idx < self.entries.len() && self.entries[idx].get_time() < time
            invariant
                0 <= idx <= self@.len(),
                self@ == mid,
                forall|i: int| 0 <= i < idx ==> self@[i].timev() < time,
                ordered(mid),
                distinct_vals(mid),
            decreases self@.len() - idx,
        {
            idx += 1;
        }
        assert(forall|i: int| idx <= i < mid.len() ==> mid[i].timev() >= time);
        self.entries.insert(idx, LRUUse::new(time, value));
        assert(self@ == mid.insert(idx as int, LRUUse { time, value }));
        assert forall|i: int, j: int| 0 <= i < j < self@.len() implies self@[i].timev()
            < self@[j].timev() && self@[i].valv() != self@[j].valv() by {
            if i != idx && j != idx {
                let pi: int = if i < idx {
                    i
                } else {
                    i - 1
                };
                let pj: int = if j < idx {
                    j
                } else {
                    j - 1
                };
                assert(self@[i] == mid[pi]);
                assert(self@[j] == mid[pj]);
            } else if i == idx {
                assert(self@[j] == mid[j - 1]);
            } else {
                assert(self@[i] == mid[i]);
            }
        }
        assert forall|t: usize, v: usize| self.has_entry(t, v) implies ((old(self).has_entry(t, v)
            && v != value) || (t == time && v == value)) by {
            let m = choose|m: int|
                0 <= m < self@.len() && self@[m].timev() == t && self@[m].valv() == v;
            if m != idx {
                let mm: int = if m < idx {
                    m
                } else {
                    m - 1
                };
                assert(self@[m] == mid[mm]);
                assert(seq_has_entry(mid, t, v));
                if kdrop >= 0 {
                    let p = choose|p: int|
                        0 <= p < pre.len() && p != kdrop && pre[p].timev() == t && pre[p].valv()
                            == v;
                    assert(pre[kdrop].valv() == value);
                } else {
                    assert(mid == pre);
                }
            }
        }
        assert forall|t: usize, v: usize| ((old(self).has_entry(t, v) && v != value) || (t == time
            && v == value)) implies self.has_entry(t, v) by {
            if old(self).has_entry(t, v) && v != value {
                let p = choose|p: int|
                    0 <= p < pre.len() && pre[p].timev() == t && pre[p].valv() == v;
                let mm: int = if kdrop >= 0 {
                    assert(pre[kdrop].valv() == value);
                    assert(p != kdrop);
                    assert(seq_has_entry(mid, t, v)) by {
                        assert(exists|i: int|
                            0 <= i < pre.len() && i != kdrop && pre[i].timev() == t && pre[i].valv()
                                == v);
                    }
                    choose|mm: int| 0 <= mm < mid.len() && mid[mm].timev() == t && mid[mm].valv() == v
                } else {
                    p
                };
                assert(mid[mm].timev() == t && mid[mm].valv() == v);
                let m: int = if mm < idx {
                    mm
                } else {
                    mm + 1
                };
                assert(self@[m] == mid[mm]);
            } else {
                assert(self@[idx as int].timev() == time && self@[idx as int].valv() == value);
            }
        }
        assert forall|v: usize| self.has_val(v) <==> (old(self).has_val(v) || v == value) by {
            if self.has_val(v) {
                let m = choose|m: int| 0 <= m < self@.len() && self@[m].valv() == v;
                assert(self.has_entry(self@[m].timev(), v));
            }
            if old(self).has_val(v) || v == value {
                if v == value {
                    assert(self.has_entry(time, value));
                } else {
                    let p = choose|p: int| 0 <= p < pre.len() && pre[p].valv() == v;
                    assert(old(self).has_entry(pre[p].timev(), v));
                    assert(self.has_entry(pre[p].timev(), v));
                }
            }
        }
    }

    /// Like `use_val`, after checking that the time collides with no
    /// other value's recorded time; reports whether it went through.
    pub fn use_val_checked(&mut self, value: usize, time: usize) -> (r: bool)
        requires
            old(self).wf(),
        ensures
            final(self).wf(),
            !r ==> *final(self) == *old(self),
            r ==> {
                &&& forall|t: usize, v: usize|
                    final(self).has_entry(t, v) <==> ((old(self).has_entry(t, v) && v != value) || (
                    t == time && v == value))
                &&& forall|v: usize| final(self).has_val(v) <==> (old(self).has_val(v) || v == value)
                &&& final(self)@.len() == old(self)@.len() + (if old(self).has_val(value) {
                    0int
                } else {
                    1int
                })
            },
    {
        let mut k: usize = 0;
        while k < self.entries.len()
            invariant
                old(self).wf(),
                *self == *old(self),
                0 <= k <= self@.len(),
                forall|i: int|
                    0 <= i < k ==> self@[i].valv() == value || self@[i].timev() != time,
            decreases self@.len() - k,
        {
            if self.entries[k].get_time() == time && self.entries[k].get_val() != value {
                return false;
            }
            k += 1;
        }
        self.use_val(value, time);
        true
    }

    /// Removes and returns the least-recently-used value, oldest time first.
    pub fn pop_lru(&mut self) -> (r: Option<usize>)
        requires
            old(self).wf(),
        ensures
            final(self).wf(),
            old(self)@.len() == 0 ==> r is None && final(self)@ == old(self)@,
            old(self)@.len() > 0 ==> r == Some(old(self)@[0].valv()) && final(self)@ == old(
                self,
            )@.subrange(1, old(self)@.len() as int),
    {
        if self.entries.len() == 0 {
            return None;
        }
        let e = self.entries.remove(0);
        assert(self@ == old(self)@.remove(0));
        assert(self@ =~= old(self)@.subrange(1, old(self)@.len() as int));
        assert forall|i: int, j: int| 0 <= i < j < self@.len() implies self@[i].timev()
            < self@[j].timev() && self@[i].valv() != self@[j].valv() by {
            assert(self@[i] == old(self)@[i + 1]);
            assert(self@[j] == old(self)@[j + 1]);
        }
        Some(e.get_val())
    }

    /// The tracked entries in least-recently-used order.
    pub fn lru_iter(&self) -> (r: &Vec<LRUUse>)
        ensures
            r@ == self@,
    {
        &self.entries
    }

    /// Removes the entry carrying the given use time, as obtained from
    /// `lru_iter`; other entries are untouched.
    pub fn remove_lru(&mut self, value: &LRUUse)
        requires
            old(self).wf(),
        ensures
            final(self).wf(),
            forall|t: usize, v: usize|
                final(self).has_entry(t, v) <==> (old(self).has_entry(t, v) && t != value.timev()),
            final(self)@.len() == old(self)@.len() - (if seq_has_time(
                old(self)@,
                value.timev(),
            ) {
                1int
            } else {
                0int
            }),
    {
        let ghost pre = self.entries@;
        let t0 = value.get_time();
        match self.find_time(t0) {
            Option::Some(k) => {
                self.remove_at(k);
                assert(seq_has_time(pre, t0)) by {
                    assert(pre[k as int].timev() == t0);
                }
                assert forall|t: usize, v: usize| self.has_entry(t, v) <==> (old(
                    self,
                ).has_entry(t, v) && t != value.timev()) by {
                    if self.has_entry(t, v) {
                        let i = choose|i: int|
                            0 <= i < pre.len() && i != k && pre[i].timev() == t && pre[i].valv()
                                == v;
                        assert(pre[k as int].timev() == t0);
                    }
                    if old(self).has_entry(t, v) && t != value.timev() {
                        let i = choose|i: int|
                            0 <= i < pre.len() && pre[i].timev() == t && pre[i].valv() == v;
                        assert(i != k);
                    }
                }
            },
            Option::None => {
                assert forall|t: usize, v: usize| old(self).has_entry(t, v) implies t
                    != value.timev() by {
                    let i = choose|i: int|
                        0 <= i < pre.len() && pre[i].timev() == t && pre[i].valv() == v;
                }
            },
        }
    }

    /// Removes the entry tracking `value`, whatever its recorded time.
    pub fn remove_val(&mut self, value: usize)
        requires
            old(self).wf(),
        ensures
            final(self).wf(),
            forall|t: usize, v: usize|
                final(self).has_entry(t, v) <==> (old(self).has_entry(t, v) && v != value),
            forall|v: usize| v != value ==> (final(self).has_val(v) <==> old(self).has_val(v)),
            !final(self).has_val(value),
            final(self)@.len() == old(self)@.len() - (if old(self).has_val(value) {
                1int
            } else {
                0int
            }),
    {
        let ghost pre = self.entries@;
        match self.find_val(value) {
            Option::Some(k) => {
                self.remove_at(k);
                assert(old(self).has_val(value)) by {
                    assert(pre[k as int].valv() == value);
                }
                assert forall|t: usize, v: usize| self.has_entry(t, v) <==> (old(
                    self,
                ).has_entry(t, v) && v != value) by {
                    if self.has_entry(t, v) {
                        let i = choose|i: int|
                            0 <= i < pre.len() && i != k && pre[i].timev() == t && pre[i].valv()
                                == v;
                        assert(pre[k as int].valv() == value);
                    }
                    if old(self).has_entry(t, v) && v != value {
                        let i = choose|i: int|
                            0 <= i < pre.len() && pre[i].timev() == t && pre[i].valv() == v;
                        assert(i != k);
                    }
                }
                assert forall|v: usize| v != value implies (self.has_val(v) <==> old(
                    self,
                ).has_val(v)) by {
                    if self.has_val(v) {
                        let m = choose|m: int| 0 <= m < self@.len() && self@[m].valv() == v;
                        assert(self.has_entry(self@[m].timev(), v));
                    }
                    if old(self).has_val(v) {
                        let p = choose|p: int| 0 <= p < pre.len() && pre[p].valv() == v;
                        assert(old(self).has_entry(pre[p].timev(), v));
                        assert(self.has_entry(pre[p].timev(), v));
                    }
                }
                assert(!self.has_val(value)) by {
                    if self.has_val(value) {
                        let m = choose|m: int| 0 <= m < self@.len() && self@[m].valv() == value;
                        assert(self.has_entry(self@[m].timev(), value));
                    }
                }
            },
            Option::None => {
                assert(!old(self).has_val(value));
                assert forall|t: usize, v: usize| old(self).has_entry(t, v) implies v != value by {
                    let i = choose|i: int|
                        0 <= i < pre.len() && pre[i].timev() == t && pre[i].valv() == v;
                }
            },
        }
    }
}

} // verus!
