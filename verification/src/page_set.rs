//! The resident-page pool: a set of page identifiers backed by a vector
//! without duplicates. The pool is the shared state every allocation policy
//! mutates; its cardinality is exactly the length of the backing vector,
//! which makes the global bound `len() <= memory_size` a plain arithmetic
//! fact for the policy engines.

use vstd::prelude::*;

verus! {

/// A finite set of page identifiers with exact cardinality.
pub struct PageSet {
    items: Vec<usize>,
}

impl PageSet {
    /// The pages currently in the set, as a sequence without duplicates.
    pub closed spec fn view(&self) -> Seq<usize> {
        self.items@
    }

    /// Well-formed: the backing vector holds no duplicates.
    pub closed spec fn wf(&self) -> bool {
        forall|i: int, j: int|
            0 <= i < j < self.items@.len() ==> self.items@[i] != self.items@[j]
    }

    /// Membership of a page in the set.
    pub open spec fn has(&self, page: usize) -> bool {
        self@.contains(page)
    }

    pub fn new() -> (r: Self)
        ensures
            r.wf(),
            r@.len() == 0,
            forall|p: usize| !r.has(p),
    {
        let r = PageSet { items: Vec::new() };
        assert(forall|p: usize| !r@.contains(p));
        r
    }

    pub fn len(&self) -> (r: usize)
        ensures
            r == self@.len(),
    {
        self.items.len()
    }

    pub fn contains(&self, page: usize) -> (r: bool)
        ensures
            r == self.has(page),
    {
        let mut k: usize = 0;
        while k < self.items.len()
            invariant
                0 <= k <= self.items@.len(),
                forall|i: int| 0 <= i < k ==> self.items@[i] != page,
            decreases self.items@.len() - k,
        {
            if self.items[k] == page {
                return true;
            }
            k += 1;
        }
        false
    }

    /// Adds a page that is not yet in the set.
    pub fn insert(&mut self, page: usize)
        requires
            old(self).wf(),
            !old(self).has(page),
        ensures
            final(self).wf(),
            final(self)@ == old(self)@.push(page),
            final(self)@.len() == old(self)@.len() + 1,
            forall|p: usize| final(self).has(p) <==> (old(self).has(p) || p == page),
    {
        self.items.push(page);
        assert forall|p: usize| self.has(p) <==> (old(self).has(p) || p == page) by {
            assert(self@ == old(self)@.push(page));
            if old(self).has(p) || p == page {
                if p == page {
                    assert(self@[self@.len() - 1] == page);
                } else {
                    let i = choose|i: int| 0 <= i < old(self)@.len() && old(self)@[i] == p;
                    assert(self@[i] == p);
                }
            }
        }
    }

    /// Removes a page if present; reports whether it was there.
    pub fn remove(&mut self, page: usize) -> (r: bool)
        requires
            old(self).wf(),
        ensures
            final(self).wf(),
            r == old(self).has(page),
            !final(self).has(page),
            forall|p: usize| p != page ==> (final(self).has(p) <==> old(self).has(p)),
            final(self)@.len() == old(self)@.len() - (if old(self).has(page) { 1int } else { 0int }),
    {
        let mut k: usize = 0;
        while k < self.items.len()
            invariant
                0 <= k <= self.items@.len(),
                *self == *old(self),
                old(self).wf(),
                forall|i: int| 0 <= i < k ==> self.items@[i] != page,
            decreases self.items@.len() - k,
        {
            if self.items[k] == page {
                let ghost pre = self.items@;
                self.items.remove(k);
                assert(self@ == pre.remove(k as int));
                assert forall|p: usize| #[trigger] self.has(p) implies pre.contains(p) by {
                    let i = choose|i: int| 0 <= i < self@.len() && self@[i] == p;
                    if i < k {
                        assert(pre[i] == p);
                    } else {
                        assert(pre[i + 1] == p);
                    }
                }
                assert forall|p: usize| p != page && pre.contains(p) implies self.has(p) by {
                    let i = choose|i: int| 0 <= i < pre.len() && pre[i] == p;
                    if i < k {
                        assert(self@[i] == p);
                    } else {
                        assert(i != k);
                        assert(self@[i - 1] == p);
                    }
                }
                assert forall|i: int, j: int| 0 <= i < j < self@.len() implies self@[i]
                    != self@[j] by {
                    let pi: int = if i < k { i } else { i + 1 };
                    let pj: int = if j < k { j } else { j + 1 };
                    assert(self@[i] == pre[pi]);
                    assert(self@[j] == pre[pj]);
                }
                assert(!self.has(page)) by {
                    if self.has(page) {
                        let i = choose|i: int| 0 <= i < self@.len() && self@[i] == page;
                        if i < k {
                            assert(pre[i] == page);
                        } else {
                            assert(pre[i + 1] == page);
                            assert(pre[k as int] == page);
                        }
                    }
                }
                return true;
            }
            k += 1;
        }
        assert(!old(self).has(page));
        return false;
    }
}

} // verus!
