//! A circular list with a cursor, used by the round-robin scheduler: new
//! elements join right behind the current one, the cursor walks forward
//! and backward around the ring, and erasing removes the current element
//! and steps the cursor back. Held as a vector in cursor order — the
//! current element first — so walking rotates the vector.

use vstd::prelude::*;

verus! {

/// One element of the ring.
#[derive(Debug)]
pub struct ListNode<T> {
    value: T,
}

impl<T> ListNode<T> {
    /// The held value, for use in specifications.
    pub closed spec fn value_spec(&self) -> T {
        self.value
    }

    fn new(value: T) -> (r: ListNode<T>)
        ensures
            r.value_spec() == value,
    {
        ListNode { value }
    }

    pub fn get(&self) -> (r: &T)
        ensures
            *r == self.value_spec(),
    {
        &self.value
    }

    pub fn get_mut(&mut self) -> (r: &mut T)
        ensures
            *r == old(self).value_spec(),
            final(self).value_spec() == *final(r),
    {
        &mut self.value
    }
}

/// The ring itself, viewed as the sequence of values starting at the
/// cursor and following the forward direction.
#[derive(Debug)]
pub struct LoopListIter<T> {
    nodes: Vec<ListNode<T>>,
}

impl<T> LoopListIter<T> {
    /// The values in cursor order, current first.
    pub closed spec fn view(&self) -> Seq<T> {
        self.nodes@.map_values(|n: ListNode<T>| n.value_spec())
    }

    pub fn new() -> (r: LoopListIter<T>)
        ensures
            r@.len() == 0,
    {
        LoopListIter { nodes: Vec::new() }
    }

    pub fn is_empty(&self) -> (r: bool)
        ensures
            r == (self@.len() == 0),
    {
        self.nodes.len() == 0
    }

    /// Inserts a value right behind the current element; into an empty
    /// ring it becomes the current element.
    pub fn add(&mut self, val: T)
        ensures
            final(self)@.len() == old(self)@.len() + 1,
            old(self)@.len() == 0 ==> final(self)@ =~= seq![val],
            old(self)@.len() > 0 ==> final(self)@ =~= seq![old(self)@[0], val] + old(
                self,
            )@.subrange(1, old(self)@.len() as int),
    {
        if self.nodes.len() == 0 {
            self.nodes.push(ListNode::new(val));
            assert(self@ =~= seq![val]);
        } else {
            self.nodes.insert(1, ListNode::new(val));
            assert(self@ =~= seq![old(self)@[0], val] + old(self)@.subrange(
                1,
                old(self)@.len() as int,
            ));
        }
    }

    /// Removes and returns the current value; the previous element
    /// becomes current.
    pub fn erase(&mut self) -> (r: Option<T>)
        ensures
            old(self)@.len() == 0 ==> r is None && final(self)@ == old(self)@,
            old(self)@.len() == 1 ==> (r matches Some(v) && v == old(self)@[0]) && final(self)@.len() == 0,
            old(self)@.len() > 1 ==> (r matches Some(v) && v == old(self)@[0]) && final(self)@
                =~= seq![old(self)@[old(self)@.len() - 1]] + old(self)@.subrange(
                1,
                old(self)@.len() - 1,
            ),
    {
        if self.nodes.len() == 0 {
            return None;
        }
        let node = self.nodes.remove(0);
        if self.nodes.len() > 0 {
            let last = match self.nodes.pop() {
                Option::Some(n) => n,
                Option::None => {
                    proof {
                        assert(false);
                    }
                    return None;
                },
            };
            self.nodes.insert(0, last);
            proof {
                assert(self@ =~= seq![old(self)@[old(self)@.len() - 1]] + old(self)@.subrange(
                    1,
                    old(self)@.len() - 1,
                ));
            }
        }
        let ListNode { value } = node;
        Some(value)
    }

    pub fn len(&self) -> (r: usize)
        ensures
            r == self@.len(),
    {
        self.nodes.len()
    }

    /// Steps the cursor forward: the next element becomes current.
    pub fn next(&mut self)
        ensures
            old(self)@.len() == 0 ==> final(self)@ == old(self)@,
            old(self)@.len() > 0 ==> final(self)@ =~= old(self)@.subrange(
                1,
                old(self)@.len() as int,
            ).push(old(self)@[0]),
    {
        if self.nodes.len() > 0 {
            let first = self.nodes.remove(0);
            self.nodes.push(first);
            proof {
                assert(self@ =~= old(self)@.subrange(1, old(self)@.len() as int).push(
                    old(self)@[0],
                ));
            }
        }
    }

    /// Steps the cursor backward: the previous element becomes current.
    pub fn prev(&mut self)
        ensures
            old(self)@.len() == 0 ==> final(self)@ == old(self)@,
            old(self)@.len() > 0 ==> final(self)@ =~= seq![old(self)@[old(self)@.len() - 1]]
                + old(self)@.subrange(0, old(self)@.len() - 1),
    {
        if self.nodes.len() > 0 {
            let last = match self.nodes.pop() {
                Option::Some(n) => n,
                Option::None => {
                    proof {
                        assert(false);
                    }
                    return ;
                },
            };
            self.nodes.insert(0, last);
            proof {
                assert(self@ =~= seq![old(self)@[old(self)@.len() - 1]] + old(self)@.subrange(
                    0,
                    old(self)@.len() - 1,
                ));
            }
        }
    }

    /// The current element, if the ring is not empty.
    pub fn get(&self) -> (r: Option<&ListNode<T>>)
        ensures
            self@.len() == 0 ==> r is None,
            self@.len() > 0 ==> (r matches Some(n) && n.value_spec() == self@[0]),
    {
        if self.nodes.len() == 0 {
            None
        } else {
            Some(&self.nodes[0])
        }
    }
}

} // verus!
