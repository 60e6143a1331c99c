//! The arrival list of the CPU simulation: a queue of process
//! descriptions, each a waiting time before arrival, a running time, and
//! an optional lifetime.

use vstd::prelude::*;

verus! {

/// Pending process arrivals, in order.
#[derive(Debug, Clone)]
pub struct Processes {
    process_list: Vec<(u32, u32, Option<u32>)>,
}

impl Processes {
    /// The queued arrivals, next first.
    pub closed spec fn view(&self) -> Seq<(u32, u32, Option<u32>)> {
        self.process_list@
    }

    pub fn from_list(value: Vec<(u32, u32, Option<u32>)>) -> (r: Processes)
        ensures
            r@ == value@,
    {
        Processes { process_list: value }
    }

    pub fn len(&self) -> (r: usize)
        ensures
            r == self@.len(),
    {
        self.process_list.len()
    }

    /// Pops the next arrival.
    pub fn next(&mut self) -> (r: Option<(u32, u32, Option<u32>)>)
        ensures
            old(self)@.len() == 0 ==> r is None && final(self)@ == old(self)@,
            old(self)@.len() > 0 ==> (r matches Some(v) && v == old(self)@[0]) && final(self)@
                == old(self)@.subrange(1, old(self)@.len() as int),
    {
        if self.process_list.len() == 0 {
            return None;
        }
        let v = self.process_list.remove(0);
        proof {
            assert(self@ =~= old(self)@.subrange(1, old(self)@.len() as int));
        }
        Some(v)
    }
}

} // verus!
