//! The arrival list of the disk simulation — a queue of request
//! descriptions, each a waiting time, a target track, and an optional
//! deadline — and the deadline-ordered wrapper the real-time schedulers
//! sort requests by.

use vstd::prelude::*;

use crate::task::Task;

verus! {

/// Pending request arrivals, in order.
#[derive(Debug, Clone)]
pub struct Tasks {
    process_list: Vec<(usize, usize, Option<usize>)>,
}

impl Tasks {
    /// The queued arrivals, next first.
    pub closed spec fn view(&self) -> Seq<(usize, usize, Option<usize>)> {
        self.process_list@
    }

    pub fn from_list(value: Vec<(usize, usize, Option<usize>)>) -> (r: Tasks)
        ensures
            r@ == value@,
    {
        Tasks { process_list: value }
    }

    pub fn len(&self) -> (r: usize)
        ensures
            r == self@.len(),
    {
        self.process_list.len()
    }

    /// Pops the next arrival.
    pub fn next(&mut self) -> (r: Option<(usize, usize, Option<usize>)>)
        ensures
            old(self)@.len() == 0 ==> r is None && final(self)@ == old(self)@,
            old(self)@.len() > 0 ==> (r matches Some(v) && v == old(self)@[0]) && final(self)@
                == old(self)@.subrange(1, old(self)@.len() as int),
    {
        if self.process_list.len() == 0 {
            return None;
        }
        let v = self.process_list.remove(0);
        proof {
            assert(self@ =~= old(self)@.subrange(1, old(self)@.len() as int));
        }
        Some(v)
    }
}

/// A request carried by the earliest-deadline schedulers, compared by
/// deadline and then by identifier.
#[derive(Debug, Clone)]
pub struct TaskWrapper(Task);

impl TaskWrapper {
    /// The wrapped request, for use in specifications.
    pub closed spec fn task_spec(&self) -> Task {
        self.0
    }

    pub fn new(val: Task) -> (r: TaskWrapper)
        ensures
            r.task_spec() == val,
    {
        TaskWrapper(val)
    }

    pub fn get(&self) -> (r: &Task)
        ensures
            *r == self.task_spec(),
    {
        &self.0
    }

    /// Whether this request sorts before `other`: the earlier deadline
    /// wins, identifiers break ties. Requests without deadlines are not
    /// carried by the real-time schedulers.
    pub fn sorts_before(&self, other: &TaskWrapper) -> (r: bool)
        requires
            self.task_spec().realtime_spec() is Some,
            other.task_spec().realtime_spec() is Some,
        ensures
            r == (self.task_spec().realtime_spec()->0 < other.task_spec().realtime_spec()->0 || (
            self.task_spec().realtime_spec()->0 == other.task_spec().realtime_spec()->0
                && self.task_spec().id_spec() < other.task_spec().id_spec())),
    {
        let a = match self.0.get_realtime() {
            Option::Some(v) => v,
            Option::None => {
                proof {
                    assert(false);
                }
                0
            },
        };
        let b = match other.0.get_realtime() {
            Option::Some(v) => v,
            Option::None => {
                proof {
                    assert(false);
                }
                0
            },
        };
        a < b || (a == b && self.0.get_id() < other.0.get_id())
    }
}

} // verus!
