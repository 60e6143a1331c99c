//! A disk request: a target track position, a creation time, an optional
//! real-time deadline, and its completion state. A request finishes
//! successfully when the head reaches it in time, and starves when its
//! deadline has already passed or no scheduler will ever serve it.

use vstd::prelude::*;

verus! {

/// The completion state of a request: still waiting, missed, or served
/// at the recorded time.
#[derive(Debug, Clone, Copy, PartialEq, Eq, Structural)]
pub enum State {
    UNFINISHED,
    STARVED,
    SUCCESSFUL(usize),
}

/// One disk request.
#[derive(Debug, Clone)]
pub struct Task {
    id: usize,
    position: usize,
    creation_time: usize,
    realtime: Option<usize>,
    done: State,
}

impl Task {
    pub closed spec fn id_spec(&self) -> usize {
        self.id
    }

    pub closed spec fn position_spec(&self) -> usize {
        self.position
    }

    pub closed spec fn creation_spec(&self) -> usize {
        self.creation_time
    }

    pub closed spec fn realtime_spec(&self) -> Option<usize> {
        self.realtime
    }

    pub closed spec fn state_spec(&self) -> State {
        self.done
    }

    /// A fresh request is unfinished.
    pub fn new(id: usize, position: usize, creation_time: usize, realtime: Option<usize>) -> (r:
        Task)
        ensures
            r.id_spec() == id,
            r.position_spec() == position,
            r.creation_spec() == creation_time,
            r.realtime_spec() == realtime,
            r.state_spec() == State::UNFINISHED,
    {
        Task { id, position, creation_time, realtime, done: State::UNFINISHED }
    }

    pub fn get_id(&self) -> (r: usize)
        ensures
            r == self.id_spec(),
    {
        self.id
    }

    pub fn get_creation_time(&self) -> (r: usize)
        ensures
            r == self.creation_spec(),
    {
        self.creation_time
    }

    pub fn get_position(&self) -> (r: usize)
        ensures
            r == self.position_spec(),
    {
        self.position
    }

    pub fn is_realtime(&self) -> (r: bool)
        ensures
            r == (self.realtime_spec() is Some),
    {
        self.realtime.is_some()
    }

    pub fn get_realtime(&self) -> (r: Option<usize>)
        ensures
            r == self.realtime_spec(),
    {
        self.realtime
    }

    pub fn is_done(&self) -> (r: bool)
        ensures
            r == (self.state_spec() != State::UNFINISHED),
    {
        match self.done {
            State::UNFINISHED => false,
            State::STARVED => true,
            State::SUCCESSFUL(_) => true,
        }
    }

    pub fn get_state(&self) -> (r: State)
        ensures
            r == self.state_spec(),
    {
        self.done.clone()
    }

    /// Settles a waiting request at `current_time`: success while its
    /// deadline (creation time plus lifetime) has not passed, starvation
    /// otherwise; a request without a deadline always succeeds. Returns
    /// whether it succeeded, or nothing if it was settled before.
    pub fn finalize(&mut self, current_time: usize) -> (r: Option<bool>)
        ensures
            old(self).state_spec() != State::UNFINISHED ==> r is None && *final(self) == *old(
                self,
            ),
            old(self).state_spec() == State::UNFINISHED ==> {
                &&& final(self).id_spec() == old(self).id_spec()
                &&& final(self).position_spec() == old(self).position_spec()
                &&& final(self).creation_spec() == old(self).creation_spec()
                &&& final(self).realtime_spec() == old(self).realtime_spec()
                &&& match old(self).realtime_spec() {
                    Option::Some(lifetime) => {
                        if old(self).creation_spec() + lifetime >= current_time {
                            r == Some(true) && final(self).state_spec() == State::SUCCESSFUL(
                                current_time,
                            )
                        } else {
                            r == Some(false) && final(self).state_spec() == State::STARVED
                        }
                    },
                    Option::None => r == Some(true) && final(self).state_spec()
                        == State::SUCCESSFUL(current_time),
                }
            },
    {
        if self.is_done() {
            None
        } else if let Some(lifetime) = self.realtime {
            if self.creation_time <= usize::MAX - lifetime && self.creation_time + lifetime
                >= current_time {
                self.done = State::SUCCESSFUL(current_time);
                Some(true)
            } else if self.creation_time > usize::MAX - lifetime {
                // The deadline lies beyond any representable time.
                self.done = State::SUCCESSFUL(current_time);
                Some(true)
            } else {
                self.done = State::STARVED;
                Some(false)
            }
        } else {
            self.done = State::SUCCESSFUL(current_time);
            Some(true)
        }
    }

    /// Marks a request as starved regardless of its state.
    pub fn set_starved(&mut self)
        ensures
            final(self).id_spec() == old(self).id_spec(),
            final(self).position_spec() == old(self).position_spec(),
            final(self).creation_spec() == old(self).creation_spec(),
            final(self).realtime_spec() == old(self).realtime_spec(),
            final(self).state_spec() == State::STARVED,
    {
        self.done = State::STARVED;
    }
}

} // verus!
