//! The disk drive: a head position on tracks `1..=len`, counters for head
//! movement and full rolls, a clock that advances with the head, and the
//! pending requests. A request is settled the moment the head passes over
//! its track; settled requests move to the finished list for the
//! schedulers to collect.

use vstd::prelude::*;

use crate::task::{State, Task};

verus! {

/// Whether a request targets a track inside `lo..=hi`.
pub open spec fn in_range(t: Task, lo: usize, hi: usize) -> bool {
    lo <= t.position_spec() && t.position_spec() <= hi
}

/// The moment the head passes track `p`: the drive's clock plus the
/// distance from the head, capped at the largest representable time.
pub open spec fn sweep_time(time: usize, head: usize, p: usize) -> usize {
    let d = if head >= p {
        (head - p) as usize
    } else {
        (p - head) as usize
    };
    if time + d <= usize::MAX {
        (time + d) as usize
    } else {
        usize::MAX
    }
}

/// `t` is `t0` settled at `when`: same request, its state decided by the
/// deadline rule — success while the deadline has not passed, starvation
/// otherwise — or untouched if it was already settled.
pub open spec fn settled_from(t0: Task, t: Task, when: usize) -> bool {
    &&& t.id_spec() == t0.id_spec()
    &&& t.position_spec() == t0.position_spec()
    &&& t.creation_spec() == t0.creation_spec()
    &&& t.realtime_spec() == t0.realtime_spec()
    &&& if t0.state_spec() != State::UNFINISHED {
        t == t0
    } else {
        match t0.realtime_spec() {
            Option::Some(lifetime) => {
                if t0.creation_spec() + lifetime >= when {
                    t.state_spec() == State::SUCCESSFUL(when)
                } else {
                    t.state_spec() == State::STARVED
                }
            },
            Option::None => t.state_spec() == State::SUCCESSFUL(when),
        }
    }
}

/// Some pending request of `tasks0` inside `lo..=hi` settles, at the
/// moment the head passes its track, into exactly `t`.
pub open spec fn settled_by_sweep(
    tasks0: Seq<Task>,
    t: Task,
    lo: usize,
    hi: usize,
    time0: usize,
    pos0: usize,
) -> bool {
    exists|t0: Task|
        tasks0.contains(t0) && in_range(t0, lo, hi) && settled_from(
            t0,
            t,
            sweep_time(time0, pos0, t0.position_spec()),
        )
}

/// A disk drive with its pending and finished requests.
#[derive(Debug)]
pub struct Drive {
    len: usize,
    position: usize,
    move_count: usize,
    roll_count: usize,
    tasks: Vec<Task>,
    finished: Vec<Task>,
    current_time: usize,
}

impl Drive {
    pub closed spec fn len_spec(&self) -> usize {
        self.len
    }

    pub closed spec fn position_spec(&self) -> usize {
        self.position
    }

    pub closed spec fn moves_spec(&self) -> usize {
        self.move_count
    }

    pub closed spec fn rolls_spec(&self) -> usize {
        self.roll_count
    }

    pub closed spec fn time_spec(&self) -> usize {
        self.current_time
    }

    /// The pending requests, in arrival order.
    pub closed spec fn tasks_spec(&self) -> Seq<Task> {
        self.tasks@
    }

    /// The settled requests, in settlement order.
    pub closed spec fn finished_spec(&self) -> Seq<Task> {
        self.finished@
    }

    /// The head never stands beyond the last track.
    pub open spec fn wf(&self) -> bool {
        self.position_spec() <= self.len_spec()
    }

    pub fn get_move_count(&self) -> (r: usize)
        ensures
            r == self.moves_spec(),
    {
        self.move_count
    }

    /// A new drive starts on track one.
    pub fn new(len: usize) -> (r: Drive)
        requires
            len >= 1,
        ensures
            r.wf(),
            r.len_spec() == len,
            r.position_spec() == 1,
            r.moves_spec() == 0,
            r.rolls_spec() == 0,
            r.time_spec() == 0,
            r.tasks_spec().len() == 0,
            r.finished_spec().len() == 0,
    {
        Drive::new_on_pos(len, 1)
    }

    /// A new drive on a chosen track, which must exist.
    pub fn new_on_pos(len: usize, position: usize) -> (r: Drive)
        requires
            position <= len,
        ensures
            r.wf(),
            r.len_spec() == len,
            r.position_spec() == position,
            r.moves_spec() == 0,
            r.rolls_spec() == 0,
            r.time_spec() == 0,
            r.tasks_spec().len() == 0,
            r.finished_spec().len() == 0,
    {
        Drive {
            len,
            position,
            move_count: 0,
            roll_count: 0,
            tasks: Vec::new(),
            finished: Vec::new(),
            current_time: 0,
        }
    }

    pub fn get_position(&self) -> (r: usize)
        ensures
            r == self.position_spec(),
    {
        self.position
    }

    pub fn len(&self) -> (r: usize)
        ensures
            r == self.len_spec(),
    {
        self.len
    }

    /// Settles every pending request inside `lo..=hi` at the moment the
    /// head passes its track, and moves it to the finished list; requests
    /// outside the range stay pending, in order.
    fn remove_tasks_in_range(&mut self, lo: usize, hi: usize)
        ensures
            final(self).len_spec() == old(self).len_spec(),
            final(self).position_spec() == old(self).position_spec(),
            final(self).moves_spec() == old(self).moves_spec(),
            final(self).rolls_spec() == old(self).rolls_spec(),
            final(self).time_spec() == old(self).time_spec(),
            forall|t: Task|
                final(self).tasks_spec().contains(t) ==> old(self).tasks_spec().contains(t)
                    && !in_range(t, lo, hi),
            forall|t: Task|
                old(self).tasks_spec().contains(t) && !in_range(t, lo, hi) ==> final(self).tasks_spec().contains(t),
            final(self).finished_spec().len() >= old(self).finished_spec().len(),
            final(self).finished_spec().subrange(0, old(self).finished_spec().len() as int) == old(
                self,
            ).finished_spec(),
            final(self).tasks_spec().len() as int + final(self).finished_spec().len() as int
                == old(self).tasks_spec().len() as int + old(self).finished_spec().len() as int,
            forall|k: int|
                old(self).finished_spec().len() <= k < final(self).finished_spec().len()
                    ==> in_range(#[trigger] final(self).finished_spec()[k], lo, hi),
            forall|k: int|
                old(self).finished_spec().len() <= k < final(self).finished_spec().len()
                    ==> settled_by_sweep(
                    old(self).tasks_spec(),
                    #[trigger] final(self).finished_spec()[k],
                    lo,
                    hi,
                    old(self).time_spec(),
                    old(self).position_spec(),
                ),
    {
        let ghost tasks0 = self.tasks@;
        let ghost fin0 = self.finished@;
        let ghost time0 = self.current_time;
        let ghost pos0 = self.position;
        let mut k: usize = 0;
        while k < self.tasks.len()
            invariant
                k <= self.tasks@.len(),
                self.len == old(self).len,
                self.position == old(self).position,
                self.move_count == old(self).move_count,
                self.roll_count == old(self).roll_count,
                self.current_time == old(self).current_time,
                time0 == old(self).current_time,
                pos0 == old(self).position,
                forall|i: int| 0 <= i < k ==> !in_range(#[trigger] self.tasks@[i], lo, hi),
                forall|t: Task| self.tasks@.contains(t) ==> tasks0.contains(t),
                forall|t: Task|
                    tasks0.contains(t) && !in_range(t, lo, hi) ==> self.tasks@.contains(t),
                self.finished@.len() >= fin0.len(),
                self.finished@.subrange(0, fin0.len() as int) == fin0,
                self.tasks@.len() as int + self.finished@.len() as int == tasks0.len() as int
                    + fin0.len() as int,
                forall|i: int|
                    fin0.len() <= i < self.finished@.len() ==> in_range(
                        #[trigger] self.finished@[i],
                        lo,
                        hi,
                    ),
                forall|i: int|
                    fin0.len() <= i < self.finished@.len() ==> settled_by_sweep(
                        tasks0,
                        #[trigger] self.finished@[i],
                        lo,
                        hi,
                        time0,
                        pos0,
                    ),
            decreases self.tasks@.len() - k,
        {
            let pos = self.tasks[k].get_position();
            if lo <= pos && pos <= hi {
                let ghost pre = self.tasks@;
                let mut t = self.tasks.remove(k);
                proof {
                    assert(self.tasks@ == pre.remove(k as int));
                    assert forall|t2: Task| self.tasks@.contains(t2) implies pre.contains(t2) by {
                        let i = choose|i: int| 0 <= i < self.tasks@.len() && self.tasks@[i] == t2;
                        if i < k {
                            assert(pre[i] == t2);
                        } else {
                            assert(pre[i + 1] == t2);
                        }
                    }
                    assert forall|t2: Task|
                        pre.contains(t2) && !in_range(t2, lo, hi) implies self.tasks@.contains(
                        t2,
                    ) by {
                        let i = choose|i: int| 0 <= i < pre.len() && pre[i] == t2;
                        assert(i != k);
                        if i < k {
                            assert(self.tasks@[i] == t2);
                        } else {
                            assert(self.tasks@[i - 1] == t2);
                        }
                    }
                }
                let ghost t0 = t;
                let d = if self.position >= pos {
                    self.position - pos
                } else {
                    pos - self.position
                };
                // A settlement time past the representable range is capped.
                let when = if self.current_time <= usize::MAX - d {
                    self.current_time + d
                } else {
                    usize::MAX
                };
                proof {
                    assert(when == sweep_time(time0, pos0, t0.position_spec()));
                }
                t.finalize(when);
                let ghost prefin = self.finished@;
                self.finished.push(t);
                proof {
                    assert(self.finished@.subrange(0, fin0.len() as int) =~= fin0);
                    assert(in_range(self.finished@[self.finished@.len() - 1], lo, hi));
                    assert(tasks0.contains(t0)) by {
                        assert(pre[k as int] == t0);
                    }
                    assert(settled_from(
                        t0,
                        self.finished@[self.finished@.len() - 1],
                        sweep_time(time0, pos0, t0.position_spec()),
                    ));
                    assert forall|i: int|
                        fin0.len() <= i < self.finished@.len() implies settled_by_sweep(
                        tasks0,
                        #[trigger] self.finished@[i],
                        lo,
                        hi,
                        time0,
                        pos0,
                    ) by {
                        if i < self.finished@.len() - 1 {
                            assert(self.finished@[i] == prefin[i]);
                            assert(settled_by_sweep(tasks0, prefin[i], lo, hi, time0, pos0));
                        } else {
                            assert(settled_from(
                                t0,
                                self.finished@[i],
                                sweep_time(time0, pos0, t0.position_spec()),
                            ));
                        }
                    }
                }
            } else {
                k += 1;
            }
        }
        proof {
            assert forall|k2: int|
                fin0.len() <= k2 < self.finished_spec().len() implies settled_by_sweep(
                old(self).tasks_spec(),
                #[trigger] self.finished_spec()[k2],
                lo,
                hi,
                old(self).time_spec(),
                old(self).position_spec(),
            ) by {
                assert(settled_by_sweep(tasks0, self.finished@[k2], lo, hi, time0, pos0));
            }
        }
    }

    /// Moves the head straight to `position`, settling every request on
    /// the way; the distance covered adds to the movement counter and to
    /// the clock.
    pub fn go_to_position(&mut self, position: usize) -> (r: usize)
        requires
            position <= old(self).len_spec(),
            old(self).wf(),
            old(self).moves_spec() + old(self).len_spec() <= usize::MAX,
            old(self).time_spec() + old(self).len_spec() <= usize::MAX,
        ensures
            final(self).wf(),
            r == (if old(self).position_spec() >= position {
                old(self).position_spec() - position
            } else {
                position - old(self).position_spec()
            }),
            final(self).position_spec() == position,
            final(self).len_spec() == old(self).len_spec(),
            final(self).moves_spec() == old(self).moves_spec() + r,
            final(self).time_spec() == old(self).time_spec() + r,
            final(self).rolls_spec() == old(self).rolls_spec(),
            forall|t: Task|
                final(self).tasks_spec().contains(t) ==> old(self).tasks_spec().contains(t) && !(
                min_pos(old(self).position_spec(), position) <= t.position_spec()
                    && t.position_spec() <= max_pos(old(self).position_spec(), position)),
            final(self).finished_spec().subrange(0, old(self).finished_spec().len() as int) == old(
                self,
            ).finished_spec(),
            final(self).tasks_spec().len() as int + final(self).finished_spec().len() as int
                == old(self).tasks_spec().len() as int + old(self).finished_spec().len() as int,
    {
        let distance = if self.position >= position {
            self.position - position
        } else {
            position - self.position
        };
        let lo = if self.position <= position {
            self.position
        } else {
            position
        };
        let hi = if self.position <= position {
            position
        } else {
            self.position
        };
        proof {
            assert(lo == min_pos(old(self).position_spec(), position));
            assert(hi == max_pos(old(self).position_spec(), position));
        }
        self.remove_tasks_in_range(lo, hi);
        let ghost mid = *self;
        proof {
            assert forall|t: Task| self.tasks_spec().contains(t) implies old(
                self,
            ).tasks_spec().contains(t) && !(min_pos(old(self).position_spec(), position)
                <= t.position_spec() && t.position_spec() <= max_pos(
                old(self).position_spec(),
                position,
            )) by {
                assert(!in_range(t, lo, hi));
            }
        }
        self.move_count = self.move_count + distance;
        self.current_time = self.current_time + distance;
        self.position = position;
        proof {
            assert forall|t: Task|
                #[trigger] old(self).tasks_spec().contains(t) && !in_range(
                    t,
                    min_pos(old(self).position_spec(), position),
                    max_pos(old(self).position_spec(), position),
                ) implies self.tasks_spec().contains(t) by {
                assert(!in_range(t, lo, hi));
                assert(mid.tasks_spec().contains(t));
            }
            assert forall|k: int|
                old(self).finished_spec().len() <= k < self.finished_spec().len()
                    implies settled_by_sweep(
                old(self).tasks_spec(),
                #[trigger] self.finished_spec()[k],
                min_pos(old(self).position_spec(), position),
                max_pos(old(self).position_spec(), position),
                old(self).time_spec(),
                old(self).position_spec(),
            ) by {
                assert(self.finished_spec()[k] == mid.finished_spec()[k]);
                assert(settled_by_sweep(
                    old(self).tasks_spec(),
                    mid.finished_spec()[k],
                    lo,
                    hi,
                    old(self).time_spec(),
                    old(self).position_spec(),
                ));
            }
        }
        distance
    }

    /// At the last track the head rolls back to the start in one tick,
    /// settling requests waiting at either end; anywhere else it refuses.
    pub fn roll(&mut self) -> (r: bool)
        requires
            old(self).wf(),
            old(self).rolls_spec() < usize::MAX,
            old(self).time_spec() < usize::MAX,
        ensures
            final(self).wf(),
            final(self).len_spec() == old(self).len_spec(),
            r == (old(self).position_spec() == old(self).len_spec()),
            !r ==> *final(self) == *old(self),
            r ==> {
                &&& final(self).position_spec() == old(self).position_spec()
                &&& final(self).rolls_spec() == old(self).rolls_spec() + 1
                &&& final(self).time_spec() == old(self).time_spec() + 1
                &&& final(self).moves_spec() == old(self).moves_spec()
                &&& forall|t: Task|
                    final(self).tasks_spec().contains(t) ==> old(self).tasks_spec().contains(t)
                        && t.position_spec() != 1 && t.position_spec() != old(self).len_spec()
                &&& forall|t: Task|
                    #[trigger] old(self).tasks_spec().contains(t) && t.position_spec() != 1
                        && t.position_spec() != old(self).len_spec()
                        ==> final(self).tasks_spec().contains(t)
            },
    {
        if self.position != self.len {
            return false;
        }
        self.roll_count = self.roll_count + 1;
        let ghost tasks0 = self.tasks@;
        let ghost fin0 = self.finished@;
        let mut k: usize = 0;
        while k < self.tasks.len()
            invariant
                k <= self.tasks@.len(),
                self.len == old(self).len,
                self.position == old(self).position,
                self.move_count == old(self).move_count,
                self.roll_count == old(self).roll_count + 1,
                self.current_time == old(self).current_time,
                self.current_time < usize::MAX,
                forall|i: int|
                    0 <= i < k ==> (#[trigger] self.tasks@[i]).position_spec() != 1
                        && self.tasks@[i].position_spec() != self.len,
                forall|t: Task| self.tasks@.contains(t) ==> tasks0.contains(t),
                forall|t: Task|
                    tasks0.contains(t) && t.position_spec() != 1 && t.position_spec() != self.len
                        ==> self.tasks@.contains(t),
            decreases self.tasks@.len() - k,
        {
            let pos = self.tasks[k].get_position();
            if pos == 1 || pos == self.len {
                let ghost pre = self.tasks@;
                let mut t = self.tasks.remove(k);
                proof {
                    assert forall|t2: Task| self.tasks@.contains(t2) implies pre.contains(t2) by {
                        let i = choose|i: int| 0 <= i < self.tasks@.len() && self.tasks@[i] == t2;
                        if i < k {
                            assert(pre[i] == t2);
                        } else {
                            assert(pre[i + 1] == t2);
                        }
                    }
                    assert forall|t2: Task|
                        pre.contains(t2) && t2.position_spec() != 1 && t2.position_spec()
                            != self.len implies self.tasks@.contains(t2) by {
                        let i = choose|i: int| 0 <= i < pre.len() && pre[i] == t2;
                        assert(i != k) by {
                            assert(pre[k as int].position_spec() == pos);
                        }
                        if i < k {
                            assert(self.tasks@[i] == t2);
                        } else {
                            assert(self.tasks@[i - 1] == t2);
                        }
                    }
                }
                let when = if pos == 1 {
                    self.current_time + 1
                } else {
                    self.current_time
                };
                t.finalize(when);
                self.finished.push(t);
            } else {
                k += 1;
            }
        }
        self.current_time = self.current_time + 1;
        true
    }

    pub fn get_roll_count(&self) -> (r: usize)
        ensures
            r == self.rolls_spec(),
    {
        self.roll_count
    }

    pub fn get_current_time(&self) -> (r: usize)
        ensures
            r == self.time_spec(),
    {
        self.current_time
    }

    /// Files a new request: one already at the head settles immediately,
    /// any other joins the pending list unless an equal one (same track
    /// and identifier) already waits.
    pub fn add_task(&mut self, task: Task) -> (r: bool)
        ensures
            final(self).len_spec() == old(self).len_spec(),
            final(self).position_spec() == old(self).position_spec(),
            final(self).moves_spec() == old(self).moves_spec(),
            final(self).rolls_spec() == old(self).rolls_spec(),
            final(self).time_spec() == old(self).time_spec(),
            task.position_spec() == old(self).position_spec() ==> r && final(self).tasks_spec()
                == old(self).tasks_spec(),
            task.position_spec() != old(self).position_spec() ==> final(self).finished_spec() == old(self).finished_spec(),
    {
        if task.get_position() == self.position {
            let mut t = task;
            t.finalize(self.current_time);
            self.finished.push(t);
            true
        } else {
            let mut k: usize = 0;
            let n = self.tasks.len();
            let mut present = false;
            while k < n
                invariant
                    k <= n,
                    n == self.tasks@.len(),
                decreases n - k,
            {
                let same = {
                    let other = &self.tasks[k];
                    other.get_id() == task.get_id() && other.get_position() == task.get_position()
                };
                if same {
                    present = true;
                }
                k += 1;
            }
            if present {
                false
            } else {
                self.tasks.push(task);
                true
            }
        }
    }

    /// Withdraws the pending request equal to `task` (same track and
    /// identifier), if one waits.
    pub fn remove_task(&mut self, task: &Task) -> (r: bool)
        ensures
            final(self).len_spec() == old(self).len_spec(),
            final(self).position_spec() == old(self).position_spec(),
            final(self).moves_spec() == old(self).moves_spec(),
            final(self).rolls_spec() == old(self).rolls_spec(),
            final(self).time_spec() == old(self).time_spec(),
            final(self).finished_spec() == old(self).finished_spec(),
            forall|t: Task| final(self).tasks_spec().contains(t) ==> old(self).tasks_spec().contains(t),
    {
        let mut k: usize = 0;
        while k < self.tasks.len()
            invariant
                k <= self.tasks@.len(),
                self.len == old(self).len,
                self.position == old(self).position,
                self.move_count == old(self).move_count,
                self.roll_count == old(self).roll_count,
                self.current_time == old(self).current_time,
                self.finished@ == old(self).finished@,
                self.tasks@ == old(self).tasks@,
            decreases self.tasks@.len() - k,
        {
            let same = {
                let other = &self.tasks[k];
                other.get_id() == task.get_id() && other.get_position() == task.get_position()
            };
            if same {
                let ghost pre = self.tasks@;
                self.tasks.remove(k);
                proof {
                    assert forall|t2: Task| self.tasks@.contains(t2) implies pre.contains(t2) by {
                        let i = choose|i: int| 0 <= i < self.tasks@.len() && self.tasks@[i] == t2;
                        if i < k {
                            assert(pre[i] == t2);
                        } else {
                            assert(pre[i + 1] == t2);
                        }
                    }
                }
                return true;
            }
            k += 1;
        }
        false
    }

    /// Lets time pass without moving the head.
    pub fn wait_for(&mut self, time: usize)
        requires
            old(self).time_spec() + time <= usize::MAX,
        ensures
            final(self).time_spec() == old(self).time_spec() + time,
            final(self).len_spec() == old(self).len_spec(),
            final(self).position_spec() == old(self).position_spec(),
            final(self).moves_spec() == old(self).moves_spec(),
            final(self).rolls_spec() == old(self).rolls_spec(),
            final(self).tasks_spec() == old(self).tasks_spec(),
            final(self).finished_spec() == old(self).finished_spec(),
    {
        self.current_time = self.current_time + time;
    }

    /// Jumps the head to `position`, settling only requests exactly on
    /// that track: the tracks passed over are skipped.
    pub fn go_to_position_skipping(&mut self, position: usize) -> (r: usize)
        requires
            position <= old(self).len_spec(),
            old(self).wf(),
            old(self).moves_spec() + old(self).len_spec() <= usize::MAX,
            old(self).time_spec() + old(self).len_spec() <= usize::MAX,
        ensures
            final(self).wf(),
            r == (if old(self).position_spec() >= position {
                old(self).position_spec() - position
            } else {
                position - old(self).position_spec()
            }),
            final(self).position_spec() == position,
            final(self).len_spec() == old(self).len_spec(),
            final(self).moves_spec() == old(self).moves_spec() + r,
            final(self).time_spec() == old(self).time_spec() + r,
            final(self).rolls_spec() == old(self).rolls_spec(),
            forall|t: Task|
                #[trigger] final(self).tasks_spec().contains(t) ==> old(
                    self,
                ).tasks_spec().contains(t) && t.position_spec() != position,
            forall|t: Task|
                #[trigger] old(self).tasks_spec().contains(t) && t.position_spec() != position
                    ==> final(self).tasks_spec().contains(t),
            final(self).finished_spec().subrange(0, old(self).finished_spec().len() as int) == old(self).finished_spec(),
            forall|k: int|
                old(self).finished_spec().len() <= k < final(self).finished_spec().len()
                    ==> settled_by_sweep(
                    old(self).tasks_spec(),
                    #[trigger] final(self).finished_spec()[k],
                    position,
                    position,
                    old(self).time_spec(),
                    old(self).position_spec(),
                ),
    {
        let distance = if self.position >= position {
            self.position - position
        } else {
            position - self.position
        };
        self.remove_tasks_in_range(position, position);
        let ghost mid = *self;
        self.position = position;
        self.move_count = self.move_count + distance;
        self.current_time = self.current_time + distance;
        proof {
            assert forall|t: Task| #[trigger] self.tasks_spec().contains(t) implies old(
                self,
            ).tasks_spec().contains(t) && t.position_spec() != position by {
                assert(mid.tasks_spec().contains(t));
                assert(!in_range(t, position, position));
            }
            assert forall|t: Task|
                #[trigger] old(self).tasks_spec().contains(t) && t.position_spec()
                    != position implies self.tasks_spec().contains(t) by {
                assert(!in_range(t, position, position));
                assert(mid.tasks_spec().contains(t));
            }
            assert forall|k: int|
                old(self).finished_spec().len() <= k < self.finished_spec().len()
                    implies settled_by_sweep(
                old(self).tasks_spec(),
                #[trigger] self.finished_spec()[k],
                position,
                position,
                old(self).time_spec(),
                old(self).position_spec(),
            ) by {
                assert(self.finished_spec()[k] == mid.finished_spec()[k]);
                assert(settled_by_sweep(
                    old(self).tasks_spec(),
                    mid.finished_spec()[k],
                    position,
                    position,
                    old(self).time_spec(),
                    old(self).position_spec(),
                ));
            }
        }
        distance
    }

    /// Hands over the settled requests collected so far.
    pub fn take_finished(&mut self) -> (r: Vec<Task>)
        ensures
            r@ == old(self).finished_spec(),
            final(self).finished_spec().len() == 0,
            final(self).tasks_spec() == old(self).tasks_spec(),
            final(self).len_spec() == old(self).len_spec(),
            final(self).position_spec() == old(self).position_spec(),
            final(self).moves_spec() == old(self).moves_spec(),
            final(self).rolls_spec() == old(self).rolls_spec(),
            final(self).time_spec() == old(self).time_spec(),
    {
        let mut out: Vec<Task> = Vec::new();
        core::mem::swap(&mut out, &mut self.finished);
        out
    }
}

/// The smaller of two track positions.
pub open spec fn min_pos(a: usize, b: usize) -> usize {
    if a <= b {
        a
    } else {
        b
    }
}

/// The larger of two track positions.
pub open spec fn max_pos(a: usize, b: usize) -> usize {
    if a <= b {
        b
    } else {
        a
    }
}

} // verus!
