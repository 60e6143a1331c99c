//! Exercises the supporting data structures: the LRU tracker, the
//! process trace, the disk drive with its requests, the circular
//! scheduling list and the arrival queues.

use os_sim::drive::Drive;
use os_sim::loop_list::LoopListIter;
use os_sim::lru::Lru;
use os_sim::process::Process;
use os_sim::process_queue::Processes;
use os_sim::task::{State, Task};
use os_sim::task_queue::{TaskWrapper, Tasks};

#[test]
fn lru_pops_oldest_first() {
    let mut lru = Lru::new();
    lru.use_val(7, 0);
    lru.use_val(8, 1);
    lru.use_val(9, 2);
    // Touching 7 again makes 8 the oldest.
    lru.use_val(7, 3);
    assert_eq!(lru.pop_lru(), Some(8));
    assert_eq!(lru.pop_lru(), Some(9));
    assert_eq!(lru.pop_lru(), Some(7));
    assert_eq!(lru.pop_lru(), None);
}

#[test]
fn lru_remove_val_and_entry() {
    let mut lru = Lru::new();
    lru.use_val(1, 0);
    lru.use_val(2, 1);
    lru.use_val(3, 2);
    lru.remove_val(2);
    assert_eq!(lru.len(), 2);
    let head = lru.lru_iter()[0];
    assert_eq!(head.get_val(), 1);
    assert_eq!(head.get_time(), 0);
    lru.remove_lru(&head);
    assert_eq!(lru.pop_lru(), Some(3));
    assert_eq!(lru.pop_lru(), None);
}

#[test]
fn process_counts_distinct_pages() {
    let p = Process::from_bursts(vec![vec![4, 5, 4], vec![5, 6]]);
    assert_eq!(p.get_page_count(), 3);
    assert!(!p.is_empty());
    let mut q = p;
    assert_eq!(q.next(), Some(vec![4, 5, 4]));
    assert_eq!(q.next(), Some(vec![5, 6]));
    assert_eq!(q.next(), None);
    assert!(q.is_empty());
    // The page set survives consumption, for bulk cleanup.
    assert_eq!(q.get_used_pages().len(), 3);
}

#[test]
fn task_deadlines() {
    let mut on_time = Task::new(0, 5, 10, Some(4));
    assert!(!on_time.is_done());
    assert_eq!(on_time.finalize(14), Some(true));
    assert_eq!(on_time.get_state(), State::SUCCESSFUL(14));
    assert_eq!(on_time.finalize(20), None);

    let mut late = Task::new(1, 5, 10, Some(4));
    assert_eq!(late.finalize(15), Some(false));
    assert_eq!(late.get_state(), State::STARVED);

    let mut easy = Task::new(2, 5, 10, None);
    assert!(!easy.is_realtime());
    assert_eq!(easy.finalize(99), Some(true));
    assert_eq!(easy.get_state(), State::SUCCESSFUL(99));

    let mut starved = Task::new(3, 5, 10, Some(4));
    starved.set_starved();
    assert_eq!(starved.get_state(), State::STARVED);
    assert_eq!(starved.get_id(), 3);
    assert_eq!(starved.get_position(), 5);
    assert_eq!(starved.get_creation_time(), 10);
    assert_eq!(starved.get_realtime(), Some(4));
}

#[test]
fn drive_moves_and_settles() {
    let mut drive = Drive::new(100);
    assert_eq!(drive.get_position(), 1);
    assert_eq!(drive.len(), 100);
    assert!(drive.add_task(Task::new(0, 10, 0, None)));
    assert!(drive.add_task(Task::new(1, 50, 0, None)));
    // A duplicate request is refused.
    assert!(!drive.add_task(Task::new(0, 10, 0, None)));
    let moved = drive.go_to_position(20);
    assert_eq!(moved, 19);
    assert_eq!(drive.get_move_count(), 19);
    assert_eq!(drive.get_current_time(), 19);
    let done = drive.take_finished();
    assert_eq!(done.len(), 1);
    assert_eq!(done[0].get_id(), 0);
    // The request at track 10 was passed at time 10 on the way.
    assert_eq!(done[0].get_state(), State::SUCCESSFUL(9));
}

#[test]
fn drive_rolls_only_at_the_end() {
    let mut drive = Drive::new_on_pos(10, 4);
    assert!(!drive.roll());
    drive.go_to_position(10);
    assert!(drive.roll());
    assert_eq!(drive.get_roll_count(), 1);
    assert_eq!(drive.get_current_time(), 7);
    drive.wait_for(5);
    assert_eq!(drive.get_current_time(), 12);
}

#[test]
fn drive_skipping_settles_only_target() {
    let mut drive = Drive::new_on_pos(50, 1);
    drive.add_task(Task::new(0, 20, 0, None));
    drive.add_task(Task::new(1, 30, 0, None));
    let moved = drive.go_to_position_skipping(30);
    assert_eq!(moved, 29);
    let done = drive.take_finished();
    assert_eq!(done.len(), 1);
    assert_eq!(done[0].get_id(), 1);
    let removed = drive.remove_task(&Task::new(0, 20, 0, None));
    assert!(removed);
    assert!(!drive.remove_task(&Task::new(9, 99, 0, None)));
}

#[test]
fn loop_list_walks_in_a_ring() {
    let mut ring: LoopListIter<u32> = LoopListIter::new();
    assert!(ring.is_empty());
    ring.add(1);
    ring.add(2);
    ring.add(3);
    // Insertions go right behind the current element.
    assert_eq!(ring.len(), 3);
    assert_eq!(*ring.get().unwrap().get(), 1);
    ring.next();
    assert_eq!(*ring.get().unwrap().get(), 3);
    ring.next();
    assert_eq!(*ring.get().unwrap().get(), 2);
    ring.next();
    assert_eq!(*ring.get().unwrap().get(), 1);
    ring.prev();
    assert_eq!(*ring.get().unwrap().get(), 2);
    assert_eq!(ring.erase(), Some(2));
    assert_eq!(*ring.get().unwrap().get(), 3);
    assert_eq!(ring.erase(), Some(3));
    assert_eq!(ring.erase(), Some(1));
    assert_eq!(ring.erase(), None);
}

#[test]
fn list_node_value_access() {
    let mut ring: LoopListIter<u32> = LoopListIter::new();
    ring.add(41);
    assert_eq!(*ring.get().unwrap().get(), 41);
}

#[test]
fn arrival_queues_pop_in_order() {
    let mut ps = Processes::from_list(vec![(0, 5, None), (3, 2, Some(9))]);
    assert_eq!(ps.len(), 2);
    assert_eq!(ps.next(), Some((0, 5, None)));
    assert_eq!(ps.next(), Some((3, 2, Some(9))));
    assert_eq!(ps.next(), None);

    let mut ts = Tasks::from_list(vec![(1, 10, Some(4)), (2, 20, None)]);
    assert_eq!(ts.len(), 2);
    assert_eq!(ts.next(), Some((1, 10, Some(4))));
    assert_eq!(ts.next(), Some((2, 20, None)));
    assert_eq!(ts.next(), None);
}

#[test]
fn task_wrapper_orders_by_deadline() {
    let a = TaskWrapper::new(Task::new(0, 5, 0, Some(3)));
    let b = TaskWrapper::new(Task::new(1, 9, 0, Some(7)));
    let c = TaskWrapper::new(Task::new(2, 7, 0, Some(3)));
    assert!(a.sorts_before(&b));
    assert!(!b.sorts_before(&a));
    assert!(a.sorts_before(&c));
    assert!(!c.sorts_before(&a));
    assert_eq!(a.get().get_id(), 0);
}
