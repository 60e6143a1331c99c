//! Simulators for operating-system resource management: a virtual-memory
//! frame allocator with four competing allocation policies (equal split,
//! proportional split, page-fault-frequency feedback and working-set-size
//! feedback), together with the supporting data structures: an LRU tracker,
//! a largest-remainder frame distributor, a bounded page pool, disk-drive
//! task bookkeeping and small scheduling queues.

pub mod arith;
pub mod drive;
pub mod loop_list;
pub mod lru;
pub mod page_set;
pub mod process;
pub mod process_queue;
pub mod reminder_sorter;
pub mod task;
pub mod task_queue;
pub mod virtual_memory;
