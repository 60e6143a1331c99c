//! Runs the four allocation policies on small concrete traces and checks
//! the fault counts, the determinism of a run, the equal-split and
//! largest-remainder quotas, and the starvation failure.

use os_sim::process::Process;
use os_sim::reminder_sorter::ReminderSorter;
use os_sim::virtual_memory::equal_allocation::EqualAllocation;
use os_sim::virtual_memory::page_fault_frequency::PageFaultFrequency;
use os_sim::virtual_memory::proportional::Proportional;
use os_sim::virtual_memory::working_set_size::WorkingSetSize;
use os_sim::virtual_memory::{EmulationError, VirtualMemory};

fn three_disjoint_processes() -> Vec<Process> {
    vec![
        Process::from_bursts(vec![vec![0, 1]]),
        Process::from_bursts(vec![vec![10, 11]]),
        Process::from_bursts(vec![vec![20, 21]]),
    ]
}

#[test]
fn disjoint_pages_fault_once_equal() {
    let policy = EqualAllocation::new(10);
    let faults = policy.emulate(three_disjoint_processes());
    assert_eq!(faults, vec![2, 2, 2]);
}

#[test]
fn disjoint_pages_fault_once_proportional() {
    let policy = Proportional::new(10);
    let faults = policy.emulate(three_disjoint_processes()).unwrap();
    assert_eq!(faults, vec![2, 2, 2]);
}

#[test]
fn disjoint_pages_fault_once_pff() {
    let policy = PageFaultFrequency::new(10, 1, 3, 4);
    let faults = policy.emulate(three_disjoint_processes()).unwrap();
    assert_eq!(faults, vec![2, 2, 2]);
}

#[test]
fn disjoint_pages_fault_once_wss() {
    let policy = WorkingSetSize::new(10, 4);
    let faults = policy.emulate(three_disjoint_processes()).unwrap();
    assert_eq!(faults, vec![2, 2, 2]);
}

#[test]
fn equal_split_initial_quotas() {
    // Ten frames over three slots: slot zero takes the leftover frame.
    assert_eq!(EqualAllocation::div_into_nth(10, 3, 0), 4);
    assert_eq!(EqualAllocation::div_into_nth(10, 3, 1), 3);
    assert_eq!(EqualAllocation::div_into_nth(10, 3, 2), 3);
}

#[test]
fn largest_remainder_quotas() {
    // Weights 5, 3 and 2 over seven frames: floors 3, 2 and 1, and the
    // leftover frame goes to the largest fractional remainder.
    let mut sorter = ReminderSorter::new(7, 3);
    let quotas = sorter.set_frame_counts(10, &vec![5, 3, 2]);
    assert_eq!(quotas, vec![4, 2, 1]);
}

#[test]
fn largest_remainder_skips_finished() {
    let mut sorter = ReminderSorter::new(4, 3);
    let quotas = sorter.set_frame_counts(4, &vec![0, 3, 1]);
    assert_eq!(quotas[0], 0);
    assert_eq!(quotas[1] + quotas[2], 4);
}

#[test]
fn empty_trace_contributes_zero() {
    let make = || {
        vec![
            Process::from_bursts(vec![]),
            Process::from_bursts(vec![vec![5, 6], vec![5]]),
        ]
    };
    let equal = EqualAllocation::new(4);
    assert_eq!(equal.emulate(make()), vec![0, 2]);
    let prop = Proportional::new(4);
    assert_eq!(prop.emulate(make()).unwrap(), vec![0, 2]);
    let pff = PageFaultFrequency::new(4, 1, 3, 4);
    assert_eq!(pff.emulate(make()).unwrap(), vec![0, 2]);
    // The working-set estimate shrinks to one frame after the first
    // reference, so the second page evicts the first, which refaults.
    let wss = WorkingSetSize::new(4, 4);
    assert_eq!(wss.emulate(make()).unwrap(), vec![0, 3]);
}

#[test]
fn identical_runs_agree() {
    let trace = || {
        vec![
            Process::from_bursts(vec![vec![0, 1, 2], vec![2, 0], vec![1]]),
            Process::from_bursts(vec![vec![10, 11], vec![12, 10, 11]]),
        ]
    };
    let a = PageFaultFrequency::new(3, 1, 2, 3).emulate(trace()).unwrap();
    let b = PageFaultFrequency::new(3, 1, 2, 3).emulate(trace()).unwrap();
    assert_eq!(a, b);
    let c = WorkingSetSize::new(3, 3).emulate(trace()).unwrap();
    let d = WorkingSetSize::new(3, 3).emulate(trace()).unwrap();
    assert_eq!(c, d);
    let e = EqualAllocation::new(3).emulate(trace());
    let f = EqualAllocation::new(3).emulate(trace());
    assert_eq!(e, f);
}

#[test]
fn more_memory_never_hurts_stack_policies() {
    // The equal-split and proportional policies behave as stack
    // algorithms per process: growing the pool cannot add faults. The
    // feedback policies give no such guarantee.
    let trace = || {
        vec![
            Process::from_bursts(vec![
                vec![0, 1, 2, 3],
                vec![0, 1, 2, 3],
                vec![3, 2, 1, 0],
            ]),
            Process::from_bursts(vec![vec![10, 11], vec![11, 10], vec![10]]),
        ]
    };
    let mut last_equal = usize::MAX;
    let mut last_prop = usize::MAX;
    for m in [2usize, 3, 4, 6, 8, 12] {
        let eq: usize = EqualAllocation::new(m).emulate(trace()).iter().sum();
        assert!(eq <= last_equal);
        last_equal = eq;
        let pr: usize = Proportional::new(m).emulate(trace()).unwrap().iter().sum();
        assert!(pr <= last_prop);
        last_prop = pr;
    }
}

#[test]
fn pff_starves_without_reclaimable_frames() {
    // Two frames, three single-page processes with work left: the third
    // faulting process holds nothing, finds no free frame and nothing
    // owed — the starvation condition is a hard failure.
    let procs = vec![
        Process::from_bursts(vec![vec![0], vec![0]]),
        Process::from_bursts(vec![vec![10], vec![10]]),
        Process::from_bursts(vec![vec![20], vec![20]]),
    ];
    let pff = PageFaultFrequency::new(2, 0, 100, 5);
    assert_eq!(pff.emulate(procs), Err(EmulationError::Starvation));
}

#[test]
fn wss_starves_without_reclaimable_frames() {
    let procs = vec![
        Process::from_bursts(vec![vec![0], vec![0]]),
        Process::from_bursts(vec![vec![10], vec![10]]),
        Process::from_bursts(vec![vec![20], vec![20]]),
    ];
    let wss = WorkingSetSize::new(2, 5);
    assert_eq!(wss.emulate(procs), Err(EmulationError::Starvation));
}

#[test]
fn shared_entry_point_agrees_with_each_policy() {
    let procs = three_disjoint_processes();
    let through_trait = VirtualMemory::emulate(&Proportional::new(10), procs).unwrap();
    let direct = Proportional::new(10)
        .emulate(three_disjoint_processes())
        .unwrap();
    assert_eq!(through_trait, direct);
    let equal = VirtualMemory::emulate(&EqualAllocation::new(10), three_disjoint_processes());
    assert_eq!(equal.unwrap(), vec![2, 2, 2]);
}

#[test]
fn pff_single_process_never_starves() {
    // Alone, a process can always free its own frames, even with far
    // more pages than the pool holds.
    let procs = vec![Process::from_bursts(vec![
        vec![0, 1, 2, 3, 4, 5],
        vec![5, 4, 3, 2, 1, 0],
    ])];
    let pff = PageFaultFrequency::new(2, 1, 2, 3);
    assert!(pff.emulate(procs).is_ok());
}

#[test]
fn covered_pool_never_starves() {
    // A pool at least the total distinct-page count owes success to the
    // proportional and fault-frequency policies.
    let procs = || {
        vec![
            Process::from_bursts(vec![vec![0, 1], vec![1, 0], vec![0]]),
            Process::from_bursts(vec![vec![10], vec![10, 11]]),
        ]
    };
    assert!(Proportional::new(4).emulate(procs()).is_ok());
    assert!(PageFaultFrequency::new(4, 1, 2, 3).emulate(procs()).is_ok());
}

#[test]
fn lru_pressure_counts_refaults() {
    // One process cycling through four pages under a pool of two frames:
    // every reference faults under least-recently-used eviction.
    let procs = vec![Process::from_bursts(vec![
        vec![0, 1, 2, 3],
        vec![0, 1, 2, 3],
    ])];
    let prop = Proportional::new(2);
    assert_eq!(prop.emulate(procs).unwrap(), vec![8]);
}
