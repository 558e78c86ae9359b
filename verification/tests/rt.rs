//! Per-CPU data at rest, and the reading of system call answers.

use rseq::rt::{
    area_address, walk, PerCpuCounter, PerCpuFreelist, RseqArea, MAX_CPUS, NIL,
};
use rseq::sys::{outcome, stop_signal, RseqConfiguration, SIGSTOP, SIGTRAP};

#[test]
fn counter_sums_its_slots() {
    let mut c = PerCpuCounter::new();
    assert_eq!(c.sum(), 0);
    let mut slots = PerCpuCounter::default().into_slots();
    assert_eq!(slots.len(), MAX_CPUS);
    slots[0] = 5;
    slots[4095] = 37;
    let mut c = PerCpuCounter::from_slots(slots);
    assert_eq!(c.checked_sum(), Some(42));
    assert_eq!(c.sum(), 42);
    assert_eq!(PerCpuCounter::from_slots(vec![u64::MAX, 0]).checked_sum(), Some(u64::MAX));
    assert_eq!(PerCpuCounter::from_slots(vec![u64::MAX, 1]).checked_sum(), None);
}

#[test]
fn freelist_walks_every_list() {
    let mut f = PerCpuFreelist::new(6);
    assert!(f.is_intact());
    assert!(f.drain_all().iter().all(Vec::is_empty));
    let (mut heads, mut nodes) = f.into_parts();
    assert_eq!(heads, vec![NIL; MAX_CPUS]);
    assert_eq!(nodes, vec![NIL; 6]);
    heads[3] = 5;
    nodes[5] = 0;
    nodes[0] = 2;
    heads[9] = 1;
    let mut f = PerCpuFreelist::from_parts(heads, nodes);
    assert!(f.is_intact());
    let lists = f.drain_all();
    assert_eq!(lists.len(), MAX_CPUS);
    assert_eq!(lists[3], vec![5, 0, 2]);
    assert_eq!(lists[9], vec![1]);
    assert!(lists[4].is_empty());
}

#[test]
fn broken_lists_are_noticed() {
    assert_eq!(walk(NIL, &[]), Some(vec![]));
    assert_eq!(walk(0, &[]), None);
    assert_eq!(walk(0, &[0]), None);
    assert_eq!(walk(1, &[NIL, 0]), Some(vec![1, 0]));
    assert_eq!(walk(2, &[NIL, 0]), None);
    assert!(!PerCpuFreelist::from_parts(vec![1], vec![1, 0]).is_intact());
}

#[test]
fn linking_and_unlinking() {
    // nodes 2 -> 0, then 1 in front.
    let mut nodes = vec![NIL, NIL, 0];
    assert_eq!(walk(2, &nodes), Some(vec![2, 0]));
    nodes[1] = 2;
    assert_eq!(walk(1, &nodes), Some(vec![1, 2, 0]));
    assert_eq!(walk(nodes[1], &nodes), Some(vec![2, 0]));
}

#[test]
fn rseq_area() {
    let mut area = RseqArea {
        cpu_id_start: 0,
        cpu_id: 11,
        rseq_cs: 0,
        flags: 0,
        node_id: 0,
        mm_cid: 0,
    };
    assert!(area.is_registered());
    area.cpu_id = u32::MAX;
    assert!(!area.is_registered());
    assert_eq!(area_address(0, 0x7000, 16), None);
    assert_eq!(area_address(32, 0x7000, 16), Some(0x7010));
    assert_eq!(area_address(32, 0x7000, -16), Some(0x6ff0));
}

#[test]
fn wait_statuses_and_answers() {
    assert_eq!(stop_signal(0x057f), Some(SIGTRAP));
    assert_eq!(stop_signal(0x137f), Some(SIGSTOP));
    assert_eq!(stop_signal(0), None);
    assert_eq!(stop_signal(0x0009), None);
    assert_eq!(stop_signal(-129), Some(255));
    assert_eq!(outcome(-12), Err(-12));
    assert_eq!(outcome(0), Ok(0));
    assert_eq!(outcome(4096), Ok(4096));
    let cfg = RseqConfiguration::default();
    assert_eq!((cfg.rseq_abi_pointer, cfg.signature, cfg.pad), (0, 0, 0));
}
