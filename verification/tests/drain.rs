//! The drain protocol, carried out step by step.

use std::collections::BTreeSet;

use rseq::codegen::EXITED;
use rseq::drain::{
    lock_read, pop_returned, push_returned, Drain, DrainError, DrainEvent, DrainStep,
    DrainableFreelist, Retry,
};
use rseq::ir::RegionId;
use rseq::progs::{lockable_freelist, LockableFreelist, NIL};
use rseq::rt::MAX_CPUS;
use rseq::sim::{self, Memory, Outcome, RunResult, SimConfig};

/// Locks, heads and nodes of every CPU, in simulated memory.
struct Words {
    fl: LockableFreelist,
    mem: Memory,
}

impl Words {
    fn of(fl: &DrainableFreelist) -> Self {
        let nnodes = fl.regions().region(RegionId(2)).len();
        let plan = lockable_freelist(nnodes);
        let mut mem = Memory::new(&plan.layout, MAX_CPUS);
        for r in [plan.locks, plan.heads, plan.nodes] {
            mem.region_mut(r).copy_from_slice(fl.regions().region(r));
        }
        Words { fl: plan, mem }
    }

    /// The push sequence, run on an unlocked CPU.
    fn push(&mut self, cpu: usize, node: u64) {
        let push = self.fl.push();
        let res = sim::run(&push, &mut self.mem, &[node], cpu, &[], SimConfig::default());
        assert_eq!(
            res,
            Ok(RunResult { outcome: Outcome::Committed { ret: None }, final_cpu: cpu })
        );
    }

    fn locks(&mut self) -> &mut [u64] {
        self.mem.region_mut(self.fl.locks)
    }

    fn heads(&mut self) -> &mut [u64] {
        self.mem.region_mut(self.fl.heads)
    }

    fn nodes(&mut self) -> &mut [u64] {
        self.mem.region_mut(self.fl.nodes)
    }

    fn settle(&self, fl: &mut DrainableFreelist) {
        fl.settle(self.mem.region(self.fl.heads), self.mem.region(self.fl.nodes));
    }

    fn carry_out(&mut self, mut d: Drain, fence: isize) -> Result<Vec<u64>, DrainStep> {
        let cpu = d.cpu();
        loop {
            let event = match d.step() {
                DrainStep::TakeLock => {
                    let taken = self.locks()[cpu] == 0;
                    if taken {
                        self.locks()[cpu] = 1;
                    }
                    DrainEvent::LockTried { taken }
                }
                DrainStep::Fence => DrainEvent::Fenced { ret: fence },
                DrainStep::ReadHead => DrainEvent::Read { word: self.heads()[cpu] },
                DrainStep::ReadNext { node } => DrainEvent::Read { word: self.nodes()[node] },
                DrainStep::ClearHead => {
                    self.heads()[cpu] = NIL;
                    DrainEvent::Written
                }
                DrainStep::ReleaseLock => {
                    self.locks()[cpu] = 0;
                    DrainEvent::Written
                }
                DrainStep::Done => return Ok(d.into_nodes()),
                stuck => return Err(stuck),
            };
            d.advance(event);
        }
    }
}

#[test]
fn drain_moves_all_nodes() {
    const NNODES: u64 = 64;
    let mut fl = match DrainableFreelist::new(NNODES as usize, 0) {
        Ok(fl) => fl,
        Err(e) => panic!("{e:?}"),
    };
    let mut w = Words::of(&fl);
    for node in 0..NNODES {
        assert!(fl.in_range(node));
        w.push((node % 5) as usize, node);
    }
    w.settle(&mut fl);
    assert!(fl.is_intact());
    assert_eq!(fl.snapshot_all()[4].len(), 12);

    // Drain every CPU; the union must be exactly the pushed nodes, and all
    // lists must be empty afterwards.
    let mut got = BTreeSet::new();
    for cpu in 0..64 {
        for node in w.carry_out(fl.drain(cpu), 0).unwrap() {
            assert!(got.insert(node), "node {node} drained twice");
        }
    }
    assert_eq!(got, (0..NNODES).collect::<BTreeSet<_>>());
    assert!(w.locks().iter().all(|l| *l == 0));
    w.settle(&mut fl);
    assert!(fl.is_intact());
    assert!(fl.snapshot_all().iter().all(Vec::is_empty));
}

#[test]
fn drain_takes_the_list_in_order() {
    let fl = DrainableFreelist::new(8, 0).unwrap_or_else(|e| panic!("{e:?}"));
    let mut w = Words::of(&fl);
    for node in [3, 1, 4] {
        w.push(7, node);
    }
    w.push(2, 6);
    assert_eq!(w.carry_out(fl.drain(7), 0), Ok(vec![4, 1, 3]));
    assert_eq!(w.heads()[7], NIL);
    assert_eq!(w.heads()[2], 6);
    assert_eq!(w.locks()[7], 0);
    assert_eq!(w.carry_out(fl.drain(7), 0), Ok(vec![]));
}

#[test]
fn locked_cpu_is_left_alone() {
    let fl = DrainableFreelist::new(8, 0).unwrap_or_else(|e| panic!("{e:?}"));
    let mut w = Words::of(&fl);
    w.push(0, 5);
    w.locks()[0] = 1;
    assert_eq!(w.carry_out(fl.drain(0), 0), Ok(vec![]));
    assert_eq!(w.heads()[0], 5);
    assert_eq!(w.locks()[0], 1);
}

#[test]
fn fence_failure_and_corrupt_lists_stop_a_drain() {
    let mut fl = DrainableFreelist::new(4, 0).unwrap_or_else(|e| panic!("{e:?}"));
    let mut w = Words::of(&fl);
    assert_eq!(w.carry_out(fl.drain(0), -1), Err(DrainStep::FenceFailed { ret: -1 }));

    // A cycle.
    let mut w = Words::of(&fl);
    w.heads()[0] = 1;
    w.nodes()[1] = 2;
    w.nodes()[2] = 1;
    w.settle(&mut fl);
    assert!(!fl.is_intact());
    assert_eq!(w.carry_out(fl.drain(0), 0), Err(DrainStep::Corrupt));

    // A node that is not in the pool.
    let mut w = Words::of(&fl);
    w.heads()[0] = 4;
    w.settle(&mut fl);
    assert!(!fl.is_intact());
    assert!(!fl.in_range(4));
    assert_eq!(w.carry_out(fl.drain(0), 0), Err(DrainStep::Corrupt));
}

#[test]
fn refused_registration_is_reported() {
    match DrainableFreelist::new(4, -22) {
        Err(DrainError::MembarrierUnsupported(ret)) => assert_eq!(ret, -22),
        Err(e) => panic!("{e:?}"),
        Ok(_) => panic!("must be refused"),
    }
}

#[test]
fn calls_are_retried_while_locked() {
    assert_eq!(push_returned(0), Retry::Done(None));
    assert_eq!(push_returned(EXITED), Retry::Again);
    assert_eq!(pop_returned(12), Retry::Done(Some(12)));
    assert_eq!(pop_returned(EXITED), Retry::ReadLock);
    assert_eq!(lock_read(0), Retry::Done(None));
    assert_eq!(lock_read(1), Retry::Again);
}

#[test]
fn sequences_of_the_drainable_freelist() {
    let fl = DrainableFreelist::new(4, 0).unwrap_or_else(|e| panic!("{e:?}"));
    assert_eq!(fl.push_code().name, "lockable_push");
    assert_eq!(fl.pop_code().name, "lockable_pop");
    assert!(fl.regions().accepts(fl.push_code(), &[0]));
    assert!(!fl.regions().accepts(fl.push_code(), &[]));
    assert!(fl.regions().accepts(fl.pop_code(), &[]));
}
