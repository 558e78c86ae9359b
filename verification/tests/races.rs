//! Calls in flight: programs executed one operation at a time, in any order
//! that the CPUs allow.

use std::collections::{BTreeMap, BTreeSet};

use rseq::bench::Rng;
use rseq::drain::{Drain, DrainEvent, DrainStep, DrainableFreelist};
use rseq::ir::{BinOp, Cond, Op, Operand, Program, RegionId};
use rseq::progs::{self, LockableFreelist, NIL};
use rseq::rt::{PerCpuCounter, PerCpuFreelist};
use rseq::sim::Memory;

const NCPUS: usize = 3;

struct Flight {
    ops: Vec<Op>,
    ret: Option<Operand>,
    param: Option<u64>,
    cpu: usize,
    pc: usize,
    regs: BTreeMap<usize, u64>,
}

#[derive(Debug, PartialEq)]
enum Landing {
    Aloft,
    Committed(Option<u64>),
    Exited,
}

impl Flight {
    fn new(prog: &Program, param: Option<u64>, cpu: usize) -> Self {
        Flight { ops: prog.ops.clone(), ret: prog.ret, param, cpu, pc: 0, regs: BTreeMap::new() }
    }

    fn restart(&mut self, cpu: usize) {
        self.cpu = cpu;
        self.pc = 0;
        self.regs.clear();
    }

    fn value(&self, o: Operand) -> u64 {
        match o {
            Operand::Imm(v) => v,
            Operand::Reg(r) => self.regs[&r],
        }
    }

    fn fly(&mut self, mem: &mut Memory) -> Landing {
        match self.ops[self.pc] {
            Op::CpuId { dst } => {
                self.regs.insert(dst, self.cpu as u64);
            }
            Op::Param { dst, .. } => {
                self.regs.insert(dst, self.param.unwrap());
            }
            Op::Load { dst, addr } => {
                let word = mem.region(addr.region)[self.value(addr.index) as usize];
                self.regs.insert(dst, word);
            }
            Op::Bin { dst, op: BinOp::Add, lhs, rhs } => {
                self.regs.insert(dst, self.value(lhs).wrapping_add(self.value(rhs)));
            }
            Op::ExitIf { cond, lhs, rhs } => {
                let (l, r) = (self.value(lhs), self.value(rhs));
                let exits = match cond {
                    Cond::Eq => l == r,
                    Cond::Ne => l != r,
                    Cond::Lt => l < r,
                    Cond::Ge => l >= r,
                };
                if exits {
                    return Landing::Exited;
                }
            }
            Op::StoreScratch { addr, src } | Op::Commit { addr, src } => {
                let (at, v) = (self.value(addr.index) as usize, self.value(src));
                mem.region_mut(addr.region)[at] = v;
            }
            op => panic!("{op:?}"),
        }
        self.pc += 1;
        if self.pc < self.ops.len() {
            Landing::Aloft
        } else {
            Landing::Committed(self.ret.map(|o| self.value(o)))
        }
    }
}

fn has_cpu(flights: &[Flight], k: usize) -> bool {
    (0..flights.len()).all(|j| j == k || flights[j].cpu != flights[k].cpu || flights[j].pc == 0)
}

fn walk(mem: &Memory, heads: RegionId, nodes: RegionId, cpu: usize) -> Vec<u64> {
    let mut list = Vec::new();
    let mut cur = mem.region(heads)[cpu];
    while cur != NIL {
        list.push(cur);
        assert!(list.len() <= mem.region(nodes).len(), "cycle");
        cur = mem.region(nodes)[cur as usize];
    }
    list
}

/// Every node on a list, each of which must be there once.
fn nodes_on_lists(mem: &Memory, heads: RegionId, nodes: RegionId) -> BTreeSet<u64> {
    let mut seen = BTreeSet::new();
    for cpu in 0..NCPUS {
        for node in walk(mem, heads, nodes, cpu) {
            assert!(seen.insert(node), "node {node} on two lists");
        }
    }
    seen
}

/// One step of a drain, without what a fence does to the calls in flight.
fn advance(d: &mut Drain, mem: &mut Memory, fl: &LockableFreelist) {
    let cpu = d.cpu();
    let event = match d.step() {
        DrainStep::TakeLock => {
            let taken = mem.region(fl.locks)[cpu] == 0;
            if taken {
                mem.region_mut(fl.locks)[cpu] = 1;
            }
            DrainEvent::LockTried { taken }
        }
        DrainStep::Fence => DrainEvent::Fenced { ret: 0 },
        DrainStep::ReadHead => DrainEvent::Read { word: mem.region(fl.heads)[cpu] },
        DrainStep::ReadNext { node } => DrainEvent::Read { word: mem.region(fl.nodes)[node] },
        DrainStep::ClearHead => {
            mem.region_mut(fl.heads)[cpu] = NIL;
            DrainEvent::Written
        }
        DrainStep::ReleaseLock => {
            mem.region_mut(fl.locks)[cpu] = 0;
            DrainEvent::Written
        }
        other => panic!("{other:?}"),
    };
    d.advance(event);
}

fn pushing(flights: &[Flight], node: u64) -> bool {
    flights.iter().any(|f| f.param == Some(node))
}

#[test]
fn counts_in_flight_add_up() {
    let (layout, prog, counters) = progs::counter_inc();
    let mut mem = Memory::new(&layout, NCPUS);
    let mut rng = Rng::from_seed(3);
    let mut flights: Vec<Flight> = Vec::new();
    let mut done = 0u64;
    for _ in 0..5000 {
        match rng.pick(8) {
            0 if flights.len() < 6 => flights.push(Flight::new(&prog, None, rng.pick(NCPUS))),
            1 if !flights.is_empty() => {
                let k = rng.pick(flights.len());
                flights[k].restart(rng.pick(NCPUS));
            }
            _ if !flights.is_empty() => {
                let k = rng.pick(flights.len());
                if has_cpu(&flights, k) && flights[k].fly(&mut mem) != Landing::Aloft {
                    flights.swap_remove(k);
                    done += 1;
                }
            }
            _ => {}
        }
        assert_eq!(mem.region(counters).iter().sum::<u64>(), done);
    }
    assert!(done > 100, "{done}");
    let mut slots = PerCpuCounter::new().into_slots();
    slots[..NCPUS].copy_from_slice(mem.region(counters));
    assert_eq!(PerCpuCounter::from_slots(slots).sum(), done);
}

#[test]
fn an_unfinished_increment_is_not_counted() {
    let (layout, prog, counters) = progs::counter_inc();
    let mut mem = Memory::new(&layout, NCPUS);
    let mut slow = Flight::new(&prog, None, 0);
    for _ in 0..3 {
        assert_eq!(slow.fly(&mut mem), Landing::Aloft);
    }
    // Preempted here: another thread counts on the same CPU, and the first
    // starts over.
    let mut fast = Flight::new(&prog, None, 0);
    slow.restart(0);
    while fast.fly(&mut mem) == Landing::Aloft {}
    assert_eq!(mem.region(counters)[0], 1);
    while slow.fly(&mut mem) == Landing::Aloft {}
    assert_eq!(mem.region(counters)[0], 2);
}

#[test]
fn nodes_in_flight_are_conserved() {
    let fl = progs::freelist(16);
    let (push, pop) = (fl.push(), fl.pop());
    let mut mem = Memory::new(&fl.layout, NCPUS);
    let mut rng = Rng::from_seed(5);
    let mut flights: Vec<Flight> = Vec::new();
    let mut free = BTreeSet::new();
    let mut popped = 0;
    for _ in 0..8000 {
        let node = rng.pick(16) as u64;
        match rng.pick(10) {
            0 if !free.contains(&node) && !pushing(&flights, node) && flights.len() < 6 => {
                flights.push(Flight::new(&push, Some(node), rng.pick(NCPUS)));
            }
            1 if flights.len() < 6 => flights.push(Flight::new(&pop, None, rng.pick(NCPUS))),
            2 if !flights.is_empty() => {
                let k = rng.pick(flights.len());
                flights[k].restart(rng.pick(NCPUS));
            }
            _ if !flights.is_empty() => {
                let k = rng.pick(flights.len());
                if has_cpu(&flights, k) {
                    let landing = flights[k].fly(&mut mem);
                    if landing != Landing::Aloft {
                        let f = flights.swap_remove(k);
                        match (landing, f.param) {
                            (Landing::Committed(None), Some(node)) => {
                                assert!(free.insert(node));
                            }
                            (Landing::Committed(Some(node)), None) => {
                                assert!(free.remove(&node));
                                popped += 1;
                            }
                            (landing, _) => assert_eq!(landing, Landing::Exited),
                        }
                    }
                }
            }
            _ => {}
        }
        assert_eq!(nodes_on_lists(&mem, fl.heads, fl.nodes), free);
    }
    assert!(popped > 50, "{popped}");
    let (mut heads, _) = PerCpuFreelist::new(16).into_parts();
    heads[..NCPUS].copy_from_slice(mem.region(fl.heads));
    let mut rest = PerCpuFreelist::from_parts(heads, mem.region(fl.nodes).to_vec());
    assert!(rest.is_intact());
    let all: Vec<u64> = rest.drain_all().into_iter().flatten().collect();
    assert_eq!(all.len(), free.len());
    assert_eq!(all.into_iter().collect::<BTreeSet<_>>(), free);
}

#[test]
fn drains_race_with_calls_in_flight() {
    let fl = progs::lockable_freelist(32);
    let (push, pop) = (fl.push(), fl.pop());
    let drains = DrainableFreelist::new(32, 0).unwrap_or_else(|e| panic!("{e:?}"));
    let mut mem = Memory::new(&fl.layout, NCPUS);
    let mut rng = Rng::from_seed(17);
    let mut flights: Vec<Flight> = Vec::new();
    let mut visits: Vec<(Drain, Vec<u64>)> = Vec::new();
    let mut free = BTreeSet::new();
    let (mut drained, mut cut_short) = (0, 0);
    for _ in 0..40_000 {
        let node = rng.pick(32) as u64;
        match rng.pick(20) {
            0 | 1 if !free.contains(&node) && !pushing(&flights, node) && flights.len() < 6 => {
                flights.push(Flight::new(&push, Some(node), rng.pick(NCPUS)));
            }
            2 if flights.len() < 6 => flights.push(Flight::new(&pop, None, rng.pick(NCPUS))),
            3 if !flights.is_empty() => {
                let k = rng.pick(flights.len());
                flights[k].restart(rng.pick(NCPUS));
            }
            4 if visits.len() < 3 => visits.push((drains.drain(rng.pick(NCPUS)), Vec::new())),
            5..=7 if !visits.is_empty() => {
                let k = rng.pick(visits.len());
                let (d, found) = &mut visits[k];
                match d.step() {
                    DrainStep::Fence => {
                        for f in &mut flights {
                            // Past the lock, and about to commit to its CPU.
                            cut_short += usize::from(f.cpu == d.cpu() && f.pc > 2);
                            f.restart(f.cpu);
                        }
                        *found = walk(&mem, fl.heads, fl.nodes, d.cpu());
                    }
                    DrainStep::ClearHead => {
                        for n in found.iter() {
                            assert!(free.remove(n));
                        }
                    }
                    _ => {}
                }
                advance(d, &mut mem, &fl);
                if d.step() == DrainStep::Done {
                    let (d, found) = visits.swap_remove(k);
                    drained += found.len();
                    assert_eq!(d.into_nodes(), found);
                }
            }
            _ if !flights.is_empty() => {
                let k = rng.pick(flights.len());
                if has_cpu(&flights, k) {
                    let landing = flights[k].fly(&mut mem);
                    if landing != Landing::Aloft {
                        let f = flights.swap_remove(k);
                        match (landing, f.param) {
                            (Landing::Committed(None), Some(node)) => {
                                assert!(free.insert(node));
                            }
                            (Landing::Committed(Some(node)), None) => {
                                assert!(free.remove(&node));
                            }
                            (landing, _) => assert_eq!(landing, Landing::Exited),
                        }
                    }
                }
            }
            _ => {}
        }
        assert_eq!(nodes_on_lists(&mem, fl.heads, fl.nodes), free);
    }
    assert!(drained > 100, "{drained}");
    assert!(cut_short > 20, "{cut_short}");
}

/// A pop has loaded the head of its CPU and the next pointer when a drain of
/// that CPU runs; then the pop goes on, from where it was or from the top.
/// What the pop does in the end, and what the drain took.
fn overtaken_pop(restarted: bool) -> (Landing, Vec<u64>) {
    let fl = progs::lockable_freelist(4);
    let mut mem = Memory::new(&fl.layout, NCPUS);
    let mut push = Flight::new(&fl.push(), Some(1), 0);
    while push.fly(&mut mem) == Landing::Aloft {}
    let mut pop = Flight::new(&fl.pop(), None, 0);
    while pop.pc + 1 < pop.ops.len() {
        assert_eq!(pop.fly(&mut mem), Landing::Aloft);
    }
    let drains = DrainableFreelist::new(4, 0).unwrap_or_else(|e| panic!("{e:?}"));
    let mut d = drains.drain(0);
    while d.step() != DrainStep::Done {
        if d.step() == DrainStep::Fence && restarted {
            pop.restart(0);
        }
        advance(&mut d, &mut mem, &fl);
    }
    let mut landing = pop.fly(&mut mem);
    while landing == Landing::Aloft {
        landing = pop.fly(&mut mem);
    }
    (landing, d.into_nodes())
}

#[test]
fn the_fence_keeps_a_node_from_being_taken_twice() {
    // Without the restart the node goes to the drain and to the pop.
    assert_eq!(overtaken_pop(false), (Landing::Committed(Some(1)), vec![1]));
    assert_eq!(overtaken_pop(true), (Landing::Exited, vec![1]));
}

#[test]
fn a_locked_cpu_is_left_by_calls_and_other_drains() {
    let fl = progs::lockable_freelist(4);
    let mut mem = Memory::new(&fl.layout, NCPUS);
    let mut push = Flight::new(&fl.push(), Some(2), 1);
    while push.fly(&mut mem) == Landing::Aloft {}
    let drains = DrainableFreelist::new(4, 0).unwrap_or_else(|e| panic!("{e:?}"));
    let mut first = drains.drain(1);
    advance(&mut first, &mut mem, &fl);
    assert_eq!(first.step(), DrainStep::Fence);
    let mut second = drains.drain(1);
    advance(&mut second, &mut mem, &fl);
    assert_eq!(second.step(), DrainStep::Done);
    assert_eq!(second.into_nodes(), Vec::<u64>::new());
    let mut pop = Flight::new(&fl.pop(), None, 1);
    assert_eq!(pop.fly(&mut mem), Landing::Aloft);
    assert_eq!(pop.fly(&mut mem), Landing::Aloft);
    assert_eq!(pop.fly(&mut mem), Landing::Exited);
    while first.step() != DrainStep::Done {
        advance(&mut first, &mut mem, &fl);
    }
    assert_eq!(first.into_nodes(), vec![2]);
}
