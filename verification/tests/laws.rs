//! The laws of the example programs and of restarts, on concrete values.

use rseq::check::{self, CheckConfig, FailureKind};
use rseq::ir::Program;
use rseq::progs::{self, NIL};
use rseq::sim::{self, AbortPoint, Memory, Outcome, RunResult, SimConfig, SimError};

fn at(at: usize, new_cpu: usize) -> AbortPoint {
    AbortPoint { at, new_cpu }
}

fn run(
    prog: &Program,
    mem: &mut Memory,
    params: &[u64],
    cpu: usize,
    plan: &[AbortPoint],
) -> RunResult {
    sim::run(prog, mem, params, cpu, plan, SimConfig::default()).unwrap()
}

fn committed(ret: Option<u64>, final_cpu: usize) -> RunResult {
    RunResult { outcome: Outcome::Committed { ret }, final_cpu }
}

fn exited(final_cpu: usize) -> RunResult {
    RunResult { outcome: Outcome::Exited, final_cpu }
}

#[test]
fn restarts_converge_on_the_last_cpu() {
    let (layout, prog, counters) = progs::counter_inc();
    let mut restarted = Memory::new(&layout, 3);
    let mut clean = Memory::new(&layout, 3);
    let plan = [at(3, 2), at(1, 0), at(2, 1)];
    assert_eq!(run(&prog, &mut restarted, &[], 0, &plan), run(&prog, &mut clean, &[], 1, &[]));
    assert_eq!(restarted.region(counters), clean.region(counters));
    assert_eq!(clean.region(counters), &[0u64, 1, 0][..]);
}

#[test]
fn every_run_of_the_counter_counts_once() {
    let (layout, prog, counters) = progs::counter_inc();
    for first in 0..prog.ops.len() {
        for second in 0..prog.ops.len() {
            let mut mem = Memory::new(&layout, 2);
            run(&prog, &mut mem, &[], 0, &[at(first, 1), at(second, 0)]);
            assert_eq!(mem.region(counters).iter().sum::<u64>(), 1);
        }
    }
}

#[test]
fn a_counter_wraps_at_the_end_of_a_word() {
    let (layout, prog, counters) = progs::counter_inc();
    let mut mem = Memory::new(&layout, 1);
    mem.region_mut(counters)[0] = u64::MAX;
    run(&prog, &mut mem, &[], 0, &[]);
    assert_eq!(mem.region(counters)[0], 0);
}

#[test]
fn the_strided_counter_bumps_the_first_word_of_its_slice() {
    let (layout, prog, counters) = progs::counter_inc_strided(4);
    let mut mem = Memory::new(&layout, 2);
    assert_eq!(run(&prog, &mut mem, &[], 1, &[]), committed(None, 1));
    assert_eq!(mem.region(counters), &[0u64, 0, 0, 0, 1, 0, 0, 0][..]);
}

#[test]
fn unreached_aborts_do_not_migrate() {
    let fl = progs::freelist(4);
    let pop = fl.pop();
    let mut mem = Memory::new(&fl.layout, 2);
    // The list is empty, so the run exits before the planned position.
    assert_eq!(run(&pop, &mut mem, &[], 0, &[at(pop.ops.len() - 1, 1)]), exited(0));
}

#[test]
fn one_migration_shows_the_hoisted_id() {
    let (layout, prog, counters) = progs::counter_inc_hoisted();
    let cfg = CheckConfig { ncpus: 2, max_aborts: 1, sim: SimConfig::default() };
    let failure = check::check(
        &prog,
        &layout,
        |_: &mut Memory| {},
        |mem: &Memory| mem.region(counters).to_vec(),
        &[],
        cfg,
    )
    .unwrap_err();
    assert_eq!(failure.plan, vec![at(0, 1)]);
    assert!(matches!(
        failure.kind,
        FailureKind::Sim(SimError::ForeignCommit { running_on: 1, owner: 0, .. })
    ));
}

#[test]
fn a_restart_after_the_commit_counts_twice() {
    let (layout, prog, counters) = progs::counter_inc();
    let mut mem = Memory::new(&layout, 2);
    let cfg = SimConfig { post_commit_in_window: true };
    let plan = [at(prog.ops.len(), 0)];
    sim::run(&prog, &mut mem, &[], 0, &plan, cfg).unwrap();
    assert_eq!(mem.region(counters), &[2u64, 0][..]);
}

#[test]
fn pop_undoes_push() {
    let fl = progs::freelist(4);
    let mut mem = Memory::new(&fl.layout, 2);
    mem.region_mut(fl.heads)[1] = 2;
    assert_eq!(run(&fl.push(), &mut mem, &[3], 1, &[]), committed(None, 1));
    assert_eq!(mem.region(fl.heads), &[NIL, 3][..]);
    assert_eq!(mem.region(fl.nodes)[3], 2);
    assert_eq!(run(&fl.pop(), &mut mem, &[], 1, &[]), committed(Some(3), 1));
    assert_eq!(mem.region(fl.heads), &[NIL, 2][..]);
    assert_eq!(run(&fl.pop(), &mut mem, &[], 1, &[]), committed(Some(2), 1));
    assert_eq!(run(&fl.pop(), &mut mem, &[], 1, &[]), exited(1));
}

#[test]
fn an_interrupted_push_adds_its_node_once() {
    let fl = progs::freelist(4);
    let push = fl.push();
    let mut mem = Memory::new(&fl.layout, 2);
    let plan = [at(push.ops.len() - 1, 1), at(push.ops.len() - 1, 0)];
    assert_eq!(run(&push, &mut mem, &[2], 1, &plan), committed(None, 0));
    assert_eq!(mem.region(fl.heads), &[2, NIL][..]);
    assert_eq!(mem.region(fl.nodes)[2], NIL);
}

#[test]
fn a_locked_cpu_keeps_its_list() {
    let fl = progs::lockable_freelist(4);
    let mut mem = Memory::new(&fl.layout, 2);
    mem.region_mut(fl.locks)[0] = 1;
    mem.region_mut(fl.heads)[0] = 1;
    assert_eq!(run(&fl.push(), &mut mem, &[2], 0, &[]), exited(0));
    assert_eq!(run(&fl.pop(), &mut mem, &[], 0, &[]), exited(0));
    assert_eq!(mem.region(fl.heads), &[1, NIL][..]);
    mem.region_mut(fl.locks)[0] = 0;
    assert_eq!(run(&fl.pop(), &mut mem, &[], 0, &[]), committed(Some(1), 0));
    assert_eq!(mem.region(fl.heads), &[NIL, NIL][..]);
}

#[test]
fn an_array_push_publishes_its_slot_by_the_index() {
    let pa = progs::push_array(2);
    let push = pa.push(42);
    let mut mem = Memory::new(&pa.layout, 2);
    let before_commit = [at(push.ops.len() - 1, 1)];
    assert_eq!(run(&push, &mut mem, &[], 0, &before_commit).final_cpu, 1);
    assert_eq!(mem.region(pa.committed), &[0u64, 1][..]);
    // The first attempt left its value behind, unpublished.
    assert_eq!(mem.region(pa.slots)[0], 42);
    assert_eq!(mem.region(pa.slots)[2], 42);
    run(&push, &mut mem, &[], 1, &[]);
    assert_eq!(run(&push, &mut mem, &[], 1, &[]), exited(1));
    assert_eq!(mem.region(pa.committed), &[0u64, 2][..]);
}
