//! What many calls conserve, on concrete histories.

use std::collections::BTreeSet;

use rseq::analysis::analyze;
use rseq::bench::{read_rows, Rng};
use rseq::ir::{imm, Cond, Layout, Program, RegionId, SeqBuilder};
use rseq::progs::{self, NIL};
use rseq::sim::{self, AbortPoint, Memory, Outcome, RunResult, SimConfig, SimError};

const NCPUS: usize = 3;

fn random_plan(rng: &mut Rng, len: usize) -> Vec<AbortPoint> {
    let aborts = rng.pick(4);
    (0..aborts).map(|_| AbortPoint { at: rng.pick(len), new_cpu: rng.pick(NCPUS) }).collect()
}

fn call(prog: &Program, mem: &mut Memory, params: &[u64], rng: &mut Rng) -> RunResult {
    let plan = random_plan(rng, prog.ops.len());
    sim::run(prog, mem, params, rng.pick(NCPUS), &plan, SimConfig::default()).unwrap()
}

/// Every node on a list, each of which must be there once.
fn nodes_on_lists(mem: &Memory, heads: RegionId, nodes: RegionId) -> BTreeSet<u64> {
    let mut seen = BTreeSet::new();
    for cpu in 0..NCPUS {
        let mut cur = mem.region(heads)[cpu];
        while cur != NIL {
            assert!(seen.insert(cur), "node {cur} on two lists");
            cur = mem.region(nodes)[cur as usize];
        }
    }
    seen
}

#[test]
fn the_sum_of_the_counters_is_the_number_of_runs() {
    let (layout, prog, counters) = progs::counter_inc();
    let mut mem = Memory::new(&layout, NCPUS);
    let mut rng = Rng::from_seed(7);
    for runs in 1..=500u64 {
        call(&prog, &mut mem, &[], &mut rng);
        assert_eq!(mem.region(counters).iter().sum::<u64>(), runs);
    }
}

#[test]
fn the_free_nodes_are_those_pushed_and_not_popped() {
    let fl = progs::freelist(16);
    let (push, pop) = (fl.push(), fl.pop());
    let mut mem = Memory::new(&fl.layout, NCPUS);
    let mut rng = Rng::from_seed(11);
    let mut free = BTreeSet::new();
    for _ in 0..500 {
        let node = rng.pick(16) as u64;
        if free.contains(&node) {
            let res = call(&pop, &mut mem, &[], &mut rng);
            if let Outcome::Committed { ret } = res.outcome {
                assert!(free.remove(&ret.unwrap()));
            }
        } else {
            call(&push, &mut mem, &[node], &mut rng);
            free.insert(node);
        }
        assert_eq!(nodes_on_lists(&mem, fl.heads, fl.nodes), free);
    }
}

#[test]
fn out_of_range_aborts_matter_only_if_they_fire() {
    let fl = progs::freelist(4);
    let pop = fl.pop();
    let mut mem = Memory::new(&fl.layout, 2);
    let late = AbortPoint { at: pop.ops.len() - 1, new_cpu: 9 };
    // The list is empty: the run exits before the planned position.
    assert_eq!(
        sim::run(&pop, &mut mem, &[], 1, &[late], SimConfig::default()),
        Ok(RunResult { outcome: Outcome::Exited, final_cpu: 1 })
    );
    mem.region_mut(fl.heads)[1] = 3;
    assert_eq!(
        sim::run(&pop, &mut mem, &[], 1, &[late], SimConfig::default()),
        Err(SimError::BadCpu { cpu: 9, ncpus: 2 })
    );
    // A run that fails leaves published memory alone.
    assert_eq!(mem.region(fl.heads), &[NIL, 3][..]);
}

#[test]
fn unreached_operations_need_no_region() {
    let mut layout = Layout::new();
    let out = layout.published_shared("out", 1, 0);
    let mut s = SeqBuilder::new("exits_first");
    s.exit_if(Cond::Eq, imm(1), imm(1));
    let _ = s.load(RegionId(9), imm(0));
    let prog = s.commit(out, imm(0), imm(5));
    let mut mem = Memory::new(&layout, 1);
    assert_eq!(
        sim::run(&prog, &mut mem, &[], 0, &[], SimConfig::default()),
        Ok(RunResult { outcome: Outcome::Exited, final_cpu: 0 })
    );
    // A prefix does not look at what it leaves out.
    let mut layout = Layout::new();
    let none = layout.published_per_cpu("none", 0, 0);
    let mut s = SeqBuilder::new("empty_slices");
    let _ = s.cpu_id();
    let prog = s.commit(none, imm(0), imm(5));
    let mut mem = Memory::new(&layout, 1);
    assert_eq!(sim::run_prefix(&prog, &mut mem, &[], 0, 1), Ok(()));
}

#[test]
fn the_report_does_not_depend_on_the_order_of_files() {
    let arms =
        ["mutex", "rseq-jit-pad", "atomic-shard", "rseq-jit-nopad", "rseq-asm-nopad", "atomic-shared"];
    let file = |domain: &str, threads: usize, speed: u64, n: usize| {
        let mut s = String::new();
        for (k, a) in arms.iter().enumerate().take(n) {
            s.push_str(&format!("0,{domain},{threads},10,{a},5,{}.{k},{speed}\n", speed));
        }
        s.chars().collect::<Vec<char>>()
    };
    let one = vec![file("all", 1, 3, 6), file("all", 1, 8, 6), file("pcore", 2, 5, 5)];
    let other = vec![one[2].clone(), one[1].clone(), one[0].clone()];
    let report = |files: &Vec<Vec<char>>| {
        let rows = read_rows(files);
        let a = analyze(&rows);
        let cells: Vec<_> = a
            .cells
            .iter()
            .map(|c| {
                let mut samples: Vec<_> = c
                    .samples
                    .iter()
                    .map(|s| (rows[s.row].mops.clone(), s.baseline.map(|b| rows[b].mops.clone())))
                    .collect();
                samples.sort();
                (c.domain.clone(), c.bucket, c.arm.clone(), samples)
            })
            .collect();
        let aborts: Vec<_> = a
            .aborts
            .iter()
            .map(|c| {
                let mut tallies: Vec<u64> = c.rows.iter().map(|r| rows[*r].aborts).collect();
                tallies.sort_unstable();
                (c.domain.clone(), c.bucket, tallies)
            })
            .collect();
        (cells, aborts, a.dropped)
    };
    let (cells, aborts, dropped) = report(&one);
    assert_eq!((cells, aborts, dropped), report(&other));
    assert_eq!(dropped, 1);
    assert_eq!(report(&one).0.len(), 6);
    assert_eq!(report(&one).1.len(), 2);
}
