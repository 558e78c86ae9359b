//! The interpreter and the checker on small programs: every error, every kind
//! of failure, and exact values.

use rseq::check::{self, CheckConfig, FailureKind};
use rseq::ir::{
    imm, reg, Addr, BinOp, Cond, Layout, Op, Operand, Program, RegionId, SeqBuilder, ValidateError,
};
use rseq::progs;
use rseq::sim::{self, AbortPoint, Memory, Outcome, RunResult, SimConfig, SimError};

fn at(at: usize, new_cpu: usize) -> AbortPoint {
    AbortPoint { at, new_cpu }
}

fn run(
    prog: &Program,
    mem: &mut Memory,
    params: &[u64],
    cpu: usize,
    plan: &[AbortPoint],
) -> Result<RunResult, SimError> {
    sim::run(prog, mem, params, cpu, plan, SimConfig::default())
}

fn one_word() -> (Layout, RegionId) {
    let mut layout = Layout::new();
    let out = layout.published_shared("out", 1, 0);
    (layout, out)
}

fn computes(op: BinOp, a: u64, b: u64) -> u64 {
    let (layout, out) = one_word();
    let mut s = SeqBuilder::new("bin");
    let r = s.bin(op, imm(a), imm(b));
    let prog = s.commit(out, imm(0), reg(r));
    let mut mem = Memory::new(&layout, 1);
    run(&prog, &mut mem, &[], 0, &[]).unwrap();
    mem.region(out)[0]
}

fn exits(cond: Cond, a: u64, b: u64) -> bool {
    let (layout, out) = one_word();
    let mut s = SeqBuilder::new("exit");
    s.exit_if(cond, imm(a), imm(b));
    let prog = s.commit(out, imm(0), imm(1));
    let mut mem = Memory::new(&layout, 1);
    run(&prog, &mut mem, &[], 0, &[]).unwrap().outcome == Outcome::Exited
}

#[test]
fn binary_operations_wrap() {
    assert_eq!(computes(BinOp::Add, u64::MAX, 2), 1);
    assert_eq!(computes(BinOp::Sub, 1, 2), u64::MAX);
    assert_eq!(computes(BinOp::Mul, 1 << 63, 3), 1 << 63);
    assert_eq!(computes(BinOp::And, 0b1100, 0b1010), 0b1000);
    assert_eq!(computes(BinOp::Or, 0b1100, 0b1010), 0b1110);
    assert_eq!(computes(BinOp::Xor, 0b1100, 0b1010), 0b0110);
    assert_eq!(computes(BinOp::Shl, 1, 65), 2);
    assert_eq!(computes(BinOp::Shr, 1 << 63, 63), 1);
    assert_eq!(computes(BinOp::Shr, 8, (1 << 32) + 1), 4);
}

#[test]
fn conditions_compare_unsigned() {
    assert!(exits(Cond::Eq, 3, 3));
    assert!(!exits(Cond::Eq, 3, 4));
    assert!(exits(Cond::Ne, 3, 4));
    assert!(!exits(Cond::Ne, 3, 3));
    assert!(exits(Cond::Lt, 1, u64::MAX));
    assert!(!exits(Cond::Lt, 2, 2));
    assert!(exits(Cond::Ge, u64::MAX, 1));
    assert!(exits(Cond::Ge, 2, 2));
    assert!(!exits(Cond::Ge, 1, 2));
}

#[test]
fn fresh_memory_holds_the_declared_values() {
    let mut layout = Layout::new();
    let a = layout.published_per_cpu("a", 2, 7);
    let b = layout.scratch_shared("b", 3, 9);
    let c = layout.scratch_per_cpu("c", 1, 1);
    let d = layout.published_shared("d", 2, 4);
    let mem = Memory::new(&layout, 3);
    assert_eq!(mem.ncpus(), 3);
    assert_eq!(mem.region(a), &[7u64; 6][..]);
    assert_eq!(mem.region(b), &[9u64; 3][..]);
    assert_eq!(mem.region(c), &[1u64; 3][..]);
    assert_eq!(mem.region(d), &[4u64; 2][..]);
    assert_eq!(layout.decl(c).name, "c");
    assert!(layout.decl(c).per_cpu && !layout.decl(c).published);
    assert_eq!(mem.layout().regions.len(), 4);
    assert_eq!(mem.published_snapshot(), vec![(a, vec![7; 6]), (d, vec![4; 2])]);
}

#[test]
fn a_copy_of_memory_is_independent() {
    let (layout, out) = one_word();
    let mut mem = Memory::new(&layout, 1);
    mem.region_mut(out)[0] = 5;
    let copy = mem.clone();
    mem.region_mut(out)[0] = 6;
    assert_eq!(copy.region(out)[0], 5);
    assert_eq!(mem.region(out)[0], 6);
}

#[test]
fn reading_and_writing_out_of_bounds_are_errors() {
    let (layout, out) = one_word();
    let oob = Err(SimError::OutOfBounds { region: out, index: 3, len: 1 });

    let mut s = SeqBuilder::new("load");
    let v = s.load(out, imm(3));
    let load = s.commit(out, imm(0), reg(v));
    assert_eq!(run(&load, &mut Memory::new(&layout, 1), &[], 0, &[]), oob);

    let store = SeqBuilder::new("store").commit(out, imm(3), imm(1));
    assert_eq!(run(&store, &mut Memory::new(&layout, 1), &[], 0, &[]), oob);

    let mut layout = Layout::new();
    let pad = layout.scratch_shared("pad", 1, 0);
    let out = layout.published_shared("out", 1, 0);
    let mut s = SeqBuilder::new("scratch");
    s.store_scratch(pad, imm(1), imm(5));
    let scratch = s.commit(out, imm(0), imm(1));
    assert_eq!(
        run(&scratch, &mut Memory::new(&layout, 1), &[], 0, &[]),
        Err(SimError::OutOfBounds { region: pad, index: 1, len: 1 })
    );
}

#[test]
fn undefined_registers_are_errors() {
    let (layout, out) = one_word();
    let prog = Program {
        name: "undefined".into(),
        ops: vec![Op::Commit {
            addr: Addr { region: out, index: Operand::Imm(0) },
            src: Operand::Reg(4),
        }],
        ret: None,
    };
    let mut mem = Memory::new(&layout, 1);
    assert_eq!(run(&prog, &mut mem, &[], 0, &[]), Err(SimError::UndefinedReg(4)));

    // The returned operand is read after the commit.
    let prog = Program {
        name: "undefined_ret".into(),
        ops: vec![Op::Commit {
            addr: Addr { region: out, index: Operand::Imm(0) },
            src: Operand::Imm(8),
        }],
        ret: Some(Operand::Reg(2)),
    };
    assert_eq!(run(&prog, &mut mem, &[], 0, &[]), Err(SimError::UndefinedReg(2)));
    assert_eq!(mem.region(out)[0], 8);
}

#[test]
fn missing_parameters_and_bad_cpus_are_errors() {
    let fl = progs::freelist(2);
    let push = fl.push();
    let mut mem = Memory::new(&fl.layout, 2);
    assert_eq!(
        run(&push, &mut mem, &[], 0, &[]),
        Err(SimError::MissingParam { index: 0, nparams: 0 })
    );
    assert_eq!(
        run(&push, &mut mem, &[1], 2, &[]),
        Err(SimError::BadCpu { cpu: 2, ncpus: 2 })
    );
    assert_eq!(
        run(&push, &mut mem, &[1], 0, &[at(0, 7)]),
        Err(SimError::BadCpu { cpu: 7, ncpus: 2 })
    );
    assert_eq!(
        sim::run_prefix(&push, &mut mem, &[1], 5, 0),
        Err(SimError::BadCpu { cpu: 5, ncpus: 2 })
    );
}

#[test]
fn a_stale_cpu_id_commits_to_a_foreign_slice() {
    let (layout, prog, counters) = progs::counter_inc_hoisted();
    let mut mem = Memory::new(&layout, 2);
    assert_eq!(
        run(&prog, &mut mem, &[], 0, &[at(1, 1)]),
        Err(SimError::ForeignCommit { region: counters, index: 0, running_on: 1, owner: 0 })
    );
    assert_eq!(mem.region(counters), &[0u64, 0][..]);
}

#[test]
fn prefixes_stop_before_the_commit() {
    let (layout, prog, counters) = progs::counter_inc();
    let mut mem = Memory::new(&layout, 2);
    for k in 0..prog.ops.len() {
        assert_eq!(sim::run_prefix(&prog, &mut mem, &[], 1, k), Ok(()));
        assert_eq!(mem.region(counters), &[0u64, 0][..]);
    }
    assert_eq!(sim::run_prefix(&prog, &mut mem, &[], 1, prog.ops.len()), Ok(()));
    assert_eq!(mem.region(counters), &[0u64, 1][..]);
}

#[test]
fn validation_names_regions_and_returned_registers() {
    let (layout, out) = one_word();
    let unknown = SeqBuilder::new("unknown").commit(RegionId(9), imm(0), imm(1));
    assert_eq!(
        unknown.validate(&layout),
        Err(ValidateError::UnknownRegion { at: 0, region: RegionId(9) })
    );
    let ret = SeqBuilder::new("ret").commit_ret(out, imm(0), imm(1), reg(3));
    assert_eq!(ret.validate(&layout), Err(ValidateError::RetUndefined { reg: 3 }));
    let fine = SeqBuilder::new("fine").commit_ret(out, imm(0), imm(1), imm(3));
    assert_eq!(fine.validate(&layout), Ok(()));
}

#[test]
fn the_checker_reports_invalid_programs() {
    let (layout, _) = one_word();
    let prog = Program { name: "empty".into(), ops: vec![], ret: None };
    let failure = check::check(
        &prog,
        &layout,
        |_: &mut Memory| {},
        |_: &Memory| 0u64,
        &[],
        CheckConfig::default(),
    )
    .unwrap_err();
    assert!(matches!(failure.kind, FailureKind::Invalid(ValidateError::Empty)));
    assert_eq!(failure.start_cpu, 0);
    assert!(failure.plan.is_empty());
}

#[test]
fn the_checker_reports_simulation_errors_without_aborts() {
    let (layout, out) = one_word();
    let prog = SeqBuilder::new("store").commit(out, imm(3), imm(1));
    let failure = check::check(
        &prog,
        &layout,
        |_: &mut Memory| {},
        |_: &Memory| 0u64,
        &[],
        CheckConfig::default(),
    )
    .unwrap_err();
    assert!(matches!(
        failure.kind,
        FailureKind::Sim(SimError::OutOfBounds { region: RegionId(0), index: 3, len: 1 })
    ));
    assert!(failure.plan.is_empty());
}

#[test]
fn the_checker_reports_outcomes_that_depend_on_the_start() {
    let mut layout = Layout::new();
    let out = layout.published_per_cpu("out", 1, 0);
    let mut s = SeqBuilder::new("stale_exit");
    let cpu = s.cpu_id();
    let stale = s.cpu_id_hoisted();
    s.exit_if(Cond::Eq, reg(stale), imm(0));
    let prog = s.commit(out, reg(cpu), imm(1));
    let failure = check::check(
        &prog,
        &layout,
        |_: &mut Memory| {},
        |_: &Memory| 0u64,
        &[],
        CheckConfig { ncpus: 2, max_aborts: 1, sim: SimConfig::default() },
    )
    .unwrap_err();
    assert!(matches!(
        failure.kind,
        FailureKind::OutcomeMismatch {
            got: Outcome::Exited,
            want: Outcome::Committed { ret: None },
        }
    ));
    assert_eq!(failure.start_cpu, 0);
    assert_eq!(failure.plan, vec![at(0, 1)]);
}

#[test]
fn an_observable_mismatch_shows_both_values() {
    let (layout, prog, counters) = progs::counter_inc();
    let cfg = CheckConfig {
        ncpus: 1,
        max_aborts: 1,
        sim: SimConfig { post_commit_in_window: true },
    };
    let failure = check::check(
        &prog,
        &layout,
        |_: &mut Memory| {},
        |mem: &Memory| mem.region(counters).to_vec(),
        &[],
        cfg,
    )
    .unwrap_err();
    match failure.kind {
        FailureKind::ObservableMismatch { got, want } => {
            assert_eq!(got, "[2]");
            assert_eq!(want, "[1]");
        }
        other => panic!("{other:?}"),
    }
    assert_eq!(failure.plan, vec![at(prog.ops.len(), 0)]);
}

#[test]
fn the_checker_counts_schedules_and_prefixes() {
    let (layout, prog, counters) = progs::counter_inc();
    let n = prog.ops.len();
    assert_eq!(n, 4);
    let observe = |mem: &Memory| mem.region(counters).to_vec();
    let count = |ncpus: usize, max_aborts: usize| {
        let cfg = CheckConfig { ncpus, max_aborts, sim: SimConfig::default() };
        check::check(&prog, &layout, |_: &mut Memory| {}, observe, &[], cfg).unwrap()
    };
    let none = count(2, 0);
    assert_eq!((none.schedules, none.prefixes), (2, 2 * n));
    let one = count(2, 1);
    assert_eq!(one.schedules, 2 * (1 + n * 2));
    let two = count(3, 2);
    assert_eq!(two.schedules, 3 * (1 + n * 3 + n * 3 * n * 3));
    assert_eq!(two.prefixes, 3 * n);
}

#[test]
fn a_commit_that_is_never_reached_needs_no_slice() {
    let mut layout = Layout::new();
    let none = layout.published_per_cpu("none", 0, 0);
    let mut s = SeqBuilder::new("always_exits");
    s.exit_if(Cond::Eq, imm(1), imm(1));
    let prog = s.commit(none, imm(0), imm(5));
    let observe = |mem: &Memory| mem.region(none).to_vec();
    let cfg = CheckConfig::default();
    let stats = check::check(&prog, &layout, |_: &mut Memory| {}, observe, &[], cfg).unwrap();
    assert_eq!((stats.schedules, stats.prefixes), (129, 6));
}

#[test]
fn a_failing_program_is_caught_under_any_depth() {
    let (layout, prog, counters) = progs::counter_inc_hoisted();
    let failure = check::check(
        &prog,
        &layout,
        |_: &mut Memory| {},
        |mem: &Memory| mem.region(counters).to_vec(),
        &[],
        CheckConfig { ncpus: 3, max_aborts: 80, sim: SimConfig::default() },
    )
    .unwrap_err();
    assert!(matches!(failure.kind, FailureKind::Sim(SimError::ForeignCommit { .. })));
    assert_eq!(failure.plan.len(), 80);
    assert_eq!(failure.plan[78], at(0, 0));
    assert_eq!(failure.plan[79], at(0, 1));
}
