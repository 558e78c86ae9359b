//! Exhaustive abort-schedule model checker.
//!
//! For a given program the checker enumerates every abort schedule up to a
//! bounded depth (every abort position within an attempt, crossed with every
//! possible destination CPU) and verifies that the run is indistinguishable
//! from the abort-free run:
//!
//! 1. **Prefix purity**: executing any prefix that excludes the commit leaves
//!    published memory untouched.
//! 2. **Restart equivalence**: for every abort schedule, the outcome and the
//!    user-supplied observable state equal those of a clean (abort-free) run
//!    on the CPU the schedule ends on. Scratch scribbles from aborted
//!    attempts must be masked by the observable function: that is the
//!    abstraction the tcmalloc trick relies on.
//! 3. **Ownership**: the simulator rejects commits to another CPU's slice,
//!    so schedules that migrate a stale CPU id surface as `ForeignCommit`.

use std::fmt::Debug;

use vstd::prelude::*;
use vstd::std_specs::cmp::PartialEqSpec;

use crate::ir::{Layout, Op, Operand, Program, RegionDecl, ValidateError};
use crate::sim::{
    AbortPoint, Memory, Outcome, RunResult, Setting, SimConfig, SimError, Words,
};

verus! {

#[derive(Clone, Copy, Debug)]
pub struct CheckConfig {
    /// Number of simulated CPUs. 3 distinguishes "back where I started" from
    /// "somewhere new" after two migrations.
    pub ncpus: usize,
    /// Maximum number of aborts per schedule.
    pub max_aborts: usize,
    pub sim: SimConfig,
}

impl Default for CheckConfig {
    fn default() -> (cfg: Self)
        ensures
            cfg.ncpus == 3,
            cfg.max_aborts == 2,
            !cfg.sim.post_commit_in_window,
    {
        CheckConfig { ncpus: 3, max_aborts: 2, sim: SimConfig::default() }
    }
}

#[derive(Clone, Debug)]
pub struct CheckFailure {
    pub start_cpu: usize,
    pub plan: Vec<AbortPoint>,
    pub kind: FailureKind,
}

#[derive(Clone, Debug)]
pub enum FailureKind {
    Invalid(ValidateError),
    Sim(SimError),
    OutcomeMismatch { got: Outcome, want: Outcome },
    ObservableMismatch { got: String, want: String },
    PrefixImpure { prefix_len: usize, region: String, index: usize, before: u64, after: u64 },
}

#[derive(Clone, Copy, Debug)]
pub struct Stats {
    pub schedules: usize,
    pub prefixes: usize,
}

impl Default for Stats {
    fn default() -> (s: Self)
        ensures
            s.schedules == 0,
            s.prefixes == 0,
    {
        Stats { schedules: 0, prefixes: 0 }
    }
}

/// Why one schedule, or one prefix, does not pass.
pub enum Flaw {
    Sim(SimError),
    Outcome { got: Outcome, want: Outcome },
    Observable,
}

/// The first flaw in the order of enumeration, and where it was found.
pub struct Finding {
    pub start_cpu: usize,
    pub plan: Seq<AbortPoint>,
    pub flaw: Flaw,
}

/// `f` reports the finding `want`. The texts of an observable mismatch are
/// for the reader and are not pinned down.
pub open spec fn reports(f: CheckFailure, want: Finding) -> bool {
    &&& f.start_cpu == want.start_cpu
    &&& f.plan@ == want.plan
    &&& reports_kind(f.kind, want.flaw)
}

pub open spec fn reports_kind(kind: FailureKind, want: Flaw) -> bool {
    match want {
        Flaw::Sim(e) => kind == FailureKind::Sim(e),
        Flaw::Outcome { got, want } => kind == FailureKind::OutcomeMismatch { got, want },
        Flaw::Observable => kind is ObservableMismatch,
    }
}

/// What the checker is asked to examine: a program in its surroundings, the
/// memory every run starts from, and what other actors can see of memory.
pub struct Trial {
    pub decls: Seq<RegionDecl>,
    pub ncpus: usize,
    pub params: Seq<u64>,
    pub ops: Seq<Op>,
    pub ret: Option<Operand>,
    pub post_commit_in_window: bool,
    pub init: Words,
    /// Whether two memories look alike to the other actors.
    pub alike: spec_fn(Words, Words) -> bool,
}

impl Trial {
    pub open spec fn setting(self, start_cpu: usize) -> Setting {
        Setting { decls: self.decls, ncpus: self.ncpus, params: self.params, start_cpu }
    }

    /// A run under `plan`, from the common initial memory.
    pub open spec fn run(self, start_cpu: usize, plan: Seq<AbortPoint>) -> (
        Result<RunResult, SimError>,
        Words,
    ) {
        crate::sim::whole_run(
            self.setting(start_cpu),
            self.ops,
            self.ret,
            self.post_commit_in_window,
            plan,
            self.init,
        )
    }

    /// The abort-free run on `cpu` that other runs are held against.
    pub open spec fn clean_run(self, cpu: usize) -> (Result<RunResult, SimError>, Words) {
        crate::sim::whole_run(self.setting(cpu), self.ops, self.ret, false, seq![], self.init)
    }

    /// What is wrong with the run under `plan`, if anything: it or its
    /// reference fails, or the two differ in outcome or in observable state.
    /// The reference is a clean run on the CPU the run finished on.
    pub open spec fn flaw(self, start_cpu: usize, plan: Seq<AbortPoint>) -> Option<Flaw> {
        let (got, got_words) = self.run(start_cpu, plan);
        match got {
            Err(e) => Some(Flaw::Sim(e)),
            Ok(got) => {
                let (want, want_words) = self.clean_run(got.final_cpu);
                match want {
                    Err(e) => Some(Flaw::Sim(e)),
                    Ok(want) => if got.outcome != want.outcome {
                        Some(Flaw::Outcome { got: got.outcome, want: want.outcome })
                    } else if !(self.alike)(got_words, want_words) {
                        Some(Flaw::Observable)
                    } else {
                        None
                    },
                }
            },
        }
    }

    /// A schedule that the checker tries.
    pub open spec fn tries(self, start_cpu: usize, plan: Seq<AbortPoint>, max_aborts: nat) -> bool {
        &&& start_cpu < self.ncpus
        &&& plan.len() <= max_aborts
        &&& crate::laws::enumerable(self, plan, 0)
    }

    /// No run that the checker makes reaches a commit to an empty slice.
    pub open spec fn stays_addressable(self, max_aborts: nat) -> bool {
        forall|start_cpu: usize, plan: Seq<AbortPoint>| #[trigger]
            self.tries(start_cpu, plan, max_aborts) ==> crate::sim::run_addressable(
                self.setting(start_cpu),
                self.ops,
                self.post_commit_in_window,
                start_cpu,
                plan,
                self.init,
            )
    }

    /// First position a plan entry cannot have: past the last operation, or
    /// past the commit when the modelled window contains it.
    pub open spec fn max_at(self) -> int {
        self.ops.len() + if self.post_commit_in_window {
            1int
        } else {
            0int
        }
    }

    /// The first failing prefix on `cpu`, from length `k` on.
    pub open spec fn first_bad_prefix_on(self, cpu: usize, k: int) -> Option<Finding>
        decreases self.ops.len() - k,
    {
        if k >= self.ops.len() {
            None
        } else {
            match crate::sim::prefix_end(self.setting(cpu), self.ops, k, self.init).0 {
                Err(e) => Some(Finding { start_cpu: cpu, plan: seq![], flaw: Flaw::Sim(e) }),
                Ok(_) => self.first_bad_prefix_on(cpu, k + 1),
            }
        }
    }

    /// The first failing prefix on any CPU from `cpu` on.
    pub open spec fn first_bad_prefix(self, cpu: int) -> Option<Finding>
        decreases self.ncpus - cpu,
    {
        if cpu >= self.ncpus {
            None
        } else {
            match self.first_bad_prefix_on(cpu as usize, 0) {
                Some(f) => Some(f),
                None => self.first_bad_prefix(cpu + 1),
            }
        }
    }

    /// The first flawed schedule among `plan` and its extensions by up to
    /// `depth` more aborts.
    pub open spec fn first_bad_from(
        self,
        start_cpu: usize,
        plan: Seq<AbortPoint>,
        depth: nat,
    ) -> Option<Finding>
        decreases depth, self.max_at() + 1, 0int,
    {
        match self.flaw(start_cpu, plan) {
            Some(flaw) => Some(Finding { start_cpu, plan, flaw }),
            None => if depth == 0 {
                None
            } else {
                self.first_bad_child(start_cpu, plan, depth, 0, 0)
            },
        }
    }

    /// The first flawed schedule among the proper extensions of `plan` whose
    /// next abort is at `at` on CPU `cpu` or later in the enumeration.
    pub open spec fn first_bad_child(
        self,
        start_cpu: usize,
        plan: Seq<AbortPoint>,
        depth: nat,
        at: int,
        cpu: int,
    ) -> Option<Finding>
        decreases depth, self.max_at() - at, self.ncpus - cpu,
    {
        if depth == 0 || at >= self.max_at() {
            None
        } else if cpu >= self.ncpus {
            self.first_bad_child(start_cpu, plan, depth, at + 1, 0)
        } else {
            match self.first_bad_from(
                start_cpu,
                plan.push(AbortPoint { at: at as usize, new_cpu: cpu as usize }),
                (depth - 1) as nat,
            ) {
                Some(f) => Some(f),
                None => self.first_bad_child(start_cpu, plan, depth, at, cpu + 1),
            }
        }
    }

    /// The first flawed schedule that starts on `cpu` or a later CPU.
    pub open spec fn first_bad_start(self, cpu: int, max_aborts: nat) -> Option<Finding>
        decreases self.ncpus - cpu,
    {
        if cpu >= self.ncpus {
            None
        } else {
            match self.first_bad_from(cpu as usize, seq![], max_aborts) {
                Some(f) => Some(f),
                None => self.first_bad_start(cpu + 1, max_aborts),
            }
        }
    }

    /// What the checker finds first: failing prefixes, then schedules.
    pub open spec fn first_bad(self, max_aborts: nat) -> Option<Finding> {
        match self.first_bad_prefix(0) {
            Some(f) => Some(f),
            None => self.first_bad_start(0, max_aborts),
        }
    }
}

/// Number of schedules in a tree of depth `depth` where each schedule has
/// `branches` extensions by one abort.
pub open spec fn schedule_count(branches: nat, depth: nat) -> nat
    decreases depth,
{
    if depth == 0 {
        1
    } else {
        1 + branches * schedule_count(branches, (depth - 1) as nat)
    }
}

/// The question put to the checker, from its arguments.
pub open spec fn trial_of(
    prog: Program,
    layout: Layout,
    params: Seq<u64>,
    cfg: CheckConfig,
    init: Words,
    alike: spec_fn(Words, Words) -> bool,
) -> Trial {
    Trial {
        decls: layout@,
        ncpus: cfg.ncpus,
        params,
        ops: prog.ops@,
        ret: prog.ret,
        post_commit_in_window: cfg.sim.post_commit_in_window,
        init,
        alike,
    }
}

/// `m` is memory for `layout` with `ncpus` CPUs.
pub open spec fn memory_for(m: Memory, layout: Layout, ncpus: usize) -> bool {
    &&& m.wf()
    &&& m.decls() == layout@
    &&& m.cpus() == ncpus
}

/// `m` is memory for `layout` as it is before setup.
pub open spec fn fresh_for(m: Memory, layout: Layout, ncpus: usize) -> bool {
    &&& memory_for(m, layout, ncpus)
    &&& m@ == crate::sim::fresh_words(layout@, ncpus as int)
}

/// What the closure `f` returns for two memories is equal, by the `==` of its
/// type, exactly if `alike` holds of what the memories hold.
pub open spec fn observes<V: PartialEq, O: Fn(&Memory) -> V>(
    f: O,
    layout: Layout,
    ncpus: usize,
    alike: spec_fn(Words, Words) -> bool,
) -> bool {
    forall|m: &Memory, v: V, n: &Memory, w: V| #[trigger]
        f.ensures((m,), v) && memory_for(*m, layout, ncpus) && #[trigger] f.ensures((n,), w)
            && memory_for(*n, layout, ncpus) ==> v.eq_spec(&w) == alike(m@, n@)
}

/// The question with nothing observed: what is left is that no run fails, and
/// that every run has the outcome of its clean run.
pub open spec fn unobserved(
    prog: Program,
    layout: Layout,
    params: Seq<u64>,
    cfg: CheckConfig,
    init: Words,
) -> Trial {
    trial_of(prog, layout, params, cfg, init, |a: Words, b: Words| true)
}

/// A per-CPU region that the program commits to has non-empty slices.
pub open spec fn slices_nonempty(decls: Seq<RegionDecl>, ops: Seq<Op>) -> bool {
    forall|i: int|
        0 <= i < ops.len() && (#[trigger] ops[i]) is Commit ==> {
            let r = ops[i].region().unwrap();
            r.0 < decls.len() && decls[r.0 as int].per_cpu ==> decls[r.0 as int].words > 0
        }
}

/// What a word shows of the count `n`: counts of more than a word holds wrap
/// around.
pub open spec fn counted(n: int) -> int {
    n % (usize::MAX + 1)
}

/// Counting on from a count.
proof fn lemma_counting_on(a: int, b: int)
    ensures
        counted(counted(a) + b) == counted(a + b),
        0 <= a <= usize::MAX ==> counted(a) == a,
{
    let m = usize::MAX + 1;
    vstd::arithmetic::div_mod::lemma_add_mod_noop(a, b, m);
    vstd::arithmetic::div_mod::lemma_add_mod_noop(counted(a), b, m);
    vstd::arithmetic::div_mod::lemma_mod_twice(a, m);
    if 0 <= a <= usize::MAX {
        vstd::arithmetic::div_mod::lemma_small_mod(a as nat, m as nat);
    }
}

/// One more.
fn one_more(n: usize) -> (m: usize)
    ensures
        m == counted(n + 1),
{
    proof {
        lemma_counting_on(n + 1, 0);
        vstd::arithmetic::div_mod::lemma_mod_self_0(usize::MAX + 1);
    }
    n.wrapping_add(1)
}

/// Number of schedules for one starting CPU.
pub open spec fn schedules_per_start(prog: Program, cfg: CheckConfig) -> nat {
    schedule_count(branches(prog, cfg), cfg.max_aborts as nat)
}

/// Number of ways to add one abort to a schedule.
pub open spec fn branches(prog: Program, cfg: CheckConfig) -> nat {
    (prog.ops@.len() + if cfg.sim.post_commit_in_window {
        1nat
    } else {
        0nat
    }) * cfg.ncpus as nat
}

/// The text of a value as its `Debug` form prints it, made by std's `format!`.
/// What it says is up to the value's type: nothing is claimed of it.
#[verifier::external_body]
fn debug_text<V: Debug>(v: &V) -> (text: String) {
    format!("{v:?}")
}

/// Run the program under one plan and hold it against the clean run.
fn run_one<V, S, O>(
    prog: &Program,
    layout: &Layout,
    setup: &S,
    observe: &O,
    params: &[u64],
    cfg: &CheckConfig,
    start_cpu: usize,
    plan: &Vec<AbortPoint>,
) -> (res: Result<(), CheckFailure>) where
    V: PartialEq + Debug,
    S: Fn(&mut Memory),
    O: Fn(&Memory) -> V,

    requires
        crate::sim::sizes_fit(layout@, cfg.ncpus as int),
        crate::sim::addressable(layout@, prog.ops@) || (forall|m: &mut Memory| #[trigger]
            call_ensures(*setup, (m,), ()) && fresh_for(*m, *layout, cfg.ncpus) ==> unobserved(
                *prog,
                *layout,
                params@,
                *cfg,
                final(m)@,
            ).stays_addressable(cfg.max_aborts as nat)),
        start_cpu < cfg.ncpus,
        plan@.len() <= cfg.max_aborts,
        forall|i: int|
            0 <= i < plan@.len() ==> (#[trigger] plan@[i]).new_cpu < cfg.ncpus && plan@[i].at
                < prog.ops@.len() + if cfg.sim.post_commit_in_window {
                1int
            } else {
                0int
            },
        forall|m: &mut Memory|
            fresh_for(*m, *layout, cfg.ncpus) ==> #[trigger] call_requires(*setup, (m,)),
        forall|m: &mut Memory| #[trigger]
            call_ensures(*setup, (m,), ()) && fresh_for(*m, *layout, cfg.ncpus) ==> memory_for(
                *final(m),
                *layout,
                cfg.ncpus,
            ),
        forall|m: &Memory|
            memory_for(*m, *layout, cfg.ncpus) ==> #[trigger] call_requires(*observe, (m,)),
    ensures
        res matches Err(f) ==> !(f.kind is PrefixImpure) && !(f.kind is Invalid),
        forall|init: Words, alike: spec_fn(Words, Words) -> bool|
            (forall|m: &mut Memory| #[trigger]
                call_ensures(*setup, (m,), ()) && fresh_for(*m, *layout, cfg.ncpus)
                    ==> final(m)@ == init) && observes(*observe, *layout, cfg.ncpus, alike)
                && V::obeys_eq_spec()
                ==> match (#[trigger] trial_of(*prog, *layout, params@, *cfg, init, alike)).flaw(
                start_cpu,
                plan@,
            ) {
                None => res is Ok,
                Some(flaw) => res matches Err(f) && reports(
                    f,
                    Finding { start_cpu, plan: plan@, flaw },
                ),
            },
        forall|init: Words|
            (forall|m: &mut Memory| #[trigger]
                call_ensures(*setup, (m,), ()) && fresh_for(*m, *layout, cfg.ncpus)
                    ==> final(m)@ == init) ==> match (#[trigger] unobserved(
                *prog,
                *layout,
                params@,
                *cfg,
                init,
            )).flaw(start_cpu, plan@) {
                None => res matches Err(f) ==> f.kind is ObservableMismatch,
                Some(flaw) => res matches Err(f) && reports(
                    f,
                    Finding { start_cpu, plan: plan@, flaw },
                ),
            },
{
    let mut mem = Memory::new(layout, cfg.ncpus);
    setup(&mut mem);
    proof {
        let t = unobserved(*prog, *layout, params@, *cfg, mem@);
        assert(t.tries(start_cpu, plan@, cfg.max_aborts as nat));
    }
    let got = match crate::sim::run(prog, &mut mem, params, start_cpu, plan.as_slice(), cfg.sim) {
        Ok(got) => got,
        Err(e) => {
            return Err(CheckFailure { start_cpu, plan: plan.clone(), kind: FailureKind::Sim(e) });
        },
    };

    // The final attempt runs entirely on the CPU the run actually finished
    // on, so the reference is a clean run on that CPU from the same initial
    // state. (Plan entries positioned past an early exit never fire, so this
    // is the simulator-reported final CPU, not the plan's last entry.)
    let mut want_mem = Memory::new(layout, cfg.ncpus);
    setup(&mut want_mem);
    let no_aborts: Vec<AbortPoint> = Vec::new();
    proof {
        let t = unobserved(*prog, *layout, params@, *cfg, want_mem@);
        if got.final_cpu < cfg.ncpus {
            assert(t.tries(got.final_cpu, no_aborts@, cfg.max_aborts as nat));
        }
    }
    let want = match crate::sim::run(
        prog,
        &mut want_mem,
        params,
        got.final_cpu,
        no_aborts.as_slice(),
        SimConfig::default(),
    ) {
        Ok(want) => want,
        Err(e) => {
            return Err(CheckFailure { start_cpu, plan: plan.clone(), kind: FailureKind::Sim(e) });
        },
    };
    let want_obs = observe(&want_mem);
    if got.outcome != want.outcome {
        return Err(
            CheckFailure {
                start_cpu,
                plan: plan.clone(),
                kind: FailureKind::OutcomeMismatch { got: got.outcome, want: want.outcome },
            },
        );
    }
    let obs = observe(&mem);
    if obs != want_obs {
        return Err(
            CheckFailure {
                start_cpu,
                plan: plan.clone(),
                kind: FailureKind::ObservableMismatch {
                    got: debug_text(&obs),
                    want: debug_text(&want_obs),
                },
            },
        );
    }
    Ok(())
}

proof fn lemma_children_count(done: int, total: int, each: int)
    requires
        0 <= done < total,
        0 <= each,
    ensures
        (done + 1) * each == done * each + each,
        (done + 1) * each <= total * each,
{
    assert((done + 1) * each == done * each + each) by (nonlinear_arith);
    assert((done + 1) * each <= total * each) by (nonlinear_arith)
        requires
            done + 1 <= total,
            0 <= each,
    ;
}

/// What is returned agrees with what is found with nothing observed: a pass
/// means that nothing is, and a failure other than a difference in what is
/// observed reports it.
pub open spec fn agrees<T>(res: Result<T, CheckFailure>, found: Option<Finding>) -> bool {
    match found {
        None => res matches Err(f) ==> f.kind is ObservableMismatch,
        Some(want) => res matches Err(f) && (reports(f, want) || f.kind is ObservableMismatch),
    }
}

/// Check `plan` and every extension of it up to the maximum length.
#[verifier::loop_isolation(false)]
fn check_schedules<V, S, O>(
    prog: &Program,
    layout: &Layout,
    setup: &S,
    observe: &O,
    params: &[u64],
    cfg: &CheckConfig,
    start_cpu: usize,
    plan: &mut Vec<AbortPoint>,
    stats: &mut Stats,
    max_at: usize,
) -> (res: Result<(), CheckFailure>) where
    V: PartialEq + Debug,
    S: Fn(&mut Memory),
    O: Fn(&Memory) -> V,

    requires
        crate::sim::sizes_fit(layout@, cfg.ncpus as int),
        crate::sim::addressable(layout@, prog.ops@) || (forall|m: &mut Memory| #[trigger]
            call_ensures(*setup, (m,), ()) && fresh_for(*m, *layout, cfg.ncpus) ==> unobserved(
                *prog,
                *layout,
                params@,
                *cfg,
                final(m)@,
            ).stays_addressable(cfg.max_aborts as nat)),
        start_cpu < cfg.ncpus,
        forall|i: int|
            0 <= i < old(plan)@.len() ==> (#[trigger] old(plan)@[i]).new_cpu < cfg.ncpus
                && old(plan)@[i].at < max_at,
        forall|m: &mut Memory|
            fresh_for(*m, *layout, cfg.ncpus) ==> #[trigger] call_requires(*setup, (m,)),
        forall|m: &mut Memory| #[trigger]
            call_ensures(*setup, (m,), ()) && fresh_for(*m, *layout, cfg.ncpus) ==> memory_for(
                *final(m),
                *layout,
                cfg.ncpus,
            ),
        forall|m: &Memory|
            memory_for(*m, *layout, cfg.ncpus) ==> #[trigger] call_requires(*observe, (m,)),
        old(plan)@.len() <= cfg.max_aborts,
        branches(*prog, *cfg) == max_at * cfg.ncpus,
        max_at == prog.ops@.len() + if cfg.sim.post_commit_in_window {
            1int
        } else {
            0int
        },
    ensures
        final(stats).prefixes == old(stats).prefixes,
        res is Ok ==> final(plan)@ == old(plan)@ && final(stats).schedules == counted(
            old(stats).schedules + schedule_count(
                branches(*prog, *cfg),
                (cfg.max_aborts - old(plan)@.len()) as nat,
            ),
        ),
        res matches Err(f) ==> !(f.kind is PrefixImpure) && !(f.kind is Invalid),
        forall|init: Words, alike: spec_fn(Words, Words) -> bool|
            (forall|m: &mut Memory| #[trigger]
                call_ensures(*setup, (m,), ()) && fresh_for(*m, *layout, cfg.ncpus)
                    ==> final(m)@ == init) && observes(*observe, *layout, cfg.ncpus, alike)
                && V::obeys_eq_spec()
                ==> match (#[trigger] trial_of(
                *prog,
                *layout,
                params@,
                *cfg,
                init,
                alike,
            )).first_bad_from(
                start_cpu,
                old(plan)@,
                (cfg.max_aborts - old(plan)@.len()) as nat,
            ) {
                None => res is Ok,
                Some(want) => res matches Err(f) && reports(f, want),
            },
        forall|init: Words|
            (forall|m: &mut Memory| #[trigger]
                call_ensures(*setup, (m,), ()) && fresh_for(*m, *layout, cfg.ncpus)
                    ==> final(m)@ == init) ==> agrees(
                res,
                (#[trigger] unobserved(*prog, *layout, params@, *cfg, init)).first_bad_from(
                    start_cpu,
                    old(plan)@,
                    (cfg.max_aborts - old(plan)@.len()) as nat,
                ),
            ),
    decreases cfg.max_aborts - old(plan)@.len(),
{
    let ghost depth = (cfg.max_aborts - plan@.len()) as nat;
    let ghost before = stats.schedules as int;
    let ghost each = if depth == 0 {
        0int
    } else {
        schedule_count(branches(*prog, *cfg), (depth - 1) as nat) as int
    };
    stats.schedules = one_more(stats.schedules);
    if let Err(f) = run_one(prog, layout, setup, observe, params, cfg, start_cpu, plan) {
        return Err(f);
    }
    if plan.len() == cfg.max_aborts {
        return Ok(());
    }
    let ghost total = max_at * cfg.ncpus;
    assert((0 * cfg.ncpus) * each == 0) by (nonlinear_arith);
    let mut at: usize = 0;
    while at < max_at
        invariant
            at <= max_at,
            plan@ == old(plan)@,
            stats.prefixes == old(stats).prefixes,
            stats.schedules == counted(before + 1 + (at * cfg.ncpus) * each),
            forall|init: Words, alike: spec_fn(Words, Words) -> bool|
                    (forall|m: &mut Memory| #[trigger]
                        call_ensures(*setup, (m,), ()) && fresh_for(*m, *layout, cfg.ncpus)
                            ==> final(m)@ == init) && observes(*observe, *layout, cfg.ncpus, alike)
                        && V::obeys_eq_spec() ==> {
                        let t = #[trigger] trial_of(*prog, *layout, params@, *cfg, init, alike);
                        t.first_bad_from(start_cpu, old(plan)@, depth) == t.first_bad_child(
                            start_cpu,
                            old(plan)@,
                            depth,
                            at as int,
                            0,
                        )
                    },
            forall|init: Words|
                (forall|m: &mut Memory| #[trigger]
                    call_ensures(*setup, (m,), ()) && fresh_for(*m, *layout, cfg.ncpus)
                        ==> final(m)@ == init) ==> {
                    let t = #[trigger] unobserved(*prog, *layout, params@, *cfg, init);
                    t.first_bad_from(start_cpu, old(plan)@, depth) == t.first_bad_child(
                        start_cpu,
                        old(plan)@,
                        depth,
                        at as int,
                        0,
                    )
                },
        decreases max_at - at,
    {
        proof {
            lemma_children_count(at as int, max_at as int, cfg.ncpus as int);
        }
        let mut new_cpu: usize = 0;
        while new_cpu < cfg.ncpus
            invariant
                at < max_at,
                new_cpu <= cfg.ncpus,
                plan@ == old(plan)@,
                stats.prefixes == old(stats).prefixes,
                stats.schedules == counted(before + 1 + (at * cfg.ncpus + new_cpu) * each),
                forall|init: Words, alike: spec_fn(Words, Words) -> bool|
                    (forall|m: &mut Memory| #[trigger]
                        call_ensures(*setup, (m,), ()) && fresh_for(*m, *layout, cfg.ncpus)
                            ==> final(m)@ == init) && observes(*observe, *layout, cfg.ncpus, alike)
                        && V::obeys_eq_spec() ==> {
                        let t = #[trigger] trial_of(*prog, *layout, params@, *cfg, init, alike);
                        t.first_bad_from(start_cpu, old(plan)@, depth) == t.first_bad_child(
                            start_cpu,
                            old(plan)@,
                            depth,
                            at as int,
                            new_cpu as int,
                        )
                    },
                forall|init: Words|
                    (forall|m: &mut Memory| #[trigger]
                        call_ensures(*setup, (m,), ()) && fresh_for(*m, *layout, cfg.ncpus)
                            ==> final(m)@ == init) ==> {
                        let t = #[trigger] unobserved(*prog, *layout, params@, *cfg, init);
                        t.first_bad_from(start_cpu, old(plan)@, depth) == t.first_bad_child(
                            start_cpu,
                            old(plan)@,
                            depth,
                            at as int,
                            new_cpu as int,
                        )
                    },
            decreases cfg.ncpus - new_cpu,
        {
            proof {
                lemma_children_count(at * cfg.ncpus + new_cpu, total, each);
                lemma_counting_on(before + 1 + (at * cfg.ncpus + new_cpu) * each, each);
            }
            plan.push(AbortPoint { at, new_cpu });
            if let Err(f) = check_schedules(
                prog,
                layout,
                setup,
                observe,
                params,
                cfg,
                start_cpu,
                plan,
                stats,
                max_at,
            ) {
                return Err(f);
            }
            plan.pop();
            assert(plan@ =~= old(plan)@);
            new_cpu = new_cpu + 1;
        }
        at = at + 1;
    }
    Ok(())
}

/// The first index at which two contents of a region differ.
fn first_difference(old: &Vec<u64>, new: &[u64]) -> (res: Option<usize>)
    ensures
        match res {
            Some(i) => i < old@.len() && i < new@.len() && old@[i as int] != new@[i as int]
                && old@.take(i as int) == new@.take(i as int),
            None => forall|i: int|
                0 <= i < old@.len() && i < new@.len() ==> old@[i] == new@[i],
        },
{
    let mut i: usize = 0;
    while i < old.len() && i < new.len()
        invariant
            i <= old@.len(),
            i <= new@.len(),
            forall|j: int| 0 <= j < i ==> old@[j] == new@[j],
        decreases old@.len() - i,
    {
        if old[i] != new[i] {
            assert(old@.take(i as int) =~= new@.take(i as int));
            return Some(i);
        }
        i = i + 1;
    }
    None
}

proof fn lemma_published_words_are_memory(decls: Seq<RegionDecl>, words: Words, n: int, k: int)
    requires
        0 <= n <= decls.len(),
        n <= usize::MAX,
        words.len() == decls.len(),
        0 <= k < crate::sim::published_words(decls, words, n).len(),
    ensures
        ({
            let p = crate::sim::published_words(decls, words, n)[k];
            &&& p.0.0 < n
            &&& decls[p.0.0 as int].published
            &&& p.1 == words[p.0.0 as int]
        }),
    decreases n,
{
    if k < crate::sim::published_words(decls, words, n - 1).len() {
        lemma_published_words_are_memory(decls, words, n - 1, k);
    }
}

/// Exhaustively check `prog`. `setup` initialises memory before every run;
/// `observe` extracts the state that other actors could legitimately see. No
/// run may get to a commit into a per-CPU region with empty slices.
///
/// # Errors
///
/// Returns the first failure in the order of enumeration: an invalid program,
/// a failing prefix, then a schedule that fails or differs from its clean run.
#[verifier::loop_isolation(false)]
pub fn check<V, S, O>(
    prog: &Program,
    layout: &Layout,
    setup: S,
    observe: O,
    params: &[u64],
    cfg: CheckConfig,
) -> (res: Result<Stats, CheckFailure>) where
    V: PartialEq + Debug,
    S: Fn(&mut Memory),
    O: Fn(&Memory) -> V,

    requires
        prog.regs_fit(),
        crate::ir::verdict(layout@, prog.ops@, prog.ret) is Ok ==> crate::sim::sizes_fit(
            layout@,
            cfg.ncpus as int,
        ) && (slices_nonempty(layout@, prog.ops@) || (forall|m: &mut Memory| #[trigger]
            call_ensures(setup, (m,), ()) && fresh_for(*m, *layout, cfg.ncpus) ==> unobserved(
                *prog,
                *layout,
                params@,
                cfg,
                final(m)@,
            ).stays_addressable(cfg.max_aborts as nat))),
        prog.ops@.len() < usize::MAX,
        forall|m: &mut Memory|
            fresh_for(*m, *layout, cfg.ncpus) ==> #[trigger] call_requires(setup, (m,)),
        forall|m: &mut Memory| #[trigger]
            call_ensures(setup, (m,), ()) && fresh_for(*m, *layout, cfg.ncpus) ==> memory_for(
                *final(m),
                *layout,
                cfg.ncpus,
            ),
        forall|m: &Memory|
            memory_for(*m, *layout, cfg.ncpus) ==> #[trigger] call_requires(observe, (m,)),
    ensures
        match crate::ir::verdict(layout@, prog.ops@, prog.ret) {
            Err(e) => res matches Err(f) && f.start_cpu == 0 && f.plan@.len() == 0 && f.kind
                == FailureKind::Invalid(e),
            Ok(_) => res matches Err(f) ==> !(f.kind is PrefixImpure) && !(f.kind is Invalid),
        },
        res matches Ok(stats) ==> stats.prefixes == counted(cfg.ncpus * prog.ops@.len())
            && stats.schedules == counted(cfg.ncpus * schedules_per_start(*prog, cfg)),
        forall|init: Words, alike: spec_fn(Words, Words) -> bool|
            (forall|m: &mut Memory| #[trigger]
                call_ensures(setup, (m,), ()) && fresh_for(*m, *layout, cfg.ncpus)
                    ==> final(m)@ == init) && observes(observe, *layout, cfg.ncpus, alike)
                && V::obeys_eq_spec()
                && crate::ir::verdict(layout@, prog.ops@, prog.ret) is Ok ==> match (
            #[trigger] trial_of(*prog, *layout, params@, cfg, init, alike)).first_bad(
                cfg.max_aborts as nat,
            ) {
                None => res is Ok,
                Some(want) => res matches Err(f) && reports(f, want),
            },
        forall|init: Words|
            (forall|m: &mut Memory| #[trigger]
                call_ensures(setup, (m,), ()) && fresh_for(*m, *layout, cfg.ncpus)
                    ==> final(m)@ == init) && crate::ir::verdict(
                layout@,
                prog.ops@,
                prog.ret,
            ) is Ok ==> agrees(
                res,
                (#[trigger] unobserved(*prog, *layout, params@, cfg, init)).first_bad(
                    cfg.max_aborts as nat,
                ),
            ),
{
    if let Err(e) = prog.validate(layout) {
        return Err(
            CheckFailure { start_cpu: 0, plan: Vec::new(), kind: FailureKind::Invalid(e) },
        );
    }
    proof {
        crate::ir::law_accepted_is_well_shaped(layout@, prog.ops@, prog.ret);
        assert forall|i: int| 0 <= i < prog.ops@.len() && (slices_nonempty(layout@, prog.ops@)
            || i < prog.ops@.len() - 1) implies crate::sim::op_addressable(
            layout@,
            #[trigger] prog.ops@[i],
        ) by {
            assert(crate::ir::regions_respected(layout@, prog.ops@[i]));
        }
    }
    let mut stats = Stats::default();

    // Phase 1: prefix purity. The commit is the last op, so every proper
    // prefix must leave published memory bit-identical.
    let nops: usize = prog.ops.len();
    let mut cpu: usize = 0;
    while cpu < cfg.ncpus
        invariant
            cpu <= cfg.ncpus,
            stats.schedules == 0,
            stats.prefixes == counted(cpu * nops),
            forall|init: Words, alike: spec_fn(Words, Words) -> bool|
                (forall|m: &mut Memory| #[trigger]
                    call_ensures(setup, (m,), ()) && fresh_for(*m, *layout, cfg.ncpus)
                        ==> final(m)@ == init) && observes(observe, *layout, cfg.ncpus, alike)
                    && V::obeys_eq_spec() ==> {
                    let t = #[trigger] trial_of(*prog, *layout, params@, cfg, init, alike);
                    t.first_bad_prefix(0) == t.first_bad_prefix(cpu as int)
                },
            forall|init: Words|
                (forall|m: &mut Memory| #[trigger]
                    call_ensures(setup, (m,), ()) && fresh_for(*m, *layout, cfg.ncpus)
                        ==> final(m)@ == init) ==> {
                    let t = #[trigger] unobserved(*prog, *layout, params@, cfg, init);
                    t.first_bad_prefix(0) == t.first_bad_prefix(cpu as int)
                },
        decreases cfg.ncpus - cpu,
    {
        proof {
            lemma_children_count(cpu as int, cfg.ncpus as int, nops as int);
        }
        let mut k: usize = 0;
        while k < nops
            invariant
                cpu < cfg.ncpus,
                k <= nops,
                stats.schedules == 0,
                stats.prefixes == counted(cpu * nops + k),
                forall|init: Words, alike: spec_fn(Words, Words) -> bool|
                    (forall|m: &mut Memory| #[trigger]
                        call_ensures(setup, (m,), ()) && fresh_for(*m, *layout, cfg.ncpus)
                            ==> final(m)@ == init) && observes(observe, *layout, cfg.ncpus, alike)
                        && V::obeys_eq_spec() ==> {
                        let t = #[trigger] trial_of(*prog, *layout, params@, cfg, init, alike);
                        t.first_bad_prefix(0) == match t.first_bad_prefix_on(cpu, k as int) {
                            Some(f) => Some(f),
                            None => t.first_bad_prefix(cpu + 1),
                        }
                    },
                forall|init: Words|
                    (forall|m: &mut Memory| #[trigger]
                        call_ensures(setup, (m,), ()) && fresh_for(*m, *layout, cfg.ncpus)
                            ==> final(m)@ == init) ==> {
                        let t = #[trigger] unobserved(*prog, *layout, params@, cfg, init);
                        t.first_bad_prefix(0) == match t.first_bad_prefix_on(cpu, k as int) {
                            Some(f) => Some(f),
                            None => t.first_bad_prefix(cpu + 1),
                        }
                    },
            decreases nops - k,
        {
            let mut mem = Memory::new(layout, cfg.ncpus);
            setup(&mut mem);
            let before = mem.published_snapshot();
            let ghost start = mem@;
            proof {
                let prefix = prog.ops@.take(k as int);
                assert forall|i: int| 0 <= i < prefix.len() implies crate::sim::op_addressable(
                    layout@,
                    #[trigger] prefix[i],
                ) by {
                    assert(prefix[i] == prog.ops@[i]);
                }
            }
            if let Err(e) = crate::sim::run_prefix(prog, &mut mem, params, cpu, k) {
                return Err(
                    CheckFailure {
                        start_cpu: cpu,
                        plan: Vec::new(),
                        kind: FailureKind::Sim(e),
                    },
                );
            }
            stats.prefixes = one_more(stats.prefixes);
            proof {
                lemma_counting_on(cpu * nops + k, 1);
                crate::sim::law_prefix_is_pure(
                    Setting {
                        decls: layout@,
                        ncpus: cfg.ncpus,
                        params: params@,
                        start_cpu: cpu,
                    },
                    prog.ops@,
                    prog.ret,
                    k as int,
                    start,
                );
            }
            let mut j: usize = 0;
            while j < before.len()
                invariant
                    j <= before@.len(),
                decreases before@.len() - j,
            {
                proof {
                    assert(layout@.len() == layout.regions.len());
                    lemma_published_words_are_memory(
                        layout@,
                        start,
                        layout@.len() as int,
                        j as int,
                    );
                }
                let region = before[j].0;
                let old = &before[j].1;
                let new = mem.region(region);
                if let Some(index) = first_difference(old, new) {
                    return Err(
                        CheckFailure {
                            start_cpu: cpu,
                            plan: Vec::new(),
                            kind: FailureKind::PrefixImpure {
                                prefix_len: k,
                                region: layout.decl(region).name.clone(),
                                index,
                                before: old[index],
                                after: new[index],
                            },
                        },
                    );
                }
                j = j + 1;
            }
            k = k + 1;
        }
        cpu = cpu + 1;
    }

    // Phase 2: restart equivalence over all abort schedules.
    let max_at: usize = if cfg.sim.post_commit_in_window {
        nops + 1
    } else {
        nops
    };
    let ghost each = schedules_per_start(*prog, cfg) as int;
    let mut plan: Vec<AbortPoint> = Vec::new();
    let mut start_cpu: usize = 0;
    while start_cpu < cfg.ncpus
        invariant
            start_cpu <= cfg.ncpus,
            plan@ == Seq::<AbortPoint>::empty(),
            stats.prefixes == counted(cfg.ncpus * nops),
            stats.schedules == counted(start_cpu * each),
            forall|init: Words, alike: spec_fn(Words, Words) -> bool|
                (forall|m: &mut Memory| #[trigger]
                    call_ensures(setup, (m,), ()) && fresh_for(*m, *layout, cfg.ncpus)
                        ==> final(m)@ == init) && observes(observe, *layout, cfg.ncpus, alike)
                    && V::obeys_eq_spec() ==> {
                    let t = #[trigger] trial_of(*prog, *layout, params@, cfg, init, alike);
                    t.first_bad(cfg.max_aborts as nat) == t.first_bad_start(
                        start_cpu as int,
                        cfg.max_aborts as nat,
                    )
                },
            forall|init: Words|
                (forall|m: &mut Memory| #[trigger]
                    call_ensures(setup, (m,), ()) && fresh_for(*m, *layout, cfg.ncpus)
                        ==> final(m)@ == init) ==> {
                    let t = #[trigger] unobserved(*prog, *layout, params@, cfg, init);
                    t.first_bad(cfg.max_aborts as nat) == t.first_bad_start(
                        start_cpu as int,
                        cfg.max_aborts as nat,
                    )
                },
        decreases cfg.ncpus - start_cpu,
    {
        proof {
            lemma_children_count(start_cpu as int, cfg.ncpus as int, each);
            lemma_counting_on(start_cpu * each, each);
        }
        if let Err(f) = check_schedules(
            prog,
            layout,
            &setup,
            &observe,
            params,
            &cfg,
            start_cpu,
            &mut plan,
            &mut stats,
            max_at,
        ) {
            return Err(f);
        }
        start_cpu = start_cpu + 1;
    }
    Ok(stats)
}

} // verus!
