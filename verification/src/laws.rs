//! What holds of every well-shaped program, whatever the abort schedule.

use vstd::prelude::*;

use crate::check::{Finding, Flaw, Trial};
use crate::ir::{Op, Operand, Reg};
use crate::sim::{
    AbortPoint, AttemptEnd, Effect, Outcome, RunResult, Setting, SimError, State, Words,
};

verus! {

/// Whether the program stores to region `r` as scratch.
pub open spec fn scribbles_on(ops: Seq<Op>, r: int) -> bool {
    exists|i: int|
        0 <= i < ops.len() && (#[trigger] ops[i]) is StoreScratch && ops[i].region().unwrap().0
            == r
}

/// No attempt can tell what an earlier one left behind: the CPU id is read
/// afresh, and what is written as scratch is not read back.
pub open spec fn forgets_attempts(ops: Seq<Op>) -> bool {
    forall|i: int|
        0 <= i < ops.len() ==> !((#[trigger] ops[i]) is CpuIdHoisted) && (ops[i] is Load
            ==> !scribbles_on(ops, ops[i].region().unwrap().0 as int))
}

/// Two memories have the same shape and agree on every region that the
/// program does not use as scratch.
pub open spec fn agree_but_scratch(ops: Seq<Op>, a: Words, b: Words) -> bool {
    &&& a.len() == b.len()
    &&& forall|r: int|
        0 <= r < a.len() ==> (#[trigger] a[r]).len() == b[r].len() && (scribbles_on(ops, r) || a[r]
            == b[r])
}

/// Every abort goes to a CPU that exists.
pub open spec fn plan_in_range(plan: Seq<AbortPoint>, ncpus: usize) -> bool {
    forall|i: int| 0 <= i < plan.len() ==> (#[trigger] plan[i]).new_cpu < ncpus
}

/// Every abort that fires goes to a CPU that exists: the run is not refused
/// for one that does not.
pub open spec fn fires_in_range(run: (Result<RunResult, SimError>, Words)) -> bool {
    !(run.0 matches Err(SimError::BadCpu { .. }))
}

/// A failing operation does not fail for want of a CPU.
proof fn lemma_attempts_find_their_cpu(
    env: Setting,
    cpu: usize,
    ops: Seq<Op>,
    stop: Option<usize>,
    i: int,
    s: State,
)
    ensures
        !(crate::sim::attempt_end(env, cpu, ops, stop, i, s) matches AttemptEnd::Failed(
            SimError::BadCpu { .. },
            _,
        )),
    decreases ops.len() - i,
{
    if i < ops.len() {
        if let Effect::Continue(next) = crate::sim::step_effect(env, cpu, ops[i], s) {
            lemma_attempts_find_their_cpu(env, cpu, ops, stop, i + 1, next);
        }
    }
}

/// If every planned abort goes to a CPU that exists, so does every one that
/// fires.
pub proof fn lemma_planned_in_range(
    env: Setting,
    ops: Seq<Op>,
    ret: Option<Operand>,
    post_commit_in_window: bool,
    cpu: usize,
    plan: Seq<AbortPoint>,
    words: Words,
)
    requires
        plan_in_range(plan, env.ncpus),
    ensures
        fires_in_range(
            crate::sim::run_end(env, ops, ret, post_commit_in_window, cpu, plan, words),
        ),
    decreases plan.len(),
{
    let stop = crate::sim::next_stop(plan);
    lemma_attempts_find_their_cpu(env, cpu, ops, stop, 0, State::entry(words));
    crate::sim::lemma_abort_has_stop(env, cpu, ops, stop, 0, State::entry(words));
    if plan.len() > 0 {
        assert(plan[0].new_cpu < env.ncpus);
        match crate::sim::attempt_end(env, cpu, ops, stop, 0, State::entry(words)) {
            AttemptEnd::Aborted(w) => lemma_planned_in_range(
                env,
                ops,
                ret,
                post_commit_in_window,
                plan[0].new_cpu,
                plan.drop_first(),
                w,
            ),
            AttemptEnd::Finished(s) => lemma_planned_in_range(
                env,
                ops,
                ret,
                post_commit_in_window,
                plan[0].new_cpu,
                plan.drop_first(),
                s.words,
            ),
            _ => {},
        }
    }
}

/// Two settings that differ at most in where the run started.
pub open spec fn same_but_start(a: Setting, b: Setting) -> bool {
    &&& a.decls == b.decls
    &&& a.ncpus == b.ncpus
    &&& a.params == b.params
}

proof fn lemma_step_agrees(a: Setting, b: Setting, cpu: usize, ops: Seq<Op>, i: int, s: State, t: State)
    requires
        same_but_start(a, b),
        forgets_attempts(ops),
        0 <= i < ops.len(),
        crate::ir::regions_respected(a.decls, ops[i]),
        s.regs == t.regs,
        s.words.len() == a.decls.len(),
        agree_but_scratch(ops, s.words, t.words),
    ensures
        match crate::sim::step_effect(a, cpu, ops[i], s) {
            Effect::Continue(s2) => crate::sim::step_effect(b, cpu, ops[i], t) matches Effect::Continue(t2)
                && s2.regs == t2.regs && agree_but_scratch(ops, s2.words, t2.words) && s2.words.len()
                == s.words.len() && (!(ops[i] is Commit) ==> agree_but_scratch(
                ops,
                s.words,
                s2.words,
            )),
            Effect::Exit => crate::sim::step_effect(b, cpu, ops[i], t) is Exit,
            Effect::Fail(e) => crate::sim::step_effect(b, cpu, ops[i], t) == Effect::Fail(e),
        },
{
    let op = ops[i];
    match op {
        Op::StoreScratch { addr, src } => {
            assert(scribbles_on(ops, addr.region.0 as int));
        },
        Op::Load { addr, .. } => {
            assert(s.words[addr.region.0 as int].len() == t.words[addr.region.0 as int].len());
        },
        Op::Commit { addr, src } => {
            assert(s.words[addr.region.0 as int].len() == t.words[addr.region.0 as int].len());
        },
        _ => {},
    }
}

/// An attempt that may be aborted, and one from an agreeing memory that is
/// not: either the first is cut short, leaving memory that still agrees with
/// its own beginning, or both end alike.
proof fn lemma_attempt_agrees(
    a: Setting,
    b: Setting,
    cpu: usize,
    ops: Seq<Op>,
    stop: Option<usize>,
    i: int,
    s: State,
    t: State,
)
    requires
        same_but_start(a, b),
        forgets_attempts(ops),
        0 <= i <= ops.len(),
        forall|k: int| 0 <= k < ops.len() ==> crate::ir::regions_respected(a.decls, #[trigger] ops[k]),
        forall|k: int| 0 <= k < ops.len() - 1 ==> !(#[trigger] ops[k] is Commit),
        s.regs == t.regs,
        s.words.len() == a.decls.len(),
        agree_but_scratch(ops, s.words, t.words),
    ensures
        ({
            let end = crate::sim::attempt_end(b, cpu, ops, None, i, t);
            match crate::sim::attempt_end(a, cpu, ops, stop, i, s) {
                AttemptEnd::Aborted(w) => agree_but_scratch(ops, s.words, w),
                AttemptEnd::Exited(w) => end matches AttemptEnd::Exited(v) && agree_but_scratch(
                    ops,
                    w,
                    v,
                ),
                AttemptEnd::Failed(e, w) => end matches AttemptEnd::Failed(f, v) && e == f
                    && agree_but_scratch(ops, w, v),
                AttemptEnd::Finished(u) => end matches AttemptEnd::Finished(v) && u.regs == v.regs
                    && agree_but_scratch(ops, u.words, v.words),
            }
        }),
    decreases ops.len() - i,
{
    if i < ops.len() && !(stop matches Some(at) && at == i) {
        lemma_step_agrees(a, b, cpu, ops, i, s, t);
        match crate::sim::step_effect(a, cpu, ops[i], s) {
            Effect::Continue(s2) => {
                let t2 = crate::sim::step_effect(b, cpu, ops[i], t)->Continue_0;
                lemma_attempt_agrees(a, b, cpu, ops, stop, i + 1, s2, t2);
            },
            _ => {},
        }
    }
}

/// The outcome of a run under a plan is that of a clean run on some CPU.
pub open spec fn ends_as_clean(
    env: Setting,
    ops: Seq<Op>,
    ret: Option<Operand>,
    init: Words,
    got: (Result<RunResult, SimError>, Words),
    cpu: usize,
) -> bool {
    let clean = crate::sim::whole_run(
        Setting { start_cpu: cpu, ..env },
        ops,
        ret,
        false,
        seq![],
        init,
    );
    &&& cpu < env.ncpus
    &&& got.0 == clean.0
    &&& agree_but_scratch(ops, got.1, clean.1)
}

proof fn lemma_run_converges(
    env: Setting,
    ops: Seq<Op>,
    ret: Option<Operand>,
    cpu: usize,
    plan: Seq<AbortPoint>,
    words: Words,
    init: Words,
)
    requires
        crate::ir::well_shaped(env.decls, ops, ret),
        forgets_attempts(ops),
        fires_in_range(crate::sim::run_end(env, ops, ret, false, cpu, plan, words)),
        cpu < env.ncpus,
        init.len() == env.decls.len(),
        agree_but_scratch(ops, words, init),
    ensures
        exists|c: usize| #[trigger]
            ends_as_clean(
                env,
                ops,
                ret,
                init,
                crate::sim::run_end(env, ops, ret, false, cpu, plan, words),
                c,
            ),
    decreases plan.len(),
{
    let clean_env = Setting { start_cpu: cpu, ..env };
    let stop = crate::sim::next_stop(plan);
    lemma_attempt_agrees(
        env,
        clean_env,
        cpu,
        ops,
        stop,
        0,
        State::entry(words),
        State::entry(init),
    );
    let got = crate::sim::run_end(env, ops, ret, false, cpu, plan, words);
    match crate::sim::attempt_end(env, cpu, ops, stop, 0, State::entry(words)) {
        AttemptEnd::Aborted(w) => {
            crate::sim::lemma_abort_has_stop(env, cpu, ops, stop, 0, State::entry(words));
            assert forall|r: int| 0 <= r < w.len() implies (#[trigger] w[r]).len() == init[r].len()
                && (scribbles_on(ops, r) || w[r] == init[r]) by {
                assert(words[r].len() == w[r].len());
            }
            lemma_run_converges(
                env,
                ops,
                ret,
                plan[0].new_cpu,
                plan.drop_first(),
                w,
                init,
            );
        },
        _ => {
            assert(ends_as_clean(env, ops, ret, init, got, cpu));
        },
    }
}

/// Restart equivalence: however often and wherever a run is aborted, it ends
/// as an abort-free run on one of the CPUs would have: with the same result
/// (which, if the run completed, names that CPU), and with the same memory
/// but for scratch. This is so for every well-shaped program that cannot tell
/// what an earlier attempt left behind, under every plan of which no abort
/// that fires goes to a CPU that does not exist.
pub proof fn law_restarts_converge(
    env: Setting,
    ops: Seq<Op>,
    ret: Option<Operand>,
    plan: Seq<AbortPoint>,
    init: Words,
)
    requires
        crate::ir::well_shaped(env.decls, ops, ret),
        forgets_attempts(ops),
        fires_in_range(crate::sim::whole_run(env, ops, ret, false, plan, init)),
        crate::sim::words_match(env.decls, env.ncpus as int, init),
    ensures
        exists|c: usize| #[trigger]
            ends_as_clean(
                env,
                ops,
                ret,
                init,
                crate::sim::whole_run(env, ops, ret, false, plan, init),
                c,
            ),
{
    assert(crate::sim::whole_run(env, ops, ret, false, plan, init) == crate::sim::run_end(
        env,
        ops,
        ret,
        false,
        env.start_cpu,
        plan,
        init,
    ));
    lemma_run_converges(env, ops, ret, env.start_cpu, plan, init, init);
}

/// What other actors can see of memory does not depend on the regions that
/// the program uses as scratch.
pub open spec fn blind_to_scratch(t: Trial) -> bool {
    forall|a: Words, b: Words|
        agree_but_scratch(t.ops, a, b) ==> #[trigger] (t.alike)(a, b)
}

/// A program of the kind that restarts leave unharmed has no flawed schedule
/// of any length: it is enough that its clean runs succeed and that nobody
/// observes its scratch.
pub proof fn law_disciplined_program_passes(
    t: Trial,
    start_cpu: usize,
    plan: Seq<AbortPoint>,
)
    requires
        crate::ir::well_shaped(t.decls, t.ops, t.ret),
        forgets_attempts(t.ops),
        !t.post_commit_in_window,
        crate::sim::words_match(t.decls, t.ncpus as int, t.init),
        blind_to_scratch(t),
        forall|cpu: usize| cpu < t.ncpus ==> (#[trigger] t.clean_run(cpu)).0 is Ok,
        fires_in_range(t.run(start_cpu, plan)),
    ensures
        t.flaw(start_cpu, plan) is None,
{
    let env = t.setting(start_cpu);
    law_restarts_converge(env, t.ops, t.ret, plan, t.init);
    let got = t.run(start_cpu, plan);
    let c = choose|c: usize| #[trigger]
        ends_as_clean(env, t.ops, t.ret, t.init, got, c);
    assert(t.clean_run(c).0 is Ok);
    crate::sim::lemma_clean_run_stays(t.setting(c), t.ops, t.ret, t.init);
}

/// A plan whose entries from position `from` on could have been enumerated.
pub open spec fn enumerable(t: Trial, plan: Seq<AbortPoint>, from: int) -> bool {
    forall|i: int|
        from <= i < plan.len() ==> (#[trigger] plan[i]).at < t.max_at() && plan[i].new_cpu < t.ncpus
}

proof fn lemma_child_found(
    t: Trial,
    start_cpu: usize,
    plan: Seq<AbortPoint>,
    depth: nat,
    at: int,
    cpu: int,
    e: AbortPoint,
)
    requires
        depth > 0,
        0 <= at,
        0 <= cpu <= t.ncpus,
        t.first_bad_child(start_cpu, plan, depth, at, cpu) is None,
        e.at < t.max_at(),
        e.new_cpu < t.ncpus,
        at < e.at || (at == e.at && cpu <= e.new_cpu),
    ensures
        t.first_bad_from(start_cpu, plan.push(e), (depth - 1) as nat) is None,
    decreases t.max_at() - at, t.ncpus - cpu,
{
    if cpu >= t.ncpus {
        lemma_child_found(t, start_cpu, plan, depth, at + 1, 0, e);
    } else if at != e.at || cpu != e.new_cpu {
        lemma_child_found(t, start_cpu, plan, depth, at, cpu + 1, e);
    }
}

proof fn lemma_all_extensions_pass(
    t: Trial,
    start_cpu: usize,
    plan: Seq<AbortPoint>,
    depth: nat,
    q: Seq<AbortPoint>,
)
    requires
        t.first_bad_from(start_cpu, plan, depth) is None,
        plan.len() <= q.len() <= plan.len() + depth,
        q.take(plan.len() as int) == plan,
        enumerable(t, q, plan.len() as int),
    ensures
        t.flaw(start_cpu, q) is None,
    decreases depth,
{
    if q.len() == plan.len() {
        assert(q =~= plan);
    } else {
        let e = q[plan.len() as int];
        lemma_child_found(t, start_cpu, plan, depth, 0, 0, e);
        assert(q.take(plan.len() as int + 1) =~= plan.push(e));
        lemma_all_extensions_pass(t, start_cpu, plan.push(e), (depth - 1) as nat, q);
    }
}

/// `f` is a flawed schedule that extends `plan` by at most `depth` aborts.
pub open spec fn genuine(
    t: Trial,
    f: Finding,
    plan: Seq<AbortPoint>,
    depth: nat,
) -> bool {
    &&& t.flaw(f.start_cpu, f.plan) == Some(f.flaw)
    &&& plan.len() <= f.plan.len() <= plan.len() + depth
    &&& f.plan.take(plan.len() as int) == plan
    &&& enumerable(t, f.plan, plan.len() as int)
}

proof fn lemma_found_child_genuine(
    t: Trial,
    start_cpu: usize,
    plan: Seq<AbortPoint>,
    depth: nat,
    at: int,
    cpu: int,
)
    requires
        t.ops.len() < usize::MAX,
        depth > 0,
        0 <= at,
        0 <= cpu,
        t.first_bad_child(start_cpu, plan, depth, at, cpu) is Some,
    ensures
        ({
            let f = t.first_bad_child(start_cpu, plan, depth, at, cpu).unwrap();
            f.start_cpu == start_cpu && genuine(t, f, plan, depth)
        }),
    decreases depth, t.max_at() - at, t.ncpus - cpu,
{
    if cpu >= t.ncpus {
        lemma_found_child_genuine(t, start_cpu, plan, depth, at + 1, 0);
    } else {
        let e = AbortPoint { at: at as usize, new_cpu: cpu as usize };
        if t.first_bad_from(start_cpu, plan.push(e), (depth - 1) as nat) is Some {
            lemma_found_genuine(t, start_cpu, plan.push(e), (depth - 1) as nat);
            let f = t.first_bad_from(start_cpu, plan.push(e), (depth - 1) as nat).unwrap();
            assert(f.plan.take(plan.len() as int) =~= plan) by {
                assert forall|i: int| 0 <= i < plan.len() implies f.plan[i] == plan[i] by {
                    assert(f.plan[i] == f.plan.take(plan.len() as int + 1)[i]);
                }
            }
            assert(f.plan[plan.len() as int] == f.plan.take(plan.len() as int + 1)[plan.len() as int]);
        } else {
            lemma_found_child_genuine(t, start_cpu, plan, depth, at, cpu + 1);
        }
    }
}

pub(crate) proof fn lemma_found_genuine(
    t: Trial,
    start_cpu: usize,
    plan: Seq<AbortPoint>,
    depth: nat,
)
    requires
        t.ops.len() < usize::MAX,
        t.first_bad_from(start_cpu, plan, depth) is Some,
    ensures
        ({
            let f = t.first_bad_from(start_cpu, plan, depth).unwrap();
            f.start_cpu == start_cpu && genuine(t, f, plan, depth)
        }),
    decreases depth, t.max_at() + 1, 0int,
{
    if t.flaw(start_cpu, plan) is Some {
        assert(plan.take(plan.len() as int) =~= plan);
    } else {
        lemma_found_child_genuine(t, start_cpu, plan, depth, 0, 0);
    }
}

/// The enumeration misses nothing: if no finding is made, every schedule of
/// at most `max_aborts` aborts, from every CPU, is without flaw.
pub proof fn law_enumeration_is_exhaustive(
    t: Trial,
    max_aborts: nat,
    start_cpu: usize,
    plan: Seq<AbortPoint>,
)
    requires
        t.first_bad_start(0, max_aborts) is None,
        start_cpu < t.ncpus,
        plan.len() <= max_aborts,
        enumerable(t, plan, 0),
    ensures
        t.flaw(start_cpu, plan) is None,
{
    lemma_starts_pass(t, 0, max_aborts, start_cpu);
    assert(plan.take(0) =~= seq![]);
    lemma_all_extensions_pass(t, start_cpu, seq![], max_aborts, plan);
}

proof fn lemma_starts_pass(t: Trial, from: int, max_aborts: nat, start_cpu: usize)
    requires
        t.first_bad_start(from, max_aborts) is None,
        0 <= from <= start_cpu < t.ncpus,
    ensures
        t.first_bad_from(start_cpu, seq![], max_aborts) is None,
    decreases t.ncpus - from,
{
    if from < start_cpu {
        lemma_starts_pass(t, from + 1, max_aborts, start_cpu);
    }
}

/// The enumeration invents nothing: what it finds is a schedule of at most
/// `max_aborts` aborts that has the reported flaw.
pub proof fn law_finding_is_genuine(t: Trial, max_aborts: nat)
    requires
        t.ops.len() < usize::MAX,
        t.first_bad_start(0, max_aborts) is Some,
    ensures
        ({
            let f = t.first_bad_start(0, max_aborts).unwrap();
            f.start_cpu < t.ncpus && genuine(t, f, seq![], max_aborts)
        }),
{
    lemma_start_found_genuine(t, 0, max_aborts);
}

proof fn lemma_start_found_genuine(t: Trial, from: int, max_aborts: nat)
    requires
        t.ops.len() < usize::MAX,
        0 <= from,
        t.first_bad_start(from, max_aborts) is Some,
    ensures
        ({
            let f = t.first_bad_start(from, max_aborts).unwrap();
            f.start_cpu < t.ncpus && genuine(t, f, seq![], max_aborts)
        }),
    decreases t.ncpus - from,
{
    if t.first_bad_from(from as usize, seq![], max_aborts) is Some {
        lemma_found_genuine(t, from as usize, seq![], max_aborts);
    } else {
        lemma_start_found_genuine(t, from + 1, max_aborts);
    }
}

/// What fails in a prefix fails in the whole.
proof fn lemma_prefix_failure(env: Setting, cpu: usize, ops: Seq<Op>, k: int, i: int, s: State)
    requires
        0 <= i <= k <= ops.len(),
        crate::sim::attempt_end(env, cpu, ops.take(k), None, i, s) is Failed,
    ensures
        crate::sim::attempt_end(env, cpu, ops, None, i, s) == crate::sim::attempt_end(
            env,
            cpu,
            ops.take(k),
            None,
            i,
            s,
        ),
    decreases ops.len() - i,
{
    if i < k {
        assert(ops.take(k)[i] == ops[i]);
        if let Effect::Continue(next) = crate::sim::step_effect(env, cpu, ops[i], s) {
            lemma_prefix_failure(env, cpu, ops, k, i + 1, next);
        }
    }
}

/// A failing prefix shows as a flaw of the schedule without aborts.
proof fn lemma_prefix_finding(t: Trial, cpu: usize, k: int)
    requires
        cpu < t.ncpus,
        0 <= k,
        t.first_bad_prefix_on(cpu, k) is Some,
    ensures
        ({
            let f = t.first_bad_prefix_on(cpu, k).unwrap();
            &&& f.start_cpu == cpu
            &&& f.plan == Seq::<AbortPoint>::empty()
            &&& t.flaw(cpu, seq![]) == Some(f.flaw)
        }),
    decreases t.ops.len() - k,
{
    if crate::sim::prefix_end(t.setting(cpu), t.ops, k, t.init).0 is Err {
        lemma_prefix_failure(t.setting(cpu), cpu, t.ops, k, 0, State::entry(t.init));
        assert(crate::sim::next_stop(Seq::<AbortPoint>::empty()) is None);
    } else {
        lemma_prefix_finding(t, cpu, k + 1);
    }
}

proof fn lemma_first_prefix_finding(t: Trial, from: int)
    requires
        0 <= from,
        t.first_bad_prefix(from) is Some,
    ensures
        ({
            let f = t.first_bad_prefix(from).unwrap();
            &&& f.start_cpu < t.ncpus
            &&& f.plan == Seq::<AbortPoint>::empty()
            &&& t.flaw(f.start_cpu, seq![]) == Some(f.flaw)
        }),
    decreases t.ncpus - from,
{
    if t.first_bad_prefix_on(from as usize, 0) is Some {
        lemma_prefix_finding(t, from as usize, 0);
    } else {
        lemma_first_prefix_finding(t, from + 1);
    }
}

/// Whatever the checker finds is a real counterexample: a schedule of at most
/// `max_aborts` aborts, among those it enumerates, whose run, held against the
/// clean run on the CPU it ends on, has the reported flaw. (A prefix that
/// fails counts as the schedule without aborts, which fails alike.)
pub proof fn law_counterexample_is_real(t: Trial, max_aborts: nat)
    requires
        t.ops.len() < usize::MAX,
        t.first_bad(max_aborts) is Some,
    ensures
        ({
            let f = t.first_bad(max_aborts).unwrap();
            &&& f.start_cpu < t.ncpus
            &&& f.plan.len() <= max_aborts
            &&& enumerable(t, f.plan, 0)
            &&& t.flaw(f.start_cpu, f.plan) == Some(f.flaw)
        }),
{
    if t.first_bad_prefix(0) is Some {
        lemma_first_prefix_finding(t, 0);
    } else {
        law_finding_is_genuine(t, max_aborts);
    }
}

/// Passing is exact: nothing is found if and only if every schedule of at
/// most `max_aborts` aborts, from every CPU, runs without error and is
/// indistinguishable, in outcome and in what is observed, from the clean run
/// on the CPU it ends on.
pub proof fn law_passes_exactly_when_indistinguishable(
    t: Trial,
    max_aborts: nat,
)
    requires
        t.ops.len() < usize::MAX,
    ensures
        t.first_bad(max_aborts) is None <==> forall|start_cpu: usize, plan: Seq<AbortPoint>|
            start_cpu < t.ncpus && plan.len() <= max_aborts && enumerable(t, plan, 0) ==> (
            #[trigger] t.flaw(start_cpu, plan)) is None,
{
    if t.first_bad(max_aborts) is None {
        assert forall|start_cpu: usize, plan: Seq<AbortPoint>|
            start_cpu < t.ncpus && plan.len() <= max_aborts && enumerable(t, plan, 0) implies (
        #[trigger] t.flaw(start_cpu, plan)) is None by {
            law_enumeration_is_exhaustive(t, max_aborts, start_cpu, plan);
        }
    } else {
        law_counterexample_is_real(t, max_aborts);
        let f = t.first_bad(max_aborts).unwrap();
        assert(t.flaw(f.start_cpu, f.plan) is Some);
    }
}

/// What passing means, said of the runs themselves: nothing is found if and
/// only if, for every CPU to start on and every plan of at most `max_aborts`
/// aborts, each before an operation (or, where the window is taken to hold the
/// commit, right behind it) and onto a CPU that exists, the run completes, the
/// run without aborts on the CPU that it ends on completes, the two have the
/// same outcome, what they return included, and memory looks alike after them.
pub proof fn law_passing_means_equal_outcomes(t: Trial, max_aborts: nat)
    requires
        t.ops.len() < usize::MAX,
    ensures
        t.first_bad(max_aborts) is None <==> forall|start_cpu: usize, plan: Seq<AbortPoint>|
            start_cpu < t.ncpus && plan.len() <= max_aborts && (forall|i: int|
                0 <= i < plan.len() ==> (#[trigger] plan[i]).new_cpu < t.ncpus && (plan[i].at
                    < t.ops.len() || (t.post_commit_in_window && plan[i].at == t.ops.len()))) ==> {
                let (got, got_words) = #[trigger] crate::sim::whole_run(
                    Setting { decls: t.decls, ncpus: t.ncpus, params: t.params, start_cpu },
                    t.ops,
                    t.ret,
                    t.post_commit_in_window,
                    plan,
                    t.init,
                );
                let (want, want_words) = crate::sim::whole_run(
                    Setting {
                        decls: t.decls,
                        ncpus: t.ncpus,
                        params: t.params,
                        start_cpu: got->Ok_0.final_cpu,
                    },
                    t.ops,
                    t.ret,
                    false,
                    seq![],
                    t.init,
                );
                &&& got is Ok
                &&& want is Ok
                &&& got->Ok_0.outcome == want->Ok_0.outcome
                &&& (t.alike)(got_words, want_words)
            },
{
    law_passes_exactly_when_indistinguishable(t, max_aborts);
    if t.first_bad(max_aborts) is None {
        assert forall|start_cpu: usize, plan: Seq<AbortPoint>|
            start_cpu < t.ncpus && plan.len() <= max_aborts && (forall|i: int|
                0 <= i < plan.len() ==> (#[trigger] plan[i]).new_cpu < t.ncpus && (plan[i].at
                    < t.ops.len() || (t.post_commit_in_window && plan[i].at == t.ops.len()))) implies {
            let (got, got_words) = #[trigger] crate::sim::whole_run(
                Setting { decls: t.decls, ncpus: t.ncpus, params: t.params, start_cpu },
                t.ops,
                t.ret,
                t.post_commit_in_window,
                plan,
                t.init,
            );
            let (want, want_words) = crate::sim::whole_run(
                Setting {
                    decls: t.decls,
                    ncpus: t.ncpus,
                    params: t.params,
                    start_cpu: got->Ok_0.final_cpu,
                },
                t.ops,
                t.ret,
                false,
                seq![],
                t.init,
            );
            &&& got is Ok
            &&& want is Ok
            &&& got->Ok_0.outcome == want->Ok_0.outcome
            &&& (t.alike)(got_words, want_words)
        } by {
            assert(enumerable(t, plan, 0));
            assert(t.flaw(start_cpu, plan) is None);
        }
    } else {
        let f = t.first_bad(max_aborts).unwrap();
        law_counterexample_is_real(t, max_aborts);
        assert forall|i: int| 0 <= i < f.plan.len() implies (#[trigger] f.plan[i]).new_cpu
            < t.ncpus && (f.plan[i].at < t.ops.len() || (t.post_commit_in_window && f.plan[i].at
            == t.ops.len())) by {}
        let run = crate::sim::whole_run(
            Setting { decls: t.decls, ncpus: t.ncpus, params: t.params, start_cpu: f.start_cpu },
            t.ops,
            t.ret,
            t.post_commit_in_window,
            f.plan,
            t.init,
        );
        assert(run == t.run(f.start_cpu, f.plan));
    }
}

/// What a finding says is so: a failure is that of the run or of its clean
/// run, the two outcomes of a mismatch are theirs and differ, and what is
/// observed differs only where the outcomes do not.
pub proof fn law_findings_tell_the_truth(t: Trial, max_aborts: nat)
    requires
        t.ops.len() < usize::MAX,
        t.first_bad(max_aborts) is Some,
    ensures
        ({
            let f = t.first_bad(max_aborts).unwrap();
            let (got, got_words) = crate::sim::whole_run(
                Setting { decls: t.decls, ncpus: t.ncpus, params: t.params, start_cpu: f.start_cpu },
                t.ops,
                t.ret,
                t.post_commit_in_window,
                f.plan,
                t.init,
            );
            let (want, want_words) = crate::sim::whole_run(
                Setting {
                    decls: t.decls,
                    ncpus: t.ncpus,
                    params: t.params,
                    start_cpu: got->Ok_0.final_cpu,
                },
                t.ops,
                t.ret,
                false,
                seq![],
                t.init,
            );
            &&& f.start_cpu < t.ncpus
            &&& f.plan.len() <= max_aborts
            &&& match f.flaw {
                Flaw::Sim(e) => got == Err::<RunResult, SimError>(e) || (got is Ok && want == Err::<
                    RunResult,
                    SimError,
                >(e)),
                Flaw::Outcome { got: g, want: w } => got is Ok && want is Ok && g
                    == got->Ok_0.outcome && w == want->Ok_0.outcome && g != w,
                Flaw::Observable => got is Ok && want is Ok && got->Ok_0.outcome
                    == want->Ok_0.outcome && !(t.alike)(got_words, want_words),
            }
        }),
{
    law_counterexample_is_real(t, max_aborts);
}

/// What a register holds that one operation defines, as long as the attempt
/// has not come to that operation or has gone past it.
proof fn lemma_stale_id_kept(
    env: Setting,
    cpu: usize,
    ops: Seq<Op>,
    i: int,
    r: Reg,
    n: int,
    s: State,
)
    requires
        0 <= i < ops.len(),
        ops[i] == (Op::CpuIdHoisted { dst: r }),
        forall|j: int| 0 <= j < ops.len() && j != i ==> (#[trigger] ops[j]).dst() != Some(r),
        0 <= n <= ops.len(),
        n > i ==> s.regs.dom().contains(r) && s.regs[r] == env.start_cpu as u64,
        crate::sim::attempt_end(env, cpu, ops, None, n, s) is Finished,
    ensures
        ({
            let end = crate::sim::attempt_end(env, cpu, ops, None, n, s)->Finished_0;
            end.regs.dom().contains(r) && end.regs[r] == env.start_cpu as u64
        }),
    decreases ops.len() - n,
{
    if n < ops.len() {
        let next = crate::sim::step_effect(env, cpu, ops[n], s)->Continue_0;
        assert(n != i ==> ops[n].dst() != Some(r));
        lemma_stale_id_kept(env, cpu, ops, i, r, n + 1, next);
    }
}

/// A program that returns a CPU id read before the sequence is caught as soon
/// as one abort and two CPUs are tried, whatever is observed, unless it exits
/// on CPU 1.
pub proof fn law_returned_stale_id_is_caught(t: Trial, i: int, r: Reg, max_aborts: nat)
    requires
        t.ops.len() < usize::MAX,
        0 <= i < t.ops.len(),
        t.ops[i] == (Op::CpuIdHoisted { dst: r }),
        forall|j: int| 0 <= j < t.ops.len() && j != i ==> (#[trigger] t.ops[j]).dst() != Some(r),
        t.ret == Some(Operand::Reg(r)),
        t.ncpus >= 2,
        max_aborts >= 1,
        !(crate::sim::whole_run(
            Setting { decls: t.decls, ncpus: t.ncpus, params: t.params, start_cpu: 1 },
            t.ops,
            t.ret,
            false,
            seq![],
            t.init,
        ).0 matches Ok(r) && r.outcome is Exited),
    ensures
        t.first_bad(max_aborts) is Some,
{
    let plan = seq![AbortPoint { at: 0, new_cpu: 1 }];
    let none = Seq::<AbortPoint>::empty();
    law_passes_exactly_when_indistinguishable(t, max_aborts);
    assert(enumerable(t, plan, 0));
    assert(plan.drop_first() =~= none);
    assert(crate::sim::next_stop(none) is None);
    let moved = t.setting(0);
    let clean = t.setting(1);
    let s = State::entry(t.init);
    assert(crate::sim::attempt_end(moved, 0, t.ops, Some(0), 0, s) == AttemptEnd::Aborted(t.init));
    assert(t.run(0, plan) == crate::sim::run_end(
        moved,
        t.ops,
        t.ret,
        t.post_commit_in_window,
        1,
        none,
        t.init,
    ));
    if crate::sim::attempt_end(moved, 1, t.ops, None, 0, s) is Finished {
        lemma_stale_id_kept(moved, 1, t.ops, i, r, 0, s);
    }
    if crate::sim::attempt_end(clean, 1, t.ops, None, 0, s) is Finished {
        lemma_stale_id_kept(clean, 1, t.ops, i, r, 0, s);
    }
    assert(t.flaw(0, plan) is Some);
}

/// Memory `b` is memory `a` with at most one published word changed, which is
/// the word that the commit went to: in its region, and in the slice of `cpu`
/// if the region is per-CPU.
pub open spec fn one_commit(
    env: Setting,
    ops: Seq<Op>,
    a: Words,
    b: Words,
    cpu: usize,
    index: int,
) -> bool {
    let region = ops.last().region().unwrap().0 as int;
    &&& a.len() == b.len()
    &&& forall|r: int|
        0 <= r < env.decls.len() && (#[trigger] env.decls[r]).published && r != region ==> a[r]
            == b[r]
    &&& 0 <= index < a[region].len()
    &&& b[region].len() == a[region].len()
    &&& forall|i: int|
        0 <= i < a[region].len() && i != index ==> #[trigger] b[region][i] == a[region][i]
    &&& env.decls[region].per_cpu ==> index / (env.decls[region].words as int) == cpu
}

/// An attempt that runs to its end commits once, where it may.
proof fn lemma_finished_commits_once(
    env: Setting,
    cpu: usize,
    ops: Seq<Op>,
    ret: Option<Operand>,
    i: int,
    s: State,
)
    requires
        crate::ir::well_shaped(env.decls, ops, ret),
        crate::sim::attempt_addressable(env, cpu, ops, None, i, s),
        crate::sim::words_match(env.decls, env.ncpus as int, s.words),
        0 <= i < ops.len(),
        crate::sim::attempt_end(env, cpu, ops, None, i, s) is Finished,
    ensures
        exists|index: int| #[trigger]
            one_commit(
                env,
                ops,
                s.words,
                crate::sim::attempt_end(env, cpu, ops, None, i, s)->Finished_0.words,
                cpu,
                index,
            ),
    decreases ops.len() - i,
{
    let op = ops[i];
    assert(crate::ir::regions_respected(env.decls, op));
    assert(crate::sim::op_addressable(env.decls, op));
    let t = crate::sim::step_effect(env, cpu, op, s)->Continue_0;
    crate::sim::lemma_step_is_pure(env, cpu, op, s);
    let end = crate::sim::attempt_end(env, cpu, ops, None, i, s)->Finished_0.words;
    if i == ops.len() - 1 {
        assert(op is Commit);
        let addr = op->Commit_addr;
        let index = crate::sim::operand_value(s.regs, addr.index)->Ok_0 as usize;
        assert(crate::sim::attempt_end(env, cpu, ops, None, i + 1, t) == AttemptEnd::Finished(t));
        assert(end == t.words);
        assert(one_commit(env, ops, s.words, end, cpu, index as int));
    } else {
        lemma_finished_commits_once(env, cpu, ops, ret, i + 1, t);
        let index = choose|index: int| #[trigger]
            one_commit(env, ops, t.words, end, cpu, index);
        let region = ops.last().region().unwrap().0 as int;
        assert(crate::ir::regions_respected(env.decls, ops[ops.len() - 1]));
        assert(env.decls[region].published);
        assert(t.words[region] == s.words[region]);
        assert(one_commit(env, ops, s.words, end, cpu, index));
    }
}

/// What a run may have done to published memory: nothing if it failed or
/// exited, and one commit on its final CPU if it committed.
pub open spec fn commits_at_most_once(
    env: Setting,
    ops: Seq<Op>,
    words: Words,
    run: (Result<RunResult, SimError>, Words),
) -> bool {
    match run.0 {
        Err(_) => crate::sim::same_published(env.decls, words, run.1),
        Ok(r) => r.final_cpu < env.ncpus && match r.outcome {
            Outcome::Exited => crate::sim::same_published(env.decls, words, run.1),
            Outcome::Committed { .. } => exists|index: int| #[trigger]
                one_commit(env, ops, words, run.1, r.final_cpu, index),
        },
    }
}

proof fn lemma_run_commits_once(
    env: Setting,
    ops: Seq<Op>,
    ret: Option<Operand>,
    cpu: usize,
    plan: Seq<AbortPoint>,
    words: Words,
)
    requires
        crate::ir::well_shaped(env.decls, ops, ret),
        crate::sim::run_addressable(env, ops, false, cpu, plan, words),
        cpu < env.ncpus,
        crate::sim::words_match(env.decls, env.ncpus as int, words),
    ensures
        commits_at_most_once(
            env,
            ops,
            words,
            crate::sim::run_end(env, ops, ret, false, cpu, plan, words),
        ),
    decreases plan.len(),
{
    let stop = crate::sim::next_stop(plan);
    let run = crate::sim::run_end(env, ops, ret, false, cpu, plan, words);
    assert forall|k: int| 0 <= k < ops.len() implies crate::ir::regions_respected(
        env.decls,
        #[trigger] ops[k],
    ) by {}
    crate::sim::lemma_attempt_is_pure(env, cpu, ops, stop, 0, State::entry(words));
    match crate::sim::attempt_end(env, cpu, ops, stop, 0, State::entry(words)) {
        AttemptEnd::Aborted(w) => {
            crate::sim::lemma_abort_has_stop(env, cpu, ops, stop, 0, State::entry(words));
            if plan[0].new_cpu < env.ncpus {
                lemma_run_commits_once(env, ops, ret, plan[0].new_cpu, plan.drop_first(), w);
                assert(run == crate::sim::run_end(
                    env,
                    ops,
                    ret,
                    false,
                    plan[0].new_cpu,
                    plan.drop_first(),
                    w,
                ));
            }
            if run.0 is Ok && run.0->Ok_0.outcome is Committed {
                let c = run.0->Ok_0.final_cpu;
                let index = choose|index: int| #[trigger]
                    one_commit(env, ops, w, run.1, c, index);
                let region = ops.last().region().unwrap().0 as int;
                assert(crate::ir::regions_respected(env.decls, ops[ops.len() - 1]));
                assert(env.decls[region].published);
                assert(w[region] == words[region]);
                assert(one_commit(env, ops, words, run.1, c, index));
            }
        },
        AttemptEnd::Finished(t) => {
            lemma_unstopped(env, cpu, ops, stop, 0, State::entry(words));
            lemma_unstopped_addressable(env, cpu, ops, stop, 0, State::entry(words));
            lemma_finished_commits_once(env, cpu, ops, ret, 0, State::entry(words));
            assert(run == (crate::sim::committed_result(t.regs, ret, cpu), t.words));
            lemma_finished_defines_all(env, cpu, ops, stop, 0, State::entry(words));
            let index = choose|index: int| #[trigger]
                one_commit(env, ops, words, t.words, cpu, index);
            if run.0 is Ok {
                assert(run.0->Ok_0.final_cpu == cpu);
                assert(one_commit(env, ops, words, run.1, run.0->Ok_0.final_cpu, index));
            }
        },
        _ => {},
    }
}

/// An attempt that runs to its end has defined every register that the program
/// defines.
proof fn lemma_finished_defines_all(
    env: Setting,
    cpu: usize,
    ops: Seq<Op>,
    stop: Option<usize>,
    i: int,
    s: State,
)
    requires
        0 <= i <= ops.len(),
        crate::sim::attempt_end(env, cpu, ops, stop, i, s) is Finished,
        forall|r: Reg| #[trigger]
            crate::ir::defined_before(ops, i, r) ==> s.regs.dom().contains(r),
    ensures
        forall|r: Reg| #[trigger]
            crate::ir::defined_before(ops, ops.len() as int, r) ==> crate::sim::attempt_end(
                env,
                cpu,
                ops,
                stop,
                i,
                s,
            )->Finished_0.regs.dom().contains(r),
    decreases ops.len() - i,
{
    if i < ops.len() {
        crate::ir::lemma_defined_step(ops, i);
        let t = crate::sim::step_effect(env, cpu, ops[i], s)->Continue_0;
        lemma_finished_defines_all(env, cpu, ops, stop, i + 1, t);
    }
}

/// An attempt that was not cut short ends as one that could not be.
pub(crate) proof fn lemma_unstopped(
    env: Setting,
    cpu: usize,
    ops: Seq<Op>,
    stop: Option<usize>,
    i: int,
    s: State,
)
    requires
        !(crate::sim::attempt_end(env, cpu, ops, stop, i, s) is Aborted),
    ensures
        crate::sim::attempt_end(env, cpu, ops, stop, i, s) == crate::sim::attempt_end(
            env,
            cpu,
            ops,
            None,
            i,
            s,
        ),
    decreases ops.len() - i,
{
    if i < ops.len() && !(stop matches Some(at) && at == i) {
        match crate::sim::step_effect(env, cpu, ops[i], s) {
            Effect::Continue(t) => {
                lemma_unstopped(env, cpu, ops, stop, i + 1, t);
            },
            _ => {},
        }
    }
}

/// An attempt that was not cut short executes what one that could not be would.
proof fn lemma_unstopped_addressable(
    env: Setting,
    cpu: usize,
    ops: Seq<Op>,
    stop: Option<usize>,
    i: int,
    s: State,
)
    requires
        !(crate::sim::attempt_end(env, cpu, ops, stop, i, s) is Aborted),
        crate::sim::attempt_addressable(env, cpu, ops, stop, i, s),
    ensures
        crate::sim::attempt_addressable(env, cpu, ops, None, i, s),
    decreases ops.len() - i,
{
    if i < ops.len() && !(stop matches Some(at) && at == i) {
        match crate::sim::step_effect(env, cpu, ops[i], s) {
            Effect::Continue(t) => {
                lemma_unstopped_addressable(env, cpu, ops, stop, i + 1, t);
            },
            _ => {},
        }
    }
}

/// However often a run is aborted, it commits at most once, and then to the
/// slice of the CPU that it ends on; if it exits or fails, published memory is
/// as it was.
pub proof fn law_runs_commit_at_most_once(
    env: Setting,
    ops: Seq<Op>,
    ret: Option<Operand>,
    plan: Seq<AbortPoint>,
    words: Words,
)
    requires
        crate::ir::well_shaped(env.decls, ops, ret),
        env.start_cpu < env.ncpus ==> crate::sim::run_addressable(
            env,
            ops,
            false,
            env.start_cpu,
            plan,
            words,
        ),
        crate::sim::words_match(env.decls, env.ncpus as int, words),
    ensures
        commits_at_most_once(
            env,
            ops,
            words,
            crate::sim::whole_run(env, ops, ret, false, plan, words),
        ),
{
    if env.start_cpu < env.ncpus {
        lemma_run_commits_once(env, ops, ret, env.start_cpu, plan, words);
    }
}

/// An abort that is not reached does not fire: if the first attempt leaves the
/// window before the position of the first plan entry, the run is a clean one
/// and migrates nowhere.
pub proof fn law_unreached_aborts_do_not_fire(
    env: Setting,
    ops: Seq<Op>,
    ret: Option<Operand>,
    plan: Seq<AbortPoint>,
    words: Words,
)
    requires
        env.start_cpu < env.ncpus,
        !(crate::sim::attempt_end(
            env,
            env.start_cpu,
            ops,
            crate::sim::next_stop(plan),
            0,
            State::entry(words),
        ) is Aborted),
    ensures
        crate::sim::whole_run(env, ops, ret, false, plan, words) == crate::sim::whole_run(
            env,
            ops,
            ret,
            false,
            seq![],
            words,
        ),
{
    let none = Seq::<AbortPoint>::empty();
    assert(crate::sim::next_stop(none) is None);
    lemma_unstopped(
        env,
        env.start_cpu,
        ops,
        crate::sim::next_stop(plan),
        0,
        State::entry(words),
    );
}

} // verus!
