//! What the checker says of the example programs.

use vstd::prelude::*;

use crate::check::{Finding, Flaw, Trial};
use crate::ir::{Op, Operand, RegionId};
use crate::progs::{Freelist, PushArray};
use crate::sim::{
    AbortPoint, AttemptEnd, Effect, Outcome, RunResult, Setting, SimError, State, Words,
};

verus! {

/// The same memory is always observed alike.
pub open spec fn observes_steadily(t: Trial) -> bool {
    forall|w: Words| #[trigger] (t.alike)(w, w)
}

/// Memory in which the regions `shown` differ is never observed alike.
pub open spec fn exposes(t: Trial, shown: Set<int>) -> bool {
    forall|a: Words, b: Words, r: int|
        #![trigger (t.alike)(a, b), a[r]]
        shown.contains(r) && (t.alike)(a, b) ==> a[r] == b[r]
}

/// If no schedule is flawed, nothing is found.
proof fn lemma_passes(t: Trial, max_aborts: nat)
    requires
        t.ops.len() < usize::MAX,
        forall|start_cpu: usize, plan: Seq<AbortPoint>|
            start_cpu < t.ncpus && crate::laws::plan_in_range(plan, t.ncpus) ==> (#[trigger] t.flaw(
                start_cpu,
                plan,
            )) is None,
    ensures
        t.first_bad(max_aborts) is None,
{
    assert forall|start_cpu: usize, plan: Seq<AbortPoint>|
        start_cpu < t.ncpus && plan.len() <= max_aborts && crate::laws::enumerable(
            t,
            plan,
            0,
        ) implies (#[trigger] t.flaw(start_cpu, plan)) is None by {
        assert(crate::laws::plan_in_range(plan, t.ncpus));
    }
    crate::laws::law_passes_exactly_when_indistinguishable(t, max_aborts);
}

/// If some schedule is flawed, something is found.
proof fn lemma_found(
    t: Trial,
    max_aborts: nat,
    start_cpu: usize,
    plan: Seq<AbortPoint>,
) -> (f: Finding)
    requires
        t.ops.len() < usize::MAX,
        start_cpu < t.ncpus,
        plan.len() <= max_aborts,
        crate::laws::enumerable(t, plan, 0),
        t.flaw(start_cpu, plan) is Some,
    ensures
        t.first_bad(max_aborts) == Some(f),
        f.start_cpu < t.ncpus,
        crate::laws::plan_in_range(f.plan, t.ncpus),
        t.flaw(f.start_cpu, f.plan) == Some(f.flaw),
{
    crate::laws::law_passes_exactly_when_indistinguishable(t, max_aborts);
    assert(t.first_bad(max_aborts) is Some);
    crate::laws::law_counterexample_is_real(t, max_aborts);
    t.first_bad(max_aborts).unwrap()
}

/// A program that stores nothing but its commit has done nothing when it is
/// cut short.
proof fn lemma_untouched_when_aborted(
    env: Setting,
    cpu: usize,
    ops: Seq<Op>,
    stop: Option<usize>,
    i: int,
    s: State,
)
    requires
        0 <= i,
        forall|k: int| 0 <= k < ops.len() ==> !((#[trigger] ops[k]) is StoreScratch),
        forall|k: int| 0 <= k < ops.len() - 1 ==> !((#[trigger] ops[k]) is Commit),
    ensures
        crate::sim::attempt_end(env, cpu, ops, stop, i, s) matches AttemptEnd::Aborted(w)
            ==> w == s.words,
    decreases ops.len() - i,
{
    if i < ops.len() && !(stop matches Some(at) && at == i) {
        if let Effect::Continue(next) = crate::sim::step_effect(env, cpu, ops[i], s) {
            lemma_untouched_when_aborted(env, cpu, ops, stop, i + 1, next);
        }
    }
}

/// The counters pass, with any stride and under any bound: nothing that is
/// observed tells an interrupted run from a clean one.
pub proof fn law_counters_pass(t: Trial, stride: usize, max_aborts: nat)
    requires
        crate::behaviour::counter_layout(t.decls, stride),
        stride > 0,
        stride * t.ncpus <= usize::MAX,
        t.ops == crate::behaviour::strided_ops(stride) || (stride == 1 && t.ops
            == crate::behaviour::counter_ops()),
        t.ret is None,
        !t.post_commit_in_window,
        crate::sim::words_match(t.decls, t.ncpus as int, t.init),
        observes_steadily(t),
    ensures
        t.first_bad(max_aborts) is None,
{
    crate::behaviour::law_counters_are_sound(t.decls, stride);
    assert forall|i: int| 0 <= i < t.ops.len() implies !((#[trigger] t.ops[i]) is StoreScratch) by {
    }
    assert(crate::laws::blind_to_scratch(t)) by {
        assert forall|a: Words, b: Words| crate::laws::agree_but_scratch(t.ops, a, b) implies
            #[trigger] (t.alike)(a, b) by {
            crate::behaviour::lemma_no_scratch(t.ops, a, b);
        }
    }
    assert forall|cpu: usize| cpu < t.ncpus implies (#[trigger] t.clean_run(cpu)).0 is Ok by {
        let env = t.setting(cpu);
        if t.ops == crate::behaviour::strided_ops(stride) {
            crate::behaviour::law_strided_counter_bumps_its_cpu(env, cpu, stride, t.init);
        } else {
            crate::behaviour::law_counter_bumps_its_cpu(env, cpu, t.init);
        }
        crate::behaviour::lemma_clean_run(env, t.ops, t.ret, t.init);
    }
    assert forall|start_cpu: usize, plan: Seq<AbortPoint>|
        start_cpu < t.ncpus && crate::laws::plan_in_range(plan, t.ncpus) implies (#[trigger] t.flaw(
        start_cpu,
        plan,
    )) is None by {
        crate::laws::lemma_planned_in_range(
            t.setting(start_cpu),
            t.ops,
            t.ret,
            false,
            start_cpu,
            plan,
            t.init,
        );
        crate::laws::law_disciplined_program_passes(t, start_cpu, plan);
    }
    lemma_passes(t, max_aborts);
}

/// A run of the counter with the hoisting bug ends on the CPU it started on,
/// or is refused.
proof fn lemma_hoisted_run(env: Setting, cpu: usize, plan: Seq<AbortPoint>, words: Words)
    requires
        crate::behaviour::counter_layout(env.decls, 1),
        crate::sim::words_match(env.decls, env.ncpus as int, words),
        env.start_cpu < env.ncpus,
        crate::laws::plan_in_range(plan, env.ncpus),
    ensures
        ({
            let run = crate::sim::run_end(
                env,
                crate::behaviour::hoisted_ops(),
                None,
                false,
                cpu,
                plan,
                words,
            );
            ||| run.0 matches Err(SimError::ForeignCommit { .. })
            ||| run == (
                Ok::<RunResult, SimError>(
                    RunResult {
                        outcome: Outcome::Committed { ret: None },
                        final_cpu: env.start_cpu,
                    },
                ),
                crate::behaviour::bumped(words, env.start_cpu as int),
            )
        }),
    decreases plan.len(),
{
    let ops = crate::behaviour::hoisted_ops();
    let stop = crate::sim::next_stop(plan);
    let end = crate::sim::attempt_end(env, cpu, ops, stop, 0, State::entry(words));
    lemma_untouched_when_aborted(env, cpu, ops, stop, 0, State::entry(words));
    if end is Aborted {
        crate::sim::lemma_abort_has_stop(env, cpu, ops, stop, 0, State::entry(words));
        assert(plan[0].new_cpu < env.ncpus);
        lemma_hoisted_run(env, plan[0].new_cpu, plan.drop_first(), words);
    } else {
        crate::laws::lemma_unstopped(env, cpu, ops, stop, 0, State::entry(words));
        crate::behaviour::law_hoisted_counter_commits_to_its_start(env, cpu, words);
    }
}

/// The hoisting bug is reported: with two CPUs and one abort the checker finds
/// a commit to a foreign slice, and only a migration shows it.
pub proof fn law_hoisting_is_reported(t: Trial, max_aborts: nat)
    requires
        crate::behaviour::counter_layout(t.decls, 1),
        t.ops == crate::behaviour::hoisted_ops(),
        t.ret is None,
        !t.post_commit_in_window,
        crate::sim::words_match(t.decls, t.ncpus as int, t.init),
        observes_steadily(t),
        t.ncpus >= 2,
        max_aborts >= 1,
    ensures
        t.first_bad(max_aborts) matches Some(f) && f.plan.len() > 0 && (f.flaw matches Flaw::Sim(
            SimError::ForeignCommit { .. },
        )),
{
    let migration = AbortPoint { at: 0, new_cpu: 1 };
    let plan = seq![migration];
    crate::behaviour::law_hoisting_is_caught_by_one_migration(t.setting(0), 0, 1, t.init);
    let f = lemma_found(t, max_aborts, 0, plan);
    let env = t.setting(f.start_cpu);
    lemma_hoisted_run(env, f.start_cpu, f.plan, t.init);
    crate::behaviour::law_hoisted_counter_commits_to_its_start(env, f.start_cpu, t.init);
    crate::behaviour::lemma_clean_run(env, t.ops, t.ret, t.init);
    let run = t.run(f.start_cpu, f.plan);
    assert(run == crate::sim::run_end(env, t.ops, t.ret, false, f.start_cpu, f.plan, t.init));
    if f.plan.len() == 0 {
        assert(f.plan =~= seq![]);
        assert(run == t.clean_run(f.start_cpu));
    }
}

/// A run of the counter whose window reaches past its commit still commits.
proof fn lemma_double_run(env: Setting, cpu: usize, plan: Seq<AbortPoint>, words: Words)
    requires
        crate::behaviour::counter_layout(env.decls, 1),
        crate::sim::words_match(env.decls, env.ncpus as int, words),
        cpu < env.ncpus,
        crate::laws::plan_in_range(plan, env.ncpus),
    ensures
        crate::sim::run_end(
            env,
            crate::behaviour::counter_ops(),
            None,
            true,
            cpu,
            plan,
            words,
        ).0 matches Ok(r) && r.outcome == (Outcome::Committed { ret: None }) && r.final_cpu
            < env.ncpus,
    decreases plan.len(),
{
    let ops = crate::behaviour::counter_ops();
    let stop = crate::sim::next_stop(plan);
    lemma_untouched_when_aborted(env, cpu, ops, stop, 0, State::entry(words));
    match crate::sim::attempt_end(env, cpu, ops, stop, 0, State::entry(words)) {
        AttemptEnd::Aborted(w) => {
            crate::sim::lemma_abort_has_stop(env, cpu, ops, stop, 0, State::entry(words));
            assert(plan[0].new_cpu < env.ncpus);
            lemma_double_run(env, plan[0].new_cpu, plan.drop_first(), words);
        },
        _ => {
            crate::laws::lemma_unstopped(env, cpu, ops, stop, 0, State::entry(words));
            crate::behaviour::law_counter_bumps_its_cpu(env, cpu, words);
            if plan.len() > 0 {
                assert(plan[0].new_cpu < env.ncpus);
                let after = crate::behaviour::bumped(words, cpu as int);
                assert(crate::sim::words_match(env.decls, env.ncpus as int, after));
                lemma_double_run(env, plan[0].new_cpu, plan.drop_first(), after);
            }
        },
    }
}

/// A window that reaches past the commit is reported: with one abort the
/// checker finds a schedule that leaves other counters than a clean run.
pub proof fn law_late_window_is_reported(t: Trial, max_aborts: nat)
    requires
        crate::behaviour::counter_layout(t.decls, 1),
        t.ops == crate::behaviour::counter_ops(),
        t.ret is None,
        t.post_commit_in_window,
        crate::sim::words_match(t.decls, t.ncpus as int, t.init),
        exposes(t, set![0int]),
        t.ncpus >= 1,
        max_aborts >= 1,
    ensures
        t.first_bad(max_aborts) matches Some(f) && f.flaw is Observable,
{
    let again = AbortPoint { at: 4, new_cpu: 0 };
    let plan = seq![again];
    let env = t.setting(0);
    crate::behaviour::law_post_commit_restart_counts_twice(env, 0, t.init);
    crate::behaviour::law_counter_bumps_its_cpu(env, 0, t.init);
    crate::behaviour::lemma_clean_run(env, t.ops, t.ret, t.init);
    let once = crate::behaviour::bumped(t.init, 0);
    let twice = crate::behaviour::bumped(once, 0);
    assert(t.init[0].len() == t.ncpus);
    assert(twice[0][0] != once[0][0]);
    assert(t.run(0, plan).1 == twice);
    assert(t.clean_run(0).1 == once);
    assert(twice[0] != once[0]);
    assert(!(t.alike)(twice, once));
    let f = lemma_found(t, max_aborts, 0, plan);
    lemma_double_run(t.setting(f.start_cpu), f.start_cpu, f.plan, t.init);
    let c = t.run(f.start_cpu, f.plan).0->Ok_0.final_cpu;
    crate::behaviour::law_counter_bumps_its_cpu(t.setting(c), c, t.init);
    crate::behaviour::lemma_clean_run(t.setting(c), t.ops, t.ret, t.init);
}

/// The array run and the clean run on the CPU it ends on agree in their
/// results and in the committed elements.
proof fn lemma_array_runs_agree(
    t: Trial,
    cap: usize,
    value: u64,
    start_cpu: usize,
    plan: Seq<AbortPoint>,
)
    requires
        array_trial(t, cap, value),
        start_cpu < t.ncpus,
        crate::laws::plan_in_range(plan, t.ncpus),
    ensures
        t.run(start_cpu, plan).0 is Ok,
        ({
            let (got, got_words) = t.run(start_cpu, plan);
            let (want, want_words) = t.clean_run(got->Ok_0.final_cpu);
            want == got && elements_agree(got_words, want_words, cap, t.ncpus)
        }),
{
    let env = t.setting(start_cpu);
    crate::laws::lemma_planned_in_range(env, t.ops, t.ret, false, start_cpu, plan, t.init);
    crate::behaviour::law_array_push_publishes_once(env, cap, value, plan, t.init);
    let run = t.run(start_cpu, plan);
    let c = choose|c: usize| #[trigger]
        crate::behaviour::array_pushed(t.ncpus, run, t.init, cap, value, c);
    let clean = t.clean_run(c);
    let none = Seq::<AbortPoint>::empty();
    crate::laws::lemma_planned_in_range(t.setting(c), t.ops, t.ret, false, c, none, t.init);
    crate::behaviour::law_array_push_publishes_once(t.setting(c), cap, value, none, t.init);
    let d = choose|d: usize| #[trigger]
        crate::behaviour::array_pushed(t.ncpus, clean, t.init, cap, value, d);
    crate::sim::lemma_clean_run_stays(t.setting(c), t.ops, t.ret, t.init);
    assert(d == c);
    let a = run.1;
    let b = clean.1;
    assert(t.init[0].len() == t.ncpus);
    assert forall|e: int, i: int|
        #![trigger crate::behaviour::slot(cap, e, i)]
        0 <= e < t.ncpus && 0 <= i < a[0][e] && i < cap implies a[1][crate::behaviour::slot(
        cap,
        e,
        i,
    )] == b[1][crate::behaviour::slot(cap, e, i)] by {
        if e == c && i == t.init[0][c as int] {
        } else if e == c {
            assert(i < t.init[0][e]);
        } else {
            assert(a[0][e] == t.init[0][e]);
        }
    }
}

/// The question whether pushing `value` onto the arrays survives.
pub open spec fn array_trial(t: Trial, cap: usize, value: u64) -> bool {
    &&& crate::behaviour::array_layout(t.decls, cap)
    &&& cap * t.ncpus <= usize::MAX
    &&& t.ops == PushArray::push_ops(RegionId(0), RegionId(1), cap as u64, value)
    &&& t.ret is None
    &&& !t.post_commit_in_window
    &&& crate::sim::words_match(t.decls, t.ncpus as int, t.init)
}

/// Two memories hold the same committed elements: equal counts, and equal
/// elements below them.
pub open spec fn elements_agree(a: Words, b: Words, cap: usize, ncpus: usize) -> bool {
    &&& a[0] == b[0]
    &&& forall|d: int, i: int|
        #![trigger crate::behaviour::slot(cap, d, i)]
        0 <= d < ncpus && 0 <= i < a[0][d] && i < cap ==> a[1][crate::behaviour::slot(cap, d, i)]
            == b[1][crate::behaviour::slot(cap, d, i)]
}

/// Only committed elements are observed.
pub open spec fn sees_elements_only(t: Trial, cap: usize) -> bool {
    forall|a: Words, b: Words|
        elements_agree(a, b, cap, t.ncpus) ==> #[trigger] (t.alike)(a, b)
}

/// The array push passes, full arrays included, where only committed elements
/// are observed: what aborted attempts scribble does not show.
pub proof fn law_array_push_passes(
    t: Trial,
    cap: usize,
    value: u64,
    max_aborts: nat,
)
    requires
        array_trial(t, cap, value),
        sees_elements_only(t, cap),
    ensures
        t.first_bad(max_aborts) is None,
{
    assert forall|start_cpu: usize, plan: Seq<AbortPoint>|
        start_cpu < t.ncpus && crate::laws::plan_in_range(plan, t.ncpus) implies (#[trigger] t.flaw(
        start_cpu,
        plan,
    )) is None by {
        lemma_array_runs_agree(t, cap, value, start_cpu, plan);
    }
    lemma_passes(t, max_aborts);
}

/// Observing raw scratch is too strict: where the slots themselves are
/// observed, the checker reports the scribble of an aborted attempt, provided
/// there is a second CPU, room on the first, and one abort.
pub proof fn law_raw_scratch_is_reported(
    t: Trial,
    cap: usize,
    value: u64,
    max_aborts: nat,
)
    requires
        array_trial(t, cap, value),
        exposes(t, set![1int]),
        t.ncpus >= 2,
        max_aborts >= 1,
        t.init[0][0] < cap,
        t.init[1][t.init[0][0] as int] != value,
    ensures
        t.first_bad(max_aborts) matches Some(f) && f.flaw is Observable,
{
    let count = t.init[0][0] as int;
    let plan = seq![AbortPoint { at: 6, new_cpu: 1 }];
    let env = t.setting(0);
    let scribbled = crate::behaviour::with_word(t.init, 1, count, value);
    crate::behaviour::lemma_array_scribbles(env, cap, value, t.init);
    assert(crate::sim::next_stop(plan) == Some(6usize));
    assert(plan.drop_first() =~= Seq::<AbortPoint>::empty());
    assert(t.init[0].len() == t.ncpus);
    assert(t.init[1].len() == cap * t.ncpus);
    assert(count < cap * t.ncpus && cap + cap <= cap * t.ncpus) by (nonlinear_arith)
        requires
            0 <= count < cap,
            t.ncpus >= 2,
    ;
    assert(crate::sim::words_match(t.decls, t.ncpus as int, scribbled));
    // The second attempt, on CPU 1, does what it does; the scribble stays.
    crate::behaviour::law_array_push(env, 1, cap, value, scribbled);
    crate::behaviour::lemma_clean_run(
        Setting { start_cpu: 1, ..env },
        t.ops,
        t.ret,
        scribbled,
    );
    crate::behaviour::law_array_push(t.setting(1), 1, cap, value, t.init);
    crate::behaviour::lemma_clean_run(t.setting(1), t.ops, t.ret, t.init);
    crate::sim::lemma_abort_has_stop(env, 1, t.ops, None, 0, State::entry(scribbled));
    let none = Seq::<AbortPoint>::empty();
    assert(crate::sim::next_stop(none) is None);
    let run = t.run(0, plan);
    assert(run == crate::sim::run_end(env, t.ops, t.ret, false, 1, none, scribbled));
    let clean = t.clean_run(1);
    let other = 1 * cap + t.init[0][1];
    assert(other >= cap);
    assert(run.1[1][count] == value);
    assert(clean.1[1][count] == t.init[1][count]);
    assert(run.1[1] != clean.1[1]);
    assert(!(t.alike)(run.1, clean.1));
    assert(run.0->Ok_0.final_cpu == 1);
    let f = lemma_found(t, max_aborts, 0, plan);
    lemma_array_runs_agree(t, cap, value, f.start_cpu, f.plan);
}

/// The freelist push passes, whatever is observed, provided the node is on no
/// list.
pub proof fn law_freelist_push_passes(t: Trial, nnodes: usize, max_aborts: nat)
    requires
        crate::behaviour::freelist_layout(t.decls, nnodes),
        t.ops == Freelist::push_ops(RegionId(0), RegionId(1)),
        t.ret is None,
        !t.post_commit_in_window,
        crate::sim::words_match(t.decls, t.ncpus as int, t.init),
        t.params.len() > 0,
        (t.params[0] as usize) < nnodes,
        t.params[0] != crate::progs::NIL,
        forall|c: int|
            0 <= c < t.ncpus ==> #[trigger] crate::behaviour::list_of(t.init, 0, 1, c) is Some
                && crate::behaviour::not_on_list(t.init, 0, 1, c, t.params[0]),
        observes_steadily(t),
    ensures
        t.first_bad(max_aborts) is None,
{
    assert forall|start_cpu: usize, plan: Seq<AbortPoint>|
        start_cpu < t.ncpus && crate::laws::plan_in_range(plan, t.ncpus) implies (#[trigger] t.flaw(
        start_cpu,
        plan,
    )) is None by {
        let env = t.setting(start_cpu);
        crate::laws::lemma_planned_in_range(env, t.ops, t.ret, false, start_cpu, plan, t.init);
        crate::behaviour::law_push_adds_its_node_once(env, nnodes, plan, t.init);
        let run = t.run(start_cpu, plan);
        let node = t.params[0];
        let c = choose|c: usize| #[trigger]
            crate::behaviour::pushed_on(run, t.init, t.ncpus, node, c);
        let none = Seq::<AbortPoint>::empty();
        crate::laws::lemma_planned_in_range(t.setting(c), t.ops, t.ret, false, c, none, t.init);
        crate::behaviour::law_push_adds_its_node_once(t.setting(c), nnodes, none, t.init);
        let clean = t.clean_run(c);
        let d = choose|d: usize| #[trigger]
            crate::behaviour::pushed_on(clean, t.init, t.ncpus, node, d);
        crate::sim::lemma_clean_run_stays(t.setting(c), t.ops, t.ret, t.init);
        assert(d == c);
    }
    lemma_passes(t, max_aborts);
}

/// The freelist pop passes, empty lists included, whatever is observed.
pub proof fn law_freelist_pop_passes(t: Trial, nnodes: usize, max_aborts: nat)
    requires
        crate::behaviour::freelist_layout(t.decls, nnodes),
        t.ops == Freelist::pop_ops(RegionId(0), RegionId(1)),
        t.ret == Some(Operand::Reg(1)),
        !t.post_commit_in_window,
        crate::sim::words_match(t.decls, t.ncpus as int, t.init),
        forall|c: int|
            0 <= c < t.ncpus ==> #[trigger] crate::behaviour::list_of(t.init, 0, 1, c) is Some,
        observes_steadily(t),
    ensures
        t.first_bad(max_aborts) is None,
{
    assert forall|start_cpu: usize, plan: Seq<AbortPoint>|
        start_cpu < t.ncpus && crate::laws::plan_in_range(plan, t.ncpus) implies (#[trigger] t.flaw(
        start_cpu,
        plan,
    )) is None by {
        let env = t.setting(start_cpu);
        crate::laws::lemma_planned_in_range(env, t.ops, t.ret, false, start_cpu, plan, t.init);
        crate::behaviour::law_pop_takes_one_node(env, nnodes, plan, t.init);
        let run = t.run(start_cpu, plan);
        let c = choose|c: usize| #[trigger]
            crate::behaviour::popped_on(run, t.init, t.ncpus, c);
        let none = Seq::<AbortPoint>::empty();
        crate::laws::lemma_planned_in_range(t.setting(c), t.ops, t.ret, false, c, none, t.init);
        crate::behaviour::law_pop_takes_one_node(t.setting(c), nnodes, none, t.init);
        let clean = t.clean_run(c);
        let d = choose|d: usize| #[trigger]
            crate::behaviour::popped_on(clean, t.init, t.ncpus, d);
        crate::sim::lemma_clean_run_stays(t.setting(c), t.ops, t.ret, t.init);
        assert(d == c);
    }
    lemma_passes(t, max_aborts);
}

/// The lists and the locks are all that is observed: memory with the same lists
/// and the same locks looks alike.
pub open spec fn sees_lists_and_locks(t: Trial, locks: int, heads: int, nodes: int) -> bool {
    forall|a: Words, b: Words|
        a[locks] == b[locks] && (forall|c: int|
            0 <= c < t.ncpus ==> #[trigger] crate::behaviour::list_of(a, heads, nodes, c)
                == crate::behaviour::list_of(b, heads, nodes, c)) ==> #[trigger] (t.alike)(a, b)
}

/// The lockable push passes with any CPUs locked, where the lists and the locks
/// are observed, provided the node is on no list.
pub proof fn law_lockable_push_passes(t: Trial, nnodes: usize, free: Set<int>, max_aborts: nat)
    requires
        crate::behaviour::lockable_layout(t.decls, nnodes),
        t.ops == crate::behaviour::lockable_push_ops(),
        t.ret is None,
        !t.post_commit_in_window,
        crate::sim::words_match(t.decls, t.ncpus as int, t.init),
        crate::conservation::holds_exactly(t.init, 1, 2, t.ncpus, free),
        t.params.len() > 0,
        crate::conservation::may_push(t.params[0], nnodes, free),
        sees_lists_and_locks(t, 0, 1, 2),
    ensures
        t.first_bad(max_aborts) is None,
{
    let node = t.params[0];
    assert(t.init[0].len() == t.ncpus);
    assert(t.init[2].len() == nnodes);
    assert forall|start_cpu: usize, plan: Seq<AbortPoint>|
        start_cpu < t.ncpus && crate::laws::plan_in_range(plan, t.ncpus) implies (#[trigger] t.flaw(
        start_cpu,
        plan,
    )) is None by {
        let env = t.setting(start_cpu);
        crate::laws::lemma_planned_in_range(env, t.ops, t.ret, false, start_cpu, plan, t.init);
        crate::behaviour::law_lockable_push_runs(env, nnodes, plan, t.init);
        let run = t.run(start_cpu, plan);
        let c = choose|c: usize| #[trigger]
            crate::behaviour::lockable_pushed_on(run, t.init, t.ncpus, node, c);
        let none = Seq::<AbortPoint>::empty();
        crate::laws::lemma_planned_in_range(t.setting(c), t.ops, t.ret, false, c, none, t.init);
        crate::behaviour::law_lockable_push_runs(t.setting(c), nnodes, none, t.init);
        let clean = t.clean_run(c);
        let d = choose|d: usize| #[trigger]
            crate::behaviour::lockable_pushed_on(clean, t.init, t.ncpus, node, d);
        crate::sim::lemma_clean_run_stays(t.setting(c), t.ops, t.ret, t.init);
        assert(d == c);
        if t.init[0][c as int] != 0 {
            let at = node as usize as int;
            crate::conservation::lemma_scribble(
                t.init,
                1,
                2,
                t.ncpus,
                free,
                node,
                run.1[2][at],
            );
            crate::conservation::lemma_scribble(
                t.init,
                1,
                2,
                t.ncpus,
                free,
                node,
                clean.1[2][at],
            );
            assert forall|e: int| 0 <= e < t.ncpus implies #[trigger] crate::behaviour::list_of(
                run.1,
                1,
                2,
                e,
            ) == crate::behaviour::list_of(clean.1, 1, 2, e) by {
                assert(crate::behaviour::list_of(clean.1, 1, 2, e) == crate::behaviour::list_of(
                    t.init,
                    1,
                    2,
                    e,
                ));
            }
        }
        assert(run.1[0] == clean.1[0]);
        assert((t.alike)(run.1, clean.1));
    }
    lemma_passes(t, max_aborts);
}

/// The lockable pop passes with any CPUs locked, whatever is observed.
pub proof fn law_lockable_pop_passes(t: Trial, nnodes: usize, max_aborts: nat)
    requires
        crate::behaviour::lockable_layout(t.decls, nnodes),
        t.ops == crate::behaviour::lockable_pop_ops(),
        t.ret == Some(Operand::Reg(2)),
        !t.post_commit_in_window,
        crate::sim::words_match(t.decls, t.ncpus as int, t.init),
        forall|c: int|
            0 <= c < t.ncpus && #[trigger] t.init[1][c] != crate::progs::NIL ==> (
            t.init[1][c] as usize) < nnodes,
        observes_steadily(t),
    ensures
        t.first_bad(max_aborts) is None,
{
    assert forall|start_cpu: usize, plan: Seq<AbortPoint>|
        start_cpu < t.ncpus && crate::laws::plan_in_range(plan, t.ncpus) implies (#[trigger] t.flaw(
        start_cpu,
        plan,
    )) is None by {
        let env = t.setting(start_cpu);
        crate::laws::lemma_planned_in_range(env, t.ops, t.ret, false, start_cpu, plan, t.init);
        crate::behaviour::law_lockable_pop_runs(env, nnodes, plan, t.init);
        let run = t.run(start_cpu, plan);
        let c = choose|c: usize| #[trigger]
            crate::behaviour::lockable_popped_on(run, t.init, t.ncpus, c);
        let none = Seq::<AbortPoint>::empty();
        crate::laws::lemma_planned_in_range(t.setting(c), t.ops, t.ret, false, c, none, t.init);
        crate::behaviour::law_lockable_pop_runs(t.setting(c), nnodes, none, t.init);
        let clean = t.clean_run(c);
        let d = choose|d: usize| #[trigger]
            crate::behaviour::lockable_popped_on(clean, t.init, t.ncpus, d);
        crate::sim::lemma_clean_run_stays(t.setting(c), t.ops, t.ret, t.init);
        assert(d == c);
    }
    lemma_passes(t, max_aborts);
}

} // verus!
