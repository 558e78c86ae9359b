//! How many schedules the checker tries, and which of the flawed ones it
//! reports.

use vstd::prelude::*;
use vstd::std_specs::cmp::PartialEqSpec;

use crate::check::{CheckConfig, CheckFailure, FailureKind, Finding, Flaw, Trial};
use crate::ir::{Layout, Program};
use crate::sim::{AbortPoint, Memory, RunResult, Setting, SimError, Words};

verus! {

/// The plans of at most `depth` aborts, each before one of `places` positions
/// and to one of `ncpus` CPUs.
pub open spec fn plans(places: int, ncpus: int, depth: nat) -> Set<Seq<AbortPoint>> {
    Set::new(
        |plan: Seq<AbortPoint>|
            plan.len() <= depth && forall|i: int|
                0 <= i < plan.len() ==> (#[trigger] plan[i]).at < places && plan[i].new_cpu
                    < ncpus,
    )
}

spec fn point(ncpus: int, k: int) -> AbortPoint {
    AbortPoint { at: (k / ncpus) as usize, new_cpu: (k % ncpus) as usize }
}

proof fn lemma_point(places: int, ncpus: int, k: int)
    requires
        0 <= k < places * ncpus,
        0 < ncpus <= usize::MAX,
        places <= usize::MAX + 1,
    ensures
        point(ncpus, k).at == k / ncpus,
        point(ncpus, k).new_cpu == k % ncpus,
        k / ncpus < places,
        k == (k / ncpus) * ncpus + k % ncpus,
{
    vstd::arithmetic::div_mod::lemma_fundamental_div_mod(k, ncpus);
    vstd::arithmetic::mul::lemma_mul_is_commutative(ncpus, k / ncpus);
    vstd::arithmetic::div_mod::lemma_div_pos_is_pos(k, ncpus);
    assert(k / ncpus < places) by (nonlinear_arith)
        requires
            (k / ncpus) * ncpus <= k < places * ncpus,
            ncpus > 0,
    ;
}

proof fn lemma_point_of(places: int, ncpus: int, e: AbortPoint) -> (k: int)
    requires
        0 < ncpus <= usize::MAX,
        places <= usize::MAX + 1,
        e.at < places,
        e.new_cpu < ncpus,
    ensures
        0 <= k < places * ncpus,
        point(ncpus, k) == e,
{
    let k = e.at * ncpus + e.new_cpu;
    assert(0 <= k < places * ncpus) by (nonlinear_arith)
        requires
            k == e.at * ncpus + e.new_cpu,
            0 <= e.at < places,
            0 <= e.new_cpu < ncpus,
    ;
    vstd::arithmetic::div_mod::lemma_fundamental_div_mod_converse(
        k,
        ncpus,
        e.at as int,
        e.new_cpu as int,
    );
    k
}

/// The plans that begin with one of the first `m` aborts.
spec fn begun(places: int, ncpus: int, depth: nat, m: int) -> Set<Seq<AbortPoint>> {
    Set::new(
        |plan: Seq<AbortPoint>|
            plan.len() > 0 && plans(places, ncpus, depth).contains(plan.drop_first()) && exists|
                k: int,
            |
                0 <= k < m && plan[0] == #[trigger] point(ncpus, k),
    )
}

proof fn lemma_begun(places: int, ncpus: int, depth: nat, m: int)
    requires
        0 < ncpus <= usize::MAX,
        0 <= places <= usize::MAX + 1,
        0 <= m <= places * ncpus,
        plans(places, ncpus, depth).finite(),
    ensures
        begun(places, ncpus, depth, m).finite(),
        begun(places, ncpus, depth, m).len() == m * plans(places, ncpus, depth).len(),
    decreases m,
{
    let rest = plans(places, ncpus, depth);
    let now = begun(places, ncpus, depth, m);
    if m == 0 {
        assert(now =~= Set::empty());
    } else {
        lemma_begun(places, ncpus, depth, m - 1);
        let before = begun(places, ncpus, depth, m - 1);
        let e = point(ncpus, m - 1);
        let f = |q: Seq<AbortPoint>| seq![e] + q;
        let added = rest.map(f);
        assert(vstd::relations::injective_on(f, rest)) by {
            assert forall|p: Seq<AbortPoint>, q: Seq<AbortPoint>|
                rest.contains(p) && rest.contains(q) && #[trigger] f(p) == #[trigger] f(q) implies p
                == q by {
                assert((seq![e] + p).drop_first() =~= p);
                assert((seq![e] + q).drop_first() =~= q);
            }
        }
        vstd::set_lib::lemma_map_size(rest, added, f);
        assert(now =~= before + added) by {
            assert forall|p: Seq<AbortPoint>| now.contains(p) <==> (before + added).contains(p) by {
                if now.contains(p) {
                    let k = choose|k: int| 0 <= k < m && p[0] == #[trigger] point(ncpus, k);
                    if k < m - 1 {
                        assert(before.contains(p));
                    } else {
                        assert(p =~= f(p.drop_first()));
                        assert(added.contains(p));
                    }
                }
                if added.contains(p) {
                    let q = choose|q: Seq<AbortPoint>| rest.contains(q) && p == #[trigger] f(q);
                    assert((seq![e] + q).drop_first() =~= q);
                    assert(p[0] == point(ncpus, m - 1));
                }
                if before.contains(p) {
                    let k = choose|k: int| 0 <= k < m - 1 && p[0] == #[trigger] point(ncpus, k);
                    assert(p[0] == point(ncpus, k));
                }
            }
        }
        assert(before.disjoint(added)) by {
            assert forall|p: Seq<AbortPoint>| before.contains(p) implies !added.contains(p) by {
                let k = choose|k: int| 0 <= k < m - 1 && p[0] == #[trigger] point(ncpus, k);
                lemma_point(places, ncpus, k);
                lemma_point(places, ncpus, m - 1);
                if added.contains(p) {
                    let q = choose|q: Seq<AbortPoint>| rest.contains(q) && p == #[trigger] f(q);
                    assert(p[0] == e);
                }
            }
        }
        vstd::set_lib::lemma_set_disjoint_lens(before, added);
        assert(m * rest.len() == (m - 1) * rest.len() + rest.len()) by (nonlinear_arith);
    }
}

proof fn lemma_plans(places: int, ncpus: int, depth: nat)
    requires
        0 < ncpus <= usize::MAX,
        0 <= places <= usize::MAX + 1,
    ensures
        plans(places, ncpus, depth).finite(),
        plans(places, ncpus, depth).len() == crate::check::schedule_count(
            (places * ncpus) as nat,
            depth,
        ),
    decreases depth,
{
    let all = plans(places, ncpus, depth);
    let none: Seq<AbortPoint> = seq![];
    let only = Set::<Seq<AbortPoint>>::empty().insert(none);
    assert(places * ncpus >= 0) by (nonlinear_arith)
        requires
            places >= 0,
            ncpus > 0,
    ;
    if depth == 0 {
        assert(all =~= only) by {
            assert forall|p: Seq<AbortPoint>| all.contains(p) implies only.contains(p) by {
                assert(p =~= none);
            }
        }
    } else {
        let less = (depth - 1) as nat;
        let m = places * ncpus;
        lemma_plans(places, ncpus, less);
        lemma_begun(places, ncpus, less, m);
        let rest = plans(places, ncpus, less);
        let some = begun(places, ncpus, less, m);
        assert(all =~= only + some) by {
            assert forall|p: Seq<AbortPoint>| all.contains(p) <==> (only + some).contains(p) by {
                if all.contains(p) {
                    if p.len() == 0 {
                        assert(p =~= none);
                    } else {
                        let k = lemma_point_of(places, ncpus, p[0]);
                        assert(p[0] == point(ncpus, k));
                        assert forall|i: int| 0 <= i < p.drop_first().len() implies (
                        #[trigger] p.drop_first()[i]).at < places && p.drop_first()[i].new_cpu
                            < ncpus by {
                            assert(p.drop_first()[i] == p[i + 1]);
                        }
                        assert(rest.contains(p.drop_first()));
                    }
                }
                if some.contains(p) {
                    let k = choose|k: int| 0 <= k < m && p[0] == #[trigger] point(ncpus, k);
                    lemma_point(places, ncpus, k);
                    assert forall|i: int| 0 <= i < p.len() implies (#[trigger] p[i]).at < places
                        && p[i].new_cpu < ncpus by {
                        if i > 0 {
                            assert(p[i] == p.drop_first()[i - 1]);
                        }
                    }
                }
            }
        }
        assert(only.disjoint(some));
        vstd::set_lib::lemma_set_disjoint_lens(only, some);
    }
}

/// The number of schedules that the checker says it tries from each CPU is the
/// number of different plans: of up to so many aborts, each before one of the
/// operations, or behind the last where the modelled window reaches that far,
/// and to one of the CPUs.
pub proof fn law_schedules_are_counted(prog: Program, cfg: CheckConfig)
    requires
        cfg.ncpus > 0,
    ensures
        ({
            let places = if cfg.sim.post_commit_in_window {
                prog.ops@.len() as int + 1
            } else {
                prog.ops@.len() as int
            };
            let all = plans(places, cfg.ncpus as int, cfg.max_aborts as nat);
            &&& all.finite()
            &&& all.len() == crate::check::schedules_per_start(prog, cfg)
        }),
{
    let places = if cfg.sim.post_commit_in_window {
        prog.ops@.len() as int + 1
    } else {
        prog.ops@.len() as int
    };
    assert(prog.ops@.len() == prog.ops.len());
    lemma_plans(places, cfg.ncpus as int, cfg.max_aborts as nat);
}

/// What the checker tries are those plans.
pub proof fn law_tried_plans(
    t: Trial,
    start_cpu: usize,
    plan: Seq<AbortPoint>,
    max_aborts: nat,
)
    ensures
        ({
            let places = if t.post_commit_in_window {
                t.ops.len() as int + 1
            } else {
                t.ops.len() as int
            };
            t.tries(start_cpu, plan, max_aborts) <==> start_cpu < t.ncpus && plans(
                places,
                t.ncpus as int,
                max_aborts,
            ).contains(plan)
        }),
{
}

/// The checker comes to plan `p` no later than to plan `q`: it tries a plan
/// before its continuations, and continues with earlier aborts first, those
/// before one operation in the order of their CPUs.
pub open spec fn tried_first(p: Seq<AbortPoint>, q: Seq<AbortPoint>) -> bool {
    ||| p.len() <= q.len() && q.take(p.len() as int) == p
    ||| exists|k: int| #[trigger] branches_off(p, q, k)
}

/// The plans part at entry `k`, where `p` has the earlier abort.
pub open spec fn branches_off(p: Seq<AbortPoint>, q: Seq<AbortPoint>, k: int) -> bool {
    &&& 0 <= k < p.len()
    &&& k < q.len()
    &&& p.take(k) == q.take(k)
    &&& p[k].at < q[k].at || (p[k].at == q[k].at && p[k].new_cpu < q[k].new_cpu)
}

proof fn lemma_first_from(
    t: Trial,
    start_cpu: usize,
    plan: Seq<AbortPoint>,
    depth: nat,
    q: Seq<AbortPoint>,
)
    requires
        t.ops.len() < usize::MAX,
        plan.len() <= q.len() <= plan.len() + depth,
        q.take(plan.len() as int) == plan,
        crate::laws::enumerable(t, q, plan.len() as int),
        t.flaw(start_cpu, q) is Some,
    ensures
        t.first_bad_from(start_cpu, plan, depth) is Some,
        t.first_bad_from(start_cpu, plan, depth).unwrap().start_cpu == start_cpu,
        tried_first(t.first_bad_from(start_cpu, plan, depth).unwrap().plan, q),
    decreases depth, t.max_at() + 1, 0int,
{
    if t.flaw(start_cpu, plan) is None {
        if q.len() == plan.len() {
            assert(q =~= plan);
        }
        lemma_first_child(t, start_cpu, plan, depth, 0, 0, q);
    }
}

proof fn lemma_first_child(
    t: Trial,
    start_cpu: usize,
    plan: Seq<AbortPoint>,
    depth: nat,
    at: int,
    cpu: int,
    q: Seq<AbortPoint>,
)
    requires
        t.ops.len() < usize::MAX,
        plan.len() < q.len() <= plan.len() + depth,
        q.take(plan.len() as int) == plan,
        crate::laws::enumerable(t, q, plan.len() as int),
        t.flaw(start_cpu, q) is Some,
        0 <= at,
        0 <= cpu <= t.ncpus,
        at < q[plan.len() as int].at || (at == q[plan.len() as int].at && cpu
            <= q[plan.len() as int].new_cpu),
    ensures
        t.first_bad_child(start_cpu, plan, depth, at, cpu) is Some,
        t.first_bad_child(start_cpu, plan, depth, at, cpu).unwrap().start_cpu == start_cpu,
        tried_first(t.first_bad_child(start_cpu, plan, depth, at, cpu).unwrap().plan, q),
    decreases depth, t.max_at() - at, t.ncpus - cpu,
{
    let n = plan.len() as int;
    let last = q[n];
    if cpu >= t.ncpus {
        lemma_first_child(t, start_cpu, plan, depth, at + 1, 0, q);
    } else {
        let e = AbortPoint { at: at as usize, new_cpu: cpu as usize };
        let less = (depth - 1) as nat;
        if e == last {
            assert(q.take(n + 1) =~= plan.push(e));
            lemma_first_from(t, start_cpu, plan.push(e), less, q);
        } else if t.first_bad_from(start_cpu, plan.push(e), less) is Some {
            crate::laws::lemma_found_genuine(t, start_cpu, plan.push(e), less);
            let f = t.first_bad_from(start_cpu, plan.push(e), less).unwrap();
            assert(f.plan.take(n + 1) == plan.push(e));
            assert(f.plan[n] == f.plan.take(n + 1)[n]);
            assert(f.plan.take(n) =~= plan) by {
                assert forall|i: int| 0 <= i < n implies f.plan[i] == plan[i] by {
                    assert(f.plan[i] == f.plan.take(n + 1)[i]);
                }
            }
            assert(branches_off(f.plan, q, n));
        } else {
            lemma_first_child(t, start_cpu, plan, depth, at, cpu + 1, q);
        }
    }
}

proof fn lemma_first_start(
    t: Trial,
    from: int,
    max_aborts: nat,
    start_cpu: usize,
    q: Seq<AbortPoint>,
)
    requires
        t.ops.len() < usize::MAX,
        0 <= from <= start_cpu < t.ncpus,
        q.len() <= max_aborts,
        crate::laws::enumerable(t, q, 0),
        t.flaw(start_cpu, q) is Some,
    ensures
        t.first_bad_start(from, max_aborts) is Some,
        reported_first(t.first_bad_start(from, max_aborts).unwrap(), start_cpu, q),
    decreases t.ncpus - from,
{
    if from == start_cpu {
        assert(q.take(0) =~= seq![]);
        lemma_first_from(t, start_cpu, seq![], max_aborts, q);
    } else if t.first_bad_from(from as usize, seq![], max_aborts) is Some {
        crate::laws::lemma_found_genuine(t, from as usize, seq![], max_aborts);
    } else {
        lemma_first_start(t, from + 1, max_aborts, start_cpu, q);
    }
}

/// The finding is from an earlier CPU, or from the same one and of a plan that
/// is tried no later.
pub open spec fn reported_first(f: Finding, start_cpu: usize, q: Seq<AbortPoint>) -> bool {
    f.start_cpu < start_cpu || (f.start_cpu == start_cpu && tried_first(f.plan, q))
}

/// Of all flawed schedules the first is reported: in the order of the CPUs
/// that they start on, the shorter before its continuations, and earlier aborts
/// before later ones.
pub proof fn law_the_first_flaw_is_reported(
    t: Trial,
    max_aborts: nat,
    start_cpu: usize,
    q: Seq<AbortPoint>,
)
    requires
        t.ops.len() < usize::MAX,
        start_cpu < t.ncpus,
        q.len() <= max_aborts,
        crate::laws::enumerable(t, q, 0),
        t.flaw(start_cpu, q) is Some,
        t.first_bad_prefix(0) is None,
    ensures
        t.first_bad(max_aborts) is Some,
        reported_first(t.first_bad(max_aborts).unwrap(), start_cpu, q),
{
    lemma_first_start(t, 0, max_aborts, start_cpu, q);
}

/// A prefix of the program, short of the whole, fails on this CPU.
pub open spec fn prefix_fails(t: Trial, cpu: usize, k: int) -> bool {
    crate::sim::prefix_end(
        Setting { decls: t.decls, ncpus: t.ncpus, params: t.params, start_cpu: cpu },
        t.ops,
        k,
        t.init,
    ).0 is Err
}

proof fn lemma_shortest_prefix(t: Trial, cpu: usize, from: int, k: int)
    requires
        0 <= from <= k < t.ops.len(),
        prefix_fails(t, cpu, k),
    ensures
        t.first_bad_prefix_on(cpu, from) is Some,
    decreases k - from,
{
    if from < k && !prefix_fails(t, cpu, from) {
        lemma_shortest_prefix(t, cpu, from + 1, k);
    }
}

proof fn lemma_failing_prefix(t: Trial, cpu: usize, from: int) -> (k: int)
    requires
        0 <= from,
        t.first_bad_prefix_on(cpu, from) is Some,
    ensures
        from <= k < t.ops.len(),
        prefix_fails(t, cpu, k),
        forall|j: int| from <= j < k ==> !#[trigger] prefix_fails(t, cpu, j),
        t.first_bad_prefix_on(cpu, from) == Some(
            Finding {
                start_cpu: cpu,
                plan: seq![],
                flaw: Flaw::Sim(
                    crate::sim::prefix_end(t.setting(cpu), t.ops, k, t.init).0->Err_0,
                ),
            },
        ),
    decreases t.ops.len() - from,
{
    if prefix_fails(t, cpu, from) {
        from
    } else {
        lemma_failing_prefix(t, cpu, from + 1)
    }
}

proof fn lemma_first_prefix(t: Trial, from: int, cpu: usize, k: int)
    requires
        0 <= from <= cpu < t.ncpus,
        0 <= k < t.ops.len(),
        prefix_fails(t, cpu, k),
    ensures
        t.first_bad_prefix(from) is Some,
        t.first_bad_prefix(from).unwrap().start_cpu <= cpu,
    decreases cpu - from,
{
    if from == cpu {
        lemma_shortest_prefix(t, cpu, 0, k);
        let at = lemma_failing_prefix(t, cpu, 0);
    } else if t.first_bad_prefix_on(from as usize, 0) is Some {
        let at = lemma_failing_prefix(t, from as usize, 0);
    } else {
        lemma_first_prefix(t, from + 1, cpu, k);
    }
}

proof fn lemma_prefix_found(t: Trial, from: int) -> (at: (usize, int))
    requires
        0 <= from,
        t.first_bad_prefix(from) is Some,
    ensures
        from <= at.0 < t.ncpus,
        0 <= at.1 < t.ops.len(),
        prefix_fails(t, at.0, at.1),
        forall|j: int| 0 <= j < at.1 ==> !#[trigger] prefix_fails(t, at.0, j),
        t.first_bad_prefix(from) == Some(
            Finding {
                start_cpu: at.0,
                plan: seq![],
                flaw: Flaw::Sim(
                    crate::sim::prefix_end(t.setting(at.0), t.ops, at.1, t.init).0->Err_0,
                ),
            },
        ),
    decreases t.ncpus - from,
{
    if t.first_bad_prefix_on(from as usize, 0) is Some {
        let k = lemma_failing_prefix(t, from as usize, 0);
        (from as usize, k)
    } else {
        lemma_prefix_found(t, from + 1)
    }
}

/// Prefixes are tried before schedules: where one fails, the first CPU on which
/// one does is reported, without aborts, and the failure of the shortest
/// prefix that fails there.
pub proof fn law_failing_prefixes_come_first(t: Trial, max_aborts: nat, cpu: usize, k: int) -> (at: (
    usize,
    int,
))
    requires
        cpu < t.ncpus,
        0 <= k < t.ops.len(),
        prefix_fails(t, cpu, k),
    ensures
        at.0 <= cpu,
        at.1 < t.ops.len(),
        prefix_fails(t, at.0, at.1),
        forall|c: usize, j: int|
            c < at.0 && 0 <= j < t.ops.len() ==> !#[trigger] prefix_fails(t, c, j),
        forall|j: int| 0 <= j < at.1 ==> !#[trigger] prefix_fails(t, at.0, j),
        t.first_bad(max_aborts) == Some(
            Finding {
                start_cpu: at.0,
                plan: seq![],
                flaw: Flaw::Sim(
                    crate::sim::prefix_end(
                        Setting {
                            decls: t.decls,
                            ncpus: t.ncpus,
                            params: t.params,
                            start_cpu: at.0,
                        },
                        t.ops,
                        at.1,
                        t.init,
                    ).0->Err_0,
                ),
            },
        ),
{
    lemma_first_prefix(t, 0, cpu, k);
    let at = lemma_prefix_found(t, 0);
    assert forall|c: usize, j: int| c < at.0 && 0 <= j < t.ops.len() implies !#[trigger] prefix_fails(
        t,
        c,
        j,
    ) by {
        if prefix_fails(t, c, j) {
            lemma_first_prefix(t, 0, c, j);
        }
    }
    at
}

/// A report names a run that really went wrong, in the way that it says: with
/// the failure of the run or of the clean run that it is held against, with
/// the two different outcomes, each where it belongs, or with two memories that
/// other actors can tell apart.
pub proof fn law_reports_tell_the_truth(t: Trial, max_aborts: nat, f: CheckFailure)
    requires
        t.ops.len() < usize::MAX,
        t.first_bad(max_aborts) is Some,
        crate::check::reports(f, t.first_bad(max_aborts).unwrap()),
    ensures
        ({
            let (got, got_words) = crate::sim::whole_run(
                Setting { decls: t.decls, ncpus: t.ncpus, params: t.params, start_cpu: f.start_cpu },
                t.ops,
                t.ret,
                t.post_commit_in_window,
                f.plan@,
                t.init,
            );
            let (want, want_words) = crate::sim::whole_run(
                Setting {
                    decls: t.decls,
                    ncpus: t.ncpus,
                    params: t.params,
                    start_cpu: got->Ok_0.final_cpu,
                },
                t.ops,
                t.ret,
                false,
                seq![],
                t.init,
            );
            &&& f.start_cpu < t.ncpus
            &&& f.plan@.len() <= max_aborts
            &&& match f.kind {
                FailureKind::Sim(e) => got == Err::<RunResult, SimError>(e) || (got is Ok && want
                    == Err::<RunResult, SimError>(e)),
                FailureKind::OutcomeMismatch { got: g, want: w } => got is Ok && want is Ok && g
                    == got->Ok_0.outcome && w == want->Ok_0.outcome && g != w,
                FailureKind::ObservableMismatch { .. } => got is Ok && want is Ok
                    && got->Ok_0.outcome == want->Ok_0.outcome && !(t.alike)(got_words, want_words),
                FailureKind::Invalid(_) => false,
                FailureKind::PrefixImpure { .. } => false,
            }
        }),
{
    crate::laws::law_findings_tell_the_truth(t, max_aborts);
}

/// The question that is put is the one that was asked.
pub proof fn law_nothing_is_left_out_of_the_question(
    prog: Program,
    layout: Layout,
    params: Seq<u64>,
    cfg: CheckConfig,
    init: Words,
    alike: spec_fn(Words, Words) -> bool,
)
    ensures
        ({
            let t = crate::check::trial_of(prog, layout, params, cfg, init, alike);
            &&& t.decls == layout.regions@
            &&& t.ncpus == cfg.ncpus
            &&& t.params == params
            &&& t.ops == prog.ops@
            &&& t.ret == prog.ret
            &&& t.post_commit_in_window == cfg.sim.post_commit_in_window
            &&& t.init == init
            &&& t.alike == alike
        }),
{
}

/// A count is shown as it is if it fits a word, and otherwise starts again
/// from zero.
pub proof fn law_counts_are_shown(n: int)
    ensures
        0 <= n <= usize::MAX ==> crate::check::counted(n) == n,
        crate::check::counted(n + usize::MAX + 1) == crate::check::counted(n),
        0 <= crate::check::counted(n) <= usize::MAX,
{
    let m = usize::MAX + 1;
    if 0 <= n <= usize::MAX {
        vstd::arithmetic::div_mod::lemma_small_mod(n as nat, m as nat);
    }
    vstd::arithmetic::div_mod::lemma_mod_add_multiples_vanish(n, m);
    vstd::arithmetic::div_mod::lemma_mod_bound(n, m);
}

/// Whatever an observer returns for two memories decides whether they are told
/// apart: an observer under which the two results are equal just where `alike`
/// holds is one that the checker goes by.
pub proof fn law_the_observer_decides<V: PartialEq, O: Fn(&Memory) -> V>(
    f: O,
    layout: Layout,
    ncpus: usize,
    alike: spec_fn(Words, Words) -> bool,
)
    requires
        forall|m: &Memory, v: V, n: &Memory, w: V| #[trigger]
            f.ensures((m,), v) && m.decls() == layout@ && m.cpus() == ncpus && #[trigger] f.ensures(
                (n,),
                w,
            ) && n.decls() == layout@ && n.cpus() == ncpus ==> v.eq_spec(&w) == alike(m@, n@),
    ensures
        crate::check::observes(f, layout, ncpus, alike),
{
}

/// Every run starts from memory as it was declared: all the words of all the
/// regions, each with its initial value.
pub proof fn law_runs_start_from_fresh_memory(m: Memory, layout: Layout, ncpus: usize, r: int, i: int)
    requires
        crate::check::fresh_for(m, layout, ncpus),
        0 <= r < layout.regions@.len(),
    ensures
        m.decls() == layout.regions@,
        m.cpus() == ncpus,
        m@.len() == layout.regions@.len(),
        0 <= i < m@[r].len() ==> m@[r][i] == layout.regions@[r].init,
        layout.regions@[r].per_cpu ==> m@[r].len() == layout.regions@[r].words * ncpus,
        !layout.regions@[r].per_cpu ==> m@[r].len() == layout.regions@[r].words,
{
    crate::meaning::law_regions_are_as_declared(layout@, ncpus as int, r);
}

} // verus!
