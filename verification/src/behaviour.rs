//! What the example programs do: one undisturbed attempt of each, and what
//! follows for whole runs.

use vstd::prelude::*;

use crate::ir::{Addr, BinOp, Op, Operand, RegionDecl, RegionId};
use crate::progs::{Freelist, LockableFreelist, PushArray, NIL};
use crate::sim::{
    AbortPoint, AttemptEnd, Outcome, RunResult, Setting, SimError, State, Words,
};

verus! {

/// Memory with one word replaced.
pub open spec fn with_word(words: Words, region: int, index: int, v: u64) -> Words {
    words.update(region, words[region].update(index, v))
}

/// The layout of the counters, with `stride` words per CPU.
pub open spec fn counter_layout(decls: Seq<RegionDecl>, stride: usize) -> bool {
    decls.len() == 1 && decls[0].is("counters"@, true, true, stride, 0)
}

/// The operations of the plain counter.
pub open spec fn counter_ops() -> Seq<Op> {
    crate::progs::increment_ops(RegionId(0), seq![Op::CpuId { dst: 0 }], 0)
}

/// The operations of the counter with the hoisting bug.
pub open spec fn hoisted_ops() -> Seq<Op> {
    crate::progs::increment_ops(RegionId(0), seq![Op::CpuIdHoisted { dst: 0 }], 0)
}

/// The operations of the strided counter.
pub open spec fn strided_ops(stride: usize) -> Seq<Op> {
    crate::progs::increment_ops(
        RegionId(0),
        seq![
            Op::CpuId { dst: 0 },
            Op::Bin {
                dst: 1,
                op: BinOp::Mul,
                lhs: Operand::Reg(0),
                rhs: Operand::Imm(stride as u64),
            },
        ],
        1,
    )
}

/// The memory after an increment of the word at `index`.
pub open spec fn bumped(words: Words, index: int) -> Words {
    with_word(words, 0, index, words[0][index].wrapping_add(1))
}

/// The counter increments the word of the CPU it runs on.
pub proof fn law_counter_bumps_its_cpu(env: Setting, cpu: usize, words: Words)
    requires
        counter_layout(env.decls, 1),
        crate::sim::words_match(env.decls, env.ncpus as int, words),
        cpu < env.ncpus,
    ensures
        ({
            let end = crate::sim::attempt_end(env, cpu, counter_ops(), None, 0, State::entry(words));
            end is Finished && end->Finished_0.words == bumped(words, cpu as int)
        }),
{
    let ops = counter_ops();
    assert(ops[0] == Op::CpuId { dst: 0 });
    assert(words[0].len() == env.ncpus);
    let s1 = step_on(env, cpu, ops, 0, State::entry(words));
    lemma_increment(env, cpu, ops, 1, 0, s1, cpu as int);
}

/// One step further into an attempt.
proof fn step_on(env: Setting, cpu: usize, ops: Seq<Op>, i: int, s: State) -> (t: State)
    requires
        0 <= i < ops.len(),
        crate::sim::step_effect(env, cpu, ops[i], s) is Continue,
    ensures
        crate::sim::step_effect(env, cpu, ops[i], s)->Continue_0 == t,
        crate::sim::attempt_end(env, cpu, ops, None, i, s) == crate::sim::attempt_end(
            env,
            cpu,
            ops,
            None,
            i + 1,
            t,
        ),
{
    crate::sim::step_effect(env, cpu, ops[i], s)->Continue_0
}

/// The increment itself, once the index is in register `slot`.
proof fn lemma_increment(
    env: Setting,
    cpu: usize,
    ops: Seq<Op>,
    i: int,
    slot: usize,
    s: State,
    index: int,
)
    requires
        ops.len() == i + 3,
        0 <= i,
        slot < 100,
        ops[i] == (Op::Load {
            dst: (slot + 1) as usize,
            addr: Addr { region: RegionId(0), index: Operand::Reg(slot) },
        }),
        ops[i + 1] == (Op::Bin {
            dst: (slot + 2) as usize,
            op: BinOp::Add,
            lhs: Operand::Reg((slot + 1) as usize),
            rhs: Operand::Imm(1),
        }),
        ops[i + 2] == (Op::Commit {
            addr: Addr { region: RegionId(0), index: Operand::Reg(slot) },
            src: Operand::Reg((slot + 2) as usize),
        }),
        s.regs.dom().contains(slot),
        s.regs[slot] == index,
        s.words.len() == 1,
        0 <= index < s.words[0].len(),
        s.words[0].len() <= usize::MAX,
        env.decls.len() == 1,
        env.decls[0].words > 0,
    ensures
        ({
            let end = crate::sim::attempt_end(env, cpu, ops, None, i, s);
            let owner = index as usize / env.decls[0].words;
            if env.decls[0].per_cpu && owner != cpu {
                end == AttemptEnd::Failed(
                    SimError::ForeignCommit {
                        region: RegionId(0),
                        index: index as usize,
                        running_on: cpu,
                        owner,
                    },
                    s.words,
                )
            } else {
                end is Finished && end->Finished_0.words == bumped(s.words, index)
            }
        }),
{
    let s1 = step_on(env, cpu, ops, i, s);
    let s2 = step_on(env, cpu, ops, i + 1, s1);
    assert(s2.words == s.words);
    let owner = index as usize / env.decls[0].words;
    if !(env.decls[0].per_cpu && owner != cpu) {
        let s3 = step_on(env, cpu, ops, i + 2, s2);
        assert(s3.words == bumped(s.words, index));
    }
}

/// The strided counter increments the first word of the slice of the CPU it
/// runs on.
pub proof fn law_strided_counter_bumps_its_cpu(
    env: Setting,
    cpu: usize,
    stride: usize,
    words: Words,
)
    requires
        counter_layout(env.decls, stride),
        stride > 0,
        stride * env.ncpus <= usize::MAX,
        crate::sim::words_match(env.decls, env.ncpus as int, words),
        cpu < env.ncpus,
    ensures
        ({
            let end = crate::sim::attempt_end(
                env,
                cpu,
                strided_ops(stride),
                None,
                0,
                State::entry(words),
            );
            end is Finished && end->Finished_0.words == bumped(words, cpu * stride)
        }),
{
    let ops = strided_ops(stride);
    assert(ops[0] == Op::CpuId { dst: 0 });
    assert(ops[1] == Op::Bin {
        dst: 1,
        op: BinOp::Mul,
        lhs: Operand::Reg(0),
        rhs: Operand::Imm(stride as u64),
    });
    assert(words[0].len() == stride * env.ncpus);
    let index = cpu * stride;
    assert(0 <= index < stride * env.ncpus) by (nonlinear_arith)
        requires
            cpu < env.ncpus,
            stride > 0,
            index == cpu * stride,
    ;
    let s1 = step_on(env, cpu, ops, 0, State::entry(words));
    let s2 = step_on(env, cpu, ops, 1, s1);
    assert(s2.regs[1] == index) by {
        assert((cpu as u64).wrapping_mul(stride as u64) == index);
    }
    assert(index / stride as int == cpu) by {
        vstd::arithmetic::div_mod::lemma_div_multiples_vanish(cpu as int, stride as int);
    }
    lemma_increment(env, cpu, ops, 2, 1, s2, index);
}

/// With the CPU id hoisted out of the sequence the commit goes to the CPU the
/// run started on, and fails wherever else the attempt runs.
pub proof fn law_hoisted_counter_commits_to_its_start(env: Setting, cpu: usize, words: Words)
    requires
        counter_layout(env.decls, 1),
        crate::sim::words_match(env.decls, env.ncpus as int, words),
        env.start_cpu < env.ncpus,
    ensures
        ({
            let end = crate::sim::attempt_end(
                env,
                cpu,
                hoisted_ops(),
                None,
                0,
                State::entry(words),
            );
            if cpu == env.start_cpu {
                end is Finished && end->Finished_0.words == bumped(words, cpu as int)
            } else {
                end == AttemptEnd::Failed(
                    SimError::ForeignCommit {
                        region: RegionId(0),
                        index: env.start_cpu,
                        running_on: cpu,
                        owner: env.start_cpu,
                    },
                    words,
                )
            }
        }),
{
    let ops = hoisted_ops();
    assert(ops[0] == Op::CpuIdHoisted { dst: 0 });
    assert(words[0].len() == env.ncpus);
    let s1 = step_on(env, cpu, ops, 0, State::entry(words));
    lemma_increment(env, cpu, ops, 1, 0, s1, env.start_cpu as int);
}

/// An attempt that is to stop at `stop` either stops there or ends as it would
/// have anyway, the stop not having been reached.
proof fn lemma_stopped_or_whole(
    env: Setting,
    cpu: usize,
    ops: Seq<Op>,
    stop: usize,
    i: int,
    s: State,
)
    requires
        0 <= i <= stop,
    ensures
        ({
            let cut = crate::sim::attempt_end(env, cpu, ops, Some(stop), i, s);
            let whole = crate::sim::attempt_end(env, cpu, ops, None, i, s);
            &&& !(cut is Aborted) ==> cut == whole
            &&& whole is Finished && stop < ops.len() ==> cut is Aborted
        }),
    decreases ops.len() - i,
{
    if i < ops.len() && i != stop {
        match crate::sim::step_effect(env, cpu, ops[i], s) {
            crate::sim::Effect::Continue(t) => {
                lemma_stopped_or_whole(env, cpu, ops, stop, i + 1, t);
            },
            _ => {},
        }
    }
}

/// The hoisting bug shows after one migration: a run that is aborted once,
/// wherever in the sequence, and continues on another CPU, is refused as a
/// commit to a foreign slice.
pub proof fn law_hoisting_is_caught_by_one_migration(
    env: Setting,
    at: usize,
    new_cpu: usize,
    words: Words,
)
    requires
        counter_layout(env.decls, 1),
        crate::sim::words_match(env.decls, env.ncpus as int, words),
        env.start_cpu < env.ncpus,
        new_cpu < env.ncpus,
        new_cpu != env.start_cpu,
        at < hoisted_ops().len(),
    ensures
        crate::sim::whole_run(
            env,
            hoisted_ops(),
            None,
            false,
            seq![AbortPoint { at, new_cpu }],
            words,
        ).0 == Err::<RunResult, SimError>(
            SimError::ForeignCommit {
                region: RegionId(0),
                index: env.start_cpu,
                running_on: new_cpu,
                owner: env.start_cpu,
            },
        ),
{
    let ops = hoisted_ops();
    let plan = seq![AbortPoint { at, new_cpu }];
    law_hoisted_counter_commits_to_its_start(env, env.start_cpu, words);
    lemma_stopped_or_whole(env, env.start_cpu, ops, at, 0, State::entry(words));
    let cut = crate::sim::attempt_end(
        env,
        env.start_cpu,
        ops,
        Some(at),
        0,
        State::entry(words),
    );
    law_plain_counters_are_valid(env.decls);
    crate::sim::lemma_attempt_is_pure(
        env,
        env.start_cpu,
        ops,
        Some(at),
        0,
        State::entry(words),
    );
    let w = cut->Aborted_0;
    assert(w =~= words) by {
        assert(env.decls[0].published);
        assert(w[0] == words[0]);
    }
    assert(crate::sim::next_stop(plan) == Some(at));
    assert(plan.drop_first() =~= Seq::<AbortPoint>::empty());
    assert(crate::sim::next_stop(plan.drop_first()) is None);
    law_hoisted_counter_commits_to_its_start(env, new_cpu, words);
    reveal_with_fuel(crate::sim::run_end, 3);
}

/// A restart window that reaches past the commit counts twice: aborted right
/// after the commit, the run increments once more on the CPU where it
/// continues, where a clean run increments once.
pub proof fn law_post_commit_restart_counts_twice(env: Setting, new_cpu: usize, words: Words)
    requires
        counter_layout(env.decls, 1),
        crate::sim::words_match(env.decls, env.ncpus as int, words),
        env.start_cpu < env.ncpus,
        new_cpu < env.ncpus,
    ensures
        crate::sim::whole_run(
            env,
            counter_ops(),
            None,
            true,
            seq![AbortPoint { at: 4, new_cpu }],
            words,
        ) == (
            Ok::<RunResult, SimError>(
                RunResult { outcome: Outcome::Committed { ret: None }, final_cpu: new_cpu },
            ),
            bumped(bumped(words, env.start_cpu as int), new_cpu as int),
        ),
{
    let ops = counter_ops();
    assert(ops.len() == 4);
    let plan = seq![AbortPoint { at: 4, new_cpu }];
    law_counter_bumps_its_cpu(env, env.start_cpu, words);
    lemma_stopped_or_whole(env, env.start_cpu, ops, 4, 0, State::entry(words));
    lemma_no_stop_past_end(env, env.start_cpu, ops, 4, 0, State::entry(words));
    let once = bumped(words, env.start_cpu as int);
    assert(words[0].len() == env.ncpus);
    assert(crate::sim::words_match(env.decls, env.ncpus as int, once));
    law_counter_bumps_its_cpu(env, new_cpu, once);
    assert(crate::sim::next_stop(plan) == Some(4usize));
    assert(plan.drop_first() =~= Seq::<AbortPoint>::empty());
    assert(crate::sim::next_stop(plan.drop_first()) is None);
    reveal_with_fuel(crate::sim::run_end, 3);
}

/// No attempt is cut short past its last operation.
proof fn lemma_no_stop_past_end(
    env: Setting,
    cpu: usize,
    ops: Seq<Op>,
    stop: usize,
    i: int,
    s: State,
)
    requires
        0 <= i <= ops.len() <= stop,
    ensures
        !(crate::sim::attempt_end(env, cpu, ops, Some(stop), i, s) is Aborted),
    decreases ops.len() - i,
{
    if i < ops.len() {
        match crate::sim::step_effect(env, cpu, ops[i], s) {
            crate::sim::Effect::Continue(t) => {
                lemma_no_stop_past_end(env, cpu, ops, stop, i + 1, t);
            },
            _ => {},
        }
    }
}

/// Both plain counters are valid programs: the hoisting bug is not one of shape,
/// and it takes the checker to find it.
pub proof fn law_plain_counters_are_valid(decls: Seq<RegionDecl>)
    requires
        decls.len() == 1,
        decls[0].published,
    ensures
        crate::ir::well_shaped(decls, counter_ops(), None),
        crate::ir::well_shaped(decls, hoisted_ops(), None),
        crate::laws::forgets_attempts(counter_ops()),
{
    let good = counter_ops();
    let bad = hoisted_ops();
    assert(good[0] == Op::CpuId { dst: 0 });
    assert(bad[0] == Op::CpuIdHoisted { dst: 0 });
    lemma_defines(good, 0, 0);
    lemma_defines(good, 1, 1);
    lemma_defines(good, 2, 2);
    lemma_defines(bad, 0, 0);
    lemma_defines(bad, 1, 1);
    lemma_defines(bad, 2, 2);
}

/// A register defined at `i` is defined before everything that follows.
proof fn lemma_defines(ops: Seq<Op>, i: int, r: usize)
    requires
        0 <= i < ops.len(),
        ops[i].dst() == Some(r),
    ensures
        forall|n: int| i < n ==> #[trigger] crate::ir::defined_before(ops, n, r),
{
}

/// Two memories that agree but for scratch are equal if the program uses none.
pub(crate) proof fn lemma_no_scratch(ops: Seq<Op>, a: Words, b: Words)
    requires
        crate::laws::agree_but_scratch(ops, a, b),
        forall|i: int| 0 <= i < ops.len() ==> !((#[trigger] ops[i]) is StoreScratch),
    ensures
        a == b,
{
    assert forall|r: int| 0 <= r < a.len() implies a[r] == b[r] by {
        assert(!crate::laws::scribbles_on(ops, r));
    }
    assert(a =~= b);
}

/// A clean run is one attempt.
pub(crate) proof fn lemma_clean_run(env: Setting, ops: Seq<Op>, ret: Option<Operand>, words: Words)
    requires
        env.start_cpu < env.ncpus,
    ensures
        crate::sim::whole_run(env, ops, ret, false, seq![], words) == match crate::sim::attempt_end(
            env,
            env.start_cpu,
            ops,
            None,
            0,
            State::entry(words),
        ) {
            AttemptEnd::Finished(s) => (
                crate::sim::committed_result(s.regs, ret, env.start_cpu),
                s.words,
            ),
            AttemptEnd::Exited(w) => (
                Ok(RunResult { outcome: Outcome::Exited, final_cpu: env.start_cpu }),
                w,
            ),
            AttemptEnd::Failed(e, w) => (Err(e), w),
            AttemptEnd::Aborted(w) => arbitrary(),
        },
{
    let plan = Seq::<AbortPoint>::empty();
    assert(crate::sim::next_stop(plan) is None);
    lemma_never_aborted(env, env.start_cpu, ops, 0, State::entry(words));
}

proof fn lemma_never_aborted(env: Setting, cpu: usize, ops: Seq<Op>, i: int, s: State)
    ensures
        !(crate::sim::attempt_end(env, cpu, ops, None, i, s) is Aborted),
    decreases ops.len() - i,
{
    if i < ops.len() {
        match crate::sim::step_effect(env, cpu, ops[i], s) {
            crate::sim::Effect::Continue(t) => {
                lemma_never_aborted(env, cpu, ops, i + 1, t);
            },
            _ => {},
        }
    }
}

/// The counter run on CPU `c`, and nothing else, counted once.
pub open spec fn counted_once(
    run: (Result<RunResult, SimError>, Words),
    words: Words,
    ncpus: usize,
    c: usize,
) -> bool {
    &&& c < ncpus
    &&& run.0 == Ok::<RunResult, SimError>(
        RunResult { outcome: Outcome::Committed { ret: None }, final_cpu: c },
    )
    &&& run.1 == bumped(words, c as int)
}

/// The counter counts exactly once under every abort schedule, on the CPU
/// where the run ends.
pub proof fn law_counter_counts_once(env: Setting, plan: Seq<AbortPoint>, words: Words)
    requires
        counter_layout(env.decls, 1),
        crate::sim::words_match(env.decls, env.ncpus as int, words),
        crate::laws::fires_in_range(
            crate::sim::whole_run(env, counter_ops(), None, false, plan, words),
        ),
    ensures
        exists|c: usize| #[trigger]
            counted_once(
                crate::sim::whole_run(env, counter_ops(), None, false, plan, words),
                words,
                env.ncpus,
                c,
            ),
{
    let ops = counter_ops();
    law_plain_counters_are_valid(env.decls);
    crate::laws::law_restarts_converge(env, ops, None, plan, words);
    let run = crate::sim::whole_run(env, ops, None, false, plan, words);
    let c = choose|c: usize| #[trigger]
        crate::laws::ends_as_clean(env, ops, None, words, run, c);
    let clean = Setting { start_cpu: c, ..env };
    law_counter_bumps_its_cpu(clean, c, words);
    lemma_clean_run(clean, ops, None, words);
    assert forall|i: int| 0 <= i < ops.len() implies !((#[trigger] ops[i]) is StoreScratch) by {}
    lemma_no_scratch(
        ops,
        run.1,
        crate::sim::whole_run(clean, ops, None, false, seq![], words).1,
    );
    assert(counted_once(run, words, env.ncpus, c));
}

/// The layout of the freelist.
pub open spec fn freelist_layout(decls: Seq<RegionDecl>, nnodes: usize) -> bool {
    &&& decls.len() == 2
    &&& decls[0].is("heads"@, true, true, 1, NIL)
    &&& decls[1].is("nodes"@, false, false, nnodes, NIL)
}

/// With one word per CPU, a word belongs to the CPU of the same number.
pub(crate) proof fn lemma_owner(cpu: usize, words: usize)
    requires
        words == 1,
    ensures
        cpu / words == cpu,
{
    assert(cpu as int / 1 == cpu);
}

/// Push links the node in front of the current CPU's list.
pub proof fn law_freelist_push_links(env: Setting, cpu: usize, nnodes: usize, words: Words)
    requires
        freelist_layout(env.decls, nnodes),
        crate::sim::words_match(env.decls, env.ncpus as int, words),
        cpu < env.ncpus,
        env.params.len() > 0,
        (env.params[0] as usize) < nnodes,
    ensures
        ({
            let end = crate::sim::attempt_end(
                env,
                cpu,
                Freelist::push_ops(RegionId(0), RegionId(1)),
                None,
                0,
                State::entry(words),
            );
            let node = env.params[0];
            &&& end is Finished
            &&& end->Finished_0.words == with_word(
                with_word(words, 1, node as usize as int, words[0][cpu as int]),
                0,
                cpu as int,
                node,
            )
        }),
{
    let ops = Freelist::push_ops(RegionId(0), RegionId(1));
    assert(words[0].len() == env.ncpus);
    assert(words[1].len() == nnodes);
    let s1 = step_on(env, cpu, ops, 0, State::entry(words));
    let s2 = step_on(env, cpu, ops, 1, s1);
    let s3 = step_on(env, cpu, ops, 2, s2);
    let s4 = step_on(env, cpu, ops, 3, s3);
    lemma_owner(cpu, env.decls[0].words);
    let s5 = step_on(env, cpu, ops, 4, s4);
}

/// Pop leaves an empty list alone and otherwise unlinks and returns the head
/// of the current CPU's list.
pub proof fn law_freelist_pop_unlinks(env: Setting, cpu: usize, nnodes: usize, words: Words)
    requires
        freelist_layout(env.decls, nnodes),
        crate::sim::words_match(env.decls, env.ncpus as int, words),
        cpu < env.ncpus,
        words[0][cpu as int] != NIL ==> (words[0][cpu as int] as usize) < nnodes,
    ensures
        ({
            let end = crate::sim::attempt_end(
                env,
                cpu,
                Freelist::pop_ops(RegionId(0), RegionId(1)),
                None,
                0,
                State::entry(words),
            );
            let head = words[0][cpu as int];
            if head == NIL {
                end == AttemptEnd::Exited(words)
            } else {
                &&& end is Finished
                &&& end->Finished_0.words == with_word(
                    words,
                    0,
                    cpu as int,
                    words[1][head as usize as int],
                )
                &&& end->Finished_0.regs.dom().contains(1)
                &&& end->Finished_0.regs[1] == head
            }
        }),
{
    let ops = Freelist::pop_ops(RegionId(0), RegionId(1));
    assert(words[0].len() == env.ncpus);
    assert(words[1].len() == nnodes);
    let s1 = step_on(env, cpu, ops, 0, State::entry(words));
    let s2 = step_on(env, cpu, ops, 1, s1);
    if words[0][cpu as int] != NIL {
        let s3 = step_on(env, cpu, ops, 2, s2);
        let s4 = step_on(env, cpu, ops, 3, s3);
        lemma_owner(cpu, env.decls[0].words);
        let s5 = step_on(env, cpu, ops, 4, s4);
    } else {
        assert(crate::sim::attempt_end(env, cpu, ops, None, 2, s2) == AttemptEnd::Exited(words));
    }
}

/// The list of `cpu` in memory.
pub open spec fn list_of(words: Words, heads: int, nodes: int, cpu: int) -> Option<Seq<u64>> {
    crate::rt::list_at(words[nodes], words[heads][cpu])
}

/// `node` is not on the list of `cpu`.
pub open spec fn not_on_list(
    words: Words,
    heads: int,
    nodes: int,
    cpu: int,
    node: u64,
) -> bool {
    list_of(words, heads, nodes, cpu) matches Some(l) ==> forall|k: int|
        0 <= k < l.len() ==> #[trigger] l[k] as usize != node as usize
}

/// A push followed by a pop on the same CPU gives the node back, and leaves
/// every CPU's list as it was, provided the node was on none of them.
pub proof fn law_pop_undoes_push(env: Setting, cpu: usize, nnodes: usize, words: Words)
    requires
        freelist_layout(env.decls, nnodes),
        crate::sim::words_match(env.decls, env.ncpus as int, words),
        cpu < env.ncpus,
        env.params.len() > 0,
        (env.params[0] as usize) < nnodes,
        env.params[0] != NIL,
        forall|c: int|
            0 <= c < env.ncpus ==> #[trigger] list_of(words, 0, 1, c) is Some && not_on_list(
                words,
                0,
                1,
                c,
                env.params[0],
            ),
    ensures
        ({
            let node = env.params[0];
            let pushed = crate::sim::attempt_end(
                env,
                cpu,
                Freelist::push_ops(RegionId(0), RegionId(1)),
                None,
                0,
                State::entry(words),
            );
            let mid = pushed->Finished_0.words;
            let popped = crate::sim::attempt_end(
                env,
                cpu,
                Freelist::pop_ops(RegionId(0), RegionId(1)),
                None,
                0,
                State::entry(mid),
            );
            let new = popped->Finished_0.words;
            &&& pushed is Finished
            &&& list_of(mid, 0, 1, cpu as int) == Some(
                seq![node] + list_of(words, 0, 1, cpu as int).unwrap(),
            )
            &&& popped is Finished
            &&& popped->Finished_0.regs[1] == node
            &&& forall|c: int|
                0 <= c < env.ncpus ==> #[trigger] list_of(new, 0, 1, c) == list_of(words, 0, 1, c)
        }),
{
    let node = env.params[0];
    let at = node as usize as int;
    let head = words[0][cpu as int];
    assert(words[0].len() == env.ncpus);
    assert(words[1].len() == nnodes);
    law_freelist_push_links(env, cpu, nnodes, words);
    let mid = with_word(with_word(words, 1, at, head), 0, cpu as int, node);
    assert(list_of(words, 0, 1, cpu as int) is Some);
    crate::rt::law_linking_prepends(words[1], head, node);
    assert(mid[1] == words[1].update(at, head));
    assert(mid[0][cpu as int] == node);
    law_freelist_pop_unlinks(env, cpu, nnodes, mid);
    let new = with_word(mid, 0, cpu as int, head);
    assert forall|c: int| 0 <= c < env.ncpus implies #[trigger] list_of(new, 0, 1, c) == list_of(
        words,
        0,
        1,
        c,
    ) by {
        assert(list_of(words, 0, 1, c) is Some);
        assert(not_on_list(words, 0, 1, c, node));
        crate::rt::lemma_list_frame(
            words[1],
            words[0][c],
            words[1].len() + 1,
            at,
            head,
        );
        assert(new[1] == words[1].update(at, head));
        assert(new[0][c] == words[0][c]);
    }
}

/// The layout of the lockable freelist.
pub open spec fn lockable_layout(decls: Seq<RegionDecl>, nnodes: usize) -> bool {
    &&& decls.len() == 3
    &&& decls[0].is("locks"@, true, true, 1, 0)
    &&& decls[1].is("heads"@, true, true, 1, NIL)
    &&& decls[2].is("nodes"@, false, false, nnodes, NIL)
}

/// The operations of the lockable push.
pub open spec fn lockable_push_ops() -> Seq<Op> {
    LockableFreelist::push_ops(RegionId(0), RegionId(1), RegionId(2))
}

/// The operations of the lockable pop.
pub open spec fn lockable_pop_ops() -> Seq<Op> {
    LockableFreelist::pop_ops(RegionId(0), RegionId(1), RegionId(2))
}

/// Push exits if and only if the CPU is locked, and then leaves memory alone;
/// otherwise it links the node in front of the CPU's list.
pub proof fn law_lockable_push(env: Setting, cpu: usize, nnodes: usize, words: Words)
    requires
        lockable_layout(env.decls, nnodes),
        crate::sim::words_match(env.decls, env.ncpus as int, words),
        cpu < env.ncpus,
        env.params.len() > 0,
        (env.params[0] as usize) < nnodes,
    ensures
        ({
            let end = crate::sim::attempt_end(
                env,
                cpu,
                lockable_push_ops(),
                None,
                0,
                State::entry(words),
            );
            let node = env.params[0];
            if words[0][cpu as int] != 0 {
                end == AttemptEnd::Exited(words)
            } else {
                end is Finished && end->Finished_0.words == with_word(
                    with_word(words, 2, node as usize as int, words[1][cpu as int]),
                    1,
                    cpu as int,
                    node,
                )
            }
        }),
{
    let ops = lockable_push_ops();
    assert(words[0].len() == env.ncpus);
    assert(words[1].len() == env.ncpus);
    assert(words[2].len() == nnodes);
    let s1 = step_on(env, cpu, ops, 0, State::entry(words));
    let s2 = step_on(env, cpu, ops, 1, s1);
    assert(ops[2] is ExitIf);
    if words[0][cpu as int] == 0 {
        let s3 = step_on(env, cpu, ops, 2, s2);
        let s4 = step_on(env, cpu, ops, 3, s3);
        let s5 = step_on(env, cpu, ops, 4, s4);
        let s6 = step_on(env, cpu, ops, 5, s5);
        lemma_owner(cpu, env.decls[1].words);
        let s7 = step_on(env, cpu, ops, 6, s6);
        assert(ops.len() == 7);
    } else {
        assert(crate::sim::attempt_end(env, cpu, ops, None, 2, s2) == AttemptEnd::Exited(words));
    }
}

/// Pop exits if and only if the CPU is locked or its list is empty, and then
/// leaves memory alone; otherwise it unlinks and returns the head.
pub proof fn law_lockable_pop(env: Setting, cpu: usize, nnodes: usize, words: Words)
    requires
        lockable_layout(env.decls, nnodes),
        crate::sim::words_match(env.decls, env.ncpus as int, words),
        cpu < env.ncpus,
        words[1][cpu as int] != NIL ==> (words[1][cpu as int] as usize) < nnodes,
    ensures
        ({
            let end = crate::sim::attempt_end(
                env,
                cpu,
                lockable_pop_ops(),
                None,
                0,
                State::entry(words),
            );
            let head = words[1][cpu as int];
            if words[0][cpu as int] != 0 || head == NIL {
                end == AttemptEnd::Exited(words)
            } else {
                &&& end is Finished
                &&& end->Finished_0.words == with_word(
                    words,
                    1,
                    cpu as int,
                    words[2][head as usize as int],
                )
                &&& end->Finished_0.regs.dom().contains(2)
                &&& end->Finished_0.regs[2] == head
            }
        }),
{
    let ops = lockable_pop_ops();
    assert(words[0].len() == env.ncpus);
    assert(words[1].len() == env.ncpus);
    assert(words[2].len() == nnodes);
    let s1 = step_on(env, cpu, ops, 0, State::entry(words));
    let s2 = step_on(env, cpu, ops, 1, s1);
    assert(ops[2] is ExitIf);
    if words[0][cpu as int] == 0 {
        let s3 = step_on(env, cpu, ops, 2, s2);
        let s4 = step_on(env, cpu, ops, 3, s3);
        assert(ops[4] is ExitIf);
        if words[1][cpu as int] != NIL {
            let s5 = step_on(env, cpu, ops, 4, s4);
            let s6 = step_on(env, cpu, ops, 5, s5);
            lemma_owner(cpu, env.decls[1].words);
            let s7 = step_on(env, cpu, ops, 6, s6);
            assert(ops.len() == 7);
        } else {
            assert(crate::sim::attempt_end(env, cpu, ops, None, 4, s4) == AttemptEnd::Exited(
                words,
            ));
        }
    } else {
        assert(crate::sim::attempt_end(env, cpu, ops, None, 2, s2) == AttemptEnd::Exited(words));
    }
}

/// The layout of the array.
pub open spec fn array_layout(decls: Seq<RegionDecl>, cap: usize) -> bool {
    &&& decls.len() == 2
    &&& decls[0].is("committed"@, true, true, 1, 0)
    &&& decls[1].is("slots"@, false, true, cap, 0)
}

/// Push leaves a full array alone; otherwise it writes the value behind the
/// committed ones and then commits it.
pub proof fn law_array_push(env: Setting, cpu: usize, cap: usize, value: u64, words: Words)
    requires
        array_layout(env.decls, cap),
        cap * env.ncpus <= usize::MAX,
        crate::sim::words_match(env.decls, env.ncpus as int, words),
        cpu < env.ncpus,
    ensures
        ({
            let end = crate::sim::attempt_end(
                env,
                cpu,
                PushArray::push_ops(RegionId(0), RegionId(1), cap as u64, value),
                None,
                0,
                State::entry(words),
            );
            let count = words[0][cpu as int];
            if count >= cap {
                end == AttemptEnd::Exited(words)
            } else {
                end is Finished && end->Finished_0.words == with_word(
                    with_word(words, 1, cpu * cap + count, value),
                    0,
                    cpu as int,
                    (count + 1) as u64,
                )
            }
        }),
{
    let ops = PushArray::push_ops(RegionId(0), RegionId(1), cap as u64, value);
    let count = words[0][cpu as int];
    assert(words[0].len() == env.ncpus);
    assert(words[1].len() == cap * env.ncpus);
    let s1 = step_on(env, cpu, ops, 0, State::entry(words));
    let s2 = step_on(env, cpu, ops, 1, s1);
    assert(ops[2] is ExitIf);
    if count < cap {
        let base = cpu * cap;
        assert(0 <= base && base + cap <= cap * env.ncpus) by (nonlinear_arith)
            requires
                base == cpu * cap,
                cpu < env.ncpus,
                cap > 0,
        ;
        let s3 = step_on(env, cpu, ops, 2, s2);
        let s4 = step_on(env, cpu, ops, 3, s3);
        assert((cpu as u64).wrapping_mul(cap as u64) == base);
        let s5 = step_on(env, cpu, ops, 4, s4);
        assert(s5.regs[3] == base + count);
        let s6 = step_on(env, cpu, ops, 5, s5);
        let s7 = step_on(env, cpu, ops, 6, s6);
        lemma_owner(cpu, env.decls[0].words);
        let s8 = step_on(env, cpu, ops, 7, s7);
        assert(ops.len() == 8);
    } else {
        assert(crate::sim::attempt_end(env, cpu, ops, None, 2, s2) == AttemptEnd::Exited(words));
    }
}

/// A program that restarts leave unharmed and that compiles to code that
/// follows it: valid, forgetful of earlier attempts, within the register pool,
/// and within reach of the encoding.
pub open spec fn sound_program(
    decls: Seq<RegionDecl>,
    ops: Seq<Op>,
    ret: Option<Operand>,
) -> bool {
    &&& crate::ir::well_shaped(decls, ops, ret)
    &&& crate::laws::forgets_attempts(ops)
    &&& crate::codegen::assembly(ops, ret) is Ok
    &&& forall|i: int|
        0 <= i < ops.len() ==> crate::machine::in_reach(#[trigger] ops[i])
            && crate::machine::reads_others(ops[i])
}

/// Registers are numbered in the order of their definitions.
spec fn numbers_upwards(ops: Seq<Op>) -> bool {
    forall|i: int, j: int|
        #![trigger ops[i].dst(), ops[j].dst()]
        0 <= i < j < ops.len() && ops[i].dst() is Some && ops[j].dst() is Some
            ==> ops[i].dst().unwrap() < ops[j].dst().unwrap()
}

/// A program that numbers its registers upwards and has at most four of them
/// fits the pool.
proof fn lemma_four_registers_fit(ops: Seq<Op>, ret: Option<Operand>)
    requires
        numbers_upwards(ops),
        forall|i: int|
            0 <= i < ops.len() ==> crate::pressure::encodes(#[trigger] ops[i]) && (
            ops[i].dst() matches Some(r) ==> r < 4),
    ensures
        crate::codegen::assembly(ops, ret) is Ok,
{
    assert(crate::pressure::defined_once(ops));
    assert forall|n: int| 0 <= n < ops.len() implies crate::pressure::encodes(#[trigger] ops[n])
        && (ops[n].dst() is Some ==> crate::pressure::live_regs(ops, ret, n).len() < 4) by {
        if ops[n].dst() is Some {
            let k = ops[n].dst().unwrap();
            assert forall|r: usize| crate::pressure::live_regs(ops, ret, n).contains(r) implies r
                < k by {
                let i = choose|i: int| 0 <= i < n && #[trigger] ops[i].dst() == Some(r);
                assert(ops[i].dst().unwrap() < ops[n].dst().unwrap());
            }
            crate::pressure::lemma_few_live(ops, ret, n, k as nat);
        }
    }
    crate::pressure::law_compiles_if_it_fits(ops, ret);
}

/// The counters are sound, with any stride.
pub proof fn law_counters_are_sound(decls: Seq<RegionDecl>, stride: usize)
    requires
        counter_layout(decls, stride),
    ensures
        sound_program(decls, counter_ops(), None),
        sound_program(decls, strided_ops(stride), None),
{
    law_plain_counters_are_valid(decls);
    let a = counter_ops();
    let b = strided_ops(stride);
    assert(a[0] == Op::CpuId { dst: 0 });
    assert(b[0] == Op::CpuId { dst: 0 });
    assert(b[1] == Op::Bin {
        dst: 1,
        op: BinOp::Mul,
        lhs: Operand::Reg(0),
        rhs: Operand::Imm(stride as u64),
    });
    lemma_defines(b, 0, 0);
    lemma_defines(b, 1, 1);
    lemma_defines(b, 2, 2);
    lemma_defines(b, 3, 3);
    lemma_four_registers_fit(a, None);
    lemma_four_registers_fit(b, None);
}

/// The freelist programs are sound.
pub proof fn law_freelist_is_sound(decls: Seq<RegionDecl>, nnodes: usize)
    requires
        freelist_layout(decls, nnodes),
    ensures
        sound_program(decls, Freelist::push_ops(RegionId(0), RegionId(1)), None),
        sound_program(
            decls,
            Freelist::pop_ops(RegionId(0), RegionId(1)),
            Some(Operand::Reg(1)),
        ),
{
    let push = Freelist::push_ops(RegionId(0), RegionId(1));
    let pop = Freelist::pop_ops(RegionId(0), RegionId(1));
    lemma_defines(push, 0, 0);
    lemma_defines(push, 1, 1);
    lemma_defines(push, 2, 2);
    lemma_defines(pop, 0, 0);
    lemma_defines(pop, 1, 1);
    lemma_defines(pop, 3, 2);
    lemma_four_registers_fit(push, None);
    lemma_four_registers_fit(pop, Some(Operand::Reg(1)));
    assert(!crate::laws::scribbles_on(push, 0));
}

/// The lockable freelist programs are sound.
pub proof fn law_lockable_freelist_is_sound(decls: Seq<RegionDecl>, nnodes: usize)
    requires
        lockable_layout(decls, nnodes),
    ensures
        sound_program(decls, lockable_push_ops(), None),
        sound_program(decls, lockable_pop_ops(), Some(Operand::Reg(2))),
{
    let push = lockable_push_ops();
    let pop = lockable_pop_ops();
    assert(push[0] == Op::CpuId { dst: 0 });
    assert(pop[0] == Op::CpuId { dst: 0 });
    lemma_defines(push, 0, 0);
    lemma_defines(push, 1, 1);
    lemma_defines(push, 3, 2);
    lemma_defines(push, 4, 3);
    lemma_defines(pop, 0, 0);
    lemma_defines(pop, 1, 1);
    lemma_defines(pop, 3, 2);
    lemma_defines(pop, 5, 3);
    lemma_four_registers_fit(push, None);
    lemma_four_registers_fit(pop, Some(Operand::Reg(2)));
    assert(!crate::laws::scribbles_on(push, 0));
    assert(!crate::laws::scribbles_on(push, 1));
}

/// The array push is sound.
pub proof fn law_array_push_is_sound(decls: Seq<RegionDecl>, cap: usize, value: u64)
    requires
        array_layout(decls, cap),
    ensures
        sound_program(
            decls,
            PushArray::push_ops(RegionId(0), RegionId(1), cap as u64, value),
            None,
        ),
{
    let ops = PushArray::push_ops(RegionId(0), RegionId(1), cap as u64, value);
    lemma_defines(ops, 0, 0);
    lemma_defines(ops, 1, 1);
    lemma_defines(ops, 3, 2);
    lemma_defines(ops, 4, 3);
    lemma_defines(ops, 6, 4);
    assert(!crate::laws::scribbles_on(ops, 0));
    assert(crate::pressure::defined_once(ops));
    assert forall|n: int| 0 <= n < ops.len() implies crate::pressure::encodes(#[trigger] ops[n])
        && (ops[n].dst() is Some ==> crate::pressure::live_regs(ops, None, n).len() < 4) by {
        if ops[n].dst() is Some {
            let k = if n == 6 {
                2usize
            } else {
                ops[n].dst().unwrap()
            };
            assert forall|r: usize| crate::pressure::live_regs(ops, None, n).contains(r) implies r
                < k by {
                let i = choose|i: int| 0 <= i < n && #[trigger] ops[i].dst() == Some(r);
                if n == 6 {
                    assert(crate::codegen::dead_after(ops, None, 5, 2));
                    assert(crate::codegen::dead_after(ops, None, 5, 3));
                }
            }
            crate::pressure::lemma_few_live(ops, None, n, k as nat);
        }
    }
    crate::pressure::law_compiles_if_it_fits(ops, None);
}

/// One step further into an attempt that is to stop elsewhere.
pub(crate) proof fn step_past(
    env: Setting,
    cpu: usize,
    ops: Seq<Op>,
    stop: Option<usize>,
    i: int,
    s: State,
) -> (t: State)
    requires
        0 <= i < ops.len(),
        !(stop matches Some(at) && at == i),
        crate::sim::step_effect(env, cpu, ops[i], s) is Continue,
    ensures
        crate::sim::step_effect(env, cpu, ops[i], s)->Continue_0 == t,
        crate::sim::attempt_end(env, cpu, ops, stop, i, s) == crate::sim::attempt_end(
            env,
            cpu,
            ops,
            stop,
            i + 1,
            t,
        ),
{
    crate::sim::step_effect(env, cpu, ops[i], s)->Continue_0
}

/// Memory `w` is `words` but for the next pointer of `node`.
pub open spec fn but_for_node(words: Words, w: Words, node: int) -> bool {
    &&& words.len() == 2
    &&& w == with_word(words, 1, node, w[1][node])
}

/// The memory after `node` is pushed on `cpu`.
pub open spec fn pushed(words: Words, cpu: int, node: u64) -> Words {
    with_word(with_word(words, 1, node as usize as int, words[0][cpu]), 0, cpu, node)
}

/// An attempt to push, from memory in which earlier attempts have touched the
/// node: it is cut short, having touched nothing else, or pushes.
proof fn lemma_push_attempt(
    env: Setting,
    cpu: usize,
    nnodes: usize,
    words: Words,
    w: Words,
    stop: Option<usize>,
)
    requires
        freelist_layout(env.decls, nnodes),
        crate::sim::words_match(env.decls, env.ncpus as int, words),
        cpu < env.ncpus,
        env.params.len() > 0,
        (env.params[0] as usize) < nnodes,
        but_for_node(words, w, env.params[0] as usize as int),
    ensures
        ({
            let node = env.params[0];
            match crate::sim::attempt_end(
                env,
                cpu,
                Freelist::push_ops(RegionId(0), RegionId(1)),
                stop,
                0,
                State::entry(w),
            ) {
                AttemptEnd::Aborted(v) => but_for_node(words, v, node as usize as int),
                AttemptEnd::Finished(s) => s.words == pushed(words, cpu as int, node),
                _ => false,
            }
        }),
{
    let ops = Freelist::push_ops(RegionId(0), RegionId(1));
    let at = env.params[0] as usize as int;
    assert(words[0].len() == env.ncpus);
    assert(words[1].len() == nnodes);
    assert(w[0] == words[0]);
    assert(w[1].len() == nnodes);
    let s0 = State::entry(w);
    if stop != Some(0usize) {
        let s1 = step_past(env, cpu, ops, stop, 0, s0);
        if stop != Some(1usize) {
            let s2 = step_past(env, cpu, ops, stop, 1, s1);
            if stop != Some(2usize) {
                let s3 = step_past(env, cpu, ops, stop, 2, s2);
                if stop != Some(3usize) {
                    let s4 = step_past(env, cpu, ops, stop, 3, s3);
                    assert(s4.words =~= with_word(words, 1, at, words[0][cpu as int])) by {
                        assert(s4.words[1] =~= words[1].update(at, words[0][cpu as int]));
                    }
                    assert(but_for_node(words, s4.words, at));
                    if stop != Some(4usize) {
                        lemma_owner(cpu, env.decls[0].words);
                        let s5 = step_past(env, cpu, ops, stop, 4, s4);
                    }
                }
            }
        }
    }
}

proof fn lemma_push_run(
    env: Setting,
    cpu: usize,
    nnodes: usize,
    plan: Seq<AbortPoint>,
    words: Words,
    w: Words,
) -> (c: usize)
    requires
        freelist_layout(env.decls, nnodes),
        crate::sim::words_match(env.decls, env.ncpus as int, words),
        cpu < env.ncpus,
        env.params.len() > 0,
        (env.params[0] as usize) < nnodes,
        but_for_node(words, w, env.params[0] as usize as int),
        crate::laws::fires_in_range(
            crate::sim::run_end(
                env,
                Freelist::push_ops(RegionId(0), RegionId(1)),
                None,
                false,
                cpu,
                plan,
                w,
            ),
        ),
    ensures
        c < env.ncpus,
        crate::sim::run_end(
            env,
            Freelist::push_ops(RegionId(0), RegionId(1)),
            None,
            false,
            cpu,
            plan,
            w,
        ) == (
            Ok::<RunResult, SimError>(
                RunResult { outcome: Outcome::Committed { ret: None }, final_cpu: c },
            ),
            pushed(words, c as int, env.params[0]),
        ),
    decreases plan.len(),
{
    let ops = Freelist::push_ops(RegionId(0), RegionId(1));
    let stop = crate::sim::next_stop(plan);
    lemma_push_attempt(env, cpu, nnodes, words, w, stop);
    match crate::sim::attempt_end(env, cpu, ops, stop, 0, State::entry(w)) {
        AttemptEnd::Aborted(v) => {
            crate::sim::lemma_abort_has_stop(env, cpu, ops, stop, 0, State::entry(w));
            lemma_push_run(env, plan[0].new_cpu, nnodes, plan.drop_first(), words, v)
        },
        _ => cpu,
    }
}

/// The run pushed the node on CPU `c`.
pub open spec fn pushed_on(
    run: (Result<RunResult, SimError>, Words),
    words: Words,
    ncpus: usize,
    node: u64,
    c: usize,
) -> bool {
    &&& c < ncpus
    &&& run.0 == Ok::<RunResult, SimError>(
        RunResult { outcome: Outcome::Committed { ret: None }, final_cpu: c },
    )
    &&& run.1 == pushed(words, c as int, node)
    &&& list_of(run.1, 0, 1, c as int) == Some(
        seq![node] + list_of(words, 0, 1, c as int).unwrap(),
    )
    &&& forall|d: int|
        0 <= d < ncpus && d != c ==> #[trigger] list_of(run.1, 0, 1, d) == list_of(words, 0, 1, d)
}

/// Under every abort schedule a push adds its node to exactly one list, that
/// of the CPU the run ends on, and every other list stays as it is. It writes
/// two words, the head of that list and the next pointer of its node, and no
/// other.
pub proof fn law_push_adds_its_node_once(
    env: Setting,
    nnodes: usize,
    plan: Seq<AbortPoint>,
    words: Words,
)
    requires
        freelist_layout(env.decls, nnodes),
        crate::sim::words_match(env.decls, env.ncpus as int, words),
        env.params.len() > 0,
        (env.params[0] as usize) < nnodes,
        env.params[0] != NIL,
        crate::laws::fires_in_range(
            crate::sim::whole_run(
                env,
                Freelist::push_ops(RegionId(0), RegionId(1)),
                None,
                false,
                plan,
                words,
            ),
        ),
        forall|c: int|
            0 <= c < env.ncpus ==> #[trigger] list_of(words, 0, 1, c) is Some && not_on_list(
                words,
                0,
                1,
                c,
                env.params[0],
            ),
    ensures
        exists|c: usize| #[trigger]
            pushed_on(
                crate::sim::whole_run(
                    env,
                    Freelist::push_ops(RegionId(0), RegionId(1)),
                    None,
                    false,
                    plan,
                    words,
                ),
                words,
                env.ncpus,
                env.params[0],
                c,
            ),
{
    let node = env.params[0];
    let at = node as usize as int;
    let ops = Freelist::push_ops(RegionId(0), RegionId(1));
    assert(words[1].len() == nnodes);
    assert(words[0].len() == env.ncpus);
    assert(with_word(words, 1, at, words[1][at]) =~= words) by {
        assert(words[1].update(at, words[1][at]) =~= words[1]);
    }
    let c = lemma_push_run(env, env.start_cpu, nnodes, plan, words, words);
    let run = crate::sim::whole_run(env, ops, None, false, plan, words);
    assert(run.1 == pushed(words, c as int, node));
    let head = words[0][c as int];
    assert(list_of(words, 0, 1, c as int) is Some);
    assert(not_on_list(words, 0, 1, c as int, node));
    crate::rt::law_linking_prepends(words[1], head, node);
    assert(run.1[1] == words[1].update(at, head));
    assert forall|d: int| 0 <= d < env.ncpus && d != c implies #[trigger] list_of(run.1, 0, 1, d)
        == list_of(words, 0, 1, d) by {
        assert(list_of(words, 0, 1, d) is Some);
        assert(not_on_list(words, 0, 1, d, node));
        crate::rt::lemma_list_frame(words[1], words[0][d], words[1].len() + 1, at, head);
        assert(run.1[0][d] == words[0][d]);
    }
    assert(pushed_on(run, words, env.ncpus, node, c));
}

/// The run popped from the list of CPU `c`, or found it empty.
pub open spec fn popped_on(
    run: (Result<RunResult, SimError>, Words),
    words: Words,
    ncpus: usize,
    c: usize,
) -> bool {
    let list = list_of(words, 0, 1, c as int).unwrap();
    &&& c < ncpus
    &&& if list.len() == 0 {
        &&& run.0 == Ok::<RunResult, SimError>(
            RunResult { outcome: Outcome::Exited, final_cpu: c },
        )
        &&& run.1 == words
    } else {
        &&& run.0 == Ok::<RunResult, SimError>(
            RunResult { outcome: Outcome::Committed { ret: Some(list[0]) }, final_cpu: c },
        )
        &&& run.1 == with_word(words, 0, c as int, words[1][list[0] as usize as int])
        &&& list_of(run.1, 0, 1, c as int) == Some(list.drop_first())
        &&& forall|d: int|
            0 <= d < ncpus && d != c ==> #[trigger] list_of(run.1, 0, 1, d) == list_of(
                words,
                0,
                1,
                d,
            )
    }
}

/// Under every abort schedule a pop takes exactly the first node of exactly
/// one list, that of the CPU the run ends on, or nothing if that list is
/// empty. It writes the head of that list and no other word.
pub proof fn law_pop_takes_one_node(
    env: Setting,
    nnodes: usize,
    plan: Seq<AbortPoint>,
    words: Words,
)
    requires
        freelist_layout(env.decls, nnodes),
        crate::sim::words_match(env.decls, env.ncpus as int, words),
        crate::laws::fires_in_range(
            crate::sim::whole_run(
                env,
                Freelist::pop_ops(RegionId(0), RegionId(1)),
                Some(Operand::Reg(1)),
                false,
                plan,
                words,
            ),
        ),
        forall|c: int| 0 <= c < env.ncpus ==> #[trigger] list_of(words, 0, 1, c) is Some,
    ensures
        exists|c: usize| #[trigger]
            popped_on(
                crate::sim::whole_run(
                    env,
                    Freelist::pop_ops(RegionId(0), RegionId(1)),
                    Some(Operand::Reg(1)),
                    false,
                    plan,
                    words,
                ),
                words,
                env.ncpus,
                c,
            ),
{
    let ops = Freelist::pop_ops(RegionId(0), RegionId(1));
    let ret = Some(Operand::Reg(1));
    law_freelist_is_sound(env.decls, nnodes);
    crate::laws::law_restarts_converge(env, ops, ret, plan, words);
    let run = crate::sim::whole_run(env, ops, ret, false, plan, words);
    let c = choose|c: usize| #[trigger]
        crate::laws::ends_as_clean(env, ops, ret, words, run, c);
    let clean = Setting { start_cpu: c, ..env };
    let head = words[0][c as int];
    assert(words[0].len() == env.ncpus);
    assert(list_of(words, 0, 1, c as int) is Some);
    if head != NIL {
        crate::rt::law_unlinking_leaves_the_rest(words[1], head);
    }
    law_freelist_pop_unlinks(clean, c, nnodes, words);
    lemma_clean_run(clean, ops, ret, words);
    assert forall|i: int| 0 <= i < ops.len() implies !((#[trigger] ops[i]) is StoreScratch) by {}
    lemma_no_scratch(
        ops,
        run.1,
        crate::sim::whole_run(clean, ops, ret, false, seq![], words).1,
    );
    if head != NIL {
        assert forall|d: int| 0 <= d < env.ncpus && d != c implies #[trigger] list_of(
            run.1,
            0,
            1,
            d,
        ) == list_of(words, 0, 1, d) by {
            assert(run.1[0][d] == words[0][d]);
        }
    }
    assert(popped_on(run, words, env.ncpus, c));
}

/// On an unlocked CPU the lockable sequences do to heads and nodes exactly what
/// the plain ones do.
pub proof fn law_unlocked_behaves_as_plain(
    env: Setting,
    plain: Setting,
    cpu: usize,
    nnodes: usize,
    words: Words,
)
    requires
        lockable_layout(env.decls, nnodes),
        freelist_layout(plain.decls, nnodes),
        plain.ncpus == env.ncpus,
        plain.params == env.params,
        crate::sim::words_match(env.decls, env.ncpus as int, words),
        cpu < env.ncpus,
        words[0][cpu as int] == 0,
        env.params.len() > 0,
        (env.params[0] as usize) < nnodes,
        words[1][cpu as int] != NIL ==> (words[1][cpu as int] as usize) < nnodes,
    ensures
        ({
            let rest = words.drop_first();
            let push = crate::sim::attempt_end(
                env,
                cpu,
                lockable_push_ops(),
                None,
                0,
                State::entry(words),
            );
            let plain_push = crate::sim::attempt_end(
                plain,
                cpu,
                Freelist::push_ops(RegionId(0), RegionId(1)),
                None,
                0,
                State::entry(rest),
            );
            let pop = crate::sim::attempt_end(
                env,
                cpu,
                lockable_pop_ops(),
                None,
                0,
                State::entry(words),
            );
            let plain_pop = crate::sim::attempt_end(
                plain,
                cpu,
                Freelist::pop_ops(RegionId(0), RegionId(1)),
                None,
                0,
                State::entry(rest),
            );
            &&& push is Finished && plain_push is Finished
            &&& push->Finished_0.words.drop_first() == plain_push->Finished_0.words
            &&& push->Finished_0.words[0] == words[0]
            &&& pop is Finished <==> plain_pop is Finished
            &&& pop is Exited <==> plain_pop is Exited
            &&& pop is Finished ==> {
                &&& pop->Finished_0.words.drop_first() == plain_pop->Finished_0.words
                &&& pop->Finished_0.words[0] == words[0]
                &&& pop->Finished_0.regs[2] == plain_pop->Finished_0.regs[1]
            }
        }),
{
    let rest = words.drop_first();
    assert(words[0].len() == env.ncpus);
    assert(words[1].len() == env.ncpus);
    assert(words[2].len() == nnodes);
    assert(rest[0] == words[1] && rest[1] == words[2]);
    assert(crate::sim::words_match(plain.decls, plain.ncpus as int, rest));
    law_lockable_push(env, cpu, nnodes, words);
    law_lockable_pop(env, cpu, nnodes, words);
    law_freelist_push_links(plain, cpu, nnodes, rest);
    law_freelist_pop_unlinks(plain, cpu, nnodes, rest);
    let node = env.params[0];
    let a = with_word(
        with_word(words, 2, node as usize as int, words[1][cpu as int]),
        1,
        cpu as int,
        node,
    );
    assert(a.drop_first() =~= pushed(rest, cpu as int, node));
    let head = words[1][cpu as int];
    if head != NIL {
        let next = words[2][head as usize as int];
        assert(with_word(words, 1, cpu as int, next).drop_first() =~= with_word(
            rest,
            0,
            cpu as int,
            next,
        ));
    }
}

/// The run ended on CPU `c`, and exited there if `c` is locked, leaving
/// published memory alone.
pub open spec fn respects_lock(
    env: Setting,
    run: (Result<RunResult, SimError>, Words),
    words: Words,
    c: usize,
) -> bool {
    &&& c < env.ncpus
    &&& run.0 is Ok
    &&& run.0->Ok_0.final_cpu == c
    &&& words[0][c as int] != 0 ==> run.0->Ok_0.outcome is Exited && crate::sim::same_published(
        env.decls,
        words,
        run.1,
    )
}

/// Locked CPUs never commit: a push or a pop, under every abort schedule, that
/// ends on a CPU with its lock set has exited, and published memory is as it
/// was.
pub proof fn law_locked_cpus_never_commit(
    env: Setting,
    nnodes: usize,
    plan: Seq<AbortPoint>,
    words: Words,
)
    requires
        lockable_layout(env.decls, nnodes),
        crate::sim::words_match(env.decls, env.ncpus as int, words),
        env.params.len() > 0,
        (env.params[0] as usize) < nnodes,
        forall|c: int|
            0 <= c < env.ncpus && #[trigger] words[1][c] != NIL ==> (words[1][c] as usize) < nnodes,
    ensures
        crate::laws::fires_in_range(
            crate::sim::whole_run(env, lockable_push_ops(), None, false, plan, words),
        ) ==> exists|c: usize| #[trigger]
            respects_lock(
                env,
                crate::sim::whole_run(env, lockable_push_ops(), None, false, plan, words),
                words,
                c,
            ),
        crate::laws::fires_in_range(
            crate::sim::whole_run(
                env,
                lockable_pop_ops(),
                Some(Operand::Reg(2)),
                false,
                plan,
                words,
            ),
        ) ==> exists|c: usize| #[trigger]
            respects_lock(
                env,
                crate::sim::whole_run(
                    env,
                    lockable_pop_ops(),
                    Some(Operand::Reg(2)),
                    false,
                    plan,
                    words,
                ),
                words,
                c,
            ),
{
    let push = lockable_push_ops();
    let pop = lockable_pop_ops();
    let ret = Some(Operand::Reg(2));
    law_lockable_freelist_is_sound(env.decls, nnodes);
    assert(crate::sim::addressable(env.decls, push)) by {
        assert forall|i: int| 0 <= i < push.len() implies crate::sim::op_addressable(
            env.decls,
            #[trigger] push[i],
        ) by {
            assert(crate::ir::regions_respected(env.decls, push[i]));
        }
    }
    assert(crate::sim::addressable(env.decls, pop)) by {
        assert forall|i: int| 0 <= i < pop.len() implies crate::sim::op_addressable(
            env.decls,
            #[trigger] pop[i],
        ) by {
            assert(crate::ir::regions_respected(env.decls, pop[i]));
        }
    }
    let run = crate::sim::whole_run(env, push, None, false, plan, words);
    if crate::laws::fires_in_range(run) {
        crate::laws::law_restarts_converge(env, push, None, plan, words);
        crate::sim::lemma_run_addressable(env, push, false, env.start_cpu, plan, words);
        crate::laws::law_runs_commit_at_most_once(env, push, None, plan, words);
        let c = choose|c: usize| #[trigger]
            crate::laws::ends_as_clean(env, push, None, words, run, c);
        let clean = Setting { start_cpu: c, ..env };
        law_lockable_push(clean, c, nnodes, words);
        lemma_clean_run(clean, push, None, words);
        assert(respects_lock(env, run, words, c));
    }
    let run = crate::sim::whole_run(env, pop, ret, false, plan, words);
    if crate::laws::fires_in_range(run) {
        crate::laws::law_restarts_converge(env, pop, ret, plan, words);
        crate::sim::lemma_run_addressable(env, pop, false, env.start_cpu, plan, words);
        crate::laws::law_runs_commit_at_most_once(env, pop, ret, plan, words);
        let c = choose|c: usize| #[trigger]
            crate::laws::ends_as_clean(env, pop, ret, words, run, c);
        let clean = Setting { start_cpu: c, ..env };
        assert(words[1].len() == env.ncpus);
        assert(words[1][c as int] != NIL ==> (words[1][c as int] as usize) < nnodes);
        law_lockable_pop(clean, c, nnodes, words);
        lemma_clean_run(clean, pop, ret, words);
        assert(respects_lock(env, run, words, c));
    }
}

/// The position of slot `i` of CPU `d`.
pub open spec fn slot(cap: usize, d: int, i: int) -> int {
    d * cap + i
}

/// The committed elements are the same: equal counts, and equal elements below
/// the counts.
pub open spec fn same_elements(words: Words, w: Words, cap: usize, ncpus: usize) -> bool {
    &&& w.len() == 2
    &&& w[0] == words[0]
    &&& w[1].len() == words[1].len()
    &&& forall|d: int, i: int|
        #![trigger slot(cap, d, i)]
        0 <= d < ncpus && 0 <= i < words[0][d] && i < cap ==> w[1][slot(cap, d, i)]
            == words[1][slot(cap, d, i)]
}

/// Two slots of different CPUs, or at different positions, are different.
proof fn lemma_slots_apart(cap: usize, d: int, i: int, e: int, j: int)
    requires
        0 <= i < cap,
        0 <= j < cap,
        d != e || i != j,
    ensures
        slot(cap, d, i) != slot(cap, e, j),
{
    assert(d * cap + i != e * cap + j) by (nonlinear_arith)
        requires
            0 <= i < cap,
            0 <= j < cap,
            d != e || i != j,
    ;
}

/// A slot is inside the region.
proof fn lemma_slot_inside(cap: usize, ncpus: usize, d: int, i: int)
    requires
        0 <= d < ncpus,
        0 <= i < cap,
    ensures
        0 <= slot(cap, d, i) < cap * ncpus,
{
    assert(0 <= d * cap + i < cap * ncpus) by (nonlinear_arith)
        requires
            0 <= d < ncpus,
            0 <= i < cap,
    ;
}

/// What the array holds after `value` is pushed on `cpu`, which has room.
pub open spec fn appended(
    words: Words,
    w: Words,
    cap: usize,
    ncpus: usize,
    cpu: int,
    value: u64,
) -> bool {
    let count = words[0][cpu];
    &&& w.len() == 2
    &&& w[0] == words[0].update(cpu, (count + 1) as u64)
    &&& w[1].len() == words[1].len()
    &&& w[1][slot(cap, cpu, count as int)] == value
    &&& forall|d: int, i: int|
        #![trigger slot(cap, d, i)]
        0 <= d < ncpus && 0 <= i < words[0][d] && i < cap ==> w[1][slot(cap, d, i)]
            == words[1][slot(cap, d, i)]
}

/// An attempt to push onto the array, from memory with the same elements.
proof fn lemma_array_attempt(
    env: Setting,
    cpu: usize,
    cap: usize,
    value: u64,
    words: Words,
    w: Words,
    stop: Option<usize>,
)
    requires
        array_layout(env.decls, cap),
        cap * env.ncpus <= usize::MAX,
        crate::sim::words_match(env.decls, env.ncpus as int, words),
        same_elements(words, w, cap, env.ncpus),
        cpu < env.ncpus,
    ensures
        match crate::sim::attempt_end(
            env,
            cpu,
            PushArray::push_ops(RegionId(0), RegionId(1), cap as u64, value),
            stop,
            0,
            State::entry(w),
        ) {
            AttemptEnd::Aborted(v) => same_elements(words, v, cap, env.ncpus),
            AttemptEnd::Exited(v) => words[0][cpu as int] >= cap && v == w,
            AttemptEnd::Finished(s) => words[0][cpu as int] < cap && appended(
                words,
                s.words,
                cap,
                env.ncpus,
                cpu as int,
                value,
            ),
            AttemptEnd::Failed(_, _) => false,
        },
{
    let ops = PushArray::push_ops(RegionId(0), RegionId(1), cap as u64, value);
    let count = words[0][cpu as int];
    assert(words[0].len() == env.ncpus);
    assert(words[1].len() == cap * env.ncpus);
    let s0 = State::entry(w);
    assert(ops[2] is ExitIf);
    if stop != Some(0usize) {
        let s1 = step_past(env, cpu, ops, stop, 0, s0);
        if stop != Some(1usize) {
            let s2 = step_past(env, cpu, ops, stop, 1, s1);
            if stop != Some(2usize) {
                if count < cap {
                    let s3 = step_past(env, cpu, ops, stop, 2, s2);
                    lemma_array_rest(env, cpu, cap, value, words, w, stop, s3);
                } else {
                    assert(crate::sim::attempt_end(env, cpu, ops, stop, 2, s2)
                        == AttemptEnd::Exited(w));
                }
            }
        }
    }
}

/// The rest of an attempt that found room.
proof fn lemma_array_rest(
    env: Setting,
    cpu: usize,
    cap: usize,
    value: u64,
    words: Words,
    w: Words,
    stop: Option<usize>,
    s3: State,
)
    requires
        array_layout(env.decls, cap),
        cap * env.ncpus <= usize::MAX,
        words.len() == 2,
        words[0].len() == env.ncpus,
        words[1].len() == cap * env.ncpus,
        same_elements(words, w, cap, env.ncpus),
        cpu < env.ncpus,
        words[0][cpu as int] < cap,
        s3.words == w,
        s3.regs.dom().contains(0),
        s3.regs[0] == cpu,
        s3.regs.dom().contains(1),
        s3.regs[1] == words[0][cpu as int],
    ensures
        match crate::sim::attempt_end(
            env,
            cpu,
            PushArray::push_ops(RegionId(0), RegionId(1), cap as u64, value),
            stop,
            3,
            s3,
        ) {
            AttemptEnd::Aborted(v) => same_elements(words, v, cap, env.ncpus),
            AttemptEnd::Finished(s) => appended(
                words,
                s.words,
                cap,
                env.ncpus,
                cpu as int,
                value,
            ),
            _ => false,
        },
{
    let ops = PushArray::push_ops(RegionId(0), RegionId(1), cap as u64, value);
    let count = words[0][cpu as int];
    let base = cpu * cap;
    assert(0 <= base && base + cap <= cap * env.ncpus) by (nonlinear_arith)
        requires
            base == cpu * cap,
            cpu < env.ncpus,
            cap > 0,
    ;
    if stop != Some(3usize) {
        let s4 = step_past(env, cpu, ops, stop, 3, s3);
        assert((cpu as u64).wrapping_mul(cap as u64) == base);
        if stop != Some(4usize) {
            let s5 = step_past(env, cpu, ops, stop, 4, s4);
            assert(s5.regs[3] == base + count);
            if stop != Some(5usize) {
                let s6 = step_past(env, cpu, ops, stop, 5, s5);
                let v = s6.words;
                assert(v == with_word(w, 1, base + count, value));
                assert(same_elements(words, v, cap, env.ncpus)) by {
                    assert forall|d: int, i: int|
                        #![trigger slot(cap, d, i)]
                        0 <= d < env.ncpus && 0 <= i < words[0][d] && i
                            < cap implies v[1][slot(cap, d, i)] == words[1][slot(cap, d, i)] by {
                        lemma_slots_apart(cap, d, i, cpu as int, count as int);
                        lemma_slot_inside(cap, env.ncpus, d, i);
                    }
                }
                if stop != Some(6usize) {
                    let s7 = step_past(env, cpu, ops, stop, 6, s6);
                    if stop != Some(7usize) {
                        lemma_owner(cpu, env.decls[0].words);
                        let s8 = step_past(env, cpu, ops, stop, 7, s7);
                        assert(s8.words[1] == v[1]);
                        assert(slot(cap, cpu as int, count as int) == base + count);
                        assert(appended(
                            words,
                            s8.words,
                            cap,
                            env.ncpus,
                            cpu as int,
                            value,
                        ));
                    }
                }
            }
        }
    }
}

/// An attempt on CPU 0 that is cut short right before the new count is
/// computed leaves the value in its slot.
pub(crate) proof fn lemma_array_scribbles(env: Setting, cap: usize, value: u64, words: Words)
    requires
        array_layout(env.decls, cap),
        cap * env.ncpus <= usize::MAX,
        crate::sim::words_match(env.decls, env.ncpus as int, words),
        env.ncpus > 0,
        words[0][0] < cap,
    ensures
        crate::sim::attempt_end(
            env,
            0,
            PushArray::push_ops(RegionId(0), RegionId(1), cap as u64, value),
            Some(6usize),
            0,
            State::entry(words),
        ) == AttemptEnd::Aborted(with_word(words, 1, words[0][0] as int, value)),
{
    let ops = PushArray::push_ops(RegionId(0), RegionId(1), cap as u64, value);
    let stop = Some(6usize);
    let count = words[0][0];
    assert(words[0].len() == env.ncpus);
    assert(words[1].len() == cap * env.ncpus);
    assert(cap <= cap * env.ncpus) by (nonlinear_arith)
        requires
            env.ncpus > 0,
    ;
    let s1 = step_past(env, 0, ops, stop, 0, State::entry(words));
    let s2 = step_past(env, 0, ops, stop, 1, s1);
    let s3 = step_past(env, 0, ops, stop, 2, s2);
    let s4 = step_past(env, 0, ops, stop, 3, s3);
    assert(0u64.wrapping_mul(cap as u64) == 0);
    let s5 = step_past(env, 0, ops, stop, 4, s4);
    assert(s5.regs[3] == count);
    let s6 = step_past(env, 0, ops, stop, 5, s5);
    assert(s6.words == with_word(words, 1, count as int, value));
}

proof fn lemma_array_run(
    env: Setting,
    cpu: usize,
    cap: usize,
    value: u64,
    plan: Seq<AbortPoint>,
    words: Words,
    w: Words,
) -> (c: usize)
    requires
        array_layout(env.decls, cap),
        cap * env.ncpus <= usize::MAX,
        crate::sim::words_match(env.decls, env.ncpus as int, words),
        same_elements(words, w, cap, env.ncpus),
        cpu < env.ncpus,
        crate::laws::fires_in_range(
            crate::sim::run_end(
                env,
                PushArray::push_ops(RegionId(0), RegionId(1), cap as u64, value),
                None,
                false,
                cpu,
                plan,
                w,
            ),
        ),
    ensures
        array_pushed(
            env.ncpus,
            crate::sim::run_end(
                env,
                PushArray::push_ops(RegionId(0), RegionId(1), cap as u64, value),
                None,
                false,
                cpu,
                plan,
                w,
            ),
            words,
            cap,
            value,
            c,
        ),
    decreases plan.len(),
{
    let ops = PushArray::push_ops(RegionId(0), RegionId(1), cap as u64, value);
    let stop = crate::sim::next_stop(plan);
    lemma_array_attempt(env, cpu, cap, value, words, w, stop);
    match crate::sim::attempt_end(env, cpu, ops, stop, 0, State::entry(w)) {
        AttemptEnd::Aborted(v) => {
            crate::sim::lemma_abort_has_stop(env, cpu, ops, stop, 0, State::entry(w));
            lemma_array_run(env, plan[0].new_cpu, cap, value, plan.drop_first(), words, v)
        },
        _ => cpu,
    }
}

/// The run pushed onto the array of CPU `c`, or found it full.
pub open spec fn array_pushed(
    ncpus: usize,
    run: (Result<RunResult, SimError>, Words),
    words: Words,
    cap: usize,
    value: u64,
    c: usize,
) -> bool {
    &&& c < ncpus
    &&& if words[0][c as int] >= cap {
        &&& run.0 == Ok::<RunResult, SimError>(
            RunResult { outcome: Outcome::Exited, final_cpu: c },
        )
        &&& same_elements(words, run.1, cap, ncpus)
    } else {
        &&& run.0 == Ok::<RunResult, SimError>(
            RunResult { outcome: Outcome::Committed { ret: None }, final_cpu: c },
        )
        &&& appended(words, run.1, cap, ncpus, c as int, value)
    }
}

/// Under every abort schedule a push onto the array publishes its value exactly
/// once, behind the elements of the CPU the run ends on, and no committed
/// element of any CPU changes: what aborted attempts scribble is never
/// published.
pub proof fn law_array_push_publishes_once(
    env: Setting,
    cap: usize,
    value: u64,
    plan: Seq<AbortPoint>,
    words: Words,
)
    requires
        array_layout(env.decls, cap),
        cap * env.ncpus <= usize::MAX,
        crate::sim::words_match(env.decls, env.ncpus as int, words),
        crate::laws::fires_in_range(
            crate::sim::whole_run(
                env,
                PushArray::push_ops(RegionId(0), RegionId(1), cap as u64, value),
                None,
                false,
                plan,
                words,
            ),
        ),
    ensures
        exists|c: usize| #[trigger]
            array_pushed(
                env.ncpus,
                crate::sim::whole_run(
                    env,
                    PushArray::push_ops(RegionId(0), RegionId(1), cap as u64, value),
                    None,
                    false,
                    plan,
                    words,
                ),
                words,
                cap,
                value,
                c,
            ),
{
    let ops = PushArray::push_ops(RegionId(0), RegionId(1), cap as u64, value);
    let c = lemma_array_run(env, env.start_cpu, cap, value, plan, words, words);
    assert(crate::sim::whole_run(env, ops, None, false, plan, words) == crate::sim::run_end(
        env,
        ops,
        None,
        false,
        env.start_cpu,
        plan,
        words,
    ));
}

/// Memory `w` is `words` but for the next pointer of one node.
pub open spec fn but_for_next(words: Words, w: Words, node: int) -> bool {
    &&& words.len() == 3
    &&& w == with_word(words, 2, node, w[2][node])
}

/// The memory after `node` is pushed on `cpu`, which is not locked.
pub open spec fn linked(words: Words, cpu: int, node: u64) -> Words {
    with_word(with_word(words, 2, node as usize as int, words[1][cpu]), 1, cpu, node)
}

/// An attempt at a lockable push, from memory in which earlier attempts have
/// touched the node.
proof fn lemma_lockable_attempt(
    env: Setting,
    cpu: usize,
    nnodes: usize,
    words: Words,
    w: Words,
    stop: Option<usize>,
)
    requires
        lockable_layout(env.decls, nnodes),
        crate::sim::words_match(env.decls, env.ncpus as int, words),
        cpu < env.ncpus,
        env.params.len() > 0,
        (env.params[0] as usize) < nnodes,
        but_for_next(words, w, env.params[0] as usize as int),
    ensures
        ({
            let node = env.params[0];
            match crate::sim::attempt_end(
                env,
                cpu,
                lockable_push_ops(),
                stop,
                0,
                State::entry(w),
            ) {
                AttemptEnd::Aborted(v) => but_for_next(words, v, node as usize as int),
                AttemptEnd::Exited(v) => words[0][cpu as int] != 0 && v == w,
                AttemptEnd::Finished(s) => words[0][cpu as int] == 0 && s.words == linked(
                    words,
                    cpu as int,
                    node,
                ),
                AttemptEnd::Failed(_, _) => false,
            }
        }),
{
    let ops = lockable_push_ops();
    let at = env.params[0] as usize as int;
    assert(words[0].len() == env.ncpus);
    assert(words[1].len() == env.ncpus);
    assert(words[2].len() == nnodes);
    assert(w[0] == words[0]);
    assert(w[1] == words[1]);
    assert(w[2].len() == nnodes);
    assert(ops[2] is ExitIf);
    let s0 = State::entry(w);
    if stop != Some(0usize) {
        let s1 = step_past(env, cpu, ops, stop, 0, s0);
        if stop != Some(1usize) {
            let s2 = step_past(env, cpu, ops, stop, 1, s1);
            if stop != Some(2usize) {
                if words[0][cpu as int] == 0 {
                    let s3 = step_past(env, cpu, ops, stop, 2, s2);
                    lemma_lockable_rest(env, cpu, nnodes, words, w, stop, s3);
                } else {
                    assert(crate::sim::attempt_end(env, cpu, ops, stop, 2, s2)
                        == AttemptEnd::Exited(w));
                }
            }
        }
    }
}

/// The rest of an attempt that found its CPU unlocked.
proof fn lemma_lockable_rest(
    env: Setting,
    cpu: usize,
    nnodes: usize,
    words: Words,
    w: Words,
    stop: Option<usize>,
    s3: State,
)
    requires
        lockable_layout(env.decls, nnodes),
        words.len() == 3,
        words[1].len() == env.ncpus,
        words[2].len() == nnodes,
        cpu < env.ncpus,
        env.params.len() > 0,
        (env.params[0] as usize) < nnodes,
        but_for_next(words, w, env.params[0] as usize as int),
        s3.words == w,
        s3.regs.dom().contains(0),
        s3.regs[0] == cpu,
    ensures
        match crate::sim::attempt_end(env, cpu, lockable_push_ops(), stop, 3, s3) {
            AttemptEnd::Aborted(v) => but_for_next(words, v, env.params[0] as usize as int),
            AttemptEnd::Finished(s) => s.words == linked(words, cpu as int, env.params[0]),
            _ => false,
        },
{
    let ops = lockable_push_ops();
    let at = env.params[0] as usize as int;
    if stop != Some(3usize) {
        let s4 = step_past(env, cpu, ops, stop, 3, s3);
        if stop != Some(4usize) {
            let s5 = step_past(env, cpu, ops, stop, 4, s4);
            if stop != Some(5usize) {
                let s6 = step_past(env, cpu, ops, stop, 5, s5);
                assert(s6.words =~= with_word(words, 2, at, words[1][cpu as int])) by {
                    assert(s6.words[2] =~= words[2].update(at, words[1][cpu as int]));
                }
                assert(but_for_next(words, s6.words, at));
                if stop != Some(6usize) {
                    lemma_owner(cpu, env.decls[1].words);
                    let s7 = step_past(env, cpu, ops, stop, 6, s6);
                    assert(ops.len() == 7);
                }
            }
        }
    }
}

/// The lockable push ended on CPU `c`: locked, it exited, having touched at
/// most the next pointer of its own node; unlocked, it linked the node.
pub open spec fn lockable_pushed_on(
    run: (Result<RunResult, SimError>, Words),
    words: Words,
    ncpus: usize,
    node: u64,
    c: usize,
) -> bool {
    &&& c < ncpus
    &&& if words[0][c as int] != 0 {
        &&& run.0 == Ok::<RunResult, SimError>(
            RunResult { outcome: Outcome::Exited, final_cpu: c },
        )
        &&& but_for_next(words, run.1, node as usize as int)
    } else {
        &&& run.0 == Ok::<RunResult, SimError>(
            RunResult { outcome: Outcome::Committed { ret: None }, final_cpu: c },
        )
        &&& run.1 == linked(words, c as int, node)
    }
}

proof fn lemma_lockable_run(
    env: Setting,
    cpu: usize,
    nnodes: usize,
    plan: Seq<AbortPoint>,
    words: Words,
    w: Words,
) -> (c: usize)
    requires
        lockable_layout(env.decls, nnodes),
        crate::sim::words_match(env.decls, env.ncpus as int, words),
        cpu < env.ncpus,
        env.params.len() > 0,
        (env.params[0] as usize) < nnodes,
        but_for_next(words, w, env.params[0] as usize as int),
        crate::laws::fires_in_range(
            crate::sim::run_end(env, lockable_push_ops(), None, false, cpu, plan, w),
        ),
    ensures
        lockable_pushed_on(
            crate::sim::run_end(env, lockable_push_ops(), None, false, cpu, plan, w),
            words,
            env.ncpus,
            env.params[0],
            c,
        ),
    decreases plan.len(),
{
    let ops = lockable_push_ops();
    let stop = crate::sim::next_stop(plan);
    lemma_lockable_attempt(env, cpu, nnodes, words, w, stop);
    match crate::sim::attempt_end(env, cpu, ops, stop, 0, State::entry(w)) {
        AttemptEnd::Aborted(v) => {
            crate::sim::lemma_abort_has_stop(env, cpu, ops, stop, 0, State::entry(w));
            lemma_lockable_run(env, plan[0].new_cpu, nnodes, plan.drop_first(), words, v)
        },
        _ => cpu,
    }
}

/// Under every abort schedule a lockable push links its node on the CPU it
/// ends on if that is not locked, and otherwise publishes nothing. It writes
/// no word but that CPU's head and the next pointer of its node.
pub proof fn law_lockable_push_runs(
    env: Setting,
    nnodes: usize,
    plan: Seq<AbortPoint>,
    words: Words,
)
    requires
        lockable_layout(env.decls, nnodes),
        crate::sim::words_match(env.decls, env.ncpus as int, words),
        env.params.len() > 0,
        (env.params[0] as usize) < nnodes,
        crate::laws::fires_in_range(
            crate::sim::whole_run(env, lockable_push_ops(), None, false, plan, words),
        ),
    ensures
        exists|c: usize| #[trigger]
            lockable_pushed_on(
                crate::sim::whole_run(env, lockable_push_ops(), None, false, plan, words),
                words,
                env.ncpus,
                env.params[0],
                c,
            ),
{
    let at = env.params[0] as usize as int;
    assert(words[2].len() == nnodes);
    assert(with_word(words, 2, at, words[2][at]) =~= words) by {
        assert(words[2].update(at, words[2][at]) =~= words[2]);
    }
    let c = lemma_lockable_run(env, env.start_cpu, nnodes, plan, words, words);
    assert(lockable_pushed_on(
        crate::sim::whole_run(env, lockable_push_ops(), None, false, plan, words),
        words,
        env.ncpus,
        env.params[0],
        c,
    ));
}

/// The lockable pop ended on CPU `c`: locked or empty, it exited and did
/// nothing; otherwise it unlinked and returned the head.
pub open spec fn lockable_popped_on(
    run: (Result<RunResult, SimError>, Words),
    words: Words,
    ncpus: usize,
    c: usize,
) -> bool {
    let head = words[1][c as int];
    &&& c < ncpus
    &&& if words[0][c as int] != 0 || head == NIL {
        run == (
            Ok::<RunResult, SimError>(RunResult { outcome: Outcome::Exited, final_cpu: c }),
            words,
        )
    } else {
        run == (
            Ok::<RunResult, SimError>(
                RunResult { outcome: Outcome::Committed { ret: Some(head) }, final_cpu: c },
            ),
            with_word(words, 1, c as int, words[2][head as usize as int]),
        )
    }
}

/// Under every abort schedule a lockable pop takes the first node of the list
/// of the CPU it ends on, or nothing if that is locked or its list is empty.
pub proof fn law_lockable_pop_runs(
    env: Setting,
    nnodes: usize,
    plan: Seq<AbortPoint>,
    words: Words,
)
    requires
        lockable_layout(env.decls, nnodes),
        crate::sim::words_match(env.decls, env.ncpus as int, words),
        forall|c: int|
            0 <= c < env.ncpus && #[trigger] words[1][c] != NIL ==> (words[1][c] as usize) < nnodes,
        crate::laws::fires_in_range(
            crate::sim::whole_run(
                env,
                lockable_pop_ops(),
                Some(Operand::Reg(2)),
                false,
                plan,
                words,
            ),
        ),
    ensures
        exists|c: usize| #[trigger]
            lockable_popped_on(
                crate::sim::whole_run(
                    env,
                    lockable_pop_ops(),
                    Some(Operand::Reg(2)),
                    false,
                    plan,
                    words,
                ),
                words,
                env.ncpus,
                c,
            ),
{
    let ops = lockable_pop_ops();
    let ret = Some(Operand::Reg(2));
    law_lockable_freelist_is_sound(env.decls, nnodes);
    crate::laws::law_restarts_converge(env, ops, ret, plan, words);
    let run = crate::sim::whole_run(env, ops, ret, false, plan, words);
    let c = choose|c: usize| #[trigger]
        crate::laws::ends_as_clean(env, ops, ret, words, run, c);
    let clean = Setting { start_cpu: c, ..env };
    assert(words[1].len() == env.ncpus);
    assert(words[1][c as int] != NIL ==> (words[1][c as int] as usize) < nnodes);
    law_lockable_pop(clean, c, nnodes, words);
    lemma_clean_run(clean, ops, ret, words);
    assert forall|i: int| 0 <= i < ops.len() implies !((#[trigger] ops[i]) is StoreScratch) by {}
    lemma_no_scratch(
        ops,
        run.1,
        crate::sim::whole_run(clean, ops, ret, false, seq![], words).1,
    );
    assert(lockable_popped_on(run, words, env.ncpus, c));
}

} // verus!
