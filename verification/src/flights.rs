//! Calls in flight: sequences of several threads that run at the same time, one
//! operation at a time, on the same memory.
//!
//! A thread that is preempted or migrated inside its window starts over, so of
//! the sequences on one CPU at most one is past its first operation. What
//! another thread does on that CPU comes after a restart.

use vstd::prelude::*;

use crate::conservation::Call;
use crate::ir::{Op, Operand, Reg, RegionDecl, RegionId};
use crate::progs::{Freelist, NIL};
use crate::rt::{PerCpuCounter, PerCpuFreelist, MAX_CPUS};
use crate::sim::{
    AbortPoint, AttemptEnd, Effect, Outcome, RunResult, Setting, SimError, State, Words,
};

verus! {

/// What a call executes.
pub struct Code {
    pub ops: Seq<Op>,
    pub ret: Option<Operand>,
    pub params: Seq<u64>,
}

/// A call in flight: what it is for, the CPU its thread is on, the operation
/// that comes next, and its registers.
pub struct Flight<C> {
    pub call: C,
    pub cpu: usize,
    pub pc: int,
    pub regs: Map<Reg, u64>,
}

/// A call at the top of an attempt on `cpu`.
pub open spec fn at_top<C>(call: C, cpu: usize) -> Flight<C> {
    Flight { call, cpu, pc: 0, regs: Map::empty() }
}

/// What comes of one operation of a call.
pub enum Landing<C> {
    /// It goes on.
    Aloft(Flight<C>),
    /// The commit is done, and this is returned.
    Committed(Option<u64>),
    /// It left by an exit branch.
    Exited,
    Failed(SimError),
}

/// One operation of a flight, on memory that all share.
pub open spec fn flown<C>(
    decls: Seq<RegionDecl>,
    ncpus: usize,
    code: Code,
    f: Flight<C>,
    words: Words,
) -> (Landing<C>, Words) {
    let env = Setting { decls, ncpus, params: code.params, start_cpu: f.cpu };
    match crate::sim::step_effect(env, f.cpu, code.ops[f.pc], State { regs: f.regs, words }) {
        Effect::Fail(e) => (Landing::Failed(e), words),
        Effect::Exit => (Landing::Exited, words),
        Effect::Continue(s) => if f.pc + 1 < code.ops.len() {
            (Landing::Aloft(Flight { pc: f.pc + 1, regs: s.regs, ..f }), s.words)
        } else {
            match code.ret {
                None => (Landing::Committed(None), s.words),
                Some(o) => match crate::sim::operand_value(s.regs, o) {
                    Ok(v) => (Landing::Committed(Some(v)), s.words),
                    Err(e) => (Landing::Failed(e), s.words),
                },
            }
        },
    }
}

/// The rest of a flight that nobody else disturbs.
pub open spec fn flown_alone<C>(
    decls: Seq<RegionDecl>,
    ncpus: usize,
    code: Code,
    f: Flight<C>,
    words: Words,
) -> (Landing<C>, Words)
    decreases code.ops.len() - f.pc,
{
    if f.pc >= code.ops.len() {
        (Landing::Aloft(f), words)
    } else {
        match flown(decls, ncpus, code, f, words) {
            (Landing::Aloft(g), after) => flown_alone(decls, ncpus, code, g, after),
            landed => landed,
        }
    }
}

/// The result of a run on `cpu` that ends like this.
pub open spec fn result_of<C>(landing: Landing<C>, cpu: usize) -> Result<RunResult, SimError> {
    match landing {
        Landing::Committed(ret) => Ok(
            RunResult { outcome: Outcome::Committed { ret }, final_cpu: cpu },
        ),
        Landing::Failed(e) => Err(e),
        _ => Ok(RunResult { outcome: Outcome::Exited, final_cpu: cpu }),
    }
}

proof fn lemma_alone<C>(
    decls: Seq<RegionDecl>,
    ncpus: usize,
    code: Code,
    f: Flight<C>,
    words: Words,
)
    requires
        0 <= f.pc < code.ops.len(),
    ensures
        ({
            let env = Setting { decls, ncpus, params: code.params, start_cpu: f.cpu };
            let (landing, after) = flown_alone(decls, ncpus, code, f, words);
            let end = crate::sim::attempt_end(
                env,
                f.cpu,
                code.ops,
                None,
                f.pc,
                State { regs: f.regs, words },
            );
            &&& !(landing is Aloft)
            &&& match end {
                AttemptEnd::Finished(t) => after == t.words && result_of(landing, f.cpu)
                    == crate::sim::committed_result(t.regs, code.ret, f.cpu),
                AttemptEnd::Exited(w) => after == w && landing is Exited,
                AttemptEnd::Failed(e, w) => after == w && landing == Landing::<C>::Failed(e),
                AttemptEnd::Aborted(_) => false,
            }
        }),
    decreases code.ops.len() - f.pc,
{
    let env = Setting { decls, ncpus, params: code.params, start_cpu: f.cpu };
    let s = State { regs: f.regs, words };
    if let Effect::Continue(t) = crate::sim::step_effect(env, f.cpu, code.ops[f.pc], s) {
        if f.pc + 1 < code.ops.len() {
            let g = Flight { pc: f.pc + 1, regs: t.regs, ..f };
            assert(t == State { regs: t.regs, words: t.words });
            lemma_alone(decls, ncpus, code, g, t.words);
        } else {
            reveal_with_fuel(crate::sim::attempt_end, 2);
        }
    }
}

/// A flight that nobody disturbs is a clean run of the simulator: it returns
/// the same and leaves the same memory.
pub proof fn law_undisturbed_flight_is_a_run<C>(
    decls: Seq<RegionDecl>,
    ncpus: usize,
    code: Code,
    call: C,
    cpu: usize,
    words: Words,
)
    requires
        cpu < ncpus,
        code.ops.len() > 0,
    ensures
        ({
            let env = Setting { decls, ncpus, params: code.params, start_cpu: cpu };
            let (landing, after) = flown_alone(decls, ncpus, code, at_top(call, cpu), words);
            &&& !(landing is Aloft)
            &&& (result_of(landing, cpu), after) == crate::sim::whole_run(
                env,
                code.ops,
                code.ret,
                false,
                seq![],
                words,
            )
        }),
{
    let none = Seq::<AbortPoint>::empty();
    assert(crate::sim::next_stop(none) is None);
    assert(State::entry(words) == State { regs: Map::empty(), words });
    lemma_alone(decls, ncpus, code, at_top(call, cpu), words);
}

/// The flights after flight `k` has carried out an operation.
pub open spec fn flights_after<C>(flights: Seq<Flight<C>>, k: int, landing: Landing<C>) -> Seq<
    Flight<C>,
> {
    match landing {
        Landing::Aloft(f) => flights.update(k, f),
        _ => flights.remove(k),
    }
}

/// Flight `k` may carry out an operation: no other flight on its CPU is inside
/// an attempt.
pub open spec fn has_cpu<C>(flights: Seq<Flight<C>>, k: int) -> bool {
    &&& 0 <= k < flights.len()
    &&& forall|j: int|
        0 <= j < flights.len() && j != k && (#[trigger] flights[j]).cpu == flights[k].cpu
            ==> flights[j].pc == 0
}

/// Of the flights on one CPU at most one is inside an attempt.
pub open spec fn one_per_cpu<C>(flights: Seq<Flight<C>>) -> bool {
    forall|j: int, k: int|
        0 <= j < k < flights.len() && (#[trigger] flights[j]).cpu == (#[trigger] flights[k]).cpu
            ==> flights[j].pc == 0 || flights[k].pc == 0
}

/// Nothing that can happen to the flights puts two inside an attempt on one
/// CPU.
pub proof fn lemma_one_per_cpu<C>(flights: Seq<Flight<C>>, k: int, landing: Landing<C>)
    requires
        one_per_cpu(flights),
        has_cpu(flights, k),
        landing matches Landing::Aloft(f) ==> f.cpu == flights[k].cpu,
    ensures
        one_per_cpu(flights_after(flights, k, landing)),
{
    let new = flights_after(flights, k, landing);
    assert forall|i: int, j: int|
        0 <= i < j < new.len() && (#[trigger] new[i]).cpu == (#[trigger] new[j]).cpu implies (
    new[i].pc == 0 || new[j].pc == 0) by {
        if !(landing is Aloft) {
            let i0 = if i < k { i } else { i + 1 };
            let j0 = if j < k { j } else { j + 1 };
            assert(new[i] == flights[i0] && new[j] == flights[j0]);
        } else if i == k {
            assert(flights[j].pc == 0);
        } else if j == k {
            assert(flights[i].pc == 0);
        }
    }
}

/// A flight at its top can go on any CPU.
pub proof fn lemma_top_anywhere<C>(flights: Seq<Flight<C>>, k: int, f: Flight<C>)
    requires
        one_per_cpu(flights),
        0 <= k <= flights.len(),
        f.pc == 0,
    ensures
        k < flights.len() ==> one_per_cpu(flights.update(k, f)),
        one_per_cpu(flights.push(f)),
{
}

/// Where a flight that is still there stood among the flights before.
pub open spec fn stood<C>(k: int, landing: Landing<C>, j: int) -> int {
    if landing is Aloft || j < k {
        j
    } else {
        j + 1
    }
}

/// The counters, with increments in flight.
pub struct Counting {
    pub words: Words,
    pub flights: Seq<Flight<()>>,
    /// Calls that have returned.
    pub done: nat,
    /// Whether a call has failed.
    pub failed: bool,
}

/// What can happen to calls in flight.
pub enum Move<C> {
    /// A call begins on a CPU.
    Begins { call: C, cpu: usize },
    /// A call carries out its next operation.
    Flies { flight: int },
    /// A call is preempted or migrated, and starts over on some CPU.
    Restarts { flight: int, cpu: usize },
}

/// The code of the counter.
pub open spec fn counter_code() -> Code {
    Code { ops: crate::behaviour::counter_ops(), ret: None, params: seq![] }
}

pub open spec fn counting_next(
    decls: Seq<RegionDecl>,
    ncpus: usize,
    s: Counting,
    m: Move<()>,
) -> Counting {
    match m {
        Move::Begins { call, cpu } => Counting { flights: s.flights.push(at_top(call, cpu)), ..s },
        Move::Restarts { flight, cpu } => Counting {
            flights: s.flights.update(flight, at_top(s.flights[flight].call, cpu)),
            ..s
        },
        Move::Flies { flight } => {
            let (landing, words) = flown(decls, ncpus, counter_code(), s.flights[flight], s.words);
            Counting {
                words,
                flights: flights_after(s.flights, flight, landing),
                done: if landing is Committed {
                    s.done + 1
                } else {
                    s.done
                },
                failed: s.failed || landing is Failed,
            }
        },
    }
}

/// Whether a move can be made: on CPUs that exist, and by a flight that has
/// its CPU.
pub open spec fn can_fly<C>(flights: Seq<Flight<C>>, ncpus: usize, m: Move<C>) -> bool {
    match m {
        Move::Begins { cpu, .. } => cpu < ncpus,
        Move::Restarts { flight, cpu } => 0 <= flight < flights.len() && cpu < ncpus,
        Move::Flies { flight } => has_cpu(flights, flight),
    }
}

/// Where an increment can stand: what it has loaded is what its counter holds.
pub open spec fn counting_on_course(f: Flight<()>, words: Words, ncpus: usize) -> bool {
    let now = words[0][f.cpu as int];
    &&& f.cpu < ncpus
    &&& 0 <= f.pc < 4
    &&& f.pc >= 1 ==> f.regs.dom().contains(0) && f.regs[0] == f.cpu
    &&& f.pc >= 2 ==> f.regs.dom().contains(1) && f.regs[1] == now
    &&& f.pc >= 3 ==> f.regs.dom().contains(2) && f.regs[2] == now.wrapping_add(1)
}

/// What holds of the counters at every moment: besides the increments that
/// have returned nothing has been counted. `base` is the sum before the first.
pub open spec fn counting_orderly(
    decls: Seq<RegionDecl>,
    ncpus: usize,
    base: int,
    s: Counting,
) -> bool {
    &&& crate::sim::words_match(decls, ncpus as int, s.words)
    &&& crate::rt::sum_of(s.words[0], ncpus as int) == base + s.done
    &&& !s.failed
    &&& one_per_cpu(s.flights)
    &&& forall|k: int|
        0 <= k < s.flights.len() ==> counting_on_course(#[trigger] s.flights[k], s.words, ncpus)
}

/// One operation of an increment.
proof fn lemma_increment_flies(decls: Seq<RegionDecl>, ncpus: usize, f: Flight<()>, words: Words)
    requires
        crate::behaviour::counter_layout(decls, 1),
        crate::sim::words_match(decls, ncpus as int, words),
        counting_on_course(f, words, ncpus),
    ensures
        ({
            let (landing, after) = flown(decls, ncpus, counter_code(), f, words);
            match landing {
                Landing::Aloft(g) => after == words && g.cpu == f.cpu && counting_on_course(
                    g,
                    words,
                    ncpus,
                ),
                Landing::Committed(_) => f.pc == 3 && after == crate::behaviour::bumped(
                    words,
                    f.cpu as int,
                ),
                _ => false,
            }
        }),
{
    let ops = crate::behaviour::counter_ops();
    assert(ops.len() == 4);
    assert(ops[0] == Op::CpuId { dst: 0 });
    assert(words[0].len() == ncpus);
    crate::behaviour::lemma_owner(f.cpu, decls[0].words);
}

proof fn lemma_counting_next(
    decls: Seq<RegionDecl>,
    ncpus: usize,
    base: int,
    s: Counting,
    m: Move<()>,
)
    requires
        crate::behaviour::counter_layout(decls, 1),
        counting_orderly(decls, ncpus, base, s),
        can_fly(s.flights, ncpus, m),
        base + s.done < u64::MAX,
    ensures
        counting_orderly(decls, ncpus, base, counting_next(decls, ncpus, s, m)),
{
    let next = counting_next(decls, ncpus, s, m);
    assert(s.words[0].len() == ncpus);
    match m {
        Move::Begins { call, cpu } => {
            lemma_top_anywhere(s.flights, 0, at_top(call, cpu));
        },
        Move::Restarts { flight, cpu } => {
            lemma_top_anywhere(s.flights, flight, at_top(s.flights[flight].call, cpu));
        },
        Move::Flies { flight } => {
            let f = s.flights[flight];
            let (landing, after) = flown(decls, ncpus, counter_code(), f, s.words);
            lemma_increment_flies(decls, ncpus, f, s.words);
            lemma_one_per_cpu(s.flights, flight, landing);
            if landing is Committed {
                let now = s.words[0][f.cpu as int];
                crate::conservation::lemma_sum_of_update(
                    s.words[0],
                    f.cpu as int,
                    now.wrapping_add(1),
                    ncpus as int,
                );
                assert(now < u64::MAX);
            }
            assert forall|j: int| 0 <= j < next.flights.len() implies counting_on_course(
                #[trigger] next.flights[j],
                next.words,
                ncpus,
            ) by {
                let i = stood(flight, landing, j);
                assert(i != flight ==> next.flights[j] == s.flights[i]);
                assert(counting_on_course(s.flights[i], s.words, ncpus));
                if i != flight && s.flights[i].cpu == f.cpu {
                    assert(s.flights[i].pc == 0);
                }
            }
        },
    }
}

/// The counters after the moves, one after the other.
pub open spec fn counting_after(
    decls: Seq<RegionDecl>,
    ncpus: usize,
    s: Counting,
    moves: Seq<Move<()>>,
) -> Counting
    decreases moves.len(),
{
    if moves.len() == 0 {
        s
    } else {
        counting_next(
            decls,
            ncpus,
            counting_after(decls, ncpus, s, moves.drop_last()),
            moves.last(),
        )
    }
}

/// Every move can be made when it is.
pub open spec fn counting_can(
    decls: Seq<RegionDecl>,
    ncpus: usize,
    s: Counting,
    moves: Seq<Move<()>>,
) -> bool
    decreases moves.len(),
{
    moves.len() > 0 ==> {
        &&& counting_can(decls, ncpus, s, moves.drop_last())
        &&& can_fly(
            counting_after(decls, ncpus, s, moves.drop_last()).flights,
            ncpus,
            moves.last(),
        )
    }
}

/// Increments are conserved with calls in flight: however the operations and
/// restarts of any number of calls on any CPUs follow one another, the sum of
/// the counters has grown by exactly the number of calls that have returned,
/// and no call fails.
pub proof fn law_counting_in_flight(
    decls: Seq<RegionDecl>,
    ncpus: usize,
    base: int,
    s: Counting,
    moves: Seq<Move<()>>,
)
    requires
        crate::behaviour::counter_layout(decls, 1),
        counting_orderly(decls, ncpus, base, s),
        counting_can(decls, ncpus, s, moves),
        base + s.done + moves.len() <= u64::MAX,
    ensures
        counting_orderly(decls, ncpus, base, counting_after(decls, ncpus, s, moves)),
        counting_after(decls, ncpus, s, moves).done <= s.done + moves.len(),
    decreases moves.len(),
{
    if moves.len() > 0 {
        law_counting_in_flight(decls, ncpus, base, s, moves.drop_last());
        let before = counting_after(decls, ncpus, s, moves.drop_last());
        lemma_counting_next(decls, ncpus, base, before, moves.last());
    }
}

/// New counters: nothing is counted, and no call is in flight.
pub open spec fn counting_start(decls: Seq<RegionDecl>, ncpus: usize) -> Counting {
    Counting {
        words: crate::sim::fresh_words(decls, ncpus as int),
        flights: Seq::empty(),
        done: 0,
        failed: false,
    }
}

proof fn lemma_sum_of_zeros(words: Seq<u64>, n: int)
    requires
        forall|i: int| 0 <= i < n ==> #[trigger] words[i] == 0,
    ensures
        crate::rt::sum_of(words, n) == 0,
    decreases n,
{
    if n > 0 {
        lemma_sum_of_zeros(words, n - 1);
    }
}

/// New counters are in order.
pub proof fn law_counting_starts_orderly(decls: Seq<RegionDecl>, ncpus: usize)
    requires
        crate::behaviour::counter_layout(decls, 1),
    ensures
        counting_orderly(decls, ncpus, 0, counting_start(decls, ncpus)),
{
    lemma_sum_of_zeros(crate::sim::fresh_words(decls, ncpus as int)[0], ncpus as int);
}

/// What the counters add up to, for the `sum` of a counter that holds them, is
/// the number of calls that have returned since they were new.
pub proof fn law_sum_is_the_number_of_calls(
    decls: Seq<RegionDecl>,
    moves: Seq<Move<()>>,
    c: PerCpuCounter,
)
    requires
        crate::behaviour::counter_layout(decls, 1),
        counting_can(decls, MAX_CPUS, counting_start(decls, MAX_CPUS), moves),
        moves.len() <= u64::MAX,
        c@ == counting_after(decls, MAX_CPUS, counting_start(decls, MAX_CPUS), moves).words[0],
    ensures
        c.wf(),
        c.total() == counting_after(
            decls,
            MAX_CPUS,
            counting_start(decls, MAX_CPUS),
            moves,
        ).done,
        c.total() <= u64::MAX,
{
    let s = counting_start(decls, MAX_CPUS);
    law_counting_starts_orderly(decls, MAX_CPUS);
    law_counting_in_flight(decls, MAX_CPUS, 0, s, moves);
    assert(counting_after(decls, MAX_CPUS, s, moves).words[0].len() == MAX_CPUS);
}

/// The code of a call of the plain freelist.
pub open spec fn plain_code(call: Call) -> Code {
    match call {
        Call::Push { node } => Code {
            ops: Freelist::push_ops(RegionId(0), RegionId(1)),
            ret: None,
            params: seq![node],
        },
        Call::Pop => Code {
            ops: Freelist::pop_ops(RegionId(0), RegionId(1)),
            ret: Some(Operand::Reg(1)),
            params: seq![],
        },
    }
}

/// The plain freelist, with pushes and pops in flight.
pub struct Listing {
    /// Heads, nodes.
    pub words: Words,
    /// The nodes that are on lists.
    pub free: Set<int>,
    pub flights: Seq<Flight<Call>>,
    pub failed: bool,
}

/// The nodes on lists after a call has come so far: a commit of a push has
/// added its node, a commit of a pop has taken the node it returns.
pub open spec fn free_when(call: Call, landing: Landing<Call>, free: Set<int>) -> Set<int> {
    match landing {
        Landing::Committed(ret) => match call {
            Call::Push { node } => free.insert(node as usize as int),
            Call::Pop => free.remove(ret.unwrap() as usize as int),
        },
        _ => free,
    }
}

pub open spec fn listing_next(
    decls: Seq<RegionDecl>,
    ncpus: usize,
    s: Listing,
    m: Move<Call>,
) -> Listing {
    match m {
        Move::Begins { call, cpu } => Listing { flights: s.flights.push(at_top(call, cpu)), ..s },
        Move::Restarts { flight, cpu } => Listing {
            flights: s.flights.update(flight, at_top(s.flights[flight].call, cpu)),
            ..s
        },
        Move::Flies { flight } => {
            let f = s.flights[flight];
            let (landing, words) = flown(decls, ncpus, plain_code(f.call), f, s.words);
            Listing {
                words,
                free: free_when(f.call, landing, s.free),
                flights: flights_after(s.flights, flight, landing),
                failed: s.failed || landing is Failed,
            }
        },
    }
}

/// A call may begin: a push, only by the node's one owner. The node is in the
/// pool, on no list, and not being pushed already.
pub open spec fn may_begin(
    call: Call,
    nnodes: usize,
    free: Set<int>,
    flights: Seq<Flight<Call>>,
) -> bool {
    call matches Call::Push { node } ==> {
        &&& crate::conservation::may_push(node, nnodes, free)
        &&& forall|k: int|
            0 <= k < flights.len() ==> !pushes(#[trigger] flights[k], node as usize as int)
    }
}

/// The flight is a push of the node with number `u`.
pub open spec fn pushes(f: Flight<Call>, u: int) -> bool {
    f.call matches Call::Push { node } && node as usize == u
}

/// No two flights push the same node.
pub open spec fn one_owner(flights: Seq<Flight<Call>>) -> bool {
    forall|j: int, k: int|
        0 <= j < flights.len() && 0 <= k < flights.len() && j != k ==> !same_node(
            #[trigger] flights[j],
            #[trigger] flights[k],
        )
}

pub open spec fn same_node(f: Flight<Call>, g: Flight<Call>) -> bool {
    f.call matches Call::Push { node } && pushes(g, node as usize as int)
}

/// What can happen to the flights keeps every node with one owner.
pub proof fn lemma_one_owner(flights: Seq<Flight<Call>>, k: int, landing: Landing<Call>)
    requires
        one_owner(flights),
        0 <= k < flights.len(),
        landing matches Landing::Aloft(f) ==> f.call == flights[k].call,
    ensures
        one_owner(flights_after(flights, k, landing)),
{
    let new = flights_after(flights, k, landing);
    assert forall|i: int, j: int|
        0 <= i < new.len() && 0 <= j < new.len() && i != j implies !same_node(
        #[trigger] new[i],
        #[trigger] new[j],
    ) by {
        let i0 = stood(k, landing, i);
        let j0 = stood(k, landing, j);
        assert(new[i].call == flights[i0].call && new[j].call == flights[j0].call);
        assert(!same_node(flights[i0], flights[j0]));
    }
}

/// A call that may begin keeps every node with one owner, and so does one that
/// starts over.
pub proof fn lemma_owner_of_new(
    flights: Seq<Flight<Call>>,
    call: Call,
    cpu: usize,
    nnodes: usize,
    free: Set<int>,
)
    requires
        one_owner(flights),
        may_begin(call, nnodes, free, flights),
    ensures
        one_owner(flights.push(at_top(call, cpu))),
{
    let new = flights.push(at_top(call, cpu));
    assert forall|i: int, j: int|
        0 <= i < new.len() && 0 <= j < new.len() && i != j implies !same_node(
        #[trigger] new[i],
        #[trigger] new[j],
    ) by {
        if i < flights.len() && j < flights.len() {
            assert(!same_node(flights[i], flights[j]));
        } else if let Call::Push { node } = call {
            let other = if i < flights.len() { i } else { j };
            assert(!pushes(flights[other], node as usize as int));
        }
    }
}

/// Where a call of the plain freelist can stand: a head that it has loaded is
/// still the head of its CPU, and a next pointer that it has loaded or written
/// is still there.
pub open spec fn listing_on_course(
    f: Flight<Call>,
    words: Words,
    ncpus: usize,
    nnodes: usize,
    free: Set<int>,
) -> bool {
    let head = words[0][f.cpu as int];
    &&& f.cpu < ncpus
    &&& 0 <= f.pc < 5
    &&& f.pc >= 1 ==> f.regs.dom().contains(0) && f.regs[0] == f.cpu
    &&& match f.call {
        Call::Push { node } => {
            &&& crate::conservation::may_push(node, nnodes, free)
            &&& f.pc >= 2 ==> f.regs.dom().contains(1) && f.regs[1] == node
            &&& f.pc >= 3 ==> f.regs.dom().contains(2) && f.regs[2] == head
            &&& f.pc >= 4 ==> words[1][node as usize as int] == head
        },
        Call::Pop => {
            &&& f.pc >= 2 ==> f.regs.dom().contains(1) && f.regs[1] == head
            &&& f.pc >= 3 ==> head != NIL
            &&& f.pc >= 4 ==> f.regs.dom().contains(2) && f.regs[2]
                == words[1][head as usize as int]
        },
    }
}

/// What holds of the plain freelist at every moment.
pub open spec fn listing_orderly(
    decls: Seq<RegionDecl>,
    ncpus: usize,
    nnodes: usize,
    s: Listing,
) -> bool {
    &&& crate::sim::words_match(decls, ncpus as int, s.words)
    &&& crate::conservation::holds_exactly(s.words, 0, 1, ncpus, s.free)
    &&& !s.failed
    &&& one_per_cpu(s.flights)
    &&& one_owner(s.flights)
    &&& forall|k: int|
        0 <= k < s.flights.len() ==> listing_on_course(
            #[trigger] s.flights[k],
            s.words,
            ncpus,
            nnodes,
            s.free,
        )
}

/// One operation of a call of the plain freelist.
proof fn lemma_listing_flies(
    decls: Seq<RegionDecl>,
    ncpus: usize,
    nnodes: usize,
    f: Flight<Call>,
    words: Words,
    free: Set<int>,
)
    requires
        crate::behaviour::freelist_layout(decls, nnodes),
        crate::sim::words_match(decls, ncpus as int, words),
        crate::conservation::lists_end(words, 0, 1, ncpus),
        listing_on_course(f, words, ncpus, nnodes, free),
    ensures
        ({
            let (landing, after) = flown(decls, ncpus, plain_code(f.call), f, words);
            let c = f.cpu as int;
            match landing {
                Landing::Aloft(g) => {
                    &&& g.cpu == f.cpu && g.call == f.call
                    &&& listing_on_course(g, after, ncpus, nnodes, free)
                    &&& after == words || (f.call matches Call::Push { node } && after
                        == crate::behaviour::with_word(
                        words,
                        1,
                        node as usize as int,
                        words[0][c],
                    ))
                },
                Landing::Exited => after == words,
                Landing::Committed(ret) => match f.call {
                    Call::Push { node } => words[1][node as usize as int] == words[0][c] && after
                        == crate::behaviour::with_word(words, 0, c, node),
                    Call::Pop => words[0][c] != NIL && ret == Some(words[0][c]) && after
                        == crate::behaviour::with_word(
                        words,
                        0,
                        c,
                        words[1][words[0][c] as usize as int],
                    ),
                },
                Landing::Failed(_) => false,
            }
        }),
{
    assert(words[0].len() == ncpus);
    assert(words[1].len() == nnodes);
    assert(crate::behaviour::list_of(words, 0, 1, f.cpu as int) is Some);
    crate::behaviour::lemma_owner(f.cpu, decls[0].words);
    match f.call {
        Call::Push { node } => {
            assert(plain_code(f.call).params[0] == node);
            assert(Freelist::push_ops(RegionId(0), RegionId(1)).len() == 5);
        },
        Call::Pop => {
            assert(Freelist::pop_ops(RegionId(0), RegionId(1)).len() == 5);
        },
    }
}

/// The head of a list that is not empty is on that list.
pub proof fn lemma_head_is_free(words: Words, h: int, n: int, ncpus: usize, free: Set<int>, c: int)
    requires
        crate::conservation::holds_exactly(words, h, n, ncpus, free),
        0 <= c < ncpus,
        words[h][c] != NIL,
    ensures
        free.contains(words[h][c] as usize as int),
{
    assert(crate::behaviour::list_of(words, h, n, c) is Some);
    crate::rt::law_unlinking_leaves_the_rest(words[n], words[h][c]);
    let lists = crate::conservation::lists_of(words, h, n, ncpus);
    assert(lists[c][0] == words[h][c]);
    assert(crate::conservation::found(lists, words[h][c] as usize as int));
}

/// What a call does to heads (region `h`), nodes (region `n`) and the free
/// nodes: the heads of other CPUs stay, the next pointer of its own node alone
/// is written, and that before the node is free, and its own node alone becomes
/// free.
pub open spec fn disturbs_only_its_own(
    f: Flight<Call>,
    h: int,
    n: int,
    words: Words,
    free: Set<int>,
    after: Words,
    free_now: Set<int>,
) -> bool {
    &&& forall|d: int|
        0 <= d < words[h].len() && d != f.cpu ==> #[trigger] after[h][d] == words[h][d]
    &&& forall|u: int|
        0 <= u < words[n].len() && #[trigger] after[n][u] != words[n][u] ==> pushes(f, u)
            && !free.contains(u)
    &&& forall|u: int| #[trigger] free_now.contains(u) && !free.contains(u) ==> pushes(f, u)
}

/// Another call stays on course.
proof fn lemma_listing_others(
    ncpus: usize,
    nnodes: usize,
    s: Listing,
    next: Listing,
    flight: int,
    i: int,
)
    requires
        crate::conservation::holds_exactly(s.words, 0, 1, ncpus, s.free),
        s.words[0].len() == ncpus,
        s.words[1].len() == nnodes,
        one_owner(s.flights),
        has_cpu(s.flights, flight),
        0 <= i < s.flights.len(),
        i != flight,
        listing_on_course(s.flights[i], s.words, ncpus, nnodes, s.free),
        disturbs_only_its_own(s.flights[flight], 0, 1, s.words, s.free, next.words, next.free),
    ensures
        listing_on_course(s.flights[i], next.words, ncpus, nnodes, next.free),
{
    let f = s.flights[flight];
    let g = s.flights[i];
    assert(!same_node(f, g));
    if g.cpu == f.cpu {
        assert(g.pc == 0);
    }
    if g.call is Pop && g.pc >= 3 {
        lemma_head_is_free(s.words, 0, 1, ncpus, s.free, g.cpu as int);
    }
    assert(crate::behaviour::list_of(s.words, 0, 1, g.cpu as int) is Some);
    if let Call::Push { node } = g.call {
        let at = node as usize as int;
        assert(!pushes(f, at));
        assert(next.words[1][at] == s.words[1][at]);
    }
}

proof fn lemma_listing_next(
    decls: Seq<RegionDecl>,
    ncpus: usize,
    nnodes: usize,
    s: Listing,
    m: Move<Call>,
)
    requires
        crate::behaviour::freelist_layout(decls, nnodes),
        listing_orderly(decls, ncpus, nnodes, s),
        listing_can_move(ncpus, nnodes, s, m),
    ensures
        listing_orderly(decls, ncpus, nnodes, listing_next(decls, ncpus, s, m)),
{
    let next = listing_next(decls, ncpus, s, m);
    assert(s.words[0].len() == ncpus);
    assert(s.words[1].len() == nnodes);
    match m {
        Move::Begins { call, cpu } => {
            lemma_top_anywhere(s.flights, 0, at_top(call, cpu));
            lemma_owner_of_new(s.flights, call, cpu, nnodes, s.free);
        },
        Move::Restarts { flight, cpu } => {
            let top = at_top(s.flights[flight].call, cpu);
            lemma_top_anywhere(s.flights, flight, top);
            lemma_one_owner(s.flights, flight, Landing::Aloft(top));
            assert(listing_on_course(s.flights[flight], s.words, ncpus, nnodes, s.free));
        },
        Move::Flies { flight } => {
            let f = s.flights[flight];
            let c = f.cpu as int;
            let (landing, after) = flown(decls, ncpus, plain_code(f.call), f, s.words);
            assert(listing_on_course(f, s.words, ncpus, nnodes, s.free));
            lemma_listing_flies(decls, ncpus, nnodes, f, s.words, s.free);
            lemma_one_per_cpu(s.flights, flight, landing);
            lemma_one_owner(s.flights, flight, landing);
            match f.call {
                Call::Push { node } => {
                    let at = node as usize as int;
                    if landing is Committed {
                        assert(s.words[1].update(at, s.words[0][c]) =~= s.words[1]);
                        assert(crate::behaviour::with_word(s.words, 1, at, s.words[0][c])
                            =~= s.words);
                        crate::conservation::lemma_linked(s.words, 0, 1, ncpus, s.free, c, node);
                    } else {
                        crate::conservation::lemma_scribble(
                            s.words,
                            0,
                            1,
                            ncpus,
                            s.free,
                            node,
                            s.words[0][c],
                        );
                    }
                },
                Call::Pop => {
                    if landing is Committed {
                        crate::conservation::lemma_unlinked(s.words, 0, 1, ncpus, s.free, c);
                    }
                },
            }
            assert(disturbs_only_its_own(f, 0, 1, s.words, s.free, next.words, next.free));
            assert forall|j: int| 0 <= j < next.flights.len() implies listing_on_course(
                #[trigger] next.flights[j],
                next.words,
                ncpus,
                nnodes,
                next.free,
            ) by {
                let i = stood(flight, landing, j);
                if i != flight {
                    assert(next.flights[j] == s.flights[i]);
                    assert(listing_on_course(s.flights[i], s.words, ncpus, nnodes, s.free));
                    lemma_listing_others(ncpus, nnodes, s, next, flight, i);
                }
            }
        },
    }
}

/// Whether a move can be made.
pub open spec fn listing_can_move(ncpus: usize, nnodes: usize, s: Listing, m: Move<Call>) -> bool {
    &&& can_fly(s.flights, ncpus, m)
    &&& m matches Move::Begins { call, .. } ==> may_begin(call, nnodes, s.free, s.flights)
}

/// The freelist after the moves, one after the other.
pub open spec fn listing_after(
    decls: Seq<RegionDecl>,
    ncpus: usize,
    s: Listing,
    moves: Seq<Move<Call>>,
) -> Listing
    decreases moves.len(),
{
    if moves.len() == 0 {
        s
    } else {
        listing_next(
            decls,
            ncpus,
            listing_after(decls, ncpus, s, moves.drop_last()),
            moves.last(),
        )
    }
}

/// Every move can be made when it is.
pub open spec fn listing_can(
    decls: Seq<RegionDecl>,
    ncpus: usize,
    nnodes: usize,
    s: Listing,
    moves: Seq<Move<Call>>,
) -> bool
    decreases moves.len(),
{
    moves.len() > 0 ==> {
        &&& listing_can(decls, ncpus, nnodes, s, moves.drop_last())
        &&& listing_can_move(
            ncpus,
            nnodes,
            listing_after(decls, ncpus, s, moves.drop_last()),
            moves.last(),
        )
    }
}

/// Nodes are conserved with calls in flight: however the operations and
/// restarts of any number of pushes and pops on any CPUs follow one another,
/// the nodes on the lists are pairwise distinct, and exactly those that were
/// pushed and not popped since; and no call fails.
pub proof fn law_listing_in_flight(
    decls: Seq<RegionDecl>,
    ncpus: usize,
    nnodes: usize,
    s: Listing,
    moves: Seq<Move<Call>>,
)
    requires
        crate::behaviour::freelist_layout(decls, nnodes),
        listing_orderly(decls, ncpus, nnodes, s),
        listing_can(decls, ncpus, nnodes, s, moves),
    ensures
        listing_orderly(decls, ncpus, nnodes, listing_after(decls, ncpus, s, moves)),
    decreases moves.len(),
{
    if moves.len() > 0 {
        law_listing_in_flight(decls, ncpus, nnodes, s, moves.drop_last());
        let before = listing_after(decls, ncpus, s, moves.drop_last());
        lemma_listing_next(decls, ncpus, nnodes, before, moves.last());
    }
}

/// A new freelist: nothing is free, and no call is in flight.
pub open spec fn listing_start(decls: Seq<RegionDecl>, ncpus: usize) -> Listing {
    Listing {
        words: crate::sim::fresh_words(decls, ncpus as int),
        free: Set::empty(),
        flights: Seq::empty(),
        failed: false,
    }
}

/// A new freelist is in order.
pub proof fn law_listing_starts_orderly(decls: Seq<RegionDecl>, ncpus: usize, nnodes: usize)
    requires
        crate::behaviour::freelist_layout(decls, nnodes),
    ensures
        listing_orderly(decls, ncpus, nnodes, listing_start(decls, ncpus)),
{
    let words = crate::sim::fresh_words(decls, ncpus as int);
    assert forall|c: int| 0 <= c < ncpus implies #[trigger] words[0][c] == NIL by {
        assert(words[0].len() == ncpus);
    }
    crate::conservation::law_fresh_lists_hold_nothing(words, 0, 1, ncpus);
}

/// What the lists hold once the calls are done, for the `drain_all` of a
/// freelist that holds them: every list is intact, and the lists have every
/// node that was pushed and not popped, exactly once.
pub proof fn law_lists_have_every_node(
    decls: Seq<RegionDecl>,
    nnodes: usize,
    moves: Seq<Move<Call>>,
    fl: PerCpuFreelist,
    lists: Seq<Seq<u64>>,
)
    requires
        crate::behaviour::freelist_layout(decls, nnodes),
        listing_can(decls, MAX_CPUS, nnodes, listing_start(decls, MAX_CPUS), moves),
        ({
            let end = listing_after(decls, MAX_CPUS, listing_start(decls, MAX_CPUS), moves);
            fl.heads() == end.words[0] && fl.nodes() == end.words[1]
        }),
        lists.len() == fl.heads().len(),
        forall|c: int|
            0 <= c < lists.len() ==> crate::rt::list_at(fl.nodes(), fl.heads()[c]) == Some(
                #[trigger] lists[c],
            ),
    ensures
        crate::rt::all_intact(fl.heads(), fl.nodes()),
        crate::conservation::exactly_once(
            lists,
            listing_after(decls, MAX_CPUS, listing_start(decls, MAX_CPUS), moves).free,
        ),
{
    let s = listing_start(decls, MAX_CPUS);
    let end = listing_after(decls, MAX_CPUS, s, moves);
    law_listing_starts_orderly(decls, MAX_CPUS, nnodes);
    law_listing_in_flight(decls, MAX_CPUS, nnodes, s, moves);
    lemma_walked(end.words, 0, 1, MAX_CPUS, lists);
}

/// Lists that were walked one by one are the lists of all CPUs.
pub(crate) proof fn lemma_walked(
    words: Words,
    h: int,
    n: int,
    ncpus: usize,
    lists: Seq<Seq<u64>>,
)
    requires
        words[h].len() == ncpus,
        lists.len() == ncpus,
        crate::conservation::lists_end(words, h, n, ncpus),
        forall|c: int|
            0 <= c < lists.len() ==> crate::rt::list_at(words[n], words[h][c]) == Some(
                #[trigger] lists[c],
            ),
    ensures
        crate::rt::all_intact(words[h], words[n]),
        lists == crate::conservation::lists_of(words, h, n, ncpus),
{
    assert forall|c: int| 0 <= c < words[h].len() implies crate::rt::list_at(
        words[n],
        #[trigger] words[h][c],
    ) is Some by {
        assert(crate::behaviour::list_of(words, h, n, c) is Some);
    }
    assert(lists =~= crate::conservation::lists_of(words, h, n, ncpus));
}

} // verus!
