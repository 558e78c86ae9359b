//! Drains racing with calls in flight: what holds of the drainable freelist
//! however the steps of drains and the single operations of pushes and pops
//! follow one another.
//!
//! A push or pop that has seen its CPU unlocked may be anywhere in its window
//! when a drain takes the lock. It still holds a head that it loaded before,
//! and if it could go on to its commit, it would put nodes that the drain has
//! taken back on the list, or lose what was pushed. The fence rules that out:
//! it sends every call in flight back to the top, where it reads the lock
//! again.
//!
//! Memory is the same for all, and one access comes after the other.

use vstd::prelude::*;

use crate::conservation::Call;
use crate::drain::{DrainEvent, DrainState, DrainStep, DrainableFreelist};
use crate::flights::{Code, Flight, Landing, Move};
use crate::ir::{Operand, RegionDecl};
use crate::progs::NIL;
use crate::rt::MAX_CPUS;
use crate::sim::Words;

verus! {

/// A drain under way.
pub struct Visit {
    pub cpu: int,
    pub state: DrainState,
    /// The list of the CPU when the fence returned.
    pub found: Option<Seq<u64>>,
}

/// The drainable freelist in use.
pub struct Race {
    /// Locks, heads, nodes.
    pub words: Words,
    /// The nodes that are on lists.
    pub free: Set<int>,
    /// The pushes and pops that have begun and not returned.
    pub flights: Seq<Flight<Call>>,
    pub visits: Seq<Visit>,
    /// Whether a push or pop has failed.
    pub failed: bool,
}

/// What happens next.
pub enum RaceMove {
    /// A push or pop begins, carries out an operation, or starts over.
    Calls { m: Move<Call> },
    /// A drain of a CPU begins.
    DrainBegins { cpu: int },
    /// A drain carries out its next step.
    DrainAdvances { visit: int },
    /// The kernel refuses a drain its fence.
    FenceRefused { visit: int, ret: isize },
}

/// The code of a call of the lockable freelist.
pub open spec fn lockable_code(call: Call) -> Code {
    match call {
        Call::Push { node } => Code {
            ops: crate::behaviour::lockable_push_ops(),
            ret: None,
            params: seq![node],
        },
        Call::Pop => Code {
            ops: crate::behaviour::lockable_pop_ops(),
            ret: Some(Operand::Reg(2)),
            params: seq![],
        },
    }
}

/// The flights once a fence has returned: every call is at the top of an
/// attempt.
pub open spec fn fenced(flights: Seq<Flight<Call>>) -> Seq<Flight<Call>> {
    Seq::new(
        flights.len(),
        |k: int| crate::flights::at_top(flights[k].call, flights[k].cpu),
    )
}

/// A drain after its next step.
pub open spec fn visit_next(v: Visit, words: Words) -> Visit {
    let (event, _) = crate::drain::carry_out(v.state.step, words, v.cpu);
    Visit {
        cpu: v.cpu,
        state: crate::drain::drain_next(v.state, event),
        found: if event is Fenced {
            crate::behaviour::list_of(words, 1, 2, v.cpu)
        } else {
            v.found
        },
    }
}

pub open spec fn race_next(
    decls: Seq<RegionDecl>,
    ncpus: usize,
    nnodes: usize,
    s: Race,
    m: RaceMove,
) -> Race {
    match m {
        RaceMove::Calls { m: Move::Begins { call, cpu } } => Race {
            flights: s.flights.push(crate::flights::at_top(call, cpu)),
            ..s
        },
        RaceMove::Calls { m: Move::Restarts { flight, cpu } } => Race {
            flights: s.flights.update(
                flight,
                crate::flights::at_top(s.flights[flight].call, cpu),
            ),
            ..s
        },
        RaceMove::Calls { m: Move::Flies { flight } } => {
            let f = s.flights[flight];
            let (landing, words) = crate::flights::flown(
                decls,
                ncpus,
                lockable_code(f.call),
                f,
                s.words,
            );
            Race {
                words,
                free: crate::flights::free_when(f.call, landing, s.free),
                flights: crate::flights::flights_after(s.flights, flight, landing),
                visits: s.visits,
                failed: s.failed || landing is Failed,
            }
        },
        RaceMove::DrainBegins { cpu } => Race {
            visits: s.visits.push(
                Visit { cpu, state: crate::drain::drain_start(nnodes as nat), found: None },
            ),
            ..s
        },
        RaceMove::DrainAdvances { visit } => {
            let v = s.visits[visit];
            Race {
                words: crate::drain::carry_out(v.state.step, s.words, v.cpu).1,
                free: if v.state.step is ClearHead {
                    s.free.difference(crate::conservation::numbers(v.state.nodes))
                } else {
                    s.free
                },
                flights: if v.state.step is Fence {
                    fenced(s.flights)
                } else {
                    s.flights
                },
                visits: s.visits.update(visit, visit_next(v, s.words)),
                failed: s.failed,
            }
        },
        RaceMove::FenceRefused { visit, ret } => {
            let v = s.visits[visit];
            let state = crate::drain::drain_next(v.state, DrainEvent::Fenced { ret });
            Race { visits: s.visits.update(visit, Visit { state, ..v }), ..s }
        },
    }
}

/// Whether a move can be made: only owned nodes are pushed, at most one call
/// per CPU is inside an attempt, and only a drain with something left to do
/// goes on.
pub open spec fn can_move(ncpus: usize, nnodes: usize, s: Race, m: RaceMove) -> bool {
    match m {
        RaceMove::Calls { m } => {
            &&& crate::flights::can_fly(s.flights, ncpus, m)
            &&& m matches Move::Begins { call, .. } ==> crate::flights::may_begin(
                call,
                nnodes,
                s.free,
                s.flights,
            )
        },
        RaceMove::DrainBegins { cpu } => 0 <= cpu < ncpus,
        RaceMove::DrainAdvances { visit } => 0 <= visit < s.visits.len() && !(
        s.visits[visit].state.step is Done) && !(s.visits[visit].state.step is FenceFailed),
        RaceMove::FenceRefused { visit, ret } => 0 <= visit < s.visits.len()
            && s.visits[visit].state.step is Fence && ret < 0,
    }
}

/// The drain holds the lock of its CPU. One that was refused its fence keeps
/// it.
pub open spec fn holds_lock(step: DrainStep) -> bool {
    match step {
        DrainStep::Fence => true,
        DrainStep::FenceFailed { .. } => true,
        _ => owns_list(step),
    }
}

/// The drain owns the list of its CPU: it holds the lock, and the fence has
/// returned.
pub open spec fn owns_list(step: DrainStep) -> bool {
    match step {
        DrainStep::ReadHead => true,
        DrainStep::ReadNext { .. } => true,
        DrainStep::ClearHead => true,
        DrainStep::ReleaseLock => true,
        _ => false,
    }
}

/// Where a drain can stand. From the fence on, until it has emptied the list,
/// the list is the one it found: no push or pop commits to it. What it returns
/// is exactly that list, and nothing if another drain held the lock.
pub open spec fn visit_on_course(v: Visit, words: Words, ncpus: usize, nnodes: usize) -> bool {
    let list = crate::behaviour::list_of(words, 1, 2, v.cpu);
    let taken = v.state.nodes;
    &&& 0 <= v.cpu < ncpus
    &&& v.state.nnodes == nnodes
    &&& holds_lock(v.state.step) ==> words[0][v.cpu] != 0
    &&& match v.state.step {
        DrainStep::TakeLock => taken.len() == 0 && v.found is None,
        DrainStep::Fence => taken.len() == 0 && v.found is None,
        DrainStep::FenceFailed { .. } => taken.len() == 0 && v.found is None,
        DrainStep::ReadHead => taken.len() == 0 && v.found == list,
        DrainStep::ReadNext { node } => {
            &&& v.found == list
            &&& 0 < taken.len() <= list.unwrap().len()
            &&& taken == list.unwrap().take(taken.len() as int)
            &&& node == taken.last() as usize
        },
        DrainStep::ClearHead => v.found == list && Some(taken) == list,
        DrainStep::ReleaseLock => v.found == Some(taken) && list == Some(Seq::<u64>::empty()),
        DrainStep::Done => match v.found {
            Some(found) => taken == found,
            None => taken.len() == 0,
        },
        _ => false,
    }
}

/// The call has read the lock of its CPU as free.
pub open spec fn saw_unlocked(f: Flight<Call>) -> bool {
    f.pc >= 2 && f.regs[1] == 0
}

/// Where a call can stand: past the exit for a locked CPU it has seen the CPU
/// unlocked, a head that it has loaded is still the head of its CPU, and a next
/// pointer that it has loaded or written is still there.
pub open spec fn call_on_course(
    f: Flight<Call>,
    words: Words,
    ncpus: usize,
    nnodes: usize,
    free: Set<int>,
) -> bool {
    let head = words[1][f.cpu as int];
    &&& f.cpu < ncpus
    &&& 0 <= f.pc < 7
    &&& f.pc >= 1 ==> f.regs.dom().contains(0) && f.regs[0] == f.cpu
    &&& f.pc >= 2 ==> f.regs.dom().contains(1)
    &&& f.pc >= 3 ==> f.regs[1] == 0
    &&& match f.call {
        Call::Push { node } => {
            &&& crate::conservation::may_push(node, nnodes, free)
            &&& f.pc >= 4 ==> f.regs.dom().contains(2) && f.regs[2] == node
            &&& f.pc >= 5 ==> f.regs.dom().contains(3) && f.regs[3] == head
            &&& f.pc >= 6 ==> words[2][node as usize as int] == head
        },
        Call::Pop => {
            &&& f.pc >= 4 ==> f.regs.dom().contains(2) && f.regs[2] == head
            &&& f.pc >= 5 ==> head != NIL
            &&& f.pc >= 6 ==> f.regs.dom().contains(3) && f.regs[3]
                == words[2][head as usize as int]
        },
    }
}

/// The pushes and pops at every moment.
pub open spec fn calls_orderly(ncpus: usize, nnodes: usize, s: Race) -> bool {
    &&& crate::flights::one_per_cpu(s.flights)
    &&& crate::flights::one_owner(s.flights)
    &&& forall|k: int|
        0 <= k < s.flights.len() ==> call_on_course(
            #[trigger] s.flights[k],
            s.words,
            ncpus,
            nnodes,
            s.free,
        )
}

/// The drains at every moment.
pub open spec fn drains_orderly(ncpus: usize, nnodes: usize, s: Race) -> bool {
    &&& forall|k: int|
        0 <= k < s.visits.len() ==> visit_on_course(
            #[trigger] s.visits[k],
            s.words,
            ncpus,
            nnodes,
        )
    &&& forall|j: int, k: int|
        0 <= j < k < s.visits.len() && holds_lock((#[trigger] s.visits[j]).state.step)
            && holds_lock((#[trigger] s.visits[k]).state.step) ==> s.visits[j].cpu
            != s.visits[k].cpu
}

/// No call on a CPU whose list a drain owns has seen that CPU unlocked.
pub open spec fn drains_undisturbed(s: Race) -> bool {
    forall|j: int, k: int|
        0 <= j < s.flights.len() && 0 <= k < s.visits.len() && owns_list(
            (#[trigger] s.visits[k]).state.step,
        ) && (#[trigger] s.flights[j]).cpu == s.visits[k].cpu ==> !saw_unlocked(s.flights[j])
}

/// What holds of the drainable freelist at every moment.
pub open spec fn race_orderly(
    decls: Seq<RegionDecl>,
    ncpus: usize,
    nnodes: usize,
    s: Race,
) -> bool {
    &&& crate::sim::words_match(decls, ncpus as int, s.words)
    &&& crate::conservation::holds_exactly(s.words, 1, 2, ncpus, s.free)
    &&& !s.failed
    &&& calls_orderly(ncpus, nnodes, s)
    &&& drains_orderly(ncpus, nnodes, s)
    &&& drains_undisturbed(s)
}

/// One operation of a push or pop.
proof fn lemma_call_flies(
    decls: Seq<RegionDecl>,
    ncpus: usize,
    nnodes: usize,
    f: Flight<Call>,
    words: Words,
    free: Set<int>,
)
    requires
        crate::behaviour::lockable_layout(decls, nnodes),
        crate::sim::words_match(decls, ncpus as int, words),
        crate::conservation::lists_end(words, 1, 2, ncpus),
        call_on_course(f, words, ncpus, nnodes, free),
    ensures
        ({
            let (landing, after) = crate::flights::flown(
                decls,
                ncpus,
                lockable_code(f.call),
                f,
                words,
            );
            let c = f.cpu as int;
            match landing {
                Landing::Aloft(g) => {
                    &&& g.cpu == f.cpu && g.call == f.call
                    &&& call_on_course(g, after, ncpus, nnodes, free)
                    &&& saw_unlocked(g) ==> saw_unlocked(f) || words[0][c] == 0
                    &&& after == words || (f.call matches Call::Push { node } && after
                        == crate::behaviour::with_word(
                        words,
                        2,
                        node as usize as int,
                        words[1][c],
                    ))
                },
                Landing::Exited => after == words,
                Landing::Committed(ret) => {
                    &&& saw_unlocked(f)
                    &&& match f.call {
                        Call::Push { node } => words[2][node as usize as int] == words[1][c]
                            && after == crate::behaviour::with_word(words, 1, c, node),
                        Call::Pop => words[1][c] != NIL && ret == Some(words[1][c]) && after
                            == crate::behaviour::with_word(
                            words,
                            1,
                            c,
                            words[2][words[1][c] as usize as int],
                        ),
                    }
                },
                Landing::Failed(_) => false,
            }
        }),
{
    assert(words[0].len() == ncpus);
    assert(words[1].len() == ncpus);
    assert(words[2].len() == nnodes);
    assert(crate::behaviour::list_of(words, 1, 2, f.cpu as int) is Some);
    crate::behaviour::lemma_owner(f.cpu, decls[0].words);
    crate::behaviour::lemma_owner(f.cpu, decls[1].words);
    match f.call {
        Call::Push { node } => {
            assert(lockable_code(f.call).params[0] == node);
            assert(crate::behaviour::lockable_push_ops().len() == 7);
        },
        Call::Pop => {
            assert(crate::behaviour::lockable_pop_ops().len() == 7);
        },
    }
}

/// The other calls stay on course when one carries out an operation.
proof fn lemma_other_calls(
    ncpus: usize,
    nnodes: usize,
    s: Race,
    next: Race,
    flight: int,
    i: int,
)
    requires
        crate::conservation::holds_exactly(s.words, 1, 2, ncpus, s.free),
        s.words[1].len() == ncpus,
        s.words[2].len() == nnodes,
        crate::flights::one_owner(s.flights),
        crate::flights::has_cpu(s.flights, flight),
        0 <= i < s.flights.len(),
        i != flight,
        call_on_course(s.flights[i], s.words, ncpus, nnodes, s.free),
        crate::flights::disturbs_only_its_own(
            s.flights[flight],
            1,
            2,
            s.words,
            s.free,
            next.words,
            next.free,
        ),
    ensures
        call_on_course(s.flights[i], next.words, ncpus, nnodes, next.free),
{
    let f = s.flights[flight];
    let g = s.flights[i];
    assert(!crate::flights::same_node(f, g));
    if g.cpu == f.cpu {
        assert(g.pc == 0);
    }
    if g.call is Pop && g.pc >= 5 {
        crate::flights::lemma_head_is_free(s.words, 1, 2, ncpus, s.free, g.cpu as int);
    }
    assert(crate::behaviour::list_of(s.words, 1, 2, g.cpu as int) is Some);
    if let Call::Push { node } = g.call {
        let at = node as usize as int;
        assert(!crate::flights::pushes(f, at));
        assert(next.words[2][at] == s.words[2][at]);
    }
}

/// A drain stays on course if its lock stays set and, unless it does not own
/// the list, the list stays.
proof fn lemma_visit_stays(v: Visit, a: Words, b: Words, ncpus: usize, nnodes: usize)
    requires
        visit_on_course(v, a, ncpus, nnodes),
        holds_lock(v.state.step) ==> b[0][v.cpu] != 0,
        owns_list(v.state.step) ==> crate::behaviour::list_of(b, 1, 2, v.cpu)
            == crate::behaviour::list_of(a, 1, 2, v.cpu),
    ensures
        visit_on_course(v, b, ncpus, nnodes),
{
}

/// One operation of a push or pop among the others and the drains.
proof fn lemma_flies(decls: Seq<RegionDecl>, ncpus: usize, nnodes: usize, s: Race, flight: int)
    requires
        crate::behaviour::lockable_layout(decls, nnodes),
        race_orderly(decls, ncpus, nnodes, s),
        crate::flights::has_cpu(s.flights, flight),
    ensures
        race_orderly(
            decls,
            ncpus,
            nnodes,
            race_next(
                decls,
                ncpus,
                nnodes,
                s,
                RaceMove::Calls { m: Move::Flies { flight } },
            ),
        ),
{
    let next = race_next(
        decls,
        ncpus,
        nnodes,
        s,
        RaceMove::Calls { m: Move::Flies { flight } },
    );
    let f = s.flights[flight];
    let c = f.cpu as int;
    let (landing, after) = crate::flights::flown(
        decls,
        ncpus,
        lockable_code(f.call),
        f,
        s.words,
    );
    assert(s.words[0].len() == ncpus);
    assert(s.words[1].len() == ncpus);
    assert(s.words[2].len() == nnodes);
    assert(call_on_course(f, s.words, ncpus, nnodes, s.free));
    lemma_call_flies(decls, ncpus, nnodes, f, s.words, s.free);
    crate::flights::lemma_one_per_cpu(s.flights, flight, landing);
    crate::flights::lemma_one_owner(s.flights, flight, landing);
    match f.call {
        Call::Push { node } => {
            let at = node as usize as int;
            if landing is Committed {
                assert(s.words[2].update(at, s.words[1][c]) =~= s.words[2]);
                assert(crate::behaviour::with_word(s.words, 2, at, s.words[1][c]) =~= s.words);
                crate::conservation::lemma_linked(s.words, 1, 2, ncpus, s.free, c, node);
            } else {
                crate::conservation::lemma_scribble(
                    s.words,
                    1,
                    2,
                    ncpus,
                    s.free,
                    node,
                    s.words[1][c],
                );
            }
        },
        Call::Pop => {
            if landing is Committed {
                crate::conservation::lemma_unlinked(s.words, 1, 2, ncpus, s.free, c);
            }
        },
    }
    assert(crate::flights::disturbs_only_its_own(
        f,
        1,
        2,
        s.words,
        s.free,
        next.words,
        next.free,
    ));
    assert forall|j: int| 0 <= j < next.flights.len() implies call_on_course(
        #[trigger] next.flights[j],
        next.words,
        ncpus,
        nnodes,
        next.free,
    ) by {
        let i = crate::flights::stood(flight, landing, j);
        if i != flight {
            assert(next.flights[j] == s.flights[i]);
            assert(call_on_course(s.flights[i], s.words, ncpus, nnodes, s.free));
            lemma_other_calls(ncpus, nnodes, s, next, flight, i);
        }
    }
    assert(next.words[0] == s.words[0]);
    assert forall|k: int| 0 <= k < next.visits.len() implies visit_on_course(
        #[trigger] next.visits[k],
        next.words,
        ncpus,
        nnodes,
    ) by {
        let v = s.visits[k];
        assert(visit_on_course(v, s.words, ncpus, nnodes));
        if owns_list(v.state.step) && landing is Committed {
            assert(v.cpu != c);
        }
        lemma_visit_stays(v, s.words, next.words, ncpus, nnodes);
    }
    assert forall|j: int, k: int|
        0 <= j < next.flights.len() && 0 <= k < next.visits.len() && owns_list(
            (#[trigger] next.visits[k]).state.step,
        ) && (#[trigger] next.flights[j]).cpu == next.visits[k].cpu implies !saw_unlocked(
        next.flights[j],
    ) by {
        let i = crate::flights::stood(flight, landing, j);
        assert(visit_on_course(s.visits[k], s.words, ncpus, nnodes));
        if i != flight {
            assert(next.flights[j] == s.flights[i]);
        }
        assert(!saw_unlocked(s.flights[i]));
    }
}

/// What follows the first `j` nodes of a list: the next node, or the end.
proof fn lemma_next_in_list(nexts: Seq<u64>, head: u64, j: int)
    requires
        crate::rt::list_at(nexts, head) is Some,
        0 <= j <= crate::rt::list_at(nexts, head).unwrap().len(),
    ensures
        ({
            let list = crate::rt::list_at(nexts, head).unwrap();
            let next = if j == 0 {
                head
            } else {
                nexts[list[j - 1] as usize as int]
            };
            &&& list.len() <= nexts.len()
            &&& j < list.len() ==> next == list[j] && next != NIL && (next as usize) < nexts.len()
            &&& j == list.len() ==> next == NIL
        }),
{
    let limit = nexts.len() + 1;
    let list = crate::rt::list_at(nexts, head).unwrap();
    crate::rt::lemma_list_len(nexts, head);
    if j < list.len() {
        crate::rt::lemma_in_pool(nexts, head, limit, j);
    }
    if j > 0 {
        crate::rt::lemma_suffix(nexts, head, limit, j - 1);
        let rest = list.skip(j - 1);
        assert(rest[0] == list[j - 1]);
        let tail = crate::rt::chain(
            nexts,
            nexts[list[j - 1] as usize as int],
            (limit - (j - 1) - 1) as nat,
        );
        assert(tail is Some);
        assert(rest == seq![list[j - 1]] + tail.unwrap());
        if j < list.len() {
            assert(rest[1] == list[j]);
            assert(tail.unwrap()[0] == list[j]);
        } else {
            assert(tail.unwrap().len() == 0);
        }
    }
}

/// One step of a drain that is on course.
proof fn lemma_visit_next(v: Visit, words: Words, ncpus: usize, nnodes: usize)
    requires
        visit_on_course(v, words, ncpus, nnodes),
        !(v.state.step is Done),
        !(v.state.step is FenceFailed),
        words.len() == 3,
        words[0].len() == ncpus,
        words[1].len() == ncpus,
        words[2].len() == nnodes,
        crate::behaviour::list_of(words, 1, 2, v.cpu) is Some,
    ensures
        visit_on_course(
            visit_next(v, words),
            crate::drain::carry_out(v.state.step, words, v.cpu).1,
            ncpus,
            nnodes,
        ),
{
    let (event, after) = crate::drain::carry_out(v.state.step, words, v.cpu);
    let list = crate::behaviour::list_of(words, 1, 2, v.cpu).unwrap();
    let taken = v.state.nodes;
    let next = visit_next(v, words);
    match v.state.step {
        DrainStep::TakeLock => {
            assert(after[1] == words[1] && after[2] == words[2]);
        },
        DrainStep::ReadHead => {
            lemma_next_in_list(words[2], words[1][v.cpu], 0);
            if list.len() > 0 {
                assert(next.state.nodes =~= list.take(1));
            } else {
                assert(next.state.nodes =~= list);
            }
        },
        DrainStep::ReadNext { node } => {
            let j = taken.len() as int;
            assert(taken.last() == list[j - 1]);
            lemma_next_in_list(words[2], words[1][v.cpu], j);
            if j < list.len() {
                assert(next.state.nodes =~= list.take(j + 1));
            } else {
                assert(next.state.nodes =~= list);
            }
        },
        DrainStep::ClearHead => {
            assert(after[1][v.cpu] == NIL);
            assert(after[0] == words[0]);
        },
        _ => {},
    }
}

/// One step of a drain among the others and the calls in flight.
proof fn lemma_advances(
    decls: Seq<RegionDecl>,
    ncpus: usize,
    nnodes: usize,
    s: Race,
    visit: int,
)
    requires
        crate::behaviour::lockable_layout(decls, nnodes),
        race_orderly(decls, ncpus, nnodes, s),
        can_move(ncpus, nnodes, s, RaceMove::DrainAdvances { visit }),
    ensures
        race_orderly(
            decls,
            ncpus,
            nnodes,
            race_next(decls, ncpus, nnodes, s, RaceMove::DrainAdvances { visit }),
        ),
{
    let words = s.words;
    let next = race_next(decls, ncpus, nnodes, s, RaceMove::DrainAdvances { visit });
    let v = s.visits[visit];
    let step = v.state.step;
    assert(words[0].len() == ncpus);
    assert(words[1].len() == ncpus);
    assert(words[2].len() == nnodes);
    assert(visit_on_course(v, words, ncpus, nnodes));
    assert(crate::behaviour::list_of(words, 1, 2, v.cpu) is Some);
    lemma_visit_next(v, words, ncpus, nnodes);
    // What the step does to the lists.
    if step is ClearHead {
        crate::conservation::lemma_cleared(words, 1, 2, ncpus, s.free, v.cpu);
    } else {
        assert(next.words[1] == words[1] && next.words[2] == words[2]);
        assert forall|d: int| 0 <= d < ncpus implies #[trigger] crate::behaviour::list_of(
            next.words,
            1,
            2,
            d,
        ) == crate::behaviour::list_of(words, 1, 2, d) by {}
        assert(crate::conservation::lists_of(next.words, 1, 2, ncpus)
            =~= crate::conservation::lists_of(words, 1, 2, ncpus));
    }
    assert(crate::sim::words_match(decls, ncpus as int, next.words));
    // The calls: on a CPU whose list a drain clears none has got past the lock.
    assert forall|j: int| 0 <= j < next.flights.len() implies call_on_course(
        #[trigger] next.flights[j],
        next.words,
        ncpus,
        nnodes,
        next.free,
    ) by {
        let f = s.flights[j];
        assert(call_on_course(f, words, ncpus, nnodes, s.free));
        if step is ClearHead && f.cpu == v.cpu {
            assert(!saw_unlocked(f));
        }
    }
    if step is Fence {
        assert forall|j: int, k: int|
            0 <= j < next.flights.len() && 0 <= k < next.flights.len() && j
                != k implies !crate::flights::same_node(
            #[trigger] next.flights[j],
            #[trigger] next.flights[k],
        ) by {
            assert(!crate::flights::same_node(s.flights[j], s.flights[k]));
        }
    }
    // The other drains.
    assert forall|k: int| 0 <= k < next.visits.len() implies visit_on_course(
        #[trigger] next.visits[k],
        next.words,
        ncpus,
        nnodes,
    ) by {
        if k != visit {
            let other = s.visits[k];
            assert(visit_on_course(other, words, ncpus, nnodes));
            if holds_lock(other.state.step) {
                if holds_lock(step) {
                    assert(other.cpu != v.cpu);
                } else if step is TakeLock && words[0][v.cpu] == 0 {
                    assert(other.cpu != v.cpu);
                }
                assert(next.words[0][other.cpu] == words[0][other.cpu]);
                assert(crate::behaviour::list_of(next.words, 1, 2, other.cpu)
                    == crate::behaviour::list_of(words, 1, 2, other.cpu));
            }
            lemma_visit_stays(other, words, next.words, ncpus, nnodes);
        }
    }
    assert forall|j: int, k: int|
        0 <= j < k < next.visits.len() && holds_lock((#[trigger] next.visits[j]).state.step)
            && holds_lock((#[trigger] next.visits[k]).state.step) implies next.visits[j].cpu
        != next.visits[k].cpu by {
        let other = if j == visit { k } else { j };
        assert(visit_on_course(s.visits[other], words, ncpus, nnodes));
        assert(visit_on_course(s.visits[j], words, ncpus, nnodes));
        assert(visit_on_course(s.visits[k], words, ncpus, nnodes));
    }
    assert forall|j: int, k: int|
        0 <= j < next.flights.len() && 0 <= k < next.visits.len() && owns_list(
            (#[trigger] next.visits[k]).state.step,
        ) && (#[trigger] next.flights[j]).cpu == next.visits[k].cpu implies !saw_unlocked(
        next.flights[j],
    ) by {
        if !(step is Fence) {
            assert(next.flights[j] == s.flights[j]);
            assert(owns_list(s.visits[k].state.step));
            assert(!saw_unlocked(s.flights[j]));
        }
    }
}

/// A move that is not a step of a drain or an operation of a call.
proof fn lemma_stirs(decls: Seq<RegionDecl>, ncpus: usize, nnodes: usize, s: Race, m: RaceMove)
    requires
        race_orderly(decls, ncpus, nnodes, s),
        can_move(ncpus, nnodes, s, m),
        !(m is DrainAdvances),
        !(m matches RaceMove::Calls { m: Move::Flies { .. } }),
    ensures
        race_orderly(decls, ncpus, nnodes, race_next(decls, ncpus, nnodes, s, m)),
{
    let next = race_next(decls, ncpus, nnodes, s, m);
    match m {
        RaceMove::Calls { m: Move::Begins { call, cpu } } => {
            crate::flights::lemma_top_anywhere(s.flights, 0, crate::flights::at_top(call, cpu));
            crate::flights::lemma_owner_of_new(s.flights, call, cpu, nnodes, s.free);
        },
        RaceMove::Calls { m: Move::Restarts { flight, cpu } } => {
            let top = crate::flights::at_top(s.flights[flight].call, cpu);
            crate::flights::lemma_top_anywhere(s.flights, flight, top);
            crate::flights::lemma_one_owner(s.flights, flight, Landing::Aloft(top));
            assert(call_on_course(s.flights[flight], s.words, ncpus, nnodes, s.free));
        },
        RaceMove::FenceRefused { visit, ret } => {
            assert(visit_on_course(s.visits[visit], s.words, ncpus, nnodes));
        },
        _ => {},
    }
    assert forall|k: int| 0 <= k < next.visits.len() implies visit_on_course(
        #[trigger] next.visits[k],
        next.words,
        ncpus,
        nnodes,
    ) by {
        if k < s.visits.len() {
            assert(visit_on_course(s.visits[k], s.words, ncpus, nnodes));
        }
    }
}

/// The freelist after the moves, one after the other.
pub open spec fn race_after(
    decls: Seq<RegionDecl>,
    ncpus: usize,
    nnodes: usize,
    s: Race,
    moves: Seq<RaceMove>,
) -> Race
    decreases moves.len(),
{
    if moves.len() == 0 {
        s
    } else {
        race_next(
            decls,
            ncpus,
            nnodes,
            race_after(decls, ncpus, nnodes, s, moves.drop_last()),
            moves.last(),
        )
    }
}

/// Every move can be made when it is.
pub open spec fn all_can_move(
    decls: Seq<RegionDecl>,
    ncpus: usize,
    nnodes: usize,
    s: Race,
    moves: Seq<RaceMove>,
) -> bool
    decreases moves.len(),
{
    moves.len() > 0 ==> {
        &&& all_can_move(decls, ncpus, nnodes, s, moves.drop_last())
        &&& can_move(
            ncpus,
            nnodes,
            race_after(decls, ncpus, nnodes, s, moves.drop_last()),
            moves.last(),
        )
    }
}

/// The drainable freelist conserves its nodes, with drains racing against calls
/// in flight: however the single operations and restarts of any number of
/// pushes and pops and the steps of any number of drains follow one another,
/// the nodes on the lists are pairwise distinct and exactly those that were
/// pushed and neither popped nor drained since; from the moment the fence of a
/// drain has returned until the drain has emptied the list, no push or pop
/// commits to that CPU; what the drain returns is exactly the list that it
/// found then, in order, or nothing if another drain held the lock; and no push
/// or pop fails.
pub proof fn law_drains_race(
    decls: Seq<RegionDecl>,
    ncpus: usize,
    nnodes: usize,
    s: Race,
    moves: Seq<RaceMove>,
)
    requires
        crate::behaviour::lockable_layout(decls, nnodes),
        race_orderly(decls, ncpus, nnodes, s),
        all_can_move(decls, ncpus, nnodes, s, moves),
    ensures
        race_orderly(decls, ncpus, nnodes, race_after(decls, ncpus, nnodes, s, moves)),
    decreases moves.len(),
{
    if moves.len() > 0 {
        law_drains_race(decls, ncpus, nnodes, s, moves.drop_last());
        let before = race_after(decls, ncpus, nnodes, s, moves.drop_last());
        match moves.last() {
            RaceMove::Calls { m: Move::Flies { flight } } => lemma_flies(
                decls,
                ncpus,
                nnodes,
                before,
                flight,
            ),
            RaceMove::DrainAdvances { visit } => lemma_advances(
                decls,
                ncpus,
                nnodes,
                before,
                visit,
            ),
            _ => lemma_stirs(decls, ncpus, nnodes, before, moves.last()),
        }
    }
}

/// A new drainable freelist: nothing is free, no call is in flight, and no drain
/// is under way.
pub open spec fn race_start(decls: Seq<RegionDecl>, ncpus: usize) -> Race {
    Race {
        words: crate::sim::fresh_words(decls, ncpus as int),
        free: Set::empty(),
        flights: Seq::empty(),
        visits: Seq::empty(),
        failed: false,
    }
}

/// A new drainable freelist is in order.
pub proof fn law_race_starts_orderly(decls: Seq<RegionDecl>, ncpus: usize, nnodes: usize)
    requires
        crate::behaviour::lockable_layout(decls, nnodes),
    ensures
        race_orderly(decls, ncpus, nnodes, race_start(decls, ncpus)),
{
    let words = crate::sim::fresh_words(decls, ncpus as int);
    assert(crate::sim::words_match(decls, ncpus as int, words));
    assert forall|c: int| 0 <= c < ncpus implies #[trigger] words[1][c] == NIL by {
        assert(words[1].len() == ncpus);
    }
    crate::conservation::law_fresh_lists_hold_nothing(words, 1, 2, ncpus);
}

/// What the lists hold, for the `snapshot_all` of a freelist that holds them:
/// every list is intact, and the lists have every node that was pushed and
/// neither popped nor drained, exactly once.
pub proof fn law_snapshot_has_every_node(
    decls: Seq<RegionDecl>,
    nnodes: usize,
    moves: Seq<RaceMove>,
    fl: DrainableFreelist,
    lists: Seq<Seq<u64>>,
)
    requires
        crate::behaviour::lockable_layout(decls, nnodes),
        all_can_move(decls, MAX_CPUS, nnodes, race_start(decls, MAX_CPUS), moves),
        ({
            let end = race_after(decls, MAX_CPUS, nnodes, race_start(decls, MAX_CPUS), moves);
            fl.words()[1] == end.words[1] && fl.words()[2] == end.words[2]
        }),
        lists.len() == MAX_CPUS,
        forall|c: int|
            0 <= c < MAX_CPUS ==> crate::behaviour::list_of(fl.words(), 1, 2, c) == Some(
                #[trigger] lists[c],
            ),
    ensures
        crate::rt::all_intact(fl.words()[1], fl.words()[2]),
        crate::conservation::exactly_once(
            lists,
            race_after(decls, MAX_CPUS, nnodes, race_start(decls, MAX_CPUS), moves).free,
        ),
{
    let s = race_start(decls, MAX_CPUS);
    let end = race_after(decls, MAX_CPUS, nnodes, s, moves);
    law_race_starts_orderly(decls, MAX_CPUS, nnodes);
    law_drains_race(decls, MAX_CPUS, nnodes, s, moves);
    assert(end.words[1].len() == MAX_CPUS);
    assert forall|c: int| 0 <= c < lists.len() implies crate::rt::list_at(
        end.words[2],
        end.words[1][c],
    ) == Some(#[trigger] lists[c]) by {
        assert(crate::behaviour::list_of(fl.words(), 1, 2, c) == Some(lists[c]));
    }
    crate::flights::lemma_walked(end.words, 1, 2, MAX_CPUS, lists);
}

} // verus!
