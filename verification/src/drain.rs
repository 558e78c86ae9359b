//! Cross-CPU draining: the tcmalloc `FenceCpu` protocol on top of the
//! lockable freelist.
//!
//! The per-CPU ownership discipline means only the thread currently on CPU
//! `c` may commit to `heads[c]`, so a drainer cannot simply CAS a remote
//! head against plain rseq stores. Instead every sequence loads `locks[cpu]`
//! inside its window and exits early if set. The drainer:
//!
//! 1. takes `locks[c]` with an atomic compare-exchange (drainer vs drainer),
//! 2. fires `MEMBARRIER_CMD_PRIVATE_EXPEDITED_RSEQ`: on return, any
//!    sequence that read `locks[c] == 0` before the store has been
//!    restarted, and its retry re-reads the lock and exits (otherwise an
//!    in-flight sequence could commit a head based on pre-drain state and
//!    lose or duplicate nodes),
//! 3. now owns `heads[c]` and the nodes on its list outright: reads and
//!    rewrites them with plain accesses, then
//! 4. releases the lock.
//!
//! What is done next at every point is decided here; the atomics, the fence
//! and the memory accesses themselves are up to the caller.

use vstd::prelude::*;

use crate::codegen::{CompileError, CompiledSeq, RegionSet, EXITED};
use crate::ir::{Op, RegionDecl};
use crate::progs::{lockable_freelist, LockableFreelist, NIL};
use crate::rt::{lists_intact, walk_all, MAX_CPUS};
use crate::sim::Words;

verus! {

#[derive(Clone, Copy, Debug)]
pub enum DrainError {
    Compile(CompileError),
    /// The kernel refused `MEMBARRIER_CMD_REGISTER_PRIVATE_EXPEDITED_RSEQ`.
    MembarrierUnsupported(isize),
}

/// What to do after a call of push or pop has returned.
#[derive(Clone, Copy, PartialEq, Eq, Structural, Debug)]
pub enum Retry {
    /// Return this to the caller.
    Done(Option<u64>),
    /// Read the lock of the CPU the thread is on now.
    ReadLock,
    /// Yield, then call again.
    Again,
}

/// A push that exited found its CPU locked (push has no other exit): a drain
/// is in flight and they are short.
#[must_use]
pub fn push_returned(result: u64) -> (r: Retry)
    ensures
        r == if result != EXITED {
            Retry::Done(None)
        } else {
            Retry::Again
        },
{
    if result != EXITED {
        Retry::Done(None)
    } else {
        Retry::Again
    }
}

/// A pop that exited found its CPU locked or its list empty; the lock tells
/// which.
#[must_use]
pub fn pop_returned(result: u64) -> (r: Retry)
    ensures
        r == if result != EXITED {
            Retry::Done(Some(result))
        } else {
            Retry::ReadLock
        },
{
    if result != EXITED {
        Retry::Done(Some(result))
    } else {
        Retry::ReadLock
    }
}

/// If the CPU is not locked, the exit meant empty. (The thread may have
/// migrated between the call and the read: then the retry just goes round.)
#[must_use]
pub fn lock_read(lock: u64) -> (r: Retry)
    ensures
        r == if lock == 0 {
            Retry::Done(None)
        } else {
            Retry::Again
        },
{
    if lock == 0 {
        Retry::Done(None)
    } else {
        Retry::Again
    }
}

/// What a drain does next.
#[derive(Clone, Copy, PartialEq, Eq, Structural, Debug)]
pub enum DrainStep {
    /// Exchange `locks[cpu]` from 0 to 1, atomically.
    TakeLock,
    /// Fire the fence: after this returns, no in-flight sequence that read
    /// `locks[cpu] == 0` can still commit.
    Fence,
    /// Read `heads[cpu]`.
    ReadHead,
    /// Read `nodes[node]`.
    ReadNext { node: usize },
    /// Write the empty list to `heads[cpu]`.
    ClearHead,
    /// Write 0 to `locks[cpu]`, with release ordering.
    ReleaseLock,
    /// Nothing: the nodes are there to be taken.
    Done,
    /// The fence was refused; the drain cannot go on.
    FenceFailed { ret: isize },
    /// The list has a cycle or leaves the pool; the drain cannot go on.
    Corrupt,
}

/// What came of a step.
#[derive(Clone, Copy, PartialEq, Eq, Structural, Debug)]
pub enum DrainEvent {
    /// Whether the lock was free, and so is taken now.
    LockTried { taken: bool },
    /// What the fence returned.
    Fenced { ret: isize },
    /// The word that was read.
    Read { word: u64 },
    /// The write is done.
    Written,
}

/// Where a drain stands.
#[verifier::ext_equal]
pub struct DrainState {
    pub step: DrainStep,
    pub nodes: Seq<u64>,
    /// Size of the node pool.
    pub nnodes: nat,
}

/// Whether `event` can come of `step`.
pub open spec fn answers(step: DrainStep, event: DrainEvent) -> bool {
    match step {
        DrainStep::TakeLock => event is LockTried,
        DrainStep::Fence => event is Fenced,
        DrainStep::ReadHead => event is Read,
        DrainStep::ReadNext { .. } => event is Read,
        DrainStep::ClearHead => event is Written,
        DrainStep::ReleaseLock => event is Written,
        _ => false,
    }
}

/// The transition.
pub open spec fn drain_next(s: DrainState, event: DrainEvent) -> DrainState {
    match event {
        DrainEvent::LockTried { taken } => DrainState {
            step: if taken {
                DrainStep::Fence
            } else {
                DrainStep::Done
            },
            ..s
        },
        DrainEvent::Fenced { ret } => DrainState {
            step: if ret < 0 {
                DrainStep::FenceFailed { ret }
            } else {
                DrainStep::ReadHead
            },
            ..s
        },
        DrainEvent::Read { word } => if word == NIL {
            DrainState { step: DrainStep::ClearHead, ..s }
        } else if s.nodes.len() > s.nnodes || word as usize >= s.nnodes {
            DrainState { step: DrainStep::Corrupt, ..s }
        } else {
            DrainState {
                step: DrainStep::ReadNext { node: word as usize },
                nodes: s.nodes.push(word),
                nnodes: s.nnodes,
            }
        },
        DrainEvent::Written => DrainState {
            step: if s.step is ClearHead {
                DrainStep::ReleaseLock
            } else {
                DrainStep::Done
            },
            ..s
        },
    }
}

/// A drain of one CPU's list, in progress.
#[derive(Debug)]
pub struct Drain {
    cpu: usize,
    nnodes: usize,
    nodes: Vec<u64>,
    step: DrainStep,
}

impl View for Drain {
    type V = DrainState;

    closed spec fn view(&self) -> DrainState {
        DrainState { step: self.step, nodes: self.nodes@, nnodes: self.nnodes as nat }
    }
}

/// The state that a drain starts in.
pub open spec fn drain_start(nnodes: nat) -> DrainState {
    DrainState { step: DrainStep::TakeLock, nodes: Seq::empty(), nnodes }
}

impl Drain {
    /// The CPU whose list is drained.
    pub closed spec fn on(self) -> usize {
        self.cpu
    }

    /// The CPU whose list is drained.
    #[must_use]
    pub fn cpu(&self) -> (cpu: usize)
        ensures
            cpu == self.on(),
    {
        self.cpu
    }

    /// What is to be done now.
    #[must_use]
    pub fn step(&self) -> (step: DrainStep)
        ensures
            step == self@.step,
    {
        self.step
    }

    /// Tell the drain what came of the step, and get the next one.
    pub fn advance(&mut self, event: DrainEvent) -> (step: DrainStep)
        requires
            answers(old(self)@.step, event),
        ensures
            final(self)@ == drain_next(old(self)@, event),
            final(self).on() == old(self).on(),
            step == final(self)@.step,
    {
        match event {
            DrainEvent::LockTried { taken } => {
                self.step = if taken {
                    DrainStep::Fence
                } else {
                    DrainStep::Done
                };
            },
            DrainEvent::Fenced { ret } => {
                self.step = if ret < 0 {
                    DrainStep::FenceFailed { ret }
                } else {
                    DrainStep::ReadHead
                };
            },
            DrainEvent::Read { word } => {
                if word == NIL {
                    self.step = DrainStep::ClearHead;
                } else if self.nodes.len() > self.nnodes || word as usize >= self.nnodes {
                    self.step = DrainStep::Corrupt;
                } else {
                    self.nodes.push(word);
                    self.step = DrainStep::ReadNext { node: word as usize };
                }
            },
            DrainEvent::Written => {
                self.step = match self.step {
                    DrainStep::ClearHead => DrainStep::ReleaseLock,
                    _ => DrainStep::Done,
                };
            },
        }
        self.step
    }

    /// The nodes that the drain has taken.
    #[must_use]
    pub fn into_nodes(self) -> (nodes: Vec<u64>)
        ensures
            nodes@ == self@.nodes,
    {
        self.nodes
    }
}

/// A per-CPU freelist supporting cross-CPU draining: the compiled sequences,
/// and the regions as they are at rest.
pub struct DrainableFreelist {
    rs: RegionSet,
    push: CompiledSeq,
    pop: CompiledSeq,
    fl: LockableFreelist,
}

impl DrainableFreelist {
    /// The contents of the regions: locks, heads, nodes.
    pub closed spec fn words(self) -> Words {
        self.rs@
    }

    /// The declarations of the regions.
    pub closed spec fn decls(self) -> Seq<RegionDecl> {
        self.rs.decls()
    }

    /// Size of the node pool.
    pub closed spec fn pool(self) -> usize {
        self.fl.nnodes
    }

    /// The push sequence.
    pub closed spec fn push_seq(self) -> CompiledSeq {
        self.push
    }

    /// The pop sequence.
    pub closed spec fn pop_seq(self) -> CompiledSeq {
        self.pop
    }

    /// Regions and sequences are those of the lockable freelist.
    pub closed spec fn wf(self) -> bool {
        &&& self.rs.wf()
        &&& crate::behaviour::lockable_layout(self.rs.decls(), self.fl.nnodes)
        &&& self.fl.locks.0 == 0
        &&& self.fl.heads.0 == 1
        &&& self.fl.nodes.0 == 2
        &&& compiled_as(self.push, crate::behaviour::lockable_push_ops(), None, 1)
        &&& compiled_as(
            self.pop,
            crate::behaviour::lockable_pop_ops(),
            Some(crate::ir::Operand::Reg(2)),
            0,
        )
    }

    /// `registered` is what the kernel answered to the registration for the
    /// fence.
    ///
    /// # Errors
    ///
    /// Fails if the rseq membarrier is unavailable on this kernel. The
    /// sequences always compile.
    pub fn new(nnodes: usize, registered: isize) -> (res: Result<Self, DrainError>)
        ensures
            if registered < 0 {
                res matches Err(DrainError::MembarrierUnsupported(ret)) && ret == registered
            } else {
                &&& res matches Ok(d)
                &&& d.wf()
                &&& d.pool() == nnodes
                &&& crate::behaviour::lockable_layout(d.decls(), nnodes)
                &&& compiled_as(
                    d.push_seq(),
                    crate::behaviour::lockable_push_ops(),
                    None,
                    1,
                )
                &&& compiled_as(
                    d.pop_seq(),
                    crate::behaviour::lockable_pop_ops(),
                    Some(crate::ir::Operand::Reg(2)),
                    0,
                )
                &&& d.words() == seq![
                    Seq::new(MAX_CPUS as nat, |c: int| 0u64),
                    Seq::new(MAX_CPUS as nat, |c: int| NIL),
                    Seq::new(nnodes as nat, |i: int| NIL),
                ]
            },
    {
        if registered < 0 {
            return Err(DrainError::MembarrierUnsupported(registered));
        }
        let fl = lockable_freelist(nnodes);
        proof {
            lemma_small_regs();
            crate::behaviour::law_lockable_freelist_is_sound(fl.layout@, nnodes);
            crate::ir::law_accepted_is_well_shaped(
                fl.layout@,
                crate::behaviour::lockable_push_ops(),
                None,
            );
            crate::ir::law_accepted_is_well_shaped(
                fl.layout@,
                crate::behaviour::lockable_pop_ops(),
                Some(crate::ir::Operand::Reg(2)),
            );
            reveal_with_fuel(crate::codegen::params_needed, 8);
        }
        let push_prog = fl.push();
        assert(push_prog.regs_fit());
        let push = match CompiledSeq::compile(&push_prog, &fl.layout) {
            Ok(seq) => seq,
            Err(e) => return Err(DrainError::Compile(e)),
        };
        let pop_prog = fl.pop();
        assert(pop_prog.regs_fit());
        let pop = match CompiledSeq::compile(&pop_prog, &fl.layout) {
            Ok(seq) => seq,
            Err(e) => return Err(DrainError::Compile(e)),
        };
        let rs = RegionSet::new(&fl.layout);
        let d = DrainableFreelist { rs, push, pop, fl };
        assert(d.words() =~~= seq![
            Seq::new(MAX_CPUS as nat, |c: int| 0u64),
            Seq::new(MAX_CPUS as nat, |c: int| NIL),
            Seq::new(nnodes as nat, |i: int| NIL),
        ]);
        Ok(d)
    }

    /// The compiled push.
    #[must_use]
    pub fn push_code(&self) -> (seq: &CompiledSeq)
        ensures
            *seq == self.push_seq(),
    {
        &self.push
    }

    /// The compiled pop.
    #[must_use]
    pub fn pop_code(&self) -> (seq: &CompiledSeq)
        ensures
            *seq == self.pop_seq(),
    {
        &self.pop
    }

    /// The regions, for a live set to start from.
    #[must_use]
    pub fn regions(&self) -> (rs: &RegionSet)
        ensures
            rs@ == self.words(),
            rs.decls() == self.decls(),
            self.wf() ==> rs.wf(),
    {
        &self.rs
    }

    /// Whether `node` is a node of the pool.
    #[must_use]
    pub fn in_range(&self, node: u64) -> (b: bool)
        ensures
            b == ((node as usize) < self.pool()),
    {
        (node as usize) < self.fl.nnodes
    }

    /// Begin to take every node that is on `cpu`'s list.
    #[must_use]
    pub fn drain(&self, cpu: usize) -> (d: Drain)
        requires
            cpu < MAX_CPUS,
        ensures
            d@ == drain_start(self.pool() as nat),
            d.on() == cpu,
    {
        let d = Drain {
            cpu,
            nnodes: self.fl.nnodes,
            nodes: Vec::new(),
            step: DrainStep::TakeLock,
        };
        assert(d@ =~= drain_start(self.pool() as nat));
        d
    }

    /// Take over the heads and nodes of a live set at rest.
    pub fn settle(&mut self, heads: &[u64], nodes: &[u64])
        requires
            old(self).wf(),
            heads@.len() == MAX_CPUS,
            nodes@.len() == old(self).pool(),
        ensures
            final(self).wf(),
            final(self).pool() == old(self).pool(),
            final(self).decls() == old(self).decls(),
            final(self).push_seq() == old(self).push_seq(),
            final(self).pop_seq() == old(self).pop_seq(),
            final(self).words() == old(self).words().update(1, heads@).update(2, nodes@),
    {
        self.rs.fill(self.fl.heads, heads);
        self.rs.fill(self.fl.nodes, nodes);
    }

    /// Whether every list ends, and stays within the pool.
    #[must_use]
    pub fn is_intact(&self) -> (b: bool)
        requires
            self.wf(),
        ensures
            b == crate::rt::all_intact(self.words()[1], self.words()[2]),
    {
        lists_intact(self.rs.region(self.fl.heads), self.rs.region(self.fl.nodes))
    }

    /// Walk every CPU's list. `&mut self` guarantees quiescence.
    pub fn snapshot_all(&mut self) -> (lists: Vec<Vec<u64>>)
        requires
            old(self).wf(),
            crate::rt::all_intact(old(self).words()[1], old(self).words()[2]),
        ensures
            *final(self) == *old(self),
            lists@.len() == MAX_CPUS,
            forall|c: int|
                0 <= c < MAX_CPUS ==> crate::behaviour::list_of(old(self).words(), 1, 2, c) == Some(
                    #[trigger] lists@[c]@,
                ),
    {
        let heads = self.rs.region(self.fl.heads);
        let nodes = self.rs.region(self.fl.nodes);
        assert(self.words()[1].len() == MAX_CPUS);
        walk_all(heads, nodes)
    }
}

/// Carry out one step of a drain of `cpu` on memory that nobody else touches,
/// with a fence that works.
pub open spec fn carry_out(step: DrainStep, words: Words, cpu: int) -> (DrainEvent, Words) {
    match step {
        DrainStep::TakeLock => if words[0][cpu] == 0 {
            (
                DrainEvent::LockTried { taken: true },
                crate::behaviour::with_word(words, 0, cpu, 1),
            )
        } else {
            (DrainEvent::LockTried { taken: false }, words)
        },
        DrainStep::Fence => (DrainEvent::Fenced { ret: 0 }, words),
        DrainStep::ReadHead => (DrainEvent::Read { word: words[1][cpu] }, words),
        DrainStep::ReadNext { node } => (DrainEvent::Read { word: words[2][node as int] }, words),
        DrainStep::ClearHead => (
            DrainEvent::Written,
            crate::behaviour::with_word(words, 1, cpu, NIL),
        ),
        _ => (DrainEvent::Written, crate::behaviour::with_word(words, 0, cpu, 0)),
    }
}

/// Carry out `n` steps, or as many as there are.
pub open spec fn carried_out(s: DrainState, words: Words, cpu: int, n: nat) -> (DrainState, Words)
    decreases n,
{
    if n == 0 || s.step is Done || s.step is FenceFailed || s.step is Corrupt {
        (s, words)
    } else {
        let (event, after) = carry_out(s.step, words, cpu);
        carried_out(drain_next(s, event), after, cpu, (n - 1) as nat)
    }
}

/// The walk over a list collects it.
proof fn lemma_walk_collects(
    s: DrainState,
    words: Words,
    cpu: int,
    cur: u64,
    limit: nat,
    n: nat,
)
    requires
        words.len() == 3,
        s.nnodes == words[2].len(),
        s.step is ReadHead || s.step is ReadNext,
        carry_out(s.step, words, cpu) == (DrainEvent::Read { word: cur }, words),
        limit + s.nodes.len() == s.nnodes + 1,
        crate::rt::chain(words[2], cur, limit) is Some,
        n == crate::rt::chain(words[2], cur, limit).unwrap().len() + 1,
    ensures
        carried_out(s, words, cpu, n) == (
            (DrainState {
                step: DrainStep::ClearHead,
                nodes: s.nodes + crate::rt::chain(words[2], cur, limit).unwrap(),
                nnodes: s.nnodes,
            }),
            words,
        ),
    decreases limit,
{
    let list = crate::rt::chain(words[2], cur, limit).unwrap();
    let next = drain_next(s, DrainEvent::Read { word: cur });
    if cur == NIL {
        assert(s.nodes + list =~= s.nodes);
        assert(carried_out(next, words, cpu, 0) == (next, words));
    } else {
        let follow = words[2][cur as usize as int];
        let rest = crate::rt::chain(words[2], follow, (limit - 1) as nat).unwrap();
        assert(list.len() == rest.len() + 1);
        lemma_walk_collects(next, words, cpu, follow, (limit - 1) as nat, (n - 1) as nat);
        assert(next.nodes + rest =~= s.nodes + list);
    }
}

/// Two runs of steps in a row.
proof fn lemma_carried_further(s: DrainState, words: Words, cpu: int, n: nat, k: nat)
    ensures
        ({
            let (mid, between) = carried_out(s, words, cpu, n);
            carried_out(s, words, cpu, n + k) == carried_out(mid, between, cpu, k)
        }),
    decreases n,
{
    if n > 0 && !(s.step is Done || s.step is FenceFailed || s.step is Corrupt) {
        let (event, after) = carry_out(s.step, words, cpu);
        lemma_carried_further(drain_next(s, event), after, cpu, (n - 1) as nat, k);
    }
}

/// A drain of an unlocked CPU takes exactly the nodes of its list, in order,
/// and leaves the list empty and the lock free; every other word of memory is
/// as it was.
pub proof fn law_drain_takes_the_list(words: Words, cpu: int)
    requires
        words.len() == 3,
        0 <= cpu < words[0].len(),
        cpu < words[1].len(),
        words[0][cpu] == 0,
        crate::behaviour::list_of(words, 1, 2, cpu) is Some,
    ensures
        ({
            let list = crate::behaviour::list_of(words, 1, 2, cpu).unwrap();
            let (s, new) = carried_out(
                drain_start(words[2].len()),
                words,
                cpu,
                list.len() + 5,
            );
            &&& s.step is Done
            &&& s.nodes == list
            &&& new == crate::behaviour::with_word(words, 1, cpu, NIL)
            &&& crate::behaviour::list_of(new, 1, 2, cpu) == Some(Seq::<u64>::empty())
        }),
{
    let list = crate::behaviour::list_of(words, 1, 2, cpu).unwrap();
    let start = drain_start(words[2].len());
    let locked = crate::behaviour::with_word(words, 0, cpu, 1);
    let fenced = drain_next(start, DrainEvent::LockTried { taken: true });
    let reading = drain_next(fenced, DrainEvent::Fenced { ret: 0 });
    reveal_with_fuel(carried_out, 3);
    assert(carried_out(start, words, cpu, 2) == (reading, locked));
    lemma_walk_collects(
        reading,
        locked,
        cpu,
        words[1][cpu],
        words[2].len() + 1,
        list.len() + 1,
    );
    lemma_carried_further(start, words, cpu, 2, list.len() + 1);
    let (clearing, mid) = carried_out(start, words, cpu, list.len() + 3);
    assert(clearing.nodes =~= list);
    let cleared = crate::behaviour::with_word(locked, 1, cpu, NIL);
    let freed = crate::behaviour::with_word(cleared, 0, cpu, 0);
    let releasing = drain_next(clearing, DrainEvent::Written);
    let done = drain_next(releasing, DrainEvent::Written);
    assert(carried_out(clearing, mid, cpu, 2) == (done, freed));
    lemma_carried_further(start, words, cpu, list.len() + 3, 2);
    let new = crate::behaviour::with_word(words, 1, cpu, NIL);
    assert(freed[0] =~= words[0]);
    assert(freed =~= new);
}

/// The drain goes on to the list only if the fence was not refused; otherwise
/// it ends there, with what the fence returned and without having taken
/// anything more.
pub proof fn law_refused_fence_ends_the_drain(s: DrainState, ret: isize)
    ensures
        ({
            let next = drain_next(s, DrainEvent::Fenced { ret });
            &&& ret >= 0 <==> next.step is ReadHead
            &&& ret < 0 <==> next.step == (DrainStep::FenceFailed { ret })
            &&& next.nodes == s.nodes
        }),
{
}

proof fn lemma_walk_notices(
    s: DrainState,
    words: Words,
    cpu: int,
    cur: u64,
    limit: nat,
    n: nat,
)
    requires
        words.len() == 3,
        s.nnodes == words[2].len(),
        s.step is ReadHead || s.step is ReadNext,
        carry_out(s.step, words, cpu) == (DrainEvent::Read { word: cur }, words),
        limit + s.nodes.len() == s.nnodes + 1,
        crate::rt::chain(words[2], cur, limit) is None,
        n > limit,
    ensures
        carried_out(s, words, cpu, n).0.step is Corrupt,
        carried_out(s, words, cpu, n).1 == words,
    decreases limit,
{
    let next = drain_next(s, DrainEvent::Read { word: cur });
    if next.step is Corrupt {
        reveal_with_fuel(carried_out, 2);
    } else {
        let follow = words[2][cur as usize as int];
        lemma_walk_notices(next, words, cpu, follow, (limit - 1) as nat, (n - 1) as nat);
    }
}

/// Where the pointers leave the pool or go round in a circle there is no list
/// to take. The drain notices, and neither empties the list nor lets go of the
/// lock.
pub proof fn law_drain_notices_a_broken_list(words: Words, cpu: int)
    requires
        words.len() == 3,
        0 <= cpu < words[0].len(),
        cpu < words[1].len(),
        words[0][cpu] == 0,
        crate::behaviour::list_of(words, 1, 2, cpu) is None,
    ensures
        ({
            let (s, new) = carried_out(
                drain_start(words[2].len()),
                words,
                cpu,
                words[2].len() + 4,
            );
            &&& s.step is Corrupt
            &&& new == crate::behaviour::with_word(words, 0, cpu, 1)
        }),
{
    let start = drain_start(words[2].len());
    let locked = crate::behaviour::with_word(words, 0, cpu, 1);
    let fenced = drain_next(start, DrainEvent::LockTried { taken: true });
    let reading = drain_next(fenced, DrainEvent::Fenced { ret: 0 });
    reveal_with_fuel(carried_out, 3);
    assert(carried_out(start, words, cpu, 2) == (reading, locked));
    lemma_walk_notices(
        reading,
        locked,
        cpu,
        words[1][cpu],
        words[2].len() + 1,
        words[2].len() + 2,
    );
    lemma_carried_further(start, words, cpu, 2, words[2].len() + 2);
}

/// A drain of a CPU that another drainer holds takes nothing and touches
/// nothing.
pub proof fn law_drain_of_a_locked_cpu(words: Words, cpu: int, n: nat)
    requires
        words[0][cpu] != 0,
        n > 0,
    ensures
        ({
            let (s, new) = carried_out(drain_start(words[2].len()), words, cpu, n);
            s.step is Done && s.nodes.len() == 0 && new == words
        }),
{
    reveal_with_fuel(carried_out, 3);
}

/// A step of a drain touches nothing of another CPU: neither its lock nor its
/// list.
pub proof fn law_drain_leaves_other_cpus(step: DrainStep, words: Words, cpu: int, other: int)
    requires
        words.len() == 3,
        0 <= cpu < words[0].len(),
        cpu < words[1].len(),
        0 <= other < words[0].len(),
        other < words[1].len(),
        other != cpu,
    ensures
        carry_out(step, words, cpu).1[0][other] == words[0][other],
        crate::behaviour::list_of(carry_out(step, words, cpu).1, 1, 2, other)
            == crate::behaviour::list_of(words, 1, 2, other),
{
}

/// The CPUs below `n` drained one after the other, with enough steps for each:
/// what each drain takes, and memory after the last.
pub open spec fn drain_each(words: Words, n: int) -> (Seq<Seq<u64>>, Words)
    decreases n,
{
    if n <= 0 {
        (seq![], words)
    } else {
        let (taken, before) = drain_each(words, n - 1);
        let (s, after) = carried_out(
            drain_start(before[2].len()),
            before,
            n - 1,
            before[2].len() + 5,
        );
        (taken.push(s.nodes), after)
    }
}

proof fn lemma_drain_each(words: Words, ncpus: usize, n: int)
    requires
        words.len() == 3,
        words[0].len() == ncpus,
        words[1].len() == ncpus,
        0 <= n <= ncpus,
        forall|c: int| 0 <= c < ncpus ==> #[trigger] words[0][c] == 0,
        crate::conservation::lists_end(words, 1, 2, ncpus),
    ensures
        ({
            let (taken, after) = drain_each(words, n);
            &&& taken == crate::conservation::lists_of(words, 1, 2, ncpus).take(n)
            &&& after.len() == 3
            &&& after[0] == words[0]
            &&& after[2] == words[2]
            &&& after[1].len() == ncpus
            &&& forall|c: int|
                0 <= c < ncpus ==> #[trigger] after[1][c] == if c < n {
                    NIL
                } else {
                    words[1][c]
                }
        }),
    decreases n,
{
    let lists = crate::conservation::lists_of(words, 1, 2, ncpus);
    let (taken, after) = drain_each(words, n);
    if n == 0 {
        assert(taken =~= lists.take(0));
    } else {
        let c = n - 1;
        lemma_drain_each(words, ncpus, c);
        let before = drain_each(words, c).1;
        assert(crate::behaviour::list_of(words, 1, 2, c) is Some);
        assert(before[1][c] == words[1][c]);
        let list = crate::behaviour::list_of(before, 1, 2, c).unwrap();
        crate::rt::lemma_list_len(before[2], before[1][c]);
        law_drain_takes_the_list(before, c);
        lemma_carried_further(
            drain_start(before[2].len()),
            before,
            c,
            list.len() + 5,
            (before[2].len() - list.len()) as nat,
        );
        assert(taken =~= lists.take(n));
    }
}

/// Draining every CPU, with nothing else going on, takes every node that is on
/// a list, exactly once, and leaves every list empty and every lock free.
pub proof fn law_draining_every_cpu_takes_every_node(
    words: Words,
    ncpus: usize,
    free: Set<int>,
)
    requires
        words.len() == 3,
        words[0].len() == ncpus,
        words[1].len() == ncpus,
        forall|c: int| 0 <= c < ncpus ==> #[trigger] words[0][c] == 0,
        crate::conservation::holds_exactly(words, 1, 2, ncpus, free),
    ensures
        drain_each(words, ncpus as int).0 == crate::conservation::lists_of(words, 1, 2, ncpus),
        crate::conservation::exactly_once(drain_each(words, ncpus as int).0, free),
        crate::conservation::holds_exactly(
            drain_each(words, ncpus as int).1,
            1,
            2,
            ncpus,
            Set::empty(),
        ),
        drain_each(words, ncpus as int).1[0] == words[0],
{
    let lists = crate::conservation::lists_of(words, 1, 2, ncpus);
    lemma_drain_each(words, ncpus, ncpus as int);
    assert(lists.take(ncpus as int) =~= lists);
    crate::conservation::law_fresh_lists_hold_nothing(
        drain_each(words, ncpus as int).1,
        1,
        2,
        ncpus,
    );
}

/// The sequence is what `ops` compile to, and needs `params` parameters.
pub open spec fn compiled_as(
    seq: CompiledSeq,
    ops: Seq<Op>,
    ret: Option<crate::ir::Operand>,
    params: nat,
) -> bool {
    &&& seq.wf()
    &&& crate::codegen::assembly(ops, ret) == Ok::<crate::codegen::Assembly, CompileError>(
        seq.assembly(),
    )
    &&& seq.regions() == 3
    &&& seq.params() == params
}

/// A sequence that is compiled as some operations is what the compiler makes of
/// them, for the three regions of the freelist and that many parameters.
pub proof fn law_compiled_as_is_what_is_compiled(
    seq: CompiledSeq,
    ops: Seq<Op>,
    ret: Option<crate::ir::Operand>,
    params: nat,
)
    requires
        compiled_as(seq, ops, ret, params),
    ensures
        crate::codegen::assembly(ops, ret) is Ok,
        seq.assembly().window == crate::codegen::assembly(ops, ret)->Ok_0.window,
        seq.assembly().result == crate::codegen::assembly(ops, ret)->Ok_0.result,
        seq.wf(),
        seq.regions() == 3,
        seq.params() == params,
{
}

/// The registers and parameters of the sequences are small numbers.
proof fn lemma_small_regs()
    ensures
        forall|i: int, r: usize|
            0 <= i < crate::behaviour::lockable_push_ops().len()
                && #[trigger] crate::behaviour::lockable_push_ops()[i].mentions(r) ==> r < 4,
        forall|i: int, r: usize|
            0 <= i < crate::behaviour::lockable_pop_ops().len()
                && #[trigger] crate::behaviour::lockable_pop_ops()[i].mentions(r) ==> r < 4,
        crate::codegen::params_fit(crate::behaviour::lockable_push_ops()),
        crate::codegen::params_fit(crate::behaviour::lockable_pop_ops()),
{
}

} // verus!
