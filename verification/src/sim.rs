//! Interpreter for the IR, with deterministic abort injection.
//!
//! An abort models the kernel restarting the sequence: execution jumps back to
//! the first instruction, possibly on a different CPU. The simulator takes an
//! explicit plan of abort points, so every interleaving the kernel could
//! produce can be replayed on demand.

use std::collections::HashMap;

use vstd::prelude::*;

use crate::ir::{Addr, BinOp, Cond, Layout, Op, Operand, Program, Reg, RegionDecl, RegionId};

verus! {

broadcast use vstd::std_specs::hash::group_hash_axioms;

/// The contents of every region, word by word.
pub type Words = Seq<Seq<u64>>;

/// Memory as declared: each region filled with its initial value.
pub open spec fn fresh_words(decls: Seq<RegionDecl>, ncpus: int) -> Words {
    Seq::new(
        decls.len(),
        |r: int| Seq::new(decls[r].total_words(ncpus) as nat, |i: int| decls[r].init),
    )
}

/// Every region of the layout has a size that a machine word can hold.
pub open spec fn sizes_fit(decls: Seq<RegionDecl>, ncpus: int) -> bool {
    forall|r: int|
        0 <= r < decls.len() ==> (#[trigger] decls[r]).total_words(ncpus) <= usize::MAX
}

/// `words` has one sequence per declared region, of the declared size.
pub open spec fn words_match(decls: Seq<RegionDecl>, ncpus: int, words: Words) -> bool {
    &&& words.len() == decls.len()
    &&& forall|r: int|
        0 <= r < decls.len() ==> (#[trigger] words[r]).len() == decls[r].total_words(ncpus)
}

/// The published regions among the first `n`, in order, with their contents.
pub open spec fn published_words(decls: Seq<RegionDecl>, words: Words, n: int) -> Seq<
    (RegionId, Seq<u64>),
>
    decreases n,
{
    if n <= 0 {
        seq![]
    } else {
        let before = published_words(decls, words, n - 1);
        if decls[n - 1].published {
            before.push((RegionId((n - 1) as usize), words[n - 1]))
        } else {
            before
        }
    }
}

#[derive(Debug)]
pub struct Memory {
    layout: Layout,
    ncpus: usize,
    regions: Vec<Vec<u64>>,
}

impl View for Memory {
    type V = Words;

    closed spec fn view(&self) -> Words {
        Seq::new(self.regions@.len(), |r: int| self.regions@[r]@)
    }
}

impl Clone for Memory {
    fn clone(&self) -> (m: Self)
        ensures
            m@ == self@,
            m.decls() == self.decls(),
            m.cpus() == self.cpus(),
    {
        let mut regions: Vec<Vec<u64>> = Vec::new();
        let mut r: usize = 0;
        while r < self.regions.len()
            invariant
                r <= self.regions@.len(),
                regions@.len() == r,
                forall|k: int| 0 <= k < r ==> (#[trigger] regions@[k])@ == self.regions@[k]@,
            decreases self.regions@.len() - r,
        {
            let copy = self.regions[r].clone();
            assert(copy@ =~= self.regions@[r as int]@);
            regions.push(copy);
            r = r + 1;
        }
        let m = Memory { layout: self.layout.clone(), ncpus: self.ncpus, regions };
        assert(m@ =~= self@);
        m
    }
}

impl Memory {
    /// The declarations of the regions.
    pub closed spec fn decls(&self) -> Seq<RegionDecl> {
        self.layout@
    }

    /// Number of simulated CPUs.
    pub closed spec fn cpus(&self) -> usize {
        self.ncpus
    }

    /// The contents have the declared sizes.
    pub open spec fn wf(&self) -> bool {
        words_match(self.decls(), self.cpus() as int, self@)
    }

    #[must_use]
    pub fn new(layout: &Layout, ncpus: usize) -> (m: Self)
        requires
            sizes_fit(layout@, ncpus as int),
        ensures
            m.wf(),
            m.decls() == layout@,
            m.cpus() == ncpus,
            m@ == fresh_words(layout@, ncpus as int),
    {
        let mut regions: Vec<Vec<u64>> = Vec::new();
        let mut r: usize = 0;
        while r < layout.regions.len()
            invariant
                sizes_fit(layout@, ncpus as int),
                r <= layout@.len(),
                regions@.len() == r,
                forall|k: int|
                    0 <= k < r ==> (#[trigger] regions@[k])@ == fresh_words(
                        layout@,
                        ncpus as int,
                    )[k],
            decreases layout@.len() - r,
        {
            let d = &layout.regions[r];
            assert(layout@[r as int].total_words(ncpus as int) <= usize::MAX);
            let len: usize = if d.per_cpu {
                d.words * ncpus
            } else {
                d.words
            };
            let fill = vec![d.init; len];
            assert(fill@ =~= fresh_words(layout@, ncpus as int)[r as int]);
            regions.push(fill);
            r = r + 1;
        }
        let m = Memory { layout: layout.clone(), ncpus, regions };
        assert(m@ =~= fresh_words(layout@, ncpus as int));
        proof {
            lemma_total_words_nonneg(layout@, ncpus as int);
        }
        m
    }

    #[must_use]
    pub fn ncpus(&self) -> (n: usize)
        ensures
            n == self.cpus(),
    {
        self.ncpus
    }

    #[must_use]
    pub fn layout(&self) -> (l: &Layout)
        ensures
            l@ == self.decls(),
    {
        &self.layout
    }

    #[must_use]
    pub fn region(&self, r: RegionId) -> (words: &[u64])
        requires
            r.0 < self@.len(),
        ensures
            words@ == self@[r.0 as int],
    {
        self.regions[r.0].as_slice()
    }

    /// Direct mutable access, for setting up memory: the simulator itself goes
    /// through `Op` semantics.
    pub fn region_mut(&mut self, r: RegionId) -> (words: &mut [u64])
        requires
            r.0 < old(self)@.len(),
        ensures
            words@ == old(self)@[r.0 as int],
            final(self)@ == old(self)@.update(r.0 as int, final(words)@),
            final(self).decls() == old(self).decls(),
            final(self).cpus() == old(self).cpus(),
    {
        self.regions[r.0].as_mut_slice()
    }

    fn read(&self, r: RegionId, index: usize) -> (res: Result<u64, SimError>)
        requires
            r.0 < self@.len(),
        ensures
            res == read_word(self@, r, index),
    {
        let words = &self.regions[r.0];
        if index < words.len() {
            Ok(words[index])
        } else {
            Err(SimError::OutOfBounds { region: r, index, len: words.len() })
        }
    }

    fn write(&mut self, r: RegionId, index: usize, value: u64) -> (res: Result<(), SimError>)
        requires
            r.0 < old(self)@.len(),
        ensures
            final(self).decls() == old(self).decls(),
            final(self).cpus() == old(self).cpus(),
            match write_word(old(self)@, r, index, value) {
                Ok(words) => res is Ok && final(self)@ == words,
                Err(e) => res == Err::<(), SimError>(e) && final(self)@ == old(self)@,
            },
    {
        let len = self.regions[r.0].len();
        if index < len {
            self.regions[r.0][index] = value;
            assert(self@ =~= old(self)@.update(
                r.0 as int,
                old(self)@[r.0 as int].update(index as int, value),
            ));
            Ok(())
        } else {
            Err(SimError::OutOfBounds { region: r, index, len })
        }
    }

    /// Snapshot of all published regions, for prefix-purity checks.
    #[must_use]
    pub fn published_snapshot(&self) -> (snap: Vec<(RegionId, Vec<u64>)>)
        requires
            self.wf(),
        ensures
            snap@.len() == published_words(self.decls(), self@, self@.len() as int).len(),
            forall|k: int|
                0 <= k < snap@.len() ==> {
                    let want = published_words(self.decls(), self@, self@.len() as int)[k];
                    (#[trigger] snap@[k]).0 == want.0 && snap@[k].1@ == want.1
                },
    {
        let mut snap: Vec<(RegionId, Vec<u64>)> = Vec::new();
        let mut r: usize = 0;
        while r < self.regions.len()
            invariant
                self.wf(),
                r <= self.regions@.len(),
                snap@.len() == published_words(self.decls(), self@, r as int).len(),
                forall|k: int|
                    0 <= k < snap@.len() ==> {
                        let want = published_words(self.decls(), self@, r as int)[k];
                        (#[trigger] snap@[k]).0 == want.0 && snap@[k].1@ == want.1
                    },
            decreases self.regions@.len() - r,
        {
            if self.layout.regions[r].published {
                let copy = self.regions[r].clone();
                assert(copy@ =~= self@[r as int]);
                snap.push((RegionId(r), copy));
            }
            r = r + 1;
        }
        snap
    }
}

#[derive(Clone, Copy, Debug, PartialEq, Eq, Structural)]
pub enum SimError {
    OutOfBounds { region: RegionId, index: usize, len: usize },
    /// A commit targeted a per-CPU published slice owned by a CPU other than
    /// the one the sequence is currently running on. This is the stale-CPU-id
    /// bug class: the index was computed from a CPU id that migration made
    /// obsolete.
    ForeignCommit { region: RegionId, index: usize, running_on: usize, owner: usize },
    UndefinedReg(Reg),
    BadCpu { cpu: usize, ncpus: usize },
    MissingParam { index: usize, nparams: usize },
}

#[derive(Clone, Copy, Debug, PartialEq, Eq, Structural)]
pub enum Outcome {
    Committed { ret: Option<u64> },
    Exited,
}

/// Abort when about to execute op `at` of the current attempt (so `at = 0`
/// aborts before anything ran, `at = len - 1` aborts just before the commit).
/// `at = len` means "after the commit" and is only honoured when the simulator
/// is told to model a buggy descriptor whose window includes the committing
/// store (`post_commit_in_window`).
#[derive(Clone, Copy, Debug, PartialEq, Eq, Structural)]
pub struct AbortPoint {
    pub at: usize,
    pub new_cpu: usize,
}

#[derive(Clone, Copy, Debug)]
pub struct SimConfig {
    /// Model an off-by-one `post_commit_offset`: the abort window incorrectly
    /// includes the committing store, so an abort delivered right after the
    /// commit restarts the sequence and commits twice.
    pub post_commit_in_window: bool,
}

impl Default for SimConfig {
    fn default() -> (cfg: Self)
        ensures
            !cfg.post_commit_in_window,
    {
        SimConfig { post_commit_in_window: false }
    }
}

#[derive(Clone, Copy, Debug, PartialEq, Eq, Structural)]
pub struct RunResult {
    pub outcome: Outcome,
    /// The CPU the run actually finished on: the destination of the last
    /// abort that *fired* (plan entries positioned past an early exit never
    /// fire and do not migrate anything).
    pub final_cpu: usize,
}

/// The word at `index` of region `r`.
pub open spec fn read_word(words: Words, r: RegionId, index: usize) -> Result<u64, SimError> {
    if index < words[r.0 as int].len() {
        Ok(words[r.0 as int][index as int])
    } else {
        Err(SimError::OutOfBounds { region: r, index, len: words[r.0 as int].len() as usize })
    }
}

/// Memory with the word at `index` of region `r` replaced.
pub open spec fn write_word(words: Words, r: RegionId, index: usize, value: u64) -> Result<
    Words,
    SimError,
> {
    if index < words[r.0 as int].len() {
        Ok(words.update(r.0 as int, words[r.0 as int].update(index as int, value)))
    } else {
        Err(SimError::OutOfBounds { region: r, index, len: words[r.0 as int].len() as usize })
    }
}

/// The value of an operand, given the registers defined so far.
pub open spec fn operand_value(regs: Map<Reg, u64>, o: Operand) -> Result<u64, SimError> {
    match o {
        Operand::Imm(v) => Ok(v),
        Operand::Reg(r) => if regs.dom().contains(r) {
            Ok(regs[r])
        } else {
            Err(SimError::UndefinedReg(r))
        },
    }
}

/// What a binary operation computes, on 64-bit words with wraparound.
pub open spec fn bin_value(op: BinOp, a: u64, b: u64) -> u64 {
    match op {
        BinOp::Add => a.wrapping_add(b),
        BinOp::Sub => a.wrapping_sub(b),
        BinOp::Mul => a.wrapping_mul(b),
        BinOp::And => a & b,
        BinOp::Or => a | b,
        BinOp::Xor => a ^ b,
        BinOp::Shl => a.wrapping_shl(b as u32),
        BinOp::Shr => a.wrapping_shr(b as u32),
    }
}

/// Whether an exit branch is taken.
pub open spec fn cond_holds(cond: Cond, a: u64, b: u64) -> bool {
    match cond {
        Cond::Eq => a == b,
        Cond::Ne => a != b,
        Cond::Lt => a < b,
        Cond::Ge => a >= b,
    }
}

/// What stays the same throughout one run.
pub struct Setting {
    pub decls: Seq<RegionDecl>,
    pub ncpus: usize,
    pub params: Seq<u64>,
    /// The CPU the run started on.
    pub start_cpu: usize,
}

/// Registers and memory in the middle of an attempt.
pub struct State {
    pub regs: Map<Reg, u64>,
    pub words: Words,
}

/// The effect of one operation. An exit and a failure leave the state as it
/// was.
pub enum Effect {
    Continue(State),
    Exit,
    Fail(SimError),
}

impl State {
    /// The state at the top of an attempt.
    pub open spec fn entry(words: Words) -> State {
        State { regs: Map::empty(), words }
    }

    /// Define register `dst`.
    pub open spec fn define(self, dst: Reg, v: u64) -> Effect {
        Effect::Continue(State { regs: self.regs.insert(dst, v), words: self.words })
    }

    /// Store `src` at `addr`, the index already being known.
    pub open spec fn store(self, region: RegionId, index: usize, src: Operand) -> Effect {
        match operand_value(self.regs, src) {
            Err(e) => Effect::Fail(e),
            Ok(v) => match write_word(self.words, region, index, v) {
                Err(e) => Effect::Fail(e),
                Ok(words) => Effect::Continue(State { regs: self.regs, words }),
            },
        }
    }
}

/// The meaning of one operation, executed on `cpu`.
pub open spec fn step_effect(env: Setting, cpu: usize, op: Op, s: State) -> Effect {
    match op {
        Op::CpuId { dst } => s.define(dst, cpu as u64),
        Op::CpuIdHoisted { dst } => s.define(dst, env.start_cpu as u64),
        Op::Const { dst, value } => s.define(dst, value),
        Op::Param { dst, index } => if index < env.params.len() {
            s.define(dst, env.params[index as int])
        } else {
            Effect::Fail(SimError::MissingParam { index, nparams: env.params.len() as usize })
        },
        Op::Load { dst, addr } => match operand_value(s.regs, addr.index) {
            Err(e) => Effect::Fail(e),
            Ok(i) => match read_word(s.words, addr.region, i as usize) {
                Err(e) => Effect::Fail(e),
                Ok(v) => s.define(dst, v),
            },
        },
        Op::Bin { dst, op, lhs, rhs } => match operand_value(s.regs, lhs) {
            Err(e) => Effect::Fail(e),
            Ok(a) => match operand_value(s.regs, rhs) {
                Err(e) => Effect::Fail(e),
                Ok(b) => s.define(dst, bin_value(op, a, b)),
            },
        },
        Op::ExitIf { cond, lhs, rhs } => match operand_value(s.regs, lhs) {
            Err(e) => Effect::Fail(e),
            Ok(a) => match operand_value(s.regs, rhs) {
                Err(e) => Effect::Fail(e),
                Ok(b) => if cond_holds(cond, a, b) {
                    Effect::Exit
                } else {
                    Effect::Continue(s)
                },
            },
        },
        Op::StoreScratch { addr, src } => match operand_value(s.regs, addr.index) {
            Err(e) => Effect::Fail(e),
            Ok(i) => s.store(addr.region, i as usize, src),
        },
        Op::Commit { addr, src } => match operand_value(s.regs, addr.index) {
            Err(e) => Effect::Fail(e),
            Ok(i) => {
                let decl = env.decls[addr.region.0 as int];
                let owner = i as usize / decl.words;
                if decl.per_cpu && owner != cpu {
                    Effect::Fail(
                        SimError::ForeignCommit {
                            region: addr.region,
                            index: i as usize,
                            running_on: cpu,
                            owner,
                        },
                    )
                } else {
                    s.store(addr.region, i as usize, src)
                }
            },
        },
    }
}

/// The operation names a declared region, and a per-CPU region that it
/// commits to has slices with at least one word.
pub open spec fn op_addressable(decls: Seq<RegionDecl>, op: Op) -> bool {
    op.region() matches Some(r) ==> {
        &&& r.0 < decls.len()
        &&& op is Commit && decls[r.0 as int].per_cpu ==> decls[r.0 as int].words > 0
    }
}

/// Every operation is addressable.
pub open spec fn addressable(decls: Seq<RegionDecl>, ops: Seq<Op>) -> bool {
    forall|i: int| 0 <= i < ops.len() ==> op_addressable(decls, #[trigger] ops[i])
}

enum Step {
    Continue,
    Exit,
}

struct RegFile {
    regs: HashMap<Reg, u64>,
}

impl RegFile {
    fn new() -> (f: Self)
        ensures
            f.regs@ == Map::<Reg, u64>::empty(),
    {
        RegFile { regs: HashMap::new() }
    }

    fn set(&mut self, r: Reg, v: u64)
        ensures
            final(self).regs@ == old(self).regs@.insert(r, v),
    {
        self.regs.insert(r, v);
    }

    fn eval(&self, o: Operand) -> (res: Result<u64, SimError>)
        ensures
            res == operand_value(self.regs@, o),
    {
        match o {
            Operand::Imm(v) => Ok(v),
            Operand::Reg(r) => match self.regs.get(&r) {
                Some(v) => Ok(*v),
                None => Err(SimError::UndefinedReg(r)),
            },
        }
    }
}

fn index_of(regs: &RegFile, addr: Addr) -> (res: Result<usize, SimError>)
    ensures
        res == match operand_value(regs.regs@, addr.index) {
            Ok(i) => Ok::<usize, SimError>(i as usize),
            Err(e) => Err(e),
        },
{
    match regs.eval(addr.index) {
        Ok(i) => Ok(i as usize),
        Err(e) => Err(e),
    }
}

fn bin(op: BinOp, a: u64, b: u64) -> (v: u64)
    ensures
        v == bin_value(op, a, b),
{
    match op {
        BinOp::Add => a.wrapping_add(b),
        BinOp::Sub => a.wrapping_sub(b),
        BinOp::Mul => a.wrapping_mul(b),
        BinOp::And => a & b,
        BinOp::Or => a | b,
        BinOp::Xor => a ^ b,
        BinOp::Shl => a.wrapping_shl(b as u32),
        BinOp::Shr => a.wrapping_shr(b as u32),
    }
}

fn taken(cond: Cond, a: u64, b: u64) -> (t: bool)
    ensures
        t == cond_holds(cond, a, b),
{
    match cond {
        Cond::Eq => a == b,
        Cond::Ne => a != b,
        Cond::Lt => a < b,
        Cond::Ge => a >= b,
    }
}

/// Execute one operation.
fn step(
    op: &Op,
    regs: &mut RegFile,
    mem: &mut Memory,
    params: &[u64],
    cpu: usize,
    start_cpu: usize,
) -> (res: Result<Step, SimError>)
    requires
        old(mem).wf(),
        op_addressable(old(mem).decls(), *op),
    ensures
        final(mem).wf(),
        final(mem).decls() == old(mem).decls(),
        final(mem).cpus() == old(mem).cpus(),
        ({
            let env = Setting {
                decls: old(mem).decls(),
                ncpus: old(mem).cpus(),
                params: params@,
                start_cpu,
            };
            let before = State { regs: old(regs).regs@, words: old(mem)@ };
            let after = State { regs: final(regs).regs@, words: final(mem)@ };
            match step_effect(env, cpu, *op, before) {
                Effect::Continue(s) => (res matches Ok(Step::Continue)) && after == s,
                Effect::Exit => (res matches Ok(Step::Exit)) && after == before,
                Effect::Fail(e) => res matches Err(got) && got == e && after == before,
            }
        }),
{
    match *op {
        Op::CpuId { dst } => {
            regs.set(dst, cpu as u64);
        },
        Op::CpuIdHoisted { dst } => {
            regs.set(dst, start_cpu as u64);
        },
        Op::Const { dst, value } => {
            regs.set(dst, value);
        },
        Op::Param { dst, index } => {
            if index >= params.len() {
                return Err(SimError::MissingParam { index, nparams: params.len() });
            }
            regs.set(dst, params[index]);
        },
        Op::Load { dst, addr } => {
            let index = match index_of(regs, addr) {
                Ok(i) => i,
                Err(e) => return Err(e),
            };
            match mem.read(addr.region, index) {
                Ok(v) => regs.set(dst, v),
                Err(e) => return Err(e),
            }
        },
        Op::Bin { dst, op, lhs, rhs } => {
            let a = match regs.eval(lhs) {
                Ok(v) => v,
                Err(e) => return Err(e),
            };
            let b = match regs.eval(rhs) {
                Ok(v) => v,
                Err(e) => return Err(e),
            };
            regs.set(dst, bin(op, a, b));
        },
        Op::ExitIf { cond, lhs, rhs } => {
            let a = match regs.eval(lhs) {
                Ok(v) => v,
                Err(e) => return Err(e),
            };
            let b = match regs.eval(rhs) {
                Ok(v) => v,
                Err(e) => return Err(e),
            };
            if taken(cond, a, b) {
                return Ok(Step::Exit);
            }
        },
        Op::StoreScratch { addr, src } => {
            let index = match index_of(regs, addr) {
                Ok(i) => i,
                Err(e) => return Err(e),
            };
            let v = match regs.eval(src) {
                Ok(v) => v,
                Err(e) => return Err(e),
            };
            if let Err(e) = mem.write(addr.region, index, v) {
                return Err(e);
            }
        },
        Op::Commit { addr, src } => {
            let index = match index_of(regs, addr) {
                Ok(i) => i,
                Err(e) => return Err(e),
            };
            let decl = mem.layout.decl(addr.region);
            if decl.per_cpu {
                let owner = index / decl.words;
                if owner != cpu {
                    return Err(
                        SimError::ForeignCommit {
                            region: addr.region,
                            index,
                            running_on: cpu,
                            owner,
                        },
                    );
                }
            }
            let v = match regs.eval(src) {
                Ok(v) => v,
                Err(e) => return Err(e),
            };
            if let Err(e) = mem.write(addr.region, index, v) {
                return Err(e);
            }
        },
    }
    Ok(Step::Continue)
}

/// How one attempt ends: cut short at the operation it was to abort before,
/// left by an exit branch, failed, or run to the end (the commit done).
pub enum AttemptEnd {
    Aborted(Words),
    Exited(Words),
    Failed(SimError, Words),
    Finished(State),
}

/// One attempt from operation `i` on, executed on `cpu`, to be aborted when
/// about to execute operation `stop`.
pub open spec fn attempt_end(
    env: Setting,
    cpu: usize,
    ops: Seq<Op>,
    stop: Option<usize>,
    i: int,
    s: State,
) -> AttemptEnd
    decreases ops.len() - i,
{
    if i >= ops.len() {
        AttemptEnd::Finished(s)
    } else if stop matches Some(at) && at == i {
        AttemptEnd::Aborted(s.words)
    } else {
        match step_effect(env, cpu, ops[i], s) {
            Effect::Continue(next) => attempt_end(env, cpu, ops, stop, i + 1, next),
            Effect::Exit => AttemptEnd::Exited(s.words),
            Effect::Fail(e) => AttemptEnd::Failed(e, s.words),
        }
    }
}

/// The position that the next entry of an abort plan waits for.
pub open spec fn next_stop(plan: Seq<AbortPoint>) -> Option<usize> {
    if plan.len() > 0 {
        Some(plan[0].at)
    } else {
        None
    }
}

/// A run under an abort plan, from the top of an attempt on `cpu`: its result
/// and the memory it leaves. The first plan entry waits until its position is
/// reached; the attempt is then abandoned and the next one starts on the
/// entry's CPU, in the memory as the abandoned attempt left it.
pub open spec fn run_end(
    env: Setting,
    ops: Seq<Op>,
    ret: Option<Operand>,
    post_commit_in_window: bool,
    cpu: usize,
    plan: Seq<AbortPoint>,
    words: Words,
) -> (Result<RunResult, SimError>, Words)
    decreases plan.len(),
{
    match attempt_end(env, cpu, ops, next_stop(plan), 0, State::entry(words)) {
        AttemptEnd::Aborted(w) => if plan.len() == 0 || plan[0].new_cpu >= env.ncpus {
            (Err(SimError::BadCpu { cpu: plan[0].new_cpu, ncpus: env.ncpus }), w)
        } else {
            run_end(env, ops, ret, post_commit_in_window, plan[0].new_cpu, plan.drop_first(), w)
        },
        AttemptEnd::Exited(w) => (
            Ok(RunResult { outcome: Outcome::Exited, final_cpu: cpu }),
            w,
        ),
        AttemptEnd::Failed(e, w) => (Err(e), w),
        AttemptEnd::Finished(s) => if post_commit_in_window && plan.len() > 0 && plan[0].at
            == ops.len() {
            if plan[0].new_cpu >= env.ncpus {
                (Err(SimError::BadCpu { cpu: plan[0].new_cpu, ncpus: env.ncpus }), s.words)
            } else {
                run_end(
                    env,
                    ops,
                    ret,
                    post_commit_in_window,
                    plan[0].new_cpu,
                    plan.drop_first(),
                    s.words,
                )
            }
        } else {
            (committed_result(s.regs, ret, cpu), s.words)
        },
    }
}

/// The result of a run whose commit has executed on `cpu`.
pub open spec fn committed_result(regs: Map<Reg, u64>, ret: Option<Operand>, cpu: usize) -> Result<
    RunResult,
    SimError,
> {
    match ret {
        None => Ok(RunResult { outcome: Outcome::Committed { ret: None }, final_cpu: cpu }),
        Some(o) => match operand_value(regs, o) {
            Ok(v) => Ok(
                RunResult { outcome: Outcome::Committed { ret: Some(v) }, final_cpu: cpu },
            ),
            Err(e) => Err(e),
        },
    }
}

/// The whole of a run: refused if the starting CPU does not exist.
pub open spec fn whole_run(
    env: Setting,
    ops: Seq<Op>,
    ret: Option<Operand>,
    post_commit_in_window: bool,
    plan: Seq<AbortPoint>,
    words: Words,
) -> (Result<RunResult, SimError>, Words) {
    if env.start_cpu >= env.ncpus {
        (Err(SimError::BadCpu { cpu: env.start_cpu, ncpus: env.ncpus }), words)
    } else {
        run_end(env, ops, ret, post_commit_in_window, env.start_cpu, plan, words)
    }
}

/// The first `k` operations on `cpu`, then nothing more: the memory they
/// leave, and the error if one of them failed.
pub open spec fn prefix_end(env: Setting, ops: Seq<Op>, k: int, words: Words) -> (
    Result<(), SimError>,
    Words,
) {
    if env.start_cpu >= env.ncpus {
        (Err(SimError::BadCpu { cpu: env.start_cpu, ncpus: env.ncpus }), words)
    } else {
        match attempt_end(env, env.start_cpu, ops.take(k), None, 0, State::entry(words)) {
            AttemptEnd::Failed(e, w) => (Err(e), w),
            AttemptEnd::Aborted(w) => (Ok(()), w),
            AttemptEnd::Exited(w) => (Ok(()), w),
            AttemptEnd::Finished(s) => (Ok(()), s.words),
        }
    }
}

/// Every operation that an attempt executes is addressable. (What it does not
/// reach need not be.)
pub open spec fn attempt_addressable(
    env: Setting,
    cpu: usize,
    ops: Seq<Op>,
    stop: Option<usize>,
    i: int,
    s: State,
) -> bool
    decreases ops.len() - i,
{
    i >= ops.len() || (stop matches Some(at) && at == i) || {
        &&& op_addressable(env.decls, ops[i])
        &&& step_effect(env, cpu, ops[i], s) matches Effect::Continue(next)
            ==> attempt_addressable(env, cpu, ops, stop, i + 1, next)
    }
}

/// Every operation that a run executes is addressable.
pub open spec fn run_addressable(
    env: Setting,
    ops: Seq<Op>,
    post_commit_in_window: bool,
    cpu: usize,
    plan: Seq<AbortPoint>,
    words: Words,
) -> bool
    decreases plan.len(),
{
    &&& attempt_addressable(env, cpu, ops, next_stop(plan), 0, State::entry(words))
    &&& plan.len() > 0 && plan[0].new_cpu < env.ncpus ==> match attempt_end(
        env,
        cpu,
        ops,
        next_stop(plan),
        0,
        State::entry(words),
    ) {
        AttemptEnd::Aborted(w) => run_addressable(
            env,
            ops,
            post_commit_in_window,
            plan[0].new_cpu,
            plan.drop_first(),
            w,
        ),
        AttemptEnd::Finished(s) => post_commit_in_window && plan[0].at == ops.len()
            ==> run_addressable(
            env,
            ops,
            post_commit_in_window,
            plan[0].new_cpu,
            plan.drop_first(),
            s.words,
        ),
        _ => true,
    }
}

proof fn lemma_attempt_addressable(
    env: Setting,
    cpu: usize,
    ops: Seq<Op>,
    stop: Option<usize>,
    i: int,
    s: State,
)
    requires
        addressable(env.decls, ops),
        0 <= i,
    ensures
        attempt_addressable(env, cpu, ops, stop, i, s),
    decreases ops.len() - i,
{
    if i < ops.len() {
        if let Effect::Continue(next) = step_effect(env, cpu, ops[i], s) {
            lemma_attempt_addressable(env, cpu, ops, stop, i + 1, next);
        }
    }
}

/// A program whose operations are all addressable never reaches one that is
/// not.
pub proof fn lemma_run_addressable(
    env: Setting,
    ops: Seq<Op>,
    post_commit_in_window: bool,
    cpu: usize,
    plan: Seq<AbortPoint>,
    words: Words,
)
    requires
        addressable(env.decls, ops),
    ensures
        run_addressable(env, ops, post_commit_in_window, cpu, plan, words),
    decreases plan.len(),
{
    lemma_attempt_addressable(env, cpu, ops, next_stop(plan), 0, State::entry(words));
    if plan.len() > 0 {
        match attempt_end(env, cpu, ops, next_stop(plan), 0, State::entry(words)) {
            AttemptEnd::Aborted(w) => lemma_run_addressable(
                env,
                ops,
                post_commit_in_window,
                plan[0].new_cpu,
                plan.drop_first(),
                w,
            ),
            AttemptEnd::Finished(s) => lemma_run_addressable(
                env,
                ops,
                post_commit_in_window,
                plan[0].new_cpu,
                plan.drop_first(),
                s.words,
            ),
            _ => {},
        }
    }
}

enum Ended {
    Aborted,
    Exited,
    Failed(SimError),
    Finished(RegFile),
}

/// Run one attempt on `cpu` over the first `count` operations.
fn attempt(
    prog: &Program,
    count: usize,
    mem: &mut Memory,
    params: &[u64],
    cpu: usize,
    start_cpu: usize,
    stop: Option<usize>,
) -> (end: Ended)
    requires
        old(mem).wf(),
        count <= prog.ops@.len(),
        attempt_addressable(
            (Setting {
                decls: old(mem).decls(),
                ncpus: old(mem).cpus(),
                params: params@,
                start_cpu,
            }),
            cpu,
            prog.ops@.take(count as int),
            stop,
            0,
            State::entry(old(mem)@),
        ),
    ensures
        final(mem).wf(),
        final(mem).decls() == old(mem).decls(),
        final(mem).cpus() == old(mem).cpus(),
        ({
            let env = Setting {
                decls: old(mem).decls(),
                ncpus: old(mem).cpus(),
                params: params@,
                start_cpu,
            };
            match attempt_end(
                env,
                cpu,
                prog.ops@.take(count as int),
                stop,
                0,
                State::entry(old(mem)@),
            ) {
                AttemptEnd::Aborted(w) => end is Aborted && final(mem)@ == w,
                AttemptEnd::Exited(w) => end is Exited && final(mem)@ == w,
                AttemptEnd::Failed(e, w) => (end matches Ended::Failed(got) && got == e)
                    && final(mem)@ == w,
                AttemptEnd::Finished(s) => (end matches Ended::Finished(regs) && regs.regs@
                    == s.regs) && final(mem)@ == s.words,
            }
        }),
{
    let ghost env = Setting {
        decls: mem.decls(),
        ncpus: mem.cpus(),
        params: params@,
        start_cpu,
    };
    let ghost ops = prog.ops@.take(count as int);
    let ghost whole = attempt_end(env, cpu, ops, stop, 0, State::entry(mem@));
    let mut regs = RegFile::new();
    let mut i: usize = 0;
    while i < count
        invariant
            i <= count <= prog.ops@.len(),
            ops == prog.ops@.take(count as int),
            mem.wf(),
            mem.decls() == env.decls,
            mem.cpus() == env.ncpus,
            env == (Setting {
                decls: old(mem).decls(),
                ncpus: old(mem).cpus(),
                params: params@,
                start_cpu,
            }),
            attempt_addressable(
                env,
                cpu,
                ops,
                stop,
                i as int,
                State { regs: regs.regs@, words: mem@ },
            ),
            whole == attempt_end(env, cpu, ops, stop, 0, State::entry(old(mem)@)),
            whole == attempt_end(
                env,
                cpu,
                ops,
                stop,
                i as int,
                State { regs: regs.regs@, words: mem@ },
            ),
        decreases count - i,
    {
        if let Some(at) = stop {
            if at == i {
                return Ended::Aborted;
            }
        }
        assert(ops[i as int] == prog.ops@[i as int]);
        match step(&prog.ops[i], &mut regs, mem, params, cpu, start_cpu) {
            Ok(Step::Continue) => {},
            Ok(Step::Exit) => {
                return Ended::Exited;
            },
            Err(e) => {
                return Ended::Failed(e);
            },
        }
        i = i + 1;
    }
    Ended::Finished(regs)
}

/// The result of a run that has just committed on `cpu`.
fn committed(regs: &RegFile, ret: Option<Operand>, cpu: usize) -> (res: Result<
    RunResult,
    SimError,
>)
    ensures
        res == committed_result(regs.regs@, ret, cpu),
{
    let ret: Option<u64> = match ret {
        Some(o) => match regs.eval(o) {
            Ok(v) => Some(v),
            Err(e) => return Err(e),
        },
        None => None,
    };
    Ok(RunResult { outcome: Outcome::Committed { ret }, final_cpu: cpu })
}

/// Run `prog` to completion, applying `plan` aborts in order. Each abort
/// restarts the sequence from the top on `new_cpu`. Plan entries that never
/// match (e.g. beyond an early exit) are simply unused.
///
/// # Errors
///
/// Returns a [`SimError`] on out-of-bounds access, a commit to another CPU's
/// slice, an undefined register, a missing parameter, or a CPU id outside the
/// simulated range.
pub fn run(
    prog: &Program,
    mem: &mut Memory,
    params: &[u64],
    start_cpu: usize,
    plan: &[AbortPoint],
    cfg: SimConfig,
) -> (res: Result<RunResult, SimError>)
    requires
        old(mem).wf(),
        start_cpu < old(mem).cpus() ==> addressable(old(mem).decls(), prog.ops@)
            || run_addressable(
            (Setting {
                decls: old(mem).decls(),
                ncpus: old(mem).cpus(),
                params: params@,
                start_cpu,
            }),
            prog.ops@,
            cfg.post_commit_in_window,
            start_cpu,
            plan@,
            old(mem)@,
        ),
    ensures
        final(mem).wf(),
        final(mem).decls() == old(mem).decls(),
        final(mem).cpus() == old(mem).cpus(),
        (res, final(mem)@) == whole_run(
            (Setting {
                decls: old(mem).decls(),
                ncpus: old(mem).cpus(),
                params: params@,
                start_cpu,
            }),
            prog.ops@,
            prog.ret,
            cfg.post_commit_in_window,
            plan@,
            old(mem)@,
        ),
{
    if start_cpu >= mem.ncpus {
        return Err(SimError::BadCpu { cpu: start_cpu, ncpus: mem.ncpus });
    }
    let ghost env = Setting {
        decls: mem.decls(),
        ncpus: mem.cpus(),
        params: params@,
        start_cpu,
    };
    let ghost whole = run_end(
        env,
        prog.ops@,
        prog.ret,
        cfg.post_commit_in_window,
        start_cpu,
        plan@,
        mem@,
    );
    assert(prog.ops@.take(prog.ops@.len() as int) =~= prog.ops@);
    assert(plan@.skip(0) =~= plan@);
    proof {
        if addressable(env.decls, prog.ops@) {
            lemma_run_addressable(
                env,
                prog.ops@,
                cfg.post_commit_in_window,
                start_cpu,
                plan@,
                mem@,
            );
        }
    }
    let mut cpu: usize = start_cpu;
    let mut next: usize = 0;
    loop
        invariant
            next <= plan@.len(),
            mem.wf(),
            mem.decls() == env.decls,
            mem.cpus() == env.ncpus,
            env == (Setting {
                decls: old(mem).decls(),
                ncpus: old(mem).cpus(),
                params: params@,
                start_cpu,
            }),
            run_addressable(
                env,
                prog.ops@,
                cfg.post_commit_in_window,
                cpu,
                plan@.skip(next as int),
                mem@,
            ),
            whole == whole_run(
                env,
                prog.ops@,
                prog.ret,
                cfg.post_commit_in_window,
                plan@,
                old(mem)@,
            ),
            prog.ops@.take(prog.ops@.len() as int) == prog.ops@,
            whole == run_end(
                env,
                prog.ops@,
                prog.ret,
                cfg.post_commit_in_window,
                cpu,
                plan@.skip(next as int),
                mem@,
            ),
        decreases plan@.len() - next,
    {
        let ghost rest = plan@.skip(next as int);
        let stop: Option<usize> = if next < plan.len() {
            Some(plan[next].at)
        } else {
            None
        };
        proof {
            assert(stop == next_stop(rest));
            if next < plan@.len() {
                assert(rest.drop_first() =~= plan@.skip(next + 1));
            }
            lemma_abort_has_stop(env, cpu, prog.ops@, stop, 0, State::entry(mem@));
        }
        let fired: AbortPoint = match attempt(
            prog,
            prog.ops.len(),
            mem,
            params,
            cpu,
            start_cpu,
            stop,
        ) {
            Ended::Exited => {
                return Ok(RunResult { outcome: Outcome::Exited, final_cpu: cpu });
            },
            Ended::Failed(e) => {
                return Err(e);
            },
            Ended::Aborted => plan[next],
            Ended::Finished(regs) => {
                // The commit (last op) has executed. A correctly-sized abort
                // window ends before it; only the modelled descriptor bug lets
                // an abort land here and restart a completed sequence.
                if !cfg.post_commit_in_window || next >= plan.len() || plan[next].at
                    != prog.ops.len() {
                    return committed(&regs, prog.ret, cpu);
                }
                plan[next]
            },
        };
        if fired.new_cpu >= mem.ncpus {
            return Err(SimError::BadCpu { cpu: fired.new_cpu, ncpus: mem.ncpus });
        }
        cpu = fired.new_cpu;
        next = next + 1;
    }
}

/// Execute only `ops[0..k]` on `cpu`, then stop (as if the thread were
/// preempted there and never resumed). Used for prefix-purity checking:
/// no prefix that excludes the commit may change published memory.
///
/// # Errors
///
/// Same failure modes as [`run`].
pub fn run_prefix(
    prog: &Program,
    mem: &mut Memory,
    params: &[u64],
    cpu: usize,
    k: usize,
) -> (res: Result<(), SimError>)
    requires
        old(mem).wf(),
        k <= prog.ops@.len(),
        cpu < old(mem).cpus() ==> addressable(old(mem).decls(), prog.ops@.take(k as int))
            || attempt_addressable(
            (Setting {
                decls: old(mem).decls(),
                ncpus: old(mem).cpus(),
                params: params@,
                start_cpu: cpu,
            }),
            cpu,
            prog.ops@.take(k as int),
            None,
            0,
            State::entry(old(mem)@),
        ),
    ensures
        final(mem).wf(),
        final(mem).decls() == old(mem).decls(),
        final(mem).cpus() == old(mem).cpus(),
        (res, final(mem)@) == prefix_end(
            (Setting {
                decls: old(mem).decls(),
                ncpus: old(mem).cpus(),
                params: params@,
                start_cpu: cpu,
            }),
            prog.ops@,
            k as int,
            old(mem)@,
        ),
{
    if cpu >= mem.ncpus {
        return Err(SimError::BadCpu { cpu, ncpus: mem.ncpus });
    }
    proof {
        let env = Setting {
            decls: mem.decls(),
            ncpus: mem.cpus(),
            params: params@,
            start_cpu: cpu,
        };
        let prefix = prog.ops@.take(k as int);
        if addressable(env.decls, prefix) {
            lemma_attempt_addressable(env, cpu, prefix, None, 0, State::entry(mem@));
        }
    }
    match attempt(prog, k, mem, params, cpu, cpu, None) {
        Ended::Failed(e) => Err(e),
        _ => Ok(()),
    }
}

/// An attempt without a stop position is never aborted.
pub proof fn lemma_abort_has_stop(
    env: Setting,
    cpu: usize,
    ops: Seq<Op>,
    stop: Option<usize>,
    i: int,
    s: State,
)
    ensures
        attempt_end(env, cpu, ops, stop, i, s) is Aborted ==> stop is Some,
    decreases ops.len() - i,
{
    if i < ops.len() && stop is None {
        match step_effect(env, cpu, ops[i], s) {
            Effect::Continue(next) => lemma_abort_has_stop(env, cpu, ops, stop, i + 1, next),
            _ => {},
        }
    }
}

/// A run without aborts finishes on the CPU it started on.
pub proof fn lemma_clean_run_stays(
    env: Setting,
    ops: Seq<Op>,
    ret: Option<Operand>,
    words: Words,
)
    ensures
        whole_run(env, ops, ret, false, seq![], words).0 matches Ok(res) ==> res.final_cpu
            == env.start_cpu,
{
    if env.start_cpu < env.ncpus {
        lemma_abort_has_stop(env, env.start_cpu, ops, None, 0, State::entry(words));
    }
}

/// Two memories agree on every published region.
pub open spec fn same_published(decls: Seq<RegionDecl>, a: Words, b: Words) -> bool {
    &&& a.len() == b.len()
    &&& forall|r: int|
        0 <= r < decls.len() && (#[trigger] decls[r]).published ==> a[r] == b[r]
}

/// An operation other than the commit writes no published region, and no
/// operation changes the size of a region.
pub proof fn lemma_step_is_pure(env: Setting, cpu: usize, op: Op, s: State)
    requires
        crate::ir::regions_respected(env.decls, op),
        words_match(env.decls, env.ncpus as int, s.words),
    ensures
        step_effect(env, cpu, op, s) matches Effect::Continue(next) ==> {
            &&& words_match(env.decls, env.ncpus as int, next.words)
            &&& !(op is Commit) ==> same_published(env.decls, s.words, next.words)
        },
{
}

/// However an attempt ends, it has left the published regions alone unless
/// its last operation, the commit, was executed.
pub proof fn lemma_attempt_is_pure(
    env: Setting,
    cpu: usize,
    ops: Seq<Op>,
    stop: Option<usize>,
    i: int,
    s: State,
)
    requires
        0 <= i,
        words_match(env.decls, env.ncpus as int, s.words),
        forall|k: int| 0 <= k < ops.len() ==> crate::ir::regions_respected(env.decls, #[trigger] ops[k]),
        forall|k: int| 0 <= k < ops.len() - 1 ==> !(#[trigger] ops[k] is Commit),
    ensures
        match attempt_end(env, cpu, ops, stop, i, s) {
            AttemptEnd::Aborted(w) => same_published(env.decls, s.words, w) && words_match(
                env.decls,
                env.ncpus as int,
                w,
            ),
            AttemptEnd::Exited(w) => same_published(env.decls, s.words, w) && words_match(
                env.decls,
                env.ncpus as int,
                w,
            ),
            AttemptEnd::Failed(_, w) => same_published(env.decls, s.words, w) && words_match(
                env.decls,
                env.ncpus as int,
                w,
            ),
            AttemptEnd::Finished(t) => words_match(env.decls, env.ncpus as int, t.words) && (
            ops.len() > 0 && ops.last() is Commit || same_published(
                env.decls,
                s.words,
                t.words,
            )),
        },
    decreases ops.len() - i,
{
    if i < ops.len() && !(stop matches Some(at) && at == i) {
        lemma_step_is_pure(env, cpu, ops[i], s);
        match step_effect(env, cpu, ops[i], s) {
            Effect::Continue(next) => {
                lemma_attempt_is_pure(env, cpu, ops, stop, i + 1, next);
            },
            _ => {},
        }
    }
}

/// Prefix purity: whatever prefix of a well-shaped program is executed, as
/// long as it excludes the commit, published memory is untouched.
pub proof fn law_prefix_is_pure(
    env: Setting,
    ops: Seq<Op>,
    ret: Option<Operand>,
    k: int,
    words: Words,
)
    requires
        crate::ir::well_shaped(env.decls, ops, ret),
        words_match(env.decls, env.ncpus as int, words),
        0 <= k < ops.len(),
    ensures
        same_published(env.decls, words, prefix_end(env, ops, k, words).1),
{
    let prefix = ops.take(k);
    assert forall|j: int| 0 <= j < prefix.len() implies crate::ir::regions_respected(
        env.decls,
        #[trigger] prefix[j],
    ) && !(prefix[j] is Commit) by {
        assert(prefix[j] == ops[j]);
    }
    lemma_attempt_is_pure(env, env.start_cpu, prefix, None, 0, State::entry(words));
}

proof fn lemma_total_words_nonneg(decls: Seq<RegionDecl>, ncpus: int)
    requires
        ncpus >= 0,
    ensures
        forall|r: int| 0 <= r < decls.len() ==> (#[trigger] decls[r]).total_words(ncpus) >= 0,
{
    assert forall|r: int| 0 <= r < decls.len() implies (#[trigger] decls[r]).total_words(ncpus)
        >= 0 by {
        assert(decls[r].words * ncpus >= 0) by (nonlinear_arith)
            requires
                decls[r].words >= 0,
                ncpus >= 0,
        ;
    }
}

} // verus!
