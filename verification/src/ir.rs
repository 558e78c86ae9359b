//! The restartable-sequence IR.
//!
//! A program is a straight-line sequence of operations with the shape a valid
//! rseq critical section must have:
//!
//! - a side-effect-free prefix of loads and register arithmetic,
//! - any number of branches to the exit, each leaving the window uncommitted,
//! - writes to *scratch* (unpublished) memory anywhere before the commit,
//! - exactly one committing store, which is the final operation.

use vstd::prelude::*;

verus! {

/// A virtual register. Programs are built in SSA style: the builder hands out
/// a fresh register for every defining operation.
pub type Reg = usize;

#[derive(Clone, Copy, PartialEq, Eq, Structural, Debug)]
pub enum Operand {
    Reg(Reg),
    Imm(u64),
}

/// Shorthand for `Operand::Reg`.
#[must_use]
pub fn reg(r: Reg) -> (o: Operand)
    ensures
        o == Operand::Reg(r),
{
    Operand::Reg(r)
}

/// Shorthand for `Operand::Imm`.
#[must_use]
pub fn imm(v: u64) -> (o: Operand)
    ensures
        o == Operand::Imm(v),
{
    Operand::Imm(v)
}

#[derive(Clone, Copy, PartialEq, Eq, Structural, Debug)]
pub enum BinOp {
    Add,
    Sub,
    Mul,
    And,
    Or,
    Xor,
    Shl,
    Shr,
}

/// Unsigned comparison conditions for the exit branch.
#[derive(Clone, Copy, PartialEq, Eq, Structural, Debug)]
pub enum Cond {
    Eq,
    Ne,
    Lt,
    Ge,
}

#[derive(Clone, Copy, PartialEq, Eq, Structural, Debug)]
pub struct RegionId(pub usize);

/// A word address: a region plus a word index into it.
#[derive(Clone, Copy, PartialEq, Eq, Structural, Debug)]
pub struct Addr {
    pub region: RegionId,
    pub index: Operand,
}

#[derive(Clone, Copy, PartialEq, Eq, Structural, Debug)]
pub enum Op {
    /// Read the *current* CPU id. Re-executes on every restart, so it is
    /// always fresh: this is the correct way to index per-CPU data.
    CpuId { dst: Reg },
    /// Deliberately wrong: models a CPU id that was read once, before the
    /// sequence, and cached (the classic hoisting bug). The simulator returns
    /// the CPU the run *started* on, ignoring migrations. Exists so tests can
    /// demonstrate that the checker catches this bug class.
    CpuIdHoisted { dst: Reg },
    Const { dst: Reg, value: u64 },
    /// Read run-time parameter `index`, so that one program serves every
    /// argument.
    Param { dst: Reg, index: usize },
    Load { dst: Reg, addr: Addr },
    Bin { dst: Reg, op: BinOp, lhs: Operand, rhs: Operand },
    /// Early exit without committing (e.g. "freelist is empty").
    ExitIf { cond: Cond, lhs: Operand, rhs: Operand },
    /// Write to unpublished scratch memory. Replay-safe by construction: no
    /// other actor may observe scratch, so re-executing after an abort is
    /// harmless (the tcmalloc scribble-then-bump trick).
    StoreScratch { addr: Addr, src: Operand },
    /// The single committing store. Must be the final operation.
    Commit { addr: Addr, src: Operand },
}

impl Op {
    /// The register the operation defines, if it defines one.
    pub open spec fn dst(self) -> Option<Reg> {
        match self {
            Op::CpuId { dst } => Some(dst),
            Op::CpuIdHoisted { dst } => Some(dst),
            Op::Const { dst, .. } => Some(dst),
            Op::Param { dst, .. } => Some(dst),
            Op::Load { dst, .. } => Some(dst),
            Op::Bin { dst, .. } => Some(dst),
            Op::ExitIf { .. } => None,
            Op::StoreScratch { .. } => None,
            Op::Commit { .. } => None,
        }
    }

    /// The operands the operation reads, in the order it reads them.
    pub open spec fn uses(self) -> Seq<Operand> {
        match self {
            Op::CpuId { .. } => seq![],
            Op::CpuIdHoisted { .. } => seq![],
            Op::Const { .. } => seq![],
            Op::Param { .. } => seq![],
            Op::Load { addr, .. } => seq![addr.index],
            Op::Bin { lhs, rhs, .. } => seq![lhs, rhs],
            Op::ExitIf { lhs, rhs, .. } => seq![lhs, rhs],
            Op::StoreScratch { addr, src } => seq![addr.index, src],
            Op::Commit { addr, src } => seq![addr.index, src],
        }
    }

    /// The memory region the operation touches, if it touches one.
    pub open spec fn region(self) -> Option<RegionId> {
        match self {
            Op::Load { addr, .. } => Some(addr.region),
            Op::StoreScratch { addr, .. } => Some(addr.region),
            Op::Commit { addr, .. } => Some(addr.region),
            _ => None,
        }
    }

    /// Whether register `r` occurs in the operation, defined or read.
    pub open spec fn mentions(self, r: Reg) -> bool {
        self.dst() == Some(r) || self.uses().contains(Operand::Reg(r))
    }
}

/// Declaration of a memory region.
///
/// `published` regions are visible to other actors: only `Commit` may write
/// them, and for per-CPU published regions a commit must target the slice
/// owned by the CPU the sequence is currently running on.
///
/// `per_cpu` regions are sized `ncpus * words` at simulation time; index
/// arithmetic (`cpu * words + offset`) is the program's job, exactly as it is
/// in the real asm.
#[derive(Debug)]
pub struct RegionDecl {
    pub name: String,
    pub published: bool,
    pub per_cpu: bool,
    /// Size in words (per CPU if `per_cpu`).
    pub words: usize,
    /// Initial fill value.
    pub init: u64,
}

impl RegionDecl {
    /// The declaration, field by field.
    pub open spec fn is(
        self,
        name: Seq<char>,
        published: bool,
        per_cpu: bool,
        words: usize,
        init: u64,
    ) -> bool {
        &&& self.name@ == name
        &&& self.published == published
        &&& self.per_cpu == per_cpu
        &&& self.words == words
        &&& self.init == init
    }

    /// Number of words the region holds when there are `ncpus` CPUs.
    pub open spec fn total_words(self, ncpus: int) -> int {
        if self.per_cpu {
            self.words * ncpus
        } else {
            self.words as int
        }
    }
}

impl Clone for RegionDecl {
    fn clone(&self) -> (d: Self)
        ensures
            d == *self,
    {
        RegionDecl {
            name: self.name.clone(),
            published: self.published,
            per_cpu: self.per_cpu,
            words: self.words,
            init: self.init,
        }
    }
}

#[derive(Debug)]
pub struct Layout {
    pub regions: Vec<RegionDecl>,
}

impl View for Layout {
    type V = Seq<RegionDecl>;

    open spec fn view(&self) -> Seq<RegionDecl> {
        self.regions@
    }
}

impl Clone for Layout {
    fn clone(&self) -> (l: Self)
        ensures
            l@ == self@,
    {
        let regions = self.regions.clone();
        assert(regions@ =~= self.regions@);
        Layout { regions }
    }
}

impl Default for Layout {
    fn default() -> (l: Self)
        ensures
            l@ == Seq::<RegionDecl>::empty(),
    {
        Layout { regions: Vec::new() }
    }
}

impl Layout {
    #[must_use]
    pub fn new() -> (l: Self)
        ensures
            l@ == Seq::<RegionDecl>::empty(),
    {
        Self::default()
    }

    fn add(&mut self, decl: RegionDecl) -> (id: RegionId)
        ensures
            final(self)@ == old(self)@.push(decl),
            id.0 == old(self)@.len(),
    {
        self.regions.push(decl);
        RegionId(self.regions.len() - 1)
    }

    /// Declare a per-CPU region that other actors can see.
    pub fn published_per_cpu(&mut self, name: &str, words: usize, init: u64) -> (id: RegionId)
        ensures
            id.0 == old(self)@.len(),
            final(self)@.len() == old(self)@.len() + 1,
            final(self)@.drop_last() == old(self)@,
            final(self)@.last().is(name@, true, true, words, init),
    {
        let id = self.add(
            RegionDecl { name: name.to_owned(), published: true, per_cpu: true, words, init },
        );
        assert(self@.drop_last() =~= old(self)@);
        id
    }

    /// Declare a shared region that other actors can see.
    pub fn published_shared(&mut self, name: &str, words: usize, init: u64) -> (id: RegionId)
        ensures
            id.0 == old(self)@.len(),
            final(self)@.len() == old(self)@.len() + 1,
            final(self)@.drop_last() == old(self)@,
            final(self)@.last().is(name@, true, false, words, init),
    {
        let id = self.add(
            RegionDecl { name: name.to_owned(), published: true, per_cpu: false, words, init },
        );
        assert(self@.drop_last() =~= old(self)@);
        id
    }

    /// Declare a per-CPU region that no other actor may observe.
    pub fn scratch_per_cpu(&mut self, name: &str, words: usize, init: u64) -> (id: RegionId)
        ensures
            id.0 == old(self)@.len(),
            final(self)@.len() == old(self)@.len() + 1,
            final(self)@.drop_last() == old(self)@,
            final(self)@.last().is(name@, false, true, words, init),
    {
        let id = self.add(
            RegionDecl { name: name.to_owned(), published: false, per_cpu: true, words, init },
        );
        assert(self@.drop_last() =~= old(self)@);
        id
    }

    /// Declare a shared region that no other actor may observe.
    pub fn scratch_shared(&mut self, name: &str, words: usize, init: u64) -> (id: RegionId)
        ensures
            id.0 == old(self)@.len(),
            final(self)@.len() == old(self)@.len() + 1,
            final(self)@.drop_last() == old(self)@,
            final(self)@.last().is(name@, false, false, words, init),
    {
        let id = self.add(
            RegionDecl { name: name.to_owned(), published: false, per_cpu: false, words, init },
        );
        assert(self@.drop_last() =~= old(self)@);
        id
    }

    /// The declaration of region `r`.
    #[must_use]
    pub fn decl(&self, r: RegionId) -> (d: &RegionDecl)
        requires
            r.0 < self@.len(),
        ensures
            *d == self@[r.0 as int],
    {
        &self.regions[r.0]
    }
}

#[derive(Debug)]
pub struct Program {
    pub name: String,
    pub ops: Vec<Op>,
    /// Optional result, evaluated after a successful commit (e.g. the popped
    /// element). Early exit yields no result.
    pub ret: Option<Operand>,
}

impl Clone for Program {
    fn clone(&self) -> (p: Self)
        ensures
            p.name == self.name,
            p.ops@ == self.ops@,
            p.ret == self.ret,
    {
        let ops = self.ops.clone();
        assert(ops@ =~= self.ops@);
        Program { name: self.name.clone(), ops, ret: self.ret }
    }
}

#[derive(Clone, Copy, PartialEq, Eq, Structural, Debug)]
pub enum ValidateError {
    Empty,
    CommitNotLast { at: usize },
    MissingCommit,
    UnknownRegion { at: usize, region: RegionId },
    ScratchStoreToPublished { at: usize, region: RegionId },
    CommitToScratch { region: RegionId },
    UseBeforeDef { at: usize, reg: Reg },
    RetUndefined { reg: Reg },
}

/// Whether one of the first `at` operations defines register `r`.
pub open spec fn defined_before(ops: Seq<Op>, at: int, r: Reg) -> bool {
    exists|i: int| 0 <= i < at && #[trigger] ops[i].dst() == Some(r)
}

/// Whether `o` can be read by an operation at position `at`: an immediate, or
/// a register that an earlier operation defined.
pub open spec fn readable(ops: Seq<Op>, at: int, o: Operand) -> bool {
    match o {
        Operand::Reg(r) => defined_before(ops, at, r),
        Operand::Imm(_) => true,
    }
}

/// The first operand in `uses` that is not readable at position `at`.
pub open spec fn unreadable_use(ops: Seq<Op>, at: int, uses: Seq<Operand>) -> Option<Reg>
    decreases uses.len(),
{
    if uses.len() == 0 {
        None
    } else if !readable(ops, at, uses[0]) {
        Some(uses[0]->Reg_0)
    } else {
        unreadable_use(ops, at, uses.drop_first())
    }
}

/// The structural rule that the operation at position `at` breaks, if any:
/// placement of the commit first, then the region, then the operands.
pub open spec fn op_violation(decls: Seq<RegionDecl>, ops: Seq<Op>, at: int) -> Option<ValidateError> {
    let op = ops[at];
    if op is Commit && at != ops.len() - 1 {
        Some(ValidateError::CommitNotLast { at: at as usize })
    } else if op.region() matches Some(region) && region.0 >= decls.len() {
        Some(ValidateError::UnknownRegion { at: at as usize, region: op.region().unwrap() })
    } else if op is StoreScratch && decls[op.region().unwrap().0 as int].published {
        Some(
            ValidateError::ScratchStoreToPublished {
                at: at as usize,
                region: op.region().unwrap(),
            },
        )
    } else if op is Commit && !decls[op.region().unwrap().0 as int].published {
        Some(ValidateError::CommitToScratch { region: op.region().unwrap() })
    } else {
        match unreadable_use(ops, at, op.uses()) {
            Some(r) => Some(ValidateError::UseBeforeDef { at: at as usize, reg: r }),
            None => None,
        }
    }
}

/// The violation of the first operation, from position `from` on, that has
/// one.
pub open spec fn first_violation(
    decls: Seq<RegionDecl>,
    ops: Seq<Op>,
    from: int,
) -> Option<ValidateError>
    decreases ops.len() - from,
{
    if from >= ops.len() {
        None
    } else {
        match op_violation(decls, ops, from) {
            Some(e) => Some(e),
            None => first_violation(decls, ops, from + 1),
        }
    }
}

/// The verdict on a program: the first broken rule in program order, then
/// the missing commit, then the undefined result.
pub open spec fn verdict(
    decls: Seq<RegionDecl>,
    ops: Seq<Op>,
    ret: Option<Operand>,
) -> Result<(), ValidateError> {
    if ops.len() == 0 {
        Err(ValidateError::Empty)
    } else if first_violation(decls, ops, 0) is Some {
        Err(first_violation(decls, ops, 0).unwrap())
    } else if !(ops.last() is Commit) {
        Err(ValidateError::MissingCommit)
    } else if ret matches Some(Operand::Reg(r)) && !defined_before(ops, ops.len() as int, r) {
        Err(ValidateError::RetUndefined { reg: ret.unwrap()->Reg_0 })
    } else {
        Ok(())
    }
}

/// The last operation is a commit and no other is.
pub open spec fn one_terminal_commit(ops: Seq<Op>) -> bool {
    &&& ops.len() > 0
    &&& ops.last() is Commit
    &&& forall|i: int| 0 <= i < ops.len() - 1 ==> !(#[trigger] ops[i] is Commit)
}

/// Every region that an operation touches is declared, and is of the kind
/// that the operation may touch.
pub open spec fn regions_respected(decls: Seq<RegionDecl>, op: Op) -> bool {
    op.region() matches Some(r) ==> {
        &&& r.0 < decls.len()
        &&& op is StoreScratch ==> !decls[r.0 as int].published
        &&& op is Commit ==> decls[r.0 as int].published
    }
}

/// The shape of a valid restartable sequence: one committing store, which is
/// terminal and publishes; scratch stores that publish nothing; and no
/// register read before it is defined.
pub open spec fn well_shaped(decls: Seq<RegionDecl>, ops: Seq<Op>, ret: Option<Operand>) -> bool {
    &&& one_terminal_commit(ops)
    &&& forall|i: int| 0 <= i < ops.len() ==> regions_respected(decls, #[trigger] ops[i])
    &&& forall|i: int, k: int|
        0 <= i < ops.len() && 0 <= k < ops[i].uses().len() ==> readable(
            ops,
            i,
            #[trigger] ops[i].uses()[k],
        )
    &&& ret matches Some(o) ==> readable(ops, ops.len() as int, o)
}

proof fn lemma_no_unreadable_use(ops: Seq<Op>, at: int, uses: Seq<Operand>)
    ensures
        unreadable_use(ops, at, uses) is None <==> forall|k: int|
            0 <= k < uses.len() ==> readable(ops, at, #[trigger] uses[k]),
    decreases uses.len(),
{
    if uses.len() > 0 {
        lemma_no_unreadable_use(ops, at, uses.drop_first());
        if unreadable_use(ops, at, uses) is None {
            assert forall|k: int| 0 <= k < uses.len() implies readable(
                ops,
                at,
                #[trigger] uses[k],
            ) by {
                if k > 0 {
                    assert(uses[k] == uses.drop_first()[k - 1]);
                }
            }
        } else if readable(ops, at, uses[0]) {
            let k = choose|k: int|
                0 <= k < uses.drop_first().len() && !readable(
                    ops,
                    at,
                    #[trigger] uses.drop_first()[k],
                );
            assert(uses[k + 1] == uses.drop_first()[k]);
        }
    }
}

proof fn lemma_no_violation(decls: Seq<RegionDecl>, ops: Seq<Op>, from: int)
    requires
        0 <= from,
    ensures
        first_violation(decls, ops, from) is None <==> forall|i: int|
            from <= i < ops.len() ==> #[trigger] op_violation(decls, ops, i) is None,
    decreases ops.len() - from,
{
    if from < ops.len() {
        lemma_no_violation(decls, ops, from + 1);
    }
}

/// The validator accepts exactly the well-shaped programs.
pub proof fn law_accepted_is_well_shaped(
    decls: Seq<RegionDecl>,
    ops: Seq<Op>,
    ret: Option<Operand>,
)
    ensures
        verdict(decls, ops, ret) is Ok <==> well_shaped(decls, ops, ret),
{
    lemma_no_violation(decls, ops, 0);
    assert forall|i: int| 0 <= i < ops.len() implies (#[trigger] op_violation(decls, ops, i) is None
        <==> {
        &&& ops[i] is Commit ==> i == ops.len() - 1
        &&& regions_respected(decls, ops[i])
        &&& forall|k: int|
            0 <= k < ops[i].uses().len() ==> readable(ops, i, #[trigger] ops[i].uses()[k])
    }) by {
        lemma_no_unreadable_use(ops, i, ops[i].uses());
    }
    if verdict(decls, ops, ret) is Ok {
        assert forall|i: int| 0 <= i < ops.len() implies regions_respected(
            decls,
            #[trigger] ops[i],
        ) by {
            assert(op_violation(decls, ops, i) is None);
        }
        assert forall|i: int| 0 <= i < ops.len() - 1 implies !(#[trigger] ops[i] is Commit) by {
            assert(op_violation(decls, ops, i) is None);
        }
        assert forall|i: int, k: int|
            0 <= i < ops.len() && 0 <= k < ops[i].uses().len() implies readable(
            ops,
            i,
            #[trigger] ops[i].uses()[k],
        ) by {
            assert(op_violation(decls, ops, i) is None);
        }
    }
    if well_shaped(decls, ops, ret) {
        assert forall|i: int| 0 <= i < ops.len() implies #[trigger] op_violation(decls, ops, i)
            is None by {
            assert(regions_respected(decls, ops[i]));
        }
    }
}

impl Program {
    /// Whether register `r` occurs anywhere in the program.
    pub open spec fn mentions(self, r: Reg) -> bool {
        ||| exists|i: int| 0 <= i < self.ops@.len() && #[trigger] self.ops@[i].mentions(r)
        ||| self.ret == Some(Operand::Reg(r))
    }

    /// Register numbers leave room for a table with one entry per register.
    pub open spec fn regs_fit(self) -> bool {
        !self.mentions(usize::MAX)
    }

    /// Check the structural invariants of a valid restartable sequence.
    ///
    /// # Errors
    ///
    /// Returns the first structural violation found: no or misplaced commit,
    /// writes to the wrong region kind, or a register used before it is
    /// defined.
    pub fn validate(&self, layout: &Layout) -> (res: Result<(), ValidateError>)
        requires
            self.regs_fit(),
        ensures
            res == verdict(layout@, self.ops@, self.ret),
            res is Ok <==> well_shaped(layout@, self.ops@, self.ret),
    {
        proof {
            law_accepted_is_well_shaped(layout@, self.ops@, self.ret);
        }
        if self.ops.is_empty() {
            return Err(ValidateError::Empty);
        }
        let nregs: usize = match self.max_reg() {
            Some(r) => r + 1,
            None => 0,
        };
        let mut defined: Vec<bool> = vec![false; nregs];
        let last: usize = self.ops.len() - 1;
        let mut at: usize = 0;
        while at < self.ops.len()
            invariant
                at <= self.ops@.len(),
                self.ops@.len() > 0,
                last == self.ops@.len() - 1,
                defined@.len() == nregs,
                forall|r: Reg| self.mentions(r) ==> r < nregs,
                forall|r: Reg|
                    r < nregs ==> (#[trigger] defined@[r as int] <==> defined_before(
                        self.ops@,
                        at as int,
                        r,
                    )),
                first_violation(layout@, self.ops@, 0) == first_violation(
                    layout@,
                    self.ops@,
                    at as int,
                ),
            decreases self.ops@.len() - at,
        {
            let op = self.ops[at];
            proof {
                reveal_with_fuel(unreadable_use, 3);
                lemma_defined_step(self.ops@, at as int);
                lemma_small_drop(op);
                assert forall|r: Reg| op.mentions(r) implies r < nregs by {
                    assert(self.ops@[at as int].mentions(r));
                    assert(self.mentions(r));
                }
                assert forall|k: int|
                    0 <= k < op.uses().len() && #[trigger] op.uses()[k] is Reg implies op.uses()[k]->Reg_0
                    < nregs by {
                    assert(op.uses().contains(op.uses()[k]));
                    assert(op.mentions(op.uses()[k]->Reg_0));
                }
                if op.dst() is Some {
                    assert(op.mentions(op.dst().unwrap()));
                }
            }
            match op {
                Op::Commit { .. } => {
                    if at != last {
                        return Err(ValidateError::CommitNotLast { at });
                    }
                },
                _ => {},
            }
            match op {
                Op::CpuId { dst } => {
                    defined.set(dst, true);
                },
                Op::CpuIdHoisted { dst } => {
                    defined.set(dst, true);
                },
                Op::Const { dst, .. } => {
                    defined.set(dst, true);
                },
                Op::Param { dst, .. } => {
                    defined.set(dst, true);
                },
                Op::Load { dst, addr } => {
                    if let Err(e) = check_region(at, addr.region, layout) {
                        return Err(e);
                    }
                    if let Err(e) = check_use(at, addr.index, &defined) {
                        assert(op.uses()[0] == addr.index);
                        return Err(e);
                    }
                    defined.set(dst, true);
                },
                Op::Bin { dst, lhs, rhs, .. } => {
                    assert(op.uses()[0] == lhs && op.uses()[1] == rhs);
                    if let Err(e) = check_use(at, lhs, &defined) {
                        return Err(e);
                    }
                    if let Err(e) = check_use(at, rhs, &defined) {
                        return Err(e);
                    }
                    defined.set(dst, true);
                },
                Op::ExitIf { lhs, rhs, .. } => {
                    assert(op.uses()[0] == lhs && op.uses()[1] == rhs);
                    if let Err(e) = check_use(at, lhs, &defined) {
                        return Err(e);
                    }
                    if let Err(e) = check_use(at, rhs, &defined) {
                        return Err(e);
                    }
                },
                Op::StoreScratch { addr, src } => {
                    assert(op.uses()[0] == addr.index && op.uses()[1] == src);
                    if let Err(e) = check_region(at, addr.region, layout) {
                        return Err(e);
                    }
                    if layout.decl(addr.region).published {
                        return Err(
                            ValidateError::ScratchStoreToPublished { at, region: addr.region },
                        );
                    }
                    if let Err(e) = check_use(at, addr.index, &defined) {
                        return Err(e);
                    }
                    if let Err(e) = check_use(at, src, &defined) {
                        return Err(e);
                    }
                },
                Op::Commit { addr, src } => {
                    assert(op.uses()[0] == addr.index && op.uses()[1] == src);
                    if let Err(e) = check_region(at, addr.region, layout) {
                        return Err(e);
                    }
                    if !layout.decl(addr.region).published {
                        return Err(ValidateError::CommitToScratch { region: addr.region });
                    }
                    if let Err(e) = check_use(at, addr.index, &defined) {
                        return Err(e);
                    }
                    if let Err(e) = check_use(at, src, &defined) {
                        return Err(e);
                    }
                },
            }
            at = at + 1;
        }
        match self.ops[last] {
            Op::Commit { .. } => {},
            _ => {
                return Err(ValidateError::MissingCommit);
            },
        }
        if let Some(Operand::Reg(r)) = self.ret {
            assert(self.mentions(r));
            if !defined[r] {
                return Err(ValidateError::RetUndefined { reg: r });
            }
        }
        Ok(())
    }

    /// The highest register number in the program.
    pub(crate) fn max_reg(&self) -> (res: Option<Reg>)
        ensures
            res matches Some(m) ==> self.mentions(m),
            forall|r: Reg| #[trigger] self.mentions(r) ==> res is Some && r <= res.unwrap(),
    {
        let mut max: Option<Reg> = None;
        let mut at: usize = 0;
        while at < self.ops.len()
            invariant
                at <= self.ops@.len(),
                max matches Some(m) ==> self.mentions(m),
                forall|i: int, r: Reg|
                    0 <= i < at && #[trigger] self.ops@[i].mentions(r) ==> max is Some && r
                        <= max.unwrap(),
            decreases self.ops@.len() - at,
        {
            let ghost before = max;
            let op = self.ops[at];
            proof {
                lemma_two_uses(op);
                assert forall|r: Reg| op.mentions(r) implies self.mentions(r) by {
                    assert(self.ops@[at as int].mentions(r));
                }
            }
            match op {
                Op::CpuId { dst } => {
                    max = higher(max, Operand::Reg(dst));
                },
                Op::CpuIdHoisted { dst } => {
                    max = higher(max, Operand::Reg(dst));
                },
                Op::Const { dst, .. } => {
                    max = higher(max, Operand::Reg(dst));
                },
                Op::Param { dst, .. } => {
                    max = higher(max, Operand::Reg(dst));
                },
                Op::Load { dst, addr } => {
                    max = higher(higher(max, Operand::Reg(dst)), addr.index);
                },
                Op::Bin { dst, lhs, rhs, .. } => {
                    max = higher(higher(higher(max, Operand::Reg(dst)), lhs), rhs);
                },
                Op::ExitIf { lhs, rhs, .. } => {
                    max = higher(higher(max, lhs), rhs);
                },
                Op::StoreScratch { addr, src } => {
                    max = higher(higher(max, addr.index), src);
                },
                Op::Commit { addr, src } => {
                    max = higher(higher(max, addr.index), src);
                },
            }
            at = at + 1;
        }
        if let Some(o) = self.ret {
            max = higher(max, o);
        }
        max
    }
}

/// `max`, raised to the register in `o` if there is one and it is higher.
fn higher(max: Option<Reg>, o: Operand) -> (res: Option<Reg>)
    ensures
        res == max || (o matches Operand::Reg(r) && res == Some(r)),
        max matches Some(m) ==> res is Some && m <= res.unwrap(),
        o matches Operand::Reg(r) ==> res is Some && r <= res.unwrap(),
{
    match o {
        Operand::Reg(r) => match max {
            Some(m) if m >= r => Some(m),
            _ => Some(r),
        },
        Operand::Imm(_) => max,
    }
}

/// Refuse an operand whose register is not in the table of defined ones.
fn check_use(at: usize, operand: Operand, defined: &Vec<bool>) -> (res: Result<(), ValidateError>)
    ensures
        res == match operand {
            Operand::Reg(r) => if r < defined@.len() && defined@[r as int] {
                Ok(())
            } else {
                Err(ValidateError::UseBeforeDef { at, reg: r })
            },
            Operand::Imm(_) => Ok(()),
        },
{
    match operand {
        Operand::Reg(r) => if r < defined.len() && defined[r] {
            Ok(())
        } else {
            Err(ValidateError::UseBeforeDef { at, reg: r })
        },
        Operand::Imm(_) => Ok(()),
    }
}

/// Refuse a region that the layout does not declare.
fn check_region(at: usize, region: RegionId, layout: &Layout) -> (res: Result<(), ValidateError>)
    ensures
        res == (if region.0 >= layout@.len() {
            Err(ValidateError::UnknownRegion { at, region })
        } else {
            Ok(())
        }),
{
    if region.0 >= layout.regions.len() {
        Err(ValidateError::UnknownRegion { at, region })
    } else {
        Ok(())
    }
}

/// One more operation defines its own destination and nothing else.
pub proof fn lemma_defined_step(ops: Seq<Op>, at: int)
    requires
        0 <= at < ops.len(),
    ensures
        forall|r: Reg| #[trigger]
            defined_before(ops, at + 1, r) <==> (defined_before(ops, at, r) || ops[at].dst()
                == Some(r)),
{
    assert forall|r: Reg| #[trigger] defined_before(ops, at + 1, r) implies (defined_before(
        ops,
        at,
        r,
    ) || ops[at].dst() == Some(r)) by {
        let i = choose|i: int| 0 <= i < at + 1 && #[trigger] ops[i].dst() == Some(r);
        if i < at {
            assert(defined_before(ops, at, r));
        }
    }
    assert forall|r: Reg| ops[at].dst() == Some(r) implies #[trigger] defined_before(
        ops,
        at + 1,
        r,
    ) by {}
}

/// The operand list of an operation, taken apart.
proof fn lemma_small_drop(op: Op)
    ensures
        op.uses().len() <= 2,
        op.uses().len() == 1 ==> op.uses().drop_first() == Seq::<Operand>::empty(),
        op.uses().len() == 2 ==> op.uses().drop_first() == seq![op.uses()[1]],
        op.uses().len() == 2 ==> op.uses().drop_first().drop_first() == Seq::<Operand>::empty(),
{
    if op.uses().len() == 1 {
        assert(op.uses().drop_first() =~= Seq::<Operand>::empty());
    }
    if op.uses().len() == 2 {
        assert(op.uses().drop_first() =~= seq![op.uses()[1]]);
        assert(op.uses().drop_first().drop_first() =~= Seq::<Operand>::empty());
    }
}

/// Membership in the operand list of an operation, spelled out.
proof fn lemma_two_uses(op: Op)
    ensures
        forall|o: Operand| #[trigger]
            op.uses().contains(o) <==> (op.uses().len() > 0 && op.uses()[0] == o) || (
            op.uses().len() > 1 && op.uses()[1] == o),
{
    lemma_small_drop(op);
    assert forall|o: Operand| #[trigger] op.uses().contains(o) implies (op.uses().len() > 0
        && op.uses()[0] == o) || (op.uses().len() > 1 && op.uses()[1] == o) by {
        let k = choose|k: int| 0 <= k < op.uses().len() && op.uses()[k] == o;
        assert(k == 0 || k == 1);
    }
}

/// Number of operations in `ops` that define a register.
pub open spec fn def_count(ops: Seq<Op>) -> nat
    decreases ops.len(),
{
    if ops.len() == 0 {
        0
    } else {
        def_count(ops.drop_last()) + if ops.last().dst() is Some {
            1nat
        } else {
            0nat
        }
    }
}

/// Registers are numbered from zero in the order of their definitions, so
/// that no register is defined twice.
pub open spec fn numbered_in_order(ops: Seq<Op>) -> bool {
    forall|i: int|
        0 <= i < ops.len() && (#[trigger] ops[i]).dst() is Some ==> ops[i].dst().unwrap()
            == def_count(ops.take(i))
}

/// One more operation counts one more definition, if it defines a register.
pub broadcast proof fn lemma_def_count_push(ops: Seq<Op>, op: Op)
    ensures
        #[trigger] def_count(ops.push(op)) == def_count(ops) + if op.dst() is Some {
            1nat
        } else {
            0nat
        },
        def_count(ops) <= ops.len(),
    decreases ops.len(),
{
    assert(ops.push(op).drop_last() =~= ops);
    if ops.len() > 0 {
        lemma_def_count_push(ops.drop_last(), ops.last());
        assert(ops.drop_last().push(ops.last()) =~= ops);
    }
}

proof fn lemma_numbered_push(ops: Seq<Op>, op: Op)
    requires
        numbered_in_order(ops),
        op.dst() matches Some(d) ==> d == def_count(ops),
    ensures
        numbered_in_order(ops.push(op)),
{
    assert forall|i: int|
        0 <= i < ops.push(op).len() && (#[trigger] ops.push(op)[i]).dst() is Some implies ops.push(
        op,
    )[i].dst().unwrap() == def_count(ops.push(op).take(i)) by {
        assert(ops.push(op).take(i) =~= ops.take(i));
        if i == ops.len() {
            assert(ops.take(i) =~= ops);
        }
    }
}

proof fn lemma_def_count_monotone(ops: Seq<Op>, i: int, j: int)
    requires
        0 <= i <= j <= ops.len(),
    ensures
        def_count(ops.take(i)) <= def_count(ops.take(j)),
    decreases j - i,
{
    if i < j {
        lemma_def_count_monotone(ops, i, j - 1);
        assert(ops.take(j).drop_last() =~= ops.take(j - 1));
    }
}

/// A program numbered in order is in SSA form: two operations never define
/// the same register.
pub proof fn law_numbered_is_ssa(ops: Seq<Op>, i: int, j: int)
    requires
        numbered_in_order(ops),
        0 <= i < j < ops.len(),
        ops[i].dst() is Some,
    ensures
        ops[i].dst() != ops[j].dst(),
{
    assert(ops.take(i + 1).drop_last() =~= ops.take(i));
    lemma_def_count_monotone(ops, i + 1, j);
}

/// Builder for programs. Consuming `commit`/`commit_ret` finishers make
/// "exactly one committing store, and it is terminal" true by construction.
pub struct SeqBuilder {
    name: String,
    ops: Vec<Op>,
    next: Reg,
}

impl View for SeqBuilder {
    type V = Seq<Op>;

    closed spec fn view(&self) -> Seq<Op> {
        self.ops@
    }
}

impl SeqBuilder {
    /// The name given to the program under construction.
    pub closed spec fn program_name(self) -> Seq<char> {
        self.name@
    }

    /// Nothing has been committed yet, and the next fresh register is the
    /// number of registers defined so far.
    pub closed spec fn wf(self) -> bool {
        &&& self.next == def_count(self.ops@)
        &&& numbered_in_order(self.ops@)
        &&& forall|i: int| 0 <= i < self.ops@.len() ==> !(#[trigger] self.ops@[i] is Commit)
    }

    #[must_use]
    pub fn new(name: &str) -> (b: Self)
        ensures
            b.wf(),
            b@ == Seq::<Op>::empty(),
            b.program_name() == name@,
    {
        Self { name: name.to_owned(), ops: Vec::new(), next: 0 }
    }

    /// Append an operation that defines the next fresh register.
    fn define(&mut self, op: Op)
        requires
            old(self).wf(),
            op.dst() == Some(old(self).next),
        ensures
            final(self).wf(),
            final(self)@ == old(self)@.push(op),
            final(self).program_name() == old(self).program_name(),
    {
        proof {
            lemma_def_count_push(self.ops@, op);
            lemma_numbered_push(self.ops@, op);
        }
        self.ops.push(op);
        proof {
            lemma_def_count_push(self.ops@, op);
            assert(self.ops@.len() == self.ops.len());
        }
        self.next = self.next + 1;
    }

    /// Append an operation that defines no register.
    fn append(&mut self, op: Op)
        requires
            old(self).wf(),
            op.dst() is None,
            !(op is Commit),
        ensures
            final(self).wf(),
            final(self)@ == old(self)@.push(op),
            final(self).program_name() == old(self).program_name(),
    {
        proof {
            lemma_def_count_push(self.ops@, op);
            lemma_numbered_push(self.ops@, op);
        }
        self.ops.push(op);
    }

    /// The register the next defining operation will define.
    fn fresh(&self) -> (r: Reg)
        requires
            self.wf(),
        ensures
            r == self.next,
            r == def_count(self@),
    {
        self.next
    }

    pub fn cpu_id(&mut self) -> (dst: Reg)
        requires
            old(self).wf(),
        ensures
            final(self).wf(),
            dst == def_count(old(self)@),
            final(self)@ == old(self)@.push(Op::CpuId { dst }),
            final(self).program_name() == old(self).program_name(),
    {
        let dst = self.fresh();
        self.define(Op::CpuId { dst });
        dst
    }

    /// See [`Op::CpuIdHoisted`]: deliberately buggy, for checker tests.
    pub fn cpu_id_hoisted(&mut self) -> (dst: Reg)
        requires
            old(self).wf(),
        ensures
            final(self).wf(),
            dst == def_count(old(self)@),
            final(self)@ == old(self)@.push(Op::CpuIdHoisted { dst }),
            final(self).program_name() == old(self).program_name(),
    {
        let dst = self.fresh();
        self.define(Op::CpuIdHoisted { dst });
        dst
    }

    pub fn constant(&mut self, value: u64) -> (dst: Reg)
        requires
            old(self).wf(),
        ensures
            final(self).wf(),
            dst == def_count(old(self)@),
            final(self)@ == old(self)@.push(Op::Const { dst, value }),
            final(self).program_name() == old(self).program_name(),
    {
        let dst = self.fresh();
        self.define(Op::Const { dst, value });
        dst
    }

    /// Read run-time parameter `index`.
    pub fn param(&mut self, index: usize) -> (dst: Reg)
        requires
            old(self).wf(),
        ensures
            final(self).wf(),
            dst == def_count(old(self)@),
            final(self)@ == old(self)@.push(Op::Param { dst, index }),
            final(self).program_name() == old(self).program_name(),
    {
        let dst = self.fresh();
        self.define(Op::Param { dst, index });
        dst
    }

    pub fn load(&mut self, region: RegionId, index: Operand) -> (dst: Reg)
        requires
            old(self).wf(),
        ensures
            final(self).wf(),
            dst == def_count(old(self)@),
            final(self)@ == old(self)@.push(Op::Load { dst, addr: Addr { region, index } }),
            final(self).program_name() == old(self).program_name(),
    {
        let dst = self.fresh();
        self.define(Op::Load { dst, addr: Addr { region, index } });
        dst
    }

    pub fn bin(&mut self, op: BinOp, lhs: Operand, rhs: Operand) -> (dst: Reg)
        requires
            old(self).wf(),
        ensures
            final(self).wf(),
            dst == def_count(old(self)@),
            final(self)@ == old(self)@.push(Op::Bin { dst, op, lhs, rhs }),
            final(self).program_name() == old(self).program_name(),
    {
        let dst = self.fresh();
        self.define(Op::Bin { dst, op, lhs, rhs });
        dst
    }

    pub fn exit_if(&mut self, cond: Cond, lhs: Operand, rhs: Operand)
        requires
            old(self).wf(),
        ensures
            final(self).wf(),
            final(self)@ == old(self)@.push(Op::ExitIf { cond, lhs, rhs }),
            final(self).program_name() == old(self).program_name(),
    {
        self.append(Op::ExitIf { cond, lhs, rhs });
    }

    pub fn store_scratch(&mut self, region: RegionId, index: Operand, src: Operand)
        requires
            old(self).wf(),
        ensures
            final(self).wf(),
            final(self)@ == old(self)@.push(
                Op::StoreScratch { addr: Addr { region, index }, src },
            ),
            final(self).program_name() == old(self).program_name(),
    {
        self.append(Op::StoreScratch { addr: Addr { region, index }, src });
    }

    /// Finish the program with its committing store.
    #[must_use]
    pub fn commit(self, region: RegionId, index: Operand, src: Operand) -> (p: Program)
        requires
            self.wf(),
        ensures
            p.ops@ == self@.push(Op::Commit { addr: Addr { region, index }, src }),
            p.name@ == self.program_name(),
            p.ret is None,
            one_terminal_commit(p.ops@),
            numbered_in_order(p.ops@),
    {
        self.finish(region, index, src, None)
    }

    /// Finish the program with its committing store and a result.
    #[must_use]
    pub fn commit_ret(
        self,
        region: RegionId,
        index: Operand,
        src: Operand,
        ret: Operand,
    ) -> (p: Program)
        requires
            self.wf(),
        ensures
            p.ops@ == self@.push(Op::Commit { addr: Addr { region, index }, src }),
            p.name@ == self.program_name(),
            p.ret == Some(ret),
            one_terminal_commit(p.ops@),
            numbered_in_order(p.ops@),
    {
        self.finish(region, index, src, Some(ret))
    }

    fn finish(
        self,
        region: RegionId,
        index: Operand,
        src: Operand,
        ret: Option<Operand>,
    ) -> (p: Program)
        requires
            self.wf(),
        ensures
            p.ops@ == self@.push(Op::Commit { addr: Addr { region, index }, src }),
            p.name@ == self.program_name(),
            p.ret == ret,
            one_terminal_commit(p.ops@),
            numbered_in_order(p.ops@),
    {
        let mut ops = self.ops;
        let op = Op::Commit { addr: Addr { region, index }, src };
        proof {
            lemma_numbered_push(ops@, op);
        }
        ops.push(op);
        Program { name: self.name, ops, ret }
    }
}

} // verus!
