//! Example programs: the classic per-CPU data structures rseq exists for,
//! plus a deliberately buggy variant that the checker must reject.

use vstd::prelude::*;

use crate::ir::{imm, reg, Addr, BinOp, Cond, Layout, Op, Operand, Program, RegionId, SeqBuilder};

verus! {

broadcast use crate::ir::lemma_def_count_push;

/// Sentinel for "no node" in the freelist.
pub const NIL: u64 = 0xffff_ffff_ffff_ffff;

/// The counter increment on the slot whose index is in register `slot`,
/// after `first` has put it there.
pub open spec fn increment_ops(counters: RegionId, first: Seq<Op>, slot: usize) -> Seq<Op> {
    first + seq![
        Op::Load {
            dst: (slot + 1) as usize,
            addr: Addr { region: counters, index: Operand::Reg(slot) },
        },
        Op::Bin {
            dst: (slot + 2) as usize,
            op: BinOp::Add,
            lhs: Operand::Reg((slot + 1) as usize),
            rhs: Operand::Imm(1),
        },
        Op::Commit {
            addr: Addr { region: counters, index: Operand::Reg(slot) },
            src: Operand::Reg((slot + 2) as usize),
        },
    ]
}

/// Per-CPU counter increment: the "hello world" of restartable sequences.
pub fn counter_inc() -> (res: (Layout, Program, RegionId))
    ensures
        res.0@.len() == 1,
        res.0@[0].is("counters"@, true, true, 1, 0),
        res.2.0 == 0,
        res.1.name@ == "counter_inc"@,
        res.1.ops@ == increment_ops(res.2, seq![Op::CpuId { dst: 0 }], 0),
        res.1.ret is None,
{
    let mut layout = Layout::new();
    let counters = layout.published_per_cpu("counters", 1, 0);
    let mut b = SeqBuilder::new("counter_inc");
    let cpu = b.cpu_id();
    let v = b.load(counters, reg(cpu));
    let inc = b.bin(BinOp::Add, reg(v), imm(1));
    let prog = b.commit(counters, reg(cpu), reg(inc));
    assert(prog.ops@ =~= increment_ops(counters, seq![Op::CpuId { dst: 0 }], 0));
    (layout, prog, counters)
}

/// Per-CPU counter increment with `stride` words per CPU, of which the first
/// counts: a stride of a cache line keeps the CPUs from sharing one.
pub fn counter_inc_strided(stride: usize) -> (res: (Layout, Program, RegionId))
    ensures
        res.0@.len() == 1,
        res.0@[0].is("counters"@, true, true, stride, 0),
        res.2.0 == 0,
        res.1.name@ == "counter_inc_strided"@,
        res.1.ops@ == increment_ops(
            res.2,
            seq![
                Op::CpuId { dst: 0 },
                Op::Bin {
                    dst: 1,
                    op: BinOp::Mul,
                    lhs: Operand::Reg(0),
                    rhs: Operand::Imm(stride as u64),
                },
            ],
            1,
        ),
        res.1.ret is None,
{
    let mut layout = Layout::new();
    let counters = layout.published_per_cpu("counters", stride, 0);
    let mut b = SeqBuilder::new("counter_inc_strided");
    let cpu = b.cpu_id();
    let slot = b.bin(BinOp::Mul, reg(cpu), imm(stride as u64));
    let v = b.load(counters, reg(slot));
    let inc = b.bin(BinOp::Add, reg(v), imm(1));
    let prog = b.commit(counters, reg(slot), reg(inc));
    assert(prog.ops@ =~= increment_ops(
        counters,
        seq![
            Op::CpuId { dst: 0 },
            Op::Bin {
                dst: 1,
                op: BinOp::Mul,
                lhs: Operand::Reg(0),
                rhs: Operand::Imm(stride as u64),
            },
        ],
        1,
    ));
    (layout, prog, counters)
}

/// The hoisting bug: the CPU id is read once before the sequence and cached,
/// so after a migration the commit targets the *old* CPU's counter.
pub fn counter_inc_hoisted() -> (res: (Layout, Program, RegionId))
    ensures
        res.0@.len() == 1,
        res.0@[0].is("counters"@, true, true, 1, 0),
        res.2.0 == 0,
        res.1.name@ == "counter_inc_hoisted"@,
        res.1.ops@ == increment_ops(res.2, seq![Op::CpuIdHoisted { dst: 0 }], 0),
        res.1.ret is None,
{
    let mut layout = Layout::new();
    let counters = layout.published_per_cpu("counters", 1, 0);
    let mut b = SeqBuilder::new("counter_inc_hoisted");
    let cpu = b.cpu_id_hoisted();
    let v = b.load(counters, reg(cpu));
    let inc = b.bin(BinOp::Add, reg(v), imm(1));
    let prog = b.commit(counters, reg(cpu), reg(inc));
    assert(prog.ops@ =~= increment_ops(counters, seq![Op::CpuIdHoisted { dst: 0 }], 0));
    (layout, prog, counters)
}

pub struct Freelist {
    pub layout: Layout,
    pub heads: RegionId,
    pub nodes: RegionId,
    pub nnodes: usize,
}

/// Per-CPU freelist over a shared node pool. `heads[cpu]` is published;
/// `nodes[i]` holds node i's next pointer and is scratch (a node being
/// pushed is owned by the pusher until the head swings to it).
pub fn freelist(nnodes: usize) -> (fl: Freelist)
    ensures
        fl.layout@.len() == 2,
        fl.layout@[0].is("heads"@, true, true, 1, NIL),
        fl.layout@[1].is("nodes"@, false, false, nnodes, NIL),
        fl.heads.0 == 0,
        fl.nodes.0 == 1,
        fl.nnodes == nnodes,
{
    let mut layout = Layout::new();
    let heads = layout.published_per_cpu("heads", 1, NIL);
    let nodes = layout.scratch_shared("nodes", nnodes, NIL);
    assert(layout@[0] == layout@.drop_last()[0]);
    Freelist { layout, heads, nodes, nnodes }
}

/// Read the address of `region`'s slot for the CPU in register 0.
pub open spec fn slot_of_cpu(region: RegionId) -> Addr {
    Addr { region, index: Operand::Reg(0) }
}

impl Freelist {
    /// The operations of `push`.
    pub open spec fn push_ops(heads: RegionId, nodes: RegionId) -> Seq<Op> {
        seq![
            Op::CpuId { dst: 0 },
            Op::Param { dst: 1, index: 0 },
            Op::Load { dst: 2, addr: slot_of_cpu(heads) },
            Op::StoreScratch {
                addr: Addr { region: nodes, index: Operand::Reg(1) },
                src: Operand::Reg(2),
            },
            Op::Commit { addr: slot_of_cpu(heads), src: Operand::Reg(1) },
        ]
    }

    /// The operations of `pop`.
    pub open spec fn pop_ops(heads: RegionId, nodes: RegionId) -> Seq<Op> {
        seq![
            Op::CpuId { dst: 0 },
            Op::Load { dst: 1, addr: slot_of_cpu(heads) },
            Op::ExitIf { cond: Cond::Eq, lhs: Operand::Reg(1), rhs: Operand::Imm(NIL) },
            Op::Load { dst: 2, addr: Addr { region: nodes, index: Operand::Reg(1) } },
            Op::Commit { addr: slot_of_cpu(heads), src: Operand::Reg(2) },
        ]
    }

    /// Push the node in parameter 0 onto the current CPU's freelist.
    pub fn push(&self) -> (p: Program)
        ensures
            p.name@ == "freelist_push"@,
            p.ops@ == Self::push_ops(self.heads, self.nodes),
            p.ret is None,
    {
        let mut b = SeqBuilder::new("freelist_push");
        let cpu = b.cpu_id();
        let node = b.param(0);
        let head = b.load(self.heads, reg(cpu));
        b.store_scratch(self.nodes, reg(node), reg(head));
        let p = b.commit(self.heads, reg(cpu), reg(node));
        assert(p.ops@ =~= Self::push_ops(self.heads, self.nodes));
        p
    }

    /// Pop from the current CPU's freelist; exits early if empty, otherwise
    /// returns the popped node.
    pub fn pop(&self) -> (p: Program)
        ensures
            p.name@ == "freelist_pop"@,
            p.ops@ == Self::pop_ops(self.heads, self.nodes),
            p.ret == Some(Operand::Reg(1)),
    {
        let mut b = SeqBuilder::new("freelist_pop");
        let cpu = b.cpu_id();
        let head = b.load(self.heads, reg(cpu));
        b.exit_if(Cond::Eq, reg(head), imm(NIL));
        let next = b.load(self.nodes, reg(head));
        let p = b.commit_ret(self.heads, reg(cpu), reg(next), reg(head));
        assert(p.ops@ =~= Self::pop_ops(self.heads, self.nodes));
        p
    }
}

pub struct LockableFreelist {
    pub layout: Layout,
    pub locks: RegionId,
    pub heads: RegionId,
    pub nodes: RegionId,
    pub nnodes: usize,
}

/// A freelist with a drain lock per CPU: every sequence reads `locks[cpu]`
/// inside its window and exits early if it is set, so that whoever holds the
/// lock owns that CPU's list.
pub fn lockable_freelist(nnodes: usize) -> (fl: LockableFreelist)
    ensures
        fl.layout@.len() == 3,
        fl.layout@[0].is("locks"@, true, true, 1, 0),
        fl.layout@[1].is("heads"@, true, true, 1, NIL),
        fl.layout@[2].is("nodes"@, false, false, nnodes, NIL),
        fl.locks.0 == 0,
        fl.heads.0 == 1,
        fl.nodes.0 == 2,
        fl.nnodes == nnodes,
{
    let mut layout = Layout::new();
    let locks = layout.published_per_cpu("locks", 1, 0);
    let heads = layout.published_per_cpu("heads", 1, NIL);
    let ghost two = layout@;
    let nodes = layout.scratch_shared("nodes", nnodes, NIL);
    proof {
        assert(two[0] == two.drop_last()[0]);
        assert(layout@[0] == layout@.drop_last()[0]);
        assert(layout@[1] == layout@.drop_last()[1]);
    }
    LockableFreelist { layout, locks, heads, nodes, nnodes }
}

impl LockableFreelist {
    /// The lock check that opens every sequence.
    pub open spec fn lock_check(locks: RegionId) -> Seq<Op> {
        seq![
            Op::CpuId { dst: 0 },
            Op::Load { dst: 1, addr: slot_of_cpu(locks) },
            Op::ExitIf { cond: Cond::Ne, lhs: Operand::Reg(1), rhs: Operand::Imm(0) },
        ]
    }

    /// The operations of `push`.
    pub open spec fn push_ops(locks: RegionId, heads: RegionId, nodes: RegionId) -> Seq<Op> {
        Self::lock_check(locks) + seq![
            Op::Param { dst: 2, index: 0 },
            Op::Load { dst: 3, addr: slot_of_cpu(heads) },
            Op::StoreScratch {
                addr: Addr { region: nodes, index: Operand::Reg(2) },
                src: Operand::Reg(3),
            },
            Op::Commit { addr: slot_of_cpu(heads), src: Operand::Reg(2) },
        ]
    }

    /// The operations of `pop`.
    pub open spec fn pop_ops(locks: RegionId, heads: RegionId, nodes: RegionId) -> Seq<Op> {
        Self::lock_check(locks) + seq![
            Op::Load { dst: 2, addr: slot_of_cpu(heads) },
            Op::ExitIf { cond: Cond::Eq, lhs: Operand::Reg(2), rhs: Operand::Imm(NIL) },
            Op::Load { dst: 3, addr: Addr { region: nodes, index: Operand::Reg(2) } },
            Op::Commit { addr: slot_of_cpu(heads), src: Operand::Reg(3) },
        ]
    }

    /// Push the node in parameter 0 onto the current CPU's freelist; exits
    /// early if the CPU is locked.
    pub fn push(&self) -> (p: Program)
        ensures
            p.name@ == "lockable_push"@,
            p.ops@ == Self::push_ops(self.locks, self.heads, self.nodes),
            p.ret is None,
    {
        let mut b = SeqBuilder::new("lockable_push");
        let cpu = b.cpu_id();
        let lock = b.load(self.locks, reg(cpu));
        b.exit_if(Cond::Ne, reg(lock), imm(0));
        let node = b.param(0);
        let head = b.load(self.heads, reg(cpu));
        b.store_scratch(self.nodes, reg(node), reg(head));
        let p = b.commit(self.heads, reg(cpu), reg(node));
        assert(p.ops@ =~= Self::push_ops(self.locks, self.heads, self.nodes));
        p
    }

    /// Pop from the current CPU's freelist; exits early if the CPU is locked
    /// or the list is empty, otherwise returns the popped node.
    pub fn pop(&self) -> (p: Program)
        ensures
            p.name@ == "lockable_pop"@,
            p.ops@ == Self::pop_ops(self.locks, self.heads, self.nodes),
            p.ret == Some(Operand::Reg(2)),
    {
        let mut b = SeqBuilder::new("lockable_pop");
        let cpu = b.cpu_id();
        let lock = b.load(self.locks, reg(cpu));
        b.exit_if(Cond::Ne, reg(lock), imm(0));
        let head = b.load(self.heads, reg(cpu));
        b.exit_if(Cond::Eq, reg(head), imm(NIL));
        let next = b.load(self.nodes, reg(head));
        let p = b.commit_ret(self.heads, reg(cpu), reg(next), reg(head));
        assert(p.ops@ =~= Self::pop_ops(self.locks, self.heads, self.nodes));
        p
    }
}

pub struct PushArray {
    pub layout: Layout,
    pub committed: RegionId,
    pub slots: RegionId,
    pub cap: usize,
}

/// The tcmalloc trick: scribble the new element into the uncommitted region
/// of a per-CPU array (scratch), then publish it by bumping the committed
/// index with the single committing store.
pub fn push_array(cap: usize) -> (pa: PushArray)
    ensures
        pa.layout@.len() == 2,
        pa.layout@[0].is("committed"@, true, true, 1, 0),
        pa.layout@[1].is("slots"@, false, true, cap, 0),
        pa.committed.0 == 0,
        pa.slots.0 == 1,
        pa.cap == cap,
{
    let mut layout = Layout::new();
    let committed = layout.published_per_cpu("committed", 1, 0);
    let slots = layout.scratch_per_cpu("slots", cap, 0);
    assert(layout@[0] == layout@.drop_last()[0]);
    PushArray { layout, committed, slots, cap }
}

impl PushArray {
    /// The operations of `push`.
    pub open spec fn push_ops(
        committed: RegionId,
        slots: RegionId,
        cap: u64,
        value: u64,
    ) -> Seq<Op> {
        seq![
            Op::CpuId { dst: 0 },
            Op::Load { dst: 1, addr: slot_of_cpu(committed) },
            Op::ExitIf { cond: Cond::Ge, lhs: Operand::Reg(1), rhs: Operand::Imm(cap) },
            Op::Bin { dst: 2, op: BinOp::Mul, lhs: Operand::Reg(0), rhs: Operand::Imm(cap) },
            Op::Bin { dst: 3, op: BinOp::Add, lhs: Operand::Reg(2), rhs: Operand::Reg(1) },
            Op::StoreScratch {
                addr: Addr { region: slots, index: Operand::Reg(3) },
                src: Operand::Imm(value),
            },
            Op::Bin { dst: 4, op: BinOp::Add, lhs: Operand::Reg(1), rhs: Operand::Imm(1) },
            Op::Commit { addr: slot_of_cpu(committed), src: Operand::Reg(4) },
        ]
    }

    /// Push `value` onto the current CPU's array; exits early if full.
    pub fn push(&self, value: u64) -> (p: Program)
        ensures
            p.name@ == "array_push"@,
            p.ops@ == Self::push_ops(self.committed, self.slots, self.cap as u64, value),
            p.ret is None,
    {
        let mut b = SeqBuilder::new("array_push");
        let cpu = b.cpu_id();
        let idx = b.load(self.committed, reg(cpu));
        b.exit_if(Cond::Ge, reg(idx), imm(self.cap as u64));
        let base = b.bin(BinOp::Mul, reg(cpu), imm(self.cap as u64));
        let pos = b.bin(BinOp::Add, reg(base), reg(idx));
        b.store_scratch(self.slots, reg(pos), imm(value));
        let next = b.bin(BinOp::Add, reg(idx), imm(1));
        let p = b.commit(self.committed, reg(cpu), reg(next));
        assert(p.ops@ =~= Self::push_ops(self.committed, self.slots, self.cap as u64, value));
        p
    }
}

} // verus!
