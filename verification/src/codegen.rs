//! Compile the IR to x86-64 machine code with an `rseq_cs` descriptor, so
//! that the program the model checker accepts and the program the kernel runs
//! are the same artifact.
//!
//! Layout of the code, all in one mapping:
//!
//! ```text
//! offset  0: struct rseq_cs descriptor (32-byte aligned at page start)
//! offset 32: entry:  lea rax, [rip + descriptor]  ; an abort restarts here
//!                    mov [rdi + 8], rax           ; arm rseq_cs
//!            start:  ...body...
//!                    mov [mem], src               ; the committing store
//!            post:   ...move ret value to rax...
//!                    ret
//!            exit:   mov rax, -1                  ; EXITED sentinel
//!                    ret
//!                    .long 0x53053053             ; glibc's RSEQ_SIG
//!            abort:  jmp entry
//! ```
//!
//! Calling convention of the generated function (System V): the thread's rseq
//! area in rdi, an array of region base addresses in rsi, an array of
//! parameters in rdx, and the result in rax. `bases[r]` is the base address of
//! region `r`; per-CPU regions are sized `MAX_CPUS * words`, and index
//! arithmetic is in the program, as in the IR.
//!
//! Register discipline: rdi/rsi/rdx are pinned to the three pointers for the
//! whole sequence, rax and r11 are transient scratch (descriptor address,
//! region bases, immediates), and virtual registers live in {rcx, r8, r9,
//! r10}, allocated linearly with reuse after last use.
//!
//! The body overwrites rax, so an aborted attempt has to load the descriptor
//! address again before it arms: the abort handler goes back to the `lea`.

use vstd::prelude::*;

use crate::ir::{
    BinOp, Layout, Op, Operand, Program, Reg, RegionDecl, RegionId, ValidateError,
};
use crate::rt::MAX_CPUS;
use crate::sim::Words;
use crate::x86::{Alu, Asm, Insn, Listing, ENTRY_OFF, R10, R11, R8, R9, RAX, RCX};

verus! {

/// Return value of a compiled sequence that exited early instead of
/// committing. Programs whose committed `ret` could legitimately be
/// `u64::MAX` need a different sentinel; none of ours do.
pub const EXITED: u64 = 0xffff_ffff_ffff_ffff;

/// The word before the abort handler that the kernel looks for.
pub const RSEQ_SIG: u32 = 0x5305_3053;

#[derive(Clone, Copy, PartialEq, Eq, Structural, Debug)]
pub enum CompileError {
    Invalid(ValidateError),
    /// `CpuIdHoisted` is a model-only bug demonstrator; generating real code
    /// for it would be manufacturing the bug it exists to catch.
    HoistedCpuId,
    /// Shift amounts must be immediates (variable shifts need cl juggling
    /// the allocator does not do).
    ShiftByRegister,
    /// More simultaneously-live virtual registers than the pool holds.
    OutOfRegisters,
    /// The executable mapping could not be made.
    MmapFailed(isize),
}

/// The physical registers that virtual registers live in.
pub open spec fn in_pool(p: u8) -> bool {
    p == RCX || p == R8 || p == R9 || p == R10
}

/// Where the live virtual registers are, and the physical registers that are
/// free, next one first.
#[verifier::ext_equal]
pub struct Allocation {
    pub regs: Map<Reg, u8>,
    pub free: Seq<u8>,
}

impl Allocation {
    /// Nothing allocated.
    pub open spec fn initial() -> Allocation {
        Allocation { regs: Map::empty(), free: seq![RCX, R8, R9, R10] }
    }

    /// The next free register given to `dst`.
    pub open spec fn give(self, dst: Reg) -> Allocation {
        Allocation { regs: self.regs.insert(dst, self.free[0]), free: self.free.drop_first() }
    }
}

/// Whether register `r` is of no use to what follows operation `at`.
pub open spec fn dead_after(ops: Seq<Op>, ret: Option<Operand>, at: int, r: Reg) -> bool {
    &&& ret != Some(Operand::Reg(r))
    &&& forall|i: int| at < i < ops.len() ==> !(#[trigger] ops[i]).uses().contains(Operand::Reg(r))
}

/// The allocation after operation `at`: of the virtual registers below `v`,
/// those that are dead have given their registers back, in ascending order.
pub open spec fn released(
    ops: Seq<Op>,
    ret: Option<Operand>,
    at: int,
    a: Allocation,
    v: int,
) -> Allocation
    decreases v,
{
    if v <= 0 {
        a
    } else {
        let b = released(ops, ret, at, a, v - 1);
        let r = (v - 1) as usize;
        if b.regs.dom().contains(r) && dead_after(ops, ret, at, r) {
            Allocation { regs: b.regs.remove(r), free: b.free.push(b.regs[r]) }
        } else {
            b
        }
    }
}

/// The displacement of word `k` of an array.
pub open spec fn word_disp(k: int) -> u32 {
    ((k * 8) % 0x1_0000_0000) as u32
}

/// The register that holds `o`, which is `scratch` for an immediate.
pub open spec fn place(o: Operand, a: Allocation, scratch: u8) -> u8 {
    match o {
        Operand::Reg(r) => a.regs[r],
        Operand::Imm(_) => scratch,
    }
}

/// Put `o` where `place` says it is.
pub open spec fn fetch(o: Operand, scratch: u8) -> Seq<Insn> {
    match o {
        Operand::Reg(_) => seq![],
        Operand::Imm(v) => seq![Insn::MovImm { d: scratch, v }],
    }
}

/// Put `o` into register `d`.
pub open spec fn move_to(d: u8, o: Operand, a: Allocation) -> Seq<Insn> {
    match o {
        Operand::Reg(r) => if a.regs[r] != d {
            seq![Insn::Alu { op: Alu::Mov, d, s: a.regs[r] }]
        } else {
            seq![]
        },
        Operand::Imm(v) => seq![Insn::MovImm { d, v }],
    }
}

pub open spec fn is_shift(op: BinOp) -> bool {
    op == BinOp::Shl || op == BinOp::Shr
}

/// d = d OP s
pub open spec fn bin_insn(op: BinOp, d: u8, s: u8) -> Insn {
    match op {
        BinOp::Add => Insn::Alu { op: Alu::Add, d, s },
        BinOp::Sub => Insn::Alu { op: Alu::Sub, d, s },
        BinOp::And => Insn::Alu { op: Alu::And, d, s },
        BinOp::Or => Insn::Alu { op: Alu::Or, d, s },
        BinOp::Xor => Insn::Alu { op: Alu::Xor, d, s },
        _ => Insn::Imul { d, s },
    }
}

/// d = d SHIFT v: the hardware, like the IR, takes the amount modulo 64.
pub open spec fn shift_insn(op: BinOp, d: u8, v: u64) -> Insn {
    if op == BinOp::Shl {
        Insn::Shl { d, amount: (v % 64) as u8 }
    } else {
        Insn::Shr { d, amount: (v % 64) as u8 }
    }
}

/// The code of an exit branch. Two immediates need both scratch registers.
pub open spec fn branch_code(op: Op, a: Allocation) -> Seq<Insn> {
    let cond = op->ExitIf_cond;
    let lhs = op->ExitIf_lhs;
    let rhs = op->ExitIf_rhs;
    let left = if rhs is Imm {
        RAX
    } else {
        R11
    };
    fetch(lhs, left) + fetch(rhs, R11) + seq![
        Insn::Alu { op: Alu::Cmp, d: place(lhs, a, left), s: place(rhs, a, R11) },
        Insn::JumpExit { cond },
    ]
}

/// The code that loads from word `index` of the region whose base is in rax.
pub open spec fn load_insn(d: u8, index: Operand, a: Allocation) -> Insn {
    match index {
        Operand::Reg(r) => Insn::LoadIndexed { d, i: a.regs[r] },
        Operand::Imm(k) => Insn::LoadDisp { d, disp: word_disp(k as int) },
    }
}

/// The code that stores to word `index` of the region whose base is in rax.
pub open spec fn store_insn(s: u8, index: Operand, a: Allocation) -> Insn {
    match index {
        Operand::Reg(r) => Insn::StoreIndexed { s, i: a.regs[r] },
        Operand::Imm(k) => Insn::StoreDisp { s, disp: word_disp(k as int) },
    }
}

/// The code of one operation, and the allocation it leaves.
pub open spec fn op_code(op: Op, a: Allocation) -> Result<(Seq<Insn>, Allocation), CompileError> {
    let d = a.free[0];
    match op {
        Op::CpuIdHoisted { .. } => Err(CompileError::HoistedCpuId),
        Op::ExitIf { .. } => Ok((branch_code(op, a), a)),
        Op::StoreScratch { addr, src } => Ok((store_code(addr.region.0, addr.index, src, a), a)),
        Op::Commit { addr, src } => Ok((store_code(addr.region.0, addr.index, src, a), a)),
        _ => if a.free.len() == 0 {
            Err(CompileError::OutOfRegisters)
        } else {
            let b = a.give(op.dst().unwrap());
            match op {
                Op::CpuId { .. } => Ok((seq![Insn::LoadCpuId { d }], b)),
                Op::Const { value, .. } => Ok((seq![Insn::MovImm { d, v: value }], b)),
                Op::Param { index, .. } => Ok(
                    (seq![Insn::LoadParam { d, disp: word_disp(index as int) }], b),
                ),
                Op::Load { addr, .. } => Ok(
                    (
                        seq![
                            Insn::LoadBase { disp: word_disp(addr.region.0 as int) },
                            load_insn(d, addr.index, b),
                        ],
                        b,
                    ),
                ),
                Op::Bin { op, lhs, rhs, .. } => if !is_shift(op) {
                    Ok(
                        (
                            move_to(d, lhs, b) + fetch(rhs, R11) + seq![
                                bin_insn(op, d, place(rhs, b, R11)),
                            ],
                            b,
                        ),
                    )
                } else if rhs is Imm {
                    Ok((move_to(d, lhs, b) + seq![shift_insn(op, d, rhs->Imm_0)], b))
                } else {
                    Err(CompileError::ShiftByRegister)
                },
                _ => Ok((seq![], b)),
            }
        },
    }
}

/// The code of a store.
pub open spec fn store_code(region: usize, index: Operand, src: Operand, a: Allocation) -> Seq<
    Insn,
> {
    seq![Insn::LoadBase { disp: word_disp(region as int) }] + fetch(src, R11) + seq![
        store_insn(place(src, a, R11), index, a),
    ]
}

/// The code of the first `n` operations, and the allocation they leave.
pub open spec fn code_until(ops: Seq<Op>, ret: Option<Operand>, n: int) -> Result<
    (Seq<Insn>, Allocation),
    CompileError,
>
    decreases n,
{
    if n <= 0 {
        Ok((seq![], Allocation::initial()))
    } else {
        match code_until(ops, ret, n - 1) {
            Err(e) => Err(e),
            Ok((code, a)) => match op_code(ops[n - 1], a) {
                Err(e) => Err(e),
                Ok((more, b)) => Ok(
                    (code + more, released(ops, ret, n - 1, b, usize::MAX + 1)),
                ),
            },
        }
    }
}

/// The committed-path epilogue: the result into rax.
pub open spec fn result_code(ret: Option<Operand>, a: Allocation) -> Seq<Insn> {
    match ret {
        Some(Operand::Reg(r)) => seq![Insn::Alu { op: Alu::Mov, d: RAX, s: a.regs[r] }],
        Some(Operand::Imm(v)) => seq![Insn::MovImm { d: RAX, v }],
        None => seq![Insn::ZeroRax],
    }
}

/// A compiled sequence as instructions: what runs inside the window, and what
/// puts the result of a committed run in place.
#[verifier::ext_equal]
pub struct Assembly {
    pub window: Seq<Insn>,
    pub result: Seq<Insn>,
}

/// What a program is compiled to.
pub open spec fn assembly(ops: Seq<Op>, ret: Option<Operand>) -> Result<Assembly, CompileError> {
    match code_until(ops, ret, ops.len() as int) {
        Err(e) => Err(e),
        Ok((window, a)) => Ok(Assembly { window, result: result_code(ret, a) }),
    }
}

impl Assembly {
    /// Load the descriptor address and arm.
    pub open spec fn entry() -> Seq<Insn> {
        seq![Insn::LoadDescriptor, Insn::Arm]
    }

    /// Up to the end of the window.
    pub open spec fn armed(self) -> Seq<Insn> {
        Self::entry() + self.window
    }

    /// Up to the end of the committed path.
    pub open spec fn committed(self) -> Seq<Insn> {
        self.armed() + self.result + seq![Insn::Ret]
    }

    /// Every instruction before the abort signature.
    pub open spec fn listing(self) -> Seq<Insn> {
        self.committed() + seq![Insn::MinusOneRax, Insn::Ret]
    }

    /// Offset of the first instruction of the window.
    pub open spec fn start(self) -> int {
        crate::x86::offset_after(Self::entry())
    }

    /// Offset of the first instruction after the window.
    pub open spec fn post(self) -> int {
        crate::x86::offset_after(self.armed())
    }

    /// Offset of the early-exit stub.
    pub open spec fn exit(self) -> int {
        crate::x86::offset_after(self.committed())
    }

    /// Offset of the abort handler: the signature comes right before it.
    pub open spec fn abort(self) -> int {
        crate::x86::offset_after(self.listing()) + 4
    }

    /// Offset of instruction `k` of the window.
    pub open spec fn window_offset(self, k: int) -> int {
        crate::x86::offset_after(Self::entry() + self.window.take(k))
    }

    /// The bytes, with a blank descriptor. Every exit branch goes to the stub
    /// and the abort handler goes to the entry.
    pub open spec fn bytes(self) -> Seq<u8> {
        Seq::new(ENTRY_OFF as nat, |i: int| 0u8) + crate::x86::encode(
            self.listing(),
            crate::x86::exit_jumps(self.listing()),
            self.exit(),
        ) + crate::x86::le32(RSEQ_SIG) + seq![0xE9u8] + crate::x86::le32(
            crate::x86::displacement(ENTRY_OFF as int, self.abort() + 5),
        )
    }
}

/// The displacement of word `k` of an array.
fn word_disp_of(k: u64) -> (d: u32)
    ensures
        d == word_disp(k as int),
{
    ((k % 0x2000_0000) * 8) as u32
}

struct RegAlloc {
    map: Vec<Option<u8>>,
    free: Vec<u8>,
}

impl View for RegAlloc {
    type V = Allocation;

    closed spec fn view(&self) -> Allocation {
        Allocation {
            regs: Map::new(
                |r: Reg| r < self.map@.len() && self.map@[r as int] is Some,
                |r: Reg| self.map@[r as int].unwrap(),
            ),
            free: self.free@,
        }
    }
}

impl RegAlloc {
    /// Only registers of the pool are handed out.
    spec fn wf(self) -> bool {
        &&& forall|v: int|
            0 <= v < self.map@.len() && (#[trigger] self.map@[v]) is Some ==> in_pool(
                self.map@[v].unwrap(),
            )
        &&& forall|k: int| 0 <= k < self.free@.len() ==> in_pool(#[trigger] self.free@[k])
    }

    /// An allocator for virtual registers below `nregs`.
    fn new(nregs: usize) -> (ra: Self)
        ensures
            ra.wf(),
            ra.map@.len() == nregs,
            ra@ == Allocation::initial(),
    {
        let map: Vec<Option<u8>> = vec![None; nregs];
        let ra = RegAlloc { map, free: vec![RCX, R8, R9, R10] };
        assert(ra@ =~= Allocation::initial());
        ra
    }

    fn phys(&self, r: Reg) -> (res: Result<u8, CompileError>)
        requires
            self.wf(),
        ensures
            res == if self@.regs.dom().contains(r) {
                Ok(self@.regs[r])
            } else {
                Err(CompileError::Invalid(ValidateError::UseBeforeDef { at: 0, reg: r }))
            },
            res matches Ok(p) ==> in_pool(p),
    {
        if r < self.map.len() {
            if let Some(p) = self.map[r] {
                return Ok(p);
            }
        }
        Err(CompileError::Invalid(ValidateError::UseBeforeDef { at: 0, reg: r }))
    }

    /// Allocate a physical register for `dst`. The operands of the same
    /// operation, which must stay readable while it computes, are still
    /// mapped, so none of them is free.
    fn allocate(&mut self, dst: Reg) -> (res: Result<u8, CompileError>)
        requires
            old(self).wf(),
            dst < old(self).map@.len(),
        ensures
            final(self).wf(),
            final(self).map@.len() == old(self).map@.len(),
            match res {
                Ok(p) => {
                    &&& old(self)@.free.len() > 0
                    &&& p == old(self)@.free[0]
                    &&& final(self)@ == old(self)@.give(dst)
                    &&& in_pool(p)
                },
                Err(e) => old(self)@.free.len() == 0 && e == CompileError::OutOfRegisters,
            },
    {
        if self.free.len() == 0 {
            return Err(CompileError::OutOfRegisters);
        }
        let ghost before = *self;
        let p: u8 = self.free.remove(0);
        self.map.set(dst, Some(p));
        proof {
            assert(before.free@[0] == p);
            assert(self.free@ =~= before.free@.drop_first());
            assert forall|k: int| 0 <= k < self.free@.len() implies in_pool(
                #[trigger] self.free@[k],
            ) by {
                assert(before.free@[k + 1] == self.free@[k]);
            }
            assert(self@.regs =~= before@.give(dst).regs);
        }
        Ok(p)
    }

    /// Return pool registers whose virtual register died at or before `at`.
    fn release_dead(
        &mut self,
        last_use: &Vec<usize>,
        at: usize,
        Ghost(ops): Ghost<Seq<Op>>,
        Ghost(ret): Ghost<Option<Operand>>,
    )
        requires
            old(self).wf(),
            last_use@.len() == old(self).map@.len(),
            forall|r: Reg|
                r < last_use@.len() ==> (#[trigger] last_use@[r as int] <= at <==> dead_after(
                    ops,
                    ret,
                    at as int,
                    r,
                )),
        ensures
            final(self).wf(),
            final(self).map@.len() == old(self).map@.len(),
            final(self)@ == released(ops, ret, at as int, old(self)@, usize::MAX + 1),
    {
        let ghost first = *self;
        let mut v: usize = 0;
        while v < self.map.len()
            invariant
                self.wf(),
                v <= self.map@.len(),
                self.map@.len() == first.map@.len(),
                last_use@.len() == self.map@.len(),
                first@ == old(self)@,
                self@ == released(ops, ret, at as int, first@, v as int),
                forall|r: Reg|
                    r < last_use@.len() ==> (#[trigger] last_use@[r as int] <= at <==> dead_after(
                        ops,
                        ret,
                        at as int,
                        r,
                    )),
            decreases self.map@.len() - v,
        {
            let ghost before = *self;
            if let Some(p) = self.map[v] {
                if last_use[v] <= at {
                    self.map.set(v, None);
                    self.free.push(p);
                    assert(self@.regs =~= before@.regs.remove(v));
                }
            }
            v = v + 1;
        }
        proof {
            lemma_released_above(ops, ret, at as int, first@, v as int, usize::MAX + 1);
        }
    }
}

/// Registers that nothing is allocated to are not given back.
proof fn lemma_released_above(
    ops: Seq<Op>,
    ret: Option<Operand>,
    at: int,
    a: Allocation,
    low: int,
    high: int,
)
    requires
        0 <= low <= high <= usize::MAX + 1,
        forall|r: Reg| low <= r ==> !a.regs.dom().contains(r),
    ensures
        released(ops, ret, at, a, low) == released(ops, ret, at, a, high),
    decreases high,
{
    if low < high {
        lemma_released_above(ops, ret, at, a, low, high - 1);
        lemma_released_dom(ops, ret, at, a, high - 1);
        assert(!a.regs.dom().contains((high - 1) as usize));
    }
}

/// Exactly the dead registers are given back.
pub proof fn lemma_released_dom(ops: Seq<Op>, ret: Option<Operand>, at: int, a: Allocation, v: int)
    requires
        0 <= v <= usize::MAX + 1,
    ensures
        ({
            let b = released(ops, ret, at, a, v);
            forall|r: Reg|
                #![trigger b.regs.dom().contains(r)]
                #![trigger a.regs.dom().contains(r)]
                {
                    &&& b.regs.dom().contains(r) <==> a.regs.dom().contains(r) && !(r < v
                        && dead_after(ops, ret, at, r))
                    &&& b.regs.dom().contains(r) ==> b.regs[r] == a.regs[r]
                }
        }),
    decreases v,
{
    if v > 0 {
        lemma_released_dom(ops, ret, at, a, v - 1);
        let b = released(ops, ret, at, a, v);
        let c = released(ops, ret, at, a, v - 1);
        assert forall|r: Reg|
            #![trigger b.regs.dom().contains(r)]
            #![trigger a.regs.dom().contains(r)]
            {
                &&& b.regs.dom().contains(r) <==> a.regs.dom().contains(r) && !(r < v
                    && dead_after(ops, ret, at, r))
                &&& b.regs.dom().contains(r) ==> b.regs[r] == a.regs[r]
            } by {
            assert(c.regs.dom().contains(r) <==> a.regs.dom().contains(r) && !(r < v - 1
                && dead_after(ops, ret, at, r)));
        }
    }
}

/// Every register that `op` reads is allocated.
pub open spec fn operands_placed(op: Op, a: Allocation) -> bool {
    forall|k: int|
        0 <= k < op.uses().len() ==> ((#[trigger] op.uses()[k]) matches Operand::Reg(r)
            ==> a.regs.dom().contains(r))
}

/// Put `o` into a register: its own, or `scratch` for an immediate.
fn fetch_operand(l: &mut Listing, ra: &RegAlloc, o: Operand, scratch: u8) -> (res: Result<
    u8,
    CompileError,
>)
    requires
        old(l).wf(),
        ra.wf(),
        scratch < 16,
        o matches Operand::Reg(r) ==> ra@.regs.dom().contains(r),
    ensures
        final(l).wf(),
        final(l)@ == old(l)@ + fetch(o, scratch),
        res matches Ok(p) && p == place(o, ra@, scratch) && p < 16,
{
    match o {
        Operand::Reg(r) => {
            assert(l@ =~= l@ + fetch(o, scratch));
            ra.phys(r)
        },
        Operand::Imm(v) => {
            l.push(Insn::MovImm { d: scratch, v });
            Ok(scratch)
        },
    }
}

/// Put `o` into register `d`.
fn move_operand(l: &mut Listing, ra: &RegAlloc, d: u8, o: Operand) -> (res: Result<
    (),
    CompileError,
>)
    requires
        old(l).wf(),
        ra.wf(),
        d < 16,
        o matches Operand::Reg(r) ==> ra@.regs.dom().contains(r),
    ensures
        final(l).wf(),
        final(l)@ == old(l)@ + move_to(d, o, ra@),
        res is Ok,
{
    match o {
        Operand::Reg(r) => {
            match ra.phys(r) {
                Ok(p) => {
                    if p != d {
                        l.push(Insn::Alu { op: Alu::Mov, d, s: p });
                    } else {
                        assert(l@ =~= l@ + move_to(d, o, ra@));
                    }
                },
                Err(e) => return Err(e),
            }
        },
        Operand::Imm(v) => {
            l.push(Insn::MovImm { d, v });
        },
    }
    Ok(())
}

/// A store of `src` to word `index` of region `region`.
fn emit_store(l: &mut Listing, ra: &RegAlloc, region: usize, index: Operand, src: Operand) -> (res:
    Result<(), CompileError>)
    requires
        old(l).wf(),
        ra.wf(),
        index matches Operand::Reg(r) ==> ra@.regs.dom().contains(r),
        src matches Operand::Reg(r) ==> ra@.regs.dom().contains(r),
    ensures
        final(l).wf(),
        final(l)@ == old(l)@ + store_code(region, index, src, ra@),
        res is Ok,
{
    l.push(Insn::LoadBase { disp: word_disp_of(region as u64) });
    let s: u8 = match fetch_operand(l, ra, src, R11) {
        Ok(s) => s,
        Err(e) => return Err(e),
    };
    match index {
        Operand::Reg(r) => match ra.phys(r) {
            Ok(i) => l.push(Insn::StoreIndexed { s, i }),
            Err(e) => return Err(e),
        },
        Operand::Imm(k) => l.push(Insn::StoreDisp { s, disp: word_disp_of(k) }),
    }
    assert(l@ =~= old(l)@ + store_code(region, index, src, ra@));
    Ok(())
}

/// Emit one operation.
fn emit_op(l: &mut Listing, ra: &mut RegAlloc, op: Op) -> (res: Result<(), CompileError>)
    requires
        old(l).wf(),
        old(ra).wf(),
        op.dst() matches Some(r) ==> r < old(ra).map@.len(),
        operands_placed(op, old(ra)@),
    ensures
        final(l).wf(),
        final(ra).wf(),
        final(ra).map@.len() == old(ra).map@.len(),
        match op_code(op, old(ra)@) {
            Ok((code, a)) => res is Ok && final(l)@ == old(l)@ + code && final(ra)@ == a,
            Err(e) => res matches Err(got) && got == e,
        },
{
    let ghost before = ra@;
    match op {
        Op::CpuId { dst } => {
            let d: u8 = match ra.allocate(dst) {
                Ok(d) => d,
                Err(e) => return Err(e),
            };
            l.push(Insn::LoadCpuId { d });
        },
        Op::CpuIdHoisted { .. } => return Err(CompileError::HoistedCpuId),
        Op::Const { dst, value } => {
            let d: u8 = match ra.allocate(dst) {
                Ok(d) => d,
                Err(e) => return Err(e),
            };
            l.push(Insn::MovImm { d, v: value });
        },
        Op::Param { dst, index } => {
            let d: u8 = match ra.allocate(dst) {
                Ok(d) => d,
                Err(e) => return Err(e),
            };
            l.push(Insn::LoadParam { d, disp: word_disp_of(index as u64) });
        },
        Op::Load { dst, addr } => {
            assert(op.uses()[0] == addr.index);
            l.push(Insn::LoadBase { disp: word_disp_of(addr.region.0 as u64) });
            let d: u8 = match ra.allocate(dst) {
                Ok(d) => d,
                Err(e) => return Err(e),
            };
            match addr.index {
                Operand::Reg(r) => match ra.phys(r) {
                    Ok(i) => l.push(Insn::LoadIndexed { d, i }),
                    Err(e) => return Err(e),
                },
                Operand::Imm(k) => l.push(Insn::LoadDisp { d, disp: word_disp_of(k) }),
            }
            assert(l@ =~= old(l)@ + op_code(op, before)->Ok_0.0);
        },
        Op::Bin { dst, op: bin, lhs, rhs } => {
            assert(op.uses()[0] == lhs && op.uses()[1] == rhs);
            let d: u8 = match ra.allocate(dst) {
                Ok(d) => d,
                Err(e) => return Err(e),
            };
            if let Err(e) = move_operand(l, ra, d, lhs) {
                return Err(e);
            }
            match bin {
                BinOp::Shl => match rhs {
                    Operand::Imm(v) => l.push(Insn::Shl { d, amount: (v % 64) as u8 }),
                    Operand::Reg(_) => return Err(CompileError::ShiftByRegister),
                },
                BinOp::Shr => match rhs {
                    Operand::Imm(v) => l.push(Insn::Shr { d, amount: (v % 64) as u8 }),
                    Operand::Reg(_) => return Err(CompileError::ShiftByRegister),
                },
                _ => {
                    let s: u8 = match fetch_operand(l, ra, rhs, R11) {
                        Ok(s) => s,
                        Err(e) => return Err(e),
                    };
                    match bin {
                        BinOp::Add => l.push(Insn::Alu { op: Alu::Add, d, s }),
                        BinOp::Sub => l.push(Insn::Alu { op: Alu::Sub, d, s }),
                        BinOp::And => l.push(Insn::Alu { op: Alu::And, d, s }),
                        BinOp::Or => l.push(Insn::Alu { op: Alu::Or, d, s }),
                        BinOp::Xor => l.push(Insn::Alu { op: Alu::Xor, d, s }),
                        _ => l.push(Insn::Imul { d, s }),
                    }
                },
            }
            assert(l@ =~= old(l)@ + op_code(op, before)->Ok_0.0);
        },
        Op::ExitIf { cond, lhs, rhs } => {
            assert(op.uses()[0] == lhs && op.uses()[1] == rhs);
            let scratch: u8 = match rhs {
                Operand::Imm(_) => RAX,
                Operand::Reg(_) => R11,
            };
            let left: u8 = match fetch_operand(l, ra, lhs, scratch) {
                Ok(p) => p,
                Err(e) => return Err(e),
            };
            let right: u8 = match fetch_operand(l, ra, rhs, R11) {
                Ok(p) => p,
                Err(e) => return Err(e),
            };
            l.push(Insn::Alu { op: Alu::Cmp, d: left, s: right });
            l.push(Insn::JumpExit { cond });
            assert(l@ =~= old(l)@ + branch_code(op, before));
        },
        Op::StoreScratch { addr, src } => {
            assert(op.uses()[0] == addr.index && op.uses()[1] == src);
            return emit_store(l, ra, addr.region.0, addr.index, src);
        },
        Op::Commit { addr, src } => {
            assert(op.uses()[0] == addr.index && op.uses()[1] == src);
            return emit_store(l, ra, addr.region.0, addr.index, src);
        },
    }
    Ok(())
}

/// No operation after `at`, of the first `n`, reads `r`.
spec fn unread_between(ops: Seq<Op>, at: int, n: int, r: Reg) -> bool {
    forall|i: int| at < i < n ==> !(#[trigger] ops[i]).uses().contains(Operand::Reg(r))
}

/// Note that operation `at` reads `o`.
fn mark(last_use: &mut Vec<usize>, o: Operand, at: usize)
    requires
        o matches Operand::Reg(r) ==> r < old(last_use)@.len(),
    ensures
        final(last_use)@ == match o {
            Operand::Reg(r) => if old(last_use)@[r as int] < at {
                old(last_use)@.update(r as int, at)
            } else {
                old(last_use)@
            },
            Operand::Imm(_) => old(last_use)@,
        },
{
    if let Operand::Reg(r) = o {
        if last_use[r] < at {
            last_use.set(r, at);
        }
    }
}

/// Last use (operation index) of every virtual register below `nregs`; the
/// result operand keeps its register live to the end.
fn last_uses(prog: &Program, nregs: usize) -> (last_use: Vec<usize>)
    requires
        forall|r: Reg| #[trigger] prog.mentions(r) ==> r < nregs,
    ensures
        last_use@.len() == nregs,
        forall|r: Reg, at: int|
            r < nregs && 0 <= at < prog.ops@.len() ==> (#[trigger] last_use@[r as int] <= at
                <==> #[trigger] dead_after(prog.ops@, prog.ret, at, r)),
{
    let mut last_use: Vec<usize> = vec![0; nregs];
    let mut at: usize = 0;
    while at < prog.ops.len()
        invariant
            at <= prog.ops@.len(),
            last_use@.len() == nregs,
            forall|r: Reg| #[trigger] prog.mentions(r) ==> r < nregs,
            forall|r: Reg, i: int|
                r < nregs && 0 <= i ==> (#[trigger] last_use@[r as int] <= i
                    <==> #[trigger] unread_between(prog.ops@, i, at as int, r)),
        decreases prog.ops@.len() - at,
    {
        let op = prog.ops[at];
        let ghost before = last_use@;
        proof {
            assert forall|r: Reg| op.mentions(r) implies r < nregs by {
                assert(prog.ops@[at as int].mentions(r));
                assert(prog.mentions(r));
            }
            assert forall|k: int|
                0 <= k < op.uses().len() && #[trigger] op.uses()[k] is Reg implies op.uses()[k]->Reg_0
                < nregs by {
                assert(op.uses().contains(op.uses()[k]));
                assert(op.mentions(op.uses()[k]->Reg_0));
            }
        }
        match op {
            Op::Load { addr, .. } => {
                assert(op.uses()[0] == addr.index);
                mark(&mut last_use, addr.index, at);
            },
            Op::Bin { lhs, rhs, .. } => {
                assert(op.uses()[0] == lhs && op.uses()[1] == rhs);
                mark(&mut last_use, lhs, at);
                mark(&mut last_use, rhs, at);
            },
            Op::ExitIf { lhs, rhs, .. } => {
                assert(op.uses()[0] == lhs && op.uses()[1] == rhs);
                mark(&mut last_use, lhs, at);
                mark(&mut last_use, rhs, at);
            },
            Op::StoreScratch { addr, src } => {
                assert(op.uses()[0] == addr.index && op.uses()[1] == src);
                mark(&mut last_use, addr.index, at);
                mark(&mut last_use, src, at);
            },
            Op::Commit { addr, src } => {
                assert(op.uses()[0] == addr.index && op.uses()[1] == src);
                mark(&mut last_use, addr.index, at);
                mark(&mut last_use, src, at);
            },
            _ => {},
        }
        proof {
            assert forall|r: Reg| r < nregs implies #[trigger] last_use@[r as int] == (
            if op.uses().contains(Operand::Reg(r)) && before[r as int] < at {
                at
            } else {
                before[r as int]
            }) by {
                if op.uses().contains(Operand::Reg(r)) {
                    let k = choose|k: int|
                        0 <= k < op.uses().len() && op.uses()[k] == Operand::Reg(r);
                    assert(op.uses()[k] == Operand::Reg(r));
                }
            }
            assert forall|r: Reg, i: int| r < nregs && 0 <= i implies (
            #[trigger] last_use@[r as int] <= i <==> #[trigger] unread_between(
                prog.ops@,
                i,
                at + 1,
                r,
            )) by {
                assert(before[r as int] <= i <==> unread_between(prog.ops@, i, at as int, r));
                if unread_between(prog.ops@, i, at + 1, r) {
                    assert forall|j: int| i < j < at implies !(
                    #[trigger] prog.ops@[j]).uses().contains(Operand::Reg(r)) by {}
                    if i < at {
                        assert(!prog.ops@[at as int].uses().contains(Operand::Reg(r)));
                    }
                } else {
                    let j = choose|j: int|
                        i < j < at + 1 && (#[trigger] prog.ops@[j]).uses().contains(
                            Operand::Reg(r),
                        );
                    if j < at {
                        assert(!unread_between(prog.ops@, i, at as int, r));
                    }
                }
            }
        }
        at = at + 1;
    }
    let ghost before = last_use@;
    if let Some(o) = prog.ret {
        if let Operand::Reg(r) = o {
            assert(prog.mentions(r));
        }
        mark(&mut last_use, o, usize::MAX);
    }
    proof {
        assert forall|r: Reg, i: int| r < nregs && 0 <= i < prog.ops@.len() implies (
        #[trigger] last_use@[r as int] <= i <==> #[trigger] dead_after(
            prog.ops@,
            prog.ret,
            i,
            r,
        )) by {
            assert(before[r as int] <= i <==> unread_between(
                prog.ops@,
                i,
                prog.ops@.len() as int,
                r,
            ));
            assert(prog.ops@.len() == prog.ops.len());
        }
    }
    last_use
}

/// What is still needed is still allocated.
pub proof fn lemma_live_is_placed(ops: Seq<Op>, ret: Option<Operand>, n: int)
    requires
        0 <= n <= ops.len(),
        code_until(ops, ret, n) is Ok,
    ensures
        forall|r: Reg|
            #[trigger] crate::ir::defined_before(ops, n, r) && !dead_after(ops, ret, n - 1, r)
                ==> code_until(ops, ret, n)->Ok_0.1.regs.dom().contains(r),
    decreases n,
{
    if n > 0 {
        lemma_live_is_placed(ops, ret, n - 1);
        let a = code_until(ops, ret, n - 1)->Ok_0.1;
        let b = op_code(ops[n - 1], a)->Ok_0.1;
        lemma_released_dom(ops, ret, n - 1, b, usize::MAX + 1);
        assert forall|r: Reg| #[trigger]
            crate::ir::defined_before(ops, n, r) && !dead_after(
                ops,
                ret,
                n - 1,
                r,
            ) implies code_until(ops, ret, n)->Ok_0.1.regs.dom().contains(r) by {
            let i = choose|i: int| 0 <= i < n && #[trigger] ops[i].dst() == Some(r);
            if ops[n - 1].dst() == Some(r) {
                assert(b.regs.dom().contains(r));
            } else {
                assert(crate::ir::defined_before(ops, n - 1, r));
                assert(!dead_after(ops, ret, n - 2, r));
                assert(a.regs.dom().contains(r));
                assert(b.regs.dom().contains(r));
            }
        }
    }
}

/// In a valid program the operands of every operation are allocated when its
/// turn comes.
pub proof fn lemma_operands_placed(
    decls: Seq<RegionDecl>,
    ops: Seq<Op>,
    ret: Option<Operand>,
    n: int,
)
    requires
        0 <= n < ops.len(),
        crate::ir::well_shaped(decls, ops, ret),
        code_until(ops, ret, n) is Ok,
    ensures
        operands_placed(ops[n], code_until(ops, ret, n)->Ok_0.1),
{
    lemma_live_is_placed(ops, ret, n);
    let a = code_until(ops, ret, n)->Ok_0.1;
    assert forall|k: int| 0 <= k < ops[n].uses().len() implies ((
    #[trigger] ops[n].uses()[k]) matches Operand::Reg(r) ==> a.regs.dom().contains(r)) by {
        let o = ops[n].uses()[k];
        assert(crate::ir::readable(ops, n, o));
        if o is Reg {
            assert(ops[n].uses().contains(o));
            assert(crate::ir::defined_before(ops, n, o->Reg_0));
            assert(!dead_after(ops, ret, n - 1, o->Reg_0));
        }
    }
}

/// The code of the first operations begins the code of the whole.
pub proof fn lemma_code_prefix(ops: Seq<Op>, ret: Option<Operand>, low: int, high: int)
    requires
        0 <= low <= high,
        code_until(ops, ret, high) is Ok,
    ensures
        code_until(ops, ret, low) is Ok,
        ({
            let first = code_until(ops, ret, low)->Ok_0.0;
            let all = code_until(ops, ret, high)->Ok_0.0;
            first.len() <= all.len() && first == all.take(first.len() as int)
        }),
    decreases high,
{
    let all = code_until(ops, ret, high)->Ok_0.0;
    if low < high {
        lemma_code_prefix(ops, ret, low, high - 1);
        let first = code_until(ops, ret, low)->Ok_0.0;
        assert(first =~= all.take(first.len() as int));
    } else {
        assert(all =~= all.take(all.len() as int));
    }
}

/// Machine code and where its parts are.
#[derive(Clone, Debug)]
struct Blob {
    buf: Vec<u8>,
    insns: Vec<Insn>,
    post_index: usize,
    window: Vec<usize>,
    start_off: usize,
    post_off: usize,
    abort_off: usize,
}

impl Blob {
    spec fn holds(self, a: Assembly) -> bool {
        &&& self.buf@ == a.bytes()
        &&& self.insns@ == a.listing()
        &&& self.post_index == a.window.len() + 2
        &&& self.start_off == a.start()
        &&& self.post_off == a.post()
        &&& self.abort_off == a.abort()
        &&& self.start_off <= self.post_off <= self.abort_off <= self.buf@.len()
        &&& self.window@.len() == a.window.len()
        &&& forall|k: int|
            0 <= k < self.window@.len() ==> #[trigger] self.window@[k] == a.window_offset(k)
    }
}

/// The committed-path epilogue.
fn emit_result(l: &mut Listing, ra: &RegAlloc, ret: Option<Operand>) -> (res: Result<
    (),
    CompileError,
>)
    requires
        old(l).wf(),
        ra.wf(),
        ret matches Some(Operand::Reg(r)) ==> ra@.regs.dom().contains(r),
    ensures
        final(l).wf(),
        final(l)@ == old(l)@ + result_code(ret, ra@),
        res is Ok,
{
    match ret {
        Some(Operand::Reg(r)) => match ra.phys(r) {
            Ok(p) => l.push(Insn::Alu { op: Alu::Mov, d: RAX, s: p }),
            Err(e) => return Err(e),
        },
        Some(Operand::Imm(v)) => l.push(Insn::MovImm { d: RAX, v }),
        None => l.push(Insn::ZeroRax),
    }
    Ok(())
}

/// Compile a valid program.
fn emit(prog: &Program, layout: &Layout) -> (res: Result<Blob, CompileError>)
    requires
        prog.regs_fit(),
        crate::ir::well_shaped(layout@, prog.ops@, prog.ret),
    ensures
        match assembly(prog.ops@, prog.ret) {
            Ok(a) => res matches Ok(blob) && blob.holds(a),
            Err(e) => res matches Err(got) && got == e,
        },
{
    let nregs: usize = match prog.max_reg() {
        Some(r) => r + 1,
        None => 0,
    };
    let last_use = last_uses(prog, nregs);
    let mut l = Listing::new();
    let mut ra = RegAlloc::new(nregs);
    let ghost ops = prog.ops@;
    let ghost ret = prog.ret;

    // entry: load the descriptor address and arm
    l.push(Insn::LoadDescriptor);
    l.push(Insn::Arm);
    assert(l@ =~= Assembly::entry());
    let start_off: usize = l.offset();

    let mut at: usize = 0;
    assert(l@ =~= Assembly::entry() + code_until(ops, ret, 0)->Ok_0.0);
    while at < prog.ops.len()
        invariant
            ops == prog.ops@,
            ret == prog.ret,
            at <= ops.len(),
            l.wf(),
            ra.wf(),
            ra.map@.len() == nregs,
            last_use@.len() == nregs,
            forall|r: Reg| #[trigger] prog.mentions(r) ==> r < nregs,
            forall|r: Reg, i: int|
                r < nregs && 0 <= i < ops.len() ==> (#[trigger] last_use@[r as int] <= i
                    <==> #[trigger] dead_after(ops, ret, i, r)),
            crate::ir::well_shaped(layout@, ops, ret),
            code_until(ops, ret, at as int) is Ok,
            l@ == Assembly::entry() + code_until(ops, ret, at as int)->Ok_0.0,
            ra@ == code_until(ops, ret, at as int)->Ok_0.1,
        decreases ops.len() - at,
    {
        let op = prog.ops[at];
        proof {
            lemma_operands_placed(layout@, ops, ret, at as int);
            if op.dst() is Some {
                assert(ops[at as int].mentions(op.dst().unwrap()));
                assert(prog.mentions(op.dst().unwrap()));
            }
            if op_code(op, ra@) is Err {
                lemma_code_fails(ops, ret, at + 1, ops.len() as int);
            }
        }
        if let Err(e) = emit_op(&mut l, &mut ra, op) {
            return Err(e);
        }
        ra.release_dead(&last_use, at, Ghost(ops), Ghost(ret));
        at = at + 1;
        assert(l@ =~= Assembly::entry() + code_until(ops, ret, at as int)->Ok_0.0);
    }
    let post_off: usize = l.offset();
    let post_index: usize = l.len();
    let ghost parts = assembly(ops, ret)->Ok_0;
    assert(l@ == parts.armed());

    proof {
        lemma_live_is_placed(ops, ret, ops.len() as int);
    }
    if let Err(e) = emit_result(&mut l, &ra, prog.ret) {
        return Err(e);
    }
    l.push(Insn::Ret);
    assert(l@ =~= parts.committed());

    // Early-exit stub.
    let exit_off: usize = l.offset();
    l.push(Insn::MinusOneRax);
    l.push(Insn::Ret);
    assert(l@ =~= parts.listing());
    let ghost listing = l@;
    let (mut code, starts, insns) = l.resolve(exit_off);

    // Abort signature and handler.
    code.imm32(RSEQ_SIG);
    let abort_off: usize = code.buf.len();
    proof {
        crate::x86::lemma_encode_len(
            listing,
            crate::x86::exit_jumps(listing),
            exit_off as int,
        );
        assert(code@.len() == abort_off);
    }
    code.buf.push(0xE9);
    let after: usize = code.buf.len();
    assert(after == abort_off + 1);
    code.imm32(jump_back(abort_off));
    assert(code@ =~= parts.bytes());

    let window = window_starts(&starts, post_index);
    proof {
        lemma_window_starts(parts, starts@, window@);
        assert(listing.take(2) =~= Assembly::entry());
        assert(listing.take(post_index as int) =~= parts.armed());
        crate::x86::lemma_prefix(parts.armed(), 2);
        assert(parts.armed().take(2) =~= Assembly::entry());
        crate::x86::lemma_prefix(listing, post_index as int);
    }
    Ok(Blob { buf: code.buf, insns, post_index, window, start_off, post_off, abort_off })
}

/// The displacement from the end of the abort handler back to the entry.
fn jump_back(abort_off: usize) -> (d: u32)
    requires
        abort_off + 1 <= usize::MAX,
        abort_off >= ENTRY_OFF,
    ensures
        d == crate::x86::displacement(ENTRY_OFF as int, abort_off + 5),
{
    let back: u64 = ((abort_off - ENTRY_OFF) as u64 % 0x1_0000_0000 + 5) % 0x1_0000_0000;
    if back == 0 {
        0
    } else {
        (0x1_0000_0000 - back) as u32
    }
}

/// The offsets of the instructions between the entry and `post_index`.
fn window_starts(starts: &Vec<usize>, post_index: usize) -> (window: Vec<usize>)
    requires
        2 <= post_index <= starts@.len(),
    ensures
        window@ == starts@.subrange(2, post_index as int),
{
    let mut window: Vec<usize> = Vec::new();
    let mut k: usize = 2;
    while k < post_index
        invariant
            2 <= k <= post_index <= starts@.len(),
            window@ == starts@.subrange(2, k as int),
        decreases post_index - k,
    {
        window.push(starts[k]);
        k = k + 1;
        assert(window@ =~= starts@.subrange(2, k as int));
    }
    window
}

proof fn lemma_window_starts(parts: Assembly, starts: Seq<usize>, window: Seq<usize>)
    requires
        crate::x86::starts_of(starts, parts.listing()),
        window == starts.subrange(2, parts.window.len() as int + 2),
    ensures
        forall|k: int|
            0 <= k < window.len() ==> #[trigger] window[k] == parts.window_offset(k),
{
    assert forall|k: int| 0 <= k < window.len() implies #[trigger] window[k]
        == parts.window_offset(k) by {
        assert(starts[k + 2] == crate::x86::offset_after(parts.listing().take(k + 2)));
        assert(parts.listing().take(k + 2) =~= Assembly::entry() + parts.window.take(k));
    }
}

/// A program fails to compile where its first part does.
proof fn lemma_code_fails(ops: Seq<Op>, ret: Option<Operand>, low: int, high: int)
    requires
        0 <= low <= high,
        code_until(ops, ret, low) is Err,
    ensures
        code_until(ops, ret, high) == code_until(ops, ret, low),
    decreases high,
{
    if low < high {
        lemma_code_fails(ops, ret, low, high - 1);
    }
}

/// The number of parameters that the first `n` operations need.
pub open spec fn params_needed(ops: Seq<Op>, n: int) -> int
    decreases n,
{
    if n <= 0 {
        0
    } else {
        let before = params_needed(ops, n - 1);
        match ops[n - 1] {
            Op::Param { index, .. } => if before < index + 1 {
                index + 1
            } else {
                before
            },
            _ => before,
        }
    }
}

/// Every parameter index is below the highest that a count can reach.
pub open spec fn params_fit(ops: Seq<Op>) -> bool {
    forall|i: int|
        0 <= i < ops.len() ==> ((#[trigger] ops[i]) matches Op::Param { index, .. } ==> index
            < usize::MAX)
}

/// The contents of the descriptor of code mapped at `base`: version and
/// flags, start of the window, its length, and the abort handler.
pub open spec fn descriptor(a: Assembly, base: int) -> Seq<u8> {
    crate::x86::le64(0) + crate::x86::le64((base + a.start()) as u64) + crate::x86::le64(
        (a.post() - a.start()) as u64,
    ) + crate::x86::le64((base + a.abort()) as u64)
}

/// The smallest multiple of the page size that holds `n` bytes.
pub open spec fn page_multiple(n: int) -> int {
    (n + 4095) / 4096 * 4096
}

/// The contents of the mapping: code behind its descriptor, then zeros up to
/// the end of the last page.
pub open spec fn mapped_bytes(a: Assembly, base: int) -> Seq<u8> {
    let code = a.bytes();
    descriptor(a, base) + code.skip(ENTRY_OFF as int) + Seq::new(
        (page_multiple(code.len() as int) - code.len()) as nat,
        |i: int| 0u8,
    )
}

/// The code of a compiled program, and what a call of it has to pass.
#[derive(Clone, Debug)]
pub struct Body {
    blob: Blob,
    nregions: usize,
    nparams: usize,
}

/// A compiled program, ready to be mapped at any page-aligned address.
#[derive(Clone, Debug)]
pub struct CompiledSeq {
    pub body: Body,
    pub name: String,
}

impl CompiledSeq {
    /// The instructions.
    pub closed spec fn assembly(self) -> Assembly {
        let insns = self.body.blob.insns@;
        let post = self.body.blob.post_index as int;
        Assembly {
            window: insns.subrange(2, post),
            result: insns.subrange(post, insns.len() - 3),
        }
    }

    /// Number of regions of the layout that the program was compiled against.
    pub closed spec fn regions(self) -> nat {
        self.body.nregions as nat
    }

    /// Number of parameters that a call has to pass.
    pub closed spec fn params(self) -> nat {
        self.body.nparams as nat
    }

    /// Code, offsets and instructions belong together.
    pub closed spec fn wf(self) -> bool {
        self.body.blob.holds(self.assembly())
    }

    /// Compile `prog` against `layout`.
    ///
    /// # Errors
    ///
    /// Fails on an invalid program, on model-only ops (`CpuIdHoisted`), on
    /// variable shift amounts, or on register-pool exhaustion.
    pub fn compile(prog: &Program, layout: &Layout) -> (res: Result<Self, CompileError>)
        requires
            prog.regs_fit(),
            params_fit(prog.ops@),
        ensures
            match crate::ir::verdict(layout@, prog.ops@, prog.ret) {
                Err(e) => res matches Err(got) && got == CompileError::Invalid(e),
                Ok(_) => match assembly(prog.ops@, prog.ret) {
                    Err(e) => res matches Err(got) && got == e,
                    Ok(a) => {
                        &&& res matches Ok(seq)
                        &&& seq.wf()
                        &&& seq.assembly() == a
                        &&& seq.regions() == layout@.len()
                        &&& seq.params() == params_needed(prog.ops@, prog.ops@.len() as int)
                        &&& seq.name@ == prog.name@
                    },
                },
            },
    {
        if let Err(e) = prog.validate(layout) {
            return Err(CompileError::Invalid(e));
        }
        let blob = match emit(prog, layout) {
            Ok(b) => b,
            Err(e) => return Err(e),
        };
        let mut nparams: usize = 0;
        let mut at: usize = 0;
        while at < prog.ops.len()
            invariant
                at <= prog.ops@.len(),
                params_fit(prog.ops@),
                nparams == params_needed(prog.ops@, at as int),
            decreases prog.ops@.len() - at,
        {
            if let Op::Param { index, .. } = prog.ops[at] {
                assert(prog.ops@[at as int] is Param);
                if nparams < index + 1 {
                    nparams = index + 1;
                }
            }
            at = at + 1;
        }
        assert(layout@.len() == layout.regions.len());
        let body = Body { blob, nregions: layout.regions.len(), nparams };
        let seq = CompiledSeq { body, name: prog.name.clone() };
        assert(seq.assembly() =~= assembly(prog.ops@, prog.ret)->Ok_0);
        Ok(seq)
    }

    /// The code before it has an address: with a blank descriptor, and without
    /// the rest of its last page.
    #[must_use]
    pub fn unplaced_code(&self) -> (b: &[u8])
        requires
            self.wf(),
        ensures
            b@ == self.assembly().bytes(),
    {
        self.body.blob.buf.as_slice()
    }

    /// Length of the mapping that the code needs.
    #[must_use]
    pub fn map_len(&self) -> (n: usize)
        requires
            self.wf(),
            self.assembly().bytes().len() + 4095 <= usize::MAX,
        ensures
            n == page_multiple(self.assembly().bytes().len() as int),
    {
        (self.body.blob.buf.len() + 4095) / 4096 * 4096
    }

    /// The contents of the whole mapping, descriptor included, once it is known
    /// to start at `base`.
    #[must_use]
    pub fn code_bytes(&self, base: u64) -> (image: Vec<u8>)
        requires
            self.wf(),
            self.assembly().bytes().len() + 4095 <= usize::MAX,
            base + self.assembly().bytes().len() <= u64::MAX,
        ensures
            image@ == mapped_bytes(self.assembly(), base as int),
    {
        let mut image = Asm { buf: Vec::new() };
        image.imm64(0);
        image.imm64(base + self.body.blob.start_off as u64);
        image.imm64((self.body.blob.post_off - self.body.blob.start_off) as u64);
        image.imm64(base + self.body.blob.abort_off as u64);
        let ghost head = image@;
        assert(head =~= descriptor(self.assembly(), base as int));
        assert(head.len() == 32);
        let ghost code = self.body.blob.buf@;
        let mut k: usize = 32;
        while k < self.body.blob.buf.len()
            invariant
                32 <= k,
                k <= self.body.blob.buf@.len(),
                code == self.body.blob.buf@,
                image@ == head + code.subrange(32, k as int),
            decreases self.body.blob.buf@.len() - k,
        {
            image.buf.push(self.body.blob.buf[k]);
            k = k + 1;
            assert(image@ =~= head + code.subrange(32, k as int));
        }
        assert(code.subrange(32, k as int) =~= code.skip(32));
        let len: usize = self.map_len();
        let ghost filled = image@;
        while k < len
            invariant
                code.len() <= k <= len,
                filled.len() == code.len(),
                image@ == filled + Seq::new((k - code.len()) as nat, |i: int| 0u8),
            decreases len - k,
        {
            image.buf.push(0);
            k = k + 1;
            assert(image@ =~= filled + Seq::new((k - code.len()) as nat, |i: int| 0u8));
        }
        image.buf
    }

    /// Address of every instruction in the window of code mapped at `base`.
    #[must_use]
    pub fn window_insn_addrs(&self, base: u64) -> (addrs: Vec<u64>)
        requires
            self.wf(),
            base + self.assembly().bytes().len() <= u64::MAX,
        ensures
            addrs@.len() == self.assembly().window.len(),
            forall|k: int|
                0 <= k < addrs@.len() ==> #[trigger] addrs@[k] == base
                    + self.assembly().window_offset(k),
    {
        let mut addrs: Vec<u64> = Vec::new();
        let mut k: usize = 0;
        while k < self.body.blob.window.len()
            invariant
                self.wf(),
                base + self.assembly().bytes().len() <= u64::MAX,
                k <= self.body.blob.window@.len(),
                addrs@.len() == k,
                forall|j: int|
                    0 <= j < k ==> #[trigger] addrs@[j] == base + self.assembly().window_offset(j),
            decreases self.body.blob.window@.len() - k,
        {
            proof {
                lemma_window_inside(self.assembly(), k as int);
                assert(self.body.blob.window@[k as int] == self.assembly().window_offset(k as int));
            }
            addrs.push(base + self.body.blob.window[k] as u64);
            k = k + 1;
        }
        addrs
    }

    /// Address of the abort handler of code mapped at `base`.
    #[must_use]
    pub fn abort_addr(&self, base: u64) -> (addr: u64)
        requires
            self.wf(),
            base + self.assembly().bytes().len() <= u64::MAX,
        ensures
            addr == base + self.assembly().abort(),
    {
        base + self.body.blob.abort_off as u64
    }

    /// Address of the first instruction after the window.
    #[must_use]
    pub fn post_addr(&self, base: u64) -> (addr: u64)
        requires
            self.wf(),
            base + self.assembly().bytes().len() <= u64::MAX,
        ensures
            addr == base + self.assembly().post(),
    {
        base + self.body.blob.post_off as u64
    }

    /// Address that the abort handler jumps to, which is the entry point.
    #[must_use]
    pub fn retry_addr(&self, base: u64) -> (addr: u64)
        requires
            self.wf(),
            base + self.assembly().bytes().len() <= u64::MAX,
        ensures
            addr == base + ENTRY_OFF,
    {
        proof {
            lemma_code_len(self.assembly());
        }
        base + ENTRY_OFF as u64
    }
}

/// How long the code is.
pub(crate) proof fn lemma_code_len(a: Assembly)
    ensures
        a.bytes().len() == a.abort() + 5,
        a.abort() >= ENTRY_OFF,
{
    crate::x86::lemma_encode_len(a.listing(), crate::x86::exit_jumps(a.listing()), a.exit());
}

/// The window is inside the code.
proof fn lemma_window_inside(a: Assembly, k: int)
    requires
        0 <= k <= a.window.len(),
    ensures
        a.window_offset(k) <= a.post(),
        a.post() <= a.bytes().len(),
{
    crate::x86::lemma_prefix(a.armed(), k + 2);
    assert(a.armed().take(k + 2) =~= Assembly::entry() + a.window.take(k));
    crate::x86::lemma_prefix(a.listing(), a.armed().len() as int);
    assert(a.listing().take(a.armed().len() as int) =~= a.armed());
    lemma_code_len(a);
}

/// No program that reads a stale CPU id compiles.
pub proof fn law_stale_cpu_id_never_compiles(ops: Seq<Op>, ret: Option<Operand>, at: int)
    requires
        0 <= at < ops.len(),
        ops[at] is CpuIdHoisted,
    ensures
        assembly(ops, ret) is Err,
{
    lemma_failure_lasts(ops, ret, at + 1, ops.len() as int);
}

/// What stops the compiler at one operation stops it for good.
proof fn lemma_failure_lasts(ops: Seq<Op>, ret: Option<Operand>, n: int, m: int)
    requires
        n <= m,
        code_until(ops, ret, n) is Err,
    ensures
        code_until(ops, ret, m) is Err,
    decreases m - n,
{
    if n < m {
        lemma_failure_lasts(ops, ret, n, m - 1);
    }
}

/// A displacement reaches its target if it is within two gigabytes either way.
pub proof fn law_jumps_land(target: int, next: int)
    requires
        -0x8000_0000 <= target - next < 0x8000_0000,
    ensures
        next + crate::machine::signed(crate::x86::displacement(target, next)) == target,
{
}

/// A word is eight bytes on from the one before it, as far as a displacement
/// can tell.
pub proof fn law_words_are_eight_bytes_apart(k: int)
    requires
        0 <= k,
    ensures
        word_disp(0) == 0,
        word_disp(k + 1) == word_disp(k) + 8 || (word_disp(k) + 8 == 0x1_0000_0000 && word_disp(
            k + 1,
        ) == 0),
{
}

/// The four bytes before the abort handler are the signature that the kernel
/// looks for, the handler jumps to the entry, and the entry loads the address
/// of the descriptor at offset 0.
pub proof fn law_abort_handler(a: Assembly)
    requires
        a.abort() < 0x8000_0000,
    ensures
        a.bytes().subrange(a.abort() - 4, a.abort()) == crate::x86::le32(RSEQ_SIG),
        a.bytes()[a.abort()] == 0xE9,
        a.bytes().subrange(a.abort() + 1, a.abort() + 5) == crate::x86::le32(
            crate::x86::displacement(ENTRY_OFF as int, a.abort() + 5),
        ),
        a.abort() + 5 + crate::machine::signed(
            crate::x86::displacement(ENTRY_OFF as int, a.abort() + 5),
        ) == ENTRY_OFF,
        ENTRY_OFF + 7 + crate::machine::signed(0xFFFF_FFD9) == 0,
{
    lemma_code_len(a);
    let bytes = a.bytes();
    let sig = crate::x86::le32(RSEQ_SIG);
    let back = crate::x86::le32(crate::x86::displacement(ENTRY_OFF as int, a.abort() + 5));
    crate::x86::lemma_encode_len(a.listing(), crate::x86::exit_jumps(a.listing()), a.exit());
    assert(bytes.subrange(a.abort() - 4, a.abort()) =~= sig);
    assert(bytes.subrange(a.abort() + 1, a.abort() + 5) =~= back);
}

/// The memory that a program compiled against a layout operates on: per-CPU
/// regions have one slice for every CPU there could be.
#[derive(Debug)]
pub struct RegionSet {
    layout: Layout,
    allocs: Vec<Vec<u64>>,
}

impl View for RegionSet {
    type V = Words;

    closed spec fn view(&self) -> Words {
        Seq::new(self.allocs@.len(), |r: int| self.allocs@[r]@)
    }
}

impl RegionSet {
    pub closed spec fn decls(self) -> Seq<RegionDecl> {
        self.layout@
    }

    /// Every declared region is there, in full size.
    pub open spec fn wf(self) -> bool {
        crate::sim::words_match(self.decls(), MAX_CPUS as int, self@)
    }

    #[must_use]
    pub fn new(layout: &Layout) -> (rs: Self)
        requires
            crate::sim::sizes_fit(layout@, MAX_CPUS as int),
        ensures
            rs.wf(),
            rs.decls() == layout@,
            rs@ == crate::sim::fresh_words(layout@, MAX_CPUS as int),
    {
        let mut allocs: Vec<Vec<u64>> = Vec::new();
        let mut r: usize = 0;
        let ghost fresh = crate::sim::fresh_words(layout@, MAX_CPUS as int);
        while r < layout.regions.len()
            invariant
                r <= layout@.len(),
                layout@ == layout.regions@,
                fresh == crate::sim::fresh_words(layout@, MAX_CPUS as int),
                crate::sim::sizes_fit(layout@, MAX_CPUS as int),
                allocs@.len() == r,
                forall|k: int| 0 <= k < r ==> (#[trigger] allocs@[k])@ == fresh[k],
            decreases layout@.len() - r,
        {
            let d = &layout.regions[r];
            assert(layout@[r as int].total_words(MAX_CPUS as int) <= usize::MAX);
            let len: usize = if d.per_cpu {
                d.words * MAX_CPUS
            } else {
                d.words
            };
            let words: Vec<u64> = vec![d.init; len];
            assert(words@ =~= fresh[r as int]);
            allocs.push(words);
            r = r + 1;
        }
        let rs = RegionSet { layout: layout.clone(), allocs };
        assert(rs@ =~= fresh);
        rs
    }

    /// Number of words of region `r`.
    #[must_use]
    pub fn region_len(&self, r: RegionId) -> (len: usize)
        requires
            r.0 < self@.len(),
        ensures
            len == self@[r.0 as int].len(),
    {
        self.allocs[r.0].len()
    }

    /// The words of region `r`.
    #[must_use]
    pub fn region(&self, r: RegionId) -> (words: &[u64])
        requires
            r.0 < self@.len(),
        ensures
            words@ == self@[r.0 as int],
    {
        self.allocs[r.0].as_slice()
    }

    /// Quiescent access to a region (`&mut self`: no calls in flight).
    pub fn region_mut(&mut self, r: RegionId) -> (words: &mut [u64])
        requires
            r.0 < old(self)@.len(),
        ensures
            words@ == old(self)@[r.0 as int],
            final(self)@ == old(self)@.update(r.0 as int, final(words)@),
            final(self).decls() == old(self).decls(),
    {
        self.allocs[r.0].as_mut_slice()
    }

    /// Overwrite region `r`.
    pub fn fill(&mut self, r: RegionId, words: &[u64])
        requires
            r.0 < old(self)@.len(),
            words@.len() == old(self)@[r.0 as int].len(),
        ensures
            final(self)@ == old(self)@.update(r.0 as int, words@),
            final(self).decls() == old(self).decls(),
    {
        let ghost before = self@;
        let mut copy: Vec<u64> = Vec::new();
        copy.extend_from_slice(words);
        assert(copy@ =~= words@);
        self.allocs.set(r.0, copy);
        assert(self@ =~= before.update(r.0 as int, words@));
    }

    /// The words of every region, for a live set to take over.
    #[must_use]
    pub fn into_words(self) -> (words: Vec<Vec<u64>>)
        ensures
            words@.len() == self@.len(),
            forall|r: int| 0 <= r < words@.len() ==> (#[trigger] words@[r])@ == self@[r],
    {
        self.allocs
    }

    /// Whether `seq` can be called on these regions with these parameters: it
    /// was compiled for as many regions and needs no more parameters.
    #[must_use]
    pub fn accepts(&self, seq: &CompiledSeq, params: &[u64]) -> (b: bool)
        requires
            self.wf(),
        ensures
            b == (seq.regions() == self@.len() && seq.params() <= params@.len()),
    {
        assert(self.layout@.len() == self.layout.regions.len());
        seq.body.nregions == self.layout.regions.len() && params.len() >= seq.body.nparams
    }
}

} // verus!
