//! What the compiled instructions do, and that it is what the IR says.
//!
//! The model covers the instructions the compiler emits: sixteen registers,
//! the operands of the last comparison, and memory in 64-bit words. Reads
//! through the pinned pointers (the rseq area, the region bases, the
//! parameters) are answered by the surroundings, as long as the pointers still
//! hold what the caller passed.

use vstd::prelude::*;

use crate::ir::{Op, Operand, Reg, RegionDecl};
use crate::sim::{AttemptEnd, Effect, Setting, State, Words};
use crate::codegen::{Allocation, Assembly, CompileError, CompiledSeq, RegionSet};
use crate::rt::MAX_CPUS;
use crate::x86::{Alu, Insn, R10, R11, R8, R9, RAX, RCX, RDI, RDX, RSI};

verus! {

/// What a call finds: the pointers it is passed and what they point to.
pub struct Surroundings {
    /// Address of the thread's rseq area, passed in rdi.
    pub area: u64,
    /// The CPU id in the area.
    pub cpu: u32,
    /// Address of the array of region bases, passed in rsi.
    pub bases_at: u64,
    pub bases: Seq<u64>,
    /// Address of the array of parameters, passed in rdx.
    pub params_at: u64,
    pub params: Seq<u64>,
    /// Address of the descriptor.
    pub descriptor: u64,
}

pub struct Machine {
    pub regs: Seq<u64>,
    /// The operands of the last comparison, as long as the flags are its.
    pub compared: Option<(u64, u64)>,
    /// The descriptor pointer in the rseq area.
    pub armed: u64,
    pub mem: Map<int, u64>,
}

/// A displacement is signed.
pub open spec fn signed(disp: u32) -> int {
    if disp < 0x8000_0000 {
        disp as int
    } else {
        disp - 0x1_0000_0000
    }
}

/// Word `disp / 8` of an array.
pub open spec fn array_word(a: Seq<u64>, disp: u32) -> u64 {
    a[signed(disp) / 8]
}

/// Addresses wrap around.
pub open spec fn wrapped(address: int) -> int {
    address % 0x1_0000_0000_0000_0000
}

impl Machine {
    pub open spec fn set(self, d: u8, v: u64) -> Machine {
        Machine { regs: self.regs.update(d as int, v), ..self }
    }

    /// The same, with the flags overwritten.
    pub open spec fn set_flags(self, d: u8, v: u64) -> Machine {
        Machine { regs: self.regs.update(d as int, v), compared: None, ..self }
    }

    pub open spec fn store(self, address: int, v: u64) -> Machine {
        Machine { mem: self.mem.insert(address, v), ..self }
    }

    pub open spec fn indexed(self, i: u8) -> int {
        wrapped(self.regs[RAX as int] + 8 * self.regs[i as int])
    }

    pub open spec fn displaced(self, disp: u32) -> int {
        wrapped(self.regs[RAX as int] + signed(disp))
    }

    /// The pinned pointers are in place.
    pub open spec fn pinned(self, at: Surroundings) -> bool {
        &&& self.regs.len() == 16
        &&& self.regs[RDI as int] == at.area
        &&& self.regs[RSI as int] == at.bases_at
        &&& self.regs[RDX as int] == at.params_at
    }

    /// The effect of an instruction that neither jumps nor returns.
    pub open spec fn step(self, at: Surroundings, insn: Insn) -> Machine {
        match insn {
            Insn::LoadDescriptor => self.set(RAX, at.descriptor),
            Insn::Arm => if self.regs[RDI as int] == at.area {
                Machine { armed: self.regs[RAX as int], ..self }
            } else {
                self.store(wrapped(self.regs[RDI as int] + 8), self.regs[RAX as int])
            },
            Insn::LoadCpuId { d } => self.set(
                d,
                if self.regs[RDI as int] == at.area {
                    at.cpu as u64
                } else {
                    arbitrary()
                },
            ),
            Insn::MovImm { d, v } => self.set(d, v),
            Insn::LoadParam { d, disp } => self.set(
                d,
                if self.regs[RDX as int] == at.params_at {
                    array_word(at.params, disp)
                } else {
                    arbitrary()
                },
            ),
            Insn::LoadBase { disp } => self.set(
                RAX,
                if self.regs[RSI as int] == at.bases_at {
                    array_word(at.bases, disp)
                } else {
                    arbitrary()
                },
            ),
            Insn::LoadIndexed { d, i } => self.set(d, self.mem[self.indexed(i)]),
            Insn::LoadDisp { d, disp } => self.set(d, self.mem[self.displaced(disp)]),
            Insn::StoreIndexed { s, i } => self.store(self.indexed(i), self.regs[s as int]),
            Insn::StoreDisp { s, disp } => self.store(self.displaced(disp), self.regs[s as int]),
            Insn::Alu { op, d, s } => {
                let a = self.regs[d as int];
                let b = self.regs[s as int];
                match op {
                    Alu::Mov => self.set(d, b),
                    Alu::Add => self.set_flags(d, a.wrapping_add(b)),
                    Alu::Sub => self.set_flags(d, a.wrapping_sub(b)),
                    Alu::And => self.set_flags(d, a & b),
                    Alu::Or => self.set_flags(d, a | b),
                    Alu::Xor => self.set_flags(d, a ^ b),
                    Alu::Cmp => Machine { compared: Some((a, b)), ..self },
                }
            },
            Insn::Imul { d, s } => self.set_flags(
                d,
                self.regs[d as int].wrapping_mul(self.regs[s as int]),
            ),
            Insn::Shl { d, amount } => self.set_flags(
                d,
                self.regs[d as int].wrapping_shl(amount as u32),
            ),
            Insn::Shr { d, amount } => self.set_flags(
                d,
                self.regs[d as int].wrapping_shr(amount as u32),
            ),
            Insn::ZeroRax => self.set_flags(RAX, 0),
            Insn::MinusOneRax => self.set(RAX, 0xffff_ffff_ffff_ffff),
            Insn::JumpExit { .. } => self,
            Insn::Ret => self,
        }
    }

    /// Whether a conditional jump is taken.
    pub open spec fn taken(self, cond: crate::ir::Cond) -> bool {
        match self.compared {
            Some((a, b)) => crate::sim::cond_holds(cond, a, b),
            None => arbitrary(),
        }
    }
}

/// Run from instruction `pc` until the code returns. Exit jumps go to
/// instruction `exit`. `None` if control leaves the listing.
pub open spec fn execute(
    at: Surroundings,
    listing: Seq<Insn>,
    exit: int,
    pc: int,
    m: Machine,
) -> Option<Machine>
    decreases listing.len() - pc,
{
    if pc < 0 || pc >= listing.len() {
        None
    } else {
        match listing[pc] {
            Insn::Ret => Some(m),
            Insn::JumpExit { cond } => if !m.taken(cond) {
                execute(at, listing, exit, pc + 1, m)
            } else if pc < exit < listing.len() {
                execute(at, listing, exit, exit, m)
            } else {
                None
            },
            insn => execute(at, listing, exit, pc + 1, m.step(at, insn)),
        }
    }
}

/// The state after `n` instructions in a row, from `pc` on.
pub open spec fn after(at: Surroundings, listing: Seq<Insn>, pc: int, n: int, m: Machine) -> Machine
    decreases n,
{
    if n <= 0 {
        m
    } else {
        after(at, listing, pc, n - 1, m).step(at, listing[pc + n - 1])
    }
}

/// Neither a jump nor a return.
pub open spec fn is_straight(insn: Insn) -> bool {
    !(insn is JumpExit) && !(insn is Ret)
}

proof fn lemma_straight(
    at: Surroundings,
    listing: Seq<Insn>,
    exit: int,
    pc: int,
    n: int,
    m: Machine,
)
    requires
        0 <= pc,
        0 <= n,
        pc + n <= listing.len(),
        forall|k: int| pc <= k < pc + n ==> is_straight(#[trigger] listing[k]),
    ensures
        execute(at, listing, exit, pc, m) == execute(
            at,
            listing,
            exit,
            pc + n,
            after(at, listing, pc, n, m),
        ),
    decreases n,
{
    if n > 0 {
        lemma_straight(at, listing, exit, pc, n - 1, m);
        assert(is_straight(listing[pc + n - 1]));
    }
}

/// Address of word `i` of region `r`.
pub open spec fn address(bases: Seq<u64>, r: int, i: int) -> int {
    bases[r] + 8 * i
}

/// Word `i` of region `r` exists.
pub open spec fn has_word(words: Words, r: int, i: int) -> bool {
    0 <= r < words.len() && 0 <= i < words[r].len()
}

/// The regions are in the address space and do not overlap.
pub open spec fn laid_out(bases: Seq<u64>, words: Words) -> bool {
    &&& bases.len() == words.len()
    &&& forall|r: int, i: int| #[trigger]
        has_word(words, r, i) ==> address(bases, r, i) <= 0xffff_ffff_ffff_ffff
    &&& forall|r: int, i: int, q: int, j: int|
        #![trigger address(bases, r, i), address(bases, q, j)]
        has_word(words, r, i) && has_word(words, q, j) && address(bases, r, i) == address(
            bases,
            q,
            j,
        ) ==> r == q && i == j
}

/// Memory holds the contents of every region.
pub open spec fn holds_words(bases: Seq<u64>, words: Words, mem: Map<int, u64>) -> bool {
    forall|r: int, i: int| #[trigger]
        has_word(words, r, i) ==> mem[address(bases, r, i)] == words[r][i]
}

/// Nothing outside the regions has changed.
pub open spec fn same_elsewhere(
    bases: Seq<u64>,
    words: Words,
    mem: Map<int, u64>,
    new: Map<int, u64>,
) -> bool {
    forall|p: int|
        #![trigger new[p]]
        (forall|r: int, i: int| #[trigger] has_word(words, r, i) ==> address(bases, r, i) != p)
            ==> new[p] == mem[p]
}

/// No physical register is in two places: no two virtual registers share one,
/// and none that is free holds a virtual register.
pub open spec fn exclusive(a: Allocation) -> bool {
    &&& forall|r: Reg| #[trigger]
        a.regs.dom().contains(r) ==> crate::codegen::in_pool(a.regs[r]) && !a.free.contains(
            a.regs[r],
        )
    &&& forall|r: Reg, q: Reg|
        #![trigger a.regs[r], a.regs[q]]
        a.regs.dom().contains(r) && a.regs.dom().contains(q) && r != q ==> a.regs[r] != a.regs[q]
    &&& forall|k: int| 0 <= k < a.free.len() ==> crate::codegen::in_pool(#[trigger] a.free[k])
    &&& a.free.no_duplicates()
}

proof fn lemma_give_exclusive(a: Allocation, dst: Reg)
    requires
        exclusive(a),
        a.free.len() > 0,
    ensures
        exclusive(a.give(dst)),
        forall|r: Reg| #[trigger] a.regs.dom().contains(r) ==> a.regs[r] != a.free[0],
{
    let b = a.give(dst);
    assert(a.free.contains(a.free[0]));
    assert forall|p: u8| b.free.contains(p) implies a.free.contains(p) && p != a.free[0] by {
        let k = choose|k: int| 0 <= k < b.free.len() && b.free[k] == p;
        assert(a.free[k + 1] == p);
    }
    assert forall|k: int| 0 <= k < b.free.len() implies crate::codegen::in_pool(
        #[trigger] b.free[k],
    ) by {
        assert(b.free[k] == a.free[k + 1]);
    }
    assert forall|r: Reg| #[trigger] b.regs.dom().contains(r) implies crate::codegen::in_pool(
        b.regs[r],
    ) && !b.free.contains(b.regs[r]) by {
        if r != dst {
            assert(a.regs.dom().contains(r));
        }
    }
    assert forall|r: Reg, q: Reg|
        #![trigger b.regs[r], b.regs[q]]
        b.regs.dom().contains(r) && b.regs.dom().contains(q) && r != q implies b.regs[r]
        != b.regs[q] by {
        if r == dst {
            assert(a.regs.dom().contains(q));
        } else if q == dst {
            assert(a.regs.dom().contains(r));
        } else {
            assert(a.regs[r] != a.regs[q]);
        }
    }
}

proof fn lemma_released_exclusive(
    ops: Seq<Op>,
    ret: Option<Operand>,
    n: int,
    a: Allocation,
    v: int,
)
    requires
        exclusive(a),
        0 <= v <= usize::MAX + 1,
    ensures
        exclusive(crate::codegen::released(ops, ret, n, a, v)),
    decreases v,
{
    if v > 0 {
        lemma_released_exclusive(ops, ret, n, a, v - 1);
        let b = crate::codegen::released(ops, ret, n, a, v - 1);
        let c = crate::codegen::released(ops, ret, n, a, v);
        let r = (v - 1) as usize;
        if b.regs.dom().contains(r) && crate::codegen::dead_after(ops, ret, n, r) {
            let p = b.regs[r];
            assert forall|x: u8| #[trigger] c.free.contains(x) implies b.free.contains(x) || x
                == p by {
                let k = choose|k: int| 0 <= k < c.free.len() && c.free[k] == x;
                if k < b.free.len() {
                    assert(b.free[k] == x);
                }
            }
            assert forall|q: Reg| #[trigger]
                c.regs.dom().contains(q) implies crate::codegen::in_pool(c.regs[q])
                && !c.free.contains(c.regs[q]) by {
                assert(b.regs.dom().contains(q));
                assert(b.regs[q] != b.regs[r]);
            }
            assert forall|q: Reg, t: Reg|
                #![trigger c.regs[q], c.regs[t]]
                c.regs.dom().contains(q) && c.regs.dom().contains(t) && q != t implies c.regs[q]
                != c.regs[t] by {
                assert(b.regs[q] != b.regs[t]);
            }
        }
    }
}

/// The compiler keeps virtual registers apart: at every point of a program no
/// two that are still needed share a physical register, and the scratch
/// registers and the pinned pointers hold none.
pub proof fn law_registers_are_exclusive(ops: Seq<Op>, ret: Option<Operand>, n: int)
    requires
        0 <= n <= ops.len(),
        crate::codegen::code_until(ops, ret, n) is Ok,
    ensures
        exclusive(crate::codegen::code_until(ops, ret, n)->Ok_0.1),
    decreases n,
{
    if n > 0 {
        law_registers_are_exclusive(ops, ret, n - 1);
        let a = crate::codegen::code_until(ops, ret, n - 1)->Ok_0.1;
        let b = crate::codegen::op_code(ops[n - 1], a)->Ok_0.1;
        if b != a {
            lemma_give_exclusive(a, ops[n - 1].dst().unwrap());
        }
        lemma_released_exclusive(ops, ret, n - 1, b, usize::MAX + 1);
    } else {
        let a = Allocation::initial();
        assert(a.free =~= seq![RCX, R8, R9, R10]);
    }
}

/// The machine is where the simulator is: the registers still needed hold
/// their values, and memory holds the contents of the regions.
pub open spec fn agrees(at: Surroundings, a: Allocation, m: Machine, s: State) -> bool {
    &&& m.pinned(at)
    &&& forall|r: Reg| #[trigger]
        a.regs.dom().contains(r) ==> s.regs.dom().contains(r) && m.regs[a.regs[r] as int]
            == s.regs[r]
    &&& laid_out(at.bases, s.words)
    &&& holds_words(at.bases, s.words, m.mem)
}

/// Displacements reach: 8 times the number fits a signed 32-bit value.
pub open spec fn in_reach(op: Op) -> bool {
    &&& op.region() matches Some(r) ==> r.0 < 0x1000_0000
    &&& op matches Op::Param { index, .. } ==> index < 0x1000_0000
    &&& match op {
        Op::Load { addr, .. } => addr.index matches Operand::Imm(k) ==> k < 0x1000_0000,
        Op::StoreScratch { addr, .. } => addr.index matches Operand::Imm(k) ==> k < 0x1000_0000,
        Op::Commit { addr, .. } => addr.index matches Operand::Imm(k) ==> k < 0x1000_0000,
        _ => true,
    }
}

/// The operation does not read the register that it defines.
pub open spec fn reads_others(op: Op) -> bool {
    op.dst() matches Some(r) ==> !op.uses().contains(Operand::Reg(r))
}

/// The call is made on CPU `cpu` with the parameters of the run.
pub open spec fn same_call(at: Surroundings, env: Setting, cpu: usize) -> bool {
    &&& at.cpu == cpu
    &&& at.params == env.params
}

/// The code of one operation stands at `pc`.
pub open spec fn stands_at(listing: Seq<Insn>, pc: int, code: Seq<Insn>) -> bool {
    &&& 0 <= pc
    &&& pc + code.len() <= listing.len()
    &&& forall|k: int| 0 <= k < code.len() ==> listing[pc + k] == #[trigger] code[k]
}

/// What one operation needs to be carried out as the simulator does.
pub open spec fn can_follow(
    at: Surroundings,
    env: Setting,
    cpu: usize,
    op: Op,
    a: Allocation,
    m: Machine,
    s: State,
) -> bool {
    &&& usize::MAX == u64::MAX
    &&& same_call(at, env, cpu)
    &&& exclusive(a)
    &&& crate::codegen::operands_placed(op, a)
    &&& in_reach(op)
    &&& reads_others(op)
    &&& op.region() matches Some(r) ==> r.0 < s.words.len()
    &&& agrees(at, a, m, s)
    &&& crate::codegen::op_code(op, a) is Ok
}

proof fn lemma_word_disp(k: int)
    requires
        0 <= k < 0x1000_0000,
    ensures
        crate::codegen::word_disp(k) == 8 * k,
        signed(crate::codegen::word_disp(k)) == 8 * k,
        signed(crate::codegen::word_disp(k)) / 8 == k,
{
}

/// Operations that define a register from nothing but their own fields.
proof fn lemma_define_op(
    at: Surroundings,
    env: Setting,
    cpu: usize,
    op: Op,
    a: Allocation,
    listing: Seq<Insn>,
    pc: int,
    m: Machine,
    s: State,
)
    requires
        can_follow(at, env, cpu, op, a, m, s),
        op is CpuId || op is Const || op is Param,
        stands_at(listing, pc, crate::codegen::op_code(op, a)->Ok_0.0),
        !(crate::sim::step_effect(env, cpu, op, s) is Fail),
    ensures
        ({
            let (code, b) = crate::codegen::op_code(op, a)->Ok_0;
            let t = crate::sim::step_effect(env, cpu, op, s)->Continue_0;
            &&& crate::sim::step_effect(env, cpu, op, s) is Continue
            &&& agrees(at, b, after(at, listing, pc, code.len() as int, m), t)
            &&& after(at, listing, pc, code.len() as int, m).mem == m.mem
            &&& code.len() == 1
            &&& is_straight(listing[pc])
        }),
{
    let (code, b) = crate::codegen::op_code(op, a)->Ok_0;
    let d = a.free[0];
    let dst = op.dst().unwrap();
    lemma_give_exclusive(a, dst);
    assert(listing[pc + 0] == code[0]);
    reveal_with_fuel(after, 2);
    assert(crate::codegen::in_pool(d));
    if op is Param {
        lemma_word_disp(op->Param_index as int);
    }
    let t = crate::sim::step_effect(env, cpu, op, s)->Continue_0;
    let m2 = after(at, listing, pc, 1, m);
    assert(m2 == m.set(d, t.regs[dst]));
    assert forall|r: Reg| #[trigger] b.regs.dom().contains(r) implies t.regs.dom().contains(r)
        && m2.regs[b.regs[r] as int] == t.regs[r] by {
        if r != dst {
            assert(a.regs.dom().contains(r));
        }
    }
}

/// The value of an operand is in the register that it is placed in.
proof fn lemma_operand(at: Surroundings, a: Allocation, m: Machine, s: State, o: Operand)
    requires
        agrees(at, a, m, s),
        exclusive(a),
        o matches Operand::Reg(r) ==> a.regs.dom().contains(r),
    ensures
        crate::sim::operand_value(s.regs, o) is Ok,
        o matches Operand::Reg(r) ==> {
            &&& crate::sim::operand_value(s.regs, o)->Ok_0 == m.regs[a.regs[r] as int]
            &&& crate::codegen::in_pool(a.regs[r])
        },
        o matches Operand::Imm(v) ==> crate::sim::operand_value(s.regs, o)->Ok_0 == v,
{
}

/// With the base of a region in rax, both forms of addressing reach the word.
proof fn lemma_reach(bases: Seq<u64>, m: Machine, region: int, k: u64)
    requires
        m.regs.len() == 16,
        address(bases, region, k as int) <= 0xffff_ffff_ffff_ffff,
        m.regs[RAX as int] == bases[region],
    ensures
        forall|i: u8| i < 16 && m.regs[i as int] == k ==> #[trigger] m.indexed(i) == address(
            bases,
            region,
            k as int,
        ),
        k < 0x1000_0000 ==> m.displaced(crate::codegen::word_disp(k as int)) == address(
            bases,
            region,
            k as int,
        ),
{
    if k < 0x1000_0000 {
        lemma_word_disp(k as int);
    }
}

proof fn lemma_load_op(
    at: Surroundings,
    env: Setting,
    cpu: usize,
    op: Op,
    a: Allocation,
    listing: Seq<Insn>,
    pc: int,
    m: Machine,
    s: State,
)
    requires
        can_follow(at, env, cpu, op, a, m, s),
        op is Load,
        stands_at(listing, pc, crate::codegen::op_code(op, a)->Ok_0.0),
        !(crate::sim::step_effect(env, cpu, op, s) is Fail),
    ensures
        ({
            let (code, b) = crate::codegen::op_code(op, a)->Ok_0;
            let t = crate::sim::step_effect(env, cpu, op, s)->Continue_0;
            &&& crate::sim::step_effect(env, cpu, op, s) is Continue
            &&& agrees(at, b, after(at, listing, pc, code.len() as int, m), t)
            &&& after(at, listing, pc, code.len() as int, m).mem == m.mem
            &&& code.len() == 2
            &&& is_straight(listing[pc])
            &&& is_straight(listing[pc + 1])
        }),
{
    let (code, b) = crate::codegen::op_code(op, a)->Ok_0;
    let d = a.free[0];
    let dst = op.dst().unwrap();
    let addr = op->Load_addr;
    let region = addr.region.0 as int;
    lemma_give_exclusive(a, dst);
    assert(listing[pc + 0] == code[0]);
    assert(listing[pc + 1] == code[1]);
    reveal_with_fuel(after, 3);
    assert(crate::codegen::in_pool(d));
    assert(op.uses()[0] == addr.index);
    lemma_operand(at, a, m, s, addr.index);
    lemma_word_disp(region);
    let index = crate::sim::operand_value(s.regs, addr.index)->Ok_0;
    assert(has_word(s.words, region, index as int));
    let m1 = after(at, listing, pc, 1, m);
    assert(m1 == m.set(RAX, at.bases[region]));
    lemma_reach(at.bases, m1, region, index);
    let t = crate::sim::step_effect(env, cpu, op, s)->Continue_0;
    let m2 = after(at, listing, pc, 2, m);
    match addr.index {
        Operand::Imm(k) => {
            assert(m2 == m1.set(d, m1.mem[m1.displaced(crate::codegen::word_disp(k as int))]));
        },
        Operand::Reg(r) => {
            assert(op.uses().contains(Operand::Reg(r)));
            assert(r != dst);
            assert(b.regs[r] == a.regs[r]);
            assert(m2 == m1.set(d, m1.mem[m1.indexed(a.regs[r])]));
        },
    }
    assert(m2 == m1.set(d, t.regs[dst]));
    assert forall|r: Reg| #[trigger] b.regs.dom().contains(r) implies t.regs.dom().contains(r)
        && m2.regs[b.regs[r] as int] == t.regs[r] by {
        if r != dst {
            assert(a.regs.dom().contains(r));
        }
    }
}

/// The shift instructions take the amount modulo 64, as the IR does.
proof fn lemma_shift_amount(a: u64, v: u64)
    ensures
        a.wrapping_shl(v as u32) == a.wrapping_shl(((v % 64) as u8) as u32),
        a.wrapping_shr(v as u32) == a.wrapping_shr(((v % 64) as u8) as u32),
{
    assert((v as u32) % 64 == (((v % 64) as u8) as u32) % 64) by (bit_vector);
}

proof fn lemma_bin_op(
    at: Surroundings,
    env: Setting,
    cpu: usize,
    op: Op,
    a: Allocation,
    listing: Seq<Insn>,
    pc: int,
    m: Machine,
    s: State,
)
    requires
        can_follow(at, env, cpu, op, a, m, s),
        op is Bin,
        stands_at(listing, pc, crate::codegen::op_code(op, a)->Ok_0.0),
    ensures
        ({
            let (code, b) = crate::codegen::op_code(op, a)->Ok_0;
            let t = crate::sim::step_effect(env, cpu, op, s)->Continue_0;
            &&& crate::sim::step_effect(env, cpu, op, s) is Continue
            &&& agrees(at, b, after(at, listing, pc, code.len() as int, m), t)
            &&& after(at, listing, pc, code.len() as int, m).mem == m.mem
            &&& code.len() <= 3
            &&& forall|k: int| pc <= k < pc + code.len() ==> is_straight(#[trigger] listing[k])
        }),
{
    let (code, b) = crate::codegen::op_code(op, a)->Ok_0;
    let d = a.free[0];
    let dst = op.dst().unwrap();
    let lhs = op->Bin_lhs;
    let rhs = op->Bin_rhs;
    lemma_give_exclusive(a, dst);
    assert(crate::codegen::in_pool(d));
    assert(op.uses()[0] == lhs);
    assert(op.uses()[1] == rhs);
    lemma_operand(at, a, m, s, lhs);
    lemma_operand(at, a, m, s, rhs);
    let x = crate::sim::operand_value(s.regs, lhs)->Ok_0;
    let y = crate::sim::operand_value(s.regs, rhs)->Ok_0;
    if lhs is Reg {
        assert(op.uses().contains(lhs));
        assert(lhs->Reg_0 != dst);
        assert(b.regs[lhs->Reg_0] == a.regs[lhs->Reg_0]);
    }
    if rhs is Reg {
        assert(op.uses().contains(rhs));
        assert(rhs->Reg_0 != dst);
        assert(b.regs[rhs->Reg_0] == a.regs[rhs->Reg_0]);
    }
    if rhs is Imm {
        lemma_shift_amount(x, rhs->Imm_0);
    }
    reveal_with_fuel(after, 4);
    let head = crate::codegen::move_to(d, lhs, b);
    assert(head.len() == 1);
    assert(code[0] == head[0]);
    assert(listing[pc + 0] == code[0]);
    let m1 = after(at, listing, pc, 1, m);
    assert(m1 == m.set(d, x));
    let t = crate::sim::step_effect(env, cpu, op, s)->Continue_0;
    let v = crate::sim::bin_value(op->Bin_op, x, y);
    let n = code.len() as int;
    let m2 = after(at, listing, pc, n, m);
    assert(listing[pc + 1] == code[1]);
    if crate::codegen::is_shift(op->Bin_op) || rhs is Reg {
        assert(n == 2);
        assert(m2.regs =~= m1.set_flags(d, v).regs);
    } else {
        assert(n == 3);
        assert(listing[pc + 2] == code[2]);
        assert(after(at, listing, pc, 2, m) == m1.set(R11, y));
        assert(m2.regs =~= m1.set(R11, y).set_flags(d, v).regs);
    }
    assert forall|r: Reg| #[trigger] b.regs.dom().contains(r) implies t.regs.dom().contains(r)
        && m2.regs[b.regs[r] as int] == t.regs[r] by {
        if r != dst {
            assert(a.regs.dom().contains(r));
        }
    }
    assert forall|k: int| pc <= k < pc + code.len() implies is_straight(#[trigger] listing[k]) by {
        assert(listing[pc + (k - pc)] == code[k - pc]);
    }
}

/// Writing a word of a region to memory keeps memory and regions together.
proof fn lemma_write(bases: Seq<u64>, words: Words, mem: Map<int, u64>, region: int, k: int, v: u64)
    requires
        laid_out(bases, words),
        holds_words(bases, words, mem),
        has_word(words, region, k),
    ensures
        ({
            let new = words.update(region, words[region].update(k, v));
            &&& laid_out(bases, new)
            &&& holds_words(bases, new, mem.insert(address(bases, region, k), v))
            &&& same_elsewhere(bases, words, mem, mem.insert(address(bases, region, k), v))
        }),
{
    let new = words.update(region, words[region].update(k, v));
    let there = address(bases, region, k);
    assert forall|r: int, i: int| #[trigger] has_word(new, r, i) implies has_word(words, r, i) by {}
    assert forall|r: int, i: int| #[trigger] has_word(new, r, i) implies mem.insert(
        there,
        v,
    )[address(bases, r, i)] == new[r][i] by {
        assert(has_word(words, r, i));
        if address(bases, r, i) == there {
            assert(r == region && i == k);
        }
    }
    assert forall|p: int|
        #![trigger mem.insert(there, v)[p]]
        (forall|r: int, i: int| #[trigger] has_word(words, r, i) ==> address(bases, r, i) != p)
        implies mem.insert(there, v)[p] == mem[p] by {
        assert(has_word(words, region, k));
    }
}

/// The code of a store puts the value where the word is and nothing else
/// anywhere but in the scratch registers.
proof fn lemma_store_code(
    at: Surroundings,
    region: usize,
    place: Operand,
    index: u64,
    src: Operand,
    v: u64,
    a: Allocation,
    listing: Seq<Insn>,
    pc: int,
    m: Machine,
)
    requires
        m.pinned(at),
        region < 0x1000_0000,
        region < at.bases.len(),
        address(at.bases, region as int, index as int) <= 0xffff_ffff_ffff_ffff,
        match place {
            Operand::Imm(k) => k == index && k < 0x1000_0000,
            Operand::Reg(r) => crate::codegen::in_pool(a.regs[r]) && m.regs[a.regs[r] as int]
                == index,
        },
        match src {
            Operand::Imm(k) => k == v,
            Operand::Reg(r) => crate::codegen::in_pool(a.regs[r]) && m.regs[a.regs[r] as int] == v,
        },
        stands_at(listing, pc, crate::codegen::store_code(region, place, src, a)),
    ensures
        ({
            let n = crate::codegen::store_code(region, place, src, a).len() as int;
            let m3 = after(at, listing, pc, n, m);
            &&& m3.mem == m.mem.insert(address(at.bases, region as int, index as int), v)
            &&& m3.pinned(at)
            &&& forall|p: u8| #[trigger]
                crate::codegen::in_pool(p) ==> m3.regs[p as int] == m.regs[p as int]
            &&& after(at, listing, pc, n - 1, m).mem == m.mem
            &&& 2 <= n <= 3
            &&& forall|k: int| pc <= k < pc + n ==> is_straight(#[trigger] listing[k])
        }),
{
    let code = crate::codegen::store_code(region, place, src, a);
    let there = address(at.bases, region as int, index as int);
    lemma_word_disp(region as int);
    reveal_with_fuel(after, 4);
    assert(listing[pc + 0] == code[0]);
    assert(listing[pc + 1] == code[1]);
    let n = code.len() as int;
    let m1 = after(at, listing, pc, 1, m);
    assert(m1 == m.set(RAX, at.bases[region as int]));
    let m2 = after(at, listing, pc, n - 1, m);
    if src is Reg {
        assert(n == 2);
        assert(m2 == m1);
    } else {
        assert(n == 3);
        assert(listing[pc + 2] == code[2]);
        assert(m2 == m1.set(R11, v));
    }
    lemma_reach(at.bases, m2, region as int, index);
    let m3 = after(at, listing, pc, n, m);
    assert(listing[pc + (n - 1)] == code[n - 1]);
    assert(code[n - 1] == crate::codegen::store_insn(
        crate::codegen::place(src, a, R11),
        place,
        a,
    ));
    match place {
        Operand::Imm(k) => {
            assert(m2.displaced(crate::codegen::word_disp(k as int)) == there);
        },
        Operand::Reg(r) => {
            assert(m2.indexed(a.regs[r]) == there);
        },
    }
    assert(m3 == m2.store(there, v));
    assert forall|k: int| pc <= k < pc + n implies is_straight(#[trigger] listing[k]) by {
        assert(listing[pc + (k - pc)] == code[k - pc]);
    }
}

proof fn lemma_store_op(
    at: Surroundings,
    env: Setting,
    cpu: usize,
    op: Op,
    a: Allocation,
    listing: Seq<Insn>,
    pc: int,
    m: Machine,
    s: State,
)
    requires
        can_follow(at, env, cpu, op, a, m, s),
        op is StoreScratch || op is Commit,
        stands_at(listing, pc, crate::codegen::op_code(op, a)->Ok_0.0),
        !(crate::sim::step_effect(env, cpu, op, s) is Fail),
    ensures
        ({
            let (code, b) = crate::codegen::op_code(op, a)->Ok_0;
            let t = crate::sim::step_effect(env, cpu, op, s)->Continue_0;
            let n = code.len() as int;
            &&& crate::sim::step_effect(env, cpu, op, s) is Continue
            &&& agrees(at, b, after(at, listing, pc, n, m), t)
            &&& same_elsewhere(at.bases, s.words, m.mem, after(at, listing, pc, n, m).mem)
            &&& after(at, listing, pc, n - 1, m).mem == m.mem
            &&& 2 <= n <= 3
            &&& forall|k: int| pc <= k < pc + n ==> is_straight(#[trigger] listing[k])
        }),
{
    let (code, b) = crate::codegen::op_code(op, a)->Ok_0;
    let addr = match op {
        Op::StoreScratch { addr, .. } => addr,
        _ => op->Commit_addr,
    };
    let src = match op {
        Op::StoreScratch { src, .. } => src,
        _ => op->Commit_src,
    };
    let region = addr.region.0 as int;
    assert(op.uses()[0] == addr.index);
    assert(op.uses()[1] == src);
    lemma_operand(at, a, m, s, addr.index);
    lemma_operand(at, a, m, s, src);
    lemma_word_disp(region);
    let index = crate::sim::operand_value(s.regs, addr.index)->Ok_0;
    let v = crate::sim::operand_value(s.regs, src)->Ok_0;
    assert(has_word(s.words, region, index as int));
    lemma_write(at.bases, s.words, m.mem, region, index as int, v);
    lemma_store_code(at, addr.region.0, addr.index, index, src, v, a, listing, pc, m);
    let n = code.len() as int;
    let m3 = after(at, listing, pc, n, m);
    let t = crate::sim::step_effect(env, cpu, op, s)->Continue_0;
    assert forall|r: Reg| #[trigger] b.regs.dom().contains(r) implies t.regs.dom().contains(r)
        && m3.regs[b.regs[r] as int] == t.regs[r] by {
        assert(a.regs.dom().contains(r));
    }
}

/// The code of a branch compares the two values.
proof fn lemma_branch_code(
    at: Surroundings,
    op: Op,
    x: u64,
    y: u64,
    a: Allocation,
    listing: Seq<Insn>,
    pc: int,
    m: Machine,
)
    requires
        op is ExitIf,
        m.pinned(at),
        match op->ExitIf_lhs {
            Operand::Imm(k) => k == x,
            Operand::Reg(r) => crate::codegen::in_pool(a.regs[r]) && m.regs[a.regs[r] as int] == x,
        },
        match op->ExitIf_rhs {
            Operand::Imm(k) => k == y,
            Operand::Reg(r) => crate::codegen::in_pool(a.regs[r]) && m.regs[a.regs[r] as int] == y,
        },
        stands_at(listing, pc, crate::codegen::branch_code(op, a)),
    ensures
        ({
            let n = crate::codegen::branch_code(op, a).len() as int;
            let m2 = after(at, listing, pc, n - 1, m);
            &&& 2 <= n <= 4
            &&& forall|k: int| pc <= k < pc + n - 1 ==> is_straight(#[trigger] listing[k])
            &&& listing[pc + n - 1] == (Insn::JumpExit { cond: op->ExitIf_cond })
            &&& m2.pinned(at)
            &&& forall|p: u8| #[trigger]
                crate::codegen::in_pool(p) ==> m2.regs[p as int] == m.regs[p as int]
            &&& m2.mem == m.mem
            &&& m2.compared == Some((x, y))
        }),
{
    let code = crate::codegen::branch_code(op, a);
    let lhs = op->ExitIf_lhs;
    let rhs = op->ExitIf_rhs;
    reveal_with_fuel(after, 5);
    let n = code.len() as int;
    assert(listing[pc + 0] == code[0]);
    assert(listing[pc + 1] == code[1]);
    let m1 = after(at, listing, pc, n - 2, m);
    if lhs is Reg && rhs is Reg {
        assert(n == 2);
        assert(m1 == m);
    } else if lhs is Imm && rhs is Imm {
        assert(n == 4);
        assert(listing[pc + 2] == code[2]);
        assert(m1 == m.set(RAX, x).set(R11, y));
    } else {
        assert(n == 3);
        assert(m1 == m.set(
            R11,
            if lhs is Imm {
                x
            } else {
                y
            },
        ));
    }
    assert(listing[pc + (n - 2)] == code[n - 2]);
    assert forall|k: int| pc <= k < pc + n - 1 implies is_straight(#[trigger] listing[k]) by {
        assert(listing[pc + (k - pc)] == code[k - pc]);
    }
    assert(listing[pc + (n - 1)] == code[n - 1]);
}

proof fn lemma_branch_op(
    at: Surroundings,
    env: Setting,
    cpu: usize,
    op: Op,
    a: Allocation,
    listing: Seq<Insn>,
    pc: int,
    m: Machine,
    s: State,
)
    requires
        can_follow(at, env, cpu, op, a, m, s),
        op is ExitIf,
        stands_at(listing, pc, crate::codegen::op_code(op, a)->Ok_0.0),
    ensures
        ({
            let n = crate::codegen::op_code(op, a)->Ok_0.0.len() as int;
            let m2 = after(at, listing, pc, n - 1, m);
            &&& crate::codegen::op_code(op, a)->Ok_0.1 == a
            &&& 2 <= n <= 4
            &&& forall|k: int| pc <= k < pc + n - 1 ==> is_straight(#[trigger] listing[k])
            &&& listing[pc + n - 1] == (Insn::JumpExit { cond: op->ExitIf_cond })
            &&& agrees(at, a, m2, s)
            &&& m2.mem == m.mem
            &&& crate::sim::step_effect(env, cpu, op, s) == if m2.taken(op->ExitIf_cond) {
                Effect::Exit
            } else {
                Effect::Continue(s)
            }
        }),
{
    let code = crate::codegen::op_code(op, a)->Ok_0.0;
    let lhs = op->ExitIf_lhs;
    let rhs = op->ExitIf_rhs;
    assert(op.uses()[0] == lhs);
    assert(op.uses()[1] == rhs);
    lemma_operand(at, a, m, s, lhs);
    lemma_operand(at, a, m, s, rhs);
    let x = crate::sim::operand_value(s.regs, lhs)->Ok_0;
    let y = crate::sim::operand_value(s.regs, rhs)->Ok_0;
    lemma_branch_code(at, op, x, y, a, listing, pc, m);
    let m2 = after(at, listing, pc, code.len() - 1, m);
    assert forall|r: Reg| #[trigger] a.regs.dom().contains(r) implies s.regs.dom().contains(r)
        && m2.regs[a.regs[r] as int] == s.regs[r] by {}
}

/// Operations keep the sizes of the regions.
proof fn lemma_same_shape(env: Setting, cpu: usize, op: Op, s: State)
    requires
        op.region() matches Some(r) ==> r.0 < s.words.len(),
    ensures
        crate::sim::step_effect(env, cpu, op, s) matches Effect::Continue(t) ==> t.words.len()
            == s.words.len() && forall|r: int, i: int| #[trigger]
            has_word(t.words, r, i) == has_word(s.words, r, i),
{
    let effect = crate::sim::step_effect(env, cpu, op, s);
    if effect is Continue {
        let t = effect->Continue_0;
        assert forall|r: int| 0 <= r < s.words.len() implies #[trigger] t.words[r].len()
            == s.words[r].len() by {}
    }
}

/// An operation other than a branch is carried out by straight code.
proof fn lemma_straight_op(
    at: Surroundings,
    env: Setting,
    cpu: usize,
    op: Op,
    a: Allocation,
    listing: Seq<Insn>,
    pc: int,
    m: Machine,
    s: State,
)
    requires
        can_follow(at, env, cpu, op, a, m, s),
        !(op is ExitIf),
        stands_at(listing, pc, crate::codegen::op_code(op, a)->Ok_0.0),
        !(crate::sim::step_effect(env, cpu, op, s) is Fail),
    ensures
        ({
            let (code, b) = crate::codegen::op_code(op, a)->Ok_0;
            let t = crate::sim::step_effect(env, cpu, op, s)->Continue_0;
            let n = code.len() as int;
            &&& crate::sim::step_effect(env, cpu, op, s) is Continue
            &&& agrees(at, b, after(at, listing, pc, n, m), t)
            &&& same_elsewhere(at.bases, s.words, m.mem, after(at, listing, pc, n, m).mem)
            &&& forall|k: int| pc <= k < pc + n ==> is_straight(#[trigger] listing[k])
        }),
{
    if op is CpuId || op is Const || op is Param {
        lemma_define_op(at, env, cpu, op, a, listing, pc, m, s);
    } else if op is Load {
        lemma_load_op(at, env, cpu, op, a, listing, pc, m, s);
    } else if op is Bin {
        lemma_bin_op(at, env, cpu, op, a, listing, pc, m, s);
    } else {
        lemma_store_op(at, env, cpu, op, a, listing, pc, m, s);
    }
}

/// Giving registers back loses nothing that is needed.
proof fn lemma_released_agrees(
    at: Surroundings,
    ops: Seq<Op>,
    ret: Option<Operand>,
    n: int,
    b: Allocation,
    m: Machine,
    s: State,
)
    requires
        agrees(at, b, m, s),
    ensures
        agrees(at, crate::codegen::released(ops, ret, n, b, usize::MAX + 1), m, s),
{
    crate::codegen::lemma_released_dom(ops, ret, n, b, usize::MAX + 1);
    let c = crate::codegen::released(ops, ret, n, b, usize::MAX + 1);
    assert forall|r: Reg| #[trigger] c.regs.dom().contains(r) implies s.regs.dom().contains(r)
        && m.regs[c.regs[r] as int] == s.regs[r] by {
        assert(b.regs.dom().contains(r));
    }
}

/// Where the code of an operation stands.
proof fn lemma_op_stands(ops: Seq<Op>, ret: Option<Operand>, n: int)
    requires
        0 <= n < ops.len(),
        crate::codegen::assembly(ops, ret) is Ok,
    ensures
        crate::codegen::code_until(ops, ret, n) is Ok,
        crate::codegen::code_until(ops, ret, n + 1) is Ok,
        ({
            let parts = crate::codegen::assembly(ops, ret)->Ok_0;
            let (code, a) = crate::codegen::code_until(ops, ret, n)->Ok_0;
            let (more, b) = crate::codegen::op_code(ops[n], a)->Ok_0;
            let next = crate::codegen::code_until(ops, ret, n + 1)->Ok_0;
            &&& crate::codegen::op_code(ops[n], a) is Ok
            &&& stands_at(parts.listing(), code.len() as int + 2, more)
            &&& code.len() + 2 + more.len() <= parts.armed().len()
            &&& parts.armed().len() < parts.committed().len()
            &&& next.0.len() == code.len() + more.len()
            &&& next.1 == crate::codegen::released(ops, ret, n, b, usize::MAX + 1)
        }),
{
    let parts = crate::codegen::assembly(ops, ret)->Ok_0;
    let listing = parts.listing();
    crate::codegen::lemma_code_prefix(ops, ret, n + 1, ops.len() as int);
    crate::codegen::lemma_code_prefix(ops, ret, n, n + 1);
    let (code, a) = crate::codegen::code_until(ops, ret, n)->Ok_0;
    let (more, b) = crate::codegen::op_code(ops[n], a)->Ok_0;
    let next = crate::codegen::code_until(ops, ret, n + 1)->Ok_0;
    let pc = code.len() as int + 2;
    assert forall|k: int| 0 <= k < more.len() implies listing[pc + k] == #[trigger] more[k] by {
        assert(next.0[code.len() + k] == more[k]);
        assert(parts.window[code.len() + k] == next.0[code.len() + k]);
    }
}

/// The value that a committed run returns, with 0 standing for none.
pub open spec fn returned(ret: Option<Operand>, regs: Map<Reg, u64>) -> u64 {
    match ret {
        None => 0,
        Some(o) => crate::sim::operand_value(regs, o)->Ok_0,
    }
}

/// The code returns, in the state that an attempt of the simulator ends in:
/// the result in rax and the contents of the regions in memory. Nothing
/// outside the regions has been written.
pub open spec fn returns_as(
    at: Surroundings,
    end: AttemptEnd,
    ret: Option<Operand>,
    words: Words,
    mem: Map<int, u64>,
    f: Option<Machine>,
) -> bool {
    &&& f is Some
    &&& same_elsewhere(at.bases, words, mem, f.unwrap().mem)
    &&& match end {
        AttemptEnd::Exited(w) => {
            &&& f.unwrap().regs[RAX as int] == crate::codegen::EXITED
            &&& holds_words(at.bases, w, f.unwrap().mem)
        },
        AttemptEnd::Finished(s) => {
            &&& f.unwrap().regs[RAX as int] == returned(ret, s.regs)
            &&& holds_words(at.bases, s.words, f.unwrap().mem)
        },
        _ => false,
    }
}

/// A program that the compiled code follows the simulator on.
pub open spec fn compiles_faithfully(
    env: Setting,
    cpu: usize,
    ops: Seq<Op>,
    ret: Option<Operand>,
    at: Surroundings,
) -> bool {
    &&& usize::MAX == u64::MAX
    &&& crate::ir::well_shaped(env.decls, ops, ret)
    &&& crate::codegen::assembly(ops, ret) is Ok
    &&& forall|i: int|
        0 <= i < ops.len() ==> in_reach(#[trigger] ops[i]) && reads_others(ops[i])
    &&& same_call(at, env, cpu)
}

proof fn lemma_follow(
    at: Surroundings,
    env: Setting,
    cpu: usize,
    ops: Seq<Op>,
    ret: Option<Operand>,
    n: int,
    m: Machine,
    s: State,
)
    requires
        compiles_faithfully(env, cpu, ops, ret, at),
        0 <= n <= ops.len(),
        s.words.len() == env.decls.len(),
        crate::codegen::code_until(ops, ret, n) is Ok,
        agrees(at, crate::codegen::code_until(ops, ret, n)->Ok_0.1, m, s),
        ({
            let end = crate::sim::attempt_end(env, cpu, ops, None, n, s);
            end is Finished || end is Exited
        }),
    ensures
        ({
            let parts = crate::codegen::assembly(ops, ret)->Ok_0;
            let pc = crate::codegen::code_until(ops, ret, n)->Ok_0.0.len() as int + 2;
            returns_as(
                at,
                crate::sim::attempt_end(env, cpu, ops, None, n, s),
                ret,
                s.words,
                m.mem,
                execute(at, parts.listing(), parts.committed().len() as int, pc, m),
            )
        }),
    decreases ops.len() - n,
{
    let parts = crate::codegen::assembly(ops, ret)->Ok_0;
    let listing = parts.listing();
    let exit = parts.committed().len() as int;
    let (code, a) = crate::codegen::code_until(ops, ret, n)->Ok_0;
    let pc = code.len() as int + 2;
    if n == ops.len() {
        lemma_finish(at, ops, ret, m, s);
    } else {
        let op = ops[n];
        lemma_op_stands(ops, ret, n);
        crate::codegen::lemma_operands_placed(env.decls, ops, ret, n);
        law_registers_are_exclusive(ops, ret, n);
        let (more, b) = crate::codegen::op_code(op, a)->Ok_0;
        assert(crate::ir::regions_respected(env.decls, op));
        assert(can_follow(at, env, cpu, op, a, m, s));
        let k = more.len() as int;
        if op is ExitIf {
            lemma_branch_op(at, env, cpu, op, a, listing, pc, m, s);
            lemma_straight(at, listing, exit, pc, k - 1, m);
            let m2 = after(at, listing, pc, k - 1, m);
            if m2.taken(op->ExitIf_cond) {
                lemma_exit_stub(at, ops, ret, m2);
            } else {
                lemma_released_agrees(at, ops, ret, n, b, m2, s);
                lemma_follow(at, env, cpu, ops, ret, n + 1, m2, s);
            }
        } else {
            lemma_same_shape(env, cpu, op, s);
            lemma_straight_op(at, env, cpu, op, a, listing, pc, m, s);
            lemma_straight(at, listing, exit, pc, k, m);
            let m2 = after(at, listing, pc, k, m);
            let t = crate::sim::step_effect(env, cpu, op, s)->Continue_0;
            lemma_released_agrees(at, ops, ret, n, b, m2, t);
            lemma_follow(at, env, cpu, ops, ret, n + 1, m2, t);
            let f = execute(at, listing, exit, pc, m);
            lemma_elsewhere(at.bases, s.words, t.words, m.mem, m2.mem, f.unwrap().mem);
        }
    }
}

proof fn lemma_elsewhere(
    bases: Seq<u64>,
    words: Words,
    same: Words,
    mem: Map<int, u64>,
    mid: Map<int, u64>,
    new: Map<int, u64>,
)
    requires
        forall|r: int, i: int| #[trigger] has_word(same, r, i) == has_word(words, r, i),
        same_elsewhere(bases, words, mem, mid),
        same_elsewhere(bases, same, mid, new),
    ensures
        same_elsewhere(bases, words, mem, new),
{
    assert forall|p: int|
        #![trigger new[p]]
        (forall|r: int, i: int| #[trigger] has_word(words, r, i) ==> address(bases, r, i) != p)
        implies new[p] == mem[p] by {
        assert(mid[p] == mem[p]);
        assert forall|r: int, i: int| #[trigger] has_word(same, r, i) implies address(bases, r, i)
            != p by {
            assert(has_word(words, r, i));
        }
    }
}

/// The exit stub returns the sentinel.
proof fn lemma_exit_stub(at: Surroundings, ops: Seq<Op>, ret: Option<Operand>, m: Machine)
    requires
        crate::codegen::assembly(ops, ret) is Ok,
        m.pinned(at),
    ensures
        ({
            let parts = crate::codegen::assembly(ops, ret)->Ok_0;
            let exit = parts.committed().len() as int;
            let f = execute(at, parts.listing(), exit, exit, m);
            &&& f is Some
            &&& f.unwrap().regs[RAX as int] == crate::codegen::EXITED
            &&& f.unwrap().mem == m.mem
        }),
{
    let parts = crate::codegen::assembly(ops, ret)->Ok_0;
    let exit = parts.committed().len() as int;
    reveal_with_fuel(execute, 3);
    assert(parts.listing()[exit] == Insn::MinusOneRax);
    assert(parts.listing()[exit + 1] == Insn::Ret);
}

/// The epilogue returns the result.
proof fn lemma_finish(at: Surroundings, ops: Seq<Op>, ret: Option<Operand>, m: Machine, s: State)
    requires
        crate::codegen::assembly(ops, ret) is Ok,
        ret matches Some(o) ==> crate::ir::readable(ops, ops.len() as int, o),
        agrees(at, crate::codegen::code_until(ops, ret, ops.len() as int)->Ok_0.1, m, s),
    ensures
        ({
            let parts = crate::codegen::assembly(ops, ret)->Ok_0;
            let exit = parts.committed().len() as int;
            let f = execute(at, parts.listing(), exit, parts.window.len() as int + 2, m);
            &&& f is Some
            &&& f.unwrap().regs[RAX as int] == returned(ret, s.regs)
            &&& f.unwrap().mem == m.mem
        }),
{
    let parts = crate::codegen::assembly(ops, ret)->Ok_0;
    let listing = parts.listing();
    let pc = parts.window.len() as int + 2;
    let a = crate::codegen::code_until(ops, ret, ops.len() as int)->Ok_0.1;
    crate::codegen::lemma_live_is_placed(ops, ret, ops.len() as int);
    reveal_with_fuel(execute, 3);
    assert(listing[pc] == crate::codegen::result_code(ret, a)[0]);
    assert(listing[pc + 1] == Insn::Ret);
    match ret {
        Some(Operand::Reg(r)) => {
            assert(crate::ir::defined_before(ops, ops.len() as int, r));
            assert(a.regs.dom().contains(r));
        },
        _ => {},
    }
}

/// Compiled code does what the simulator does: called on a CPU with the
/// parameters of a run, and with memory that holds the regions, it returns
/// what one undisturbed attempt of the simulator yields, leaves the regions as
/// that attempt leaves them, and writes nothing else.
///
/// The program has to fit the encoding (displacements in 32 bits, 64-bit
/// words) and no operation may read the register that it itself defines,
/// which programs from the builder never do.
pub proof fn law_compiled_agrees(
    at: Surroundings,
    env: Setting,
    cpu: usize,
    ops: Seq<Op>,
    ret: Option<Operand>,
    words: Words,
    m: Machine,
)
    requires
        compiles_faithfully(env, cpu, ops, ret, at),
        words.len() == env.decls.len(),
        laid_out(at.bases, words),
        m.pinned(at),
        holds_words(at.bases, words, m.mem),
        ({
            let end = crate::sim::attempt_end(env, cpu, ops, None, 0, State::entry(words));
            end is Finished || end is Exited
        }),
    ensures
        ({
            let parts = crate::codegen::assembly(ops, ret)->Ok_0;
            returns_as(
                at,
                crate::sim::attempt_end(env, cpu, ops, None, 0, State::entry(words)),
                ret,
                words,
                m.mem,
                execute(at, parts.listing(), parts.committed().len() as int, 0, m),
            )
        }),
{
    let parts = crate::codegen::assembly(ops, ret)->Ok_0;
    let listing = parts.listing();
    let exit = parts.committed().len() as int;
    crate::codegen::lemma_code_prefix(ops, ret, 0, ops.len() as int);
    reveal_with_fuel(execute, 3);
    assert(listing[0] == Insn::LoadDescriptor);
    assert(listing[1] == Insn::Arm);
    let m2 = m.step(at, Insn::LoadDescriptor).step(at, Insn::Arm);
    assert(execute(at, listing, exit, 0, m) == execute(at, listing, exit, 2, m2));
    lemma_follow(at, env, cpu, ops, ret, 0, m2, State::entry(words));
}

/// The instructions that write to memory.
pub open spec fn is_write(insn: Insn) -> bool {
    insn is StoreIndexed || insn is StoreDisp || insn is Arm
}

/// Only writes change memory.
proof fn lemma_no_write(at: Surroundings, listing: Seq<Insn>, pc: int, n: int, m: Machine)
    requires
        forall|k: int| 0 <= k < n ==> !is_write(#[trigger] listing[pc + k]),
    ensures
        after(at, listing, pc, n, m).mem == m.mem,
    decreases n,
{
    if n > 0 {
        lemma_no_write(at, listing, pc, n - 1, m);
        assert(!is_write(listing[pc + (n - 1)]));
    }
}

proof fn lemma_after_after(
    at: Surroundings,
    listing: Seq<Insn>,
    pc: int,
    n: int,
    k: int,
    m: Machine,
)
    requires
        0 <= n,
        0 <= k,
    ensures
        after(at, listing, pc + n, k, after(at, listing, pc, n, m)) == after(
            at,
            listing,
            pc,
            n + k,
            m,
        ),
    decreases k,
{
    if k > 0 {
        lemma_after_after(at, listing, pc, n, k - 1, m);
    }
}

/// The code of an operation writes only if it is a store, and then with its
/// last instruction.
proof fn lemma_writes_last(op: Op, a: Allocation)
    requires
        crate::codegen::op_code(op, a) is Ok,
    ensures
        ({
            let code = crate::codegen::op_code(op, a)->Ok_0.0;
            &&& forall|k: int| 0 <= k < code.len() - 1 ==> !is_write(#[trigger] code[k])
            &&& op is Commit ==> code.len() > 0 && (code.last() is StoreIndexed
                || code.last() is StoreDisp)
        }),
{
}

/// The window ends with the committing store: the instruction that performs it
/// is the last one before the post-commit offset.
pub proof fn law_commit_ends_window(decls: Seq<RegionDecl>, ops: Seq<Op>, ret: Option<Operand>)
    requires
        crate::ir::well_shaped(decls, ops, ret),
        crate::codegen::assembly(ops, ret) is Ok,
    ensures
        ({
            let parts = crate::codegen::assembly(ops, ret)->Ok_0;
            &&& parts.window.len() > 0
            &&& parts.window.last() is StoreIndexed || parts.window.last() is StoreDisp
            &&& parts.post() == parts.window_offset(parts.window.len() - 1)
                + parts.window.last().size()
        }),
{
    let parts = crate::codegen::assembly(ops, ret)->Ok_0;
    let n = ops.len() - 1;
    lemma_op_stands(ops, ret, n);
    let (code, a) = crate::codegen::code_until(ops, ret, n)->Ok_0;
    lemma_writes_last(ops[n], a);
    let more = crate::codegen::op_code(ops[n], a)->Ok_0.0;
    assert(parts.window =~= code + more);
    assert(parts.window.last() == more.last());
    assert(parts.armed().drop_last() =~= Assembly::entry() + parts.window.take(
        parts.window.len() - 1,
    ));
}

/// No exit jump among the first `n` instructions of the window is taken.
pub open spec fn stays_in_window(
    at: Surroundings,
    listing: Seq<Insn>,
    n: int,
    m: Machine,
) -> bool {
    forall|k: int|
        0 <= k < n ==> ((#[trigger] listing[2 + k]) matches Insn::JumpExit { cond } ==> !after(
            at,
            listing,
            2,
            k,
            m,
        ).taken(cond))
}

/// Memory still shows the published regions as they were.
pub open spec fn published_intact(
    at: Surroundings,
    decls: Seq<RegionDecl>,
    words: Words,
    mem: Map<int, u64>,
) -> bool {
    forall|r: int, i: int| #[trigger]
        has_word(words, r, i) && decls[r].published ==> mem[address(at.bases, r, i)] == words[r][i]
}

/// An attempt from `words` that is to stop at operation `n` or later comes to
/// operation `n` in state `s`.
spec fn on_the_way(
    env: Setting,
    cpu: usize,
    ops: Seq<Op>,
    n: int,
    s: State,
    words: Words,
) -> bool {
    forall|stop: usize|
        n <= stop ==> crate::sim::attempt_end(env, cpu, ops, Some(stop), n, s)
            == #[trigger] crate::sim::attempt_end(
            env,
            cpu,
            ops,
            Some(stop),
            0,
            State::entry(words),
        )
}

proof fn lemma_stops_later(
    env: Setting,
    cpu: usize,
    ops: Seq<Op>,
    n: int,
    s: State,
    words: Words,
)
    requires
        0 <= n < ops.len(),
        on_the_way(env, cpu, ops, n, s, words),
        crate::sim::step_effect(env, cpu, ops[n], s) is Continue,
    ensures
        on_the_way(
            env,
            cpu,
            ops,
            n + 1,
            crate::sim::step_effect(env, cpu, ops[n], s)->Continue_0,
            words,
        ),
{
    let t = crate::sim::step_effect(env, cpu, ops[n], s)->Continue_0;
    assert forall|stop: usize| n + 1 <= stop implies crate::sim::attempt_end(
        env,
        cpu,
        ops,
        Some(stop),
        n + 1,
        t,
    ) == #[trigger] crate::sim::attempt_end(
        env,
        cpu,
        ops,
        Some(stop),
        0,
        State::entry(words),
    ) by {
        assert(crate::sim::attempt_end(env, cpu, ops, Some(stop), n, s)
            == crate::sim::attempt_end(env, cpu, ops, Some(stop), n + 1, t));
    }
}

#[verifier::spinoff_prover]
#[verifier::rlimit(30)]
proof fn lemma_boundary(
    at: Surroundings,
    env: Setting,
    cpu: usize,
    ops: Seq<Op>,
    ret: Option<Operand>,
    words: Words,
    first: Machine,
    n: int,
    s: State,
    boundary: int,
) -> (stop: usize)
    requires
        compiles_faithfully(env, cpu, ops, ret, at),
        0 <= n < ops.len(),
        crate::sim::words_match(env.decls, env.ncpus as int, s.words),
        crate::sim::same_published(env.decls, words, s.words),
        crate::codegen::code_until(ops, ret, n) is Ok,
        ({
            let parts = crate::codegen::assembly(ops, ret)->Ok_0;
            let (code, a) = crate::codegen::code_until(ops, ret, n)->Ok_0;
            let end = crate::sim::attempt_end(env, cpu, ops, None, n, s);
            &&& agrees(at, a, after(at, parts.listing(), 2, code.len() as int, first), s)
            &&& code.len() <= boundary < parts.window.len()
            &&& stays_in_window(at, parts.listing(), boundary, first)
            &&& end is Finished || end is Exited
        }),
        on_the_way(env, cpu, ops, n, s, words),
        ops.len() <= usize::MAX,
    ensures
        ({
            let parts = crate::codegen::assembly(ops, ret)->Ok_0;
            let mem = after(at, parts.listing(), 2, boundary, first).mem;
            let end = crate::sim::attempt_end(
                env,
                cpu,
                ops,
                Some(stop),
                0,
                State::entry(words),
            );
            &&& stop < ops.len()
            &&& published_intact(at, env.decls, words, mem)
            &&& end is Aborted
            &&& holds_words(at.bases, end->Aborted_0, mem)
            &&& laid_out(at.bases, end->Aborted_0)
            &&& crate::sim::same_published(env.decls, words, end->Aborted_0)
            &&& crate::sim::words_match(env.decls, env.ncpus as int, end->Aborted_0)
        }),
    decreases ops.len() - n,
{
    let parts = crate::codegen::assembly(ops, ret)->Ok_0;
    let listing = parts.listing();
    lemma_op_stands(ops, ret, n);
    let (code, a) = crate::codegen::code_until(ops, ret, n)->Ok_0;
    let more = crate::codegen::op_code(ops[n], a)->Ok_0.0;
    let len = code.len() as int;
    let k = more.len() as int;
    let m = after(at, listing, 2, len, first);
    if boundary < len + k {
        lemma_after_after(at, listing, 2, len, boundary - len, first);
        lemma_inside_op(at, env, ops[n], a, listing, len + 2, words, m, s, boundary - len);
        n as usize
    } else {
        lemma_after_after(at, listing, 2, len, k, first);
        if k > 0 {
            lemma_after_after(at, listing, 2, len, k - 1, first);
        }
        assert(ops[n] is ExitIf ==> k > 0);
        if ops[n] is ExitIf {
            assert(listing[2 + (len + k - 1)] == more[k - 1]);
        }
        lemma_advance(at, env, cpu, ops, ret, n, m, s);
        crate::sim::lemma_step_is_pure(env, cpu, ops[n], s);
        lemma_last_code(ops, ret, n);
        let t = crate::sim::step_effect(env, cpu, ops[n], s)->Continue_0;
        lemma_stops_later(env, cpu, ops, n, s, words);
        lemma_boundary(at, env, cpu, ops, ret, words, first, n + 1, t, boundary)
    }
}

/// Before its last instruction, the code of an operation has written nothing.
proof fn lemma_inside_op(
    at: Surroundings,
    env: Setting,
    op: Op,
    a: Allocation,
    listing: Seq<Insn>,
    pc: int,
    words: Words,
    m: Machine,
    s: State,
    j: int,
)
    requires
        crate::codegen::op_code(op, a) is Ok,
        stands_at(listing, pc, crate::codegen::op_code(op, a)->Ok_0.0),
        0 <= j < crate::codegen::op_code(op, a)->Ok_0.0.len(),
        words.len() == env.decls.len(),
        crate::sim::same_published(env.decls, words, s.words),
        holds_words(at.bases, s.words, m.mem),
    ensures
        published_intact(at, env.decls, words, after(at, listing, pc, j, m).mem),
        after(at, listing, pc, j, m).mem == m.mem,
{
    let code = crate::codegen::op_code(op, a)->Ok_0.0;
    lemma_writes_last(op, a);
    assert forall|k: int| 0 <= k < j implies !is_write(#[trigger] listing[pc + k]) by {
        assert(listing[pc + k] == code[k]);
    }
    lemma_no_write(at, listing, pc, j, m);
    assert forall|r: int, i: int| #[trigger]
        has_word(words, r, i) && env.decls[r].published implies m.mem[address(at.bases, r, i)]
        == words[r][i] by {
        assert(words[r] == s.words[r]);
        assert(has_word(s.words, r, i));
    }
}

/// The code of one operation, with no jump taken, carries the machine along
/// with the simulator.
proof fn lemma_advance(
    at: Surroundings,
    env: Setting,
    cpu: usize,
    ops: Seq<Op>,
    ret: Option<Operand>,
    n: int,
    m: Machine,
    s: State,
)
    requires
        compiles_faithfully(env, cpu, ops, ret, at),
        0 <= n < ops.len(),
        s.words.len() == env.decls.len(),
        crate::codegen::code_until(ops, ret, n) is Ok,
        !(crate::sim::step_effect(env, cpu, ops[n], s) is Fail),
        ({
            let parts = crate::codegen::assembly(ops, ret)->Ok_0;
            let (code, a) = crate::codegen::code_until(ops, ret, n)->Ok_0;
            let more = crate::codegen::op_code(ops[n], a)->Ok_0.0;
            let pc = code.len() as int + 2;
            &&& agrees(at, a, m, s)
            &&& ops[n] is ExitIf ==> !after(
                at,
                parts.listing(),
                pc,
                more.len() - 1,
                m,
            ).taken(ops[n]->ExitIf_cond)
        }),
    ensures
        crate::codegen::code_until(ops, ret, n + 1) is Ok,
        ({
            let parts = crate::codegen::assembly(ops, ret)->Ok_0;
            let (code, a) = crate::codegen::code_until(ops, ret, n)->Ok_0;
            let more = crate::codegen::op_code(ops[n], a)->Ok_0.0;
            let pc = code.len() as int + 2;
            let effect = crate::sim::step_effect(env, cpu, ops[n], s);
            &&& effect is Continue
            &&& agrees(
                at,
                crate::codegen::code_until(ops, ret, n + 1)->Ok_0.1,
                after(at, parts.listing(), pc, more.len() as int, m),
                effect->Continue_0,
            )
        }),
{
    let listing = crate::codegen::assembly(ops, ret)->Ok_0.listing();
    let op = ops[n];
    lemma_op_stands(ops, ret, n);
    crate::codegen::lemma_operands_placed(env.decls, ops, ret, n);
    law_registers_are_exclusive(ops, ret, n);
    assert(crate::ir::regions_respected(env.decls, op));
    let (code, a) = crate::codegen::code_until(ops, ret, n)->Ok_0;
    let (more, b) = crate::codegen::op_code(op, a)->Ok_0;
    let pc = code.len() as int + 2;
    assert(can_follow(at, env, cpu, op, a, m, s));
    let m2 = after(at, listing, pc, more.len() as int, m);
    if op is ExitIf {
        lemma_branch_op(at, env, cpu, op, a, listing, pc, m, s);
        assert(listing[pc + more.len() - 1] is JumpExit);
        assert(m2 == after(at, listing, pc, more.len() - 1, m));
        lemma_released_agrees(at, ops, ret, n, b, m2, s);
    } else {
        lemma_straight_op(at, env, cpu, op, a, listing, pc, m, s);
        let t = crate::sim::step_effect(env, cpu, op, s)->Continue_0;
        lemma_released_agrees(at, ops, ret, n, b, m2, t);
    }
}

/// The code of all operations is the window.
proof fn lemma_last_code(ops: Seq<Op>, ret: Option<Operand>, n: int)
    requires
        0 <= n < ops.len(),
        crate::codegen::assembly(ops, ret) is Ok,
        crate::codegen::code_until(ops, ret, n + 1)->Ok_0.0.len() < crate::codegen::assembly(
            ops,
            ret,
        )->Ok_0.window.len(),
    ensures
        n + 1 < ops.len(),
{
}

/// At every instruction boundary inside the window, up to and including the
/// one right before the committing store, the published regions are as they
/// were when the call began: a restart from there leaves no trace that another
/// actor could see.
pub proof fn law_nothing_published_early(
    at: Surroundings,
    env: Setting,
    cpu: usize,
    ops: Seq<Op>,
    ret: Option<Operand>,
    words: Words,
    m: Machine,
    boundary: int,
)
    requires
        compiles_faithfully(env, cpu, ops, ret, at),
        crate::sim::words_match(env.decls, env.ncpus as int, words),
        laid_out(at.bases, words),
        m.pinned(at),
        holds_words(at.bases, words, m.mem),
        ({
            let end = crate::sim::attempt_end(env, cpu, ops, None, 0, State::entry(words));
            end is Finished || end is Exited
        }),
        0 <= boundary < crate::codegen::assembly(ops, ret)->Ok_0.window.len(),
        stays_in_window(at, crate::codegen::assembly(ops, ret)->Ok_0.listing(), boundary, m),
        ops.len() <= usize::MAX,
    ensures
        published_intact(
            at,
            env.decls,
            words,
            after(at, crate::codegen::assembly(ops, ret)->Ok_0.listing(), 2, boundary, m).mem,
        ),
{
    crate::codegen::lemma_code_prefix(ops, ret, 0, ops.len() as int);
    lemma_boundary(at, env, cpu, ops, ret, words, m, 0, State::entry(words), boundary);
}

/// Whatever the registers hold, after the two entry instructions the
/// descriptor is armed. The abort handler goes back to the entry, so this
/// holds of every attempt, not only of the first.
pub proof fn law_every_attempt_is_armed(at: Surroundings, parts: Assembly, m: Machine)
    requires
        m.pinned(at),
    ensures
        after(at, parts.listing(), 0, 2, m).armed == at.descriptor,
        after(at, parts.listing(), 0, 2, m).pinned(at),
        after(at, parts.listing(), 0, 2, m).mem == m.mem,
{
    reveal_with_fuel(after, 3);
    assert(parts.listing()[0] == Insn::LoadDescriptor);
    assert(parts.listing()[1] == Insn::Arm);
}

/// The register that an instruction writes.
pub open spec fn written(insn: Insn) -> Option<u8> {
    match insn {
        Insn::LoadDescriptor => Some(RAX),
        Insn::LoadCpuId { d } => Some(d),
        Insn::MovImm { d, .. } => Some(d),
        Insn::LoadParam { d, .. } => Some(d),
        Insn::LoadBase { .. } => Some(RAX),
        Insn::LoadIndexed { d, .. } => Some(d),
        Insn::LoadDisp { d, .. } => Some(d),
        Insn::Alu { op, d, .. } => if op == Alu::Cmp {
            None
        } else {
            Some(d)
        },
        Insn::Imul { d, .. } => Some(d),
        Insn::Shl { d, .. } => Some(d),
        Insn::Shr { d, .. } => Some(d),
        Insn::ZeroRax => Some(RAX),
        Insn::MinusOneRax => Some(RAX),
        _ => None,
    }
}

/// The instruction writes no register but those of the pool and the scratch
/// registers.
pub open spec fn keeps_pointers(insn: Insn) -> bool {
    written(insn) matches Some(d) ==> crate::codegen::in_pool(d) || d == RAX || d == R11
}

/// No instruction of the window touches the pinned pointers.
pub proof fn law_pointers_are_kept(ops: Seq<Op>, ret: Option<Operand>, n: int)
    requires
        0 <= n <= ops.len(),
        crate::codegen::code_until(ops, ret, n) is Ok,
    ensures
        forall|k: int|
            0 <= k < crate::codegen::code_until(ops, ret, n)->Ok_0.0.len() ==> keeps_pointers(
                #[trigger] crate::codegen::code_until(ops, ret, n)->Ok_0.0[k],
            ),
    decreases n,
{
    if n > 0 {
        law_pointers_are_kept(ops, ret, n - 1);
        law_registers_are_exclusive(ops, ret, n - 1);
        let (code, a) = crate::codegen::code_until(ops, ret, n - 1)->Ok_0;
        let more = crate::codegen::op_code(ops[n - 1], a)->Ok_0.0;
        assert forall|k: int| 0 <= k < more.len() implies keeps_pointers(#[trigger] more[k]) by {
            if ops[n - 1].dst() is Some {
                assert(crate::codegen::in_pool(a.free[0]));
            }
        }
        let all = crate::codegen::code_until(ops, ret, n)->Ok_0.0;
        assert forall|k: int| 0 <= k < all.len() implies keeps_pointers(#[trigger] all[k]) by {
            if k < code.len() {
                assert(all[k] == code[k]);
            } else {
                assert(all[k] == more[k - code.len()]);
            }
        }
    }
}

/// The registers that a call has to leave as they were: rbx, rsp, rbp and r12
/// to r15, which belong to the caller, and rdi, rsi and rdx, which hold the
/// pointers.
pub open spec fn left_alone(r: int) -> bool {
    r == 3 || r == 4 || r == 5 || 12 <= r < 16 || r == 7 || r == 6 || r == 2
}

/// No instruction of compiled code changes a register of the caller or one of
/// the pointers.
pub proof fn law_callers_registers_are_left_alone(
    ops: Seq<Op>,
    ret: Option<Operand>,
    at: Surroundings,
    k: int,
    m: Machine,
    r: int,
)
    requires
        crate::codegen::assembly(ops, ret) is Ok,
        0 <= k < crate::codegen::assembly(ops, ret)->Ok_0.listing().len(),
        m.regs.len() == 16,
        left_alone(r),
    ensures
        ({
            let listing = crate::codegen::assembly(ops, ret)->Ok_0.listing();
            m.step(at, listing[k]).regs[r] == m.regs[r]
        }),
{
    let parts = crate::codegen::assembly(ops, ret)->Ok_0;
    let listing = parts.listing();
    let n = parts.window.len() as int;
    law_pointers_are_kept(ops, ret, ops.len() as int);
    if 2 <= k < 2 + n {
        assert(listing[k] == parts.window[k - 2]);
        assert(keeps_pointers(listing[k]));
    } else if k < 2 {
        assert(listing[k] == Assembly::entry()[k]);
    } else if k < 2 + n + parts.result.len() {
        assert(listing[k] == parts.result[k - 2 - n]);
    }
    assert(written(listing[k]) matches Some(d) ==> d != r);
}

proof fn lemma_after_pinned(at: Surroundings, listing: Seq<Insn>, pc: int, n: int, m: Machine)
    requires
        m.pinned(at),
        forall|k: int| 0 <= k < n ==> keeps_pointers(#[trigger] listing[pc + k]),
    ensures
        after(at, listing, pc, n, m).pinned(at),
    decreases n,
{
    if n > 0 {
        lemma_after_pinned(at, listing, pc, n - 1, m);
        assert(keeps_pointers(listing[pc + (n - 1)]));
    }
}

/// Every retry re-arms with the descriptor. Wherever in the window a call is
/// interrupted, and whatever rax holds there, the abort handler jumps to the
/// entry, and the two instructions between the entry and the window store the
/// address of the descriptor, never a region base, into the rseq area.
pub proof fn law_every_retry_rearms(
    at: Surroundings,
    ops: Seq<Op>,
    ret: Option<Operand>,
    m: Machine,
    boundary: int,
)
    requires
        crate::codegen::assembly(ops, ret) is Ok,
        m.pinned(at),
        0 <= boundary <= crate::codegen::assembly(ops, ret)->Ok_0.window.len(),
        crate::codegen::assembly(ops, ret)->Ok_0.abort() < 0x8000_0000,
    ensures
        ({
            let parts = crate::codegen::assembly(ops, ret)->Ok_0;
            let interrupted = after(at, parts.listing(), 0, boundary + 2, m);
            let retried = after(at, parts.listing(), 0, 2, interrupted);
            &&& parts.bytes()[parts.abort()] == 0xE9
            &&& parts.bytes().subrange(parts.abort() + 1, parts.abort() + 5) == crate::x86::le32(
                crate::x86::displacement(crate::x86::ENTRY_OFF as int, parts.abort() + 5),
            )
            &&& parts.abort() + 5 + signed(
                crate::x86::displacement(crate::x86::ENTRY_OFF as int, parts.abort() + 5),
            ) == crate::x86::ENTRY_OFF
            &&& parts.start() == crate::x86::offset_after(parts.listing().take(2))
            &&& retried.armed == at.descriptor
            &&& retried.pinned(at)
            &&& retried.mem == interrupted.mem
        }),
{
    let parts = crate::codegen::assembly(ops, ret)->Ok_0;
    let listing = parts.listing();
    law_every_attempt_is_armed(at, parts, m);
    lemma_after_after(at, listing, 0, 2, boundary, m);
    law_pointers_are_kept(ops, ret, ops.len() as int);
    assert forall|k: int| 0 <= k < boundary implies keeps_pointers(#[trigger] listing[2 + k]) by {
        assert(listing[2 + k] == parts.window[k]);
    }
    lemma_after_pinned(at, listing, 2, boundary, after(at, listing, 0, 2, m));
    law_every_attempt_is_armed(at, parts, after(at, listing, 0, boundary + 2, m));
    crate::codegen::law_abort_handler(parts);
    assert(listing.take(2) =~= Assembly::entry());
}

/// The same of the bytes of a compiled sequence, mapped at `base`: the
/// descriptor comes first and names the window and the abort handler; the
/// handler, behind the signature, jumps to the entry; and the entry loads the
/// address of that descriptor and stores it into the rseq area, whatever the
/// interrupted attempt left in the registers.
pub proof fn law_mapped_code_rearms(
    seq: CompiledSeq,
    ops: Seq<Op>,
    ret: Option<Operand>,
    base: u64,
    at: Surroundings,
    m: Machine,
    boundary: int,
)
    requires
        crate::codegen::assembly(ops, ret) == Ok::<Assembly, CompileError>(seq.assembly()),
        seq.assembly().abort() < 0x8000_0000,
        base + seq.assembly().bytes().len() <= u64::MAX,
        at.descriptor == base,
        m.pinned(at),
        0 <= boundary <= seq.assembly().window.len(),
    ensures
        ({
            let parts = seq.assembly();
            let image = crate::codegen::mapped_bytes(parts, base as int);
            let entry = crate::x86::ENTRY_OFF as int;
            let abort = parts.abort();
            let back = crate::x86::displacement(entry, abort + 5);
            let interrupted = after(at, parts.listing(), 0, boundary + 2, m);
            let retried = after(at, parts.listing(), 0, 2, interrupted);
            &&& image.take(entry) == crate::codegen::descriptor(parts, base as int)
            &&& image.subrange(abort - 4, abort) == crate::x86::le32(crate::codegen::RSEQ_SIG)
            &&& image[abort] == 0xE9
            &&& image.subrange(abort + 1, abort + 5) == crate::x86::le32(back)
            &&& base + abort + 5 + signed(back) == base + entry
            &&& image.subrange(entry, parts.start()) == Insn::LoadDescriptor.bytes(0)
                + Insn::Arm.bytes(0)
            &&& base + entry + 7 + signed(0xFFFF_FFD9) == base
            &&& retried.armed == base
            &&& retried.pinned(at)
            &&& retried.mem == interrupted.mem
        }),
{
    let parts = seq.assembly();
    let image = crate::codegen::mapped_bytes(parts, base as int);
    let entry = crate::x86::ENTRY_OFF as int;
    let abort = parts.abort();
    let bytes = parts.bytes();
    let listing = parts.listing();
    let jumps = crate::x86::exit_jumps(listing);
    law_every_retry_rearms(at, ops, ret, m, boundary);
    crate::codegen::law_abort_handler(parts);
    crate::codegen::lemma_code_len(parts);
    assert(crate::codegen::descriptor(parts, base as int).len() == 32);
    assert(image.take(entry) =~= crate::codegen::descriptor(parts, base as int));
    assert forall|i: int| entry <= i < bytes.len() implies #[trigger] image[i] == bytes[i] by {}
    assert(image.subrange(abort - 4, abort) =~= bytes.subrange(abort - 4, abort));
    assert(image.subrange(abort + 1, abort + 5) =~= bytes.subrange(abort + 1, abort + 5));
    crate::x86::lemma_encode_prefix(listing, jumps, parts.exit(), 2);
    assert(listing.take(2) =~= Assembly::entry());
    let code = crate::x86::encode(listing, jumps, parts.exit());
    reveal_with_fuel(crate::x86::encode, 3);
    reveal_with_fuel(crate::x86::total_size, 3);
    let two = Assembly::entry();
    assert(two.drop_last() =~= seq![Insn::LoadDescriptor]);
    assert(two.drop_last().drop_last() =~= Seq::<Insn>::empty());
    let head = Insn::LoadDescriptor.bytes(0) + Insn::Arm.bytes(0);
    assert(crate::x86::encode(two, jumps, parts.exit()) =~= head);
    assert(image.subrange(entry, parts.start()) =~= code.take(head.len() as int));
}

/// The kernel restarts a call at an instruction boundary of the window, and
/// lets it go on at the abort handler, on some CPU.
pub struct Restart {
    /// Number of instructions of the window that have run.
    pub boundary: int,
    pub cpu: usize,
}

/// The surroundings after a migration.
pub open spec fn moved(at: Surroundings, cpu: usize) -> Surroundings {
    Surroundings { cpu: cpu as u32, ..at }
}

/// A call that is restarted as listed, from the entry on. The abort handler
/// jumps to the entry; registers are as the interrupted attempt left them.
pub open spec fn restarted(
    at: Surroundings,
    parts: Assembly,
    restarts: Seq<Restart>,
    m: Machine,
) -> Option<Machine>
    decreases restarts.len(),
{
    if restarts.len() == 0 {
        execute(at, parts.listing(), parts.committed().len() as int, 0, m)
    } else {
        restarted(
            moved(at, restarts[0].cpu),
            parts,
            restarts.drop_first(),
            after(at, parts.listing(), 0, restarts[0].boundary + 2, m),
        )
    }
}

/// The restarts can happen: each at a boundary of the window that the attempt
/// gets to, and onto a CPU that exists.
pub open spec fn can_happen(
    at: Surroundings,
    ncpus: usize,
    parts: Assembly,
    restarts: Seq<Restart>,
    m: Machine,
) -> bool
    decreases restarts.len(),
{
    restarts.len() > 0 ==> {
        &&& 0 <= restarts[0].boundary < parts.window.len()
        &&& restarts[0].cpu < ncpus
        &&& stays_in_window(
            at,
            parts.listing(),
            restarts[0].boundary,
            after(at, parts.listing(), 0, 2, m),
        )
        &&& can_happen(
            moved(at, restarts[0].cpu),
            ncpus,
            parts,
            restarts.drop_first(),
            after(at, parts.listing(), 0, restarts[0].boundary + 2, m),
        )
    }
}

/// No attempt fails in the simulator, on any CPU and whatever scratch memory
/// holds.
pub open spec fn never_fails(env: Setting, ops: Seq<Op>, words: Words) -> bool {
    forall|cpu: usize, w: Words|
        cpu < env.ncpus && crate::sim::words_match(env.decls, env.ncpus as int, w)
            && crate::sim::same_published(env.decls, words, w) ==> {
            let end = #[trigger] crate::sim::attempt_end(
                env,
                cpu,
                ops,
                None,
                0,
                State::entry(w),
            );
            end is Finished || end is Exited
        }
}

/// The result of a run as the compiled code returns it.
pub open spec fn sentinel(outcome: crate::sim::Outcome) -> u64 {
    match outcome {
        crate::sim::Outcome::Exited => crate::codegen::EXITED,
        crate::sim::Outcome::Committed { ret: Some(v) } => v,
        crate::sim::Outcome::Committed { ret: None } => 0,
    }
}

/// The plan migrates as the restarts do.
pub open spec fn same_cpus(plan: Seq<crate::sim::AbortPoint>, restarts: Seq<Restart>) -> bool {
    &&& plan.len() == restarts.len()
    &&& forall|k: int|
        0 <= k < plan.len() ==> (#[trigger] plan[k]).new_cpu == restarts[k].cpu
}

/// The call ends as the simulated run does.
pub open spec fn ends_as(
    at: Surroundings,
    run: (Result<crate::sim::RunResult, crate::sim::SimError>, Words),
    f: Option<Machine>,
) -> bool {
    &&& f is Some
    &&& run.0 is Ok
    &&& f.unwrap().regs[RAX as int] == sentinel(run.0->Ok_0.outcome)
    &&& holds_words(at.bases, run.1, f.unwrap().mem)
}

proof fn lemma_restarted(
    at: Surroundings,
    env: Setting,
    cpu: usize,
    ops: Seq<Op>,
    ret: Option<Operand>,
    words: Words,
    restarts: Seq<Restart>,
    m: Machine,
) -> (plan: Seq<crate::sim::AbortPoint>)
    requires
        compiles_faithfully(env, cpu, ops, ret, at),
        ops.len() <= usize::MAX,
        cpu < env.ncpus,
        env.ncpus <= 0x1_0000_0000,
        crate::sim::words_match(env.decls, env.ncpus as int, words),
        laid_out(at.bases, words),
        m.pinned(at),
        holds_words(at.bases, words, m.mem),
        never_fails(env, ops, words),
        can_happen(at, env.ncpus, crate::codegen::assembly(ops, ret)->Ok_0, restarts, m),
    ensures
        same_cpus(plan, restarts),
        ends_as(
            at,
            crate::sim::run_end(env, ops, ret, false, cpu, plan, words),
            restarted(at, crate::codegen::assembly(ops, ret)->Ok_0, restarts, m),
        ),
    decreases restarts.len(),
{
    let parts = crate::codegen::assembly(ops, ret)->Ok_0;
    let listing = parts.listing();
    assert(crate::sim::same_published(env.decls, words, words));
    let whole = crate::sim::attempt_end(env, cpu, ops, None, 0, State::entry(words));
    assert(whole is Finished || whole is Exited);
    if restarts.len() == 0 {
        law_compiled_agrees(at, env, cpu, ops, ret, words, m);
        let plan = Seq::<crate::sim::AbortPoint>::empty();
        assert(crate::sim::next_stop(plan) is None);
        if whole is Finished {
            lemma_result_defined(env, cpu, ops, ret, 0, State::entry(words));
        }
        plan
    } else {
        let boundary = restarts[0].boundary;
        let started = after(at, listing, 0, 2, m);
        law_every_attempt_is_armed(at, parts, m);
        crate::codegen::lemma_code_prefix(ops, ret, 0, ops.len() as int);
        let stop = lemma_boundary(
            at,
            env,
            cpu,
            ops,
            ret,
            words,
            started,
            0,
            State::entry(words),
            boundary,
        );
        let w = crate::sim::attempt_end(
            env,
            cpu,
            ops,
            Some(stop),
            0,
            State::entry(words),
        )->Aborted_0;
        let m2 = after(at, listing, 0, boundary + 2, m);
        lemma_after_after(at, listing, 0, 2, boundary, m);
        law_pointers_are_kept(ops, ret, ops.len() as int);
        assert forall|k: int| 0 <= k < boundary implies keeps_pointers(
            #[trigger] listing[2 + k],
        ) by {
            assert(listing[2 + k] == parts.window[k]);
        }
        lemma_after_pinned(at, listing, 2, boundary, started);
        let next = moved(at, restarts[0].cpu);
        assert(never_fails(env, ops, w)) by {
            assert forall|c: usize, v: Words|
                c < env.ncpus && crate::sim::words_match(env.decls, env.ncpus as int, v)
                    && crate::sim::same_published(env.decls, w, v) implies {
                let end = #[trigger] crate::sim::attempt_end(
                    env,
                    c,
                    ops,
                    None,
                    0,
                    State::entry(v),
                );
                end is Finished || end is Exited
            } by {
                assert(crate::sim::same_published(env.decls, words, v));
            }
        }
        let rest = lemma_restarted(
            next,
            env,
            restarts[0].cpu,
            ops,
            ret,
            w,
            restarts.drop_first(),
            m2,
        );
        let point = crate::sim::AbortPoint { at: stop, new_cpu: restarts[0].cpu };
        let plan = seq![point] + rest;
        assert(plan.drop_first() =~= rest);
        assert(crate::sim::next_stop(plan) == Some(stop));
        assert(crate::sim::run_end(env, ops, ret, false, cpu, plan, words)
            == crate::sim::run_end(env, ops, ret, false, restarts[0].cpu, rest, w));
        assert forall|k: int| 0 <= k < plan.len() implies (#[trigger] plan[k]).new_cpu
            == restarts[k].cpu by {
            if k > 0 {
                assert(plan[k] == rest[k - 1]);
                assert(restarts.drop_first()[k - 1] == restarts[k]);
            }
        }
        plan
    }
}

/// The result of a valid program is defined once it has run to the end.
proof fn lemma_result_defined(
    env: Setting,
    cpu: usize,
    ops: Seq<Op>,
    ret: Option<Operand>,
    n: int,
    s: State,
)
    requires
        0 <= n <= ops.len(),
        ret matches Some(o) ==> crate::ir::readable(ops, ops.len() as int, o),
        forall|r: Reg| #[trigger]
            crate::ir::defined_before(ops, n, r) ==> s.regs.dom().contains(r),
        crate::sim::attempt_end(env, cpu, ops, None, n, s) is Finished,
    ensures
        ret matches Some(o) ==> crate::sim::operand_value(
            crate::sim::attempt_end(env, cpu, ops, None, n, s)->Finished_0.regs,
            o,
        ) is Ok,
    decreases ops.len() - n,
{
    if n < ops.len() {
        let t = crate::sim::step_effect(env, cpu, ops[n], s)->Continue_0;
        assert forall|r: Reg| #[trigger] crate::ir::defined_before(
            ops,
            n + 1,
            r,
        ) implies t.regs.dom().contains(r) by {
            let i = choose|i: int| 0 <= i < n + 1 && #[trigger] ops[i].dst() == Some(r);
            if i < n {
                assert(crate::ir::defined_before(ops, n, r));
            }
        }
        lemma_result_defined(env, cpu, ops, ret, n + 1, t);
    }
}

/// Restarts of compiled code are restarts of the simulator: however often the
/// kernel restarts a call, at whatever instruction boundaries of the window
/// and onto whatever CPUs, there is an abort plan that migrates the same way
/// and whose simulated run ends with the same result and the same memory.
pub proof fn law_restarts_are_simulated(
    at: Surroundings,
    env: Setting,
    cpu: usize,
    ops: Seq<Op>,
    ret: Option<Operand>,
    words: Words,
    restarts: Seq<Restart>,
    m: Machine,
)
    requires
        compiles_faithfully(env, cpu, ops, ret, at),
        ops.len() <= usize::MAX,
        cpu < env.ncpus,
        env.ncpus <= 0x1_0000_0000,
        crate::sim::words_match(env.decls, env.ncpus as int, words),
        laid_out(at.bases, words),
        m.pinned(at),
        holds_words(at.bases, words, m.mem),
        never_fails(env, ops, words),
        can_happen(at, env.ncpus, crate::codegen::assembly(ops, ret)->Ok_0, restarts, m),
    ensures
        exists|plan: Seq<crate::sim::AbortPoint>|
            #![trigger same_cpus(plan, restarts)]
            same_cpus(plan, restarts) && ends_as(
                at,
                crate::sim::run_end(env, ops, ret, false, cpu, plan, words),
                restarted(at, crate::codegen::assembly(ops, ret)->Ok_0, restarts, m),
            ),
{
    let plan = lemma_restarted(at, env, cpu, ops, ret, words, restarts, m);
    assert(same_cpus(plan, restarts));
}

/// The same of a compiled sequence on a set of regions: a call of it returns
/// what a simulated run on the same regions does, and leaves in them what that
/// run leaves.
pub proof fn law_calls_are_simulated(
    rs: RegionSet,
    seq: CompiledSeq,
    ops: Seq<Op>,
    ret: Option<Operand>,
    at: Surroundings,
    cpu: usize,
    restarts: Seq<Restart>,
    m: Machine,
)
    requires
        crate::codegen::assembly(ops, ret) == Ok::<Assembly, CompileError>(seq.assembly()),
        rs.wf(),
        ops.len() <= usize::MAX,
        cpu < MAX_CPUS,
        laid_out(at.bases, rs@),
        m.pinned(at),
        holds_words(at.bases, rs@, m.mem),
        compiles_faithfully(call_setting(rs, at, cpu), cpu, ops, ret, at),
        never_fails(call_setting(rs, at, cpu), ops, rs@),
        can_happen(at, MAX_CPUS, seq.assembly(), restarts, m),
    ensures
        exists|plan: Seq<crate::sim::AbortPoint>|
            #![trigger same_cpus(plan, restarts)]
            same_cpus(plan, restarts) && ends_as(
                at,
                crate::sim::whole_run(
                    call_setting(rs, at, cpu),
                    ops,
                    ret,
                    false,
                    plan,
                    rs@,
                ),
                restarted(at, seq.assembly(), restarts, m),
            ),
{
    law_restarts_are_simulated(
        at,
        call_setting(rs, at, cpu),
        cpu,
        ops,
        ret,
        rs@,
        restarts,
        m,
    );
}

/// The surroundings of a call that begins on `cpu`, as the simulator has them.
pub open spec fn call_setting(rs: RegionSet, at: Surroundings, cpu: usize) -> Setting {
    Setting { decls: rs.decls(), ncpus: MAX_CPUS, params: at.params, start_cpu: cpu }
}

/// The call returned, and left the regions, as a clean simulated run on CPU
/// `c` does, but for scratch.
pub open spec fn ends_as_clean_run(
    at: Surroundings,
    env: Setting,
    ops: Seq<Op>,
    ret: Option<Operand>,
    words: Words,
    f: Option<Machine>,
    c: usize,
) -> bool {
    let clean = crate::sim::whole_run(
        Setting { start_cpu: c, ..env },
        ops,
        ret,
        false,
        seq![],
        words,
    );
    &&& c < env.ncpus
    &&& f is Some
    &&& clean.0 is Ok
    &&& f.unwrap().regs[RAX as int] == sentinel(clean.0->Ok_0.outcome)
    &&& exists|w: Words| #[trigger]
        crate::laws::agree_but_scratch(ops, w, clean.1) && holds_words(
            at.bases,
            w,
            f.unwrap().mem,
        )
}

/// Restart equivalence of compiled code: however often the kernel restarts a
/// call of a program that forgets its attempts, it ends as an undisturbed run
/// on one of the CPUs would have.
pub proof fn law_compiled_restarts_converge(
    at: Surroundings,
    env: Setting,
    ops: Seq<Op>,
    ret: Option<Operand>,
    words: Words,
    restarts: Seq<Restart>,
    m: Machine,
)
    requires
        compiles_faithfully(env, env.start_cpu, ops, ret, at),
        crate::laws::forgets_attempts(ops),
        ops.len() <= usize::MAX,
        env.start_cpu < env.ncpus,
        env.ncpus <= 0x1_0000_0000,
        crate::sim::words_match(env.decls, env.ncpus as int, words),
        laid_out(at.bases, words),
        m.pinned(at),
        holds_words(at.bases, words, m.mem),
        never_fails(env, ops, words),
        can_happen(at, env.ncpus, crate::codegen::assembly(ops, ret)->Ok_0, restarts, m),
    ensures
        exists|c: usize| #[trigger]
            ends_as_clean_run(
                at,
                env,
                ops,
                ret,
                words,
                restarted(at, crate::codegen::assembly(ops, ret)->Ok_0, restarts, m),
                c,
            ),
{
    let f = restarted(at, crate::codegen::assembly(ops, ret)->Ok_0, restarts, m);
    lemma_restart_cpus(at, env.ncpus, crate::codegen::assembly(ops, ret)->Ok_0, restarts, m);
    let plan = lemma_restarted(at, env, env.start_cpu, ops, ret, words, restarts, m);
    assert(crate::laws::plan_in_range(plan, env.ncpus)) by {
        assert forall|i: int| 0 <= i < plan.len() implies (#[trigger] plan[i]).new_cpu
            < env.ncpus by {
            assert(restarts[i].cpu < env.ncpus);
        }
    }
    crate::laws::lemma_planned_in_range(env, ops, ret, false, env.start_cpu, plan, words);
    crate::laws::law_restarts_converge(env, ops, ret, plan, words);
    let run = crate::sim::whole_run(env, ops, ret, false, plan, words);
    assert(run == crate::sim::run_end(env, ops, ret, false, env.start_cpu, plan, words));
    let c = choose|c: usize| #[trigger]
        crate::laws::ends_as_clean(env, ops, ret, words, run, c);
    let clean = crate::sim::whole_run(
        Setting { start_cpu: c, ..env },
        ops,
        ret,
        false,
        seq![],
        words,
    );
    assert(crate::laws::agree_but_scratch(ops, run.1, clean.1));
    assert(ends_as_clean_run(at, env, ops, ret, words, f, c));
}

proof fn lemma_restart_cpus(
    at: Surroundings,
    ncpus: usize,
    parts: Assembly,
    restarts: Seq<Restart>,
    m: Machine,
)
    requires
        can_happen(at, ncpus, parts, restarts, m),
    ensures
        forall|k: int| 0 <= k < restarts.len() ==> (#[trigger] restarts[k]).cpu < ncpus,
    decreases restarts.len(),
{
    if restarts.len() > 0 {
        let m2 = after(at, parts.listing(), 0, restarts[0].boundary + 2, m);
        lemma_restart_cpus(moved(at, restarts[0].cpu), ncpus, parts, restarts.drop_first(), m2);
        assert forall|k: int| 0 <= k < restarts.len() implies (#[trigger] restarts[k]).cpu
            < ncpus by {
            if k > 0 {
                assert(restarts.drop_first()[k - 1] == restarts[k]);
            }
        }
    }
}

} // verus!
