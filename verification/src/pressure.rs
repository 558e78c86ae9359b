//! Which programs fit the register pool.

use vstd::prelude::*;

use crate::codegen::{Allocation, CompileError};
use crate::ir::{BinOp, Op, Operand, Reg};

verus! {

/// No register is defined twice, as the builder guarantees.
pub open spec fn defined_once(ops: Seq<Op>) -> bool {
    forall|i: int, j: int|
        #![trigger ops[i].dst(), ops[j].dst()]
        0 <= i < j < ops.len() && ops[i].dst() is Some ==> ops[i].dst() != ops[j].dst()
}

/// The registers that are defined before operation `n` and still read by it
/// or later.
pub open spec fn live_regs(ops: Seq<Op>, ret: Option<Operand>, n: int) -> Set<Reg> {
    Set::new(
        |r: Reg|
            crate::ir::defined_before(ops, n, r) && !crate::codegen::dead_after(ops, ret, n - 1, r),
    )
}

/// The operation has an encoding: it is not the model-only one, and shifts by
/// an immediate if it shifts.
pub open spec fn encodes(op: Op) -> bool {
    match op {
        Op::CpuIdHoisted { .. } => false,
        Op::Bin { op, rhs, .. } => crate::codegen::is_shift(op) ==> rhs is Imm,
        _ => true,
    }
}

proof fn lemma_released_count(ops: Seq<Op>, ret: Option<Operand>, at: int, a: Allocation, v: int)
    requires
        0 <= v <= usize::MAX + 1,
        a.regs.dom().finite(),
    ensures
        ({
            let b = crate::codegen::released(ops, ret, at, a, v);
            &&& b.regs.dom().finite()
            &&& b.regs.dom().len() + b.free.len() == a.regs.dom().len() + a.free.len()
        }),
    decreases v,
{
    if v > 0 {
        lemma_released_count(ops, ret, at, a, v - 1);
        let b = crate::codegen::released(ops, ret, at, a, v - 1);
        let r = (v - 1) as usize;
        assert(b.regs.remove(r).dom() =~= b.regs.dom().remove(r));
    }
}

/// What is allocated is exactly what is live, and the rest of the pool is
/// free.
pub proof fn law_live_is_allocated(ops: Seq<Op>, ret: Option<Operand>, n: int)
    requires
        0 <= n <= ops.len(),
        defined_once(ops),
        crate::codegen::code_until(ops, ret, n) is Ok,
    ensures
        ({
            let a = crate::codegen::code_until(ops, ret, n)->Ok_0.1;
            &&& a.regs.dom() == live_regs(ops, ret, n)
            &&& a.regs.dom().finite()
            &&& a.regs.dom().len() + a.free.len() == 4
        }),
    decreases n,
{
    let after = crate::codegen::code_until(ops, ret, n)->Ok_0.1;
    if n > 0 {
        law_live_is_allocated(ops, ret, n - 1);
        let a = crate::codegen::code_until(ops, ret, n - 1)->Ok_0.1;
        let op = ops[n - 1];
        let b = crate::codegen::op_code(op, a)->Ok_0.1;
        if op.dst() is Some {
            let dst = op.dst().unwrap();
            assert(!a.regs.dom().contains(dst)) by {
                if crate::ir::defined_before(ops, n - 1, dst) {
                    let i = choose|i: int|
                        0 <= i < n - 1 && #[trigger] ops[i].dst() == Some(dst);
                    assert(ops[i].dst() != ops[n - 1].dst());
                }
            }
            assert(b.regs.dom() =~= a.regs.dom().insert(dst));
        } else {
            assert(b == a);
        }
        crate::codegen::lemma_released_dom(ops, ret, n - 1, b, usize::MAX + 1);
        lemma_released_count(ops, ret, n - 1, b, usize::MAX + 1);
        assert forall|r: Reg| after.regs.dom().contains(r) <==> live_regs(ops, ret, n).contains(
            r,
        ) by {
            assert(crate::ir::defined_before(ops, n, r) <==> crate::ir::defined_before(
                ops,
                n - 1,
                r,
            ) || op.dst() == Some(r)) by {
                if crate::ir::defined_before(ops, n, r) {
                    let i = choose|i: int| 0 <= i < n && #[trigger] ops[i].dst() == Some(r);
                    if i < n - 1 {
                        assert(crate::ir::defined_before(ops, n - 1, r));
                    }
                }
                if op.dst() == Some(r) {
                    assert(ops[n - 1].dst() == Some(r));
                }
            }
            if !crate::codegen::dead_after(ops, ret, n - 1, r) {
                assert(!crate::codegen::dead_after(ops, ret, n - 2, r));
            }
        }
        assert(after.regs.dom() =~= live_regs(ops, ret, n));
    } else {
        assert(after.regs.dom() =~= live_regs(ops, ret, n));
        assert(after.regs.dom() =~= Set::empty());
    }
}

/// A program whose registers are each defined once compiles if and only if
/// every operation has an encoding and no register is defined while as many
/// as the pool holds are live.
pub proof fn law_compiles_if_it_fits(ops: Seq<Op>, ret: Option<Operand>)
    requires
        defined_once(ops),
    ensures
        crate::codegen::assembly(ops, ret) is Ok <==> forall|n: int|
            0 <= n < ops.len() ==> encodes(#[trigger] ops[n]) && (ops[n].dst() is Some
                ==> live_regs(ops, ret, n).len() < 4),
{
    lemma_fits_until(ops, ret, ops.len() as int);
}

proof fn lemma_fits_until(ops: Seq<Op>, ret: Option<Operand>, n: int)
    requires
        defined_once(ops),
        0 <= n <= ops.len(),
    ensures
        crate::codegen::code_until(ops, ret, n) is Ok <==> forall|k: int|
            0 <= k < n ==> encodes(#[trigger] ops[k]) && (ops[k].dst() is Some
                ==> live_regs(ops, ret, k).len() < 4),
    decreases n,
{
    if n > 0 {
        lemma_fits_until(ops, ret, n - 1);
        if crate::codegen::code_until(ops, ret, n - 1) is Ok {
            law_live_is_allocated(ops, ret, n - 1);
            let a = crate::codegen::code_until(ops, ret, n - 1)->Ok_0.1;
            assert(crate::codegen::op_code(ops[n - 1], a) is Ok <==> encodes(ops[n - 1]) && (
            ops[n - 1].dst() is Some ==> live_regs(ops, ret, n - 1).len() < 4));
        } else {
            let k = choose|k: int|
                0 <= k < n - 1 && !(encodes(#[trigger] ops[k]) && (ops[k].dst() is Some
                    ==> live_regs(ops, ret, k).len() < 4));
            assert(!(encodes(ops[k]) && (ops[k].dst() is Some ==> live_regs(ops, ret, k).len()
                < 4)));
        }
    }
}

/// Registers below `k` are fewer than the pool holds if `k` is.
pub proof fn lemma_few_live(ops: Seq<Op>, ret: Option<Operand>, n: int, k: nat)
    requires
        forall|r: Reg| live_regs(ops, ret, n).contains(r) ==> r < k,
    ensures
        live_regs(ops, ret, n).len() <= k,
        live_regs(ops, ret, n).finite(),
{
    let below = Set::<Reg>::new(|r: Reg| r < k);
    lemma_below(k);
    assert(live_regs(ops, ret, n).subset_of(below));
    vstd::set_lib::lemma_len_subset(live_regs(ops, ret, n), below);
}

proof fn lemma_below(k: nat)
    ensures
        Set::<Reg>::new(|r: Reg| r < k).finite(),
        Set::<Reg>::new(|r: Reg| r < k).len() <= k,
    decreases k,
{
    let all = Set::<Reg>::new(|r: Reg| r < k);
    if k == 0 {
        assert(all =~= Set::empty());
    } else {
        lemma_below((k - 1) as nat);
        let fewer = Set::<Reg>::new(|r: Reg| r < k - 1);
        if k - 1 <= usize::MAX {
            assert(all =~= fewer.insert((k - 1) as usize));
        } else {
            assert(all =~= fewer);
        }
    }
}

/// What an error of the compiler says of operation `n`.
pub open spec fn stopped_at(e: CompileError, ops: Seq<Op>, ret: Option<Operand>, n: int) -> bool {
    match e {
        CompileError::HoistedCpuId => ops[n] is CpuIdHoisted,
        CompileError::ShiftByRegister => ops[n] matches Op::Bin { op, rhs, .. } && (op == BinOp::Shl
            || op == BinOp::Shr) && rhs is Reg,
        CompileError::OutOfRegisters => live_regs(ops, ret, n).len() == 4 && (ops[n] is CpuId
            || ops[n] is Const || ops[n] is Param || ops[n] is Load || ops[n] is Bin),
        _ => false,
    }
}

/// What the compiler refuses, it refuses for the first operation that it has
/// no code for, and it says why: a CPU id that is not read afresh, a shift by a
/// register, or a register too many.
pub proof fn law_compile_errors_are_true(ops: Seq<Op>, ret: Option<Operand>) -> (n: int)
    requires
        defined_once(ops),
        crate::codegen::assembly(ops, ret) is Err,
    ensures
        0 <= n < ops.len(),
        stopped_at(crate::codegen::assembly(ops, ret)->Err_0, ops, ret, n),
        crate::codegen::code_until(ops, ret, n) is Ok,
{
    lemma_stopped(ops, ret, ops.len() as int)
}

proof fn lemma_stopped(ops: Seq<Op>, ret: Option<Operand>, m: int) -> (n: int)
    requires
        0 <= m <= ops.len(),
        defined_once(ops),
        crate::codegen::code_until(ops, ret, m) is Err,
    ensures
        0 <= n < m,
        stopped_at(crate::codegen::code_until(ops, ret, m)->Err_0, ops, ret, n),
        crate::codegen::code_until(ops, ret, n) is Ok,
    decreases m,
{
    if crate::codegen::code_until(ops, ret, m - 1) is Err {
        lemma_stopped(ops, ret, m - 1)
    } else {
        law_live_is_allocated(ops, ret, m - 1);
        m - 1
    }
}

/// A call has to pass as many parameters as the program can read, and no more.
pub proof fn law_params_are_those_read(ops: Seq<Op>, n: int)
    requires
        0 <= n <= ops.len(),
    ensures
        forall|i: int|
            0 <= i < n ==> (#[trigger] ops[i] matches Op::Param { index, .. } ==> index
                < crate::codegen::params_needed(ops, n)),
        crate::codegen::params_needed(ops, n) == 0 || exists|i: int|
            0 <= i < n && (#[trigger] ops[i] matches Op::Param { index, .. } && index + 1
                == crate::codegen::params_needed(ops, n)),
    decreases n,
{
    if n > 0 {
        law_params_are_those_read(ops, n - 1);
        let before = crate::codegen::params_needed(ops, n - 1);
        if crate::codegen::params_needed(ops, n) == before && before != 0 {
            let i = choose|i: int|
                0 <= i < n - 1 && (#[trigger] ops[i] matches Op::Param { index, .. } && index + 1
                    == before);
            assert(ops[i] is Param);
        } else if let Op::Param { index, .. } = ops[n - 1] {
            assert(index + 1 == crate::codegen::params_needed(ops, n));
        }
    }
}

} // verus!
