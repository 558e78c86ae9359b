//! What the validator and the simulator answer, said of the operations
//! themselves: what each refusal and each failure stands for, and how a run
//! with aborts is made of runs without.

use vstd::prelude::*;

use crate::ir::{BinOp, Cond, Op, Operand, Reg, RegionDecl, RegionId, ValidateError};
use crate::sim::{
    AbortPoint, AttemptEnd, Effect, Outcome, RunResult, Setting, SimError, State, Words,
};

verus! {

/// The operation reads register `r`.
pub open spec fn reads(op: Op, r: Reg) -> bool {
    match op {
        Op::Load { addr, .. } => addr.index == Operand::Reg(r),
        Op::Bin { lhs, rhs, .. } => lhs == Operand::Reg(r) || rhs == Operand::Reg(r),
        Op::ExitIf { lhs, rhs, .. } => lhs == Operand::Reg(r) || rhs == Operand::Reg(r),
        Op::StoreScratch { addr, src } => addr.index == Operand::Reg(r) || src == Operand::Reg(r),
        Op::Commit { addr, src } => addr.index == Operand::Reg(r) || src == Operand::Reg(r),
        _ => false,
    }
}

/// The operation writes register `r`.
pub open spec fn writes(op: Op, r: Reg) -> bool {
    match op {
        Op::CpuId { dst } => dst == r,
        Op::CpuIdHoisted { dst } => dst == r,
        Op::Const { dst, .. } => dst == r,
        Op::Param { dst, .. } => dst == r,
        Op::Load { dst, .. } => dst == r,
        Op::Bin { dst, .. } => dst == r,
        _ => false,
    }
}

/// The operation names region `g`.
pub open spec fn names(op: Op, g: RegionId) -> bool {
    match op {
        Op::Load { addr, .. } => addr.region == g,
        Op::StoreScratch { addr, .. } => addr.region == g,
        Op::Commit { addr, .. } => addr.region == g,
        _ => false,
    }
}

/// None of the first `at` operations writes register `r`.
pub open spec fn unwritten(ops: Seq<Op>, at: int, r: Reg) -> bool {
    forall|i: int| 0 <= i < at ==> !writes(#[trigger] ops[i], r)
}

/// The operation reads register `r` before anything else.
pub open spec fn reads_first(op: Op, r: Reg) -> bool {
    match op {
        Op::Load { addr, .. } => addr.index == Operand::Reg(r),
        Op::Bin { lhs, .. } => lhs == Operand::Reg(r),
        Op::ExitIf { lhs, .. } => lhs == Operand::Reg(r),
        Op::StoreScratch { addr, .. } => addr.index == Operand::Reg(r),
        Op::Commit { addr, .. } => addr.index == Operand::Reg(r),
        _ => false,
    }
}

/// Operation `i` is not a commit that something follows.
pub open spec fn in_place(ops: Seq<Op>, i: int) -> bool {
    ops[i] is Commit ==> i == ops.len() - 1
}

/// The region that the operation names is declared, and of the kind that the
/// operation may write, if it writes.
pub open spec fn regions_fit(decls: Seq<RegionDecl>, op: Op) -> bool {
    forall|g: RegionId| #[trigger]
        names(op, g) ==> {
            &&& g.0 < decls.len()
            &&& op is StoreScratch ==> !decls[g.0 as int].published
            &&& op is Commit ==> decls[g.0 as int].published
        }
}

/// Operation `i` keeps every rule.
pub open spec fn keeps_rules(decls: Seq<RegionDecl>, ops: Seq<Op>, i: int) -> bool {
    &&& in_place(ops, i)
    &&& regions_fit(decls, ops[i])
    &&& forall|r: Reg| #[trigger] reads(ops[i], r) ==> !unwritten(ops, i, r)
}

proof fn lemma_words_of_an_op(op: Op, r: Reg, g: RegionId)
    ensures
        reads(op, r) <==> op.uses().contains(Operand::Reg(r)),
        writes(op, r) <==> op.dst() == Some(r),
        names(op, g) <==> op.region() == Some(g),
{
    let uses = op.uses();
    match op {
        Op::Load { addr, .. } => {
            assert(uses[0] == addr.index);
        },
        Op::Bin { lhs, rhs, .. } => {
            assert(uses[0] == lhs && uses[1] == rhs);
        },
        Op::ExitIf { lhs, rhs, .. } => {
            assert(uses[0] == lhs && uses[1] == rhs);
        },
        Op::StoreScratch { addr, src } => {
            assert(uses[0] == addr.index && uses[1] == src);
        },
        Op::Commit { addr, src } => {
            assert(uses[0] == addr.index && uses[1] == src);
        },
        _ => {},
    }
}

proof fn lemma_defined(ops: Seq<Op>, at: int, r: Reg)
    ensures
        crate::ir::defined_before(ops, at, r) <==> !unwritten(ops, at, r),
{
    assert forall|i: int| writes(#[trigger] ops[i], r) <==> ops[i].dst() == Some(r) by {
        lemma_words_of_an_op(ops[i], r, RegionId(0));
    }
    if crate::ir::defined_before(ops, at, r) {
        let i = choose|i: int| 0 <= i < at && #[trigger] ops[i].dst() == Some(r);
        assert(writes(ops[i], r));
    }
    if !unwritten(ops, at, r) {
        let i = choose|i: int| 0 <= i < at && writes(#[trigger] ops[i], r);
        assert(ops[i].dst() == Some(r));
    }
}

proof fn lemma_unreadable(ops: Seq<Op>, at: int, uses: Seq<Operand>)
    ensures
        match crate::ir::unreadable_use(ops, at, uses) {
            Some(r) => uses.contains(Operand::Reg(r)) && unwritten(ops, at, r),
            None => forall|r: Reg| #[trigger]
                uses.contains(Operand::Reg(r)) ==> !unwritten(ops, at, r),
        },
    decreases uses.len(),
{
    if uses.len() > 0 {
        let rest = uses.drop_first();
        lemma_unreadable(ops, at, rest);
        assert forall|o: Operand| #[trigger]
            uses.contains(o) <==> o == uses[0] || rest.contains(o) by {
            if uses.contains(o) {
                let k = choose|k: int| 0 <= k < uses.len() && uses[k] == o;
                if k > 0 {
                    assert(rest[k - 1] == o);
                }
            }
            if rest.contains(o) {
                let k = choose|k: int| 0 <= k < rest.len() && rest[k] == o;
                assert(uses[k + 1] == o);
            }
        }
        if let Operand::Reg(r) = uses[0] {
            lemma_defined(ops, at, r);
        }
    }
}

proof fn lemma_rules(decls: Seq<RegionDecl>, ops: Seq<Op>, i: int)
    requires
        0 <= i < ops.len(),
    ensures
        keeps_rules(decls, ops, i) <==> crate::ir::op_violation(decls, ops, i) is None,
{
    let op = ops[i];
    assert forall|r: Reg, g: RegionId|
        (#[trigger] reads(op, r) <==> op.uses().contains(Operand::Reg(r))) && (#[trigger] names(
            op,
            g,
        ) <==> op.region() == Some(g)) by {
        lemma_words_of_an_op(op, r, g);
    }
    lemma_unreadable(ops, i, op.uses());
    if let Some(g) = op.region() {
        lemma_words_of_an_op(op, 0, g);
        assert(names(op, g));
    }
    if let Some(r) = crate::ir::unreadable_use(ops, i, op.uses()) {
        lemma_words_of_an_op(op, r, RegionId(0));
        assert(reads(op, r));
    }
    assert forall|r: Reg| crate::ir::unreadable_use(ops, i, op.uses()) is None && #[trigger] reads(
        op,
        r,
    ) implies !unwritten(ops, i, r) by {
        lemma_words_of_an_op(op, r, RegionId(0));
        assert(op.uses().contains(Operand::Reg(r)));
    }
    assert forall|g: RegionId| #[trigger] names(op, g) implies op.region() == Some(g) by {
        lemma_words_of_an_op(op, 0, g);
    }
}

proof fn lemma_first(decls: Seq<RegionDecl>, ops: Seq<Op>, from: int) -> (at: int)
    requires
        0 <= from <= ops.len(),
    ensures
        match crate::ir::first_violation(decls, ops, from) {
            Some(e) => from <= at < ops.len() && crate::ir::op_violation(decls, ops, at) == Some(e),
            None => at == ops.len(),
        },
        forall|i: int| from <= i < at ==> #[trigger] keeps_rules(decls, ops, i),
    decreases ops.len() - from,
{
    if from == ops.len() {
        from
    } else {
        lemma_rules(decls, ops, from);
        if crate::ir::op_violation(decls, ops, from) is Some {
            from
        } else {
            lemma_first(decls, ops, from + 1)
        }
    }
}

/// What a refusal says of the program.
pub open spec fn true_of(
    e: ValidateError,
    decls: Seq<RegionDecl>,
    ops: Seq<Op>,
    ret: Option<Operand>,
) -> bool {
    match e {
        ValidateError::Empty => ops.len() == 0,
        ValidateError::CommitNotLast { at } => at < ops.len() - 1 && ops[at as int] is Commit,
        ValidateError::MissingCommit => forall|i: int|
            0 <= i < ops.len() ==> !(#[trigger] ops[i] is Commit),
        ValidateError::UnknownRegion { at, region } => at < ops.len() && in_place(ops, at as int)
            && names(ops[at as int], region) && region.0 >= decls.len(),
        ValidateError::ScratchStoreToPublished { at, region } => at < ops.len() && ops[at as int]
            is StoreScratch && names(ops[at as int], region) && region.0 < decls.len()
            && decls[region.0 as int].published,
        ValidateError::CommitToScratch { region } => ops.len() > 0 && ops.last() is Commit && names(
            ops.last(),
            region,
        ) && region.0 < decls.len() && !decls[region.0 as int].published,
        ValidateError::UseBeforeDef { at, reg } => at < ops.len() && in_place(ops, at as int)
            && regions_fit(decls, ops[at as int]) && reads(ops[at as int], reg) && unwritten(
            ops,
            at as int,
            reg,
        ) && forall|r: Reg|
            reads_first(ops[at as int], r) && #[trigger] unwritten(ops, at as int, r) ==> r == reg,
        ValidateError::RetUndefined { reg } => ops.len() > 0 && ops.last() is Commit && ret == Some(
            Operand::Reg(reg),
        ) && unwritten(ops, ops.len() as int, reg),
    }
}

/// Where in the program a refusal points: behind it stand those about the
/// program as a whole.
pub open spec fn points_to(e: ValidateError, ops: Seq<Op>) -> int {
    match e {
        ValidateError::Empty => 0,
        ValidateError::CommitNotLast { at } => at as int,
        ValidateError::UnknownRegion { at, .. } => at as int,
        ValidateError::ScratchStoreToPublished { at, .. } => at as int,
        ValidateError::CommitToScratch { .. } => ops.len() - 1,
        ValidateError::UseBeforeDef { at, .. } => at as int,
        ValidateError::MissingCommit => ops.len() as int,
        ValidateError::RetUndefined { .. } => ops.len() as int,
    }
}

/// A refusal is true of the program, and it is the first: every operation
/// before the one that it points to keeps the rules, and of one operation the
/// place is looked at before the region, and that before the operands, in the
/// order in which they are read. A program in which every
/// operation keeps them, that ends with its commit and returns something that
/// was written, is not refused.
pub proof fn law_refusals_are_true_and_first(
    decls: Seq<RegionDecl>,
    ops: Seq<Op>,
    ret: Option<Operand>,
)
    requires
        ops.len() <= usize::MAX,
    ensures
        match crate::ir::verdict(decls, ops, ret) {
            Err(e) => true_of(e, decls, ops, ret) && forall|i: int|
                0 <= i < points_to(e, ops) ==> #[trigger] keeps_rules(decls, ops, i),
            Ok(_) => ops.len() > 0 && ops.last() is Commit && (forall|i: int|
                0 <= i < ops.len() ==> #[trigger] keeps_rules(decls, ops, i)) && forall|r: Reg|
                ret == Some(Operand::Reg(r)) ==> !#[trigger] unwritten(ops, ops.len() as int, r),
        },
{
    if ops.len() > 0 {
        let at = lemma_first(decls, ops, 0);
        if at < ops.len() {
            let op = ops[at];
            lemma_unreadable(ops, at, op.uses());
            if let Some(r) = crate::ir::unreadable_use(ops, at, op.uses()) {
                lemma_words_of_an_op(op, r, RegionId(0));
            }
            if let Some(g) = op.region() {
                lemma_words_of_an_op(op, 0, g);
            }
            assert forall|g: RegionId| #[trigger] names(op, g) implies op.region() == Some(g) by {
                lemma_words_of_an_op(op, 0, g);
            }
            assert forall|r: Reg| reads_first(op, r) && #[trigger] unwritten(ops, at, r) implies Some(
                r,
            ) == crate::ir::unreadable_use(ops, at, op.uses()) by {
                lemma_defined(ops, at, r);
                assert(op.uses()[0] == Operand::Reg(r));
            }
        } else {
            assert forall|i: int| 0 <= i < ops.len() - 1 implies !(#[trigger] ops[i] is Commit) by {
                assert(keeps_rules(decls, ops, i));
            }
            if let Some(Operand::Reg(r)) = ret {
                lemma_defined(ops, ops.len() as int, r);
            }
        }
    }
}

/// A program that reads a register too early cannot get past that operation.
pub proof fn law_early_reads_never_continue(
    env: Setting,
    cpu: usize,
    op: Op,
    s: State,
    r: Reg,
)
    requires
        reads(op, r),
        !s.regs.dom().contains(r),
    ensures
        crate::sim::step_effect(env, cpu, op, s) is Fail,
{
}

spec fn all_written(ops: Seq<Op>, at: int, regs: Map<Reg, u64>) -> bool {
    forall|r: Reg| !unwritten(ops, at, r) ==> #[trigger] regs.dom().contains(r)
}

proof fn lemma_readable_now(ops: Seq<Op>, i: int, regs: Map<Reg, u64>, o: Operand)
    requires
        all_written(ops, i, regs),
        o matches Operand::Reg(r) ==> !unwritten(ops, i, r),
    ensures
        crate::sim::operand_value(regs, o) is Ok,
{
    if let Operand::Reg(r) = o {
        assert(regs.dom().contains(r));
    }
}

/// The operand stands for a value that is known.
pub open spec fn known(regs: Map<Reg, u64>, o: Operand) -> bool {
    match o {
        Operand::Reg(r) => regs.dom().contains(r),
        Operand::Imm(_) => true,
    }
}

/// What the operand stands for.
pub open spec fn worth(regs: Map<Reg, u64>, o: Operand) -> u64 {
    match o {
        Operand::Reg(r) => regs[r],
        Operand::Imm(v) => v,
    }
}

proof fn lemma_attempt_defined(
    env: Setting,
    cpu: usize,
    decls: Seq<RegionDecl>,
    ops: Seq<Op>,
    stop: Option<usize>,
    i: int,
    s: State,
)
    requires
        0 <= i <= ops.len(),
        forall|k: int| 0 <= k < ops.len() ==> #[trigger] keeps_rules(decls, ops, k),
        all_written(ops, i, s.regs),
    ensures
        match crate::sim::attempt_end(env, cpu, ops, stop, i, s) {
            AttemptEnd::Failed(e, _) => !(e is UndefinedReg) && !(e is BadCpu),
            AttemptEnd::Finished(t) => all_written(ops, ops.len() as int, t.regs),
            _ => true,
        },
    decreases ops.len() - i,
{
    if i < ops.len() && !(stop matches Some(at) && at == i) {
        let op = ops[i];
        assert(keeps_rules(decls, ops, i));
        match op {
            Op::Load { addr, .. } => {
                if let Operand::Reg(r) = addr.index {
                    assert(reads(op, r));
                }
                lemma_readable_now(ops, i, s.regs, addr.index);
            },
            Op::Bin { lhs, rhs, .. } => {
                if let Operand::Reg(r) = lhs {
                    assert(reads(op, r));
                }
                if let Operand::Reg(r) = rhs {
                    assert(reads(op, r));
                }
                lemma_readable_now(ops, i, s.regs, lhs);
                lemma_readable_now(ops, i, s.regs, rhs);
            },
            Op::ExitIf { lhs, rhs, .. } => {
                if let Operand::Reg(r) = lhs {
                    assert(reads(op, r));
                }
                if let Operand::Reg(r) = rhs {
                    assert(reads(op, r));
                }
                lemma_readable_now(ops, i, s.regs, lhs);
                lemma_readable_now(ops, i, s.regs, rhs);
            },
            Op::StoreScratch { addr, src } => {
                if let Operand::Reg(r) = addr.index {
                    assert(reads(op, r));
                }
                if let Operand::Reg(r) = src {
                    assert(reads(op, r));
                }
                lemma_readable_now(ops, i, s.regs, addr.index);
                lemma_readable_now(ops, i, s.regs, src);
            },
            Op::Commit { addr, src } => {
                if let Operand::Reg(r) = addr.index {
                    assert(reads(op, r));
                }
                if let Operand::Reg(r) = src {
                    assert(reads(op, r));
                }
                lemma_readable_now(ops, i, s.regs, addr.index);
                lemma_readable_now(ops, i, s.regs, src);
            },
            _ => {},
        }
        if let Effect::Continue(next) = crate::sim::step_effect(env, cpu, op, s) {
            assert forall|r: Reg| !unwritten(ops, i + 1, r) implies #[trigger] next.regs.dom().contains(
                r,
            ) by {
                if !unwritten(ops, i, r) {
                    assert(s.regs.dom().contains(r));
                } else {
                    let k = choose|k: int| 0 <= k < i + 1 && writes(#[trigger] ops[k], r);
                    assert(k == i);
                }
            }
            lemma_attempt_defined(env, cpu, decls, ops, stop, i + 1, next);
        }
    }
}

proof fn lemma_run_defined(
    env: Setting,
    ops: Seq<Op>,
    ret: Option<Operand>,
    post_commit_in_window: bool,
    cpu: usize,
    plan: Seq<AbortPoint>,
    words: Words,
)
    requires
        ops.len() <= usize::MAX,
        crate::ir::verdict(env.decls, ops, ret) is Ok,
    ensures
        crate::sim::run_end(env, ops, ret, post_commit_in_window, cpu, plan, words).0 matches Err(
            e,
        ) ==> !(e is UndefinedReg),
    decreases plan.len(),
{
    law_refusals_are_true_and_first(env.decls, ops, ret);
    let s = State::entry(words);
    let stop = crate::sim::next_stop(plan);
    assert(all_written(ops, 0, s.regs));
    lemma_attempt_defined(env, cpu, env.decls, ops, stop, 0, s);
    match crate::sim::attempt_end(env, cpu, ops, stop, 0, s) {
        AttemptEnd::Aborted(w) => {
            if plan.len() > 0 {
                lemma_run_defined(
                    env,
                    ops,
                    ret,
                    post_commit_in_window,
                    plan[0].new_cpu,
                    plan.drop_first(),
                    w,
                );
            }
        },
        AttemptEnd::Finished(t) => {
            if plan.len() > 0 {
                lemma_run_defined(
                    env,
                    ops,
                    ret,
                    post_commit_in_window,
                    plan[0].new_cpu,
                    plan.drop_first(),
                    t.words,
                );
            }
            if let Some(o) = ret {
                if let Operand::Reg(r) = o {
                    assert(!unwritten(ops, ops.len() as int, r));
                }
                lemma_readable_now(ops, ops.len() as int, t.regs, o);
            }
        },
        _ => {},
    }
}

/// A program that was not refused never reads a register that it has not
/// written, under any abort plan.
pub proof fn law_valid_programs_define_what_they_read(
    env: Setting,
    ops: Seq<Op>,
    ret: Option<Operand>,
    post_commit_in_window: bool,
    plan: Seq<AbortPoint>,
    words: Words,
)
    requires
        ops.len() <= usize::MAX,
        crate::ir::verdict(env.decls, ops, ret) is Ok,
    ensures
        crate::sim::whole_run(env, ops, ret, post_commit_in_window, plan, words).0 matches Err(
            e,
        ) ==> !(e is UndefinedReg),
{
    lemma_run_defined(env, ops, ret, post_commit_in_window, env.start_cpu, plan, words);
}

/// Sums, differences and products are those of the integers, as far as a word
/// shows them.
pub proof fn law_arithmetic_is_that_of_integers(a: u64, b: u64)
    ensures
        crate::sim::bin_value(BinOp::Add, a, b) == (a + b) % 0x1_0000_0000_0000_0000,
        crate::sim::bin_value(BinOp::Sub, a, b) == (a - b) % 0x1_0000_0000_0000_0000,
        crate::sim::bin_value(BinOp::Mul, a, b) == (a * b) % 0x1_0000_0000_0000_0000,
{
    let range = 0x1_0000_0000_0000_0000int;
    if a + b > u64::MAX {
        vstd::arithmetic::div_mod::lemma_fundamental_div_mod_converse(a + b, range, 1, a + b - range);
    }
    if a - b < 0 {
        vstd::arithmetic::div_mod::lemma_fundamental_div_mod_converse(
            a - b,
            range,
            -1,
            a - b + range,
        );
    }
}

/// Bit `i` of a word.
pub open spec fn bit(x: u64, i: u64) -> bool {
    (x >> i) & 1 == 1
}

/// The logical operations work bit by bit; a shift moves every bit by the
/// amount modulo 64 and fills with zeros.
pub proof fn law_logic_is_bit_by_bit(a: u64, b: u64, i: u64)
    requires
        i < 64,
    ensures
        bit(crate::sim::bin_value(BinOp::And, a, b), i) <==> bit(a, i) && bit(b, i),
        bit(crate::sim::bin_value(BinOp::Or, a, b), i) <==> bit(a, i) || bit(b, i),
        bit(crate::sim::bin_value(BinOp::Xor, a, b), i) <==> bit(a, i) != bit(b, i),
        bit(crate::sim::bin_value(BinOp::Shl, a, b), i) <==> i >= b % 64 && bit(
            a,
            (i - b % 64) as u64,
        ),
        bit(crate::sim::bin_value(BinOp::Shr, a, b), i) <==> i + b % 64 < 64 && bit(
            a,
            (i + b % 64) as u64,
        ),
{
    assert(((a & b) >> i) & 1 == 1 <==> (a >> i) & 1 == 1 && (b >> i) & 1 == 1) by (bit_vector);
    assert(((a | b) >> i) & 1 == 1 <==> (a >> i) & 1 == 1 || (b >> i) & 1 == 1) by (bit_vector);
    assert(((a ^ b) >> i) & 1 == 1 <==> ((a >> i) & 1 == 1) != ((b >> i) & 1 == 1)) by (bit_vector);
    let by = (b as u32) % 64;
    assert((b as u32) % 64 == b % 64) by (bit_vector);
    let back = (i - by) as u64;
    let on = (i + by) as u64;
    if i >= by {
        assert(((a << by) >> i) & 1 == (a >> back) & 1) by (bit_vector)
            requires
                by < 64,
                i < 64,
                back == i - by,
        ;
    } else {
        assert(((a << by) >> i) & 1 == 0) by (bit_vector)
            requires
                by < 64,
                i < by,
        ;
    }
    if i + by < 64 {
        assert(((a >> by) >> i) & 1 == (a >> on) & 1) by (bit_vector)
            requires
                by < 64,
                i < 64,
                on == i + by,
                on < 64,
        ;
    } else {
        assert(((a >> by) >> i) & 1 == 0) by (bit_vector)
            requires
                by < 64,
                i < 64,
                i + by >= 64,
        ;
    }
}

/// An exit branch compares the words as numbers.
pub proof fn law_conditions_compare_numbers(a: u64, b: u64)
    ensures
        crate::sim::cond_holds(Cond::Lt, a, b) <==> a - b < 0,
        crate::sim::cond_holds(Cond::Eq, a, b) <==> a - b == 0,
        crate::sim::cond_holds(Cond::Ge, a, b) == !crate::sim::cond_holds(Cond::Lt, a, b),
        crate::sim::cond_holds(Cond::Ne, a, b) == !crate::sim::cond_holds(Cond::Eq, a, b),
{
}

/// What the operation reads as a word index, if it touches memory.
pub open spec fn index_in(op: Op) -> Option<Operand> {
    match op {
        Op::Load { addr, .. } => Some(addr.index),
        Op::StoreScratch { addr, .. } => Some(addr.index),
        Op::Commit { addr, .. } => Some(addr.index),
        _ => None,
    }
}

/// The operation does not commit to a slice of another CPU.
pub open spec fn stays_home(env: Setting, cpu: usize, op: Op, s: State) -> bool {
    op matches Op::Commit { addr, .. } ==> {
        let i = worth(s.regs, addr.index) as usize;
        let words = env.decls[addr.region.0 as int].words as int;
        env.decls[addr.region.0 as int].per_cpu ==> cpu * words <= i < (cpu + 1) * words
    }
}

/// What stands in the way of an operation, and comes first: the register that
/// is read first, then a foreign slice, then the other register, then the end
/// of the region.
pub open spec fn obstructed(env: Setting, cpu: usize, op: Op, s: State, e: SimError) -> bool {
    match e {
        SimError::UndefinedReg(r) => {
            &&& reads(op, r)
            &&& !s.regs.dom().contains(r)
            &&& forall|q: Reg| #[trigger] reads_first(op, q) && !s.regs.dom().contains(q) ==> q == r
            &&& reads_first(op, r) || stays_home(env, cpu, op, s)
        },
        SimError::MissingParam { index, nparams } => (op matches Op::Param { index: i, .. } && i
            == index) && nparams == env.params.len() && index >= nparams,
        SimError::OutOfBounds { region, index, len } => {
            &&& names(op, region)
            &&& index_in(op) is Some
            &&& known(s.regs, index_in(op).unwrap())
            &&& index == worth(s.regs, index_in(op).unwrap()) as usize
            &&& len == s.words[region.0 as int].len()
            &&& index >= len
            &&& forall|r: Reg| #[trigger] reads(op, r) ==> s.regs.dom().contains(r)
            &&& stays_home(env, cpu, op, s)
        },
        SimError::ForeignCommit { region, index, running_on, owner } => {
            let words = env.decls[region.0 as int].words as int;
            &&& op is Commit
            &&& names(op, region)
            &&& known(s.regs, index_in(op).unwrap())
            &&& index == worth(s.regs, index_in(op).unwrap()) as usize
            &&& env.decls[region.0 as int].per_cpu
            &&& running_on == cpu
            &&& owner != cpu
            &&& owner * words <= index < (owner + 1) * words
        },
        SimError::BadCpu { .. } => false,
    }
}

/// The operation can be carried out.
pub open spec fn unobstructed(env: Setting, cpu: usize, op: Op, s: State) -> bool {
    &&& forall|r: Reg| #[trigger] reads(op, r) ==> s.regs.dom().contains(r)
    &&& op matches Op::Param { index, .. } ==> index < env.params.len()
    &&& forall|g: RegionId| #[trigger]
        names(op, g) ==> {
            let i = worth(s.regs, index_in(op).unwrap()) as usize;
            let words = env.decls[g.0 as int].words as int;
            &&& i < s.words[g.0 as int].len()
            &&& op is Commit && env.decls[g.0 as int].per_cpu ==> cpu * words <= i < (cpu + 1)
                * words
        }
}

proof fn lemma_owner(index: usize, words: usize, cpu: usize)
    requires
        words > 0,
    ensures
        index / words == cpu <==> cpu * words <= index < (cpu + 1) * words,
        (index / words) * words <= index < (index / words + 1) * words,
{
    let q = index as int / words as int;
    let w = words as int;
    vstd::arithmetic::div_mod::lemma_fundamental_div_mod(index as int, w);
    vstd::arithmetic::mul::lemma_mul_is_commutative(w, q);
    vstd::arithmetic::mul::lemma_mul_is_distributive_add_other_way(w, q, 1);
    if cpu * words <= index < (cpu + 1) * words {
        vstd::arithmetic::mul::lemma_mul_is_distributive_add_other_way(w, cpu as int, 1);
        vstd::arithmetic::div_mod::lemma_fundamental_div_mod_converse(
            index as int,
            w,
            cpu as int,
            index - cpu * w,
        );
    }
}

/// An operation fails exactly if something stands in its way, and the failure
/// says what: a register that was not written, a parameter that was not given,
/// an index past the end of its region, or a commit outside the slice of the
/// CPU that it runs on.
pub proof fn law_failures_name_the_obstacle(env: Setting, cpu: usize, op: Op, s: State)
    requires
        env.params.len() <= usize::MAX,
        crate::sim::op_addressable(env.decls, op),
        forall|r: int| 0 <= r < s.words.len() ==> (#[trigger] s.words[r]).len() <= usize::MAX,
        s.words.len() == env.decls.len(),
    ensures
        match crate::sim::step_effect(env, cpu, op, s) {
            Effect::Fail(e) => obstructed(env, cpu, op, s, e) && !unobstructed(env, cpu, op, s),
            _ => unobstructed(env, cpu, op, s),
        },
{
    match op {
        Op::Load { addr, .. } => {
            assert(names(op, addr.region));
            if let Operand::Reg(r) = addr.index {
                assert(reads(op, r));
            }
            assert(s.words[addr.region.0 as int].len() <= usize::MAX);
        },
        Op::Bin { lhs, rhs, .. } => {
            if let Operand::Reg(r) = lhs {
                assert(reads(op, r));
            }
            if let Operand::Reg(r) = rhs {
                assert(reads(op, r));
            }
        },
        Op::ExitIf { lhs, rhs, .. } => {
            if let Operand::Reg(r) = lhs {
                assert(reads(op, r));
            }
            if let Operand::Reg(r) = rhs {
                assert(reads(op, r));
            }
        },
        Op::StoreScratch { addr, src } => {
            assert(names(op, addr.region));
            if let Operand::Reg(r) = addr.index {
                assert(reads(op, r));
            }
            if let Operand::Reg(r) = src {
                assert(reads(op, r));
            }
            assert(s.words[addr.region.0 as int].len() <= usize::MAX);
        },
        Op::Commit { addr, src } => {
            assert(names(op, addr.region));
            if let Operand::Reg(r) = addr.index {
                assert(reads(op, r));
            }
            if let Operand::Reg(r) = src {
                assert(reads(op, r));
            }
            assert(s.words[addr.region.0 as int].len() <= usize::MAX);
            let decl = env.decls[addr.region.0 as int];
            if decl.per_cpu {
                lemma_owner(worth(s.regs, addr.index) as usize, decl.words, cpu);
            }
        },
        _ => {},
    }
}

/// The operation changes this word.
pub open spec fn touches(op: Op, regs: Map<Reg, u64>, region: int, i: int) -> bool {
    match op {
        Op::StoreScratch { addr, .. } => addr.region.0 == region && worth(regs, addr.index) as usize
            == i,
        Op::Commit { addr, .. } => addr.region.0 == region && worth(regs, addr.index) as usize == i,
        _ => false,
    }
}

/// What an operation leaves in the register that it writes.
pub open spec fn produces(env: Setting, cpu: usize, op: Op, s: State, v: u64) -> bool {
    match op {
        Op::CpuId { .. } => v == cpu as u64,
        Op::CpuIdHoisted { .. } => v == env.start_cpu as u64,
        Op::Const { value, .. } => v == value,
        Op::Param { index, .. } => v == env.params[index as int],
        Op::Load { addr, .. } => v == s.words[addr.region.0 as int][worth(
            s.regs,
            addr.index,
        ) as usize as int],
        Op::Bin { op, lhs, rhs, .. } => v == crate::sim::bin_value(
            op,
            worth(s.regs, lhs),
            worth(s.regs, rhs),
        ),
        _ => true,
    }
}

/// An operation that goes on changes one register or one word and nothing
/// else: the register it writes holds what it produced, the word it stores to
/// holds the source.
pub proof fn law_operations_change_one_thing(env: Setting, cpu: usize, op: Op, s: State)
    requires
        forall|g: RegionId| #[trigger] names(op, g) ==> g.0 < s.words.len(),
    ensures
        crate::sim::step_effect(env, cpu, op, s) matches Effect::Continue(t) ==> {
            &&& forall|r: Reg| #[trigger]
                t.regs.dom().contains(r) <==> writes(op, r) || s.regs.dom().contains(r)
            &&& forall|r: Reg| s.regs.dom().contains(r) && !writes(op, r) ==> #[trigger] t.regs[r]
                == s.regs[r]
            &&& forall|r: Reg| #[trigger] writes(op, r) ==> produces(env, cpu, op, s, t.regs[r])
            &&& t.words.len() == s.words.len()
            &&& forall|g: int| 0 <= g < s.words.len() ==> (#[trigger] t.words[g]).len()
                == s.words[g].len()
            &&& forall|g: int, i: int|
                0 <= g < s.words.len() && 0 <= i < s.words[g].len() ==> #[trigger] t.words[g][i]
                    == if touches(op, s.regs, g, i) {
                    match op {
                        Op::StoreScratch { src, .. } => worth(s.regs, src),
                        Op::Commit { src, .. } => worth(s.regs, src),
                        _ => 0,
                    }
                } else {
                    s.words[g][i]
                }
        },
        crate::sim::step_effect(env, cpu, op, s) is Exit ==> (op matches Op::ExitIf {
            cond,
            lhs,
            rhs,
        } && crate::sim::cond_holds(cond, worth(s.regs, lhs), worth(s.regs, rhs))),
{
    match op {
        Op::StoreScratch { addr, .. } => {
            assert(names(op, addr.region));
        },
        Op::Commit { addr, .. } => {
            assert(names(op, addr.region));
        },
        _ => {},
    }
}

/// How the first `k` operations go on `cpu`, from the top of an attempt.
pub open spec fn so_far(env: Setting, cpu: usize, ops: Seq<Op>, k: int, words: Words) -> AttemptEnd {
    crate::sim::attempt_end(env, cpu, ops.take(k), None, 0, State::entry(words))
}

proof fn lemma_one_more(env: Setting, cpu: usize, ops: Seq<Op>, k: int, i: int, s: State)
    requires
        0 <= i <= k < ops.len(),
    ensures
        ({
            let more = crate::sim::attempt_end(env, cpu, ops.take(k + 1), None, i, s);
            match crate::sim::attempt_end(env, cpu, ops.take(k), None, i, s) {
                AttemptEnd::Finished(t) => match crate::sim::step_effect(env, cpu, ops[k], t) {
                    Effect::Continue(n) => more == AttemptEnd::Finished(n),
                    Effect::Exit => more == AttemptEnd::Exited(t.words),
                    Effect::Fail(e) => more == AttemptEnd::Failed(e, t.words),
                },
                end => more == end,
            }
        }),
    decreases k - i,
{
    assert(ops.take(k + 1)[i] == ops[i]);
    if i < k {
        assert(ops.take(k)[i] == ops[i]);
        if let Effect::Continue(n) = crate::sim::step_effect(env, cpu, ops[i], s) {
            lemma_one_more(env, cpu, ops, k, i + 1, n);
        }
    } else if let Effect::Continue(n) = crate::sim::step_effect(env, cpu, ops[k], s) {
        reveal_with_fuel(crate::sim::attempt_end, 2);
    }
}

/// Operations are executed one after the other, from no registers and the
/// memory as it is, until one exits or fails.
pub proof fn law_operations_run_in_order(
    env: Setting,
    cpu: usize,
    ops: Seq<Op>,
    k: int,
    words: Words,
)
    requires
        0 <= k < ops.len(),
    ensures
        so_far(env, cpu, ops, 0, words) == AttemptEnd::Finished(
            (State { regs: Map::empty(), words }),
        ),
        match so_far(env, cpu, ops, k, words) {
            AttemptEnd::Finished(t) => match crate::sim::step_effect(env, cpu, ops[k], t) {
                Effect::Continue(n) => so_far(env, cpu, ops, k + 1, words) == AttemptEnd::Finished(n),
                Effect::Exit => so_far(env, cpu, ops, k + 1, words) == AttemptEnd::Exited(t.words),
                Effect::Fail(e) => so_far(env, cpu, ops, k + 1, words) == AttemptEnd::Failed(
                    e,
                    t.words,
                ),
            },
            end => so_far(env, cpu, ops, k + 1, words) == end,
        },
{
    lemma_one_more(env, cpu, ops, k, 0, State::entry(words));
}

proof fn lemma_cut(
    env: Setting,
    cpu: usize,
    ops: Seq<Op>,
    at: usize,
    i: int,
    s: State,
)
    requires
        0 <= i <= ops.len(),
        i <= at,
    ensures
        ({
            let cut = crate::sim::attempt_end(env, cpu, ops, Some(at), i, s);
            let whole = crate::sim::attempt_end(env, cpu, ops, None, i, s);
            if at < ops.len() {
                match crate::sim::attempt_end(env, cpu, ops.take(at as int), None, i, s) {
                    AttemptEnd::Finished(t) => cut == AttemptEnd::Aborted(t.words),
                    end => cut == end && whole == end,
                }
            } else {
                cut == whole
            }
        }),
    decreases ops.len() - i,
{
    if i < ops.len() && i < at {
        if at < ops.len() {
            assert(ops.take(at as int)[i] == ops[i]);
        }
        if let Effect::Continue(n) = crate::sim::step_effect(env, cpu, ops[i], s) {
            lemma_cut(env, cpu, ops, at, i + 1, n);
        }
    }
}

/// The abort that comes first in a plan fires exactly if the operations before
/// it go through (the commit too, where the modelled window has it inside).
/// The run then goes on from the top on the CPU of that abort, with the rest of
/// the plan, in the memory that those operations left; it fails if there is no
/// such CPU. An abort that does not fire holds the later ones back: the run is
/// then one without aborts.
pub proof fn law_aborts_cut_and_restart(
    env: Setting,
    ops: Seq<Op>,
    ret: Option<Operand>,
    post_commit_in_window: bool,
    cpu: usize,
    plan: Seq<AbortPoint>,
    words: Words,
)
    requires
        plan.len() > 0,
    ensures
        ({
            let at = plan[0].at as int;
            let next = plan[0].new_cpu;
            let got = crate::sim::run_end(env, ops, ret, post_commit_in_window, cpu, plan, words);
            let inside = at < ops.len() || (at == ops.len() && post_commit_in_window);
            match so_far(env, cpu, ops, at, words) {
                AttemptEnd::Finished(t) if inside => if next < env.ncpus {
                    got == crate::sim::run_end(
                        env,
                        ops,
                        ret,
                        post_commit_in_window,
                        next,
                        plan.drop_first(),
                        t.words,
                    )
                } else {
                    got == (
                        Err::<RunResult, SimError>(
                            SimError::BadCpu { cpu: next, ncpus: env.ncpus },
                        ),
                        t.words,
                    )
                },
                _ => got == crate::sim::run_end(
                    env,
                    ops,
                    ret,
                    post_commit_in_window,
                    cpu,
                    seq![],
                    words,
                ),
            }
        }),
{
    let at = plan[0].at;
    let s = State::entry(words);
    lemma_cut(env, cpu, ops, at, 0, s);
    assert(crate::sim::next_stop(seq![]) is None);
    if at == ops.len() {
        assert(ops.take(at as int) =~= ops);
    }
    if so_far(env, cpu, ops, at as int, words) is Aborted {
        crate::sim::lemma_abort_has_stop(env, cpu, ops.take(at as int), None, 0, s);
    }
    if crate::sim::attempt_end(env, cpu, ops, None, 0, s) is Aborted {
        crate::sim::lemma_abort_has_stop(env, cpu, ops, None, 0, s);
    }
}

/// A run without aborts stays on its CPU. It ends as its operations do: with
/// the value of its result if the commit was reached.
pub proof fn law_clean_runs_report_their_end(
    env: Setting,
    ops: Seq<Op>,
    ret: Option<Operand>,
    post_commit_in_window: bool,
    words: Words,
)
    ensures
        ({
            let none: Seq<AbortPoint> = seq![];
            let got = crate::sim::whole_run(env, ops, ret, post_commit_in_window, none, words);
            if env.start_cpu >= env.ncpus {
                &&& got.0 == Err::<RunResult, SimError>(
                    SimError::BadCpu { cpu: env.start_cpu, ncpus: env.ncpus },
                )
                &&& got.1 == words
            } else {
                match so_far(env, env.start_cpu, ops, ops.len() as int, words) {
                    AttemptEnd::Finished(t) => {
                        &&& got.1 == t.words
                        &&& match ret {
                            None => got.0 == Ok::<RunResult, SimError>(
                                RunResult {
                                    outcome: Outcome::Committed { ret: None },
                                    final_cpu: env.start_cpu,
                                },
                            ),
                            Some(o) => known(t.regs, o) ==> got.0 == Ok::<RunResult, SimError>(
                                RunResult {
                                    outcome: Outcome::Committed { ret: Some(worth(t.regs, o)) },
                                    final_cpu: env.start_cpu,
                                },
                            ),
                        }
                    },
                    AttemptEnd::Exited(w) => {
                        &&& got.1 == w
                        &&& got.0 == Ok::<RunResult, SimError>(
                            RunResult { outcome: Outcome::Exited, final_cpu: env.start_cpu },
                        )
                    },
                    AttemptEnd::Failed(e, w) => got == (Err::<RunResult, SimError>(e), w),
                    AttemptEnd::Aborted(_) => false,
                }
            }
        }),
{
    assert(ops.take(ops.len() as int) =~= ops);
    assert(crate::sim::next_stop(seq![]) is None);
    if crate::sim::attempt_end(env, env.start_cpu, ops, None, 0, State::entry(words)) is Aborted {
        crate::sim::lemma_abort_has_stop(env, env.start_cpu, ops, None, 0, State::entry(words));
    }
}

proof fn lemma_start_is_forgotten(
    a: Setting,
    b: Setting,
    cpu: usize,
    ops: Seq<Op>,
    stop: Option<usize>,
    i: int,
    s: State,
)
    requires
        0 <= i,
        crate::laws::same_but_start(a, b),
        forall|k: int| 0 <= k < ops.len() ==> !(#[trigger] ops[k] is CpuIdHoisted),
    ensures
        crate::sim::attempt_end(a, cpu, ops, stop, i, s) == crate::sim::attempt_end(
            b,
            cpu,
            ops,
            stop,
            i,
            s,
        ),
    decreases ops.len() - i,
{
    if i < ops.len() {
        assert(!(ops[i] is CpuIdHoisted));
        if let Effect::Continue(n) = crate::sim::step_effect(a, cpu, ops[i], s) {
            lemma_start_is_forgotten(a, b, cpu, ops, stop, i + 1, n);
        }
    }
}

/// Without a stale CPU id, what follows a restart is a run like any other that
/// starts on that CPU.
pub proof fn law_restarts_are_runs(
    env: Setting,
    ops: Seq<Op>,
    ret: Option<Operand>,
    post_commit_in_window: bool,
    cpu: usize,
    plan: Seq<AbortPoint>,
    words: Words,
)
    requires
        cpu < env.ncpus,
        forall|k: int| 0 <= k < ops.len() ==> !(#[trigger] ops[k] is CpuIdHoisted),
    ensures
        crate::sim::run_end(env, ops, ret, post_commit_in_window, cpu, plan, words)
            == crate::sim::whole_run(
            Setting { start_cpu: cpu, ..env },
            ops,
            ret,
            post_commit_in_window,
            plan,
            words,
        ),
{
    lemma_restart_is_a_run(env, cpu, ops, ret, post_commit_in_window, cpu, plan, words);
}

proof fn lemma_restart_is_a_run(
    env: Setting,
    start: usize,
    ops: Seq<Op>,
    ret: Option<Operand>,
    post_commit_in_window: bool,
    cpu: usize,
    plan: Seq<AbortPoint>,
    words: Words,
)
    requires
        forall|k: int| 0 <= k < ops.len() ==> !(#[trigger] ops[k] is CpuIdHoisted),
    ensures
        crate::sim::run_end(env, ops, ret, post_commit_in_window, cpu, plan, words)
            == crate::sim::run_end(
            Setting { start_cpu: start, ..env },
            ops,
            ret,
            post_commit_in_window,
            cpu,
            plan,
            words,
        ),
    decreases plan.len(),
{
    let other = Setting { start_cpu: start, ..env };
    let stop = crate::sim::next_stop(plan);
    let s = State::entry(words);
    lemma_start_is_forgotten(env, other, cpu, ops, stop, 0, s);
    if plan.len() > 0 {
        let next = plan[0].new_cpu;
        match crate::sim::attempt_end(env, cpu, ops, stop, 0, s) {
            AttemptEnd::Aborted(w) => {
                lemma_restart_is_a_run(
                    env,
                    start,
                    ops,
                    ret,
                    post_commit_in_window,
                    next,
                    plan.drop_first(),
                    w,
                );
            },
            AttemptEnd::Finished(t) => {
                lemma_restart_is_a_run(
                    env,
                    start,
                    ops,
                    ret,
                    post_commit_in_window,
                    next,
                    plan.drop_first(),
                    t.words,
                );
            },
            _ => {},
        }
    }
}

/// Running a prefix leaves the memory, and fails as, running a program that is
/// only that prefix would.
pub proof fn law_prefixes_are_shorter_programs(env: Setting, ops: Seq<Op>, k: int, words: Words)
    requires
        0 <= k <= ops.len(),
    ensures
        ({
            let none: Seq<AbortPoint> = seq![];
            let run = crate::sim::whole_run(env, ops.take(k), None, false, none, words);
            let got = crate::sim::prefix_end(env, ops, k, words);
            &&& got.1 == run.1
            &&& got.0 is Err <==> run.0 is Err
            &&& got.0 is Err ==> got.0->Err_0 == run.0->Err_0
        }),
{
    let s = State::entry(words);
    assert(crate::sim::next_stop(seq![]) is None);
    if crate::sim::attempt_end(env, env.start_cpu, ops.take(k), None, 0, s) is Aborted {
        crate::sim::lemma_abort_has_stop(env, env.start_cpu, ops.take(k), None, 0, s);
    }
}

/// A snapshot holds every published region once, in the order of declaration,
/// with all its words, and nothing of the others.
pub proof fn law_snapshots_show_what_is_published(decls: Seq<RegionDecl>, words: Words, n: int)
    requires
        0 <= n <= decls.len(),
        decls.len() <= usize::MAX,
    ensures
        ({
            let shown = crate::sim::published_words(decls, words, n);
            &&& forall|j: int|
                0 <= j < shown.len() ==> (#[trigger] shown[j]).0.0 < n
                    && decls[shown[j].0.0 as int].published && shown[j].1
                    == words[shown[j].0.0 as int]
            &&& forall|j: int, k: int|
                0 <= j < k < shown.len() ==> (#[trigger] shown[j]).0.0 < (#[trigger] shown[k]).0.0
            &&& forall|r: int|
                0 <= r < n && (#[trigger] decls[r]).published ==> shown.contains(
                    (RegionId(r as usize), words[r]),
                )
        }),
    decreases n,
{
    if n > 0 {
        law_snapshots_show_what_is_published(decls, words, n - 1);
        let before = crate::sim::published_words(decls, words, n - 1);
        let shown = crate::sim::published_words(decls, words, n);
        assert forall|r: int| 0 <= r < n && (#[trigger] decls[r]).published implies shown.contains(
            (RegionId(r as usize), words[r]),
        ) by {
            if r < n - 1 {
                let e = (RegionId(r as usize), words[r]);
                let j = choose|j: int| 0 <= j < before.len() && before[j] == e;
                assert(shown[j] == e);
            } else {
                assert(shown[shown.len() - 1] == (RegionId(r as usize), words[r]));
            }
        }
    }
}

/// Registers are numbered by how many operations before have written one, from
/// zero on: the next number is one that nothing has written yet, and an
/// operation that writes none takes none.
pub proof fn law_registers_are_numbered_as_they_are_written(ops: Seq<Op>, op: Op, r: Reg)
    requires
        crate::ir::numbered_in_order(ops),
    ensures
        crate::ir::def_count(seq![]) == 0,
        writes(op, r) ==> crate::ir::def_count(ops.push(op)) == crate::ir::def_count(ops) + 1,
        (forall|q: Reg| !#[trigger] writes(op, q)) ==> crate::ir::def_count(ops.push(op))
            == crate::ir::def_count(ops),
        forall|i: int, q: Reg|
            0 <= i < ops.len() && #[trigger] writes(ops[i], q) ==> q < crate::ir::def_count(ops),
{
    crate::ir::lemma_def_count_push(ops, op);
    lemma_words_of_an_op(op, r, RegionId(0));
    if op.dst() is Some {
        lemma_words_of_an_op(op, op.dst().unwrap(), RegionId(0));
    }
    assert forall|i: int, q: Reg| 0 <= i < ops.len() && #[trigger] writes(ops[i], q) implies q
        < crate::ir::def_count(ops) by {
        lemma_words_of_an_op(ops[i], q, RegionId(0));
        lemma_number_is_below(ops, i, ops.len() as int);
        assert(ops.take(ops.len() as int) =~= ops);
    }
}

proof fn lemma_number_is_below(ops: Seq<Op>, i: int, n: int)
    requires
        crate::ir::numbered_in_order(ops),
        0 <= i < n <= ops.len(),
        ops[i].dst() is Some,
    ensures
        ops[i].dst().unwrap() < crate::ir::def_count(ops.take(n)),
    decreases n,
{
    assert(ops.take(n).drop_last() =~= ops.take(n - 1));
    if i < n - 1 {
        lemma_number_is_below(ops, i, n - 1);
    }
}

/// A declaration is what was asked for in every respect.
pub proof fn law_declarations_are_whole(
    d: RegionDecl,
    name: Seq<char>,
    published: bool,
    per_cpu: bool,
    words: usize,
    init: u64,
)
    ensures
        d.is(name, published, per_cpu, words, init) <==> (d.name@, d.published, d.per_cpu) == (
            name,
            published,
            per_cpu,
        ) && (d.words, d.init) == (words, init),
{
}

/// A per-CPU region has one slice for each CPU, side by side and nothing more;
/// a shared one has its words, however many CPUs there are. Each word starts
/// with the initial value.
pub proof fn law_regions_are_as_declared(decls: Seq<RegionDecl>, ncpus: int, r: int)
    requires
        0 <= r < decls.len(),
        0 <= ncpus,
    ensures
        ({
            let fresh = crate::sim::fresh_words(decls, ncpus);
            let words = decls[r].words as int;
            &&& fresh.len() == decls.len()
            &&& forall|i: int| 0 <= i < fresh[r].len() ==> #[trigger] fresh[r][i] == decls[r].init
            &&& decls[r].per_cpu ==> fresh[r].len() == words * ncpus && forall|cpu: int, off: int|
                0 <= cpu < ncpus && 0 <= off < words ==> 0 <= #[trigger] (cpu * words + off)
                    < fresh[r].len()
            &&& !decls[r].per_cpu ==> fresh[r].len() == words
        }),
{
    let words = decls[r].words as int;
    assert(words * ncpus >= 0) by (nonlinear_arith)
        requires
            words >= 0,
            ncpus >= 0,
    ;
    let fresh = crate::sim::fresh_words(decls, ncpus);
    if decls[r].per_cpu {
        assert forall|cpu: int, off: int| 0 <= cpu < ncpus && 0 <= off < words implies 0
            <= #[trigger] (cpu * words + off) < fresh[r].len() by {
            assert(0 <= cpu * words && cpu * words + words <= words * ncpus) by (nonlinear_arith)
                requires
                    0 <= cpu < ncpus,
                    words >= 0,
            ;
        }
    }
}

} // verus!
