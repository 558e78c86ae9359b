//! What the bytes of compiled code say to the processor: prefix, opcode, ModRM
//! and SIB bytes taken apart as the manuals have it, and what the decoded
//! instruction does.

use vstd::prelude::*;

use crate::codegen::{Assembly, CompileError, CompiledSeq};
use crate::ir::{Cond, Op, Operand, Reg, RegionDecl};
use crate::machine::{Machine, Surroundings};
use crate::x86::{Alu, Insn};

verus! {

/// A decoded instruction. Registers are numbers from 0 to 15.
pub enum Act {
    /// lea d, [rip + disp]
    Locate { d: int, disp: int },
    /// mov d, [base + index*8 + disp], 64 or 32 bits
    Load { wide: bool, d: int, base: int, index: Option<int>, disp: int },
    /// mov [base + index*8 + disp], s
    Store { s: int, base: int, index: Option<int>, disp: int },
    /// mov d, v
    Put { d: int, v: int },
    /// An operation on two registers, by its opcode, 64 or 32 bits
    Combine { opcode: int, wide: bool, d: int, s: int },
    /// imul d, s
    Multiply { d: int, s: int },
    /// shl d, by
    ShiftLeft { d: int, by: int },
    /// shr d, by
    ShiftRight { d: int, by: int },
    /// A conditional jump, by the number of its condition
    JumpIf { condition: int, disp: int },
    /// ret
    Return,
}

/// Four bytes from offset `i` on, the least significant first.
pub open spec fn four_at(b: Seq<u8>, i: int) -> int {
    b[i] + 0x100 * b[i + 1] + 0x1_0000 * b[i + 2] + 0x100_0000 * b[i + 3]
}

/// Eight bytes from offset `i` on, the least significant first.
pub open spec fn eight_at(b: Seq<u8>, i: int) -> int {
    four_at(b, i) + 0x1_0000_0000 * four_at(b, i + 4)
}

/// Two's complement with 32 bits.
pub open spec fn signed32(v: int) -> int {
    if v < 0x8000_0000 {
        v
    } else {
        v - 0x1_0000_0000
    }
}

/// Two's complement with 8 bits.
pub open spec fn signed8(v: int) -> int {
    if v < 0x80 {
        v
    } else {
        v - 0x100
    }
}

/// The instruction at the front of `b`, and its length. `None` for what the
/// compiler does not use.
#[verifier::opaque]
pub open spec fn decoded(b: Seq<u8>) -> Option<(Act, int)> {
    let prefixed = 0x40 <= b[0] < 0x50;
    let p = if prefixed {
        1int
    } else {
        0int
    };
    // The prefix: operand size, and the fourth bits of reg, index and rm.
    let rex = if prefixed {
        b[0] - 0x40
    } else {
        0
    };
    let wide = rex / 8 % 2 == 1;
    let high_reg = 8 * (rex / 4 % 2);
    let high_index = 8 * (rex / 2 % 2);
    let high_rm = 8 * (rex % 2);
    let opcode = b[p] as int;
    // ModRM, for the opcodes that have it.
    let mode = b[p + 1] as int / 64;
    let reg = b[p + 1] as int / 8 % 8;
    let rm = b[p + 1] as int % 8;
    if opcode == 0xC3 {
        Some((Act::Return, p + 1))
    } else if opcode == 0x0F && 0x80 <= b[p + 1] < 0x90 {
        Some((Act::JumpIf { condition: b[p + 1] - 0x80, disp: signed32(four_at(b, p + 2)) }, p + 6))
    } else if opcode == 0x0F && b[p + 1] == 0xAF && wide && b[p + 2] >= 0xC0 {
        Some(
            (
                Act::Multiply {
                    d: b[p + 2] as int / 8 % 8 + high_reg,
                    s: b[p + 2] as int % 8 + high_rm,
                },
                p + 3,
            ),
        )
    } else if 0xB8 <= opcode < 0xC0 && wide {
        Some((Act::Put { d: opcode - 0xB8 + high_rm, v: eight_at(b, p + 1) }, p + 9))
    } else if opcode == 0xC7 && wide && mode == 3 && reg == 0 {
        let v = signed32(four_at(b, p + 2));
        Some((Act::Put { d: rm + high_rm, v: v % 0x1_0000_0000_0000_0000 }, p + 6))
    } else if opcode == 0xC1 && wide && mode == 3 && reg == 4 {
        Some((Act::ShiftLeft { d: rm + high_rm, by: b[p + 2] as int }, p + 3))
    } else if opcode == 0xC1 && wide && mode == 3 && reg == 5 {
        Some((Act::ShiftRight { d: rm + high_rm, by: b[p + 2] as int }, p + 3))
    } else if opcode == 0x8D && wide && mode == 0 && rm == 5 {
        Some((Act::Locate { d: reg + high_reg, disp: signed32(four_at(b, p + 2)) }, p + 6))
    } else if mode == 3 && (opcode == 0x89 || opcode == 0x01 || opcode == 0x29 || opcode == 0x21
        || opcode == 0x09 || opcode == 0x31 || opcode == 0x39) {
        Some((Act::Combine { opcode, wide, d: rm + high_rm, s: reg + high_reg }, p + 2))
    } else if mode < 3 && (opcode == 0x8B || (opcode == 0x89 && wide)) && !(mode == 0 && rm == 5) {
        let sib = b[p + 2] as int;
        let base = if rm == 4 {
            sib % 8 + high_rm
        } else {
            rm + high_rm
        };
        let index = if rm == 4 {
            Some(sib / 8 % 8 + high_index)
        } else {
            None
        };
        let q = if rm == 4 {
            p + 3
        } else {
            p + 2
        };
        let disp = if mode == 0 {
            0
        } else if mode == 1 {
            signed8(b[q] as int)
        } else {
            signed32(four_at(b, q))
        };
        let len = if mode == 0 {
            q
        } else if mode == 1 {
            q + 1
        } else {
            q + 4
        };
        if rm == 4 && (sib / 64 != 3 || index == Some(4int) || (mode == 0 && sib % 8 == 5)) {
            None
        } else if opcode == 0x8B {
            Some((Act::Load { wide, d: reg + high_reg, base, index, disp }, len))
        } else {
            Some((Act::Store { s: reg + high_reg, base, index, disp }, len))
        }
    } else {
        None
    }
}

/// An address is a 64-bit word.
pub open spec fn effective(m: Machine, base: int, index: Option<int>, disp: int) -> int {
    (m.regs[base] + match index {
        Some(i) => 8 * m.regs[i],
        None => 0,
    } + disp) % 0x1_0000_0000_0000_0000
}

/// What is read through a pointer: the CPU id of the rseq area (rdi), a region
/// base (rsi), a parameter (rdx), or memory.
pub open spec fn word_read(
    at: Surroundings,
    m: Machine,
    wide: bool,
    base: int,
    index: Option<int>,
    disp: int,
) -> u64 {
    if base == 7 {
        if m.regs[7] == at.area && disp == 4 && !wide && index is None {
            at.cpu as u64
        } else {
            arbitrary()
        }
    } else if base == 6 && index is None {
        if m.regs[6] == at.bases_at {
            at.bases[disp / 8]
        } else {
            arbitrary()
        }
    } else if base == 2 && index is None {
        if m.regs[2] == at.params_at {
            at.params[disp / 8]
        } else {
            arbitrary()
        }
    } else {
        m.mem[effective(m, base, index, disp)]
    }
}

/// The effect of an instruction that neither jumps nor returns, where `next` is
/// the address of the one that follows it. Arithmetic is modulo 2 to the 64,
/// and leaves no flags that are known; a comparison leaves those of a
/// subtraction.
pub open spec fn performed(at: Surroundings, next: int, m: Machine, act: Act) -> Machine {
    match act {
        Act::Locate { d, disp } => Machine {
            regs: m.regs.update(d, ((next + disp) % 0x1_0000_0000_0000_0000) as u64),
            ..m
        },
        Act::Load { wide, d, base, index, disp } => Machine {
            regs: m.regs.update(d, word_read(at, m, wide, base, index, disp)),
            ..m
        },
        Act::Store { s, base, index, disp } => if base == 7 && index is None && disp == 8
            && m.regs[7] == at.area {
            Machine { armed: m.regs[s], ..m }
        } else {
            Machine { mem: m.mem.insert(effective(m, base, index, disp), m.regs[s]), ..m }
        },
        Act::Put { d, v } => Machine { regs: m.regs.update(d, v as u64), ..m },
        Act::Combine { opcode, wide, d, s } => {
            let a = m.regs[d];
            let b = m.regs[s];
            if opcode == 0x89 {
                Machine { regs: m.regs.update(d, b), ..m }
            } else if opcode == 0x39 {
                Machine { compared: Some((a, b)), ..m }
            } else {
                let v = if opcode == 0x01 {
                    ((a + b) % 0x1_0000_0000_0000_0000) as u64
                } else if opcode == 0x29 {
                    ((a - b) % 0x1_0000_0000_0000_0000) as u64
                } else if opcode == 0x21 {
                    a & b
                } else if opcode == 0x09 {
                    a | b
                } else {
                    a ^ b
                };
                let kept = if wide {
                    v
                } else {
                    (v % 0x1_0000_0000) as u64
                };
                Machine { regs: m.regs.update(d, kept), compared: None, ..m }
            }
        },
        Act::Multiply { d, s } => Machine {
            regs: m.regs.update(
                d,
                ((m.regs[d] as nat * m.regs[s] as nat) % 0x1_0000_0000_0000_0000) as u64,
            ),
            compared: None,
            ..m
        },
        Act::ShiftLeft { d, by } => Machine {
            regs: m.regs.update(d, m.regs[d] << ((by % 64) as u32)),
            compared: None,
            ..m
        },
        Act::ShiftRight { d, by } => Machine {
            regs: m.regs.update(d, m.regs[d] >> ((by % 64) as u32)),
            compared: None,
            ..m
        },
        _ => m,
    }
}

/// Whether a jump is taken, by the flags that the last comparison left: zero,
/// and borrow.
pub open spec fn jumps(m: Machine, condition: int) -> bool {
    match m.compared {
        Some((a, b)) => {
            let zero = a - b == 0;
            let borrow = a - b < 0;
            if condition == 2 {
                borrow
            } else if condition == 3 {
                !borrow
            } else if condition == 4 {
                zero
            } else if condition == 5 {
                !zero
            } else {
                arbitrary()
            }
        },
        None => arbitrary(),
    }
}

proof fn lemma_four(v: u32, front: Seq<u8>, rest: Seq<u8>)
    ensures
        four_at(front + crate::x86::le32(v) + rest, front.len() as int) == v,
{
    let b = front + crate::x86::le32(v) + rest;
    let n = front.len() as int;
    assert(b[n] == (v % 256) as u8);
    assert(b[n + 1] == (v / 0x100 % 256) as u8);
    assert(b[n + 2] == (v / 0x1_0000 % 256) as u8);
    assert(b[n + 3] == (v / 0x100_0000 % 256) as u8);
    assert(v % 256 + 0x100 * (v / 0x100 % 256) + 0x1_0000 * (v / 0x1_0000 % 256) + 0x100_0000 * (v
        / 0x100_0000 % 256) == v) by (bit_vector);
}

proof fn lemma_eight(v: u64, front: Seq<u8>, rest: Seq<u8>)
    ensures
        eight_at(front + crate::x86::le64(v) + rest, front.len() as int) == v,
{
    let low = (v % 0x1_0000_0000) as u32;
    let high = (v / 0x1_0000_0000) as u32;
    let b = front + crate::x86::le64(v) + rest;
    assert(b =~= front + crate::x86::le32(low) + (crate::x86::le32(high) + rest));
    lemma_four(low, front, crate::x86::le32(high) + rest);
    assert(b =~= (front + crate::x86::le32(low)) + crate::x86::le32(high) + rest);
    lemma_four(high, front + crate::x86::le32(low), rest);
}

/// Prefix and ModRM bytes come apart again.
proof fn lemma_fields(w: bool, r: u8, x: u8, b: u8, mode: u8)
    requires
        r < 16,
        x < 16,
        b < 16,
        mode < 4,
    ensures
        ({
            let rex = crate::x86::rex_byte(w, r, x, b) as int;
            &&& 0x40 <= rex < 0x50
            &&& ((rex - 0x40) / 8 % 2 == 1) == w
            &&& 8 * ((rex - 0x40) / 4 % 2) == 8 * (r / 8)
            &&& 8 * ((rex - 0x40) / 2 % 2) == 8 * (x / 8)
            &&& 8 * ((rex - 0x40) % 2) == 8 * (b / 8)
        }),
        ({
            let m = crate::x86::modrm_byte(mode, r, b) as int;
            &&& m / 64 == mode
            &&& m / 8 % 8 == r % 8
            &&& m % 8 == b % 8
        }),
        ({
            let m = crate::x86::modrm_byte(mode, x, b) as int;
            &&& m / 64 == mode
            &&& m / 8 % 8 == x % 8
            &&& m % 8 == b % 8
        }),
{
    let rr: int = r as int / 8;
    let xx: int = x as int / 8;
    let bb: int = b as int / 8;
    assert(0 <= rr <= 1 && 0 <= xx <= 1 && 0 <= bb <= 1);
}

proof fn lemma_descriptor(rest: Seq<u8>)
    ensures
        decoded((Insn::LoadDescriptor).bytes(0) + rest) == Some(
            (Act::Locate { d: 0, disp: -39 }, 7int),
        ),
{
    reveal(decoded);
    let b = (Insn::LoadDescriptor).bytes(0) + rest;
    let front = seq![0x48u8, 0x8D, 0x05];
    assert(b =~= front + crate::x86::le32(0xFFFF_FFD9) + rest);
    lemma_four(0xFFFF_FFD9, front, rest);
}

proof fn lemma_arm(rest: Seq<u8>)
    ensures
        decoded((Insn::Arm).bytes(0) + rest) == Some(
            (Act::Store { s: 0, base: 7, index: None, disp: 8 }, 4int),
        ),
{
    reveal(decoded);
    let b = (Insn::Arm).bytes(0) + rest;
    assert(b[0] == 0x48 && b[1] == 0x89 && b[2] == 0x47 && b[3] == 0x08);
}

proof fn lemma_cpu_id(d: u8, rest: Seq<u8>)
    requires
        d < 16,
    ensures
        decoded((Insn::LoadCpuId { d }).bytes(0) + rest) == Some(
            (
                Act::Load { wide: false, d: d as int, base: 7, index: None, disp: 4 },
                (Insn::LoadCpuId { d }).bytes(0).len() as int,
            ),
        ),
{
    reveal(decoded);
    let b = (Insn::LoadCpuId { d }).bytes(0) + rest;
    lemma_fields(false, d, 0, 7, 1);
    if d >= 8 {
        assert(b[0] == crate::x86::rex_byte(false, d, 0, 7));
        assert(b[1] == 0x8B && b[2] == crate::x86::modrm_byte(1, d, 7) && b[3] == 4);
    } else {
        assert(b[0] == 0x8B && b[1] == crate::x86::modrm_byte(1, d, 7) && b[2] == 4);
    }
}

proof fn lemma_immediate(d: u8, v: u64, rest: Seq<u8>)
    requires
        d < 16,
    ensures
        decoded((Insn::MovImm { d, v }).bytes(0) + rest) == Some(
            (Act::Put { d: d as int, v: v as int }, 10int),
        ),
{
    reveal(decoded);
    let b = (Insn::MovImm { d, v }).bytes(0) + rest;
    lemma_fields(true, 0, 0, d, 0);
    let front = seq![crate::x86::rex_byte(true, 0, 0, d), (0xB8 + d % 8) as u8];
    assert(b =~= front + crate::x86::le64(v) + rest);
    lemma_eight(v, front, rest);
}

proof fn lemma_param(d: u8, disp: u32, rest: Seq<u8>)
    requires
        d < 16,
    ensures
        decoded((Insn::LoadParam { d, disp }).bytes(0) + rest) == Some(
            (
                Act::Load {
                    wide: true,
                    d: d as int,
                    base: 2,
                    index: None,
                    disp: signed32(disp as int),
                },
                7int,
            ),
        ),
{
    reveal(decoded);
    let b = (Insn::LoadParam { d, disp }).bytes(0) + rest;
    lemma_fields(true, d, 0, 2, 2);
    let front = seq![
        crate::x86::rex_byte(true, d, 0, 2),
        0x8Bu8,
        crate::x86::modrm_byte(2, d, 2),
    ];
    assert(b =~= front + crate::x86::le32(disp) + rest);
    lemma_four(disp, front, rest);
}

proof fn lemma_base(disp: u32, rest: Seq<u8>)
    ensures
        decoded((Insn::LoadBase { disp }).bytes(0) + rest) == Some(
            (
                Act::Load { wide: true, d: 0, base: 6, index: None, disp: signed32(disp as int) },
                7int,
            ),
        ),
{
    reveal(decoded);
    let b = (Insn::LoadBase { disp }).bytes(0) + rest;
    lemma_fields(true, 0, 0, 6, 2);
    let front = seq![
        crate::x86::rex_byte(true, 0, 0, 6),
        0x8Bu8,
        crate::x86::modrm_byte(2, 0, 6),
    ];
    assert(b =~= front + crate::x86::le32(disp) + rest);
    lemma_four(disp, front, rest);
}

proof fn lemma_load_disp(d: u8, disp: u32, rest: Seq<u8>)
    requires
        d < 16,
    ensures
        decoded((Insn::LoadDisp { d, disp }).bytes(0) + rest) == Some(
            (
                Act::Load {
                    wide: true,
                    d: d as int,
                    base: 0,
                    index: None,
                    disp: signed32(disp as int),
                },
                7int,
            ),
        ),
{
    reveal(decoded);
    let b = (Insn::LoadDisp { d, disp }).bytes(0) + rest;
    lemma_fields(true, d, 0, 0, 2);
    let front = seq![
        crate::x86::rex_byte(true, d, 0, 0),
        0x8Bu8,
        crate::x86::modrm_byte(2, d, 0),
    ];
    assert(b =~= front + crate::x86::le32(disp) + rest);
    lemma_four(disp, front, rest);
}

proof fn lemma_store_disp(s: u8, disp: u32, rest: Seq<u8>)
    requires
        s < 16,
    ensures
        decoded((Insn::StoreDisp { s, disp }).bytes(0) + rest) == Some(
            (Act::Store { s: s as int, base: 0, index: None, disp: signed32(disp as int) }, 7int),
        ),
{
    reveal(decoded);
    let b = (Insn::StoreDisp { s, disp }).bytes(0) + rest;
    lemma_fields(true, s, 0, 0, 2);
    let front = seq![
        crate::x86::rex_byte(true, s, 0, 0),
        0x89u8,
        crate::x86::modrm_byte(2, s, 0),
    ];
    assert(b =~= front + crate::x86::le32(disp) + rest);
    lemma_four(disp, front, rest);
}

proof fn lemma_load_indexed(d: u8, i: u8, rest: Seq<u8>)
    requires
        d < 16,
        i < 16,
        i != 4,
    ensures
        decoded((Insn::LoadIndexed { d, i }).bytes(0) + rest) == Some(
            (Act::Load { wide: true, d: d as int, base: 0, index: Some(i as int), disp: 0 }, 4int),
        ),
{
    reveal(decoded);
    let b = (Insn::LoadIndexed { d, i }).bytes(0) + rest;
    lemma_fields(true, d, i, 0, 3);
    lemma_fields(true, d, i, 4, 0);
    assert(b[0] == crate::x86::rex_byte(true, d, i, 0) && b[1] == 0x8B);
    assert(b[2] == crate::x86::modrm_byte(0, d, 4) && b[3] == crate::x86::modrm_byte(3, i, 0));
}

proof fn lemma_store_indexed(s: u8, i: u8, rest: Seq<u8>)
    requires
        s < 16,
        i < 16,
        i != 4,
    ensures
        decoded((Insn::StoreIndexed { s, i }).bytes(0) + rest) == Some(
            (Act::Store { s: s as int, base: 0, index: Some(i as int), disp: 0 }, 4int),
        ),
{
    reveal(decoded);
    let b = (Insn::StoreIndexed { s, i }).bytes(0) + rest;
    lemma_fields(true, s, i, 0, 3);
    lemma_fields(true, s, i, 4, 0);
    assert(b[0] == crate::x86::rex_byte(true, s, i, 0) && b[1] == 0x89);
    assert(b[2] == crate::x86::modrm_byte(0, s, 4) && b[3] == crate::x86::modrm_byte(3, i, 0));
}

proof fn lemma_combine(op: Alu, d: u8, s: u8, rest: Seq<u8>)
    requires
        d < 16,
        s < 16,
    ensures
        decoded((Insn::Alu { op, d, s }).bytes(0) + rest) == Some(
            (
                Act::Combine {
                    opcode: op.opcode_spec() as int,
                    wide: true,
                    d: d as int,
                    s: s as int,
                },
                3int,
            ),
        ),
{
    reveal(decoded);
    let b = (Insn::Alu { op, d, s }).bytes(0) + rest;
    lemma_fields(true, s, 0, d, 3);
    assert(b[0] == crate::x86::rex_byte(true, s, 0, d) && b[1] == op.opcode_spec());
    assert(b[2] == crate::x86::modrm_byte(3, s, d));
}

proof fn lemma_multiply(d: u8, s: u8, rest: Seq<u8>)
    requires
        d < 16,
        s < 16,
    ensures
        decoded((Insn::Imul { d, s }).bytes(0) + rest) == Some(
            (Act::Multiply { d: d as int, s: s as int }, 4int),
        ),
{
    reveal(decoded);
    let b = (Insn::Imul { d, s }).bytes(0) + rest;
    lemma_fields(true, d, 0, s, 3);
    assert(b[0] == crate::x86::rex_byte(true, d, 0, s) && b[1] == 0x0F && b[2] == 0xAF);
    assert(b[3] == crate::x86::modrm_byte(3, d, s));
}

proof fn lemma_shift_left(d: u8, amount: u8, rest: Seq<u8>)
    requires
        d < 16,
    ensures
        decoded((Insn::Shl { d, amount }).bytes(0) + rest) == Some(
            (Act::ShiftLeft { d: d as int, by: amount as int }, 4int),
        ),
{
    reveal(decoded);
    let b = (Insn::Shl { d, amount }).bytes(0) + rest;
    lemma_fields(true, 4, 0, d, 3);
    lemma_fields(true, 0, 0, d, 3);
    assert(b[0] == crate::x86::rex_byte(true, 0, 0, d) && b[1] == 0xC1);
    assert(b[2] == crate::x86::modrm_byte(3, 4, d) && b[3] == amount);
}

proof fn lemma_shift_right(d: u8, amount: u8, rest: Seq<u8>)
    requires
        d < 16,
    ensures
        decoded((Insn::Shr { d, amount }).bytes(0) + rest) == Some(
            (Act::ShiftRight { d: d as int, by: amount as int }, 4int),
        ),
{
    reveal(decoded);
    let b = (Insn::Shr { d, amount }).bytes(0) + rest;
    lemma_fields(true, 5, 0, d, 3);
    lemma_fields(true, 0, 0, d, 3);
    assert(b[0] == crate::x86::rex_byte(true, 0, 0, d) && b[1] == 0xC1);
    assert(b[2] == crate::x86::modrm_byte(3, 5, d) && b[3] == amount);
}

proof fn lemma_jump(cond: Cond, jump: u32, rest: Seq<u8>)
    ensures
        decoded((Insn::JumpExit { cond }).bytes(jump) + rest) == Some(
            (
                Act::JumpIf {
                    condition: crate::x86::jump_code(cond) - 0x80,
                    disp: signed32(jump as int),
                },
                6int,
            ),
        ),
{
    reveal(decoded);
    let b = (Insn::JumpExit { cond }).bytes(jump) + rest;
    let front = seq![0x0Fu8, crate::x86::jump_code(cond)];
    assert(b =~= front + crate::x86::le32(jump) + rest);
    lemma_four(jump, front, rest);
    assert(b[0] == 0x0F && b[1] == crate::x86::jump_code(cond));
}

proof fn lemma_zero(rest: Seq<u8>)
    ensures
        decoded((Insn::ZeroRax).bytes(0) + rest) == Some(
            (Act::Combine { opcode: 0x31, wide: false, d: 0, s: 0 }, 2int),
        ),
{
    reveal(decoded);
    let b = (Insn::ZeroRax).bytes(0) + rest;
    assert(b[0] == 0x31 && b[1] == 0xC0);
}

proof fn lemma_minus_one(rest: Seq<u8>)
    ensures
        decoded((Insn::MinusOneRax).bytes(0) + rest) == Some(
            (Act::Put { d: 0, v: 0xffff_ffff_ffff_ffff }, 7int),
        ),
{
    reveal(decoded);
    let b = (Insn::MinusOneRax).bytes(0) + rest;
    assert(b[0] == 0x48 && b[1] == 0xC7 && b[2] == 0xC0);
    assert(b[3] == 0xFF && b[4] == 0xFF && b[5] == 0xFF && b[6] == 0xFF);
}

proof fn lemma_return(rest: Seq<u8>)
    ensures
        decoded((Insn::Ret).bytes(0) + rest) == Some((Act::Return, 1int)),
{
    reveal(decoded);
    let b = (Insn::Ret).bytes(0) + rest;
    assert(b[0] == 0xC3);
}

/// What is decoded at address `pc` takes as many bytes as the instruction and
/// does what the instruction is meant to do. A jump is taken exactly when the
/// comparison says so, and goes where its displacement takes it.
#[verifier::opaque]
pub open spec fn means(
    at: Surroundings,
    pc: int,
    m: Machine,
    insn: Insn,
    jump: u32,
    got: Option<(Act, int)>,
) -> bool {
    &&& got is Some
    &&& got.unwrap().1 == insn.bytes(jump).len()
    &&& match insn {
        Insn::Ret => got.unwrap().0 is Return,
        Insn::JumpExit { cond } => {
            &&& got.unwrap().0 is JumpIf
            &&& jumps(m, got.unwrap().0->condition) == m.taken(cond)
            &&& got.unwrap().0->JumpIf_disp == crate::machine::signed(jump)
        },
        _ => {
            &&& !(got.unwrap().0 is Return) && !(got.unwrap().0 is JumpIf)
            &&& performed(at, pc + got.unwrap().1, m, got.unwrap().0) == m.step(at, insn)
        },
    }
}

proof fn means_descriptor(at: Surroundings, pc: int, m: Machine, jump: u32, rest: Seq<u8>)
    requires
        m.regs.len() == 16,
        pc == at.descriptor + 32,
    ensures
        means(
            at,
            pc,
            m,
            (Insn::LoadDescriptor),
            jump,
            decoded((Insn::LoadDescriptor).bytes(jump) + rest),
        ),
{
    reveal(means);
    lemma_descriptor(rest);
}

proof fn means_arm(at: Surroundings, pc: int, m: Machine, jump: u32, rest: Seq<u8>)
    requires
        m.regs.len() == 16,
    ensures
        means(at, pc, m, (Insn::Arm), jump, decoded((Insn::Arm).bytes(jump) + rest)),
{
    reveal(means);
    lemma_arm(rest);
}

proof fn means_cpu_id(at: Surroundings, pc: int, m: Machine, d: u8, jump: u32, rest: Seq<u8>)
    requires
        d < 16,
        m.regs.len() == 16,
    ensures
        means(
            at,
            pc,
            m,
            (Insn::LoadCpuId { d }),
            jump,
            decoded((Insn::LoadCpuId { d }).bytes(jump) + rest),
        ),
{
    reveal(means);
    lemma_cpu_id(d, rest);
}

proof fn means_immediate(
    at: Surroundings,
    pc: int,
    m: Machine,
    d: u8,
    v: u64,
    jump: u32,
    rest: Seq<u8>,
)
    requires
        d < 16,
        m.regs.len() == 16,
    ensures
        means(
            at,
            pc,
            m,
            (Insn::MovImm { d, v }),
            jump,
            decoded((Insn::MovImm { d, v }).bytes(jump) + rest),
        ),
{
    reveal(means);
    lemma_immediate(d, v, rest);
}

proof fn means_param(
    at: Surroundings,
    pc: int,
    m: Machine,
    d: u8,
    disp: u32,
    jump: u32,
    rest: Seq<u8>,
)
    requires
        d < 16,
        m.regs.len() == 16,
    ensures
        means(
            at,
            pc,
            m,
            (Insn::LoadParam { d, disp }),
            jump,
            decoded((Insn::LoadParam { d, disp }).bytes(jump) + rest),
        ),
{
    reveal(means);
    lemma_param(d, disp, rest);
}

proof fn means_base(at: Surroundings, pc: int, m: Machine, disp: u32, jump: u32, rest: Seq<u8>)
    requires
        m.regs.len() == 16,
    ensures
        means(
            at,
            pc,
            m,
            (Insn::LoadBase { disp }),
            jump,
            decoded((Insn::LoadBase { disp }).bytes(jump) + rest),
        ),
{
    reveal(means);
    lemma_base(disp, rest);
}

proof fn means_load_indexed(
    at: Surroundings,
    pc: int,
    m: Machine,
    d: u8,
    i: u8,
    jump: u32,
    rest: Seq<u8>,
)
    requires
        d < 16,
        i < 16,
        i != 4,
        m.regs.len() == 16,
    ensures
        means(
            at,
            pc,
            m,
            (Insn::LoadIndexed { d, i }),
            jump,
            decoded((Insn::LoadIndexed { d, i }).bytes(jump) + rest),
        ),
{
    reveal(means);
    lemma_load_indexed(d, i, rest);
}

proof fn means_load_disp(
    at: Surroundings,
    pc: int,
    m: Machine,
    d: u8,
    disp: u32,
    jump: u32,
    rest: Seq<u8>,
)
    requires
        d < 16,
        m.regs.len() == 16,
    ensures
        means(
            at,
            pc,
            m,
            (Insn::LoadDisp { d, disp }),
            jump,
            decoded((Insn::LoadDisp { d, disp }).bytes(jump) + rest),
        ),
{
    reveal(means);
    lemma_load_disp(d, disp, rest);
}

proof fn means_store_indexed(
    at: Surroundings,
    pc: int,
    m: Machine,
    s: u8,
    i: u8,
    jump: u32,
    rest: Seq<u8>,
)
    requires
        s < 16,
        i < 16,
        i != 4,
        m.regs.len() == 16,
    ensures
        means(
            at,
            pc,
            m,
            (Insn::StoreIndexed { s, i }),
            jump,
            decoded((Insn::StoreIndexed { s, i }).bytes(jump) + rest),
        ),
{
    reveal(means);
    lemma_store_indexed(s, i, rest);
}

proof fn means_store_disp(
    at: Surroundings,
    pc: int,
    m: Machine,
    s: u8,
    disp: u32,
    jump: u32,
    rest: Seq<u8>,
)
    requires
        s < 16,
        m.regs.len() == 16,
    ensures
        means(
            at,
            pc,
            m,
            (Insn::StoreDisp { s, disp }),
            jump,
            decoded((Insn::StoreDisp { s, disp }).bytes(jump) + rest),
        ),
{
    reveal(means);
    lemma_store_disp(s, disp, rest);
}

proof fn means_combine(
    at: Surroundings,
    pc: int,
    m: Machine,
    op: Alu,
    d: u8,
    s: u8,
    jump: u32,
    rest: Seq<u8>,
)
    requires
        d < 16,
        s < 16,
        m.regs.len() == 16,
    ensures
        means(
            at,
            pc,
            m,
            (Insn::Alu { op, d, s }),
            jump,
            decoded((Insn::Alu { op, d, s }).bytes(jump) + rest),
        ),
{
    reveal(means);
    lemma_combine(op, d, s, rest);
}

proof fn means_multiply(
    at: Surroundings,
    pc: int,
    m: Machine,
    d: u8,
    s: u8,
    jump: u32,
    rest: Seq<u8>,
)
    requires
        d < 16,
        s < 16,
        m.regs.len() == 16,
    ensures
        means(
            at,
            pc,
            m,
            (Insn::Imul { d, s }),
            jump,
            decoded((Insn::Imul { d, s }).bytes(jump) + rest),
        ),
{
    reveal(means);
    lemma_multiply(d, s, rest);
}

proof fn means_shift_left(
    at: Surroundings,
    pc: int,
    m: Machine,
    d: u8,
    amount: u8,
    jump: u32,
    rest: Seq<u8>,
)
    requires
        d < 16,
        m.regs.len() == 16,
    ensures
        means(
            at,
            pc,
            m,
            (Insn::Shl { d, amount }),
            jump,
            decoded((Insn::Shl { d, amount }).bytes(jump) + rest),
        ),
{
    reveal(means);
    lemma_shift_left(d, amount, rest);
}

proof fn means_shift_right(
    at: Surroundings,
    pc: int,
    m: Machine,
    d: u8,
    amount: u8,
    jump: u32,
    rest: Seq<u8>,
)
    requires
        d < 16,
        m.regs.len() == 16,
    ensures
        means(
            at,
            pc,
            m,
            (Insn::Shr { d, amount }),
            jump,
            decoded((Insn::Shr { d, amount }).bytes(jump) + rest),
        ),
{
    reveal(means);
    lemma_shift_right(d, amount, rest);
}

proof fn means_jump(at: Surroundings, pc: int, m: Machine, cond: Cond, jump: u32, rest: Seq<u8>)
    requires
        m.regs.len() == 16,
    ensures
        means(
            at,
            pc,
            m,
            (Insn::JumpExit { cond }),
            jump,
            decoded((Insn::JumpExit { cond }).bytes(jump) + rest),
        ),
{
    reveal(means);
    lemma_jump(cond, jump, rest);
}

proof fn means_zero(at: Surroundings, pc: int, m: Machine, jump: u32, rest: Seq<u8>)
    requires
        m.regs.len() == 16,
    ensures
        means(at, pc, m, (Insn::ZeroRax), jump, decoded((Insn::ZeroRax).bytes(jump) + rest)),
{
    reveal(means);
    lemma_zero(rest);
    assert(m.regs[0] ^ m.regs[0] == 0) by {
        let a = m.regs[0];
        assert(a ^ a == 0) by (bit_vector);
    }
}

proof fn means_minus_one(at: Surroundings, pc: int, m: Machine, jump: u32, rest: Seq<u8>)
    requires
        m.regs.len() == 16,
    ensures
        means(
            at,
            pc,
            m,
            (Insn::MinusOneRax),
            jump,
            decoded((Insn::MinusOneRax).bytes(jump) + rest),
        ),
{
    reveal(means);
    lemma_minus_one(rest);
}

proof fn means_return(at: Surroundings, pc: int, m: Machine, jump: u32, rest: Seq<u8>)
    requires
        m.regs.len() == 16,
    ensures
        means(at, pc, m, (Insn::Ret), jump, decoded((Insn::Ret).bytes(jump) + rest)),
{
    reveal(means);
    lemma_return(rest);
}

/// The bytes of every instruction decode to an instruction of that length
/// which does what the instruction is meant to do, whatever bytes follow. (An
/// index register has no number 4: that number says that there is none.)
pub proof fn law_bytes_mean_the_instruction(
    at: Surroundings,
    pc: int,
    m: Machine,
    insn: Insn,
    jump: u32,
    rest: Seq<u8>,
)
    requires
        insn.encodable(),
        m.regs.len() == 16,
        insn is LoadDescriptor ==> pc == at.descriptor + 32,
        insn matches Insn::LoadIndexed { i, .. } ==> i != 4,
        insn matches Insn::StoreIndexed { i, .. } ==> i != 4,
    ensures
        means(at, pc, m, insn, jump, decoded(insn.bytes(jump) + rest)),
{
    match insn {
        Insn::LoadDescriptor => means_descriptor(at, pc, m, jump, rest),
        Insn::Arm => means_arm(at, pc, m, jump, rest),
        Insn::LoadCpuId { d } => means_cpu_id(at, pc, m, d, jump, rest),
        Insn::MovImm { d, v } => means_immediate(at, pc, m, d, v, jump, rest),
        Insn::LoadParam { d, disp } => means_param(at, pc, m, d, disp, jump, rest),
        Insn::LoadBase { disp } => means_base(at, pc, m, disp, jump, rest),
        Insn::LoadIndexed { d, i } => means_load_indexed(at, pc, m, d, i, jump, rest),
        Insn::LoadDisp { d, disp } => means_load_disp(at, pc, m, d, disp, jump, rest),
        Insn::StoreIndexed { s, i } => means_store_indexed(at, pc, m, s, i, jump, rest),
        Insn::StoreDisp { s, disp } => means_store_disp(at, pc, m, s, disp, jump, rest),
        Insn::Alu { op, d, s } => means_combine(at, pc, m, op, d, s, jump, rest),
        Insn::Imul { d, s } => means_multiply(at, pc, m, d, s, jump, rest),
        Insn::Shl { d, amount } => means_shift_left(at, pc, m, d, amount, jump, rest),
        Insn::Shr { d, amount } => means_shift_right(at, pc, m, d, amount, jump, rest),
        Insn::JumpExit { cond } => means_jump(at, pc, m, cond, jump, rest),
        Insn::ZeroRax => means_zero(at, pc, m, jump, rest),
        Insn::MinusOneRax => means_minus_one(at, pc, m, jump, rest),
        Insn::Ret => means_return(at, pc, m, jump, rest),
    }
}

/// An instruction for which the bytes stand wherever it is placed.
pub open spec fn ordinary(insn: Insn) -> bool {
    &&& insn.encodable()
    &&& !(insn is LoadDescriptor)
    &&& insn matches Insn::LoadIndexed { i, .. } ==> i != 4
    &&& insn matches Insn::StoreIndexed { i, .. } ==> i != 4
}

/// All code of a well-shaped program is made of ordinary instructions.
proof fn lemma_code_is_ordinary(
    decls: Seq<RegionDecl>,
    ops: Seq<Op>,
    ret: Option<Operand>,
    n: int,
)
    requires
        crate::ir::well_shaped(decls, ops, ret),
        0 <= n <= ops.len(),
        crate::codegen::code_until(ops, ret, n) is Ok,
    ensures
        forall|k: int|
            0 <= k < crate::codegen::code_until(ops, ret, n)->Ok_0.0.len() ==> ordinary(
                #[trigger] crate::codegen::code_until(ops, ret, n)->Ok_0.0[k],
            ),
    decreases n,
{
    if n > 0 {
        lemma_code_is_ordinary(decls, ops, ret, n - 1);
        crate::machine::law_registers_are_exclusive(ops, ret, n - 1);
        crate::codegen::lemma_operands_placed(decls, ops, ret, n - 1);
        let (code, a) = crate::codegen::code_until(ops, ret, n - 1)->Ok_0;
        let op = ops[n - 1];
        let more = crate::codegen::op_code(op, a)->Ok_0.0;
        assert forall|o: Operand, r: Reg|
            op.uses().contains(o) && o == Operand::Reg(r) implies #[trigger] a.regs.dom().contains(
            r,
        ) && crate::codegen::in_pool(a.regs[r]) && #[trigger] op.uses().contains(o) by {
            let k = choose|k: int| 0 <= k < op.uses().len() && op.uses()[k] == o;
            assert(op.uses()[k] == o);
        }
        assert forall|k: int| 0 <= k < op.uses().len() implies op.uses().contains(
            #[trigger] op.uses()[k],
        ) by {}
        if op.dst() is Some {
            assert(crate::codegen::in_pool(a.free[0]));
        }
        assert forall|k: int| 0 <= k < more.len() implies ordinary(#[trigger] more[k]) by {
            match op {
                Op::Load { addr, .. } => {
                    assert(op.uses()[0] == addr.index);
                },
                Op::Bin { lhs, rhs, .. } => {
                    assert(op.uses()[0] == lhs && op.uses()[1] == rhs);
                },
                Op::ExitIf { lhs, rhs, .. } => {
                    assert(op.uses()[0] == lhs && op.uses()[1] == rhs);
                },
                Op::StoreScratch { addr, src } => {
                    assert(op.uses()[0] == addr.index && op.uses()[1] == src);
                },
                Op::Commit { addr, src } => {
                    assert(op.uses()[0] == addr.index && op.uses()[1] == src);
                },
                _ => {},
            }
        }
        let all = crate::codegen::code_until(ops, ret, n)->Ok_0.0;
        assert forall|k: int| 0 <= k < all.len() implies ordinary(#[trigger] all[k]) by {
            if k < code.len() {
                assert(all[k] == code[k]);
            } else {
                assert(all[k] == more[k - code.len()]);
            }
        }
    }
}

/// Where instruction `k` is in the code, the bytes of that instruction are.
proof fn lemma_bytes_in_place(parts: Assembly, base: int, k: int)
    requires
        0 <= k < parts.listing().len(),
    ensures
        ({
            let listing = parts.listing();
            let image = crate::codegen::mapped_bytes(parts, base);
            let off = crate::x86::offset_after(listing.take(k));
            let jump = if listing[k] is JumpExit {
                crate::x86::displacement(
                    parts.exit(),
                    off + 6,
                )
            } else {
                0
            };
            let size = listing[k].bytes(jump).len() as int;
            &&& 32 <= off < image.len()
            &&& off + size == crate::x86::offset_after(listing.take(k + 1))
            &&& off + size <= image.len()
            &&& image.skip(off) == listing[k].bytes(jump) + image.skip(off + size)
        }),
{
    let listing = parts.listing();
    let image = crate::codegen::mapped_bytes(parts, base);
    let all = crate::x86::encode(listing, crate::x86::exit_jumps(listing), parts.exit());
    let off = crate::x86::offset_after(listing.take(k));
    let jump = if listing[k] is JumpExit {
        crate::x86::displacement(parts.exit(), off + 6)
    } else {
        0
    };
    let size = listing[k].bytes(jump).len() as int;
    crate::x86::lemma_encode_at(listing, parts.exit(), k);
    assert(size > 0) by {
        lemma_some_bytes(listing[k], jump);
    }
    lemma_image(parts, base);
    assert forall|i: int| 0 <= i < size implies #[trigger] image[off + i]
        == listing[k].bytes(jump)[i] by {
        let j = off - 32 + i;
        assert(all.subrange(off - 32, off - 32 + size)[i] == all[j]);
        assert(image[32 + j] == all[j]);
    }
    assert(image.skip(off) =~= listing[k].bytes(jump) + image.skip(off + size));
}

proof fn lemma_some_bytes(insn: Insn, jump: u32)
    ensures
        insn.bytes(jump).len() > 0,
{
}

/// The instructions stand behind the descriptor.
proof fn lemma_image(parts: Assembly, base: int)
    ensures
        ({
            let listing = parts.listing();
            let all = crate::x86::encode(listing, crate::x86::exit_jumps(listing), parts.exit());
            let image = crate::codegen::mapped_bytes(parts, base);
            &&& 32 + all.len() <= image.len()
            &&& forall|j: int| 0 <= j < all.len() ==> #[trigger] image[32 + j] == all[j]
        }),
{
    let listing = parts.listing();
    let all = crate::x86::encode(listing, crate::x86::exit_jumps(listing), parts.exit());
    let image = crate::codegen::mapped_bytes(parts, base);
    let code = parts.bytes();
    assert forall|j: int| 0 <= j < all.len() implies #[trigger] image[32 + j] == all[j] by {
        assert(code[32 + j] == all[j]);
        assert(code.skip(32)[j] == code[32 + j]);
    }
}

/// Run the bytes of `code`, which is mapped at `base`, from offset `pc` on
/// until they return, for at most `fuel` instructions.
pub open spec fn run_bytes(
    at: Surroundings,
    base: int,
    code: Seq<u8>,
    pc: int,
    m: Machine,
    fuel: nat,
) -> Option<Machine>
    decreases fuel,
{
    if fuel == 0 || pc < 0 || pc >= code.len() {
        None
    } else {
        match decoded(code.skip(pc)) {
            None => None,
            Some((act, len)) => match act {
                Act::Return => Some(m),
                Act::JumpIf { condition, disp } => run_bytes(
                    at,
                    base,
                    code,
                    if jumps(m, condition) {
                        pc + len + disp
                    } else {
                        pc + len
                    },
                    m,
                    (fuel - 1) as nat,
                ),
                _ => run_bytes(
                    at,
                    base,
                    code,
                    pc + len,
                    performed(at, base + pc + len, m, act),
                    (fuel - 1) as nat,
                ),
            },
        }
    }
}

proof fn lemma_run_from(
    at: Surroundings,
    parts: Assembly,
    base: int,
    k: int,
    m: Machine,
    fuel: nat,
)
    requires
        0 <= k <= parts.listing().len(),
        fuel >= parts.listing().len() - k,
        forall|i: int| 0 < i < parts.listing().len() ==> ordinary(#[trigger] parts.listing()[i]),
        forall|i: int|
            parts.committed().len() <= i < parts.listing().len() ==> !(
            #[trigger] parts.listing()[i] is JumpExit),
        parts.bytes().len() < 0x8000_0000,
        at.descriptor == base,
        m.regs.len() == 16,
        k < parts.listing().len(),
    ensures
        run_bytes(
            at,
            base,
            crate::codegen::mapped_bytes(parts, base),
            crate::x86::offset_after(parts.listing().take(k)),
            m,
            fuel,
        ) == crate::machine::execute(
            at,
            parts.listing(),
            parts.committed().len() as int,
            k,
            m,
        ),
    decreases parts.listing().len() - k,
{
    let listing = parts.listing();
    let exit = parts.committed().len() as int;
    let image = crate::codegen::mapped_bytes(parts, base);
    let off = crate::x86::offset_after(listing.take(k));
    let insn = listing[k];
    let jump = if insn is JumpExit {
        crate::x86::displacement(parts.exit(), off + 6)
    } else {
        0
    };
    let size = insn.bytes(jump).len() as int;
    lemma_bytes_in_place(parts, base, k);
    if k == 0 {
        assert(listing[0] == Insn::LoadDescriptor);
        assert(listing.take(0) =~= Seq::<Insn>::empty());
        assert(off == 32);
    } else {
        assert(ordinary(listing[k]));
    }
    law_bytes_mean_the_instruction(at, base + off, m, insn, jump, image.skip(off + size));
    reveal(means);
    let got = decoded(image.skip(off)).unwrap();
    assert(off + size == crate::x86::offset_after(listing.take(k + 1)));
    assert(listing.last() == Insn::Ret);
    match insn {
        Insn::Ret => {},
        Insn::JumpExit { cond } => {
            assert(size == 6);
            assert(listing.take(exit) =~= parts.committed());
            crate::x86::lemma_prefix(listing, k);
            crate::x86::lemma_prefix(listing, exit);
            crate::codegen::lemma_code_len(parts);
            crate::codegen::law_jumps_land(parts.exit(), off + 6);
            if m.taken(cond) {
                lemma_run_from(at, parts, base, exit, m, (fuel - 1) as nat);
            } else {
                lemma_run_from(at, parts, base, k + 1, m, (fuel - 1) as nat);
            }
        },
        _ => {
            lemma_run_from(at, parts, base, k + 1, m.step(at, insn), (fuel - 1) as nat);
        },
    }
}

/// The bytes of a compiled sequence, mapped at `base` and run from the entry,
/// do what its instructions do, and so what the simulator does: the decoded
/// bytes take every step and every branch of the listing, and return where it
/// returns.
pub proof fn law_mapped_bytes_run_as_compiled(
    decls: Seq<RegionDecl>,
    ops: Seq<Op>,
    ret: Option<Operand>,
    seq: CompiledSeq,
    base: u64,
    at: Surroundings,
    m: Machine,
)
    requires
        crate::ir::well_shaped(decls, ops, ret),
        crate::codegen::assembly(ops, ret) == Ok::<Assembly, CompileError>(seq.assembly()),
        seq.assembly().bytes().len() < 0x8000_0000,
        at.descriptor == base,
        m.regs.len() == 16,
    ensures
        run_bytes(
            at,
            base as int,
            crate::codegen::mapped_bytes(seq.assembly(), base as int),
            32,
            m,
            seq.assembly().listing().len(),
        ) == crate::machine::execute(
            at,
            seq.assembly().listing(),
            seq.assembly().committed().len() as int,
            0,
            m,
        ),
{
    let parts = seq.assembly();
    let listing = parts.listing();
    let n = ops.len() as int;
    lemma_code_is_ordinary(decls, ops, ret, n);
    crate::codegen::lemma_live_is_placed(ops, ret, n);
    crate::machine::law_registers_are_exclusive(ops, ret, n);
    let (window, a) = crate::codegen::code_until(ops, ret, n)->Ok_0;
    if let Some(Operand::Reg(r)) = ret {
        assert(crate::ir::defined_before(ops, n, r));
        assert(!crate::codegen::dead_after(ops, ret, n - 1, r));
        assert(a.regs.dom().contains(r));
    }
    assert forall|i: int| 0 < i < listing.len() implies ordinary(#[trigger] listing[i]) by {
        if 2 <= i < window.len() + 2 {
            assert(listing[i] == window[i - 2]);
        }
    }
    assert(listing.take(0) =~= Seq::<Insn>::empty());
    lemma_run_from(at, parts, base as int, 0, m, listing.len());
}

proof fn lemma_four_in(b: Seq<u8>, i: int, v: u32)
    requires
        0 <= i,
        i + 4 <= b.len(),
        b.subrange(i, i + 4) == crate::x86::le32(v),
    ensures
        four_at(b, i) == v,
{
    assert(b =~= b.take(i) + crate::x86::le32(v) + b.skip(i + 4)) by {
        assert forall|j: int| i <= j < i + 4 implies b[j] == crate::x86::le32(v)[j - i] by {
            assert(b.subrange(i, i + 4)[j - i] == b[j]);
        }
    }
    lemma_four(v, b.take(i), b.skip(i + 4));
}

proof fn lemma_eight_in(b: Seq<u8>, i: int, v: u64)
    requires
        0 <= i,
        i + 8 <= b.len(),
        b.subrange(i, i + 8) == crate::x86::le64(v),
    ensures
        eight_at(b, i) == v,
{
    assert(b =~= b.take(i) + crate::x86::le64(v) + b.skip(i + 8)) by {
        assert forall|j: int| i <= j < i + 8 implies b[j] == crate::x86::le64(v)[j - i] by {
            assert(b.subrange(i, i + 8)[j - i] == b[j]);
        }
    }
    lemma_eight(v, b.take(i), b.skip(i + 8));
}

/// The words of the descriptor.
proof fn lemma_descriptor_words(parts: Assembly, base: int)
    ensures
        ({
            let image = crate::codegen::mapped_bytes(parts, base);
            &&& eight_at(image, 0) == 0
            &&& eight_at(image, 8) == (base + parts.start()) as u64
            &&& eight_at(image, 16) == (parts.post() - parts.start()) as u64
            &&& eight_at(image, 24) == (base + parts.abort()) as u64
        }),
{
    let image = crate::codegen::mapped_bytes(parts, base);
    let zero = crate::x86::le64(0);
    let from = crate::x86::le64((base + parts.start()) as u64);
    let len = crate::x86::le64((parts.post() - parts.start()) as u64);
    let to = crate::x86::le64((base + parts.abort()) as u64);
    assert(crate::codegen::descriptor(parts, base) == zero + from + len + to);
    assert(image.subrange(0, 8) =~= zero);
    assert(image.subrange(8, 16) =~= from);
    assert(image.subrange(16, 24) =~= len);
    assert(image.subrange(24, 32) =~= to);
    lemma_eight_in(image, 0, 0);
    lemma_eight_in(image, 8, (base + parts.start()) as u64);
    lemma_eight_in(image, 16, (parts.post() - parts.start()) as u64);
    lemma_eight_in(image, 24, (base + parts.abort()) as u64);
}

/// The bytes behind the descriptor are those of the code.
proof fn lemma_code_in_image(parts: Assembly, base: int)
    requires
        parts.bytes().len() >= 32,
    ensures
        ({
            let code = parts.bytes();
            let image = crate::codegen::mapped_bytes(parts, base);
            &&& image.len() == crate::codegen::page_multiple(code.len() as int)
            &&& code.len() <= image.len()
            &&& forall|i: int, j: int|
                32 <= i <= j <= code.len() ==> #[trigger] image.subrange(i, j) == code.subrange(
                    i,
                    j,
                )
        }),
{
    let code = parts.bytes();
    let image = crate::codegen::mapped_bytes(parts, base);
    assert(crate::codegen::descriptor(parts, base).len() == 32);
    assert forall|i: int| 32 <= i < code.len() implies #[trigger] image[i] == code[i] by {
        assert(code.skip(32)[i - 32] == code[i]);
    }
    assert forall|i: int, j: int|
        32 <= i <= j <= code.len() implies #[trigger] image.subrange(i, j) == code.subrange(
        i,
        j,
    ) by {
        assert(image.subrange(i, j) =~= code.subrange(i, j));
    }
}

/// The offsets of the parts.
proof fn lemma_offsets(parts: Assembly)
    ensures
        ({
            let listing = parts.listing();
            let n = parts.window.len() as int;
            &&& listing.subrange(2, 2 + n) == parts.window
            &&& parts.start() == 32 + crate::x86::total_size(listing.take(2))
            &&& parts.post() == 32 + crate::x86::total_size(listing.take(2 + n))
            &&& parts.abort() == 32 + crate::x86::total_size(listing) + 4
            &&& 32 <= parts.start() <= parts.post() <= parts.abort() - 4
            &&& forall|k: int|
                0 <= k <= n ==> #[trigger] parts.window_offset(k) == 32 + crate::x86::total_size(
                    listing.take(2 + k),
                )
        }),
{
    let listing = parts.listing();
    let n = parts.window.len() as int;
    assert(listing.subrange(2, 2 + n) =~= parts.window);
    assert(listing.take(2) =~= Assembly::entry());
    assert(listing.take(2 + n) =~= parts.armed());
    assert forall|k: int| 0 <= k <= n implies #[trigger] parts.window_offset(k) == 32
        + crate::x86::total_size(listing.take(2 + k)) by {
        assert(listing.take(2 + k) =~= Assembly::entry() + parts.window.take(k));
    }
    crate::x86::lemma_prefix(listing, 2 + n);
    crate::x86::lemma_prefix(parts.armed(), 2);
    assert(parts.armed().take(2) =~= Assembly::entry());
}

/// The abort handler in the mapping.
proof fn lemma_handler_bytes(parts: Assembly, base: int)
    requires
        parts.bytes().len() < 0x8000_0000,
    ensures
        ({
            let image = crate::codegen::mapped_bytes(parts, base);
            let abort = parts.abort();
            &&& four_at(image, abort - 4) == 0x5305_3053
            &&& image[abort] == 0xE9
            &&& abort + 5 + signed32(four_at(image, abort + 1)) == 32
        }),
{
    let image = crate::codegen::mapped_bytes(parts, base);
    let abort = parts.abort();
    crate::codegen::lemma_code_len(parts);
    crate::codegen::law_abort_handler(parts);
    lemma_code_in_image(parts, base);
    lemma_offsets(parts);
    assert(image.subrange(abort - 4, abort) == parts.bytes().subrange(abort - 4, abort));
    lemma_four_in(image, abort - 4, 0x5305_3053);
    assert(image.subrange(abort + 1, abort + 5) == parts.bytes().subrange(abort + 1, abort + 5));
    lemma_four_in(image, abort + 1, crate::x86::displacement(32, abort + 5));
    assert(image.subrange(abort, abort + 1)[0] == parts.bytes().subrange(abort, abort + 1)[0]);
    crate::codegen::law_jumps_land(32, abort + 5);
}

proof fn lemma_pages(n: int)
    requires
        0 <= n,
    ensures
        crate::codegen::page_multiple(n) % 4096 == 0,
        n <= crate::codegen::page_multiple(n) < n + 4096,
{
}

/// The mapping is a whole number of pages, and the last of them is needed.
proof fn lemma_image_len(parts: Assembly, base: int)
    ensures
        ({
            let image = crate::codegen::mapped_bytes(parts, base);
            &&& image.len() % 4096 == 0
            &&& parts.abort() + 5 <= image.len() < parts.abort() + 5 + 4096
        }),
{
    crate::codegen::lemma_code_len(parts);
    lemma_pages(parts.bytes().len() as int);
    assert(crate::codegen::mapped_bytes(parts, base).len() == crate::codegen::page_multiple(
        parts.bytes().len() as int,
    )) by {
        lemma_code_in_image(parts, base);
    }
}

/// What the kernel reads in the mapping, word by word: version and flags are
/// zero; the window starts behind the two instructions of the entry and is as
/// long as the instructions of the window; the abort handler has the signature
/// right before it, and jumps to the entry. The mapping is a whole number of
/// pages, no more than it takes.
#[verifier::spinoff_prover]
#[verifier::rlimit(40)]
pub proof fn law_descriptor_names_the_window(parts: Assembly, base: u64)
    requires
        parts.bytes().len() < 0x8000_0000,
        base + parts.bytes().len() <= u64::MAX,
    ensures
        ({
            let listing = parts.listing();
            let image = crate::codegen::mapped_bytes(parts, base as int);
            let n = parts.window.len() as int;
            let window_at = eight_at(image, 8) - base;
            let window_len = eight_at(image, 16);
            let handler = eight_at(image, 24) - base;
            &&& eight_at(image, 0) == 0
            &&& listing.subrange(2, 2 + n) == parts.window
            &&& window_at == 32 + crate::x86::total_size(listing.take(2))
            &&& window_at + window_len == 32 + crate::x86::total_size(listing.take(2 + n))
            &&& handler == 32 + crate::x86::total_size(listing) + 4
            &&& four_at(image, handler - 4) == 0x5305_3053
            &&& image[handler] == 0xE9
            &&& handler + 5 + signed32(four_at(image, handler + 1)) == 32
            &&& image.len() % 4096 == 0
            &&& handler + 5 <= image.len() < handler + 5 + 4096
            &&& forall|k: int|
                0 <= k <= n ==> #[trigger] parts.window_offset(k) == 32 + crate::x86::total_size(
                    listing.take(2 + k),
                )
        }),
{
    crate::codegen::lemma_code_len(parts);
    lemma_offsets(parts);
    lemma_descriptor_words(parts, base as int);
    lemma_handler_bytes(parts, base as int);
    lemma_image_len(parts, base as int);
    assert((base + parts.start()) as u64 == base + parts.start());
    assert((base + parts.abort()) as u64 == base + parts.abort());
}

/// Code that has no address yet is the code in the mapping with zeros in place
/// of the descriptor; behind the code the mapping has zeros.
pub proof fn law_mapping_is_the_code_behind_its_descriptor(parts: Assembly, base: int, i: int)
    requires
        0 <= i < crate::codegen::mapped_bytes(parts, base).len(),
    ensures
        ({
            let code = parts.bytes();
            let image = crate::codegen::mapped_bytes(parts, base);
            &&& 32 <= code.len() <= image.len()
            &&& i < 32 ==> code[i] == 0
            &&& 32 <= i < code.len() ==> image[i] == code[i]
            &&& code.len() <= i ==> image[i] == 0
        }),
{
    let code = parts.bytes();
    let image = crate::codegen::mapped_bytes(parts, base);
    crate::codegen::lemma_code_len(parts);
    lemma_code_in_image(parts, base);
    if 32 <= i < code.len() {
        assert(image.subrange(i, i + 1)[0] == code.subrange(i, i + 1)[0]);
    }
    assert(crate::codegen::descriptor(parts, base).len() == 32);
}

} // verus!
