//! The x86-64 instructions that compiled sequences are made of, and their
//! encodings.

use vstd::prelude::*;

use crate::ir::Cond;

verus! {

// Physical register numbers.
pub const RAX: u8 = 0;

pub const RCX: u8 = 1;

pub const RDX: u8 = 2;

pub const RSI: u8 = 6;

pub const RDI: u8 = 7;

pub const R8: u8 = 8;

pub const R9: u8 = 9;

pub const R10: u8 = 10;

pub const R11: u8 = 11;

/// Operations in "r/m64, r64" form: the destination is the r/m operand.
#[derive(Clone, Copy, PartialEq, Eq, Structural, Debug)]
pub enum Alu {
    Mov,
    Add,
    Sub,
    And,
    Or,
    Xor,
    Cmp,
}

/// One instruction. `d` and `s` are destination and source registers, `i` an
/// index register that counts words.
#[derive(Clone, Copy, PartialEq, Eq, Structural, Debug)]
pub enum Insn {
    /// lea rax, [rip + descriptor], at the entry
    LoadDescriptor,
    /// mov [rdi + 8], rax
    Arm,
    /// mov d32, [rdi + 4]: a 32-bit load zero-extends
    LoadCpuId { d: u8 },
    /// movabs d, v
    MovImm { d: u8, v: u64 },
    /// mov d, [rdx + disp]
    LoadParam { d: u8, disp: u32 },
    /// mov rax, [rsi + disp]
    LoadBase { disp: u32 },
    /// mov d, [rax + i*8]
    LoadIndexed { d: u8, i: u8 },
    /// mov d, [rax + disp]
    LoadDisp { d: u8, disp: u32 },
    /// mov [rax + i*8], s
    StoreIndexed { s: u8, i: u8 },
    /// mov [rax + disp], s
    StoreDisp { s: u8, disp: u32 },
    /// op d, s
    Alu { op: Alu, d: u8, s: u8 },
    /// imul d, s
    Imul { d: u8, s: u8 },
    /// shl d, amount
    Shl { d: u8, amount: u8 },
    /// shr d, amount
    Shr { d: u8, amount: u8 },
    /// jcc to the exit stub
    JumpExit { cond: Cond },
    /// xor eax, eax
    ZeroRax,
    /// mov rax, -1
    MinusOneRax,
    /// ret
    Ret,
}

/// The REX prefix: the fourth bits of the registers, and the operand size.
pub open spec fn rex_byte(w: bool, r: u8, x: u8, b: u8) -> u8 {
    (0x40 + (if w {
        8int
    } else {
        0int
    }) + 4 * (r / 8) + 2 * (x / 8) + b / 8) as u8
}

/// The ModRM byte, and likewise the SIB byte: two bits, then twice three.
pub open spec fn modrm_byte(mode: u8, reg: u8, rm: u8) -> u8 {
    (mode * 64 + (reg % 8) * 8 + rm % 8) as u8
}

/// Four bytes, the least significant first.
pub open spec fn le32(v: u32) -> Seq<u8> {
    seq![
        (v % 256) as u8,
        (v / 0x100 % 256) as u8,
        (v / 0x1_0000 % 256) as u8,
        (v / 0x100_0000 % 256) as u8,
    ]
}

/// Eight bytes, the least significant first.
pub open spec fn le64(v: u64) -> Seq<u8> {
    le32((v % 0x1_0000_0000) as u32) + le32((v / 0x1_0000_0000) as u32)
}

impl Alu {
    pub open spec fn opcode_spec(self) -> u8 {
        match self {
            Alu::Mov => 0x89,
            Alu::Add => 0x01,
            Alu::Sub => 0x29,
            Alu::And => 0x21,
            Alu::Or => 0x09,
            Alu::Xor => 0x31,
            Alu::Cmp => 0x39,
        }
    }

    /// The opcode of the "r/m64, r64" form.
    pub fn opcode(self) -> (b: u8)
        ensures
            b == self.opcode_spec(),
    {
        match self {
            Alu::Mov => 0x89,
            Alu::Add => 0x01,
            Alu::Sub => 0x29,
            Alu::And => 0x21,
            Alu::Or => 0x09,
            Alu::Xor => 0x31,
            Alu::Cmp => 0x39,
        }
    }
}

/// The second opcode byte of the conditional jump, unsigned.
pub open spec fn jump_code(cond: Cond) -> u8 {
    match cond {
        Cond::Eq => 0x84,
        Cond::Ne => 0x85,
        Cond::Lt => 0x82,
        Cond::Ge => 0x83,
    }
}

impl Insn {
    /// The registers are those that four bits can name.
    pub open spec fn encodable(self) -> bool {
        match self {
            Insn::LoadCpuId { d } => d < 16,
            Insn::MovImm { d, .. } => d < 16,
            Insn::LoadParam { d, .. } => d < 16,
            Insn::LoadIndexed { d, i } => d < 16 && i < 16,
            Insn::LoadDisp { d, .. } => d < 16,
            Insn::StoreIndexed { s, i } => s < 16 && i < 16,
            Insn::StoreDisp { s, .. } => s < 16,
            Insn::Alu { d, s, .. } => d < 16 && s < 16,
            Insn::Imul { d, s } => d < 16 && s < 16,
            Insn::Shl { d, .. } => d < 16,
            Insn::Shr { d, .. } => d < 16,
            _ => true,
        }
    }

    /// The encoding. `jump` is the displacement of a jump, and of no account
    /// to the other instructions.
    pub open spec fn bytes(self, jump: u32) -> Seq<u8> {
        match self {
            Insn::LoadDescriptor => seq![0x48u8, 0x8D, 0x05] + le32(0xFFFF_FFD9),
            Insn::Arm => seq![0x48u8, 0x89, 0x47, 0x08],
            Insn::LoadCpuId { d } => if d >= 8 {
                seq![rex_byte(false, d, 0, RDI), 0x8B, modrm_byte(1, d, RDI), 0x04]
            } else {
                seq![0x8Bu8, modrm_byte(1, d, RDI), 0x04]
            },
            Insn::MovImm { d, v } => seq![rex_byte(true, 0, 0, d), (0xB8 + d % 8) as u8] + le64(v),
            Insn::LoadParam { d, disp } => seq![
                rex_byte(true, d, 0, RDX),
                0x8B,
                modrm_byte(2, d, RDX),
            ] + le32(disp),
            Insn::LoadBase { disp } => seq![
                rex_byte(true, RAX, 0, RSI),
                0x8B,
                modrm_byte(2, RAX, RSI),
            ] + le32(disp),
            Insn::LoadIndexed { d, i } => seq![
                rex_byte(true, d, i, RAX),
                0x8B,
                modrm_byte(0, d, 4),
                modrm_byte(3, i, RAX),
            ],
            Insn::LoadDisp { d, disp } => seq![
                rex_byte(true, d, 0, RAX),
                0x8B,
                modrm_byte(2, d, RAX),
            ] + le32(disp),
            Insn::StoreIndexed { s, i } => seq![
                rex_byte(true, s, i, RAX),
                0x89,
                modrm_byte(0, s, 4),
                modrm_byte(3, i, RAX),
            ],
            Insn::StoreDisp { s, disp } => seq![
                rex_byte(true, s, 0, RAX),
                0x89,
                modrm_byte(2, s, RAX),
            ] + le32(disp),
            Insn::Alu { op, d, s } => seq![
                rex_byte(true, s, 0, d),
                op.opcode_spec(),
                modrm_byte(3, s, d),
            ],
            Insn::Imul { d, s } => seq![
                rex_byte(true, d, 0, s),
                0x0F,
                0xAF,
                modrm_byte(3, d, s),
            ],
            Insn::Shl { d, amount } => seq![
                rex_byte(true, 0, 0, d),
                0xC1,
                modrm_byte(3, 4, d),
                amount,
            ],
            Insn::Shr { d, amount } => seq![
                rex_byte(true, 0, 0, d),
                0xC1,
                modrm_byte(3, 5, d),
                amount,
            ],
            Insn::JumpExit { cond } => seq![0x0Fu8, jump_code(cond)] + le32(jump),
            Insn::ZeroRax => seq![0x31u8, 0xC0],
            Insn::MinusOneRax => seq![0x48u8, 0xC7, 0xC0, 0xFF, 0xFF, 0xFF, 0xFF],
            Insn::Ret => seq![0xC3u8],
        }
    }

    /// Length of the encoding.
    pub open spec fn size(self) -> nat {
        self.bytes(0).len()
    }
}

/// Machine code under construction.
pub struct Asm {
    pub buf: Vec<u8>,
}

impl View for Asm {
    type V = Seq<u8>;

    open spec fn view(&self) -> Seq<u8> {
        self.buf@
    }
}

impl Asm {
    /// `n` zero bytes.
    pub fn zeroed(n: usize) -> (a: Self)
        ensures
            a@ == Seq::new(n as nat, |i: int| 0u8),
    {
        let buf: Vec<u8> = vec![0u8; n];
        assert(buf@ =~= Seq::new(n as nat, |i: int| 0u8));
        Asm { buf }
    }

    fn byte(&mut self, b: u8)
        ensures
            final(self)@ == old(self)@.push(b),
    {
        self.buf.push(b);
    }

    fn rex(&mut self, w: bool, r: u8, x: u8, b: u8)
        requires
            r < 16,
            x < 16,
            b < 16,
        ensures
            final(self)@ == old(self)@.push(rex_byte(w, r, x, b)),
    {
        let size: u8 = if w {
            1
        } else {
            0
        };
        let v: u8 = 0x40 | (size << 3) | ((r >> 3) << 2) | ((x >> 3) << 1) | (b >> 3);
        assert(v == 0x40 + 8 * size + 4 * (r / 8) + 2 * (x / 8) + b / 8) by (bit_vector)
            requires
                r < 16,
                x < 16,
                b < 16,
                size <= 1,
                v == 0x40 | (size << 3) | ((r >> 3) << 2) | ((x >> 3) << 1) | (b >> 3),
        ;
        self.byte(v);
    }

    /// REX only when needed (for 32-bit operations touching r8..r15).
    fn rex_opt(&mut self, w: bool, r: u8, x: u8, b: u8)
        requires
            r < 16,
            x < 16,
            b < 16,
        ensures
            final(self)@ == if w || r >= 8 || x >= 8 || b >= 8 {
                old(self)@.push(rex_byte(w, r, x, b))
            } else {
                old(self)@
            },
    {
        if w || r >= 8 || x >= 8 || b >= 8 {
            self.rex(w, r, x, b);
        }
    }

    fn modrm(&mut self, mode: u8, reg: u8, rm: u8)
        requires
            mode < 4,
        ensures
            final(self)@ == old(self)@.push(modrm_byte(mode, reg, rm)),
    {
        let v: u8 = (mode << 6) | ((reg & 7) << 3) | (rm & 7);
        assert(v == mode * 64 + (reg % 8) * 8 + rm % 8) by (bit_vector)
            requires
                mode < 4,
                v == (mode << 6) | ((reg & 7) << 3) | (rm & 7),
        ;
        self.byte(v);
    }

    fn sib(&mut self, scale: u8, index: u8, base: u8)
        requires
            scale < 4,
        ensures
            final(self)@ == old(self)@.push(modrm_byte(scale, index, base)),
    {
        self.modrm(scale, index, base);
    }

    pub fn imm32(&mut self, v: u32)
        ensures
            final(self)@ == old(self)@ + le32(v),
    {
        self.byte((v % 256) as u8);
        self.byte((v / 0x100 % 256) as u8);
        self.byte((v / 0x1_0000 % 256) as u8);
        self.byte((v / 0x100_0000 % 256) as u8);
    }

    /// Overwrite four bytes at offset `at`.
    pub fn set32(&mut self, at: usize, v: u32)
        requires
            at + 4 <= old(self)@.len(),
        ensures
            final(self)@ == overwrite(old(self)@, at as int, le32(v)),
    {
        assert(self@.len() == self.buf.len());
        self.buf.set(at, (v % 256) as u8);
        self.buf.set(at + 1, (v / 0x100 % 256) as u8);
        self.buf.set(at + 2, (v / 0x1_0000 % 256) as u8);
        self.buf.set(at + 3, (v / 0x100_0000 % 256) as u8);
    }

    pub fn imm64(&mut self, v: u64)
        ensures
            final(self)@ == old(self)@ + le64(v),
    {
        self.imm32((v % 0x1_0000_0000) as u32);
        self.imm32((v / 0x1_0000_0000) as u32);
    }

    /// movabs r, imm64
    fn mov_ri(&mut self, r: u8, v: u64)
        requires
            r < 16,
        ensures
            final(self)@ == old(self)@ + (Insn::MovImm { d: r, v }).bytes(0),
    {
        self.rex(true, 0, 0, r);
        let code: u8 = 0xB8 | (r & 7);
        assert(code == 0xB8 + r % 8) by (bit_vector)
            requires
                code == 0xB8 | (r & 7),
        ;
        self.byte(code);
        self.imm64(v);
    }

    /// `op` in "r/m64, r64" form: dst = dst OP src.
    fn alu_rr(&mut self, op: Alu, dst: u8, src: u8)
        requires
            dst < 16,
            src < 16,
        ensures
            final(self)@ == old(self)@ + (Insn::Alu { op, d: dst, s: src }).bytes(0),
    {
        self.rex(true, src, 0, dst);
        self.byte(op.opcode());
        self.modrm(3, src, dst);
    }

    /// mov rax, [rsi + disp]: a region base into the rax scratch.
    fn load_base(&mut self, disp: u32)
        ensures
            final(self)@ == old(self)@ + (Insn::LoadBase { disp }).bytes(0),
    {
        self.rex(true, RAX, 0, RSI);
        self.byte(0x8B);
        self.modrm(2, RAX, RSI);
        self.imm32(disp);
    }

    /// Append the encoding of one instruction, with no jump target yet.
    pub fn insn(&mut self, insn: Insn)
        requires
            insn.encodable(),
        ensures
            final(self)@ == old(self)@ + insn.bytes(0),
    {
        match insn {
            Insn::LoadDescriptor => {
                self.byte(0x48);
                self.byte(0x8D);
                self.byte(0x05);
                self.imm32(0xFFFF_FFD9);
            },
            Insn::Arm => {
                self.byte(0x48);
                self.byte(0x89);
                self.byte(0x47);
                self.byte(0x08);
            },
            Insn::LoadCpuId { d } => {
                self.rex_opt(false, d, 0, RDI);
                self.byte(0x8B);
                self.modrm(1, d, RDI);
                self.byte(0x04);
            },
            Insn::MovImm { d, v } => self.mov_ri(d, v),
            Insn::LoadParam { d, disp } => {
                self.rex(true, d, 0, RDX);
                self.byte(0x8B);
                self.modrm(2, d, RDX);
                self.imm32(disp);
            },
            Insn::LoadBase { disp } => self.load_base(disp),
            Insn::LoadIndexed { d, i } => {
                self.rex(true, d, i, RAX);
                self.byte(0x8B);
                self.modrm(0, d, 4);
                self.sib(3, i, RAX);
            },
            Insn::LoadDisp { d, disp } => {
                self.rex(true, d, 0, RAX);
                self.byte(0x8B);
                self.modrm(2, d, RAX);
                self.imm32(disp);
            },
            Insn::StoreIndexed { s, i } => {
                self.rex(true, s, i, RAX);
                self.byte(0x89);
                self.modrm(0, s, 4);
                self.sib(3, i, RAX);
            },
            Insn::StoreDisp { s, disp } => {
                self.rex(true, s, 0, RAX);
                self.byte(0x89);
                self.modrm(2, s, RAX);
                self.imm32(disp);
            },
            Insn::Alu { op, d, s } => self.alu_rr(op, d, s),
            Insn::Imul { d, s } => {
                self.rex(true, d, 0, s);
                self.byte(0x0F);
                self.byte(0xAF);
                self.modrm(3, d, s);
            },
            Insn::Shl { d, amount } => {
                self.rex(true, 0, 0, d);
                self.byte(0xC1);
                self.modrm(3, 4, d);
                self.byte(amount);
            },
            Insn::Shr { d, amount } => {
                self.rex(true, 0, 0, d);
                self.byte(0xC1);
                self.modrm(3, 5, d);
                self.byte(amount);
            },
            Insn::JumpExit { cond } => {
                let code: u8 = match cond {
                    Cond::Eq => 0x84,
                    Cond::Ne => 0x85,
                    Cond::Lt => 0x82,
                    Cond::Ge => 0x83,
                };
                self.byte(0x0F);
                self.byte(code);
                self.imm32(0);
            },
            Insn::ZeroRax => {
                self.byte(0x31);
                self.byte(0xC0);
            },
            Insn::MinusOneRax => {
                self.byte(0x48);
                self.byte(0xC7);
                self.byte(0xC0);
                self.byte(0xFF);
                self.byte(0xFF);
                self.byte(0xFF);
                self.byte(0xFF);
            },
            Insn::Ret => self.byte(0xC3),
        }
    }
}

/// `bytes` with those from offset `at` on replaced by `new`.
pub open spec fn overwrite(bytes: Seq<u8>, at: int, new: Seq<u8>) -> Seq<u8> {
    Seq::new(
        bytes.len(),
        |i: int|
            if at <= i < at + new.len() {
                new[i - at]
            } else {
                bytes[i]
            },
    )
}

/// Overwriting puts the new bytes in place and leaves the others alone.
pub proof fn law_overwriting_is_local(bytes: Seq<u8>, at: int, new: Seq<u8>, i: int)
    requires
        0 <= at,
        at + new.len() <= bytes.len(),
        0 <= i < bytes.len(),
    ensures
        overwrite(bytes, at, new).len() == bytes.len(),
        at <= i < at + new.len() ==> overwrite(bytes, at, new)[i] == new[i - at],
        !(at <= i < at + new.len()) ==> overwrite(bytes, at, new)[i] == bytes[i],
{
}

/// Offset of the entry point: the descriptor comes first.
pub const ENTRY_OFF: usize = 32;

/// Number of bytes that `insns` take.
pub open spec fn total_size(insns: Seq<Insn>) -> nat
    decreases insns.len(),
{
    if insns.len() == 0 {
        0
    } else {
        total_size(insns.drop_last()) + insns.last().size()
    }
}

/// Offset of the instruction that follows `insns`.
pub open spec fn offset_after(insns: Seq<Insn>) -> int {
    ENTRY_OFF + total_size(insns)
}

/// Number of exit jumps among `insns`.
pub open spec fn exit_jumps(insns: Seq<Insn>) -> nat
    decreases insns.len(),
{
    if insns.len() == 0 {
        0
    } else {
        exit_jumps(insns.drop_last()) + if insns.last() is JumpExit {
            1nat
        } else {
            0nat
        }
    }
}

/// The displacement that takes a jump to `target`, where `next` is the offset
/// of the instruction that follows it.
pub open spec fn displacement(target: int, next: int) -> u32 {
    ((target - next) % 0x1_0000_0000) as u32
}

/// The encodings of `insns` one after the other, with the first `resolved`
/// exit jumps going to `exit_off` and the others not going anywhere yet.
pub open spec fn encode(insns: Seq<Insn>, resolved: nat, exit_off: int) -> Seq<u8>
    decreases insns.len(),
{
    if insns.len() == 0 {
        seq![]
    } else {
        let before = insns.drop_last();
        let jump = if exit_jumps(before) < resolved {
            displacement(exit_off, offset_after(insns))
        } else {
            0
        };
        encode(before, resolved, exit_off) + insns.last().bytes(jump)
    }
}

proof fn lemma_size(insn: Insn, jump: u32)
    ensures
        insn.bytes(jump).len() == insn.size(),
        !(insn is JumpExit) ==> insn.bytes(jump) == insn.bytes(0),
{
}

/// The encodings take as many bytes as the instructions do.
pub proof fn lemma_encode_len(insns: Seq<Insn>, resolved: nat, exit_off: int)
    ensures
        encode(insns, resolved, exit_off).len() == total_size(insns),
    decreases insns.len(),
{
    if insns.len() > 0 {
        lemma_encode_len(insns.drop_last(), resolved, exit_off);
        let before = insns.drop_last();
        let jump = if exit_jumps(before) < resolved {
            displacement(exit_off, offset_after(insns))
        } else {
            0
        };
        lemma_size(insns.last(), jump);
    }
}

/// A prefix has no more jumps and no more bytes than the whole.
pub proof fn lemma_prefix(insns: Seq<Insn>, k: int)
    requires
        0 <= k <= insns.len(),
    ensures
        exit_jumps(insns.take(k)) <= exit_jumps(insns),
        total_size(insns.take(k)) <= total_size(insns),
    decreases insns.len(),
{
    if k == insns.len() {
        assert(insns.take(k) =~= insns);
    } else {
        lemma_prefix(insns.drop_last(), k);
        assert(insns.drop_last().take(k) =~= insns.take(k));
    }
}

/// The encodings of the first `k` instructions come first.
pub proof fn lemma_encode_prefix(insns: Seq<Insn>, resolved: nat, exit_off: int, k: int)
    requires
        0 <= k <= insns.len(),
    ensures
        total_size(insns.take(k)) <= encode(insns, resolved, exit_off).len(),
        encode(insns, resolved, exit_off).take(total_size(insns.take(k)) as int) == encode(
            insns.take(k),
            resolved,
            exit_off,
        ),
    decreases insns.len(),
{
    lemma_encode_len(insns, resolved, exit_off);
    lemma_prefix(insns, k);
    let whole = encode(insns, resolved, exit_off);
    if k == insns.len() {
        assert(insns.take(k) =~= insns);
        assert(whole.take(whole.len() as int) =~= whole);
    } else {
        let before = insns.drop_last();
        lemma_encode_prefix(before, resolved, exit_off, k);
        assert(before.take(k) =~= insns.take(k));
        let n = total_size(insns.take(k)) as int;
        assert(whole.take(n) =~= encode(before, resolved, exit_off).take(n));
    }
}

/// The encoding of instruction `k` follows those of the first `k`.
pub proof fn lemma_encode_at(insns: Seq<Insn>, exit_off: int, k: int)
    requires
        0 <= k < insns.len(),
    ensures
        ({
            let from = total_size(insns.take(k)) as int;
            let to = total_size(insns.take(k + 1)) as int;
            let all = encode(insns, exit_jumps(insns), exit_off);
            let jump = if insns[k] is JumpExit {
                displacement(exit_off, offset_after(insns.take(k)) + 6)
            } else {
                0
            };
            &&& to == from + insns[k].bytes(jump).len()
            &&& to <= all.len()
            &&& all.len() == total_size(insns)
            &&& all.subrange(from, to) == insns[k].bytes(jump)
        }),
{
    let jumps = exit_jumps(insns);
    let first = insns.take(k);
    let next = insns.take(k + 1);
    assert(next.drop_last() =~= first);
    assert(next.last() == insns[k]);
    let jump = if insns[k] is JumpExit {
        displacement(exit_off, offset_after(first) + 6)
    } else {
        0
    };
    lemma_size(insns[k], jump);
    lemma_prefix(insns, k + 1);
    lemma_encode_len(insns, jumps, exit_off);
    lemma_encode_len(first, jumps, exit_off);
    lemma_encode_prefix(insns, jumps, exit_off, k + 1);
    let from = total_size(first) as int;
    let to = total_size(next) as int;
    let all = encode(insns, jumps, exit_off);
    let used = if exit_jumps(first) < jumps {
        displacement(exit_off, offset_after(next))
    } else {
        0
    };
    lemma_size(insns[k], used);
    assert(encode(next, jumps, exit_off) == encode(first, jumps, exit_off) + insns[k].bytes(used));
    assert(insns[k].bytes(used) == insns[k].bytes(jump));
    assert(all.subrange(from, to) =~= all.take(to).subrange(from, to));
    assert(all.take(to).subrange(from, to) =~= insns[k].bytes(jump));
}

proof fn lemma_all_resolved(insns: Seq<Insn>, more: nat, exit_off: int)
    requires
        exit_jumps(insns) <= more,
    ensures
        encode(insns, more, exit_off) == encode(insns, more + 1, exit_off),
    decreases insns.len(),
{
    if insns.len() > 0 {
        lemma_all_resolved(insns.drop_last(), more, exit_off);
        lemma_size(insns.last(), displacement(exit_off, offset_after(insns)));
    }
}

/// Resolving one more jump overwrites its displacement.
proof fn lemma_resolve(insns: Seq<Insn>, k: int, exit_off: int)
    requires
        0 <= k < insns.len(),
        insns[k] is JumpExit,
    ensures
        ({
            let done = exit_jumps(insns.take(k));
            encode(insns, done + 1, exit_off) == overwrite(
                encode(insns, done, exit_off),
                total_size(insns.take(k)) as int + 2,
                le32(displacement(exit_off, offset_after(insns.take(k)) + 6)),
            )
        }),
        total_size(insns.take(k)) + 6 <= total_size(insns),
    decreases insns.len(),
{
    let done = exit_jumps(insns.take(k));
    let before = insns.drop_last();
    let last = insns.last();
    let new = le32(displacement(exit_off, offset_after(insns.take(k)) + 6));
    lemma_encode_len(before, done, exit_off);
    lemma_encode_len(before, done + 1, exit_off);
    if k == insns.len() - 1 {
        assert(insns.take(k) =~= before);
        lemma_all_resolved(before, done, exit_off);
        assert(encode(insns, done + 1, exit_off) =~= overwrite(
            encode(insns, done, exit_off),
            total_size(insns.take(k)) as int + 2,
            new,
        ));
    } else {
        assert(before.take(k) =~= insns.take(k));
        assert(before[k] == insns[k]);
        lemma_resolve(before, k, exit_off);
        lemma_prefix(before, k + 1);
        assert(before.take(k + 1).drop_last() =~= insns.take(k));
        assert(encode(insns, done + 1, exit_off) =~= overwrite(
            encode(insns, done, exit_off),
            total_size(insns.take(k)) as int + 2,
            new,
        ));
    }
}

/// The displacement of a jump.
fn displacement_to(target: usize, next: usize) -> (d: u32)
    ensures
        d == displacement(target as int, next as int),
{
    if target >= next {
        ((target - next) as u64 % 0x1_0000_0000) as u32
    } else {
        let back: u64 = (next - target) as u64 % 0x1_0000_0000;
        if back == 0 {
            0
        } else {
            (0x1_0000_0000 - back) as u32
        }
    }
}

/// Instructions under construction, encoded behind a blank descriptor.
pub struct Listing {
    code: Asm,
    /// Offset of every instruction.
    starts: Vec<usize>,
    /// Offset of the displacement of every exit jump.
    exit_patches: Vec<usize>,
    insns: Vec<Insn>,
    /// Which instructions the exit jumps are.
    jumps: Ghost<Seq<int>>,
}

impl View for Listing {
    type V = Seq<Insn>;

    closed spec fn view(&self) -> Seq<Insn> {
        self.insns@
    }
}

/// The blank descriptor.
pub open spec fn blank_descriptor() -> Seq<u8> {
    Seq::new(ENTRY_OFF as nat, |i: int| 0u8)
}

/// `starts` holds the offset of every instruction.
pub open spec fn starts_of(starts: Seq<usize>, insns: Seq<Insn>) -> bool {
    &&& starts.len() == insns.len()
    &&& forall|k: int|
        0 <= k < insns.len() ==> #[trigger] starts[k] == offset_after(insns.take(k))
}

impl Listing {
    pub closed spec fn wf(self) -> bool {
        &&& self.code@ == blank_descriptor() + encode(self@, 0, 0)
        &&& starts_of(self.starts@, self@)
        &&& self.exit_patches@.len() == exit_jumps(self@)
        &&& self.jumps@.len() == exit_jumps(self@)
        &&& forall|e: int|
            0 <= e < self.jumps@.len() ==> self.jump_noted(e, #[trigger] self.jumps@[e])
    }

    /// Instruction `k` is exit jump number `e`.
    closed spec fn jump_noted(self, e: int, k: int) -> bool {
        &&& 0 <= k < self@.len()
        &&& self@[k] is JumpExit
        &&& exit_jumps(self@.take(k)) == e
        &&& self.exit_patches@[e] == offset_after(self@.take(k)) + 2
    }

    pub fn new() -> (l: Self)
        ensures
            l.wf(),
            l@ == Seq::<Insn>::empty(),
    {
        let l = Listing {
            code: Asm::zeroed(ENTRY_OFF),
            starts: Vec::new(),
            exit_patches: Vec::new(),
            insns: Vec::new(),
            jumps: Ghost(Seq::empty()),
        };
        assert(l.code@ =~= blank_descriptor() + encode(l@, 0, 0));
        l
    }

    /// Number of instructions.
    pub fn len(&self) -> (n: usize)
        requires
            self.wf(),
        ensures
            n == self@.len(),
    {
        self.starts.len()
    }

    /// Offset of the next instruction.
    pub fn offset(&self) -> (off: usize)
        requires
            self.wf(),
        ensures
            off == offset_after(self@),
    {
        proof {
            lemma_encode_len(self@, 0, 0);
        }
        self.code.buf.len()
    }

    pub fn push(&mut self, insn: Insn)
        requires
            old(self).wf(),
            insn.encodable(),
        ensures
            final(self).wf(),
            final(self)@ == old(self)@.push(insn),
    {
        let ghost before = *self;
        let at: usize = self.offset();
        self.starts.push(at);
        self.code.insn(insn);
        self.insns.push(insn);
        proof {
            assert(self@.drop_last() =~= before@);
            assert forall|k: int| 0 <= k <= before@.len() implies #[trigger] self@.take(k)
                =~= before@.take(k) by {}
            assert(before@.take(before@.len() as int) =~= before@);
            assert(self.code@ =~= blank_descriptor() + encode(self@, 0, 0));
            lemma_encode_len(self@, 0, 0);
        }
        if let Insn::JumpExit { .. } = insn {
            assert(self.code@.len() == at + 6);
            self.exit_patches.push(self.code.buf.len() - 4);
            proof {
                self.jumps@ = self.jumps@.push(before@.len() as int);
            }
        }
        proof {
            assert forall|e: int| 0 <= e < self.jumps@.len() implies self.jump_noted(
                e,
                #[trigger] self.jumps@[e],
            ) by {
                if e < before.jumps@.len() {
                    assert(before.jump_noted(e, before.jumps@[e]));
                    assert(self@.take(before.jumps@[e]) =~= before@.take(before.jumps@[e]));
                }
            }
        }
    }

    /// The machine code, with every exit jump going to `exit_off`, the offset
    /// of every instruction, and the instructions.
    pub fn resolve(self, exit_off: usize) -> (res: (Asm, Vec<usize>, Vec<Insn>))
        requires
            self.wf(),
        ensures
            res.0@ == blank_descriptor() + encode(self@, exit_jumps(self@), exit_off as int),
            starts_of(res.1@, self@),
            res.2@ == self@,
    {
        let ghost whole = self;
        let Listing { mut code, starts, exit_patches, insns, .. } = self;
        proof {
            lemma_same_unresolved(whole@, exit_off as int);
        }
        let mut e: usize = 0;
        while e < exit_patches.len()
            invariant
                whole.wf(),
                e <= exit_patches@.len(),
                exit_patches@ == whole.exit_patches@,
                code@ == blank_descriptor() + encode(whole@, e as nat, exit_off as int),
            decreases exit_patches@.len() - e,
        {
            let ghost k = whole.jumps@[e as int];
            let patch: usize = exit_patches[e];
            proof {
                assert(whole.jump_noted(e as int, k));
                lemma_resolve(whole@, k, exit_off as int);
                lemma_encode_len(whole@, e as nat, exit_off as int);
                lemma_encode_len(whole@, (e + 1) as nat, exit_off as int);
                assert(code@.len() == code.buf.len());
            }
            let ghost before = code@;
            code.set32(patch, displacement_to(exit_off, patch + 4));
            e = e + 1;
            assert(code@ =~= blank_descriptor() + encode(whole@, e as nat, exit_off as int));
        }
        (code, starts, insns)
    }
}

/// Where a jump would go is of no account while none is resolved.
proof fn lemma_same_unresolved(insns: Seq<Insn>, exit_off: int)
    ensures
        encode(insns, 0, exit_off) == encode(insns, 0, 0),
    decreases insns.len(),
{
    if insns.len() > 0 {
        lemma_same_unresolved(insns.drop_last(), exit_off);
    }
}

} // verus!
