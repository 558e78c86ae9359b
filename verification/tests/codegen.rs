//! The compiled bytes, executed: they must agree with the simulator, and with
//! a kernel that restarts them at any instruction of the window.

use std::collections::BTreeSet;

use rseq::codegen::{CompileError, CompiledSeq, RegionSet, EXITED, RSEQ_SIG};
use rseq::ir::{
    imm, reg, Addr, BinOp, Cond, Layout, Op, Operand, Program, RegionId, SeqBuilder, ValidateError,
};
use rseq::progs::{self, NIL};
use rseq::sim::{self, AbortPoint, Memory, Outcome, SimConfig};

const AREA: u64 = 0x1000;
const BASES: u64 = 0x2000;
const PARAMS: u64 = 0x3000;
const REGIONS: u64 = 0x100_0000;
const REGION_STEP: u64 = 0x100_0000;
const CODE: u64 = 0x4000_0000_0000;

/// A processor that decodes the instructions the compiler emits.
struct Cpu {
    segments: Vec<(u64, Vec<u8>)>,
    regs: [u64; 16],
    rip: u64,
    zero: bool,
    carry: bool,
}

enum Place {
    Reg(usize),
    Mem(u64),
}

impl Cpu {
    fn new(seq: &CompiledSeq, rs: &RegionSet, nregions: usize, params: &[u64], cpu: u32) -> Self {
        let mut area = vec![0u8; 32];
        area[4..8].copy_from_slice(&cpu.to_le_bytes());
        let mut bases = Vec::new();
        let mut values = Vec::new();
        let mut segments = vec![(AREA, area), (CODE, seq.code_bytes(CODE))];
        for p in params {
            values.extend_from_slice(&p.to_le_bytes());
        }
        for r in 0..nregions {
            let base = REGIONS + r as u64 * REGION_STEP;
            bases.extend_from_slice(&base.to_le_bytes());
            let mut bytes = Vec::new();
            for w in rs.region(RegionId(r)) {
                bytes.extend_from_slice(&w.to_le_bytes());
            }
            segments.push((base, bytes));
        }
        segments.push((BASES, bases));
        segments.push((PARAMS, values));
        // Registers start out as rubbish: nothing may depend on them.
        let mut regs = [0xdead_beef_dead_beef; 16];
        regs[7] = AREA;
        regs[6] = BASES;
        regs[2] = PARAMS;
        Cpu { segments, regs, rip: CODE + 32, zero: false, carry: false }
    }

    fn bytes(&self, at: u64, n: usize) -> &[u8] {
        for (base, bytes) in &self.segments {
            if at >= *base && at + n as u64 <= *base + bytes.len() as u64 {
                let from = (at - base) as usize;
                return &bytes[from..from + n];
            }
        }
        panic!("access to {at:#x} outside memory");
    }

    fn read(&self, at: u64, n: usize) -> u64 {
        let mut word = [0u8; 8];
        word[..n].copy_from_slice(self.bytes(at, n));
        u64::from_le_bytes(word)
    }

    fn write64(&mut self, at: u64, v: u64) {
        for (base, bytes) in &mut self.segments {
            if at >= *base && at + 8 <= *base + bytes.len() as u64 {
                assert!(*base != CODE, "write to code");
                let from = (at - *base) as usize;
                bytes[from..from + 8].copy_from_slice(&v.to_le_bytes());
                return;
            }
        }
        panic!("write to {at:#x} outside memory");
    }

    fn next(&mut self, n: usize) -> u64 {
        let v = self.read(self.rip, n);
        self.rip += n as u64;
        v
    }

    fn disp(&mut self, n: usize) -> u64 {
        let v = self.next(n);
        if n == 1 {
            v as u8 as i8 as i64 as u64
        } else {
            v as u32 as i32 as i64 as u64
        }
    }

    /// ModRM: the register operand and the other one.
    fn modrm(&mut self, rex: u64) -> (usize, Place) {
        let b = self.next(1);
        let mode = b >> 6;
        let r = ((b >> 3 & 7) | (rex >> 2 & 1) << 3) as usize;
        let rm = b & 7;
        if mode == 3 {
            return (r, Place::Reg((rm | (rex & 1) << 3) as usize));
        }
        let base = if rm == 4 {
            let sib = self.next(1);
            let index = ((sib >> 3 & 7) | (rex >> 1 & 1) << 3) as usize;
            let from = ((sib & 7) | (rex & 1) << 3) as usize;
            assert!(index != 4 && from != 5);
            self.regs[from].wrapping_add(self.regs[index].wrapping_mul(1 << (sib >> 6)))
        } else if mode == 0 && rm == 5 {
            let d = self.disp(4);
            return (r, Place::Mem(self.rip.wrapping_add(d)));
        } else {
            self.regs[(rm | (rex & 1) << 3) as usize]
        };
        let d = match mode {
            0 => 0,
            1 => self.disp(1),
            _ => self.disp(4),
        };
        (r, Place::Mem(base.wrapping_add(d)))
    }

    fn get(&self, p: &Place, n: usize) -> u64 {
        match p {
            Place::Reg(r) => self.regs[*r],
            Place::Mem(at) => self.read(*at, n),
        }
    }

    fn put(&mut self, p: &Place, v: u64) {
        match p {
            Place::Reg(r) => self.regs[*r] = v,
            Place::Mem(at) => self.write64(*at, v),
        }
    }

    /// Execute one instruction; true if it was a return.
    fn step(&mut self) -> bool {
        let mut op = self.next(1);
        let mut rex = 0;
        if op & 0xf0 == 0x40 {
            rex = op;
            op = self.next(1);
        }
        let wide = rex & 8 != 0;
        match op {
            0xC3 => return true,
            0xE9 => {
                let d = self.disp(4);
                self.rip = self.rip.wrapping_add(d);
            }
            0x8D => {
                let (r, p) = self.modrm(rex);
                match p {
                    Place::Mem(at) => self.regs[r] = at,
                    Place::Reg(_) => panic!("lea of a register"),
                }
            }
            0x8B => {
                let (r, p) = self.modrm(rex);
                self.regs[r] = self.get(&p, if wide { 8 } else { 4 });
            }
            0x89 => {
                assert!(wide);
                let (r, p) = self.modrm(rex);
                let v = self.regs[r];
                self.put(&p, v);
            }
            0x01 | 0x29 | 0x21 | 0x09 | 0x31 | 0x39 => {
                let (r, p) = self.modrm(rex);
                let a = self.get(&p, 8);
                let b = self.regs[r];
                let v = match op {
                    0x01 => a.wrapping_add(b),
                    0x29 | 0x39 => a.wrapping_sub(b),
                    0x21 => a & b,
                    0x09 => a | b,
                    _ => a ^ b,
                };
                self.zero = v == 0;
                self.carry = a < b;
                if op != 0x39 {
                    self.put(&p, if wide { v } else { v as u32 as u64 });
                }
            }
            0xC1 => {
                let (which, p) = self.modrm(rex);
                let n = self.next(1) & 63;
                let a = self.get(&p, 8);
                let v = if which & 7 == 4 { a << n } else { a >> n };
                self.put(&p, v);
            }
            0xC7 => {
                let (_, p) = self.modrm(rex);
                let v = self.disp(4);
                self.put(&p, v);
            }
            0xB8..=0xBF => {
                let r = ((op & 7) | (rex & 1) << 3) as usize;
                self.regs[r] = self.next(8);
            }
            0x0F => {
                let second = self.next(1);
                if second == 0xAF {
                    let (r, p) = self.modrm(rex);
                    let v = self.get(&p, 8);
                    self.regs[r] = self.regs[r].wrapping_mul(v);
                } else {
                    let d = self.disp(4);
                    let taken = match second {
                        0x84 => self.zero,
                        0x85 => !self.zero,
                        0x82 => self.carry,
                        0x83 => !self.carry,
                        other => panic!("unknown condition {other:#x}"),
                    };
                    if taken {
                        self.rip = self.rip.wrapping_add(d);
                    }
                }
            }
            other => panic!("unknown instruction {other:#x}"),
        }
        false
    }

    fn armed(&self) -> u64 {
        self.read(AREA + 8, 8)
    }

    /// What the kernel does when it preempts or migrates the thread: inside
    /// the armed window, disarm and continue at the abort handler. True if it
    /// redirected.
    fn interrupt(&mut self, cpu: u32) -> bool {
        let cs = self.armed();
        for (base, bytes) in &mut self.segments {
            if *base == AREA {
                bytes[4..8].copy_from_slice(&cpu.to_le_bytes());
            }
        }
        if cs == 0 {
            return false;
        }
        assert_eq!(self.read(cs, 8), 0, "version and flags");
        let start = self.read(cs + 8, 8);
        let len = self.read(cs + 16, 8);
        let abort = self.read(cs + 24, 8);
        assert_eq!(self.read(abort - 4, 4), u64::from(RSEQ_SIG), "signature");
        let inside = self.rip.wrapping_sub(start) < len;
        if inside {
            self.rip = abort;
        }
        self.write64(AREA + 8, 0);
        inside
    }

    fn finish(&mut self) -> u64 {
        for _ in 0..1000 {
            if self.step() {
                return self.regs[0];
            }
        }
        panic!("code does not return");
    }

    fn save(&self, rs: &mut RegionSet, nregions: usize) {
        for r in 0..nregions {
            let base = REGIONS + r as u64 * REGION_STEP;
            let len = rs.region_len(RegionId(r));
            let words: Vec<u64> = (0..len).map(|i| self.read(base + 8 * i as u64, 8)).collect();
            rs.fill(RegionId(r), &words);
        }
    }
}

/// Call `seq` on `cpu`.
fn call(rs: &mut RegionSet, n: usize, seq: &CompiledSeq, params: &[u64], cpu: u32) -> u64 {
    assert!(rs.accepts(seq, params));
    let mut m = Cpu::new(seq, rs, n, params, cpu);
    let out = m.finish();
    m.save(rs, n);
    out
}

#[test]
fn compiled_matches_simulator_on_shared_region() {
    let mut layout = Layout::new();
    let cell = layout.published_shared("cell", 1, 10);
    let mut b = SeqBuilder::new("add7");
    let v = b.load(cell, imm(0));
    let w = b.bin(BinOp::Add, reg(v), imm(7));
    let prog = b.commit_ret(cell, imm(0), reg(w), reg(w));

    let mut mem = Memory::new(&layout, 1);
    let want = sim::run(&prog, &mut mem, &[], 0, &[], SimConfig::default()).unwrap();
    assert_eq!(want.outcome, Outcome::Committed { ret: Some(17) });

    let seq = CompiledSeq::compile(&prog, &layout).expect("compiles");
    let mut rs = RegionSet::new(&layout);
    let got = call(&mut rs, 1, &seq, &[], 0);
    assert_eq!(got, 17);
    assert_eq!(rs.region_mut(cell)[0], mem.region(cell)[0]);
}

#[test]
fn compiled_param_and_shifts_match_simulator() {
    let mut layout = Layout::new();
    let cell = layout.published_shared("cell", 4, 0);
    let mut b = SeqBuilder::new("mix");
    let p = b.param(0);
    let q = b.param(1);
    let x = b.bin(BinOp::Shl, reg(p), imm(4));
    let y = b.bin(BinOp::Xor, reg(x), reg(q));
    let z = b.bin(BinOp::Sub, reg(y), imm(1));
    let prog = b.commit_ret(cell, imm(2), reg(z), reg(z));

    let params = [0xABCD, 0xFF];
    let mut mem = Memory::new(&layout, 1);
    let want = sim::run(&prog, &mut mem, &params, 0, &[], SimConfig::default()).unwrap();

    let seq = CompiledSeq::compile(&prog, &layout).expect("compiles");
    let mut rs = RegionSet::new(&layout);
    let got = call(&mut rs, 1, &seq, &params, 0);
    assert_eq!(Outcome::Committed { ret: Some(got) }, want.outcome);
    assert_eq!(rs.region_mut(cell)[2], mem.region(cell)[2]);
}

#[test]
fn compiled_array_push_publishes_consistently() {
    let pa = progs::push_array(4);
    let seq = CompiledSeq::compile(&pa.push(42), &pa.layout).expect("compiles");
    let mut rs = RegionSet::new(&pa.layout);
    let mut committed_calls = 0u64;
    for i in 0..64u32 {
        let r = call(&mut rs, 2, &seq, &[], i % 7);
        if r != EXITED {
            committed_calls += 1;
        }
    }
    let committed = rs.region_mut(pa.committed).to_vec();
    let slots = rs.region_mut(pa.slots).to_vec();
    let published: u64 = committed.iter().sum();
    assert_eq!(published, committed_calls);
    assert_eq!(published, 28);
    for (cpu, &n) in committed.iter().enumerate() {
        for i in 0..n as usize {
            assert_eq!(slots[cpu * pa.cap + i], 42, "cpu {cpu} slot {i}");
        }
    }
}

#[test]
fn hoisted_cpu_id_refuses_to_compile() {
    let (layout, prog, _) = progs::counter_inc_hoisted();
    let err = CompiledSeq::compile(&prog, &layout).expect_err("must not compile");
    assert_eq!(err, rseq::codegen::CompileError::HoistedCpuId);
}

#[test]
fn every_abort_point_redirects_and_post_commit_does_not() {
    let (layout, prog, counters) = progs::counter_inc();
    let seq = CompiledSeq::compile(&prog, &layout).expect("compiles");
    let rs = RegionSet::new(&layout);
    let window = seq.window_insn_addrs(CODE);
    assert!(window.len() >= 5, "window suspiciously small: {window:#x?}");
    let sum = |m: &Cpu| -> u64 {
        (0..rs.region_len(counters)).map(|i| m.read(REGIONS + 8 * i as u64, 8)).sum()
    };

    for &addr in &window {
        let mut m = Cpu::new(&seq, &rs, 1, &[], 3);
        while m.rip != addr {
            assert!(!m.step());
        }
        assert_eq!(m.armed(), CODE, "rseq_cs must point at our descriptor at {addr:#x}");
        assert_eq!(sum(&m), 0, "no commit may be visible while stopped at {addr:#x}");
        assert!(m.interrupt(5), "abort point {addr:#x} was not redirected");
        assert_eq!(m.rip, seq.abort_addr(CODE));
        m.step();
        assert_eq!(m.rip, seq.retry_addr(CODE));
        // A second abort in the same call: the retry has to be armed as well.
        while m.rip != addr {
            assert!(!m.step());
        }
        assert_eq!(m.armed(), CODE, "the retry must be armed at {addr:#x}");
        assert!(m.interrupt(9));
        assert_eq!(m.finish(), 0);
        assert_eq!(sum(&m), 1, "the commit counted exactly once");
        assert_eq!(m.read(REGIONS + 8 * 9, 8), 1, "on the CPU the call ended on");
    }

    let mut m = Cpu::new(&seq, &rs, 1, &[], 3);
    while m.rip != seq.post_addr(CODE) {
        assert!(!m.step());
    }
    assert_eq!(sum(&m), 1, "commit must be visible at post_commit");
    assert!(!m.interrupt(5), "post-commit interruption must not redirect");
    assert_eq!(m.finish(), 0);
    assert_eq!(sum(&m), 1, "the commit counted exactly once");
}

#[test]
fn counter_code_bytes() {
    let (layout, prog, _) = progs::counter_inc();
    let seq = CompiledSeq::compile(&prog, &layout).expect("compiles");
    let mut want = vec![0u8; 32];
    // lea rax, [rip - 39]; mov [rdi + 8], rax
    want.extend_from_slice(&[0x48, 0x8D, 0x05, 0xD9, 0xFF, 0xFF, 0xFF]);
    want.extend_from_slice(&[0x48, 0x89, 0x47, 0x08]);
    // mov ecx, [rdi + 4]
    want.extend_from_slice(&[0x8B, 0x4F, 0x04]);
    // mov rax, [rsi + 0]; mov r8, [rax + rcx*8]
    want.extend_from_slice(&[0x48, 0x8B, 0x86, 0, 0, 0, 0]);
    want.extend_from_slice(&[0x4C, 0x8B, 0x04, 0xC8]);
    // mov r9, r8; movabs r11, 1; add r9, r11
    want.extend_from_slice(&[0x4D, 0x89, 0xC1]);
    want.extend_from_slice(&[0x49, 0xBB, 1, 0, 0, 0, 0, 0, 0, 0]);
    want.extend_from_slice(&[0x4D, 0x01, 0xD9]);
    // mov rax, [rsi + 0]; mov [rax + rcx*8], r9
    want.extend_from_slice(&[0x48, 0x8B, 0x86, 0, 0, 0, 0]);
    want.extend_from_slice(&[0x4C, 0x89, 0x0C, 0xC8]);
    // xor eax, eax; ret; mov rax, -1; ret
    want.extend_from_slice(&[0x31, 0xC0, 0xC3]);
    want.extend_from_slice(&[0x48, 0xC7, 0xC0, 0xFF, 0xFF, 0xFF, 0xFF, 0xC3]);
    // the signature; jmp entry
    want.extend_from_slice(&[0x53, 0x30, 0x05, 0x53]);
    let back = (32i64 - (want.len() as i64 + 5)) as i32;
    want.push(0xE9);
    want.extend_from_slice(&back.to_le_bytes());
    assert_eq!(seq.unplaced_code(), &want[..]);
    assert_eq!(seq.name, "counter_inc");
}

#[test]
fn mapping_has_descriptor_code_and_padding() {
    let (layout, prog, _) = progs::counter_inc();
    let seq = CompiledSeq::compile(&prog, &layout).expect("compiles");
    let image = seq.code_bytes(0x7000);
    assert_eq!(seq.map_len(), 4096);
    assert_eq!(image.len(), 4096);
    let word = |i: usize| u64::from_le_bytes(image[8 * i..8 * i + 8].try_into().unwrap());
    assert_eq!(word(0), 0);
    assert_eq!(word(1), 0x7000 + 43);
    assert_eq!(word(2), seq.post_addr(0x7000) - (0x7000 + 43));
    assert_eq!(word(3), seq.abort_addr(0x7000));
    assert_eq!(seq.retry_addr(0x7000), 0x7020);
    assert_eq!(&image[32..seq.unplaced_code().len()], &seq.unplaced_code()[32..]);
    assert!(image[seq.unplaced_code().len()..].iter().all(|b| *b == 0));
    assert_eq!(seq.window_insn_addrs(0x7000)[0], 0x7000 + 43);
    assert_eq!(seq.window_insn_addrs(0x7000).len(), 8);
}

/// A program with every kind of operand and operation.
fn everything() -> (Layout, Program, RegionId, RegionId) {
    let mut layout = Layout::new();
    let out = layout.published_shared("out", 8, 0);
    let tmp = layout.scratch_shared("tmp", 8, 3);
    let mut b = SeqBuilder::new("everything");
    let a = b.param(0);
    b.exit_if(Cond::Eq, reg(a), imm(99));
    b.exit_if(Cond::Ge, imm(3), reg(a));
    b.exit_if(Cond::Ne, imm(7), imm(7));
    let c = b.bin(BinOp::Mul, reg(a), imm(0x1_0000_0001));
    b.exit_if(Cond::Lt, reg(c), reg(a));
    b.store_scratch(tmp, imm(5), reg(c));
    let d = b.bin(BinOp::Or, imm(0xf0), reg(a));
    b.store_scratch(tmp, reg(a), imm(77));
    let e = b.load(tmp, imm(5));
    let f = b.bin(BinOp::Shr, reg(e), imm(67));
    let g = b.bin(BinOp::And, reg(f), reg(d));
    let prog = b.commit_ret(out, imm(7), reg(g), imm(123));
    (layout, prog, out, tmp)
}

#[test]
fn every_operation_agrees_with_the_simulator() {
    let (layout, prog, out, tmp) = everything();
    let seq = CompiledSeq::compile(&prog, &layout).expect("compiles");
    for p in [0u64, 3, 4, 6, 7, 99] {
        let mut mem = Memory::new(&layout, 1);
        let want = sim::run(&prog, &mut mem, &[p], 0, &[], SimConfig::default()).unwrap();
        let mut rs = RegionSet::new(&layout);
        let got = call(&mut rs, 2, &seq, &[p], 0);
        match want.outcome {
            Outcome::Exited => assert_eq!(got, EXITED, "parameter {p}"),
            Outcome::Committed { ret } => assert_eq!(Some(got), ret, "parameter {p}"),
        }
        assert_eq!(rs.region(out), mem.region(out), "parameter {p}");
        assert_eq!(rs.region(tmp), mem.region(tmp), "parameter {p}");
    }
}

#[test]
fn restarted_code_ends_as_the_simulator_does() {
    let fl = progs::freelist(8);
    let seq = CompiledSeq::compile(&fl.push(), &fl.layout).expect("compiles");
    let window = seq.window_insn_addrs(CODE);
    for &addr in &window {
        let mut rs = RegionSet::new(&fl.layout);
        rs.region_mut(fl.heads)[1] = 2;
        let mut m = Cpu::new(&seq, &rs, 2, &[5], 0);
        while m.rip != addr {
            m.step();
        }
        assert!(m.interrupt(1));
        m.finish();
        m.save(&mut rs, 2);

        let mut mem = Memory::new(&fl.layout, 2);
        mem.region_mut(fl.heads)[1] = 2;
        let plan = [AbortPoint { at: 0, new_cpu: 1 }];
        sim::run(&fl.push(), &mut mem, &[5], 0, &plan, SimConfig::default()).unwrap();
        assert_eq!(rs.region(fl.heads)[..2], mem.region(fl.heads)[..2]);
        assert_eq!(rs.region(fl.heads)[1], 5);
        assert_eq!(rs.region(fl.nodes)[5], 2);
    }
}

#[test]
fn compiled_freelist_conserves_nodes() {
    let fl = progs::freelist(16);
    let push = CompiledSeq::compile(&fl.push(), &fl.layout).expect("push compiles");
    let pop = CompiledSeq::compile(&fl.pop(), &fl.layout).expect("pop compiles");
    let mut rs = RegionSet::new(&fl.layout);
    for node in 0..16u64 {
        call(&mut rs, 2, &push, &[node], (node % 3) as u32);
    }
    for i in 0..40u32 {
        let node = call(&mut rs, 2, &pop, &[], i % 5);
        if node != EXITED {
            call(&mut rs, 2, &push, &[node], (i + 1) % 5);
        }
    }
    let mut seen = BTreeSet::new();
    for &head in rs.region(fl.heads) {
        let mut cur = head;
        while cur != NIL {
            assert!(seen.insert(cur), "node {cur} on two lists");
            cur = rs.region(fl.nodes)[cur as usize];
        }
    }
    assert_eq!(seen, (0..16).collect::<BTreeSet<_>>(), "nodes lost");
}

#[test]
fn strided_counter_runs_compiled() {
    let (layout, prog, counters) = progs::counter_inc_strided(8);
    let seq = CompiledSeq::compile(&prog, &layout).expect("compiles");
    let mut rs = RegionSet::new(&layout);
    assert_eq!(rs.region_len(counters), 8 * 4096);
    for _ in 0..3 {
        assert_eq!(call(&mut rs, 1, &seq, &[], 6), 0);
    }
    assert_eq!(rs.region(counters)[48], 3);
    assert_eq!(rs.region(counters).iter().sum::<u64>(), 3);
}

#[test]
fn compile_errors() {
    let mut layout = Layout::new();
    let cell = layout.published_shared("cell", 1, 0);

    let empty = Program { name: "empty".into(), ops: vec![], ret: None };
    assert_eq!(
        CompiledSeq::compile(&empty, &layout).expect_err("invalid"),
        CompileError::Invalid(ValidateError::Empty)
    );

    let mut b = SeqBuilder::new("variable_shift");
    let p = b.param(0);
    let s = b.bin(BinOp::Shl, imm(1), reg(p));
    let prog = b.commit(cell, imm(0), reg(s));
    assert_eq!(
        CompiledSeq::compile(&prog, &layout).expect_err("variable shift"),
        CompileError::ShiftByRegister
    );

    let wide = |n: u64| {
        let mut b = SeqBuilder::new("wide");
        let regs: Vec<usize> = (0..n).map(|v| b.constant(v)).collect();
        for r in &regs {
            b.exit_if(Cond::Eq, reg(*r), imm(9));
        }
        b.commit(cell, imm(0), imm(1))
    };
    assert!(CompiledSeq::compile(&wide(4), &layout).is_ok());
    assert_eq!(
        CompiledSeq::compile(&wide(5), &layout).expect_err("five live registers"),
        CompileError::OutOfRegisters
    );
}

#[test]
fn calls_are_refused_for_other_layouts_and_missing_parameters() {
    let fl = progs::freelist(4);
    let push = CompiledSeq::compile(&fl.push(), &fl.layout).expect("compiles");
    let pop = CompiledSeq::compile(&fl.pop(), &fl.layout).expect("compiles");
    let rs = RegionSet::new(&fl.layout);
    assert!(rs.accepts(&push, &[1]));
    assert!(rs.accepts(&push, &[1, 2]));
    assert!(!rs.accepts(&push, &[]));
    assert!(rs.accepts(&pop, &[]));
    let other = progs::lockable_freelist(4);
    assert!(!RegionSet::new(&other.layout).accepts(&pop, &[]));
    let words = rs.into_words();
    assert_eq!(words.len(), 2);
    assert_eq!(words[0].len(), 4096);
    assert_eq!(words[1], vec![NIL; 4]);
}

#[test]
fn address_operands_are_scaled_to_words() {
    let mut layout = Layout::new();
    let first = layout.published_shared("first", 2, 0);
    let second = layout.published_shared("second", 4, 0);
    let prog = Program {
        name: "imm".into(),
        ops: vec![
            Op::Load { dst: 0, addr: Addr { region: first, index: Operand::Imm(1) } },
            Op::Commit {
                addr: Addr { region: second, index: Operand::Imm(3) },
                src: Operand::Reg(0),
            },
        ],
        ret: Some(Operand::Reg(0)),
    };
    let seq = CompiledSeq::compile(&prog, &layout).expect("compiles");
    let mut rs = RegionSet::new(&layout);
    rs.fill(first, &[11, 22]);
    assert_eq!(call(&mut rs, 2, &seq, &[], 0), 22);
    assert_eq!(rs.region(second), &[0, 0, 0, 22]);
}
