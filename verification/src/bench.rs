//! The counter benchmark, less its measurements: a randomised complete block
//! design.
//!
//! Each *block* samples a parameter point (affinity domain, thread count), then
//! runs every arm once at that point in randomised order. Background-load drift
//! hits all arms of a block equally, so paired within-block ratios are
//! unbiased; quiet machines just tighten the intervals.

use vstd::prelude::*;

use crate::text::{begins_with, lines, parse_number, same, split, trim};

verus! {

/// The arms, chosen so each adjacent pair isolates one effect.
#[derive(Clone, Copy, PartialEq, Eq, Structural, Debug)]
pub enum Arm {
    /// JIT counter, 64-byte stride (the headline).
    JitPad,
    /// JIT counter, 8-byte stride (false sharing).
    JitNopad,
    /// Hand-written code, 8-byte stride (call overhead; tallies aborts).
    AsmNopad,
    /// Per-CPU padded `lock xadd` (lock prefix vs rseq).
    AtomicShard,
    /// One shared `lock xadd` cache line (contention).
    AtomicShared,
    /// A mutex around the counter (the conventional baseline).
    Mutex,
}

/// Number of arms in a complete block.
pub const NARMS: usize = 6;

impl Arm {
    /// Every arm, in the order they are listed in the results.
    #[must_use]
    pub fn all() -> (arms: Vec<Arm>)
        ensures
            arms@ == seq![
                Arm::JitPad,
                Arm::JitNopad,
                Arm::AsmNopad,
                Arm::AtomicShard,
                Arm::AtomicShared,
                Arm::Mutex,
            ],
            arms@.len() == NARMS,
    {
        vec![
            Arm::JitPad,
            Arm::JitNopad,
            Arm::AsmNopad,
            Arm::AtomicShard,
            Arm::AtomicShared,
            Arm::Mutex,
        ]
    }

    pub open spec fn label(self) -> Seq<char> {
        match self {
            Arm::JitPad => "rseq-jit-pad"@,
            Arm::JitNopad => "rseq-jit-nopad"@,
            Arm::AsmNopad => "rseq-asm-nopad"@,
            Arm::AtomicShard => "atomic-shard"@,
            Arm::AtomicShared => "atomic-shared"@,
            Arm::Mutex => "mutex"@,
        }
    }

    /// The name in the results.
    #[must_use]
    pub fn name(self) -> (s: &'static str)
        ensures
            s@ == self.label(),
    {
        match self {
            Arm::JitPad => "rseq-jit-pad",
            Arm::JitNopad => "rseq-jit-nopad",
            Arm::AsmNopad => "rseq-asm-nopad",
            Arm::AtomicShard => "atomic-shard",
            Arm::AtomicShared => "atomic-shared",
            Arm::Mutex => "mutex",
        }
    }

    /// Words per CPU of the compiled counter that the arm measures, if it
    /// measures one.
    #[must_use]
    pub fn stride(self) -> (s: Option<usize>)
        ensures
            s == match self {
                Arm::JitPad => Some(8usize),
                Arm::JitNopad => Some(1usize),
                _ => None,
            },
    {
        match self {
            Arm::JitPad => Some(8),
            Arm::JitNopad => Some(1),
            _ => None,
        }
    }
}

/// The number of increments that an arm has to account for, if it fits a word.
#[must_use]
pub fn expected_total(threads: usize, ops: u64) -> (total: Option<u64>)
    ensures
        total == if threads * ops <= u64::MAX {
            Some((threads * ops) as u64)
        } else {
            None
        },
{
    (threads as u64).checked_mul(ops)
}

/// The next state of the generator (xorshift64*).
pub open spec fn stirred(x: u64) -> u64 {
    let a = x ^ (x >> 12);
    let b = a ^ (a << 25);
    b ^ (b >> 27)
}

/// What the generator returns in state `x`.
pub open spec fn drawn(x: u64) -> u64 {
    x.wrapping_mul(0x2545_F491_4F6C_DD1D)
}

/// Entropy for the block design.
#[derive(Debug)]
pub struct Rng {
    pub state: u64,
}

/// The generator does not get stuck: from a nonzero state it goes to a nonzero
/// state.
pub proof fn law_rng_stays_nonzero(x: u64)
    requires
        x != 0,
    ensures
        stirred(x) != 0,
{
    let a = x ^ (x >> 12);
    let b = a ^ (a << 25);
    assert(x ^ (x >> 12) != 0) by (bit_vector)
        requires
            x != 0,
    ;
    assert(a ^ (a << 25) != 0) by (bit_vector)
        requires
            a != 0,
    ;
    assert(b ^ (b >> 27) != 0) by (bit_vector)
        requires
            b != 0,
    ;
}

/// The sequence with two entries exchanged.
pub open spec fn swapped<T>(xs: Seq<T>, i: int, j: int) -> Seq<T> {
    xs.update(i, xs[j]).update(j, xs[i])
}

/// The shuffle from entry `i` down, and the state of the generator after it.
pub open spec fn shuffled<T>(xs: Seq<T>, state: u64, i: int) -> (Seq<T>, u64)
    decreases i,
{
    if i <= 0 {
        (xs, state)
    } else {
        let next = stirred(state);
        shuffled(swapped(xs, i, drawn(next) as int % (i + 1)), next, i - 1)
    }
}

/// A shuffle only reorders.
pub proof fn law_shuffle_permutes<T>(xs: Seq<T>, state: u64, i: int)
    requires
        i < xs.len(),
    ensures
        shuffled(xs, state, i).0.to_multiset() == xs.to_multiset(),
        shuffled(xs, state, i).0.len() == xs.len(),
    decreases i,
{
    if i > 0 {
        let next = stirred(state);
        let j = drawn(next) as int % (i + 1);
        let ys = swapped(xs, i, j);
        law_shuffle_permutes(ys, next, i - 1);
        broadcast use vstd::seq_lib::group_to_multiset_ensures;

        let once = xs.update(i, xs[j]);
        assert(ys.to_multiset() =~= xs.to_multiset());
    }
}

impl Rng {
    /// A generator from fresh entropy; the state must not be zero.
    #[must_use]
    pub fn from_seed(seed: u64) -> (r: Self)
        ensures
            r.state == seed | 1,
            r.state != 0,
    {
        assert(seed | 1 != 0) by (bit_vector);
        Rng { state: seed | 1 }
    }

    pub fn next(&mut self) -> (v: u64)
        ensures
            final(self).state == stirred(old(self).state),
            v == drawn(final(self).state),
    {
        let mut x: u64 = self.state;
        x = x ^ (x >> 12);
        x = x ^ (x << 25);
        x = x ^ (x >> 27);
        self.state = x;
        x.wrapping_mul(0x2545_F491_4F6C_DD1D)
    }

    /// An index below `n`.
    pub fn pick(&mut self, n: usize) -> (i: usize)
        requires
            n > 0,
        ensures
            final(self).state == stirred(old(self).state),
            i == drawn(final(self).state) as int % n as int,
            i < n,
    {
        (self.next() % n as u64) as usize
    }

    /// Put `xs` in random order.
    pub fn shuffle<T: Copy>(&mut self, xs: &mut Vec<T>)
        ensures
            (final(xs)@, final(self).state) == shuffled(
                old(xs)@,
                old(self).state,
                old(xs)@.len() - 1,
            ),
            final(xs)@.to_multiset() == old(xs)@.to_multiset(),
    {
        proof {
            if xs@.len() > 0 {
                law_shuffle_permutes(xs@, self.state, xs@.len() - 1);
            }
        }
        if xs.len() == 0 {
            return;
        }
        let mut i: usize = xs.len() - 1;
        while i > 0
            invariant
                xs@.len() == old(xs)@.len(),
                i < xs@.len(),
                shuffled(xs@, self.state, i as int) == shuffled(
                    old(xs)@,
                    old(self).state,
                    old(xs)@.len() - 1,
                ),
                shuffled(old(xs)@, old(self).state, old(xs)@.len() - 1).0.to_multiset()
                    == old(xs)@.to_multiset(),
            decreases i,
        {
            let ghost before = xs@;
            assert(xs@.len() == xs.len());
            let j: usize = (self.next() % (i as u64 + 1)) as usize;
            let a = xs[i];
            let b = xs[j];
            xs.set(i, b);
            xs.set(j, a);
            assert(xs@ =~= swapped(before, i as int, j as int));
            i = i - 1;
        }
    }
}

/// Bit `c` of a mask.
pub open spec fn has_bit(mask: u64, c: u64) -> bool {
    (mask >> c) & 1 == 1
}

proof fn lemma_set_bit(mask: u64, c: u64)
    requires
        c < 64,
    ensures
        forall|d: u64| d < 64 ==> #[trigger] has_bit(mask | (1u64 << c), d) == (has_bit(mask, d)
            || d == c),
{
    assert forall|d: u64| d < 64 implies #[trigger] has_bit(mask | (1u64 << c), d) == (has_bit(
        mask,
        d,
    ) || d == c) by {
        assert(((mask | (1u64 << c)) >> d) & 1 == 1 <==> (mask >> d) & 1 == 1 || d == c)
            by (bit_vector)
            requires
                c < 64,
                d < 64,
        ;
    }
}

/// The bounds that one part of a CPU list names: one number, or two with a
/// dash between. What is not a number counts as 0 in front of the dash and as
/// the lower bound behind it.
pub open spec fn cpu_range(part: Seq<char>) -> (int, int) {
    let at = crate::text::first_at(part, '-');
    let lo = match crate::text::number(crate::text::trimmed(part.take(at)), u32::MAX as int) {
        Some(v) => v,
        None => 0,
    };
    let hi = if at < part.len() {
        match crate::text::number(crate::text::trimmed(part.skip(at + 1)), u32::MAX as int) {
            Some(v) => v,
            None => lo,
        }
    } else {
        lo
    };
    (lo, hi)
}

/// Whether CPU `c` is in one of the first `n` parts.
pub open spec fn listed(parts: Seq<Seq<char>>, n: int, c: int) -> bool {
    exists|k: int|
        0 <= k < n && (#[trigger] parts[k]).len() > 0 && cpu_range(parts[k]).0 <= c <= cpu_range(
            parts[k],
        ).1
}

/// The parts of a CPU list.
pub open spec fn list_parts(s: Seq<char>) -> Seq<Seq<char>> {
    crate::text::pieces(crate::text::trimmed(s), ',')
}

/// The bounds that one part of a CPU list names.
fn parse_range(part: &[char]) -> (r: (u64, u64))
    ensures
        (r.0 as int, r.1 as int) == cpu_range(part@),
        r.0 <= u32::MAX,
        r.1 <= u32::MAX,
{
    let mut at: usize = 0;
    while at < part.len() && part[at] != '-'
        invariant
            at <= part@.len(),
            forall|k: int| 0 <= k < at ==> part@[k] != '-',
        decreases part@.len() - at,
    {
        at = at + 1;
    }
    proof {
        crate::text::lemma_first_at(part@, '-');
    }
    let first = vstd::slice::slice_subrange(part, 0, at);
    assert(first@ =~= part@.take(at as int));
    let lo: u64 = match parse_number(trim(first), 0xffff_ffff) {
        Some(v) => v,
        None => 0,
    };
    let hi: u64 = if at < part.len() {
        let second = vstd::slice::slice_subrange(part, at + 1, part.len());
        assert(second@ =~= part@.skip(at + 1));
        match parse_number(trim(second), 0xffff_ffff) {
            Some(v) => v,
            None => lo,
        }
    } else {
        lo
    };
    (lo, hi)
}

/// The mask of the CPUs in a list such as `0-3,8,10-11`; CPUs from 64 on have
/// no bit.
#[must_use]
pub fn parse_cpu_list(s: &[char]) -> (mask: u64)
    ensures
        forall|c: u64|
            c < 64 ==> (#[trigger] has_bit(mask, c) <==> listed(
                list_parts(s@),
                list_parts(s@).len() as int,
                c as int,
            )),
{
    let parts = split(trim(s), ',');
    let ghost named = list_parts(s@);
    let mut mask: u64 = 0;
    proof {
        assert forall|c: u64| c < 64 implies (#[trigger] has_bit(mask, c) <==> listed(
            named,
            0,
            c as int,
        )) by {
            assert((0u64 >> c) & 1 == 0) by (bit_vector);
        }
    }
    let mut k: usize = 0;
    while k < parts.len()
        invariant
            k <= parts@.len(),
            named == list_parts(s@),
            parts@.len() == named.len(),
            forall|j: int| 0 <= j < parts@.len() ==> (#[trigger] parts@[j])@ == named[j],
            forall|c: u64|
                c < 64 ==> (#[trigger] has_bit(mask, c) <==> listed(named, k as int, c as int)),
        decreases parts@.len() - k,
    {
        let part = parts[k];
        let ghost before = mask;
        assert(part@ == named[k as int]);
        if part.len() > 0 {
            let (lo, hi) = parse_range(part);
            let mut c: u64 = lo;
            while c <= hi && c < 64
                invariant
                    lo <= c,
                    c <= 64 || c == lo,
                    c <= hi + 1 || c == lo,
                    hi <= u32::MAX,
                    lo <= u32::MAX,
                    forall|d: u64|
                        d < 64 ==> (#[trigger] has_bit(mask, d) <==> has_bit(before, d) || (lo <= d
                            < c)),
                decreases 64 - c,
            {
                proof {
                    lemma_set_bit(mask, c);
                }
                mask = mask | (1u64 << c);
                c = c + 1;
            }
            assert(cpu_range(named[k as int]) == (lo as int, hi as int));
        }
        proof {
            assert forall|c: u64| c < 64 implies (#[trigger] has_bit(mask, c) <==> listed(
                named,
                k + 1,
                c as int,
            )) by {
                let now = named[k as int].len() > 0 && cpu_range(named[k as int]).0 <= c
                    <= cpu_range(named[k as int]).1;
                assert(has_bit(mask, c) <==> has_bit(before, c) || now);
                if listed(named, k + 1, c as int) {
                    let j = choose|j: int|
                        0 <= j < k + 1 && (#[trigger] named[j]).len() > 0 && cpu_range(
                            named[j],
                        ).0 <= c <= cpu_range(named[j]).1;
                    if j < k {
                        assert(listed(named, k as int, c as int));
                    }
                }
                if listed(named, k as int, c as int) {
                    let j = choose|j: int|
                        0 <= j < k && (#[trigger] named[j]).len() > 0 && cpu_range(named[j]).0
                            <= c <= cpu_range(named[j]).1;
                    assert(named[j].len() > 0);
                }
                if now {
                    assert(named[k as int].len() > 0);
                }
            }
        }
        k = k + 1;
    }
    mask
}

/// The part of an affinity domain that the process may run on, if there is
/// any.
#[must_use]
pub fn usable_mask(list: &[char], allowed: u64) -> (mask: Option<u64>)
    ensures
        match mask {
            Some(m) => m != 0 && forall|c: u64|
                c < 64 ==> (#[trigger] has_bit(m, c) <==> has_bit(allowed, c) && listed(
                    list_parts(list@),
                    list_parts(list@).len() as int,
                    c as int,
                )),
            None => forall|c: u64|
                c < 64 && #[trigger] has_bit(allowed, c) ==> !listed(
                    list_parts(list@),
                    list_parts(list@).len() as int,
                    c as int,
                ),
        },
{
    let all: u64 = parse_cpu_list(list);
    let m: u64 = all & allowed;
    proof {
        assert forall|c: u64| c < 64 implies (#[trigger] has_bit(m, c) <==> has_bit(all, c)
            && has_bit(allowed, c)) by {
            assert(((all & allowed) >> c) & 1 == 1 <==> (all >> c) & 1 == 1 && (allowed >> c) & 1
                == 1) by (bit_vector);
        }
        if m == 0 {
            assert forall|c: u64| c < 64 implies !(#[trigger] has_bit(allowed, c) && has_bit(all, c)) by {
                assert((0u64 >> c) & 1 == 0) by (bit_vector);
                assert(!has_bit(m, c));
            }
        }
    }
    if m != 0 {
        Some(m)
    } else {
        None
    }
}

/// The text in front of comment lines.
pub open spec fn comment() -> Seq<char> {
    seq!['#']
}

/// The text in front of the heading.
pub open spec fn heading() -> Seq<char> {
    seq!['b', 'l', 'o', 'c', 'k']
}

/// Whether a line is a comment or the heading.
pub open spec fn is_aside(line: Seq<char>) -> bool {
    comment().is_prefix_of(line) || heading().is_prefix_of(line)
}

fn aside(line: &[char]) -> (b: bool)
    ensures
        b == is_aside(line@),
{
    let hash: Vec<char> = vec!['#'];
    let block: Vec<char> = vec!['b', 'l', 'o', 'c', 'k'];
    assert(hash@ =~= comment());
    assert(block@ =~= heading());
    begins_with(line, hash.as_slice()) || begins_with(line, block.as_slice())
}

/// The block number in front of a line of results, if there is one.
pub open spec fn block_id(line: Seq<char>) -> Option<int> {
    if is_aside(line) {
        None
    } else {
        crate::text::number(crate::text::pieces(line, ',')[0], u64::MAX as int)
    }
}

/// The highest block number in the first `n` lines.
pub open spec fn highest_id(ls: Seq<Seq<char>>, n: int) -> Option<int>
    decreases n,
{
    if n <= 0 {
        None
    } else {
        let before = highest_id(ls, n - 1);
        match block_id(ls[n - 1]) {
            None => before,
            Some(id) => if before is Some && id < before.unwrap() {
                before
            } else {
                Some(id)
            },
        }
    }
}

/// No block number in the file is above the highest, so the next block gets a
/// number that no line has: results of separate runs concatenate.
pub proof fn law_block_numbers_continue(ls: Seq<Seq<char>>, n: int, k: int)
    requires
        0 <= k < n <= ls.len(),
        block_id(ls[k]) is Some,
    ensures
        highest_id(ls, n) is Some,
        block_id(ls[k]).unwrap() <= highest_id(ls, n).unwrap(),
    decreases n,
{
    if k < n - 1 {
        law_block_numbers_continue(ls, n - 1, k);
    }
}

/// The highest block number in a file of results.
#[must_use]
pub fn highest_block_id(content: &[char]) -> (id: Option<u64>)
    ensures
        ({
            let ls = crate::text::lines_of(content@);
            match id {
                Some(v) => highest_id(ls, ls.len() as int) == Some(v as int),
                None => highest_id(ls, ls.len() as int) is None,
            }
        }),
{
    let ls = lines(content);
    let ghost all = crate::text::lines_of(content@);
    let mut highest: Option<u64> = None;
    let mut k: usize = 0;
    while k < ls.len()
        invariant
            k <= ls@.len(),
            ls@.len() == all.len(),
            forall|j: int| 0 <= j < ls@.len() ==> (#[trigger] ls@[j])@ == all[j],
            match highest {
                Some(v) => highest_id(all, k as int) == Some(v as int),
                None => highest_id(all, k as int) is None,
            },
        decreases ls@.len() - k,
    {
        let line = ls[k];
        assert(line@ == all[k as int]);
        if !aside(line) {
            let fields = split(line, ',');
            proof {
                crate::text::lemma_some_piece(line@, ',');
            }
            let first = fields[0];
            assert(first@ == crate::text::pieces(line@, ',')[0]);
            if let Some(id) = parse_number(first, 0xffff_ffff_ffff_ffff) {
                highest = match highest {
                    Some(h) => if id < h {
                        Some(h)
                    } else {
                        Some(id)
                    },
                    None => Some(id),
                };
            }
        }
        k = k + 1;
    }
    highest
}

/// The number of the next block, so that results concatenate: one more than
/// the highest in the file so far, or 0.
#[must_use]
pub fn next_block_id(content: &[char]) -> (id: u64)
    requires
        ({
            let ls = crate::text::lines_of(content@);
            highest_id(ls, ls.len() as int) != Some(u64::MAX as int)
        }),
    ensures
        ({
            let ls = crate::text::lines_of(content@);
            id == match highest_id(ls, ls.len() as int) {
                Some(h) => h + 1,
                None => 0,
            }
        }),
{
    match highest_block_id(content) {
        Some(h) => h + 1,
        None => 0,
    }
}

/// Whether the cpufreq governor is the one that makes for quiet blocks.
#[must_use]
pub fn is_performance_governor(text: &[char]) -> (b: bool)
    ensures
        b == (crate::text::trimmed(text@) == seq![
            'p',
            'e',
            'r',
            'f',
            'o',
            'r',
            'm',
            'a',
            'n',
            'c',
            'e',
        ]),
{
    let want: Vec<char> = vec!['p', 'e', 'r', 'f', 'o', 'r', 'm', 'a', 'n', 'c', 'e'];
    assert(want@ =~= seq!['p', 'e', 'r', 'f', 'o', 'r', 'm', 'a', 'n', 'c', 'e']);
    same(trim(text), want.as_slice())
}

/// How a line of `/proc/cpuinfo` that names the model begins.
pub open spec fn model_key() -> Seq<char> {
    seq!['m', 'o', 'd', 'e', 'l', ' ', 'n', 'a', 'm', 'e']
}

/// The model that a line names, which is what follows the colon.
pub open spec fn model_in(line: Seq<char>) -> Seq<char> {
    let at = crate::text::first_at(line, ':');
    if at < line.len() {
        crate::text::trimmed(line.skip(at + 1))
    } else {
        seq!['?']
    }
}

/// The model named by the first line from `k` on that names one.
pub open spec fn first_model(ls: Seq<Seq<char>>, k: int) -> Option<Seq<char>>
    decreases ls.len() - k,
{
    if k >= ls.len() {
        None
    } else if model_key().is_prefix_of(ls[k]) {
        Some(model_in(ls[k]))
    } else {
        first_model(ls, k + 1)
    }
}

/// The model that a line names.
fn model_on(line: &[char]) -> (m: Vec<char>)
    ensures
        m@ == model_in(line@),
{
    let mut at: usize = 0;
    while at < line.len() && line[at] != ':'
        invariant
            at <= line@.len(),
            forall|j: int| 0 <= j < at ==> line@[j] != ':',
        decreases line@.len() - at,
    {
        at = at + 1;
    }
    proof {
        crate::text::lemma_first_at(line@, ':');
    }
    if at < line.len() {
        let value = vstd::slice::slice_subrange(line, at + 1, line.len());
        assert(value@ =~= line@.skip(at + 1));
        return vstd::slice::slice_to_vec(trim(value));
    }
    vec!['?']
}

/// The CPU model in `/proc/cpuinfo`.
#[must_use]
pub fn cpu_model(cpuinfo: &[char]) -> (model: Option<Vec<char>>)
    ensures
        match model {
            Some(m) => first_model(crate::text::lines_of(cpuinfo@), 0) == Some(m@),
            None => first_model(crate::text::lines_of(cpuinfo@), 0) is None,
        },
{
    let ls = lines(cpuinfo);
    let ghost all = crate::text::lines_of(cpuinfo@);
    let key: Vec<char> = vec!['m', 'o', 'd', 'e', 'l', ' ', 'n', 'a', 'm', 'e'];
    assert(key@ =~= model_key());
    let mut k: usize = 0;
    while k < ls.len()
        invariant
            k <= ls@.len(),
            ls@.len() == all.len(),
            forall|j: int| 0 <= j < ls@.len() ==> (#[trigger] ls@[j])@ == all[j],
            key@ == model_key(),
            all == crate::text::lines_of(cpuinfo@),
            first_model(all, 0) == first_model(all, k as int),
        decreases ls@.len() - k,
    {
        let line = ls[k];
        assert(line@ == all[k as int]);
        if begins_with(line, key.as_slice()) {
            return Some(model_on(line));
        }
        k = k + 1;
    }
    None
}

/// One line of results.
#[derive(Debug)]
pub struct Row {
    /// Index of the source file: block ids from different files both start at
    /// zero, so blocks are only identified by (file, block).
    pub file: usize,
    pub block: u64,
    pub domain: Vec<char>,
    pub threads: usize,
    pub ops: u64,
    pub arm: Vec<char>,
    /// The throughput as it was written.
    pub mops: Vec<char>,
    pub aborts: u64,
}

/// The contents of a row.
pub struct RowText {
    pub file: usize,
    pub block: u64,
    pub domain: Seq<char>,
    pub threads: usize,
    pub ops: u64,
    pub arm: Seq<char>,
    pub mops: Seq<char>,
    pub aborts: u64,
}

impl View for Row {
    type V = RowText;

    open spec fn view(&self) -> RowText {
        RowText {
            file: self.file,
            block: self.block,
            domain: self.domain@,
            threads: self.threads,
            ops: self.ops,
            arm: self.arm@,
            mops: self.mops@,
            aborts: self.aborts,
        }
    }
}

/// The number in a field, with 0 for what is none.
pub open spec fn number_or_zero(s: Seq<char>, max: int) -> int {
    match crate::text::number(s, max) {
        Some(v) => v,
        None => 0,
    }
}

/// The row on a line: nothing on comments, on the heading, on an empty line,
/// and where the number of fields is wrong.
pub open spec fn row_on(file: usize, line: Seq<char>) -> Option<RowText> {
    let f = crate::text::pieces(line, ',');
    if is_aside(line) || line.len() == 0 || f.len() != 8 {
        None
    } else {
        Some(
            RowText {
                file,
                block: number_or_zero(f[0], u64::MAX as int) as u64,
                domain: f[1],
                threads: number_or_zero(f[2], usize::MAX as int) as usize,
                ops: number_or_zero(f[3], u64::MAX as int) as u64,
                arm: f[4],
                mops: f[6],
                aborts: number_or_zero(f[7], u64::MAX as int) as u64,
            },
        )
    }
}

/// The rows on the first `n` lines.
pub open spec fn rows_on(file: usize, ls: Seq<Seq<char>>, n: int) -> Seq<RowText>
    decreases n,
{
    if n <= 0 {
        seq![]
    } else {
        match row_on(file, ls[n - 1]) {
            Some(r) => rows_on(file, ls, n - 1).push(r),
            None => rows_on(file, ls, n - 1),
        }
    }
}

/// The rows of the first `n` files.
pub open spec fn rows_of(contents: Seq<Vec<char>>, n: int) -> Seq<RowText>
    decreases n,
{
    if n <= 0 {
        seq![]
    } else {
        let ls = crate::text::lines_of(contents[n - 1]@);
        rows_of(contents, n - 1) + rows_on((n - 1) as usize, ls, ls.len() as int)
    }
}

/// The number in a field, with 0 for what is none.
fn parse_or_zero(s: &[char], max: u64) -> (v: u64)
    ensures
        v == number_or_zero(s@, max as int),
        v <= max,
{
    match parse_number(s, max) {
        Some(v) => v,
        None => 0,
    }
}

/// The row on a line.
fn parse_row(file: usize, line: &[char]) -> (row: Option<Row>)
    ensures
        match row {
            Some(r) => row_on(file, line@) == Some(r@),
            None => row_on(file, line@) is None,
        },
{
    if aside(line) || line.len() == 0 {
        return None;
    }
    let f = split(line, ',');
    if f.len() != 8 {
        return None;
    }
    proof {
        let p = crate::text::pieces(line@, ',');
        assert(f@[0]@ == p[0]);
        assert(f@[1]@ == p[1]);
        assert(f@[2]@ == p[2]);
        assert(f@[3]@ == p[3]);
        assert(f@[4]@ == p[4]);
        assert(f@[6]@ == p[6]);
        assert(f@[7]@ == p[7]);
    }
    let row = Row {
        file,
        block: parse_or_zero(f[0], u64::MAX),
        domain: vstd::slice::slice_to_vec(f[1]),
        threads: parse_or_zero(f[2], usize::MAX as u64) as usize,
        ops: parse_or_zero(f[3], u64::MAX),
        arm: vstd::slice::slice_to_vec(f[4]),
        mops: vstd::slice::slice_to_vec(f[6]),
        aborts: parse_or_zero(f[7], u64::MAX),
    };
    Some(row)
}

/// The contents of rows.
pub open spec fn row_texts(rows: Seq<Row>) -> Seq<RowText> {
    Seq::new(rows.len(), |k: int| rows[k]@)
}

/// The rows of every file, in order.
#[must_use]
pub fn read_rows(contents: &Vec<Vec<char>>) -> (rows: Vec<Row>)
    ensures
        row_texts(rows@) == rows_of(contents@, contents@.len() as int),
{
    let mut rows: Vec<Row> = Vec::new();
    let mut file: usize = 0;
    assert(row_texts(rows@) =~= rows_of(contents@, 0));
    while file < contents.len()
        invariant
            file <= contents@.len(),
            row_texts(rows@) == rows_of(contents@, file as int),
        decreases contents@.len() - file,
    {
        let ls = lines(contents[file].as_slice());
        let ghost all = crate::text::lines_of(contents@[file as int]@);
        let ghost before = row_texts(rows@);
        let mut k: usize = 0;
        assert(row_texts(rows@) =~= before + rows_on(file, all, 0));
        while k < ls.len()
            invariant
                k <= ls@.len(),
                ls@.len() == all.len(),
                forall|j: int| 0 <= j < ls@.len() ==> (#[trigger] ls@[j])@ == all[j],
                row_texts(rows@) == before + rows_on(file, all, k as int),
            decreases ls@.len() - k,
        {
            let line = ls[k];
            assert(line@ == all[k as int]);
            let ghost so_far = rows@;
            if let Some(row) = parse_row(file, line) {
                rows.push(row);
                assert(row_texts(rows@) =~= row_texts(so_far).push(row@));
            }
            k = k + 1;
            assert(row_texts(rows@) =~= before + rows_on(file, all, k as int));
        }
        file = file + 1;
    }
    rows
}

} // verus!
