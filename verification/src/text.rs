//! Text in the forms the benchmark reads: lines, fields, and numbers.
//!
//! Text is a slice of characters throughout.

use vstd::prelude::*;
use vstd::slice::slice_subrange;

verus! {

/// The characters with the Unicode property White_Space.
pub open spec fn is_white(c: char) -> bool {
    let n = c as u32;
    ||| 0x09 <= n <= 0x0d
    ||| n == 0x20
    ||| n == 0x85
    ||| n == 0xa0
    ||| n == 0x1680
    ||| 0x2000 <= n <= 0x200a
    ||| n == 0x2028
    ||| n == 0x2029
    ||| n == 0x202f
    ||| n == 0x205f
    ||| n == 0x3000
}

fn white(c: char) -> (b: bool)
    ensures
        b == is_white(c),
{
    let n: u32 = c as u32;
    (0x09 <= n && n <= 0x0d) || n == 0x20 || n == 0x85 || n == 0xa0 || n == 0x1680 || (0x2000 <= n
        && n <= 0x200a) || n == 0x2028 || n == 0x2029 || n == 0x202f || n == 0x205f || n == 0x3000
}

/// Without white space in front.
pub open spec fn trimmed_front(s: Seq<char>) -> Seq<char>
    decreases s.len(),
{
    if s.len() > 0 && is_white(s[0]) {
        trimmed_front(s.drop_first())
    } else {
        s
    }
}

/// Without white space behind.
pub open spec fn trimmed_back(s: Seq<char>) -> Seq<char>
    decreases s.len(),
{
    if s.len() > 0 && is_white(s.last()) {
        trimmed_back(s.drop_last())
    } else {
        s
    }
}

/// Without white space at either end.
pub open spec fn trimmed(s: Seq<char>) -> Seq<char> {
    trimmed_back(trimmed_front(s))
}

/// Without white space at either end.
#[must_use]
pub fn trim<'a>(s: &'a [char]) -> (t: &'a [char])
    ensures
        t@ == trimmed(s@),
{
    let mut from: usize = 0;
    assert(s@.subrange(0, s@.len() as int) =~= s@);
    while from < s.len() && white(s[from])
        invariant
            from <= s@.len(),
            trimmed_front(s@) == trimmed_front(s@.subrange(from as int, s@.len() as int)),
        decreases s@.len() - from,
    {
        assert(s@.subrange(from as int, s@.len() as int).drop_first() =~= s@.subrange(
            from + 1,
            s@.len() as int,
        ));
        from = from + 1;
    }
    let ghost front = s@.subrange(from as int, s@.len() as int);
    let mut to: usize = s.len();
    while to > from && white(s[to - 1])
        invariant
            from <= to <= s@.len(),
            front == s@.subrange(from as int, s@.len() as int),
            trimmed_back(front) == trimmed_back(s@.subrange(from as int, to as int)),
        decreases to,
    {
        assert(s@.subrange(from as int, to as int).drop_last() =~= s@.subrange(
            from as int,
            to - 1,
        ));
        to = to - 1;
    }
    slice_subrange(s, from, to)
}

/// Position of the first `sep`, or the length if there is none.
pub open spec fn first_at(s: Seq<char>, sep: char) -> int
    decreases s.len(),
{
    if s.len() == 0 || s[0] == sep {
        0
    } else {
        1 + first_at(s.drop_first(), sep)
    }
}

/// The pieces between the separators.
pub open spec fn pieces(s: Seq<char>, sep: char) -> Seq<Seq<char>>
    decreases s.len(),
{
    let at = first_at(s, sep);
    if 0 <= at < s.len() {
        seq![s.take(at)] + pieces(s.skip(at + 1), sep)
    } else {
        seq![s]
    }
}

pub proof fn lemma_first_at(s: Seq<char>, sep: char)
    ensures
        0 <= first_at(s, sep) <= s.len(),
        forall|k: int| 0 <= k < first_at(s, sep) ==> s[k] != sep,
        first_at(s, sep) < s.len() ==> s[first_at(s, sep)] == sep,
    decreases s.len(),
{
    if s.len() > 0 && s[0] != sep {
        let rest = s.drop_first();
        lemma_first_at(rest, sep);
        assert forall|k: int| 0 <= k < first_at(s, sep) implies s[k] != sep by {
            if k > 0 {
                assert(s[k] == rest[k - 1]);
            }
        }
    }
}

/// The first position is determined by what is before it and at it.
proof fn lemma_first_is(s: Seq<char>, sep: char, at: int)
    requires
        0 <= at <= s.len(),
        forall|k: int| 0 <= k < at ==> s[k] != sep,
        at < s.len() ==> s[at] == sep,
    ensures
        first_at(s, sep) == at,
{
    lemma_first_at(s, sep);
}

/// Position of the first `sep` from `from` on, or the length.
fn find(s: &[char], from: usize, sep: char) -> (at: usize)
    requires
        from <= s@.len(),
    ensures
        from <= at <= s@.len(),
        at - from == first_at(s@.skip(from as int), sep),
{
    let mut at: usize = from;
    while at < s.len() && s[at] != sep
        invariant
            from <= at <= s@.len(),
            forall|k: int| from <= k < at ==> s@[k] != sep,
        decreases s@.len() - at,
    {
        at = at + 1;
    }
    proof {
        lemma_first_is(s@.skip(from as int), sep, at - from);
    }
    at
}

/// The pieces between the separators.
#[must_use]
pub fn split<'a>(s: &'a [char], sep: char) -> (parts: Vec<&'a [char]>)
    ensures
        parts@.len() == pieces(s@, sep).len(),
        forall|k: int| 0 <= k < parts@.len() ==> (#[trigger] parts@[k])@ == pieces(s@, sep)[k],
{
    let mut parts: Vec<&'a [char]> = Vec::new();
    let mut from: usize = 0;
    assert(s@.skip(0) =~= s@);
    let mut at: usize = find(s, 0, sep);
    while at < s.len()
        invariant
            from <= at <= s@.len(),
            at - from == first_at(s@.skip(from as int), sep),
            pieces(s@, sep).len() == parts@.len() + pieces(s@.skip(from as int), sep).len(),
            forall|k: int| 0 <= k < parts@.len() ==> (#[trigger] parts@[k])@ == pieces(s@, sep)[k],
            forall|k: int|
                0 <= k < pieces(s@.skip(from as int), sep).len() ==> #[trigger] pieces(
                    s@.skip(from as int),
                    sep,
                )[k] == pieces(s@, sep)[parts@.len() + k],
        decreases s@.len() - from,
    {
        let ghost rest = s@.skip(from as int);
        let ghost done = parts@.len();
        let part = slice_subrange(s, from, at);
        proof {
            assert(rest.take(at - from) =~= part@);
            assert(rest.skip(at - from + 1) =~= s@.skip(at + 1));
            let later = pieces(s@.skip(at + 1), sep);
            let now = pieces(rest, sep);
            assert(now == seq![rest.take(at - from)] + later);
            assert(now[0] == part@);
            assert(now.len() == later.len() + 1);
            assert forall|k: int| 0 <= k < later.len() implies #[trigger] later[k] == pieces(
                s@,
                sep,
            )[done + 1 + k] by {
                assert(now[k + 1] == later[k]);
                assert(now[k + 1] == pieces(s@, sep)[done + (k + 1)]);
            }
        }
        parts.push(part);
        from = at + 1;
        at = find(s, from, sep);
    }
    let part = slice_subrange(s, from, s.len());
    proof {
        let rest = s@.skip(from as int);
        assert(part@ =~= rest);
        assert(pieces(rest, sep) == seq![rest]);
        assert(pieces(rest, sep)[0] == pieces(s@, sep)[parts@.len() as int]);
    }
    parts.push(part);
    parts
}

/// A line that was ended by a line feed, without the carriage return that may
/// come before that.
pub open spec fn without_return(s: Seq<char>) -> Seq<char> {
    if s.len() > 0 && s.last() == '\r' {
        s.drop_last()
    } else {
        s
    }
}

/// The lines of a text. The line feed that ends the last line is optional.
pub open spec fn lines_of(s: Seq<char>) -> Seq<Seq<char>> {
    let parts = pieces(s, '\n');
    let ended = Seq::new((parts.len() - 1) as nat, |k: int| without_return(parts[k]));
    if parts.last().len() == 0 {
        ended
    } else {
        ended.push(parts.last())
    }
}

/// There is always a piece.
pub proof fn lemma_some_piece(s: Seq<char>, sep: char)
    ensures
        pieces(s, sep).len() > 0,
{
}

/// The lines of a text.
#[must_use]
pub fn lines<'a>(s: &'a [char]) -> (ls: Vec<&'a [char]>)
    ensures
        ls@.len() == lines_of(s@).len(),
        forall|k: int| 0 <= k < ls@.len() ==> (#[trigger] ls@[k])@ == lines_of(s@)[k],
{
    let parts = split(s, '\n');
    proof {
        lemma_some_piece(s@, '\n');
    }
    let mut ls: Vec<&'a [char]> = Vec::new();
    let mut k: usize = 0;
    while k < parts.len() - 1
        invariant
            parts@.len() > 0,
            k <= parts@.len() - 1,
            parts@.len() == pieces(s@, '\n').len(),
            forall|j: int|
                0 <= j < parts@.len() ==> (#[trigger] parts@[j])@ == pieces(s@, '\n')[j],
            ls@.len() == k,
            forall|j: int|
                0 <= j < k ==> (#[trigger] ls@[j])@ == without_return(pieces(s@, '\n')[j]),
        decreases parts@.len() - k,
    {
        let part = parts[k];
        if part.len() > 0 && part[part.len() - 1] == '\r' {
            let shorter = slice_subrange(part, 0, part.len() - 1);
            assert(shorter@ =~= part@.drop_last());
            ls.push(shorter);
        } else {
            ls.push(part);
        }
        k = k + 1;
    }
    let last = parts[parts.len() - 1];
    assert(last@ == pieces(s@, '\n').last());
    if last.len() > 0 {
        ls.push(last);
    }
    ls
}

/// Whether the two texts are the same.
#[must_use]
pub fn same(a: &[char], b: &[char]) -> (r: bool)
    ensures
        r == (a@ == b@),
{
    if a.len() != b.len() {
        return false;
    }
    let mut k: usize = 0;
    while k < a.len()
        invariant
            a@.len() == b@.len(),
            k <= a@.len(),
            forall|j: int| 0 <= j < k ==> a@[j] == b@[j],
        decreases a@.len() - k,
    {
        if a[k] != b[k] {
            return false;
        }
        k = k + 1;
    }
    assert(a@ =~= b@);
    true
}

/// Whether `s` begins with `front`.
#[must_use]
pub fn begins_with(s: &[char], front: &[char]) -> (r: bool)
    ensures
        r == front@.is_prefix_of(s@),
{
    if s.len() < front.len() {
        return false;
    }
    let start = slice_subrange(s, 0, front.len());
    let r = same(start, front);
    proof {
        if r {
            assert(s@.take(front@.len() as int) =~= start@);
        }
        if front@.is_prefix_of(s@) {
            assert(start@ =~= front@);
        }
    }
    r
}

/// Whether `a` comes before `b` in the order of their code points.
pub open spec fn precedes(a: Seq<char>, b: Seq<char>) -> bool
    decreases a.len(),
{
    if b.len() == 0 {
        false
    } else if a.len() == 0 {
        true
    } else if a[0] != b[0] {
        (a[0] as int) < (b[0] as int)
    } else {
        precedes(a.drop_first(), b.drop_first())
    }
}

/// Of two different texts one comes before the other, and not both.
pub proof fn law_text_order(a: Seq<char>, b: Seq<char>)
    ensures
        precedes(a, b) || precedes(b, a) || a == b,
        !(precedes(a, b) && precedes(b, a)),
        !precedes(a, a),
    decreases a.len(),
{
    if a.len() > 0 {
        if b.len() > 0 {
            law_text_order(a.drop_first(), b.drop_first());
            if a[0] == b[0] && a.drop_first() == b.drop_first() {
                assert(a =~= seq![a[0]] + a.drop_first());
                assert(b =~= seq![b[0]] + b.drop_first());
            }
        } else {
            law_text_order(a.drop_first(), a.drop_first());
        }
    } else if b.len() == 0 {
        assert(a =~= b);
    }
}

/// The order is transitive.
pub proof fn law_text_order_chains(a: Seq<char>, b: Seq<char>, c: Seq<char>)
    requires
        precedes(a, b),
        precedes(b, c),
    ensures
        precedes(a, c),
    decreases a.len(),
{
    if a.len() > 0 && a[0] == b[0] && b[0] == c[0] {
        law_text_order_chains(a.drop_first(), b.drop_first(), c.drop_first());
    }
}

/// Whether `a` comes before `b`.
#[must_use]
pub fn comes_before(a: &[char], b: &[char]) -> (r: bool)
    ensures
        r == precedes(a@, b@),
{
    let mut k: usize = 0;
    assert(a@.skip(0) =~= a@);
    assert(b@.skip(0) =~= b@);
    while k < a.len() && k < b.len()
        invariant
            k <= a@.len(),
            k <= b@.len(),
            precedes(a@, b@) == precedes(a@.skip(k as int), b@.skip(k as int)),
        decreases a@.len() - k,
    {
        assert(a@.skip(k as int)[0] == a@[k as int]);
        assert(b@.skip(k as int)[0] == b@[k as int]);
        let x: char = a[k];
        let y: char = b[k];
        if x != y {
            assert(a@.skip(k as int)[0] != b@.skip(k as int)[0]);
            return x < y;
        }
        assert(a@.skip(k as int).drop_first() =~= a@.skip(k + 1));
        assert(b@.skip(k as int).drop_first() =~= b@.skip(k + 1));
        k = k + 1;
    }
    k < b.len()
}

/// The value of a decimal digit.
pub open spec fn digit(c: char) -> int {
    c as u32 - 48
}

pub open spec fn is_digit(c: char) -> bool {
    48 <= c as u32 <= 57
}

/// Whether all characters are decimal digits.
pub open spec fn all_digits(s: Seq<char>) -> bool {
    forall|k: int| 0 <= k < s.len() ==> is_digit(#[trigger] s[k])
}

/// The value of a row of decimal digits.
pub open spec fn decimal(s: Seq<char>) -> int
    decreases s.len(),
{
    if s.len() == 0 {
        0
    } else {
        decimal(s.drop_last()) * 10 + digit(s.last())
    }
}

/// The unsigned number that a text spells, if it spells one that is at most
/// `max`: decimal digits, with at most a plus sign in front.
pub open spec fn number(s: Seq<char>, max: int) -> Option<int> {
    let digits = if s.len() > 0 && s[0] == '+' {
        s.drop_first()
    } else {
        s
    };
    if digits.len() > 0 && all_digits(digits) && decimal(digits) <= max {
        Some(decimal(digits))
    } else {
        None
    }
}

proof fn lemma_decimal_grows(s: Seq<char>, k: int)
    requires
        all_digits(s),
        0 <= k <= s.len(),
    ensures
        0 <= decimal(s.take(k)) <= decimal(s),
    decreases s.len() + (s.len() - k),
{
    if k == s.len() {
        assert(s.take(k) =~= s);
        if s.len() > 0 {
            let shorter = s.drop_last();
            assert(is_digit(s[s.len() - 1]));
            assert(all_digits(shorter)) by {
                assert forall|j: int| 0 <= j < shorter.len() implies is_digit(
                    #[trigger] shorter[j],
                ) by {
                    assert(is_digit(s[j]));
                }
            }
            lemma_decimal_grows(shorter, shorter.len() as int);
            assert(shorter.take(shorter.len() as int) =~= shorter);
        }
    } else {
        let shorter = s.drop_last();
        assert(is_digit(s[s.len() - 1]));
        assert(all_digits(shorter)) by {
            assert forall|j: int| 0 <= j < shorter.len() implies is_digit(#[trigger] shorter[j]) by {
                assert(is_digit(s[j]));
            }
        }
        lemma_decimal_grows(shorter, k);
        assert(shorter.take(k) =~= s.take(k));
    }
}

/// The unsigned number that a text spells, if it is at most `max`.
#[must_use]
pub fn parse_number(s: &[char], max: u64) -> (res: Option<u64>)
    ensures
        match res {
            Some(v) => number(s@, max as int) == Some(v as int),
            None => number(s@, max as int) is None,
        },
{
    let from: usize = if s.len() > 0 && s[0] == '+' {
        1
    } else {
        0
    };
    let ghost digits = s@.skip(from as int);
    proof {
        assert(s@.skip(0) =~= s@);
        assert(from == 1 ==> s@.skip(1) =~= s@.drop_first());
    }
    if from == s.len() {
        return None;
    }
    let mut value: u64 = 0;
    let mut k: usize = from;
    assert(digits.take(0) =~= Seq::<char>::empty());
    while k < s.len()
        invariant
            from <= k <= s@.len(),
            digits == s@.skip(from as int),
            digits.len() > 0,
            number(s@, max as int) == (if digits.len() > 0 && all_digits(digits) && decimal(digits)
                <= max {
                Some(decimal(digits))
            } else {
                None
            }),
            forall|j: int| 0 <= j < k - from ==> is_digit(#[trigger] digits[j]),
            value == decimal(digits.take(k - from)),
            value <= max,
        decreases s@.len() - k,
    {
        let c: u32 = s[k] as u32;
        let ghost at = k - from;
        assert(digits[at] == s@[k as int]);
        if c < 48 || c > 57 {
            assert(!is_digit(digits[at]));
            return None;
        }
        let d: u64 = (c - 48) as u64;
        let ghost next = digits.take(at + 1);
        assert(next.drop_last() =~= digits.take(at));
        assert(decimal(next) == value * 10 + d);
        if d > max || value > (max - d) / 10 {
            proof {
                assert(value * 10 + d > max);
                if all_digits(digits) {
                    lemma_decimal_grows(digits, at + 1);
                }
            }
            return None;
        }
        value = value * 10 + d;
        k = k + 1;
    }
    assert(digits.take(k - from) =~= digits);
    Some(value)
}

} // verus!
