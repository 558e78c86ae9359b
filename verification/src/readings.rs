//! What is read back of what was written: numbers, fields, lines, rows of
//! results, block numbers and CPU lists.

use vstd::prelude::*;

verus! {

/// The character of a decimal digit.
pub open spec fn figure(d: int) -> char {
    if d == 0 {
        '0'
    } else if d == 1 {
        '1'
    } else if d == 2 {
        '2'
    } else if d == 3 {
        '3'
    } else if d == 4 {
        '4'
    } else if d == 5 {
        '5'
    } else if d == 6 {
        '6'
    } else if d == 7 {
        '7'
    } else if d == 8 {
        '8'
    } else {
        '9'
    }
}

/// A number written in decimal.
pub open spec fn written(n: nat) -> Seq<char>
    decreases n,
{
    if n < 10 {
        seq![figure(n as int)]
    } else {
        written(n / 10).push(figure((n % 10) as int))
    }
}

/// `k` zeros in front of a number.
pub open spec fn padded(k: nat, n: nat) -> Seq<char> {
    Seq::new(k, |i: int| '0') + written(n)
}

/// Whether a character is one of the ten digits.
pub open spec fn is_figure(c: char) -> bool {
    exists|d: int| 0 <= d < 10 && #[trigger] figure(d) == c
}

proof fn lemma_figure(d: int)
    requires
        0 <= d < 10,
    ensures
        crate::text::is_digit(figure(d)),
        crate::text::digit(figure(d)) == d,
{
}

proof fn lemma_digit_is_figure(c: char)
    requires
        crate::text::is_digit(c),
    ensures
        is_figure(c),
{
    let d = crate::text::digit(c);
    assert(figure(d) as int == c as int);
    assert(figure(d) == c);
}

proof fn lemma_written(n: nat)
    ensures
        written(n).len() > 0,
        crate::text::all_digits(written(n)),
        crate::text::decimal(written(n)) == n,
        written(n)[0] != '+',
        written(n)[0] != '#',
        written(n)[0] != 'b',
        forall|i: int| 0 <= i < written(n).len() ==> is_figure(#[trigger] written(n)[i]),
    decreases n,
{
    let s = written(n);
    if n < 10 {
        lemma_figure(n as int);
        assert(s.drop_last() =~= Seq::<char>::empty());
        assert(crate::text::decimal(s.drop_last()) == 0);
        assert(is_figure(figure(n as int)));
    } else {
        lemma_written(n / 10);
        lemma_figure((n % 10) as int);
        assert(s.drop_last() =~= written(n / 10));
        assert(is_figure(figure((n % 10) as int)));
        assert forall|i: int| 0 <= i < s.len() implies is_figure(#[trigger] s[i])
            && crate::text::is_digit(s[i]) by {
            if i < s.len() - 1 {
                assert(s[i] == written(n / 10)[i]);
            }
        }
    }
}

proof fn lemma_padded(k: nat, n: nat)
    ensures
        padded(k, n).len() > 0,
        crate::text::all_digits(padded(k, n)),
        crate::text::decimal(padded(k, n)) == n,
        padded(k, n)[0] != '+',
    decreases written(n).len(),
{
    lemma_written(n);
    let zeros = Seq::new(k, |i: int| '0');
    lemma_zeros(k);
    lemma_decimal_joined(zeros, written(n));
    let s = padded(k, n);
    assert forall|i: int| 0 <= i < s.len() implies crate::text::is_digit(#[trigger] s[i]) by {
        if i >= k {
            assert(s[i] == written(n)[i - k]);
        }
    }
    assert(s[0] == if k > 0 {
        '0'
    } else {
        written(n)[0]
    });
}

proof fn lemma_zeros(k: nat)
    ensures
        crate::text::decimal(Seq::new(k, |i: int| '0')) == 0,
    decreases k,
{
    if k > 0 {
        let zeros = Seq::new(k, |i: int| '0');
        lemma_zeros((k - 1) as nat);
        assert(zeros.drop_last() =~= Seq::new((k - 1) as nat, |i: int| '0'));
    }
}

proof fn lemma_decimal_joined(zeros: Seq<char>, s: Seq<char>)
    requires
        crate::text::decimal(zeros) == 0,
    ensures
        crate::text::decimal(zeros + s) == crate::text::decimal(s),
    decreases s.len(),
{
    if s.len() == 0 {
        assert(zeros + s =~= zeros);
    } else {
        lemma_decimal_joined(zeros, s.drop_last());
        assert((zeros + s).drop_last() =~= zeros + s.drop_last());
    }
}

/// Every number is read back: written in decimal, with any number of zeros in
/// front and a plus sign in front of those or not, it is read as what it is if
/// it is within the bound, and as nothing if it is not.
pub proof fn law_numbers_read_back(n: nat, zeros: nat, max: int)
    ensures
        crate::text::number(written(n), max) == if n <= max {
            Some(n as int)
        } else {
            None
        },
        crate::text::number(padded(zeros, n), max) == if n <= max {
            Some(n as int)
        } else {
            None
        },
        crate::text::number(seq!['+'] + padded(zeros, n), max) == if n <= max {
            Some(n as int)
        } else {
            None
        },
{
    lemma_written(n);
    lemma_padded(zeros, n);
    let signed = seq!['+'] + padded(zeros, n);
    assert(signed.drop_first() =~= padded(zeros, n));
}

/// Nothing else is a number: what is read as one has only digits, but for a
/// plus sign in front, and has at least one.
pub proof fn law_only_digits_are_numbers(s: Seq<char>, max: int)
    requires
        crate::text::number(s, max) is Some,
    ensures
        s.len() > 0,
        s[0] == '+' ==> s.len() > 1,
        forall|i: int| 0 <= i < s.len() ==> is_figure(#[trigger] s[i]) || (i == 0 && s[i] == '+'),
        0 <= crate::text::number(s, max).unwrap() <= max,
{
    let digits = if s[0] == '+' {
        s.drop_first()
    } else {
        s
    };
    lemma_decimal_positive(digits);
    assert forall|i: int| 0 <= i < s.len() implies is_figure(#[trigger] s[i]) || (i == 0 && s[i]
        == '+') by {
        if !(i == 0 && s[i] == '+') {
            let j = if s[0] == '+' {
                i - 1
            } else {
                i
            };
            assert(digits[j] == s[i]);
            assert(crate::text::is_digit(digits[j]));
            let d = crate::text::digit(s[i]);
            lemma_digit_is_figure(s[i]);
        }
    }
}

proof fn lemma_decimal_positive(s: Seq<char>)
    requires
        crate::text::all_digits(s),
    ensures
        crate::text::decimal(s) >= 0,
    decreases s.len(),
{
    if s.len() > 0 {
        assert(crate::text::is_digit(s[s.len() - 1]));
        assert forall|i: int| 0 <= i < s.drop_last().len() implies crate::text::is_digit(
            #[trigger] s.drop_last()[i],
        ) by {
            assert(crate::text::is_digit(s[i]));
        }
        lemma_decimal_positive(s.drop_last());
    }
}

/// Pieces with a separator between each two.
pub open spec fn joined(parts: Seq<Seq<char>>, sep: char) -> Seq<char>
    decreases parts.len(),
{
    if parts.len() == 0 {
        seq![]
    } else if parts.len() == 1 {
        parts[0]
    } else {
        parts[0] + seq![sep] + joined(parts.drop_first(), sep)
    }
}

/// The character does not occur.
pub open spec fn free_of(s: Seq<char>, c: char) -> bool {
    forall|i: int| 0 <= i < s.len() ==> #[trigger] s[i] != c
}

/// The character occurs in none of the parts.
pub open spec fn all_free_of(parts: Seq<Seq<char>>, c: char) -> bool {
    forall|k: int| 0 <= k < parts.len() ==> free_of(#[trigger] parts[k], c)
}

/// Pieces put together again are the text, and none of them holds the
/// separator.
pub proof fn law_pieces_rejoin(s: Seq<char>, sep: char)
    ensures
        crate::text::pieces(s, sep).len() > 0,
        joined(crate::text::pieces(s, sep), sep) == s,
        all_free_of(crate::text::pieces(s, sep), sep),
    decreases s.len(),
{
    crate::text::lemma_first_at(s, sep);
    let at = crate::text::first_at(s, sep);
    let all = crate::text::pieces(s, sep);
    if at < s.len() {
        let rest = s.skip(at + 1);
        law_pieces_rejoin(rest, sep);
        let later = crate::text::pieces(rest, sep);
        assert(all =~= seq![s.take(at)] + later);
        assert(all.drop_first() =~= later);
        assert(s =~= s.take(at) + seq![sep] + rest);
        assert forall|k: int| 0 <= k < all.len() implies free_of(#[trigger] all[k], sep) by {
            if k > 0 {
                assert(all[k] == later[k - 1]);
            }
        }
    } else {
        assert(all =~= seq![s]);
        assert(all[0] == s);
    }
}

proof fn lemma_first_is(s: Seq<char>, sep: char, at: int)
    requires
        0 <= at <= s.len(),
        forall|k: int| 0 <= k < at ==> s[k] != sep,
        at < s.len() ==> s[at] == sep,
    ensures
        crate::text::first_at(s, sep) == at,
{
    crate::text::lemma_first_at(s, sep);
}

/// Parts without the separator, put together with it, come apart as they were.
pub proof fn law_joined_parts_come_apart(parts: Seq<Seq<char>>, sep: char)
    requires
        parts.len() > 0,
        all_free_of(parts, sep),
    ensures
        crate::text::pieces(joined(parts, sep), sep) == parts,
    decreases parts.len(),
{
    let s = joined(parts, sep);
    let first = parts[0];
    assert(free_of(first, sep));
    if parts.len() == 1 {
        lemma_first_is(s, sep, s.len() as int);
        assert(parts =~= seq![s]);
    } else {
        let rest = parts.drop_first();
        assert forall|k: int| 0 <= k < rest.len() implies free_of(#[trigger] rest[k], sep) by {
            assert(rest[k] == parts[k + 1]);
        }
        law_joined_parts_come_apart(rest, sep);
        lemma_first_is(s, sep, first.len() as int);
        assert(s.take(first.len() as int) =~= first);
        assert(s.skip(first.len() as int + 1) =~= joined(rest, sep));
        assert(parts =~= seq![first] + rest);
    }
}

/// White space, character by character.
pub open spec fn blank(c: char) -> bool {
    ||| c == '\t'
    ||| c == '\n'
    ||| c == '\u{b}'
    ||| c == '\u{c}'
    ||| c == '\r'
    ||| c == ' '
    ||| c == '\u{85}'
    ||| c == '\u{a0}'
    ||| c == '\u{1680}'
    ||| c == '\u{2000}'
    ||| c == '\u{2001}'
    ||| c == '\u{2002}'
    ||| c == '\u{2003}'
    ||| c == '\u{2004}'
    ||| c == '\u{2005}'
    ||| c == '\u{2006}'
    ||| c == '\u{2007}'
    ||| c == '\u{2008}'
    ||| c == '\u{2009}'
    ||| c == '\u{200a}'
    ||| c == '\u{2028}'
    ||| c == '\u{2029}'
    ||| c == '\u{202f}'
    ||| c == '\u{205f}'
    ||| c == '\u{3000}'
}

pub open spec fn all_blank(s: Seq<char>) -> bool {
    forall|i: int| 0 <= i < s.len() ==> blank(#[trigger] s[i])
}

proof fn lemma_blank(c: char)
    ensures
        crate::text::is_white(c) == blank(c),
{
}

/// Trimming takes off white space, all of it at both ends, and nothing else:
/// with white space around it, a text that neither begins nor ends with any is
/// what is left.
pub proof fn law_trimming_takes_off_white_space(front: Seq<char>, s: Seq<char>, back: Seq<char>)
    requires
        all_blank(front),
        all_blank(back),
        s.len() > 0 ==> !blank(s[0]) && !blank(s.last()),
    ensures
        crate::text::trimmed(front + s + back) == s,
    decreases front.len() + back.len(),
{
    let whole = front + s + back;
    if front.len() > 0 {
        lemma_blank(front[0]);
        assert(blank(front[0]));
        assert(whole.drop_first() =~= front.drop_first() + s + back);
        assert forall|i: int| 0 <= i < front.drop_first().len() implies blank(
            #[trigger] front.drop_first()[i],
        ) by {
            assert(blank(front[i + 1]));
        }
        law_trimming_takes_off_white_space(front.drop_first(), s, back);
    } else if s.len() > 0 {
        assert(whole =~= s + back);
        lemma_blank(s[0]);
        assert(crate::text::trimmed_front(whole) == whole);
        lemma_trimmed_back(s, back);
    } else {
        assert(whole =~= back);
        lemma_all_trimmed(back);
        assert(s =~= Seq::<char>::empty());
    }
}

proof fn lemma_trimmed_back(s: Seq<char>, back: Seq<char>)
    requires
        all_blank(back),
        s.len() > 0,
        !blank(s.last()),
    ensures
        crate::text::trimmed_back(s + back) == s,
    decreases back.len(),
{
    let whole = s + back;
    lemma_blank(s.last());
    if back.len() == 0 {
        assert(whole =~= s);
    } else {
        lemma_blank(back.last());
        assert(blank(back[back.len() - 1]));
        assert(whole.drop_last() =~= s + back.drop_last());
        assert forall|i: int| 0 <= i < back.drop_last().len() implies blank(
            #[trigger] back.drop_last()[i],
        ) by {
            assert(blank(back[i]));
        }
        lemma_trimmed_back(s, back.drop_last());
    }
}

proof fn lemma_all_trimmed(s: Seq<char>)
    requires
        all_blank(s),
    ensures
        crate::text::trimmed(s) == Seq::<char>::empty(),
    decreases s.len(),
{
    if s.len() > 0 {
        lemma_blank(s[0]);
        assert(blank(s[0]));
        assert forall|i: int| 0 <= i < s.drop_first().len() implies blank(
            #[trigger] s.drop_first()[i],
        ) by {
            assert(blank(s[i + 1]));
        }
        lemma_all_trimmed(s.drop_first());
    } else {
        assert(s =~= Seq::<char>::empty());
    }
}

/// Lines with what ends each of them: a line feed, and before it a carriage
/// return where `crs` says so.
pub open spec fn ended(lines: Seq<Seq<char>>, crs: Seq<bool>) -> Seq<char>
    decreases lines.len(),
{
    if lines.len() == 0 {
        seq![]
    } else {
        lines[0] + (if crs[0] {
            seq!['\r', '\n']
        } else {
            seq!['\n']
        }) + ended(lines.drop_first(), crs.drop_first())
    }
}

/// A line with its carriage return.
spec fn with_return(line: Seq<char>, r: bool) -> Seq<char> {
    if r {
        line.push('\r')
    } else {
        line
    }
}

spec fn with_crs(lines: Seq<Seq<char>>, crs: Seq<bool>) -> Seq<Seq<char>> {
    Seq::new(lines.len(), |k: int| with_return(lines[k], crs[k]))
}

proof fn lemma_ended_is_joined(lines: Seq<Seq<char>>, crs: Seq<bool>, last: Seq<char>)
    requires
        crs.len() == lines.len(),
    ensures
        ended(lines, crs) + last == joined(with_crs(lines, crs).push(last), '\n'),
    decreases lines.len(),
{
    let parts = with_crs(lines, crs).push(last);
    if lines.len() == 0 {
        assert(ended(lines, crs) + last =~= last);
        assert(parts[0] == last);
    } else {
        lemma_ended_is_joined(lines.drop_first(), crs.drop_first(), last);
        assert(parts.drop_first() =~= with_crs(
            lines.drop_first(),
            crs.drop_first(),
        ).push(last));
        assert(parts[0] == with_return(lines[0], crs[0]));
        assert(ended(lines, crs) + last =~= parts[0] + seq!['\n'] + (ended(
            lines.drop_first(),
            crs.drop_first(),
        ) + last));
    }
}

/// Lines are read back, whichever way each of them was ended, and the last one
/// also if it was not.
pub proof fn law_lines_read_back(
    lines: Seq<Seq<char>>,
    crs: Seq<bool>,
    last: Seq<char>,
)
    requires
        crs.len() == lines.len(),
        all_free_of(lines, '\n'),
        forall|k: int|
            0 <= k < lines.len() && (#[trigger] lines[k]).len() > 0 && !crs[k] ==> lines[k].last()
                != '\r',
        free_of(last, '\n'),
    ensures
        crate::text::lines_of(ended(lines, crs) + last) == if last.len() == 0 {
            lines
        } else {
            lines.push(last)
        },
{
    let text = ended(lines, crs) + last;
    let parts = with_crs(lines, crs).push(last);
    lemma_ended_is_joined(lines, crs, last);
    assert forall|k: int| 0 <= k < parts.len() implies free_of(#[trigger] parts[k], '\n') by {
        if k < lines.len() {
            assert(free_of(lines[k], '\n'));
            assert(parts[k] == with_return(lines[k], crs[k]));
        }
    }
    law_joined_parts_come_apart(parts, '\n');
    assert forall|k: int| 0 <= k < lines.len() implies crate::text::without_return(
        #[trigger] parts[k],
    ) == lines[k] by {
        assert(parts[k] == with_return(lines[k], crs[k]));
        if crs[k] {
            assert(parts[k].drop_last() =~= lines[k]);
        }
    }
    let got = crate::text::lines_of(text);
    if last.len() == 0 {
        assert(got =~= lines);
    } else {
        assert(got =~= lines.push(last));
    }
}

/// The line is a comment or the heading.
pub open spec fn sets_apart(line: Seq<char>) -> bool {
    ||| line.len() > 0 && line[0] == '#'
    ||| line.len() >= 5 && line[0] == 'b' && line[1] == 'l' && line[2] == 'o' && line[3] == 'c'
        && line[4] == 'k'
}

proof fn lemma_sets_apart(line: Seq<char>)
    ensures
        crate::bench::is_aside(line) == sets_apart(line),
{
    let c = crate::bench::comment();
    let h = crate::bench::heading();
    if line.len() > 0 && line[0] == '#' {
        assert(line.subrange(0, 1) =~= c);
    }
    if line.len() >= 5 && line[0] == 'b' && line[1] == 'l' && line[2] == 'o' && line[3] == 'c'
        && line[4] == 'k' {
        assert(line.subrange(0, 5) =~= h);
    }
    if c.is_prefix_of(line) {
        assert(line.subrange(0, 1)[0] == line[0]);
        assert(c[0] == '#');
    }
    if h.is_prefix_of(line) {
        assert(line.subrange(0, 5) == h);
        assert(h[0] == 'b' && h[1] == 'l' && h[2] == 'o' && h[3] == 'c' && h[4] == 'k');
        assert(line.subrange(0, 5)[0] == line[0]);
        assert(line.subrange(0, 5)[1] == line[1]);
        assert(line.subrange(0, 5)[2] == line[2]);
        assert(line.subrange(0, 5)[3] == line[3]);
        assert(line.subrange(0, 5)[4] == line[4]);
    }
}

/// What was read, or something else if nothing was.
pub open spec fn or_else(read: Option<int>, other: int) -> int {
    match read {
        Some(v) => v,
        None => other,
    }
}

/// What a line holds is in its fields: a line that is no comment and not the
/// heading has a row exactly if it has eight fields, and the row has the second,
/// fifth and seventh as they stand. Each of the first, third, fourth and eighth
/// that is a number written in decimal is that number, as long as it fits, and
/// what is no number counts as 0.
pub proof fn law_row_is_in_the_fields(file: usize, f: Seq<Seq<char>>)
    requires
        f.len() > 0,
        all_free_of(f, ','),
    ensures
        ({
            let line = joined(f, ',');
            let row = crate::bench::row_on(file, line);
            &&& row is Some <==> f.len() == 8 && !sets_apart(line)
            &&& row matches Some(r) ==> {
                &&& r.file == file
                &&& r.domain == f[1]
                &&& r.arm == f[4]
                &&& r.mops == f[6]
                &&& forall|n: nat| n <= u64::MAX && f[0] == #[trigger] written(n) ==> r.block == n
                &&& forall|n: nat|
                    n <= usize::MAX && f[2] == #[trigger] written(n) ==> r.threads == n
                &&& forall|n: nat| n <= u64::MAX && f[3] == #[trigger] written(n) ==> r.ops == n
                &&& forall|n: nat|
                    n <= u64::MAX && f[7] == #[trigger] written(n) ==> r.aborts == n
                &&& r.block == or_else(crate::text::number(f[0], u64::MAX as int), 0)
                &&& r.threads == or_else(crate::text::number(f[2], usize::MAX as int), 0)
                &&& r.ops == or_else(crate::text::number(f[3], u64::MAX as int), 0)
                &&& r.aborts == or_else(crate::text::number(f[7], u64::MAX as int), 0)
                &&& not_spelled(f[0], u64::MAX as int) ==> r.block == 0
                &&& not_spelled(f[2], usize::MAX as int) ==> r.threads == 0
                &&& not_spelled(f[3], u64::MAX as int) ==> r.ops == 0
                &&& not_spelled(f[7], u64::MAX as int) ==> r.aborts == 0
            }
        }),
{
    let line = joined(f, ',');
    law_joined_parts_come_apart(f, ',');
    lemma_sets_apart(line);
    if f.len() == 8 {
        lemma_joined_longer(f, ',');
        assert forall|k: int| 0 <= k < 8 implies (crate::text::number(
            #[trigger] f[k],
            u64::MAX as int,
        ) matches Some(v) ==> 0 <= v <= u64::MAX) && (crate::text::number(
            f[k],
            usize::MAX as int,
        ) matches Some(v) ==> 0 <= v <= usize::MAX) by {
            if crate::text::number(f[k], u64::MAX as int) is Some {
                law_only_digits_are_numbers(f[k], u64::MAX as int);
            }
            if crate::text::number(f[k], usize::MAX as int) is Some {
                law_only_digits_are_numbers(f[k], usize::MAX as int);
            }
        }
        assert forall|n: nat| #[trigger] written(n) == written(n) implies crate::text::number(
            written(n),
            u64::MAX as int,
        ) == (if n <= u64::MAX {
            Some(n as int)
        } else {
            None
        }) && crate::text::number(written(n), usize::MAX as int) == (if n <= usize::MAX {
            Some(n as int)
        } else {
            None
        }) by {
            law_numbers_read_back(n, 0, u64::MAX as int);
            law_numbers_read_back(n, 0, usize::MAX as int);
        }
        lemma_not_spelled(f[0], u64::MAX as int);
        lemma_not_spelled(f[2], usize::MAX as int);
        lemma_not_spelled(f[3], u64::MAX as int);
        lemma_not_spelled(f[7], u64::MAX as int);
    }
}

/// The text is no number of at most `max`: no digits, other characters among
/// them, or too large.
pub open spec fn not_spelled(s: Seq<char>, max: int) -> bool {
    ||| s.len() == 0
    ||| s.len() == 1 && s[0] == '+'
    ||| exists|i: int| 0 <= i < s.len() && !is_figure(#[trigger] s[i]) && !(i == 0 && s[i] == '+')
    ||| exists|n: nat| n > max && s == #[trigger] written(n)
}

proof fn lemma_not_spelled(s: Seq<char>, max: int)
    requires
        max >= 0,
    ensures
        not_spelled(s, max) ==> crate::text::number(s, max) is None,
{
    if crate::text::number(s, max) is Some {
        law_only_digits_are_numbers(s, max);
        if exists|n: nat| n > max && s == #[trigger] written(n) {
            let n = choose|n: nat| n > max && s == #[trigger] written(n);
            law_numbers_read_back(n, 0, max);
        }
    }
}

proof fn lemma_joined_longer(f: Seq<Seq<char>>, sep: char)
    requires
        f.len() > 1,
    ensures
        joined(f, sep).len() > 0,
        f[0].len() > 0 ==> joined(f, sep)[0] == f[0][0],
{
}

/// Rows are read back: a line with the eight fields of a row, its numbers
/// written in decimal, is read as that row, whatever the numbers are.
pub proof fn law_rows_read_back(
    file: usize,
    block: u64,
    domain: Seq<char>,
    threads: usize,
    ops: u64,
    arm: Seq<char>,
    total: Seq<char>,
    mops: Seq<char>,
    aborts: u64,
)
    requires
        free_of(domain, ','),
        free_of(arm, ','),
        free_of(total, ','),
        free_of(mops, ','),
    ensures
        crate::bench::row_on(
            file,
            joined(
                seq![
                    written(block as nat),
                    domain,
                    written(threads as nat),
                    written(ops as nat),
                    arm,
                    total,
                    mops,
                    written(aborts as nat),
                ],
                ',',
            ),
        ) == Some(
            (crate::bench::RowText { file, block, domain, threads, ops, arm, mops, aborts }),
        ),
{
    let f = seq![
        written(block as nat),
        domain,
        written(threads as nat),
        written(ops as nat),
        arm,
        total,
        mops,
        written(aborts as nat),
    ];
    lemma_no_comma(block as nat);
    lemma_no_comma(threads as nat);
    lemma_no_comma(ops as nat);
    lemma_no_comma(aborts as nat);
    assert forall|k: int| 0 <= k < f.len() implies free_of(#[trigger] f[k], ',') by {}
    lemma_written(block as nat);
    lemma_joined_longer(f, ',');
    law_row_is_in_the_fields(file, f);
}

proof fn lemma_no_comma(n: nat)
    ensures
        free_of(written(n), ','),
        free_of(written(n), '-'),
        free_of(written(n), '\n'),
        !blank(written(n)[0]),
        !blank(written(n).last()),
{
    lemma_written(n);
    assert forall|i: int| 0 <= i < written(n).len() implies {
        let c = #[trigger] written(n)[i];
        c != ',' && c != '-' && c != '\n' && !blank(c)
    } by {
        let d = choose|d: int| 0 <= d < 10 && #[trigger] figure(d) == written(n)[i];
        assert(figure(d) == written(n)[i]);
    }
}

/// The rows of a file are those of its lines, in order, each line that holds
/// one giving one: `from` says which line each row is on.
pub proof fn law_every_line_gives_its_row(
    file: usize,
    ls: Seq<Seq<char>>,
    n: int,
) -> (from: Seq<int>)
    requires
        0 <= n <= ls.len(),
    ensures
        from.len() == crate::bench::rows_on(file, ls, n).len(),
        forall|j: int|
            0 <= j < from.len() ==> 0 <= #[trigger] from[j] < n && crate::bench::row_on(
                file,
                ls[from[j]],
            ) == Some(crate::bench::rows_on(file, ls, n)[j]),
        forall|i: int, j: int|
            0 <= i < j < from.len() ==> #[trigger] from[i] < #[trigger] from[j],
        forall|k: int|
            0 <= k < n && crate::bench::row_on(file, #[trigger] ls[k]) is Some ==> from.contains(
                k,
            ),
    decreases n,
{
    if n <= 0 {
        Seq::empty()
    } else {
        let before = law_every_line_gives_its_row(file, ls, n - 1);
        if crate::bench::row_on(file, ls[n - 1]) is Some {
            let from = before.push(n - 1);
            assert forall|k: int|
                0 <= k < n && crate::bench::row_on(
                    file,
                    #[trigger] ls[k],
                ) is Some implies from.contains(k) by {
                if k < n - 1 {
                    assert(before.contains(k));
                    let j = choose|j: int| 0 <= j < before.len() && before[j] == k;
                    assert(from[j] == k);
                } else {
                    assert(from[before.len() as int] == k);
                }
            }
            from
        } else {
            before
        }
    }
}

/// The rows of every file are there, in one stretch and under the number of the
/// file, behind those of the files before it.
pub proof fn law_every_file_gives_its_rows(contents: Seq<Vec<char>>, n: int, i: int)
    requires
        0 <= i < n <= contents.len(),
        contents.len() <= usize::MAX,
    ensures
        ({
            let ls = crate::text::lines_of(contents[i]@);
            let all = crate::bench::rows_of(contents, n);
            let start = crate::bench::rows_of(contents, i).len() as int;
            let own = crate::bench::rows_on(i as usize, ls, ls.len() as int);
            &&& start + own.len() <= all.len()
            &&& all.subrange(start, start + own.len()) == own
            &&& i == n - 1 ==> all.len() == start + own.len()
            &&& forall|j: int| 0 <= j < own.len() ==> (#[trigger] own[j]).file == i
        }),
    decreases n,
{
    let ls = crate::text::lines_of(contents[i]@);
    let all = crate::bench::rows_of(contents, n);
    let start = crate::bench::rows_of(contents, i).len() as int;
    let own = crate::bench::rows_on(i as usize, ls, ls.len() as int);
    if i < n - 1 {
        law_every_file_gives_its_rows(contents, n - 1, i);
        let before = crate::bench::rows_of(contents, n - 1);
        assert(all.subrange(start, start + own.len()) =~= before.subrange(
            start,
            start + own.len(),
        ));
    } else {
        assert(all.subrange(start, start + own.len()) =~= own);
    }
    let from = law_every_line_gives_its_row(i as usize, ls, ls.len() as int);
    assert forall|j: int| 0 <= j < own.len() implies (#[trigger] own[j]).file == i by {
        assert(crate::bench::row_on(i as usize, ls[from[j]]) == Some(own[j]));
    }
}

/// The next block is above every block of the file: the number `id` that
/// follows the highest is greater than the number in front of any line that is
/// no comment and not the heading, and than the block of any row with such a
/// number; and it is no greater than it need be.
pub proof fn law_next_block_is_new(content: Seq<char>, id: u64)
    requires
        ({
            let ls = crate::text::lines_of(content);
            id == match crate::bench::highest_id(ls, ls.len() as int) {
                Some(h) => h + 1,
                None => 0,
            }
        }),
    ensures
        ({
            let ls = crate::text::lines_of(content);
            &&& forall|k: int|
                0 <= k < ls.len() && !sets_apart(#[trigger] ls[k]) ==> (crate::text::number(
                    crate::text::pieces(ls[k], ',')[0],
                    u64::MAX as int,
                ) matches Some(n) ==> n < id)
            &&& forall|k: int, file: usize|
                0 <= k < ls.len() && #[trigger] crate::bench::row_on(file, ls[k]) is Some
                    && crate::text::number(
                    crate::text::pieces(ls[k], ',')[0],
                    u64::MAX as int,
                ) is Some ==> crate::bench::row_on(file, ls[k]).unwrap().block < id
            &&& id > 0 ==> exists|k: int|
                0 <= k < ls.len() && !sets_apart(#[trigger] ls[k]) && crate::text::number(
                    crate::text::pieces(ls[k], ',')[0],
                    u64::MAX as int,
                ) == Some(id - 1)
        }),
{
    let ls = crate::text::lines_of(content);
    assert forall|k: int| 0 <= k < ls.len() && !sets_apart(#[trigger] ls[k]) implies (
    crate::text::number(
        crate::text::pieces(ls[k], ',')[0],
        u64::MAX as int,
    ) matches Some(n) ==> n < id) by {
        lemma_sets_apart(ls[k]);
        if crate::bench::block_id(ls[k]) is Some {
            crate::bench::law_block_numbers_continue(ls, ls.len() as int, k);
        }
    }
    assert forall|k: int, file: usize|
        0 <= k < ls.len() && #[trigger] crate::bench::row_on(file, ls[k]) is Some
            && crate::text::number(
            crate::text::pieces(ls[k], ',')[0],
            u64::MAX as int,
        ) is Some implies crate::bench::row_on(file, ls[k]).unwrap().block < id by {
        lemma_sets_apart(ls[k]);
        law_only_digits_are_numbers(crate::text::pieces(ls[k], ',')[0], u64::MAX as int);
    }
    if id > 0 {
        lemma_highest_is_there(ls, ls.len() as int);
    }
}

proof fn lemma_highest_is_there(ls: Seq<Seq<char>>, n: int)
    requires
        0 <= n <= ls.len(),
        crate::bench::highest_id(ls, n) is Some,
    ensures
        exists|k: int|
            0 <= k < n && !sets_apart(#[trigger] ls[k]) && crate::text::number(
                crate::text::pieces(ls[k], ',')[0],
                u64::MAX as int,
            ) == crate::bench::highest_id(ls, n),
    decreases n,
{
    lemma_sets_apart(ls[n - 1]);
    if crate::bench::block_id(ls[n - 1]) != crate::bench::highest_id(ls, n) {
        lemma_highest_is_there(ls, n - 1);
        let k = choose|k: int|
            0 <= k < n - 1 && !sets_apart(#[trigger] ls[k]) && crate::text::number(
                crate::text::pieces(ls[k], ',')[0],
                u64::MAX as int,
            ) == crate::bench::highest_id(ls, n - 1);
        assert(!sets_apart(ls[k]));
    } else {
        assert(!sets_apart(ls[n - 1]));
    }
}

proof fn lemma_blank_around(front: Seq<char>, n: nat, back: Seq<char>, max: int)
    requires
        all_blank(front),
        all_blank(back),
    ensures
        crate::text::number(crate::text::trimmed(front + written(n) + back), max) == if n <= max {
            Some(n as int)
        } else {
            None
        },
{
    lemma_no_comma(n);
    law_trimming_takes_off_white_space(front, written(n), back);
    law_numbers_read_back(n, 0, max);
}

/// The two bounds of a range are read back, with white space around each or
/// not; one number by itself is both. What is no number counts as 0 in front of
/// the dash, and as the lower bound behind it.
pub proof fn law_ranges_read_back(
    front: Seq<char>,
    lo: nat,
    middle: Seq<char>,
    between: Seq<char>,
    hi: nat,
    back: Seq<char>,
    other: Seq<char>,
)
    requires
        all_blank(front),
        all_blank(middle),
        all_blank(between),
        all_blank(back),
        lo <= u32::MAX,
        hi <= u32::MAX,
        free_of(other, '-'),
        not_spelled(crate::text::trimmed(other), u32::MAX as int),
    ensures
        crate::bench::cpu_range(
            (front + written(lo) + middle) + seq!['-'] + (between + written(hi) + back),
        ) == (lo as int, hi as int),
        crate::bench::cpu_range(front + written(lo) + middle) == (lo as int, lo as int),
        crate::bench::cpu_range((front + written(lo) + middle) + seq!['-'] + other) == (
            lo as int,
            lo as int,
        ),
        crate::bench::cpu_range(other + seq!['-'] + (between + written(hi) + back)) == (
            0int,
            hi as int,
        ),
        crate::bench::cpu_range(other) == (0int, 0int),
{
    let a = front + written(lo) + middle;
    let b = between + written(hi) + back;
    lemma_blank_around(front, lo, middle, u32::MAX as int);
    lemma_blank_around(between, hi, back, u32::MAX as int);
    lemma_not_spelled(crate::text::trimmed(other), u32::MAX as int);
    lemma_no_comma(lo);
    assert(free_of(a, '-')) by {
        assert forall|i: int| 0 <= i < a.len() implies #[trigger] a[i] != '-' by {
            if i < front.len() {
                assert(blank(front[i]));
            } else if i < front.len() + written(lo).len() {
                assert(a[i] == written(lo)[i - front.len()]);
            } else {
                assert(a[i] == middle[i - front.len() - written(lo).len()]);
                assert(blank(middle[i - front.len() - written(lo).len()]));
            }
        }
    }
    lemma_range(a, b);
    lemma_range(a, other);
    lemma_range(other, b);
    lemma_single(a);
    lemma_single(other);
}

proof fn lemma_range(a: Seq<char>, b: Seq<char>)
    requires
        free_of(a, '-'),
    ensures
        ({
            let part = a + seq!['-'] + b;
            let at = crate::text::first_at(part, '-');
            &&& at == a.len()
            &&& at < part.len()
            &&& part.take(at) == a
            &&& part.skip(at + 1) == b
        }),
{
    let part = a + seq!['-'] + b;
    lemma_first_is(part, '-', a.len() as int);
    assert(part.take(a.len() as int) =~= a);
    assert(part.skip(a.len() as int + 1) =~= b);
}

proof fn lemma_single(a: Seq<char>)
    requires
        free_of(a, '-'),
    ensures
        crate::text::first_at(a, '-') == a.len(),
        a.take(crate::text::first_at(a, '-')) == a,
{
    lemma_first_is(a, '-', a.len() as int);
    assert(a.take(a.len() as int) =~= a);
}

/// A range of CPUs as it is written: one number, or two with a dash between.
pub open spec fn range_text(r: (nat, nat)) -> Seq<char> {
    if r.0 == r.1 {
        written(r.0)
    } else {
        written(r.0) + seq!['-'] + written(r.1)
    }
}

pub open spec fn range_texts(ranges: Seq<(nat, nat)>) -> Seq<Seq<char>> {
    Seq::new(ranges.len(), |k: int| range_text(ranges[k]))
}

/// A list of CPUs is read back: the CPUs listed are those in one of the ranges,
/// whatever white space is around the list.
pub proof fn law_cpu_lists_read_back(
    front: Seq<char>,
    ranges: Seq<(nat, nat)>,
    back: Seq<char>,
    c: int,
)
    requires
        all_blank(front),
        all_blank(back),
        ranges.len() > 0,
        forall|k: int|
            0 <= k < ranges.len() ==> (#[trigger] ranges[k]).0 <= u32::MAX && ranges[k].1
                <= u32::MAX,
    ensures
        ({
            let parts = crate::bench::list_parts(front + joined(range_texts(ranges), ',') + back);
            crate::bench::listed(parts, parts.len() as int, c) <==> exists|k: int|
                0 <= k < ranges.len() && (#[trigger] ranges[k]).0 <= c <= ranges[k].1
        }),
{
    let texts = range_texts(ranges);
    let text = joined(texts, ',');
    assert forall|k: int| 0 <= k < texts.len() implies free_of(#[trigger] texts[k], ',')
        && texts[k].len() > 0 && !blank(texts[k][0]) && !blank(texts[k].last())
        && crate::bench::cpu_range(texts[k]) == (ranges[k].0 as int, ranges[k].1 as int) by {
        lemma_range_text(ranges[k]);
    }
    law_joined_parts_come_apart(texts, ',');
    lemma_joined_ends(texts, ',');
    law_trimming_takes_off_white_space(front, text, back);
    let parts = crate::bench::list_parts(front + text + back);
    assert(parts == texts);
    if crate::bench::listed(parts, parts.len() as int, c) {
        let k = choose|k: int|
            0 <= k < parts.len() && (#[trigger] parts[k]).len() > 0 && crate::bench::cpu_range(
                parts[k],
            ).0 <= c <= crate::bench::cpu_range(parts[k]).1;
        assert(ranges[k].0 <= c <= ranges[k].1);
    }
    if exists|k: int| 0 <= k < ranges.len() && (#[trigger] ranges[k]).0 <= c <= ranges[k].1 {
        let k = choose|k: int|
            0 <= k < ranges.len() && (#[trigger] ranges[k]).0 <= c <= ranges[k].1;
        assert(parts[k].len() > 0);
    }
}

proof fn lemma_range_text(r: (nat, nat))
    requires
        r.0 <= u32::MAX,
        r.1 <= u32::MAX,
    ensures
        free_of(range_text(r), ','),
        range_text(r).len() > 0,
        !blank(range_text(r)[0]),
        !blank(range_text(r).last()),
        crate::bench::cpu_range(range_text(r)) == (r.0 as int, r.1 as int),
{
    let none = Seq::<char>::empty();
    lemma_written(r.0);
    lemma_written(r.1);
    lemma_no_comma(r.0);
    lemma_no_comma(r.1);
    assert(not_spelled(crate::text::trimmed(none), u32::MAX as int)) by {
        assert(crate::text::trimmed(none) =~= none);
    }
    law_ranges_read_back(none, r.0, none, none, r.1, none, none);
    assert(none + written(r.0) + none =~= written(r.0));
    assert(none + written(r.1) + none =~= written(r.1));
    let t = range_text(r);
    assert forall|i: int| 0 <= i < t.len() implies #[trigger] t[i] != ',' by {
        if i < written(r.0).len() {
            assert(t[i] == written(r.0)[i]);
        } else if i > written(r.0).len() {
            assert(t[i] == written(r.1)[i - written(r.0).len() - 1]);
        }
    }
}

proof fn lemma_joined_ends(parts: Seq<Seq<char>>, sep: char)
    requires
        parts.len() > 0,
        forall|k: int|
            0 <= k < parts.len() ==> (#[trigger] parts[k]).len() > 0 && !blank(parts[k][0])
                && !blank(parts[k].last()),
    ensures
        joined(parts, sep).len() > 0,
        !blank(joined(parts, sep)[0]),
        !blank(joined(parts, sep).last()),
    decreases parts.len(),
{
    assert(parts[0].len() > 0);
    if parts.len() > 1 {
        let rest = parts.drop_first();
        assert forall|k: int| 0 <= k < rest.len() implies (#[trigger] rest[k]).len() > 0 && !blank(
            rest[k][0],
        ) && !blank(rest[k].last()) by {
            assert(rest[k] == parts[k + 1]);
        }
        lemma_joined_ends(rest, sep);
    }
}

/// A list of nothing but white space lists no CPU.
pub proof fn law_blank_lists_are_empty(s: Seq<char>, c: int)
    requires
        all_blank(s),
    ensures
        ({
            let parts = crate::bench::list_parts(s);
            !crate::bench::listed(parts, parts.len() as int, c)
        }),
{
    lemma_all_trimmed(s);
    let none = Seq::<char>::empty();
    assert(crate::text::pieces(none, ',') =~= seq![none]);
}

/// Bit `c` of a mask is the binary digit that counts for 2 to the `c`.
pub proof fn law_bits_are_binary_digits(mask: u64, c: u64)
    requires
        c < 64,
    ensures
        crate::bench::has_bit(mask, c) <==> mask as int / vstd::arithmetic::power2::pow2(
            c as nat,
        ) as int % 2 == 1,
{
    vstd::bits::lemma_u64_shr_is_div(mask, c);
    let shifted = mask >> c;
    assert(shifted & 1 == shifted % 2) by (bit_vector);
}

/// How a line that names the model begins.
pub open spec fn names_model(line: Seq<char>) -> bool {
    &&& line.len() >= 10
    &&& line[0] == 'm' && line[1] == 'o' && line[2] == 'd' && line[3] == 'e' && line[4] == 'l'
    &&& line[5] == ' '
    &&& line[6] == 'n' && line[7] == 'a' && line[8] == 'm' && line[9] == 'e'
}

proof fn lemma_names_model(line: Seq<char>)
    ensures
        crate::bench::model_key().is_prefix_of(line) == names_model(line),
{
    let key = crate::bench::model_key();
    assert(key.len() == 10);
    if names_model(line) {
        assert(line.subrange(0, 10) =~= key);
    }
    if key.is_prefix_of(line) {
        assert forall|i: int| 0 <= i < 10 implies line[i] == key[i] by {
            assert(line.subrange(0, 10)[i] == line[i]);
        }
    }
}

/// The model is what the first line that names one has behind its first colon,
/// without white space around it, and a question mark if there is no colon; no
/// line that names one, no model.
pub proof fn law_model_is_behind_the_colon(ls: Seq<Seq<char>>) -> (k: int)
    ensures
        named_by(ls, k, crate::bench::first_model(ls, 0)),
{
    lemma_first_model(ls, 0)
}

/// The model that the lines name, line `k` first, or that they name none.
pub open spec fn named_by(ls: Seq<Seq<char>>, k: int, model: Option<Seq<char>>) -> bool {
    match model {
        Some(m) => names_first(ls, k, m),
        None => forall|j: int| 0 <= j < ls.len() ==> !names_model(#[trigger] ls[j]),
    }
}

/// Line `k` is the first that names a model, and this is the model.
pub open spec fn names_first(ls: Seq<Seq<char>>, k: int, model: Seq<char>) -> bool {
    &&& 0 <= k < ls.len()
    &&& names_model(ls[k])
    &&& forall|j: int| 0 <= j < k ==> !names_model(#[trigger] ls[j])
    &&& free_of(ls[k], ':') ==> model == seq!['?']
    &&& forall|a: Seq<char>, front: Seq<char>, v: Seq<char>, back: Seq<char>|
        #![trigger a + seq![':'] + (front + v + back)]
        ls[k] == a + seq![':'] + (front + v + back) && free_of(a, ':') && all_blank(front)
            && all_blank(back) && (v.len() > 0 ==> !blank(v[0]) && !blank(v.last())) ==> model == v
}

proof fn lemma_first_model(ls: Seq<Seq<char>>, from: int) -> (k: int)
    requires
        0 <= from <= ls.len(),
        forall|j: int| 0 <= j < from ==> !names_model(#[trigger] ls[j]),
    ensures
        named_by(ls, k, crate::bench::first_model(ls, from)),
    decreases ls.len() - from,
{
    if from < ls.len() {
        let line = ls[from];
        lemma_names_model(line);
        if names_model(line) {
            let model = crate::bench::model_in(line);
            if free_of(line, ':') {
                lemma_first_is(line, ':', line.len() as int);
            }
            assert forall|a: Seq<char>, front: Seq<char>, v: Seq<char>, back: Seq<char>|
                #![trigger a + seq![':'] + (front + v + back)]
                line == a + seq![':'] + (front + v + back) && free_of(a, ':') && all_blank(front)
                    && all_blank(back) && (v.len() > 0 ==> !blank(v[0]) && !blank(v.last()))
                    implies model == v by {
                lemma_first_is(line, ':', a.len() as int);
                assert(line.skip(a.len() as int + 1) =~= front + v + back);
                law_trimming_takes_off_white_space(front, v, back);
            }
            from
        } else {
            lemma_first_model(ls, from + 1)
        }
    } else {
        0
    }
}

/// Whatever stands on the two sides of the first dash is read as a number each,
/// without the white space around it. Without a dash there is one number, which
/// is both bounds.
pub proof fn law_parts_are_split_at_the_first_dash(a: Seq<char>, b: Seq<char>)
    requires
        free_of(a, '-'),
    ensures
        ({
            let lo = or_else(crate::text::number(crate::text::trimmed(a), u32::MAX as int), 0);
            let hi = or_else(crate::text::number(crate::text::trimmed(b), u32::MAX as int), lo);
            &&& crate::bench::cpu_range(a) == (lo, lo)
            &&& crate::bench::cpu_range(a + seq!['-'] + b) == (lo, hi)
        }),
{
    lemma_range(a, b);
    lemma_single(a);
}

/// A list has the CPUs of all its parts; empty parts have none.
pub proof fn law_lists_have_the_cpus_of_their_parts(
    front: Seq<char>,
    parts: Seq<Seq<char>>,
    back: Seq<char>,
    c: int,
)
    requires
        all_blank(front),
        all_blank(back),
        parts.len() > 0,
        all_free_of(parts, ','),
        ({
            let text = joined(parts, ',');
            text.len() > 0 ==> !blank(text[0]) && !blank(text.last())
        }),
    ensures
        ({
            let got = crate::bench::list_parts(front + joined(parts, ',') + back);
            crate::bench::listed(got, got.len() as int, c) <==> exists|k: int|
                0 <= k < parts.len() && (#[trigger] parts[k]).len() > 0 && crate::bench::cpu_range(
                    parts[k],
                ).0 <= c <= crate::bench::cpu_range(parts[k]).1
        }),
{
    law_trimming_takes_off_white_space(front, joined(parts, ','), back);
    law_joined_parts_come_apart(parts, ',');
}

} // verus!
