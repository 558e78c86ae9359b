//! What the generator and the shuffle do, bit by bit and place by place.

use vstd::prelude::*;

verus! {

/// Bit `i` of a state, counted from the lowest; there is none outside a word.
pub open spec fn bit_at(x: u64, i: int) -> bool {
    0 <= i < 64 && crate::meaning::bit(x, i as u64)
}

proof fn lemma_xor(x: u64, y: u64, i: int)
    ensures
        bit_at(x ^ y, i) == (bit_at(x, i) != bit_at(y, i)),
{
    if 0 <= i < 64 {
        let k = i as u64;
        assert(((x ^ y) >> k) & 1 == 1 <==> ((x >> k) & 1 == 1) != ((y >> k) & 1 == 1))
            by (bit_vector);
    }
}

proof fn lemma_moved(x: u64, by: u64, i: int)
    requires
        by < 64,
    ensures
        bit_at(x >> by, i) == (i >= 0 && bit_at(x, i + by)),
        bit_at(x << by, i) == (i < 64 && bit_at(x, i - by)),
{
    if 0 <= i < 64 {
        let k = i as u64;
        if i + by < 64 {
            let on = (i + by) as u64;
            assert(((x >> by) >> k) & 1 == (x >> on) & 1) by (bit_vector)
                requires
                    by < 64,
                    k < 64,
                    on == k + by,
                    on < 64,
            ;
        } else {
            assert(((x >> by) >> k) & 1 == 0) by (bit_vector)
                requires
                    by < 64,
                    k < 64,
                    k + by >= 64,
            ;
        }
        if i >= by {
            let back = (i - by) as u64;
            assert(((x << by) >> k) & 1 == (x >> back) & 1) by (bit_vector)
                requires
                    by < 64,
                    k < 64,
                    back == k - by,
            ;
        } else {
            assert(((x << by) >> k) & 1 == 0) by (bit_vector)
                requires
                    by < 64,
                    k < by,
            ;
        }
    }
}

/// Every bit of the next state is the sum, without carry, of fixed bits of the
/// state before: those 0, 12 and 13, 25 places away, and for the low bits
/// those 27 and 39, 2 and 14 places up.
pub proof fn law_next_state_bit_by_bit(x: u64, i: int)
    requires
        0 <= i < 64,
    ensures
        ({
            let near = bit_at(x, i) != bit_at(x, i + 12);
            let below = bit_at(x, i - 25) != (i >= 25 && bit_at(x, i - 13));
            let above = (i + 27 < 64 && bit_at(x, i + 27)) != bit_at(x, i + 39);
            let between = (i + 27 < 64 && bit_at(x, i + 2)) != (i + 27 < 64 && bit_at(x, i + 14));
            bit_at(crate::bench::stirred(x), i) == ((near != below) != (above != between))
        }),
{
    let a = x ^ (x >> 12);
    let b = a ^ (a << 25);
    lemma_xor(b, b >> 27, i);
    lemma_moved(b, 27, i);
    lemma_bits_of_b(x, a, b, i);
    lemma_bits_of_b(x, a, b, i + 27);
}

proof fn lemma_bits_of_b(x: u64, a: u64, b: u64, i: int)
    requires
        a == x ^ (x >> 12),
        b == a ^ (a << 25),
        0 <= i,
    ensures
        i < 64 ==> bit_at(b, i) == ((bit_at(x, i) != bit_at(x, i + 12)) != (bit_at(x, i - 25) != (i
            >= 25 && bit_at(x, i - 13)))),
        i >= 64 ==> !bit_at(b, i),
{
    if i < 64 {
        lemma_xor(a, a << 25, i);
        lemma_moved(a, 25, i);
        lemma_xor(x, x >> 12, i);
        lemma_moved(x, 12, i);
        lemma_xor(x, x >> 12, i - 25);
        lemma_moved(x, 12, i - 25);
    }
}

/// No two states lead to the same one, so that a generator comes back to where
/// it began before it repeats anything.
pub proof fn law_states_do_not_merge(x: u64, y: u64)
    requires
        crate::bench::stirred(x) == crate::bench::stirred(y),
    ensures
        x == y,
{
    let a = x ^ (x >> 12);
    let b = a ^ (a << 25);
    let c = y ^ (y >> 12);
    let d = c ^ (c << 25);
    assert(b == d) by (bit_vector)
        requires
            b ^ (b >> 27) == d ^ (d >> 27),
    ;
    assert(a == c) by (bit_vector)
        requires
            a ^ (a << 25) == c ^ (c << 25),
    ;
    assert(x == y) by (bit_vector)
        requires
            x ^ (x >> 12) == y ^ (y >> 12),
    ;
}

/// What is drawn grows with the state in even steps, as far as a word shows it.
pub proof fn law_draws_are_multiples(x: u64)
    ensures
        crate::bench::drawn(x) == (x * 2_685_821_657_736_338_717) % 0x1_0000_0000_0000_0000,
        crate::bench::drawn(x) % 2 == x % 2,
{
    let product = x * 2_685_821_657_736_338_717;
    let odd = 2_685_821_657_736_338_717int;
    assert(product % 2 == x % 2) by (nonlinear_arith)
        requires
            product == x * odd,
            odd == 2 * 1_342_910_828_868_169_358 + 1,
    ;
}

proof fn lemma_untouched<T>(xs: Seq<T>, state: u64, i: int, n: int)
    requires
        i < n <= xs.len(),
        0 <= n,
    ensures
        ({
            let whole = crate::bench::shuffled(xs, state, i);
            let part = crate::bench::shuffled(xs.take(n), state, i);
            &&& whole.0.len() == xs.len()
            &&& part.0.len() == n
            &&& whole.0.take(n) == part.0
            &&& whole.0.skip(n) == xs.skip(n)
            &&& whole.1 == part.1
        }),
    decreases i,
{
    if i > 0 {
        let next = crate::bench::stirred(state);
        let j = crate::bench::drawn(next) as int % (i + 1);
        let ys = crate::bench::swapped(xs, i, j);
        lemma_untouched(ys, next, i - 1, n);
        assert(ys.take(n) =~= crate::bench::swapped(xs.take(n), i, j));
        assert(ys.skip(n) =~= xs.skip(n));
    }
}

/// A shuffle fills the last place with the entry that the generator picks out
/// of all, puts the one that was there in its place, and shuffles the rest in
/// the same way. One entry, or none, stays as it is.
pub proof fn law_shuffles_pick_from_what_is_left<T>(xs: Seq<T>, state: u64)
    requires
        xs.len() > 0,
    ensures
        ({
            let n = xs.len() as int;
            let next = crate::bench::stirred(state);
            let j = crate::bench::drawn(next) as int % n;
            let done = crate::bench::shuffled(xs, state, n - 1);
            let rest = crate::bench::shuffled(xs.update(j, xs.last()).drop_last(), next, n - 2);
            &&& n == 1 ==> done == (xs, state)
            &&& n > 1 ==> done.0 == rest.0.push(xs[j]) && done.1 == rest.1
        }),
{
    let n = xs.len() as int;
    if n > 1 {
        let next = crate::bench::stirred(state);
        let j = crate::bench::drawn(next) as int % n;
        let ys = crate::bench::swapped(xs, n - 1, j);
        lemma_untouched(ys, next, n - 2, n - 1);
        let done = crate::bench::shuffled(xs, state, n - 1);
        assert(ys.take(n - 1) =~= xs.update(j, xs.last()).drop_last());
        assert(ys.last() == xs[j]);
        assert(done.0.skip(n - 1)[0] == ys.skip(n - 1)[0]);
        assert(done.0 =~= done.0.take(n - 1).push(done.0[n - 1]));
    }
}

} // verus!
