//! What is conserved over many calls: every run counts once, and every node is
//! on one list, or with whoever popped or drained it.

use vstd::prelude::*;

use crate::ir::{Operand, RegionDecl, RegionId};
use crate::progs::{Freelist, NIL};
use crate::sim::{
    AbortPoint, Outcome, RunResult, Setting, SimError, Words,
};

verus! {

/// The node with number `u` is on one of the lists.
pub open spec fn found(lists: Seq<Seq<u64>>, u: int) -> bool {
    exists|c: int, i: int|
        0 <= c < lists.len() && 0 <= i < lists[c].len() && #[trigger] lists[c][i] as usize == u
}

/// The nodes on the lists are pairwise distinct, and they are exactly `nodes`.
pub open spec fn exactly_once(lists: Seq<Seq<u64>>, nodes: Set<int>) -> bool {
    &&& forall|c: int, i: int, d: int, j: int|
        #![trigger lists[c][i], lists[d][j]]
        0 <= c < lists.len() && 0 <= i < lists[c].len() && 0 <= d < lists.len() && 0 <= j
            < lists[d].len() && lists[c][i] as usize == lists[d][j] as usize ==> c == d && i == j
    &&& forall|u: int| #[trigger] nodes.contains(u) <==> found(lists, u)
}

proof fn lemma_prepend(lists: Seq<Seq<u64>>, nodes: Set<int>, c: int, node: u64)
    requires
        exactly_once(lists, nodes),
        0 <= c < lists.len(),
        !nodes.contains(node as usize as int),
    ensures
        exactly_once(
            lists.update(c, seq![node] + lists[c]),
            nodes.insert(node as usize as int),
        ),
{
    let new = lists.update(c, seq![node] + lists[c]);
    let u = node as usize as int;
    assert(forall|i: int| 0 < i < new[c].len() ==> #[trigger] new[c][i] == lists[c][i - 1]);
    assert(new[c][0] == node);
    assert forall|d: int, j: int|
        0 <= d < new.len() && 0 <= j < new[d].len() && !(d == c && j == 0) implies (
    #[trigger] new[d][j]) as usize != u by {
        if d == c {
            assert(lists[c][j - 1] as usize != u) by {
                if lists[c][j - 1] as usize == u {
                    assert(found(lists, u));
                }
            }
        } else {
            if lists[d][j] as usize == u {
                assert(found(lists, u));
            }
        }
    }
    assert forall|a: int, i: int, d: int, j: int|
        #![trigger new[a][i], new[d][j]]
        0 <= a < new.len() && 0 <= i < new[a].len() && 0 <= d < new.len() && 0 <= j
            < new[d].len() && new[a][i] as usize == new[d][j] as usize implies a == d && i == j by {
        if !(a == c && i == 0) && !(d == c && j == 0) {
            let i0 = if a == c { i - 1 } else { i };
            let j0 = if d == c { j - 1 } else { j };
            assert(lists[a][i0] == new[a][i]);
            assert(lists[d][j0] == new[d][j]);
        }
    }
    assert forall|v: int| #[trigger] nodes.insert(u).contains(v) <==> found(new, v) by {
        if nodes.contains(v) {
            let (d, j) = choose|d: int, j: int|
                0 <= d < lists.len() && 0 <= j < lists[d].len() && #[trigger] lists[d][j] as usize
                    == v;
            if d == c {
                assert(new[c][j + 1] as usize == v);
            } else {
                assert(new[d][j] as usize == v);
            }
        }
        if v == u {
            assert(new[c][0] as usize == v);
        }
        if found(new, v) {
            let (d, j) = choose|d: int, j: int|
                0 <= d < new.len() && 0 <= j < new[d].len() && #[trigger] new[d][j] as usize == v;
            if d == c && j > 0 {
                assert(lists[c][j - 1] as usize == v);
            } else if d != c {
                assert(lists[d][j] as usize == v);
            }
        }
    }
}

proof fn lemma_behead(lists: Seq<Seq<u64>>, nodes: Set<int>, c: int)
    requires
        exactly_once(lists, nodes),
        0 <= c < lists.len(),
        lists[c].len() > 0,
    ensures
        nodes.contains(lists[c][0] as usize as int),
        exactly_once(
            lists.update(c, lists[c].drop_first()),
            nodes.remove(lists[c][0] as usize as int),
        ),
{
    let new = lists.update(c, lists[c].drop_first());
    let u = lists[c][0] as usize as int;
    assert(found(lists, u));
    assert(forall|i: int| 0 <= i < new[c].len() ==> #[trigger] new[c][i] == lists[c][i + 1]);
    assert forall|a: int, i: int, d: int, j: int|
        #![trigger new[a][i], new[d][j]]
        0 <= a < new.len() && 0 <= i < new[a].len() && 0 <= d < new.len() && 0 <= j
            < new[d].len() && new[a][i] as usize == new[d][j] as usize implies a == d && i == j by {
        let i0 = if a == c { i + 1 } else { i };
        let j0 = if d == c { j + 1 } else { j };
        assert(lists[a][i0] == new[a][i]);
        assert(lists[d][j0] == new[d][j]);
    }
    assert forall|v: int| #[trigger] nodes.remove(u).contains(v) <==> found(new, v) by {
        if nodes.contains(v) && v != u {
            let (d, j) = choose|d: int, j: int|
                0 <= d < lists.len() && 0 <= j < lists[d].len() && #[trigger] lists[d][j] as usize
                    == v;
            if d == c {
                assert(new[c][j - 1] as usize == v);
            } else {
                assert(new[d][j] as usize == v);
            }
        }
        if found(new, v) {
            let (d, j) = choose|d: int, j: int|
                0 <= d < new.len() && 0 <= j < new[d].len() && #[trigger] new[d][j] as usize == v;
            let j0 = if d == c { j + 1 } else { j };
            assert(lists[d][j0] as usize == v);
            assert(lists[c][0] as usize == u);
            assert(found(lists, v));
        }
    }
}

/// The numbers of the nodes on a list.
pub open spec fn numbers(list: Seq<u64>) -> Set<int> {
    Set::new(|u: int| exists|i: int| 0 <= i < list.len() && #[trigger] list[i] as usize == u)
}

proof fn lemma_emptied(lists: Seq<Seq<u64>>, nodes: Set<int>, c: int)
    requires
        exactly_once(lists, nodes),
        0 <= c < lists.len(),
    ensures
        exactly_once(
            lists.update(c, Seq::empty()),
            nodes.difference(numbers(lists[c])),
        ),
{
    let new = lists.update(c, Seq::empty());
    assert forall|a: int, i: int, d: int, j: int|
        #![trigger new[a][i], new[d][j]]
        0 <= a < new.len() && 0 <= i < new[a].len() && 0 <= d < new.len() && 0 <= j
            < new[d].len() && new[a][i] as usize == new[d][j] as usize implies a == d && i == j by {
        assert(lists[a][i] == new[a][i]);
        assert(lists[d][j] == new[d][j]);
    }
    assert forall|v: int| #[trigger]
        nodes.difference(numbers(lists[c])).contains(v) <==> found(new, v) by {
        if nodes.contains(v) && !numbers(lists[c]).contains(v) {
            let (d, j) = choose|d: int, j: int|
                0 <= d < lists.len() && 0 <= j < lists[d].len() && #[trigger] lists[d][j] as usize
                    == v;
            assert(d != c);
            assert(new[d][j] as usize == v);
        }
        if found(new, v) {
            let (d, j) = choose|d: int, j: int|
                0 <= d < new.len() && 0 <= j < new[d].len() && #[trigger] new[d][j] as usize == v;
            assert(lists[d][j] as usize == v);
            assert(found(lists, v));
            if numbers(lists[c]).contains(v) {
                let i = choose|i: int|
                    0 <= i < lists[c].len() && #[trigger] lists[c][i] as usize == v;
                assert(lists[c][i] as usize == lists[d][j] as usize);
            }
        }
    }
}

/// The lists of all CPUs.
pub open spec fn lists_of(words: Words, heads: int, nodes: int, ncpus: usize) -> Seq<Seq<u64>> {
    Seq::new(
        ncpus as nat,
        |c: int| crate::behaviour::list_of(words, heads, nodes, c).unwrap(),
    )
}

/// Every list ends within the pool.
pub open spec fn lists_end(words: Words, heads: int, nodes: int, ncpus: usize) -> bool {
    forall|c: int|
        0 <= c < ncpus ==> #[trigger] crate::behaviour::list_of(words, heads, nodes, c) is Some
}

/// The nodes on the lists are exactly `free`, each on one list and once.
pub open spec fn holds_exactly(
    words: Words,
    heads: int,
    nodes: int,
    ncpus: usize,
    free: Set<int>,
) -> bool {
    &&& lists_end(words, heads, nodes, ncpus)
    &&& exactly_once(lists_of(words, heads, nodes, ncpus), free)
}

/// A node that is not free is on no list.
proof fn lemma_on_no_list(words: Words, h: int, n: int, ncpus: usize, free: Set<int>, node: u64)
    requires
        holds_exactly(words, h, n, ncpus, free),
        !free.contains(node as usize as int),
    ensures
        forall|c: int|
            0 <= c < ncpus ==> #[trigger] crate::behaviour::not_on_list(words, h, n, c, node),
{
    let lists = lists_of(words, h, n, ncpus);
    assert forall|c: int| 0 <= c < ncpus implies #[trigger] crate::behaviour::not_on_list(
        words,
        h,
        n,
        c,
        node,
    ) by {
        let l = crate::behaviour::list_of(words, h, n, c).unwrap();
        assert(lists[c] == l);
        assert forall|k: int| 0 <= k < l.len() implies #[trigger] l[k] as usize != node as usize by {
            if l[k] as usize == node as usize {
                assert(lists[c][k] as usize == node as usize as int);
                assert(found(lists, node as usize as int));
            }
        }
    }
}

/// Writing the next pointer of a node that is not free changes no list.
pub(crate) proof fn lemma_scribble(
    words: Words,
    h: int,
    n: int,
    ncpus: usize,
    free: Set<int>,
    node: u64,
    v: u64,
)
    requires
        holds_exactly(words, h, n, ncpus, free),
        !free.contains(node as usize as int),
        0 <= h < words.len(),
        0 <= n < words.len(),
        h != n,
        (node as usize) < words[n].len(),
    ensures
        forall|c: int|
            0 <= c < ncpus ==> #[trigger] crate::behaviour::list_of(
                crate::behaviour::with_word(words, n, node as usize as int, v),
                h,
                n,
                c,
            ) == crate::behaviour::list_of(words, h, n, c),
        holds_exactly(
            crate::behaviour::with_word(words, n, node as usize as int, v),
            h,
            n,
            ncpus,
            free,
        ),
{
    let new = crate::behaviour::with_word(words, n, node as usize as int, v);
    lemma_on_no_list(words, h, n, ncpus, free, node);
    assert forall|c: int| 0 <= c < ncpus implies #[trigger] crate::behaviour::list_of(new, h, n, c)
        == crate::behaviour::list_of(words, h, n, c) by {
        assert(crate::behaviour::list_of(words, h, n, c) is Some);
        assert(crate::behaviour::not_on_list(words, h, n, c, node));
        crate::rt::lemma_list_frame(
            words[n],
            words[h][c],
            words[n].len() + 1,
            node as usize as int,
            v,
        );
    }
    assert(lists_of(new, h, n, ncpus) =~= lists_of(words, h, n, ncpus));
}

/// Linking a node that is not free in front of the list of `c`.
pub(crate) proof fn lemma_linked(
    words: Words,
    h: int,
    n: int,
    ncpus: usize,
    free: Set<int>,
    c: int,
    node: u64,
)
    requires
        holds_exactly(words, h, n, ncpus, free),
        !free.contains(node as usize as int),
        0 <= h < words.len(),
        0 <= n < words.len(),
        h != n,
        (node as usize) < words[n].len(),
        node != NIL,
        0 <= c < ncpus,
        words[h].len() == ncpus,
    ensures
        ({
            let new = crate::behaviour::with_word(
                crate::behaviour::with_word(words, n, node as usize as int, words[h][c]),
                h,
                c,
                node,
            );
            &&& holds_exactly(new, h, n, ncpus, free.insert(node as usize as int))
            &&& forall|d: int|
                0 <= d < ncpus && d != c ==> #[trigger] crate::behaviour::list_of(new, h, n, d)
                    == crate::behaviour::list_of(words, h, n, d)
        }),
{
    let at = node as usize as int;
    let mid = crate::behaviour::with_word(words, n, at, words[h][c]);
    let new = crate::behaviour::with_word(mid, h, c, node);
    lemma_scribble(words, h, n, ncpus, free, node, words[h][c]);
    lemma_on_no_list(words, h, n, ncpus, free, node);
    assert(crate::behaviour::list_of(words, h, n, c) is Some);
    assert(crate::behaviour::not_on_list(words, h, n, c, node));
    crate::rt::law_linking_prepends(words[n], words[h][c], node);
    let lists = lists_of(words, h, n, ncpus);
    assert(crate::behaviour::list_of(new, h, n, c) == Some(seq![node] + lists[c]));
    assert forall|d: int| 0 <= d < ncpus && d != c implies #[trigger] crate::behaviour::list_of(
        new,
        h,
        n,
        d,
    ) == crate::behaviour::list_of(words, h, n, d) by {
        assert(crate::behaviour::list_of(mid, h, n, d) == crate::behaviour::list_of(
            words,
            h,
            n,
            d,
        ));
        assert(new[h][d] == mid[h][d]);
    }
    lemma_prepend(lists, free, c, node);
    assert(lists_of(new, h, n, ncpus) =~= lists.update(c, seq![node] + lists[c]));
}

/// Taking the first node off the list of `c`.
pub(crate) proof fn lemma_unlinked(words: Words, h: int, n: int, ncpus: usize, free: Set<int>, c: int)
    requires
        holds_exactly(words, h, n, ncpus, free),
        0 <= h < words.len(),
        0 <= n < words.len(),
        h != n,
        0 <= c < ncpus,
        words[h].len() == ncpus,
        words[h][c] != NIL,
    ensures
        free.contains(words[h][c] as usize as int),
        ({
            let head = words[h][c] as usize as int;
            let new = crate::behaviour::with_word(words, h, c, words[n][head]);
            &&& holds_exactly(new, h, n, ncpus, free.remove(head))
            &&& forall|d: int|
                0 <= d < ncpus && d != c ==> #[trigger] crate::behaviour::list_of(new, h, n, d)
                    == crate::behaviour::list_of(words, h, n, d)
        }),
{
    let head = words[h][c] as usize as int;
    let new = crate::behaviour::with_word(words, h, c, words[n][head]);
    assert(crate::behaviour::list_of(words, h, n, c) is Some);
    crate::rt::law_unlinking_leaves_the_rest(words[n], words[h][c]);
    let lists = lists_of(words, h, n, ncpus);
    assert(crate::behaviour::list_of(new, h, n, c) == Some(lists[c].drop_first()));
    assert forall|d: int| 0 <= d < ncpus && d != c implies #[trigger] crate::behaviour::list_of(
        new,
        h,
        n,
        d,
    ) == crate::behaviour::list_of(words, h, n, d) by {
        assert(new[h][d] == words[h][d]);
    }
    lemma_behead(lists, free, c);
    assert(lists_of(new, h, n, ncpus) =~= lists.update(c, lists[c].drop_first()));
}

/// Taking the whole list of `c`.
pub(crate) proof fn lemma_cleared(words: Words, h: int, n: int, ncpus: usize, free: Set<int>, c: int)
    requires
        holds_exactly(words, h, n, ncpus, free),
        0 <= h < words.len(),
        0 <= n < words.len(),
        h != n,
        0 <= c < ncpus,
        words[h].len() == ncpus,
    ensures
        ({
            let list = crate::behaviour::list_of(words, h, n, c).unwrap();
            let new = crate::behaviour::with_word(words, h, c, NIL);
            &&& holds_exactly(new, h, n, ncpus, free.difference(numbers(list)))
            &&& crate::behaviour::list_of(new, h, n, c) == Some(Seq::<u64>::empty())
            &&& forall|d: int|
                0 <= d < ncpus && d != c ==> #[trigger] crate::behaviour::list_of(new, h, n, d)
                    == crate::behaviour::list_of(words, h, n, d)
        }),
{
    let new = crate::behaviour::with_word(words, h, c, NIL);
    let lists = lists_of(words, h, n, ncpus);
    assert(crate::behaviour::list_of(new, h, n, c) == Some(Seq::<u64>::empty()));
    assert forall|d: int| 0 <= d < ncpus && d != c implies #[trigger] crate::behaviour::list_of(
        new,
        h,
        n,
        d,
    ) == crate::behaviour::list_of(words, h, n, d) by {
        assert(new[h][d] == words[h][d]);
    }
    lemma_emptied(lists, free, c);
    assert(lists_of(new, h, n, ncpus) =~= lists.update(c, Seq::empty()));
}

/// One completed run of the counter: where it started, and its aborts.
pub struct Count {
    pub start_cpu: usize,
    pub plan: Seq<AbortPoint>,
}

/// The run of the counter in `words`.
pub open spec fn count_run(decls: Seq<RegionDecl>, ncpus: usize, count: Count, words: Words) -> (
    Result<RunResult, SimError>,
    Words,
) {
    crate::sim::whole_run(
        Setting { decls, ncpus, params: seq![], start_cpu: count.start_cpu },
        crate::behaviour::counter_ops(),
        None,
        false,
        count.plan,
        words,
    )
}

/// Memory after the runs, one after the other.
pub open spec fn counts_end(
    decls: Seq<RegionDecl>,
    ncpus: usize,
    counts: Seq<Count>,
    words: Words,
) -> Words
    decreases counts.len(),
{
    if counts.len() == 0 {
        words
    } else {
        count_run(
            decls,
            ncpus,
            counts.last(),
            counts_end(decls, ncpus, counts.drop_last(), words),
        ).1
    }
}

/// No run is refused for a CPU that does not exist.
pub open spec fn counts_fire(
    decls: Seq<RegionDecl>,
    ncpus: usize,
    counts: Seq<Count>,
    words: Words,
) -> bool
    decreases counts.len(),
{
    counts.len() > 0 ==> {
        let before = counts_end(decls, ncpus, counts.drop_last(), words);
        &&& counts_fire(decls, ncpus, counts.drop_last(), words)
        &&& crate::laws::fires_in_range(count_run(decls, ncpus, counts.last(), before))
    }
}

pub(crate) proof fn lemma_sum_of_update(words: Seq<u64>, i: int, v: u64, n: int)
    requires
        0 <= n <= words.len(),
        0 <= i < words.len(),
    ensures
        crate::rt::sum_of(words.update(i, v), n) == crate::rt::sum_of(words, n) + if i < n {
            v - words[i]
        } else {
            0
        },
        crate::rt::sum_of(words, n) >= 0,
        i < n ==> words[i] <= crate::rt::sum_of(words, n),
    decreases n,
{
    if n > 0 {
        lemma_sum_of_update(words, i, v, n - 1);
    }
}

/// Increments are conserved: over any number of completed runs, each aborted
/// and migrated in any way, the sum of the counters grows by one per run.
pub proof fn law_counter_sum_grows(
    decls: Seq<RegionDecl>,
    ncpus: usize,
    counts: Seq<Count>,
    words: Words,
)
    requires
        crate::behaviour::counter_layout(decls, 1),
        crate::sim::words_match(decls, ncpus as int, words),
        counts_fire(decls, ncpus, counts, words),
        crate::rt::sum_of(words[0], ncpus as int) + counts.len() <= u64::MAX,
    ensures
        crate::sim::words_match(decls, ncpus as int, counts_end(decls, ncpus, counts, words)),
        crate::rt::sum_of(counts_end(decls, ncpus, counts, words)[0], ncpus as int)
            == crate::rt::sum_of(words[0], ncpus as int) + counts.len(),
    decreases counts.len(),
{
    if counts.len() > 0 {
        law_counter_sum_grows(decls, ncpus, counts.drop_last(), words);
        let before = counts_end(decls, ncpus, counts.drop_last(), words);
        let count = counts.last();
        let env = Setting { decls, ncpus, params: seq![], start_cpu: count.start_cpu };
        crate::behaviour::law_counter_counts_once(env, count.plan, before);
        let run = count_run(decls, ncpus, count, before);
        let c = choose|c: usize| #[trigger]
            crate::behaviour::counted_once(run, before, ncpus, c);
        assert(before[0].len() == ncpus);
        lemma_sum_of_update(
            before[0],
            c as int,
            before[0][c as int].wrapping_add(1),
            ncpus as int,
        );
        assert(before[0][c as int] < u64::MAX);
    }
}

/// What a call of the freelist is for.
pub enum Call {
    Push { node: u64 },
    Pop,
}

/// One completed call: what it is for, where it started, and its aborts.
pub struct Made {
    pub call: Call,
    pub start_cpu: usize,
    pub plan: Seq<AbortPoint>,
}

/// The run of a call of the plain freelist.
pub open spec fn call_run(decls: Seq<RegionDecl>, ncpus: usize, made: Made, words: Words) -> (
    Result<RunResult, SimError>,
    Words,
) {
    match made.call {
        Call::Push { node } => crate::sim::whole_run(
            Setting { decls, ncpus, params: seq![node], start_cpu: made.start_cpu },
            Freelist::push_ops(RegionId(0), RegionId(1)),
            None,
            false,
            made.plan,
            words,
        ),
        Call::Pop => crate::sim::whole_run(
            Setting { decls, ncpus, params: seq![], start_cpu: made.start_cpu },
            Freelist::pop_ops(RegionId(0), RegionId(1)),
            Some(Operand::Reg(1)),
            false,
            made.plan,
            words,
        ),
    }
}

/// The free nodes after a call with this result: a push that committed has
/// added its node, a pop that committed has taken the node it returned.
pub open spec fn free_after(call: Call, res: Result<RunResult, SimError>, free: Set<int>) -> Set<
    int,
> {
    match res {
        Ok(RunResult { outcome: Outcome::Committed { ret }, .. }) => match call {
            Call::Push { node } => free.insert(node as usize as int),
            Call::Pop => free.remove(ret.unwrap() as usize as int),
        },
        _ => free,
    }
}

/// Memory and the free nodes after the calls, one after the other.
pub open spec fn calls_end(
    decls: Seq<RegionDecl>,
    ncpus: usize,
    calls: Seq<Made>,
    words: Words,
    free: Set<int>,
) -> (Words, Set<int>)
    decreases calls.len(),
{
    if calls.len() == 0 {
        (words, free)
    } else {
        let (w, f) = calls_end(decls, ncpus, calls.drop_last(), words, free);
        let (res, after) = call_run(decls, ncpus, calls.last(), w);
        (after, free_after(calls.last().call, res, f))
    }
}

/// A node may be pushed by who owns it: it is in the pool and not free.
pub open spec fn may_push(node: u64, nnodes: usize, free: Set<int>) -> bool {
    &&& (node as usize) < nnodes
    &&& node != NIL
    &&& !free.contains(node as usize as int)
}

/// Every call is made as it may be: only owned nodes are pushed, and no run is
/// refused for a CPU that does not exist.
pub open spec fn calls_allowed(
    decls: Seq<RegionDecl>,
    ncpus: usize,
    nnodes: usize,
    calls: Seq<Made>,
    words: Words,
    free: Set<int>,
) -> bool
    decreases calls.len(),
{
    calls.len() > 0 ==> {
        let (w, f) = calls_end(decls, ncpus, calls.drop_last(), words, free);
        &&& calls_allowed(decls, ncpus, nnodes, calls.drop_last(), words, free)
        &&& crate::laws::fires_in_range(call_run(decls, ncpus, calls.last(), w))
        &&& calls.last().call matches Call::Push { node } ==> may_push(node, nnodes, f)
    }
}

/// Nodes are conserved: over any number of completed pushes and pops, each
/// aborted and migrated in any way, the nodes on the lists are pairwise
/// distinct, and exactly those that were pushed and not popped since.
pub proof fn law_freelist_conserves_nodes(
    decls: Seq<RegionDecl>,
    ncpus: usize,
    nnodes: usize,
    calls: Seq<Made>,
    words: Words,
    free: Set<int>,
)
    requires
        crate::behaviour::freelist_layout(decls, nnodes),
        crate::sim::words_match(decls, ncpus as int, words),
        holds_exactly(words, 0, 1, ncpus, free),
        calls_allowed(decls, ncpus, nnodes, calls, words, free),
    ensures
        ({
            let (w, f) = calls_end(decls, ncpus, calls, words, free);
            &&& crate::sim::words_match(decls, ncpus as int, w)
            &&& holds_exactly(w, 0, 1, ncpus, f)
        }),
    decreases calls.len(),
{
    if calls.len() > 0 {
        law_freelist_conserves_nodes(decls, ncpus, nnodes, calls.drop_last(), words, free);
        let (w, f) = calls_end(decls, ncpus, calls.drop_last(), words, free);
        let made = calls.last();
        let run = call_run(decls, ncpus, made, w);
        assert(w[0].len() == ncpus);
        assert(w[1].len() == nnodes);
        match made.call {
            Call::Push { node } => {
                let env = Setting {
                    decls,
                    ncpus,
                    params: seq![node],
                    start_cpu: made.start_cpu,
                };
                lemma_on_no_list(w, 0, 1, ncpus, f, node);
                crate::behaviour::law_push_adds_its_node_once(env, nnodes, made.plan, w);
                let c = choose|c: usize| #[trigger]
                    crate::behaviour::pushed_on(run, w, ncpus, node, c);
                lemma_linked(w, 0, 1, ncpus, f, c as int, node);
            },
            Call::Pop => {
                let env = Setting { decls, ncpus, params: seq![], start_cpu: made.start_cpu };
                crate::behaviour::law_pop_takes_one_node(env, nnodes, made.plan, w);
                let c = choose|c: usize| #[trigger]
                    crate::behaviour::popped_on(run, w, ncpus, c);
                assert(crate::behaviour::list_of(w, 0, 1, c as int) is Some);
                let head = w[0][c as int];
                if head != NIL {
                    crate::rt::law_unlinking_leaves_the_rest(w[1], head);
                    lemma_unlinked(w, 0, 1, ncpus, f, c as int);
                }
            },
        }
    }
}

/// Fresh memory holds no nodes, so the free nodes are those that the calls
/// since have pushed and not popped.
pub proof fn law_fresh_lists_hold_nothing(words: Words, heads: int, nodes: int, ncpus: usize)
    requires
        forall|c: int| 0 <= c < ncpus ==> #[trigger] words[heads][c] == NIL,
    ensures
        holds_exactly(words, heads, nodes, ncpus, Set::empty()),
{
    let lists = lists_of(words, heads, nodes, ncpus);
    assert forall|c: int| 0 <= c < ncpus implies #[trigger] crate::behaviour::list_of(
        words,
        heads,
        nodes,
        c,
    ) == Some(Seq::<u64>::empty()) by {
        assert(words[heads][c] == NIL);
    }
    assert forall|c: int| 0 <= c < ncpus implies (#[trigger] lists[c]).len() == 0 by {
        assert(crate::behaviour::list_of(words, heads, nodes, c) == Some(Seq::<u64>::empty()));
    }
}

} // verus!
