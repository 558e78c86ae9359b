//! The analysis depends neither on the order of the rows nor on the order of
//! the files they are read from.

use vstd::multiset::Multiset;
use vstd::prelude::*;

use crate::analysis::{BlockKey, Bucket, CellText, Sample};
use crate::bench::{Arm, RowText};

verus! {

/// The row as it is when its file stands at another place among the files.
pub open spec fn refiled(r: RowText, place: spec_fn(usize) -> usize) -> RowText {
    RowText { file: place(r.file), ..r }
}

/// The rows with their files at other places.
pub open spec fn all_refiled(rows: Seq<RowText>, place: spec_fn(usize) -> usize) -> Seq<RowText> {
    Seq::new(rows.len(), |i: int| refiled(rows[i], place))
}

/// Different files get different places.
pub open spec fn keeps_apart(rows: Seq<RowText>, place: spec_fn(usize) -> usize) -> bool {
    forall|i: int, j: int|
        #![trigger rows[i], rows[j]]
        0 <= i < rows.len() && 0 <= j < rows.len() && place(rows[i].file) == place(rows[j].file)
            ==> rows[i].file == rows[j].file
}

/// What a row says, whichever file it is in.
pub open spec fn unfiled(r: RowText) -> RowText {
    RowText { file: 0, ..r }
}

/// What a sample says: the measurement, and the baseline's.
pub open spec fn measure(rows: Seq<RowText>, s: Sample) -> (RowText, Option<RowText>) {
    (
        unfiled(rows[s.row as int]),
        match s.baseline {
            Some(b) => Some(unfiled(rows[b as int])),
            None => None,
        },
    )
}

/// The blocks of the rows.
pub open spec fn keys_in(rows: Seq<RowText>) -> Seq<BlockKey> {
    crate::analysis::block_keys(rows, rows.len() as int)
}

/// The measurements of a cell from the first `n` blocks.
pub open spec fn measured(rows: Seq<RowText>, n: int, cell: CellText) -> Seq<
    (RowText, Option<RowText>),
> {
    let samples = crate::analysis::samples_of(rows, keys_in(rows), n, cell);
    Seq::new(samples.len(), |j: int| measure(rows, samples[j]))
}

/// All the measurements of a cell.
pub open spec fn measures(rows: Seq<RowText>, cell: CellText) -> Multiset<
    (RowText, Option<RowText>),
> {
    measured(rows, keys_in(rows).len() as int, cell).to_multiset()
}

/// All the rows that tally aborts at a place.
pub open spec fn tallied(rows: Seq<RowText>, place: (Seq<char>, Bucket)) -> Multiset<RowText> {
    let at = crate::analysis::tally_rows(rows, place, rows.len() as int);
    Seq::new(at.len(), |j: int| unfiled(rows[at[j] as int])).to_multiset()
}

/// What a block adds to a cell.
spec fn contribution(rows: Seq<RowText>, cell: CellText, k: BlockKey) -> Option<
    (RowText, Option<RowText>),
> {
    let n = rows.len() as int;
    let row = crate::analysis::last_row(rows, k, cell.arm, n);
    let base = crate::analysis::last_row(rows, k, Arm::Mutex.label(), n);
    if crate::analysis::complete(rows, k) && crate::analysis::place_of(rows, k) == (
        cell.domain,
        cell.bucket,
    ) && row is Some {
        Some(
            (
                unfiled(rows[row.unwrap()]),
                match base {
                    Some(b) => Some(unfiled(rows[b])),
                    None => None,
                },
            ),
        )
    } else {
        None
    }
}

/// Adds what a block adds.
spec fn adder(rows: Seq<RowText>, cell: CellText) -> spec_fn(
    Multiset<(RowText, Option<RowText>)>,
    BlockKey,
) -> Multiset<(RowText, Option<RowText>)> {
    |m: Multiset<(RowText, Option<RowText>)>, k: BlockKey|
        match contribution(rows, cell, k) {
            Some(x) => m.insert(x),
            None => m,
        }
}

proof fn lemma_adder_commutes(rows: Seq<RowText>, cell: CellText)
    ensures
        vstd::seq_lib::commutative_foldl(adder(rows, cell)),
{
    broadcast use vstd::multiset::group_multiset_axioms;

    let f = adder(rows, cell);
    assert forall|x: BlockKey, y: BlockKey, v: Multiset<(RowText, Option<RowText>)>| #[trigger]
        f(f(v, x), y) == f(f(v, y), x) by {
        assert(f(f(v, x), y) =~= f(f(v, y), x));
    }
}

/// The measurements are what the blocks add up to.
proof fn lemma_measured_adds_up(rows: Seq<RowText>, n: int, cell: CellText)
    requires
        0 <= n <= keys_in(rows).len(),
        rows.len() <= usize::MAX,
    ensures
        measured(rows, n, cell).to_multiset() == keys_in(rows).take(n).fold_left(
            Multiset::empty(),
            adder(rows, cell),
        ),
    decreases n,
{
    broadcast use vstd::seq_lib::group_to_multiset_ensures;

    let keys = keys_in(rows);
    if n == 0 {
        assert(measured(rows, 0, cell).to_multiset() =~= Multiset::empty()) by {
            assert(measured(rows, 0, cell).len() == 0);
            broadcast use vstd::multiset::group_multiset_axioms;

        }
    } else {
        lemma_measured_adds_up(rows, n - 1, cell);
        assert(keys.take(n).drop_last() =~= keys.take(n - 1));
        let k = keys[n - 1];
        assert(keys.take(n).last() == k);
        let len = rows.len() as int;
        crate::analysis::lemma_last_row(rows, k, cell.arm, len);
        crate::analysis::lemma_last_row(rows, k, Arm::Mutex.label(), len);
        match contribution(rows, cell, k) {
            Some(x) => {
                assert(measured(rows, n, cell) =~= measured(rows, n - 1, cell).push(x));
            },
            None => {
                assert(measured(rows, n, cell) =~= measured(rows, n - 1, cell));
            },
        }
    }
}

/// Two lists without repetition and with the same entries are permutations of
/// each other.
proof fn lemma_same_entries<K>(a: Seq<K>, b: Seq<K>)
    requires
        a.no_duplicates(),
        b.no_duplicates(),
        forall|x: K| #[trigger] a.contains(x) <==> #[trigger] b.contains(x),
    ensures
        a.to_multiset() == b.to_multiset(),
{
    broadcast use vstd::seq_lib::group_to_multiset_ensures;

    a.lemma_multiset_has_no_duplicates();
    b.lemma_multiset_has_no_duplicates();
    assert forall|x: K| a.to_multiset().count(x) == b.to_multiset().count(x) by {
        assert(a.contains(x) <==> b.contains(x));
        if a.contains(x) {
            assert(a.to_multiset().contains(x));
            assert(b.to_multiset().contains(x));
        }
    }
    assert(a.to_multiset() =~= b.to_multiset());
}

/// A fold over renamed entries.
proof fn lemma_fold_renamed<A, B, C>(
    s: Seq<A>,
    t: Seq<B>,
    v: C,
    f: spec_fn(C, A) -> C,
    g: spec_fn(C, B) -> C,
)
    requires
        s.len() == t.len(),
        forall|i: int, c: C| 0 <= i < s.len() ==> #[trigger] f(c, s[i]) == g(c, t[i]),
    ensures
        s.fold_left(v, f) == t.fold_left(v, g),
    decreases s.len(),
{
    if s.len() > 0 {
        let s2 = s.drop_last();
        let t2 = t.drop_last();
        assert forall|i: int, c: C| 0 <= i < s2.len() implies #[trigger] f(c, s2[i]) == g(
            c,
            t2[i],
        ) by {
            assert(f(c, s[i]) == g(c, t[i]));
        }
        lemma_fold_renamed(s2, t2, v, f, g);
        let c = s2.fold_left(v, f);
        assert(f(c, s[s.len() - 1]) == g(c, t[s.len() - 1]));
    }
}

/// A block after its file has moved.
spec fn moved(k: BlockKey, place: spec_fn(usize) -> usize) -> BlockKey {
    (place(k.0), k.1)
}

/// The rows of the block `k` are those of the moved block.
spec fn corresponds(a: Seq<RowText>, b: Seq<RowText>, k: BlockKey, m: BlockKey) -> bool {
    &&& a.len() == b.len()
    &&& forall|i: int|
        0 <= i < a.len() ==> unfiled(#[trigger] a[i]) == unfiled(b[i]) && (
        crate::analysis::key_of(a[i]) == k <==> crate::analysis::key_of(b[i]) == m)
}

proof fn lemma_corresponds(a: Seq<RowText>, place: spec_fn(usize) -> usize, j: int)
    requires
        keeps_apart(a, place),
        0 <= j < a.len(),
    ensures
        ({
            let k = crate::analysis::key_of(a[j]);
            corresponds(a, all_refiled(a, place), k, moved(k, place))
        }),
{
    let b = all_refiled(a, place);
    let k = crate::analysis::key_of(a[j]);
    assert forall|i: int| 0 <= i < a.len() implies unfiled(#[trigger] a[i]) == unfiled(b[i]) && (
    crate::analysis::key_of(a[i]) == k <==> crate::analysis::key_of(b[i]) == moved(k, place)) by {
        assert(b[i] == refiled(a[i], place));
        if place(a[i].file) == place(a[j].file) {
            assert(a[i].file == a[j].file);
        }
    }
}

proof fn lemma_last_row_moves(
    a: Seq<RowText>,
    b: Seq<RowText>,
    k: BlockKey,
    m: BlockKey,
    arm: Seq<char>,
    n: int,
)
    requires
        corresponds(a, b, k, m),
        n <= a.len(),
    ensures
        crate::analysis::last_row(a, k, arm, n) == crate::analysis::last_row(b, m, arm, n),
    decreases n,
{
    if n > 0 {
        assert(unfiled(a[n - 1]) == unfiled(b[n - 1]));
        lemma_last_row_moves(a, b, k, m, arm, n - 1);
    }
}

proof fn lemma_first_row_moves(
    a: Seq<RowText>,
    b: Seq<RowText>,
    k: BlockKey,
    m: BlockKey,
    from: int,
)
    requires
        corresponds(a, b, k, m),
        0 <= from,
    ensures
        crate::analysis::first_row(a, k, from) == crate::analysis::first_row(b, m, from),
        crate::analysis::first_row(a, k, from) matches Some(i) ==> 0 <= i < a.len(),
    decreases a.len() - from,
{
    if from < a.len() {
        assert(unfiled(a[from]) == unfiled(b[from]));
        lemma_first_row_moves(a, b, k, m, from + 1);
    }
}

proof fn lemma_arm_rows_move(
    a: Seq<RowText>,
    b: Seq<RowText>,
    k: BlockKey,
    m: BlockKey,
    n: int,
)
    requires
        corresponds(a, b, k, m),
        n <= a.len(),
    ensures
        crate::analysis::arm_rows(a, k, n) == crate::analysis::arm_rows(b, m, n),
    decreases n,
{
    if n > 0 {
        lemma_arm_rows_move(a, b, k, m, n - 1);
        assert(unfiled(a[n - 1]) == unfiled(b[n - 1]));
        lemma_last_row_moves(a, b, k, m, a[n - 1].arm, a.len() as int);
    }
}

/// A moved block adds what it added before.
proof fn lemma_contribution_moves(
    a: Seq<RowText>,
    b: Seq<RowText>,
    k: BlockKey,
    m: BlockKey,
    cell: CellText,
)
    requires
        corresponds(a, b, k, m),
    ensures
        contribution(a, cell, k) == contribution(b, cell, m),
        crate::analysis::complete(a, k) == crate::analysis::complete(b, m),
{
    let n = a.len() as int;
    lemma_arm_rows_move(a, b, k, m, n);
    lemma_first_row_moves(a, b, k, m, 0);
    lemma_last_row_moves(a, b, k, m, cell.arm, n);
    lemma_last_row_moves(a, b, k, m, Arm::Mutex.label(), n);
    crate::analysis::lemma_last_row(a, k, cell.arm, n);
    crate::analysis::lemma_last_row(a, k, Arm::Mutex.label(), n);
    if let Some(i) = crate::analysis::first_row(a, k, 0) {
        assert(unfiled(a[i]) == unfiled(b[i]));
    }
    if let Some(i) = crate::analysis::last_row(a, k, cell.arm, n) {
        assert(unfiled(a[i]) == unfiled(b[i]));
    }
    if let Some(i) = crate::analysis::last_row(a, k, Arm::Mutex.label(), n) {
        assert(unfiled(a[i]) == unfiled(b[i]));
    }
}

/// The blocks after their files have moved, in the old order.
spec fn moved_keys(rows: Seq<RowText>, place: spec_fn(usize) -> usize) -> Seq<BlockKey> {
    Seq::new(keys_in(rows).len(), |i: int| moved(keys_in(rows)[i], place))
}

proof fn lemma_ascending_distinct<K>(s: Seq<K>, less: spec_fn(K, K) -> bool)
    requires
        crate::analysis::total_order(less),
        crate::analysis::ascending(s, less),
    ensures
        s.no_duplicates(),
{
    assert forall|i: int, j: int| 0 <= i < s.len() && 0 <= j < s.len() && i != j implies s[i]
        != s[j] by {
        if i < j {
            assert(less(s[i], s[j]));
        } else {
            assert(less(s[j], s[i]));
        }
    }
}

/// The moved blocks are the blocks of the moved rows.
proof fn lemma_moved_keys(a: Seq<RowText>, place: spec_fn(usize) -> usize)
    requires
        keeps_apart(a, place),
    ensures
        moved_keys(a, place).to_multiset() == keys_in(all_refiled(a, place)).to_multiset(),
{
    let b = all_refiled(a, place);
    let ka = keys_in(a);
    let kb = keys_in(b);
    let km = moved_keys(a, place);
    crate::analysis::law_block_keys(a, a.len() as int);
    crate::analysis::law_block_keys(b, b.len() as int);
    lemma_ascending_distinct(ka, crate::analysis::key_before());
    lemma_ascending_distinct(kb, crate::analysis::key_before());
    assert(km.no_duplicates()) by {
        assert forall|x: int, y: int|
            0 <= x < km.len() && 0 <= y < km.len() && x != y implies km[x] != km[y] by {
            assert(ka.contains(ka[x]));
            assert(ka.contains(ka[y]));
            let i = choose|i: int|
                0 <= i < a.len() && crate::analysis::key_of(#[trigger] a[i]) == ka[x];
            let j = choose|j: int|
                0 <= j < a.len() && crate::analysis::key_of(#[trigger] a[j]) == ka[y];
            assert(a[i].file == ka[x].0 && a[j].file == ka[y].0);
        }
    }
    assert forall|m: BlockKey| #[trigger] km.contains(m) <==> #[trigger] kb.contains(m) by {
        if km.contains(m) {
            let x = choose|x: int| 0 <= x < km.len() && km[x] == m;
            assert(ka.contains(ka[x]));
            let i = choose|i: int|
                0 <= i < a.len() && crate::analysis::key_of(#[trigger] a[i]) == ka[x];
            assert(crate::analysis::key_of(b[i]) == m);
        }
        if kb.contains(m) {
            let i = choose|i: int|
                0 <= i < b.len() && crate::analysis::key_of(#[trigger] b[i]) == m;
            assert(crate::analysis::key_of(a[i]) == crate::analysis::key_of(a[i]));
            assert(ka.contains(crate::analysis::key_of(a[i])));
            let x = choose|x: int| 0 <= x < ka.len() && ka[x] == crate::analysis::key_of(a[i]);
            assert(km[x] == m);
        }
    }
    lemma_same_entries(km, kb);
}

/// Moving files leaves the measurements of every cell.
proof fn lemma_measures_move(a: Seq<RowText>, place: spec_fn(usize) -> usize, cell: CellText)
    requires
        keeps_apart(a, place),
        a.len() <= usize::MAX,
    ensures
        measures(a, cell) == measures(all_refiled(a, place), cell),
{
    let b = all_refiled(a, place);
    let ka = keys_in(a);
    let kb = keys_in(b);
    let km = moved_keys(a, place);
    lemma_measured_adds_up(a, ka.len() as int, cell);
    lemma_measured_adds_up(b, kb.len() as int, cell);
    assert(ka.take(ka.len() as int) =~= ka);
    assert(kb.take(kb.len() as int) =~= kb);
    lemma_moved_keys(a, place);
    lemma_adder_commutes(b, cell);
    vstd::seq_lib::lemma_fold_left_permutation(km, kb, adder(b, cell), Multiset::empty());
    crate::analysis::law_block_keys(a, a.len() as int);
    let f = adder(a, cell);
    let g = adder(b, cell);
    assert forall|i: int, c: Multiset<(RowText, Option<RowText>)>|
        0 <= i < ka.len() implies #[trigger] f(c, ka[i]) == g(c, km[i]) by {
        assert(ka.contains(ka[i]));
        let j = choose|j: int|
            0 <= j < a.len() && crate::analysis::key_of(#[trigger] a[j]) == ka[i];
        lemma_corresponds(a, place, j);
        lemma_contribution_moves(a, b, ka[i], km[i], cell);
    }
    lemma_fold_renamed(ka, km, Multiset::empty(), f, g);
}

/// Counts one for an incomplete block.
spec fn drop_counter(rows: Seq<RowText>) -> spec_fn(int, BlockKey) -> int {
    |n: int, k: BlockKey|
        n + if crate::analysis::complete(rows, k) {
            0int
        } else {
            1int
        }
}

proof fn lemma_incomplete_adds_up(rows: Seq<RowText>, keys: Seq<BlockKey>, n: int)
    requires
        0 <= n <= keys.len(),
    ensures
        crate::analysis::incomplete(rows, keys, n) == keys.take(n).fold_left(
            0int,
            drop_counter(rows),
        ),
    decreases n,
{
    if n > 0 {
        lemma_incomplete_adds_up(rows, keys, n - 1);
        assert(keys.take(n).drop_last() =~= keys.take(n - 1));
    }
}

/// Moving files leaves the number of incomplete blocks.
proof fn lemma_incomplete_moves(a: Seq<RowText>, place: spec_fn(usize) -> usize)
    requires
        keeps_apart(a, place),
    ensures
        dropped(a) == dropped(all_refiled(a, place)),
{
    let b = all_refiled(a, place);
    let ka = keys_in(a);
    let kb = keys_in(b);
    let km = moved_keys(a, place);
    lemma_incomplete_adds_up(a, ka, ka.len() as int);
    lemma_incomplete_adds_up(b, kb, kb.len() as int);
    assert(ka.take(ka.len() as int) =~= ka);
    assert(kb.take(kb.len() as int) =~= kb);
    lemma_moved_keys(a, place);
    let f = drop_counter(a);
    let g = drop_counter(b);
    assert(vstd::seq_lib::commutative_foldl(g));
    vstd::seq_lib::lemma_fold_left_permutation(km, kb, g, 0int);
    crate::analysis::law_block_keys(a, a.len() as int);
    let cell = CellText { domain: seq![], bucket: Bucket::Many, arm: seq![] };
    assert forall|i: int, c: int| 0 <= i < ka.len() implies #[trigger] f(c, ka[i]) == g(
        c,
        km[i],
    ) by {
        assert(ka.contains(ka[i]));
        let j = choose|j: int|
            0 <= j < a.len() && crate::analysis::key_of(#[trigger] a[j]) == ka[i];
        lemma_corresponds(a, place, j);
        lemma_contribution_moves(a, b, ka[i], km[i], cell);
    }
    lemma_fold_renamed(ka, km, 0int, f, g);
}

/// The number of incomplete blocks.
pub open spec fn dropped(rows: Seq<RowText>) -> int {
    crate::analysis::incomplete(rows, keys_in(rows), keys_in(rows).len() as int)
}

/// The cells of the report.
pub open spec fn cells_in(rows: Seq<RowText>) -> Seq<CellText> {
    crate::analysis::cell_keys(rows, keys_in(rows), keys_in(rows).len() as int)
}

/// Adds a row that tallies aborts at the place.
spec fn tally_adder(at: (Seq<char>, Bucket)) -> spec_fn(Multiset<RowText>, RowText) -> Multiset<
    RowText,
> {
    |m: Multiset<RowText>, r: RowText|
        if crate::analysis::tallies(r) && crate::analysis::own_place(r) == at {
            m.insert(unfiled(r))
        } else {
            m
        }
}

proof fn lemma_tallied_adds_up(rows: Seq<RowText>, at: (Seq<char>, Bucket), n: int)
    requires
        0 <= n <= rows.len(),
        rows.len() <= usize::MAX,
    ensures
        ({
            let found = crate::analysis::tally_rows(rows, at, n);
            Seq::new(found.len(), |j: int| unfiled(rows[found[j] as int])).to_multiset()
        }) == rows.take(n).fold_left(Multiset::empty(), tally_adder(at)),
    decreases n,
{
    broadcast use vstd::seq_lib::group_to_multiset_ensures;

    let found = crate::analysis::tally_rows(rows, at, n);
    let texts = Seq::new(found.len(), |j: int| unfiled(rows[found[j] as int]));
    if n == 0 {
        assert(texts.to_multiset() =~= Multiset::empty()) by {
            assert(texts.len() == 0);
            broadcast use vstd::multiset::group_multiset_axioms;

        }
    } else {
        lemma_tallied_adds_up(rows, at, n - 1);
        let before = crate::analysis::tally_rows(rows, at, n - 1);
        let earlier = Seq::new(before.len(), |j: int| unfiled(rows[before[j] as int]));
        assert(rows.take(n).drop_last() =~= rows.take(n - 1));
        let r = rows[n - 1];
        assert(rows.take(n).last() == r);
        if crate::analysis::tallies(r) && crate::analysis::own_place(r) == at {
            assert(texts =~= earlier.push(unfiled(r)));
        } else {
            assert(texts =~= earlier);
        }
    }
}

/// The tallies are the same for the same rows in another order, and with the
/// files at other places.
proof fn lemma_tallies_move(
    a: Seq<RowText>,
    b: Seq<RowText>,
    place: spec_fn(usize) -> usize,
    at: (Seq<char>, Bucket),
)
    requires
        all_refiled(a, place).to_multiset() == b.to_multiset(),
        a.len() <= usize::MAX,
        b.len() <= usize::MAX,
    ensures
        tallied(a, at) == tallied(b, at),
{
    let c = all_refiled(a, place);
    let f = tally_adder(at);
    lemma_tallied_adds_up(a, at, a.len() as int);
    lemma_tallied_adds_up(b, at, b.len() as int);
    assert(a.take(a.len() as int) =~= a);
    assert(b.take(b.len() as int) =~= b);
    assert(vstd::seq_lib::commutative_foldl(f)) by {
        broadcast use vstd::multiset::group_multiset_axioms;

        assert forall|x: RowText, y: RowText, v: Multiset<RowText>| #[trigger]
            f(f(v, x), y) == f(f(v, y), x) by {
            assert(f(f(v, x), y) =~= f(f(v, y), x));
        }
    }
    vstd::seq_lib::lemma_fold_left_permutation(c, b, f, Multiset::empty());
    assert forall|i: int, m: Multiset<RowText>| 0 <= i < a.len() implies #[trigger] f(m, a[i])
        == f(m, c[i]) by {
        assert(c[i] == refiled(a[i], place));
    }
    lemma_fold_renamed(a, c, Multiset::empty(), f, f);
}

/// The places with a tally are those of the rows that tally, in ascending
/// order.
pub proof fn law_tally_places(rows: Seq<RowText>, n: int)
    requires
        0 <= n <= rows.len(),
    ensures
        crate::analysis::ascending(
            crate::analysis::tally_places(rows, n),
            crate::analysis::place_before(),
        ),
        forall|p: (Seq<char>, Bucket)| #[trigger]
            crate::analysis::tally_places(rows, n).contains(p) <==> exists|i: int|
                0 <= i < n && crate::analysis::tallies(#[trigger] rows[i])
                    && crate::analysis::own_place(rows[i]) == p,
    decreases n,
{
    if n > 0 {
        law_tally_places(rows, n - 1);
        let before = crate::analysis::tally_places(rows, n - 1);
        let r = rows[n - 1];
        if crate::analysis::tallies(r) {
            crate::analysis::lemma_place_order();
            crate::analysis::law_placing(
                before,
                crate::analysis::own_place(r),
                crate::analysis::place_before(),
            );
        }
        assert forall|p: (Seq<char>, Bucket)| #[trigger]
            crate::analysis::tally_places(rows, n).contains(p) <==> exists|i: int|
            0 <= i < n && crate::analysis::tallies(#[trigger] rows[i])
                && crate::analysis::own_place(rows[i]) == p by {
            if before.contains(p) {
                let i = choose|i: int|
                    0 <= i < n - 1 && crate::analysis::tallies(#[trigger] rows[i])
                        && crate::analysis::own_place(rows[i]) == p;
                assert(crate::analysis::tallies(rows[i]));
            }
            if crate::analysis::tallies(r) && crate::analysis::own_place(r) == p {
                assert(crate::analysis::tallies(rows[n - 1]));
            }
        }
    }
}

/// Rows that follow the block design are pairwise different.
proof fn lemma_design_distinct(rows: Seq<RowText>)
    requires
        crate::analysis::by_design(rows),
    ensures
        rows.no_duplicates(),
{
    assert forall|i: int, j: int| 0 <= i < rows.len() && 0 <= j < rows.len() && i != j implies rows[i]
        != rows[j] by {
        if i < j {
            assert(rows[i].arm != rows[j].arm || crate::analysis::key_of(rows[i])
                != crate::analysis::key_of(rows[j]));
        } else {
            assert(rows[j].arm != rows[i].arm || crate::analysis::key_of(rows[j])
                != crate::analysis::key_of(rows[i]));
        }
    }
}

/// Moved rows still follow the block design.
proof fn lemma_design_moves(a: Seq<RowText>, place: spec_fn(usize) -> usize)
    requires
        crate::analysis::by_design(a),
        keeps_apart(a, place),
    ensures
        crate::analysis::by_design(all_refiled(a, place)),
{
    let c = all_refiled(a, place);
    assert forall|i: int, j: int|
        #![trigger c[i], c[j]]
        0 <= i < c.len() && 0 <= j < c.len() && crate::analysis::key_of(c[i])
            == crate::analysis::key_of(c[j]) implies crate::analysis::key_of(a[i])
        == crate::analysis::key_of(a[j]) && c[i].arm == a[i].arm && c[j].arm == a[j].arm
        && crate::analysis::own_place(c[i]) == crate::analysis::own_place(a[i])
        && crate::analysis::own_place(c[j]) == crate::analysis::own_place(a[j]) by {
        assert(c[i] == refiled(a[i], place));
        assert(c[j] == refiled(a[j], place));
        assert(a[i].file == a[j].file);
    }
}

/// The same rows in another order have the same measurements.
proof fn lemma_measures_reorder(c: Seq<RowText>, b: Seq<RowText>, cell: CellText)
    requires
        crate::analysis::by_design(c),
        crate::analysis::by_design(b),
        crate::analysis::same_rows(c, b),
        c.len() <= usize::MAX,
        b.len() <= usize::MAX,
    ensures
        keys_in(c) == keys_in(b),
        measures(c, cell) == measures(b, cell),
        dropped(c) == dropped(b),
{
    let n = keys_in(c).len() as int;
    crate::analysis::law_analysis_ignores_row_order(c, b, n, cell);
    let x = crate::analysis::sample_texts(c, keys_in(c), n, cell);
    let y = crate::analysis::sample_texts(b, keys_in(b), n, cell);
    let sc = crate::analysis::samples_of(c, keys_in(c), n, cell);
    let sb = crate::analysis::samples_of(b, keys_in(b), n, cell);
    assert(x.len() == sc.len() && y.len() == sb.len());
    assert forall|j: int| 0 <= j < sc.len() implies measured(c, n, cell)[j] == measured(
        b,
        n,
        cell,
    )[j] by {
        assert(x[j] == y[j]);
        assert(x[j] == crate::analysis::sample_text(c, sc[j]));
        assert(y[j] == crate::analysis::sample_text(b, sb[j]));
    }
    assert(measured(c, n, cell) =~= measured(b, n, cell));
}

/// Results concatenate in any order: with the files in another order, and the
/// rows in any order, the whole report is the same. It has the same cells with
/// the same measurements against the same baselines, the same abort tallies at
/// the same places, and as many blocks are dropped.
pub proof fn law_analysis_ignores_file_order(
    a: Seq<RowText>,
    b: Seq<RowText>,
    place: spec_fn(usize) -> usize,
)
    requires
        crate::analysis::by_design(a),
        crate::analysis::by_design(b),
        keeps_apart(a, place),
        crate::analysis::same_rows(all_refiled(a, place), b),
        a.len() <= usize::MAX,
        b.len() <= usize::MAX,
    ensures
        cells_in(a) == cells_in(b),
        forall|cell: CellText| #[trigger] measures(a, cell) == measures(b, cell),
        dropped(a) == dropped(b),
        crate::analysis::tally_places(a, a.len() as int) == crate::analysis::tally_places(
            b,
            b.len() as int,
        ),
        forall|at: (Seq<char>, Bucket)| #[trigger] tallied(a, at) == tallied(b, at),
{
    let c = all_refiled(a, place);
    lemma_design_moves(a, place);
    lemma_design_distinct(c);
    lemma_design_distinct(b);
    lemma_same_entries(c, b);
    assert forall|cell: CellText| #[trigger] measures(a, cell) == measures(b, cell) by {
        lemma_measures_move(a, place, cell);
        lemma_measures_reorder(c, b, cell);
    }
    lemma_incomplete_moves(a, place);
    lemma_measures_reorder(
        c,
        b,
        CellText { domain: seq![], bucket: Bucket::Many, arm: seq![] },
    );
    assert forall|at: (Seq<char>, Bucket)| #[trigger] tallied(a, at) == tallied(b, at) by {
        lemma_tallies_move(a, b, place, at);
    }
    lemma_same_cells(a, b);
    lemma_same_tally_places(a, b, place);
}

/// Where every cell has the same measurements, the cells are the same.
proof fn lemma_same_cells(a: Seq<RowText>, b: Seq<RowText>)
    requires
        forall|cell: CellText| #[trigger] measures(a, cell) == measures(b, cell),
    ensures
        cells_in(a) == cells_in(b),
{
    broadcast use vstd::seq_lib::group_to_multiset_ensures;

    let na = keys_in(a).len() as int;
    let nb = keys_in(b).len() as int;
    crate::analysis::law_cells_are_those_with_samples(a, keys_in(a), na);
    crate::analysis::law_cells_are_those_with_samples(b, keys_in(b), nb);
    crate::analysis::lemma_cell_order();
    assert forall|x: CellText| #[trigger] cells_in(a).contains(x) <==> #[trigger] cells_in(
        b,
    ).contains(x) by {
        assert(measures(a, x) == measures(b, x));
        assert(measures(a, x).len() == measured(a, na, x).len());
        assert(measures(b, x).len() == measured(b, nb, x).len());
    }
    crate::analysis::lemma_same_ascending(
        cells_in(a),
        cells_in(b),
        crate::analysis::cell_before(),
    );
}

proof fn lemma_same_tally_places(
    a: Seq<RowText>,
    b: Seq<RowText>,
    place: spec_fn(usize) -> usize,
)
    requires
        crate::analysis::same_rows(all_refiled(a, place), b),
    ensures
        crate::analysis::tally_places(a, a.len() as int) == crate::analysis::tally_places(
            b,
            b.len() as int,
        ),
{
    let c = all_refiled(a, place);
    let pa = crate::analysis::tally_places(a, a.len() as int);
    let pb = crate::analysis::tally_places(b, b.len() as int);
    law_tally_places(a, a.len() as int);
    law_tally_places(b, b.len() as int);
    crate::analysis::lemma_place_order();
    assert forall|p: (Seq<char>, Bucket)| #[trigger] pa.contains(p) <==> #[trigger] pb.contains(
        p,
    ) by {
        if pa.contains(p) {
            let i = choose|i: int|
                0 <= i < a.len() && crate::analysis::tallies(#[trigger] a[i])
                    && crate::analysis::own_place(a[i]) == p;
            assert(c.contains(c[i]));
            assert(b.contains(c[i]));
            let j = choose|j: int| 0 <= j < b.len() && b[j] == c[i];
            assert(crate::analysis::tallies(b[j]));
        }
        if pb.contains(p) {
            let j = choose|j: int|
                0 <= j < b.len() && crate::analysis::tallies(#[trigger] b[j])
                    && crate::analysis::own_place(b[j]) == p;
            assert(b.contains(b[j]));
            assert(c.contains(b[j]));
            let i = choose|i: int| 0 <= i < c.len() && c[i] == b[j];
            assert(crate::analysis::tallies(a[i]));
        }
    }
    crate::analysis::lemma_same_ascending(pa, pb, crate::analysis::place_before());
}

} // verus!
