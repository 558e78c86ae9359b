//! What the report says of the rows themselves: which rows are in which of its
//! lines, and what each is compared with.

use vstd::prelude::*;

use crate::analysis::{AbortCell, BlockKey, Bucket, Cell, CellText, Sample};
use crate::bench::{Arm, RowText};

verus! {

/// The two rows are of one block of one file.
pub open spec fn same_block(a: RowText, b: RowText) -> bool {
    a.file == b.file && a.block == b.block
}

/// No later row has the arm of row `i` in its block.
pub open spec fn has_last_word(rows: Seq<RowText>, i: int) -> bool {
    forall|j: int|
        i < j < rows.len() ==> !(same_block(#[trigger] rows[j], rows[i]) && rows[j].arm
            == rows[i].arm)
}

/// Row `i` is the first of its block.
pub open spec fn opens_block(rows: Seq<RowText>, i: int) -> bool {
    forall|j: int| 0 <= j < i ==> !same_block(#[trigger] rows[j], rows[i])
}

/// The arms that the block of row `i` has rows of.
pub open spec fn arms_beside(rows: Seq<RowText>, i: int) -> Set<Seq<char>> {
    Set::new(
        |arm: Seq<char>|
            exists|j: int|
                0 <= j < rows.len() && same_block(#[trigger] rows[j], rows[i]) && rows[j].arm
                    == arm,
    )
}

/// The block of row `i` has a row of each of six arms.
pub open spec fn finished(rows: Seq<RowText>, i: int) -> bool {
    arms_beside(rows, i).len() == 6
}

/// The thread counts that a bucket stands for.
pub open spec fn covers(b: Bucket, threads: usize) -> bool {
    match b {
        Bucket::One => threads == 1,
        Bucket::Few => threads == 2 || threads == 3 || threads == 4,
        Bucket::Several => 4 < threads < 17,
        Bucket::Many => threads == 0 || threads > 16,
    }
}

/// The arm that tallies aborts.
pub open spec fn tallying_arm() -> Seq<char> {
    seq!['r', 's', 'e', 'q', '-', 'a', 's', 'm', '-', 'n', 'o', 'p', 'a', 'd']
}

/// The arm that the others are compared with.
pub open spec fn baseline_arm() -> Seq<char> {
    seq!['m', 'u', 't', 'e', 'x']
}

/// The arms go by these names in the results, no two by the same.
pub proof fn law_arms_have_names_of_their_own(a: Arm, b: Arm)
    ensures
        Arm::JitPad.label() == seq!['r', 's', 'e', 'q', '-', 'j', 'i', 't', '-', 'p', 'a', 'd'],
        Arm::JitNopad.label() == seq!['r', 's', 'e', 'q', '-', 'j', 'i', 't', '-', 'n', 'o'] + seq![
            'p',
            'a',
            'd',
        ],
        Arm::AsmNopad.label() == tallying_arm(),
        Arm::AtomicShard.label() == seq!['a', 't', 'o', 'm', 'i', 'c', '-', 's', 'h', 'a', 'r', 'd'],
        Arm::AtomicShared.label() == seq!['a', 't', 'o', 'm', 'i', 'c', '-', 's', 'h', 'a', 'r']
            + seq!['e', 'd'],
        Arm::Mutex.label() == baseline_arm(),
        a.label() == b.label() ==> a == b,
{
    reveal_strlit("rseq-jit-pad");
    reveal_strlit("rseq-jit-nopad");
    reveal_strlit("rseq-asm-nopad");
    reveal_strlit("atomic-shard");
    reveal_strlit("atomic-shared");
    reveal_strlit("mutex");
    if a.label() == b.label() {
        assert(a.label().len() == b.label().len());
        assert(a.label()[5] == b.label()[5] || a.label().len() == 5);
        assert(a.label()[0] == b.label()[0]);
    }
}

/// Every thread count is in one bucket, the one that is labelled with it, and
/// the buckets are listed in the order of their labels.
pub proof fn law_buckets_are_what_they_are_labelled(threads: usize, a: Bucket, b: Bucket)
    ensures
        crate::analysis::bucket_of(threads) == a <==> covers(a, threads),
        Bucket::One.label_text() == seq!['1'],
        Bucket::Few.label_text() == seq!['2', '-', '4'],
        Bucket::Several.label_text() == seq!['5', '-', '1', '6'],
        Bucket::Many.label_text() == seq!['1', '7', '+'],
        a.rank_spec() < b.rank_spec() <==> crate::text::precedes(a.label_text(), b.label_text()),
{
    reveal_strlit("1");
    reveal_strlit("2-4");
    reveal_strlit("5-16");
    reveal_strlit("17+");
    assert(Bucket::One.label_text() =~= seq!['1']);
    assert(Bucket::Few.label_text() =~= seq!['2', '-', '4']);
    assert(Bucket::Several.label_text() =~= seq!['5', '-', '1', '6']);
    assert(Bucket::Many.label_text() =~= seq!['1', '7', '+']);
    reveal_with_fuel(crate::text::precedes, 5);
    assert(seq!['1'].drop_first() =~= Seq::<char>::empty());
    assert(seq!['1', '7', '+'].drop_first() =~= seq!['7', '+']);
    crate::text::law_text_order(a.label_text(), a.label_text());
}

/// The order of texts is that of the first character in which they differ; a
/// text comes before its continuations.
pub proof fn law_text_order_is_by_first_difference(a: Seq<char>, b: Seq<char>, k: int)
    requires
        0 <= k <= a.len(),
        k <= b.len(),
        a.take(k) == b.take(k),
        k < a.len() && k < b.len() ==> a[k] != b[k],
    ensures
        crate::text::precedes(a, b) <==> k < b.len() && (k == a.len() || (a[k] as int) < (
        b[k] as int)),
    decreases k,
{
    if k > 0 {
        assert(a.take(k)[0] == a[0] && b.take(k)[0] == b[0]);
        let x = a.drop_first();
        let y = b.drop_first();
        assert(x.take(k - 1) =~= y.take(k - 1)) by {
            assert forall|i: int| 0 <= i < k - 1 implies #[trigger] x.take(k - 1)[i] == y.take(
                k - 1,
            )[i] by {
                assert(a.take(k)[i + 1] == a[i + 1] && b.take(k)[i + 1] == b[i + 1]);
                assert(x[i] == a[i + 1] && y[i] == b[i + 1]);
            }
        }
        law_text_order_is_by_first_difference(x, y, k - 1);
    }
}

/// The place with two texts and buckets is before another.
pub open spec fn listed_before(
    domain: Seq<char>,
    bucket: Bucket,
    other: Seq<char>,
    next: Bucket,
) -> bool {
    crate::text::precedes(domain, other) || (domain == other && crate::text::precedes(
        bucket.label_text(),
        next.label_text(),
    ))
}

proof fn lemma_tally_rows(rows: Seq<RowText>, place: (Seq<char>, Bucket), n: int)
    requires
        0 <= n <= rows.len(),
        rows.len() <= usize::MAX,
    ensures
        ({
            let found = crate::analysis::tally_rows(rows, place, n);
            &&& forall|j: int|
                0 <= j < found.len() ==> (#[trigger] found[j]) < n && rows[found[j] as int].arm
                    == tallying_arm() && rows[found[j] as int].ops > 0 && rows[found[j] as int].domain
                    == place.0 && covers(place.1, rows[found[j] as int].threads)
            &&& forall|j: int, k: int|
                0 <= j < k < found.len() ==> #[trigger] found[j] < #[trigger] found[k]
            &&& forall|i: int|
                0 <= i < n && (#[trigger] rows[i]).arm == tallying_arm() && rows[i].ops > 0
                    && rows[i].domain == place.0 && covers(place.1, rows[i].threads)
                    ==> found.contains(i as usize)
        }),
    decreases n,
{
    law_arms_have_names_of_their_own(Arm::AsmNopad, Arm::Mutex);
    if n > 0 {
        lemma_tally_rows(rows, place, n - 1);
        let before = crate::analysis::tally_rows(rows, place, n - 1);
        let found = crate::analysis::tally_rows(rows, place, n);
        law_buckets_are_what_they_are_labelled(rows[n - 1].threads, place.1, place.1);
        assert forall|i: int|
            0 <= i < n && (#[trigger] rows[i]).arm == tallying_arm() && rows[i].ops > 0
                && rows[i].domain == place.0 && covers(
                place.1,
                rows[i].threads,
            ) implies found.contains(i as usize) by {
            if i < n - 1 {
                assert(before.contains(i as usize));
                let j = choose|j: int| 0 <= j < before.len() && before[j] == i as usize;
                assert(found[j] == i as usize);
            } else {
                assert(found[found.len() - 1] == i as usize);
            }
        }
    }
}

/// The abort rates take in every row of the arm that tallies aborts that ran at
/// all, whatever its count, and no other row: each is in one line, which has
/// its domain and a bucket with its thread count, once and in the order of the
/// rows. The lines are in the order of domains and labels.
pub proof fn law_abort_rates_take_in_every_tally(rows: Seq<RowText>, cells: Seq<AbortCell>)
    requires
        rows.len() <= usize::MAX,
        ({
            let want = crate::analysis::tally_places(rows, rows.len() as int);
            &&& cells.len() == want.len()
            &&& forall|c: int|
                0 <= c < want.len() ==> (#[trigger] cells[c]).place() == want[c] && cells[c].rows@
                    == crate::analysis::tally_rows(rows, want[c], rows.len() as int)
        }),
    ensures
        forall|i: int|
            0 <= i < rows.len() ==> ((#[trigger] rows[i]).arm == tallying_arm() && rows[i].ops > 0
                <==> exists|c: int|
                0 <= c < cells.len() && (#[trigger] cells[c]).rows@.contains(i as usize)),
        forall|c: int, j: int|
            0 <= c < cells.len() && 0 <= j < cells[c].rows@.len() ==> {
                let i = #[trigger] cells[c].rows@[j];
                &&& i < rows.len()
                &&& rows[i as int].arm == tallying_arm()
                &&& rows[i as int].ops > 0
                &&& rows[i as int].domain == cells[c].domain@
                &&& covers(cells[c].bucket, rows[i as int].threads)
            },
        forall|c: int, j: int, k: int|
            0 <= c < cells.len() && 0 <= j < k < cells[c].rows@.len()
                ==> #[trigger] cells[c].rows@[j] < #[trigger] cells[c].rows@[k],
        forall|c: int, d: int|
            0 <= c < d < cells.len() ==> listed_before(
                (#[trigger] cells[c]).domain@,
                cells[c].bucket,
                (#[trigger] cells[d]).domain@,
                cells[d].bucket,
            ),
        forall|c: int| 0 <= c < cells.len() ==> (#[trigger] cells[c]).rows@.len() > 0,
{
    let n = rows.len() as int;
    let want = crate::analysis::tally_places(rows, n);
    law_arms_have_names_of_their_own(Arm::AsmNopad, Arm::Mutex);
    crate::orders::law_tally_places(rows, n);
    crate::analysis::lemma_place_order();
    assert forall|c: int, j: int| 0 <= c < cells.len() && 0 <= j < cells[c].rows@.len() implies {
        let i = #[trigger] cells[c].rows@[j];
        &&& i < rows.len()
        &&& rows[i as int].arm == tallying_arm()
        &&& rows[i as int].ops > 0
        &&& rows[i as int].domain == cells[c].domain@
        &&& covers(cells[c].bucket, rows[i as int].threads)
    } by {
        assert(cells[c].place() == want[c]);
        lemma_tally_rows(rows, want[c], n);
    }
    assert forall|c: int, j: int, k: int|
        0 <= c < cells.len() && 0 <= j < k < cells[c].rows@.len() implies #[trigger] cells[c].rows@[j]
        < #[trigger] cells[c].rows@[k] by {
        assert(cells[c].place() == want[c]);
        lemma_tally_rows(rows, want[c], n);
    }
    assert forall|i: int| 0 <= i < rows.len() implies ((#[trigger] rows[i]).arm == tallying_arm()
        && rows[i].ops > 0 <==> exists|c: int|
        0 <= c < cells.len() && (#[trigger] cells[c]).rows@.contains(i as usize)) by {
        if rows[i].arm == tallying_arm() && rows[i].ops > 0 {
            let p = crate::analysis::own_place(rows[i]);
            assert(crate::analysis::tallies(rows[i]));
            assert(want.contains(p));
            let c = choose|c: int| 0 <= c < want.len() && want[c] == p;
            law_buckets_are_what_they_are_labelled(rows[i].threads, p.1, p.1);
            lemma_tally_rows(rows, p, n);
            assert(cells[c].rows@.contains(i as usize));
        }
        if exists|c: int| 0 <= c < cells.len() && (#[trigger] cells[c]).rows@.contains(
            i as usize,
        ) {
            let c = choose|c: int|
                0 <= c < cells.len() && (#[trigger] cells[c]).rows@.contains(i as usize);
            let j = choose|j: int| 0 <= j < cells[c].rows@.len() && cells[c].rows@[j] == i as usize;
            assert(cells[c].rows@[j] == i as usize);
        }
    }
    assert forall|c: int, d: int| 0 <= c < d < cells.len() implies listed_before(
        (#[trigger] cells[c]).domain@,
        cells[c].bucket,
        (#[trigger] cells[d]).domain@,
        cells[d].bucket,
    ) by {
        assert(cells[c].place() == want[c]);
        assert(cells[d].place() == want[d]);
        assert(crate::analysis::place_before()(want[c], want[d]));
        law_buckets_are_what_they_are_labelled(0, cells[c].bucket, cells[d].bucket);
    }
    assert forall|c: int| 0 <= c < cells.len() implies (#[trigger] cells[c]).rows@.len() > 0 by {
        assert(cells[c].place() == want[c]);
        assert(want.contains(want[c]));
        let i = choose|i: int|
            0 <= i < n && crate::analysis::tallies(#[trigger] rows[i])
                && crate::analysis::own_place(rows[i]) == want[c];
        law_buckets_are_what_they_are_labelled(rows[i].threads, want[c].1, want[c].1);
        lemma_tally_rows(rows, want[c], n);
        assert(cells[c].rows@.contains(i as usize));
    }
}

/// The text of a row is the row, field by field.
pub proof fn law_row_texts_are_the_rows(rows: Seq<crate::bench::Row>, i: int)
    requires
        0 <= i < rows.len(),
    ensures
        ({
            let texts = crate::bench::row_texts(rows);
            &&& texts.len() == rows.len()
            &&& texts[i].file == rows[i].file
            &&& texts[i].block == rows[i].block
            &&& texts[i].domain == rows[i].domain@
            &&& texts[i].threads == rows[i].threads
            &&& texts[i].ops == rows[i].ops
            &&& texts[i].arm == rows[i].arm@
            &&& texts[i].mops == rows[i].mops@
            &&& texts[i].aborts == rows[i].aborts
        }),
{
}

/// What is compared in the report is fair: see `law_samples_are_of_whole_blocks`.
pub open spec fn fair(rows: Seq<RowText>, cell: Cell, s: Sample) -> bool {
    let i = s.row as int;
    &&& s.row < rows.len()
    &&& rows[i].arm == cell.arm@
    &&& has_last_word(rows, i)
    &&& finished(rows, i)
    &&& exists|f: int|
        0 <= f < rows.len() && #[trigger] opens_block(rows, f) && same_block(rows[f], rows[i])
            && rows[f].domain == cell.domain@ && covers(cell.bucket, rows[f].threads)
    &&& match s.baseline {
        Some(b) => b < rows.len() && same_block(rows[b as int], rows[i]) && rows[b as int].arm
            == baseline_arm() && has_last_word(rows, b as int),
        None => forall|j: int|
            0 <= j < rows.len() && same_block(#[trigger] rows[j], rows[i]) ==> rows[j].arm
                != baseline_arm(),
    }
}

proof fn lemma_finished(rows: Seq<RowText>, i: int)
    requires
        0 <= i < rows.len(),
    ensures
        finished(rows, i) <==> crate::analysis::complete(
            rows,
            crate::analysis::key_of(rows[i]),
        ),
{
    let k = crate::analysis::key_of(rows[i]);
    let len = rows.len() as int;
    let arms = crate::analysis::arm_rows(rows, k, len);
    let texts = Seq::new(arms.len(), |a: int| rows[arms[a]].arm);
    crate::analysis::law_block_counts_arms_once(rows, k);
    crate::analysis::lemma_arm_rows(rows, k, len);
    assert(texts.no_duplicates()) by {
        assert forall|a: int, b: int|
            0 <= a < texts.len() && 0 <= b < texts.len() && a != b implies texts[a] != texts[b] by {
            if a < b {
                assert(rows[arms[a]].arm != rows[arms[b]].arm);
            } else {
                assert(rows[arms[b]].arm != rows[arms[a]].arm);
            }
        }
    }
    texts.unique_seq_to_set();
    assert(texts.to_set() =~= arms_beside(rows, i)) by {
        assert forall|t: Seq<char>| texts.to_set().contains(t) <==> arms_beside(
            rows,
            i,
        ).contains(t) by {
            if texts.contains(t) {
                let a = choose|a: int| 0 <= a < texts.len() && texts[a] == t;
                assert(crate::analysis::key_of(rows[arms[a]]) == k);
                assert(same_block(rows[arms[a]], rows[i]));
            }
            if arms_beside(rows, i).contains(t) {
                let j = choose|j: int|
                    0 <= j < rows.len() && same_block(#[trigger] rows[j], rows[i]) && rows[j].arm
                        == t;
                assert(crate::analysis::key_of(rows[j]) == k);
                let a = choose|a: int|
                    0 <= a < arms.len() && rows[#[trigger] arms[a]].arm == rows[j].arm && arms[a]
                        >= j;
                assert(texts[a] == t);
            }
        }
    }
}

proof fn lemma_opening(rows: Seq<RowText>, i: int) -> (f: int)
    requires
        0 <= i < rows.len(),
    ensures
        0 <= f <= i,
        opens_block(rows, f),
        same_block(rows[f], rows[i]),
        crate::analysis::first_row(rows, crate::analysis::key_of(rows[i]), 0) == Some(f),
{
    let k = crate::analysis::key_of(rows[i]);
    crate::analysis::lemma_first_row(rows, k, 0, i);
    let f = crate::analysis::first_row(rows, k, 0).unwrap();
    assert forall|j: int| 0 <= j < f implies !same_block(#[trigger] rows[j], rows[f]) by {
        if same_block(rows[j], rows[f]) {
            crate::analysis::lemma_first_row(rows, k, 0, j);
        }
    }
    f
}

proof fn lemma_last_word(rows: Seq<RowText>, i: int)
    requires
        0 <= i < rows.len(),
    ensures
        has_last_word(rows, i) <==> crate::analysis::counts(rows, i),
{
    let k = crate::analysis::key_of(rows[i]);
    crate::analysis::lemma_last_row(rows, k, rows[i].arm, rows.len() as int);
    let l = crate::analysis::last_row(rows, k, rows[i].arm, rows.len() as int);
    assert(crate::analysis::key_of(rows[i]) == k);
    if has_last_word(rows, i) {
        if l.unwrap() > i {
            assert(same_block(rows[l.unwrap()], rows[i]));
        }
    } else {
        let j = choose|j: int|
            i < j < rows.len() && same_block(#[trigger] rows[j], rows[i]) && rows[j].arm
                == rows[i].arm;
        assert(crate::analysis::key_of(rows[j]) == k);
    }
}

proof fn lemma_sample_at(
    rows: Seq<RowText>,
    keys: Seq<BlockKey>,
    n: int,
    cell: CellText,
    j: int,
) -> (m: int)
    requires
        0 <= n <= keys.len(),
        0 <= j < crate::analysis::samples_of(rows, keys, n, cell).len(),
    ensures
        0 <= m < n,
        j == crate::analysis::samples_of(rows, keys, m, cell).len(),
        crate::analysis::complete(rows, keys[m]),
        crate::analysis::place_of(rows, keys[m]) == (cell.domain, cell.bucket),
        crate::analysis::last_row(rows, keys[m], cell.arm, rows.len() as int) is Some,
        crate::analysis::samples_of(rows, keys, n, cell)[j] == (Sample {
            row: crate::analysis::last_row(
                rows,
                keys[m],
                cell.arm,
                rows.len() as int,
            ).unwrap() as usize,
            baseline: crate::analysis::as_index(
                crate::analysis::last_row(
                    rows,
                    keys[m],
                    Arm::Mutex.label(),
                    rows.len() as int,
                ),
            ),
        }),
    decreases n,
{
    if j < crate::analysis::samples_of(rows, keys, n - 1, cell).len() {
        lemma_sample_at(rows, keys, n - 1, cell, j)
    } else {
        n - 1
    }
}

proof fn lemma_sample_kept(
    rows: Seq<RowText>,
    keys: Seq<BlockKey>,
    m: int,
    n: int,
    cell: CellText,
)
    requires
        0 <= m <= n <= keys.len(),
    ensures
        crate::analysis::samples_of(rows, keys, m, cell).len() <= crate::analysis::samples_of(
            rows,
            keys,
            n,
            cell,
        ).len(),
        forall|j: int|
            0 <= j < crate::analysis::samples_of(rows, keys, m, cell).len()
                ==> crate::analysis::samples_of(rows, keys, m, cell)[j]
                == #[trigger] crate::analysis::samples_of(rows, keys, n, cell)[j],
    decreases n - m,
{
    if m < n {
        lemma_sample_kept(rows, keys, m, n - 1, cell);
    }
}

/// The report's cells as the analysis makes them.
pub open spec fn reported(rows: Seq<RowText>, cells: Seq<Cell>) -> bool {
    let keys = crate::analysis::block_keys(rows, rows.len() as int);
    let want = crate::analysis::cell_keys(rows, keys, keys.len() as int);
    &&& cells.len() == want.len()
    &&& forall|c: int|
        0 <= c < want.len() ==> (#[trigger] cells[c]).text() == want[c] && cells[c].samples@
            == crate::analysis::samples_of(rows, keys, keys.len() as int, want[c])
}

proof fn lemma_fair(rows: Seq<RowText>, cells: Seq<Cell>, c: int, j: int)
    requires
        rows.len() <= usize::MAX,
        reported(rows, cells),
        0 <= c < cells.len(),
        0 <= j < cells[c].samples@.len(),
    ensures
        fair(rows, cells[c], cells[c].samples@[j]),
{
    let len = rows.len() as int;
    let keys = crate::analysis::block_keys(rows, len);
    let want = crate::analysis::cell_keys(rows, keys, keys.len() as int);
    let cell = want[c];
    assert(cells[c].text() == cell);
    let m = lemma_sample_at(rows, keys, keys.len() as int, cell, j);
    let k = keys[m];
    let s = cells[c].samples@[j];
    crate::analysis::lemma_last_row(rows, k, cell.arm, len);
    law_arms_have_names_of_their_own(Arm::AsmNopad, Arm::Mutex);
    crate::analysis::lemma_last_row(rows, k, baseline_arm(), len);
    let i = s.row as int;
    assert(crate::analysis::key_of(rows[i]) == k && rows[i].arm == cell.arm);
    lemma_finished(rows, i);
    lemma_last_word(rows, i);
    let f = lemma_opening(rows, i);
    law_buckets_are_what_they_are_labelled(rows[f].threads, cell.bucket, cell.bucket);
    assert(opens_block(rows, f));
    match s.baseline {
        Some(b) => {
            assert(crate::analysis::key_of(rows[b as int]) == k);
            lemma_last_word(rows, b as int);
        },
        None => {
            assert forall|l: int|
                0 <= l < rows.len() && same_block(#[trigger] rows[l], rows[i]) implies rows[l].arm
                != baseline_arm() by {
                assert(crate::analysis::key_of(rows[l]) == k);
            }
        },
    }
}

proof fn lemma_sampled(rows: Seq<RowText>, cells: Seq<Cell>, i: int) -> (found: (int, int))
    requires
        rows.len() <= usize::MAX,
        reported(rows, cells),
        0 <= i < rows.len(),
        has_last_word(rows, i),
        finished(rows, i),
    ensures
        0 <= found.0 < cells.len(),
        0 <= found.1 < cells[found.0].samples@.len(),
        cells[found.0].samples@[found.1].row == i,
{
    let len = rows.len() as int;
    let keys = crate::analysis::block_keys(rows, len);
    let n = keys.len() as int;
    let want = crate::analysis::cell_keys(rows, keys, n);
    let k = crate::analysis::key_of(rows[i]);
    lemma_finished(rows, i);
    lemma_last_word(rows, i);
    crate::analysis::law_block_keys(rows, len);
    assert(keys.contains(k));
    let m = choose|m: int| 0 <= m < keys.len() && keys[m] == k;
    let place = crate::analysis::place_of(rows, k);
    let cell = CellText { domain: place.0, bucket: place.1, arm: rows[i].arm };
    let j = crate::analysis::samples_of(rows, keys, m, cell).len() as int;
    lemma_sample_kept(rows, keys, m + 1, n, cell);
    let upto = crate::analysis::samples_of(rows, keys, m + 1, cell);
    let all = crate::analysis::samples_of(rows, keys, n, cell);
    assert(upto.len() == j + 1 && upto[j].row == i);
    assert(upto[j] == all[j]);
    crate::analysis::law_cells_are_those_with_samples(rows, keys, n);
    assert(want.contains(cell));
    let c = choose|c: int| 0 <= c < want.len() && want[c] == cell;
    assert(cells[c].text() == want[c]);
    (c, j)
}

proof fn lemma_sampled_once(
    rows: Seq<RowText>,
    cells: Seq<Cell>,
    c: int,
    j: int,
    d: int,
    l: int,
)
    requires
        rows.len() <= usize::MAX,
        reported(rows, cells),
        0 <= c < cells.len(),
        0 <= j < cells[c].samples@.len(),
        0 <= d < cells.len(),
        0 <= l < cells[d].samples@.len(),
        cells[c].samples@[j].row == cells[d].samples@[l].row,
    ensures
        c == d && j == l,
{
    let len = rows.len() as int;
    let keys = crate::analysis::block_keys(rows, len);
    let n = keys.len() as int;
    let want = crate::analysis::cell_keys(rows, keys, n);
    assert(cells[c].text() == want[c] && cells[d].text() == want[d]);
    let m = lemma_sample_at(rows, keys, n, want[c], j);
    let o = lemma_sample_at(rows, keys, n, want[d], l);
    crate::analysis::lemma_last_row(rows, keys[m], want[c].arm, len);
    crate::analysis::lemma_last_row(rows, keys[o], want[d].arm, len);
    assert(keys[m] == keys[o]);
    crate::analysis::law_block_keys(rows, len);
    let less = crate::analysis::key_before();
    if m < o {
        assert(less(keys[m], keys[o]));
    }
    if o < m {
        assert(less(keys[o], keys[m]));
    }
    assert(want[c] == want[d]);
    crate::analysis::law_cells_are_those_with_samples(rows, keys, n);
    crate::analysis::lemma_cell_order();
    let before = crate::analysis::cell_before();
    if c < d {
        assert(before(want[c], want[d]));
    }
    if d < c {
        assert(before(want[d], want[c]));
    }
}

/// Throughputs are compared within whole blocks only. Each sample is the last
/// row of its arm in a block that has a row of each of six arms; it is listed
/// with its arm under the domain and the thread count that open its block, and
/// is compared with the last row of the baseline in the same block, or with
/// none where the block has no such row. Every such row is a sample, once.
pub proof fn law_samples_are_of_whole_blocks(rows: Seq<RowText>, cells: Seq<Cell>)
    requires
        rows.len() <= usize::MAX,
        reported(rows, cells),
    ensures
        forall|c: int, j: int|
            0 <= c < cells.len() && 0 <= j < cells[c].samples@.len() ==> fair(
                rows,
                cells[c],
                #[trigger] cells[c].samples@[j],
            ),
        forall|i: int|
            0 <= i < rows.len() && #[trigger] has_last_word(rows, i) && finished(rows, i)
                ==> exists|c: int, j: int|
                0 <= c < cells.len() && 0 <= j < cells[c].samples@.len() && (
                #[trigger] cells[c].samples@[j]).row == i,
        forall|c: int, j: int, d: int, l: int|
            0 <= c < cells.len() && 0 <= j < cells[c].samples@.len() && 0 <= d < cells.len() && 0
                <= l < cells[d].samples@.len() && (#[trigger] cells[c].samples@[j]).row == (
            #[trigger] cells[d].samples@[l]).row ==> c == d && j == l,
{
    assert forall|c: int, j: int|
        0 <= c < cells.len() && 0 <= j < cells[c].samples@.len() implies fair(
        rows,
        cells[c],
        #[trigger] cells[c].samples@[j],
    ) by {
        lemma_fair(rows, cells, c, j);
    }
    assert forall|i: int|
        0 <= i < rows.len() && #[trigger] has_last_word(rows, i) && finished(
            rows,
            i,
        ) implies exists|c: int, j: int|
        0 <= c < cells.len() && 0 <= j < cells[c].samples@.len() && (
        #[trigger] cells[c].samples@[j]).row == i by {
        let found = lemma_sampled(rows, cells, i);
        assert(cells[found.0].samples@[found.1].row == i);
    }
    assert forall|c: int, j: int, d: int, l: int|
        0 <= c < cells.len() && 0 <= j < cells[c].samples@.len() && 0 <= d < cells.len() && 0 <= l
            < cells[d].samples@.len() && (#[trigger] cells[c].samples@[j]).row == (
        #[trigger] cells[d].samples@[l]).row implies c == d && j == l by {
        lemma_sampled_once(rows, cells, c, j, d, l);
    }
}

/// The cells are in the order of their domains, then of the labels of their
/// buckets, then of their arms, and none of them is without a sample.
pub proof fn law_cells_are_in_order(rows: Seq<RowText>, cells: Seq<Cell>)
    requires
        reported(rows, cells),
    ensures
        forall|c: int, d: int|
            0 <= c < d < cells.len() ==> {
                let a = #[trigger] cells[c];
                let b = #[trigger] cells[d];
                listed_before(a.domain@, a.bucket, b.domain@, b.bucket) || (a.domain@ == b.domain@
                    && a.bucket == b.bucket && crate::text::precedes(a.arm@, b.arm@))
            },
        forall|c: int| 0 <= c < cells.len() ==> (#[trigger] cells[c]).samples@.len() > 0,
{
    let keys = crate::analysis::block_keys(rows, rows.len() as int);
    let n = keys.len() as int;
    let want = crate::analysis::cell_keys(rows, keys, n);
    crate::analysis::law_cells_are_those_with_samples(rows, keys, n);
    let before = crate::analysis::cell_before();
    assert forall|c: int, d: int| 0 <= c < d < cells.len() implies {
        let a = #[trigger] cells[c];
        let b = #[trigger] cells[d];
        listed_before(a.domain@, a.bucket, b.domain@, b.bucket) || (a.domain@ == b.domain@
            && a.bucket == b.bucket && crate::text::precedes(a.arm@, b.arm@))
    } by {
        assert(cells[c].text() == want[c] && cells[d].text() == want[d]);
        assert(before(want[c], want[d]));
        law_buckets_are_what_they_are_labelled(0, cells[c].bucket, cells[d].bucket);
    }
    assert forall|c: int| 0 <= c < cells.len() implies (#[trigger] cells[c]).samples@.len()
        > 0 by {
        assert(cells[c].text() == want[c]);
        assert(want.contains(want[c]));
    }
}

/// The blocks that were cut short, by file and block.
pub open spec fn cut_short(rows: Seq<RowText>) -> Set<(usize, u64)> {
    Set::new(
        |k: (usize, u64)|
            exists|i: int|
                0 <= i < rows.len() && (#[trigger] rows[i]).file == k.0 && rows[i].block == k.1
                    && !finished(rows, i),
    )
}

spec fn cut_in(rows: Seq<RowText>, keys: Seq<BlockKey>, n: int) -> Seq<BlockKey>
    decreases n,
{
    if n <= 0 {
        seq![]
    } else if crate::analysis::complete(rows, keys[n - 1]) {
        cut_in(rows, keys, n - 1)
    } else {
        cut_in(rows, keys, n - 1).push(keys[n - 1])
    }
}

proof fn lemma_cut_in(rows: Seq<RowText>, keys: Seq<BlockKey>, n: int)
    requires
        0 <= n <= keys.len(),
        keys.no_duplicates(),
    ensures
        cut_in(rows, keys, n).len() == crate::analysis::incomplete(rows, keys, n),
        cut_in(rows, keys, n).no_duplicates(),
        forall|k: BlockKey| #[trigger]
            cut_in(rows, keys, n).contains(k) <==> exists|m: int|
                0 <= m < n && #[trigger] keys[m] == k && !crate::analysis::complete(rows, k),
    decreases n,
{
    if n > 0 {
        lemma_cut_in(rows, keys, n - 1);
        let before = cut_in(rows, keys, n - 1);
        let now = cut_in(rows, keys, n);
        assert(!before.contains(keys[n - 1]));
        assert forall|k: BlockKey| #[trigger] now.contains(k) <==> exists|m: int|
            0 <= m < n && #[trigger] keys[m] == k && !crate::analysis::complete(rows, k) by {
            if before.contains(k) {
                let a = choose|a: int| 0 <= a < before.len() && before[a] == k;
                assert(now[a] == k);
            }
            if k == keys[n - 1] && !crate::analysis::complete(rows, k) {
                assert(now[now.len() - 1] == k);
            }
        }
    }
}

/// The report says how many blocks were left out: those that do not have a row
/// of each of six arms.
pub proof fn law_dropped_blocks_were_cut_short(rows: Seq<RowText>)
    ensures
        ({
            let keys = crate::analysis::block_keys(rows, rows.len() as int);
            crate::analysis::incomplete(rows, keys, keys.len() as int) == cut_short(rows).len()
        }),
{
    let len = rows.len() as int;
    let keys = crate::analysis::block_keys(rows, len);
    let n = keys.len() as int;
    crate::analysis::law_block_keys(rows, len);
    let less = crate::analysis::key_before();
    assert forall|i: int, j: int| 0 <= i < keys.len() && 0 <= j < keys.len() && i != j implies keys[i]
        != keys[j] by {
        if i < j {
            assert(less(keys[i], keys[j]));
        } else {
            assert(less(keys[j], keys[i]));
        }
    }
    lemma_cut_in(rows, keys, n);
    let cut = cut_in(rows, keys, n);
    cut.unique_seq_to_set();
    assert(cut.to_set() =~= cut_short(rows)) by {
        assert forall|k: BlockKey| cut.to_set().contains(k) <==> cut_short(rows).contains(k) by {
            if cut.contains(k) {
                assert(keys.contains(k));
                let i = choose|i: int|
                    0 <= i < len && crate::analysis::key_of(#[trigger] rows[i]) == k;
                lemma_finished(rows, i);
                assert(rows[i].file == k.0);
            }
            if cut_short(rows).contains(k) {
                let i = choose|i: int|
                    0 <= i < rows.len() && (#[trigger] rows[i]).file == k.0 && rows[i].block == k.1
                        && !finished(rows, i);
                lemma_finished(rows, i);
                assert(crate::analysis::key_of(rows[i]) == k);
                assert(keys.contains(k));
                let m = choose|m: int| 0 <= m < keys.len() && keys[m] == k;
                assert(keys[m] == k);
            }
        }
    }
}

} // verus!
