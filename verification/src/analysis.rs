//! Grouping of benchmark results: which rows belong to one block, which blocks
//! are complete, and which rows are compared with which.
//!
//! Order-independent and paired: throughputs are only ever compared within a
//! block. The numbers themselves are looked up by row.

use vstd::prelude::*;

use crate::bench::{Arm, Row, RowText, NARMS};
use crate::text::{comes_before, same};

verus! {

/// Thread counts are reported in buckets, which are listed in the order of
/// their labels.
#[derive(Clone, Copy, PartialEq, Eq, Structural, Debug)]
pub enum Bucket {
    One,
    Many,
    Few,
    Several,
}

impl Bucket {
    pub open spec fn label_text(self) -> Seq<char> {
        match self {
            Bucket::One => "1"@,
            Bucket::Many => "17+"@,
            Bucket::Few => "2-4"@,
            Bucket::Several => "5-16"@,
        }
    }

    #[must_use]
    pub fn label(self) -> (s: &'static str)
        ensures
            s@ == self.label_text(),
    {
        match self {
            Bucket::One => "1",
            Bucket::Many => "17+",
            Bucket::Few => "2-4",
            Bucket::Several => "5-16",
        }
    }

    pub open spec fn rank_spec(self) -> int {
        match self {
            Bucket::One => 0,
            Bucket::Many => 1,
            Bucket::Few => 2,
            Bucket::Several => 3,
        }
    }

    fn rank(self) -> (r: u8)
        ensures
            r == self.rank_spec(),
    {
        match self {
            Bucket::One => 0,
            Bucket::Many => 1,
            Bucket::Few => 2,
            Bucket::Several => 3,
        }
    }
}

pub open spec fn bucket_of(threads: usize) -> Bucket {
    if threads == 1 {
        Bucket::One
    } else if 2 <= threads <= 4 {
        Bucket::Few
    } else if 5 <= threads <= 16 {
        Bucket::Several
    } else {
        Bucket::Many
    }
}

/// The bucket of a thread count.
#[must_use]
pub fn bucket(threads: usize) -> (b: Bucket)
    ensures
        b == bucket_of(threads),
{
    if threads == 1 {
        Bucket::One
    } else if 2 <= threads && threads <= 4 {
        Bucket::Few
    } else if 5 <= threads && threads <= 16 {
        Bucket::Several
    } else {
        Bucket::Many
    }
}

/// `k` put in its place in a list without repetitions.
pub open spec fn placed<K>(s: Seq<K>, k: K, less: spec_fn(K, K) -> bool) -> Seq<K>
    decreases s.len(),
{
    if s.len() == 0 {
        seq![k]
    } else if s[0] == k {
        s
    } else if less(k, s[0]) {
        seq![k] + s
    } else {
        seq![s[0]] + placed(s.drop_first(), k, less)
    }
}

/// Whether the list is strictly ascending.
pub open spec fn ascending<K>(s: Seq<K>, less: spec_fn(K, K) -> bool) -> bool {
    forall|i: int, j: int| 0 <= i < j < s.len() ==> less(#[trigger] s[i], #[trigger] s[j])
}

/// A strict total order.
pub open spec fn total_order<K>(less: spec_fn(K, K) -> bool) -> bool {
    &&& forall|a: K, b: K| #[trigger] less(a, b) ==> !less(b, a) && a != b
    &&& forall|a: K, b: K| #[trigger] less(a, b) || less(b, a) || a == b
    &&& forall|a: K, b: K, c: K| #[trigger] less(a, b) && #[trigger] less(b, c) ==> less(a, c)
}

/// Where `k` goes.
proof fn lemma_place<K>(s: Seq<K>, k: K, less: spec_fn(K, K) -> bool, p: int)
    requires
        total_order(less),
        0 <= p <= s.len(),
        forall|i: int| 0 <= i < p ==> less(#[trigger] s[i], k),
        p < s.len() ==> !less(s[p], k),
    ensures
        placed(s, k, less) == if p < s.len() && s[p] == k {
            s
        } else {
            s.insert(p, k)
        },
    decreases s.len(),
{
    if s.len() == 0 {
        assert(s.insert(p, k) =~= seq![k]);
    } else if p == 0 {
        assert(less(s[0], k) || less(k, s[0]) || s[0] == k);
        assert(s.insert(0, k) =~= seq![k] + s);
    } else {
        let rest = s.drop_first();
        assert(less(s[0], k));
        assert forall|i: int| 0 <= i < p - 1 implies less(#[trigger] rest[i], k) by {
            assert(less(s[i + 1], k));
        }
        lemma_place(rest, k, less, p - 1);
        if p < s.len() && s[p] == k {
            assert(seq![s[0]] + rest =~= s);
        } else {
            assert(seq![s[0]] + rest.insert(p - 1, k) =~= s.insert(p, k));
        }
    }
}

/// Placing keeps a list ascending and adds exactly the one entry.
pub proof fn law_placing<K>(s: Seq<K>, k: K, less: spec_fn(K, K) -> bool)
    requires
        total_order(less),
        ascending(s, less),
    ensures
        ascending(placed(s, k, less), less),
        forall|x: K| #[trigger] placed(s, k, less).contains(x) <==> s.contains(x) || x == k,
    decreases s.len(),
{
    let t = placed(s, k, less);
    if s.len() == 0 {
        assert(t[0] == k);
    } else if s[0] == k {
    } else if less(k, s[0]) {
        assert forall|i: int, j: int| 0 <= i < j < t.len() implies less(
            #[trigger] t[i],
            #[trigger] t[j],
        ) by {
            assert(t[j] == s[j - 1]);
            if i > 0 {
                assert(t[i] == s[i - 1]);
            } else if j > 1 {
                assert(less(s[0], s[j - 1]));
            }
        }
        assert forall|x: K| #[trigger] t.contains(x) <==> s.contains(x) || x == k by {
            if s.contains(x) {
                let i = choose|i: int| 0 <= i < s.len() && s[i] == x;
                assert(t[i + 1] == x);
            }
            if x == k {
                assert(t[0] == x);
            }
            if t.contains(x) {
                let i = choose|i: int| 0 <= i < t.len() && t[i] == x;
                if i > 0 {
                    assert(s[i - 1] == x);
                }
            }
        }
    } else {
        let rest = s.drop_first();
        assert(ascending(rest, less)) by {
            assert forall|i: int, j: int| 0 <= i < j < rest.len() implies less(
                #[trigger] rest[i],
                #[trigger] rest[j],
            ) by {
                assert(less(s[i + 1], s[j + 1]));
            }
        }
        law_placing(rest, k, less);
        let u = placed(rest, k, less);
        assert forall|i: int, j: int| 0 <= i < j < t.len() implies less(
            #[trigger] t[i],
            #[trigger] t[j],
        ) by {
            assert(t[j] == u[j - 1]);
            if i > 0 {
                assert(t[i] == u[i - 1]);
            } else {
                assert(u.contains(u[j - 1]));
                if u[j - 1] == k {
                    assert(less(k, s[0]) || less(s[0], k) || s[0] == k);
                } else {
                    assert(rest.contains(u[j - 1]));
                    let m = choose|m: int| 0 <= m < rest.len() && rest[m] == u[j - 1];
                    assert(less(s[0], s[m + 1]));
                }
            }
        }
        assert forall|x: K| #[trigger] t.contains(x) <==> s.contains(x) || x == k by {
            if s.contains(x) {
                let i = choose|i: int| 0 <= i < s.len() && s[i] == x;
                if i > 0 {
                    assert(rest[i - 1] == x);
                    assert(rest.contains(x));
                    assert(u.contains(x));
                    let m = choose|m: int| 0 <= m < u.len() && u[m] == x;
                    assert(t[m + 1] == x);
                } else {
                    assert(t[0] == x);
                }
            }
            if x == k {
                assert(u.contains(k));
                let m = choose|m: int| 0 <= m < u.len() && u[m] == k;
                assert(t[m + 1] == k);
            }
            if t.contains(x) {
                let i = choose|i: int| 0 <= i < t.len() && t[i] == x;
                if i > 0 {
                    assert(u[i - 1] == x);
                    assert(u.contains(x));
                    if rest.contains(x) {
                        let m = choose|m: int| 0 <= m < rest.len() && rest[m] == x;
                        assert(s[m + 1] == x);
                    }
                } else {
                    assert(s[0] == x);
                }
            }
        }
    }
}

/// A block is identified by (file, block id): ids restart at zero in each
/// file.
pub type BlockKey = (usize, u64);

pub open spec fn key_of(r: RowText) -> BlockKey {
    (r.file, r.block)
}

pub open spec fn key_before() -> spec_fn(BlockKey, BlockKey) -> bool {
    |a: BlockKey, b: BlockKey| a.0 < b.0 || (a.0 == b.0 && a.1 < b.1)
}

/// The blocks that the first `n` rows belong to, in ascending order.
pub open spec fn block_keys(rows: Seq<RowText>, n: int) -> Seq<BlockKey>
    decreases n,
{
    if n <= 0 {
        seq![]
    } else {
        placed(block_keys(rows, n - 1), key_of(rows[n - 1]), key_before())
    }
}

/// Every block that has a row is in the list, once, and no other.
pub proof fn law_block_keys(rows: Seq<RowText>, n: int)
    requires
        0 <= n <= rows.len(),
    ensures
        ascending(block_keys(rows, n), key_before()),
        forall|k: BlockKey| #[trigger]
            block_keys(rows, n).contains(k) <==> exists|i: int|
                0 <= i < n && key_of(#[trigger] rows[i]) == k,
    decreases n,
{
    if n > 0 {
        law_block_keys(rows, n - 1);
        law_placing(block_keys(rows, n - 1), key_of(rows[n - 1]), key_before());
        assert forall|k: BlockKey| #[trigger]
            block_keys(rows, n).contains(k) <==> exists|i: int|
            0 <= i < n && key_of(#[trigger] rows[i]) == k by {
            if key_of(rows[n - 1]) == k {
                assert(key_of(rows[n - 1]) == k);
            }
            if block_keys(rows, n - 1).contains(k) {
                let i = choose|i: int| 0 <= i < n - 1 && key_of(#[trigger] rows[i]) == k;
                assert(key_of(rows[i]) == k);
            }
        }
    }
}

/// The first row of block `k` from row `from` on.
pub open spec fn first_row(rows: Seq<RowText>, k: BlockKey, from: int) -> Option<int>
    decreases rows.len() - from,
{
    if from >= rows.len() {
        None
    } else if key_of(rows[from]) == k {
        Some(from)
    } else {
        first_row(rows, k, from + 1)
    }
}

/// The last of the first `n` rows that has `arm` of block `k`: a row that
/// repeats an arm replaces the earlier one.
pub open spec fn last_row(rows: Seq<RowText>, k: BlockKey, arm: Seq<char>, n: int) -> Option<int>
    decreases n,
{
    if n <= 0 {
        None
    } else if key_of(rows[n - 1]) == k && rows[n - 1].arm == arm {
        Some(n - 1)
    } else {
        last_row(rows, k, arm, n - 1)
    }
}

/// Whether row `i` is the one that counts for its block and arm.
pub open spec fn counts(rows: Seq<RowText>, i: int) -> bool {
    last_row(rows, key_of(rows[i]), rows[i].arm, rows.len() as int) == Some(i)
}

/// The rows among the first `n` that count for block `k`: one for each arm.
pub open spec fn arm_rows(rows: Seq<RowText>, k: BlockKey, n: int) -> Seq<int>
    decreases n,
{
    if n <= 0 {
        seq![]
    } else if key_of(rows[n - 1]) == k && counts(rows, n - 1) {
        arm_rows(rows, k, n - 1).push(n - 1)
    } else {
        arm_rows(rows, k, n - 1)
    }
}

/// Pairing requires the whole block: every arm has run.
pub open spec fn complete(rows: Seq<RowText>, k: BlockKey) -> bool {
    arm_rows(rows, k, rows.len() as int).len() == NARMS
}

/// Where a block is reported: the domain and the bucket of its first row.
pub open spec fn place_of(rows: Seq<RowText>, k: BlockKey) -> (Seq<char>, Bucket) {
    match first_row(rows, k, 0) {
        Some(i) => (rows[i].domain, bucket_of(rows[i].threads)),
        None => (seq![], Bucket::Many),
    }
}

/// One measurement of an arm, and that of the baseline in the same block.
#[derive(Clone, Copy, PartialEq, Eq, Structural, Debug)]
pub struct Sample {
    pub row: usize,
    pub baseline: Option<usize>,
}

/// What a cell of the report stands for.
pub struct CellText {
    pub domain: Seq<char>,
    pub bucket: Bucket,
    pub arm: Seq<char>,
}

pub open spec fn as_index(i: Option<int>) -> Option<usize> {
    match i {
        Some(k) => Some(k as usize),
        None => None,
    }
}

/// The samples of a cell from the first `n` blocks.
pub open spec fn samples_of(
    rows: Seq<RowText>,
    keys: Seq<BlockKey>,
    n: int,
    cell: CellText,
) -> Seq<Sample>
    decreases n,
{
    if n <= 0 {
        seq![]
    } else {
        let before = samples_of(rows, keys, n - 1, cell);
        let k = keys[n - 1];
        let row = last_row(rows, k, cell.arm, rows.len() as int);
        if complete(rows, k) && place_of(rows, k) == (cell.domain, cell.bucket) && row is Some {
            before.push(
                Sample {
                    row: row.unwrap() as usize,
                    baseline: as_index(
                        last_row(rows, k, Arm::Mutex.label(), rows.len() as int),
                    ),
                },
            )
        } else {
            before
        }
    }
}

/// The order of the cells: by domain, bucket and arm.
pub open spec fn cell_before() -> spec_fn(CellText, CellText) -> bool {
    |a: CellText, b: CellText|
        crate::text::precedes(a.domain, b.domain) || (a.domain == b.domain && (a.bucket.rank_spec()
            < b.bucket.rank_spec() || (a.bucket == b.bucket && crate::text::precedes(
            a.arm,
            b.arm,
        ))))
}

pub proof fn lemma_cell_order()
    ensures
        total_order(cell_before()),
{
    let less = cell_before();
    assert forall|a: CellText, b: CellText| #[trigger] less(a, b) implies !less(b, a) && a != b by {
        crate::text::law_text_order(a.domain, b.domain);
        crate::text::law_text_order(a.arm, b.arm);
    }
    assert forall|a: CellText, b: CellText| #[trigger] less(a, b) || less(b, a) || a == b by {
        crate::text::law_text_order(a.domain, b.domain);
        crate::text::law_text_order(a.arm, b.arm);
    }
    assert forall|a: CellText, b: CellText, c: CellText| #[trigger]
        less(a, b) && #[trigger] less(b, c) implies less(a, c) by {
        if crate::text::precedes(a.domain, b.domain) && crate::text::precedes(
            b.domain,
            c.domain,
        ) {
            crate::text::law_text_order_chains(a.domain, b.domain, c.domain);
        }
        if crate::text::precedes(a.arm, b.arm) && crate::text::precedes(b.arm, c.arm) {
            crate::text::law_text_order_chains(a.arm, b.arm, c.arm);
        }
    }
}

/// The cells that the arms of one block belong to, added to `cells`: those of
/// the first `n` rows that count.
pub open spec fn cells_of_block(
    rows: Seq<RowText>,
    k: BlockKey,
    n: int,
    cells: Seq<CellText>,
) -> Seq<CellText>
    decreases n,
{
    if n <= 0 {
        cells
    } else {
        let place = place_of(rows, k);
        let row = rows[arm_rows(rows, k, rows.len() as int)[n - 1]];
        placed(
            cells_of_block(rows, k, n - 1, cells),
            CellText { domain: place.0, bucket: place.1, arm: row.arm },
            cell_before(),
        )
    }
}

/// The cells of the first `n` blocks.
pub open spec fn cell_keys(rows: Seq<RowText>, keys: Seq<BlockKey>, n: int) -> Seq<CellText>
    decreases n,
{
    if n <= 0 {
        seq![]
    } else {
        let before = cell_keys(rows, keys, n - 1);
        if complete(rows, keys[n - 1]) {
            cells_of_block(rows, keys[n - 1], NARMS as int, before)
        } else {
            before
        }
    }
}

/// The number of incomplete blocks among the first `n`.
pub open spec fn incomplete(rows: Seq<RowText>, keys: Seq<BlockKey>, n: int) -> int
    decreases n,
{
    if n <= 0 {
        0
    } else {
        incomplete(rows, keys, n - 1) + if complete(rows, keys[n - 1]) {
            0int
        } else {
            1int
        }
    }
}

/// Whether a row tallies aborts.
pub open spec fn tallies(r: RowText) -> bool {
    r.arm == Arm::AsmNopad.label() && r.ops > 0
}

/// The order of the abort rates: by domain and bucket.
pub open spec fn place_before() -> spec_fn((Seq<char>, Bucket), (Seq<char>, Bucket)) -> bool {
    |a: (Seq<char>, Bucket), b: (Seq<char>, Bucket)|
        crate::text::precedes(a.0, b.0) || (a.0 == b.0 && a.1.rank_spec() < b.1.rank_spec())
}

pub proof fn lemma_place_order()
    ensures
        total_order(place_before()),
{
    let less = place_before();
    assert forall|a: (Seq<char>, Bucket), b: (Seq<char>, Bucket)| #[trigger]
        less(a, b) implies !less(b, a) && a != b by {
        crate::text::law_text_order(a.0, b.0);
    }
    assert forall|a: (Seq<char>, Bucket), b: (Seq<char>, Bucket)| #[trigger]
        less(a, b) || less(b, a) || a == b by {
        crate::text::law_text_order(a.0, b.0);
    }
    assert forall|a: (Seq<char>, Bucket), b: (Seq<char>, Bucket), c: (Seq<char>, Bucket)| #[trigger]
        less(a, b) && #[trigger] less(b, c) implies less(a, c) by {
        if crate::text::precedes(a.0, b.0) && crate::text::precedes(b.0, c.0) {
            crate::text::law_text_order_chains(a.0, b.0, c.0);
        }
    }
}

/// The place of a row by itself.
pub open spec fn own_place(r: RowText) -> (Seq<char>, Bucket) {
    (r.domain, bucket_of(r.threads))
}

/// The places that have an abort tally among the first `n` rows.
pub open spec fn tally_places(rows: Seq<RowText>, n: int) -> Seq<(Seq<char>, Bucket)>
    decreases n,
{
    if n <= 0 {
        seq![]
    } else if tallies(rows[n - 1]) {
        placed(tally_places(rows, n - 1), own_place(rows[n - 1]), place_before())
    } else {
        tally_places(rows, n - 1)
    }
}

/// The rows among the first `n` that tally aborts at a place.
pub open spec fn tally_rows(rows: Seq<RowText>, place: (Seq<char>, Bucket), n: int) -> Seq<usize>
    decreases n,
{
    if n <= 0 {
        seq![]
    } else if tallies(rows[n - 1]) && own_place(rows[n - 1]) == place {
        tally_rows(rows, place, n - 1).push((n - 1) as usize)
    } else {
        tally_rows(rows, place, n - 1)
    }
}

/// One line of the report.
#[derive(Debug)]
pub struct Cell {
    pub domain: Vec<char>,
    pub bucket: Bucket,
    pub arm: Vec<char>,
    pub samples: Vec<Sample>,
}

impl Cell {
    pub open spec fn text(self) -> CellText {
        CellText { domain: self.domain@, bucket: self.bucket, arm: self.arm@ }
    }
}

/// One line of the abort rates.
#[derive(Debug)]
pub struct AbortCell {
    pub domain: Vec<char>,
    pub bucket: Bucket,
    pub rows: Vec<usize>,
}

impl AbortCell {
    pub open spec fn place(self) -> (Seq<char>, Bucket) {
        (self.domain@, self.bucket)
    }
}

/// The results, grouped.
#[derive(Debug)]
pub struct Analysis {
    pub cells: Vec<Cell>,
    pub aborts: Vec<AbortCell>,
    /// Blocks that an interrupted run did not finish.
    pub dropped: usize,
}

/// The blocks that the rows belong to, in ascending order.
fn find_keys(rows: &Vec<Row>) -> (keys: Vec<BlockKey>)
    ensures
        keys@ == block_keys(crate::bench::row_texts(rows@), rows@.len() as int),
{
    let ghost texts = crate::bench::row_texts(rows@);
    let mut keys: Vec<BlockKey> = Vec::new();
    let mut i: usize = 0;
    while i < rows.len()
        invariant
            i <= rows@.len(),
            texts == crate::bench::row_texts(rows@),
            keys@ == block_keys(texts, i as int),
        decreases rows@.len() - i,
    {
        let k: BlockKey = (rows[i].file, rows[i].block);
        assert(k == key_of(texts[i as int]));
        let mut p: usize = 0;
        while p < keys.len() && (keys[p].0 < k.0 || (keys[p].0 == k.0 && keys[p].1 < k.1))
            invariant
                p <= keys@.len(),
                forall|j: int| 0 <= j < p ==> key_before()(#[trigger] keys@[j], k),
            decreases keys@.len() - p,
        {
            p = p + 1;
        }
        proof {
            lemma_place(keys@, k, key_before(), p as int);
        }
        if p == keys.len() || keys[p].0 != k.0 || keys[p].1 != k.1 {
            keys.insert(p, k);
        }
        i = i + 1;
    }
    keys
}

/// Whether the row is in block `k` and has `arm`.
fn is_arm_of(row: &Row, k: BlockKey, arm: &[char]) -> (b: bool)
    ensures
        b == (key_of(row@) == k && row@.arm == arm@),
{
    row.file == k.0 && row.block == k.1 && same(row.arm.as_slice(), arm)
}

/// The row that counts for `arm` of block `k`.
fn find_last(rows: &Vec<Row>, k: BlockKey, arm: &[char]) -> (res: Option<usize>)
    ensures
        res == as_index(
            last_row(crate::bench::row_texts(rows@), k, arm@, rows@.len() as int),
        ),
        res matches Some(i) ==> i < rows@.len() && last_row(
            crate::bench::row_texts(rows@),
            k,
            arm@,
            rows@.len() as int,
        ) == Some(i as int),
        res is None ==> last_row(
            crate::bench::row_texts(rows@),
            k,
            arm@,
            rows@.len() as int,
        ) is None,
{
    let ghost texts = crate::bench::row_texts(rows@);
    let mut n: usize = rows.len();
    while n > 0
        invariant
            n <= rows@.len(),
            texts == crate::bench::row_texts(rows@),
            last_row(texts, k, arm@, rows@.len() as int) == last_row(texts, k, arm@, n as int),
        decreases n,
    {
        assert(texts[n - 1] == rows@[n - 1]@);
        if is_arm_of(&rows[n - 1], k, arm) {
            return Some(n - 1);
        }
        n = n - 1;
    }
    None
}

/// The first row of block `k`.
fn find_first(rows: &Vec<Row>, k: BlockKey) -> (res: Option<usize>)
    ensures
        match res {
            Some(i) => i < rows@.len() && first_row(crate::bench::row_texts(rows@), k, 0) == Some(
                i as int,
            ),
            None => first_row(crate::bench::row_texts(rows@), k, 0) is None,
        },
{
    let ghost texts = crate::bench::row_texts(rows@);
    let mut i: usize = 0;
    while i < rows.len()
        invariant
            i <= rows@.len(),
            texts == crate::bench::row_texts(rows@),
            first_row(texts, k, 0) == first_row(texts, k, i as int),
        decreases rows@.len() - i,
    {
        assert(texts[i as int] == rows@[i as int]@);
        if rows[i].file == k.0 && rows[i].block == k.1 {
            return Some(i);
        }
        i = i + 1;
    }
    None
}

/// The rows that count for a block.
fn find_arms(rows: &Vec<Row>, k: BlockKey) -> (arms: Vec<usize>)
    ensures
        arms@.len() == arm_rows(crate::bench::row_texts(rows@), k, rows@.len() as int).len(),
        forall|j: int|
            0 <= j < arms@.len() ==> #[trigger] arms@[j] == arm_rows(
                crate::bench::row_texts(rows@),
                k,
                rows@.len() as int,
            )[j] && arms@[j] < rows@.len(),
{
    let ghost texts = crate::bench::row_texts(rows@);
    let mut arms: Vec<usize> = Vec::new();
    let mut i: usize = 0;
    while i < rows.len()
        invariant
            i <= rows@.len(),
            texts == crate::bench::row_texts(rows@),
            arms@.len() == arm_rows(texts, k, i as int).len(),
            forall|j: int|
                0 <= j < arms@.len() ==> #[trigger] arms@[j] == arm_rows(texts, k, i as int)[j]
                    && arms@[j] < rows@.len(),
        decreases rows@.len() - i,
    {
        assert(texts[i as int] == rows@[i as int]@);
        if rows[i].file == k.0 && rows[i].block == k.1 {
            let last = find_last(rows, k, rows[i].arm.as_slice());
            if let Some(l) = last {
                if l == i {
                    arms.push(i);
                }
            }
        }
        i = i + 1;
    }
    arms
}

/// A block with what the report needs of it.
struct Block {
    key: BlockKey,
    domain: Vec<char>,
    bucket: Bucket,
    arms: Vec<usize>,
}

impl Block {
    spec fn holds(self, rows: Seq<RowText>) -> bool {
        let all = arm_rows(rows, self.key, rows.len() as int);
        &&& (self.domain@, self.bucket) == place_of(rows, self.key)
        &&& self.arms@.len() == all.len()
        &&& forall|j: int|
            0 <= j < self.arms@.len() ==> #[trigger] self.arms@[j] == all[j] && self.arms@[j]
                < rows.len()
    }
}

fn find_block(rows: &Vec<Row>, k: BlockKey) -> (b: Block)
    ensures
        b.key == k,
        b.holds(crate::bench::row_texts(rows@)),
{
    let arms = find_arms(rows, k);
    match find_first(rows, k) {
        Some(i) => {
            assert(crate::bench::row_texts(rows@)[i as int] == rows@[i as int]@);
            Block {
                key: k,
                domain: vstd::slice::slice_to_vec(rows[i].domain.as_slice()),
                bucket: bucket(rows[i].threads),
                arms,
            }
        },
        None => {
            let domain: Vec<char> = Vec::new();
            assert(domain@ =~= Seq::<char>::empty());
            Block { key: k, domain, bucket: Bucket::Many, arms }
        },
    }
}

/// The contents of cells.
spec fn cell_texts(cells: Seq<Cell>) -> Seq<CellText> {
    Seq::new(cells.len(), |c: int| cells[c].text())
}

/// Whether a cell comes before another.
fn cell_less(a: &Cell, domain: &[char], bucket: Bucket, arm: &[char]) -> (b: bool)
    ensures
        b == cell_before()(a.text(), (CellText { domain: domain@, bucket, arm: arm@ })),
{
    if comes_before(a.domain.as_slice(), domain) {
        return true;
    }
    if !same(a.domain.as_slice(), domain) {
        return false;
    }
    if a.bucket.rank() < bucket.rank() {
        return true;
    }
    a.bucket.rank() == bucket.rank() && comes_before(a.arm.as_slice(), arm)
}

/// Add a cell without samples, if it is not there yet.
fn add_cell(cells: &mut Vec<Cell>, domain: &[char], bucket: Bucket, arm: &[char])
    requires
        forall|c: int| 0 <= c < old(cells)@.len() ==> (#[trigger] old(cells)@[c]).samples@.len() == 0,
    ensures
        cell_texts(final(cells)@) == placed(
            cell_texts(old(cells)@),
            (CellText { domain: domain@, bucket, arm: arm@ }),
            cell_before(),
        ),
        forall|c: int|
            0 <= c < final(cells)@.len() ==> (#[trigger] final(cells)@[c]).samples@.len() == 0,
{
    let ghost want = CellText { domain: domain@, bucket, arm: arm@ };
    let ghost before = cells@;
    let mut p: usize = 0;
    while p < cells.len() && cell_less(&cells[p], domain, bucket, arm)
        invariant
            p <= cells@.len(),
            cells@ == before,
            want == (CellText { domain: domain@, bucket, arm: arm@ }),
            forall|j: int| 0 <= j < p ==> cell_before()(#[trigger] cell_texts(before)[j], want),
        decreases cells@.len() - p,
    {
        assert(cell_texts(before)[p as int] == before[p as int].text());
        p = p + 1;
    }
    proof {
        lemma_cell_order();
        if p < cells@.len() {
            assert(cell_texts(before)[p as int] == before[p as int].text());
        }
        lemma_place(cell_texts(before), want, cell_before(), p as int);
    }
    let there: bool = p < cells.len() && same(cells[p].domain.as_slice(), domain)
        && cells[p].bucket.rank() == bucket.rank() && same(cells[p].arm.as_slice(), arm);
    assert(there <==> p < cells@.len() && cell_texts(before)[p as int] == want);
    if !there {
        let cell = Cell {
            domain: vstd::slice::slice_to_vec(domain),
            bucket,
            arm: vstd::slice::slice_to_vec(arm),
            samples: Vec::new(),
        };
        cells.insert(p, cell);
        assert(cell_texts(cells@) =~= cell_texts(before).insert(p as int, want));
    }
}

/// The samples of a cell.
fn find_samples(
    rows: &Vec<Row>,
    blocks: &Vec<Block>,
    domain: &[char],
    bucket: Bucket,
    arm: &[char],
    Ghost(keys): Ghost<Seq<BlockKey>>,
) -> (samples: Vec<Sample>)
    requires
        blocks@.len() == keys.len(),
        forall|b: int|
            0 <= b < blocks@.len() ==> (#[trigger] blocks@[b]).key == keys[b] && blocks@[b].holds(
                crate::bench::row_texts(rows@),
            ),
    ensures
        samples@ == samples_of(
            crate::bench::row_texts(rows@),
            keys,
            keys.len() as int,
            (CellText { domain: domain@, bucket, arm: arm@ }),
        ),
{
    let ghost texts = crate::bench::row_texts(rows@);
    let ghost cell = CellText { domain: domain@, bucket, arm: arm@ };
    let mutex: Vec<char> = vec!['m', 'u', 't', 'e', 'x'];
    proof {
        reveal_strlit("mutex");
        assert(mutex@ =~= Arm::Mutex.label());
    }
    let mut samples: Vec<Sample> = Vec::new();
    let mut b: usize = 0;
    while b < blocks.len()
        invariant
            b <= blocks@.len(),
            blocks@.len() == keys.len(),
            texts == crate::bench::row_texts(rows@),
            cell == (CellText { domain: domain@, bucket, arm: arm@ }),
            mutex@ == Arm::Mutex.label(),
            forall|j: int|
                0 <= j < blocks@.len() ==> (#[trigger] blocks@[j]).key == keys[j]
                    && blocks@[j].holds(texts),
            samples@ == samples_of(texts, keys, b as int, cell),
        decreases blocks@.len() - b,
    {
        let block = &blocks[b];
        assert(blocks@[b as int].holds(texts));
        if block.arms.len() == NARMS && same(block.domain.as_slice(), domain) && block.bucket.rank()
            == bucket.rank() {
            if let Some(row) = find_last(rows, block.key, arm) {
                let baseline = find_last(rows, block.key, mutex.as_slice());
                samples.push(Sample { row, baseline });
            }
        }
        b = b + 1;
    }
    samples
}

/// Whether a place comes before another.
fn place_less(a: &AbortCell, domain: &[char], bucket: Bucket) -> (b: bool)
    ensures
        b == place_before()(a.place(), (domain@, bucket)),
{
    if comes_before(a.domain.as_slice(), domain) {
        return true;
    }
    same(a.domain.as_slice(), domain) && a.bucket.rank() < bucket.rank()
}

/// The places of abort rates.
spec fn places(cells: Seq<AbortCell>) -> Seq<(Seq<char>, Bucket)> {
    Seq::new(cells.len(), |c: int| cells[c].place())
}

/// Add a place without rows, if it is not there yet.
fn add_place(cells: &mut Vec<AbortCell>, domain: &[char], bucket: Bucket)
    requires
        forall|c: int| 0 <= c < old(cells)@.len() ==> (#[trigger] old(cells)@[c]).rows@.len() == 0,
    ensures
        places(final(cells)@) == placed(places(old(cells)@), (domain@, bucket), place_before()),
        forall|c: int|
            0 <= c < final(cells)@.len() ==> (#[trigger] final(cells)@[c]).rows@.len() == 0,
{
    let ghost want = (domain@, bucket);
    let ghost before = cells@;
    let mut p: usize = 0;
    while p < cells.len() && place_less(&cells[p], domain, bucket)
        invariant
            p <= cells@.len(),
            cells@ == before,
            want == (domain@, bucket),
            forall|j: int| 0 <= j < p ==> place_before()(#[trigger] places(before)[j], want),
        decreases cells@.len() - p,
    {
        assert(places(before)[p as int] == before[p as int].place());
        p = p + 1;
    }
    proof {
        lemma_place_order();
        if p < cells@.len() {
            assert(places(before)[p as int] == before[p as int].place());
        }
        lemma_place(places(before), want, place_before(), p as int);
    }
    let there: bool = p < cells.len() && same(cells[p].domain.as_slice(), domain)
        && cells[p].bucket.rank() == bucket.rank();
    assert(there <==> p < cells@.len() && places(before)[p as int] == want);
    if !there {
        let cell = AbortCell {
            domain: vstd::slice::slice_to_vec(domain),
            bucket,
            rows: Vec::new(),
        };
        cells.insert(p, cell);
        assert(places(cells@) =~= places(before).insert(p as int, want));
    }
}

/// Whether a row tallies aborts; `arm` is the arm that does.
fn is_tally(row: &Row, arm: &Vec<char>) -> (b: bool)
    requires
        arm@ == Arm::AsmNopad.label(),
    ensures
        b == tallies(row@),
{
    row.ops > 0 && same(row.arm.as_slice(), arm.as_slice())
}

/// The abort tallies by place.
fn find_tallies(rows: &Vec<Row>) -> (cells: Vec<AbortCell>)
    ensures
        ({
            let texts = crate::bench::row_texts(rows@);
            let want = tally_places(texts, texts.len() as int);
            &&& cells@.len() == want.len()
            &&& forall|c: int|
                0 <= c < cells@.len() ==> (#[trigger] cells@[c]).place() == want[c]
                    && cells@[c].rows@ == tally_rows(texts, want[c], texts.len() as int)
        }),
{
    let ghost texts = crate::bench::row_texts(rows@);
    let arm: Vec<char> = vec![
        'r',
        's',
        'e',
        'q',
        '-',
        'a',
        's',
        'm',
        '-',
        'n',
        'o',
        'p',
        'a',
        'd',
    ];
    proof {
        reveal_strlit("rseq-asm-nopad");
        assert(arm@ =~= Arm::AsmNopad.label());
    }
    let mut cells: Vec<AbortCell> = Vec::new();
    let mut i: usize = 0;
    assert(places(cells@) =~= tally_places(texts, 0));
    while i < rows.len()
        invariant
            i <= rows@.len(),
            texts == crate::bench::row_texts(rows@),
            arm@ == Arm::AsmNopad.label(),
            places(cells@) == tally_places(texts, i as int),
            forall|c: int| 0 <= c < cells@.len() ==> (#[trigger] cells@[c]).rows@.len() == 0,
        decreases rows@.len() - i,
    {
        assert(texts[i as int] == rows@[i as int]@);
        if is_tally(&rows[i], &arm) {
            add_place(&mut cells, rows[i].domain.as_slice(), bucket(rows[i].threads));
        }
        i = i + 1;
    }
    let ghost want = tally_places(texts, texts.len() as int);
    assert(cells@.len() == places(cells@).len());
    let mut out: Vec<AbortCell> = Vec::new();
    let mut c: usize = 0;
    while c < cells.len()
        invariant
            c <= cells@.len(),
            texts == crate::bench::row_texts(rows@),
            arm@ == Arm::AsmNopad.label(),
            places(cells@) == want,
            cells@.len() == want.len(),
            out@.len() == c,
            forall|k: int|
                0 <= k < c ==> (#[trigger] out@[k]).place() == want[k] && out@[k].rows@
                    == tally_rows(texts, want[k], texts.len() as int),
        decreases cells@.len() - c,
    {
        let mut found: Vec<usize> = Vec::new();
        let mut i: usize = 0;
        assert(places(cells@)[c as int] == cells@[c as int].place());
        while i < rows.len()
            invariant
                i <= rows@.len(),
                c < cells@.len(),
                texts == crate::bench::row_texts(rows@),
                arm@ == Arm::AsmNopad.label(),
                want[c as int] == cells@[c as int].place(),
                found@ == tally_rows(texts, want[c as int], i as int),
            decreases rows@.len() - i,
        {
            assert(texts[i as int] == rows@[i as int]@);
            if is_tally(&rows[i], &arm) && same(
                rows[i].domain.as_slice(),
                cells[c].domain.as_slice(),
            ) && bucket(rows[i].threads).rank() == cells[c].bucket.rank() {
                found.push(i);
            }
            i = i + 1;
        }
        out.push(
            AbortCell {
                domain: vstd::slice::slice_to_vec(cells[c].domain.as_slice()),
                bucket: cells[c].bucket,
                rows: found,
            },
        );
        c = c + 1;
    }
    out
}

/// Group the results.
#[must_use]
pub fn analyze(rows: &Vec<Row>) -> (a: Analysis)
    ensures
        ({
            let texts = crate::bench::row_texts(rows@);
            let keys = block_keys(texts, texts.len() as int);
            let cells = cell_keys(texts, keys, keys.len() as int);
            let tallied = tally_places(texts, texts.len() as int);
            &&& a.dropped == incomplete(texts, keys, keys.len() as int)
            &&& a.cells@.len() == cells.len()
            &&& forall|c: int|
                0 <= c < cells.len() ==> (#[trigger] a.cells@[c]).text() == cells[c]
                    && a.cells@[c].samples@ == samples_of(
                    texts,
                    keys,
                    keys.len() as int,
                    cells[c],
                )
            &&& a.aborts@.len() == tallied.len()
            &&& forall|c: int|
                0 <= c < tallied.len() ==> (#[trigger] a.aborts@[c]).place() == tallied[c]
                    && a.aborts@[c].rows@ == tally_rows(texts, tallied[c], texts.len() as int)
        }),
{
    let ghost texts = crate::bench::row_texts(rows@);
    let keys = find_keys(rows);
    let ghost all = keys@;
    let mut blocks: Vec<Block> = Vec::new();
    let mut cells: Vec<Cell> = Vec::new();
    let mut dropped: usize = 0;
    let mut n: usize = 0;
    assert(cell_texts(cells@) =~= cell_keys(texts, all, 0));
    while n < keys.len()
        invariant
            n <= keys@.len(),
            keys@ == all,
            texts == crate::bench::row_texts(rows@),
            blocks@.len() == n,
            forall|b: int|
                0 <= b < blocks@.len() ==> (#[trigger] blocks@[b]).key == all[b]
                    && blocks@[b].holds(texts),
            dropped == incomplete(texts, all, n as int),
            dropped <= n,
            cell_texts(cells@) == cell_keys(texts, all, n as int),
            forall|c: int| 0 <= c < cells@.len() ==> (#[trigger] cells@[c]).samples@.len() == 0,
        decreases keys@.len() - n,
    {
        let block = find_block(rows, keys[n]);
        let ghost before = cell_texts(cells@);
        let ghost k = all[n as int];
        if block.arms.len() == NARMS {
            let mut j: usize = 0;
            while j < NARMS
                invariant
                    j <= NARMS,
                    texts == crate::bench::row_texts(rows@),
                    block.key == k,
                    block.holds(texts),
                    block.arms@.len() == NARMS,
                    cell_texts(cells@) == cells_of_block(texts, k, j as int, before),
                    forall|c: int|
                        0 <= c < cells@.len() ==> (#[trigger] cells@[c]).samples@.len() == 0,
                decreases NARMS - j,
            {
                let i: usize = block.arms[j];
                assert(block.arms@[j as int] == arm_rows(texts, k, texts.len() as int)[j as int]);
                assert(texts[i as int] == rows@[i as int]@);
                add_cell(
                    &mut cells,
                    block.domain.as_slice(),
                    block.bucket,
                    rows[i].arm.as_slice(),
                );
                j = j + 1;
            }
        } else {
            dropped = dropped + 1;
        }
        blocks.push(block);
        n = n + 1;
    }
    let ghost want = cell_texts(cells@);
    let mut out: Vec<Cell> = Vec::new();
    let mut c: usize = 0;
    while c < cells.len()
        invariant
            c <= cells@.len(),
            texts == crate::bench::row_texts(rows@),
            want == cell_texts(cells@),
            blocks@.len() == all.len(),
            forall|b: int|
                0 <= b < blocks@.len() ==> (#[trigger] blocks@[b]).key == all[b]
                    && blocks@[b].holds(texts),
            out@.len() == c,
            forall|k: int|
                0 <= k < c ==> (#[trigger] out@[k]).text() == want[k] && out@[k].samples@
                    == samples_of(texts, all, all.len() as int, want[k]),
        decreases cells@.len() - c,
    {
        assert(want[c as int] == cells@[c as int].text());
        let samples = find_samples(
            rows,
            &blocks,
            cells[c].domain.as_slice(),
            cells[c].bucket,
            cells[c].arm.as_slice(),
            Ghost(all),
        );
        out.push(
            Cell {
                domain: vstd::slice::slice_to_vec(cells[c].domain.as_slice()),
                bucket: cells[c].bucket,
                arm: vstd::slice::slice_to_vec(cells[c].arm.as_slice()),
                samples,
            },
        );
        c = c + 1;
    }
    let aborts = find_tallies(rows);
    Analysis { cells: out, aborts, dropped }
}

/// The row that counts for an arm has that arm, in that block, and none of the
/// later rows has.
pub(crate) proof fn lemma_last_row(rows: Seq<RowText>, k: BlockKey, arm: Seq<char>, n: int)
    requires
        0 <= n <= rows.len(),
    ensures
        match last_row(rows, k, arm, n) {
            Some(i) => 0 <= i < n && key_of(rows[i]) == k && rows[i].arm == arm && forall|j: int|
                i < j < n ==> !(key_of(#[trigger] rows[j]) == k && rows[j].arm == arm),
            None => forall|j: int|
                0 <= j < n ==> !(key_of(#[trigger] rows[j]) == k && rows[j].arm == arm),
        },
    decreases n,
{
    if n > 0 {
        lemma_last_row(rows, k, arm, n - 1);
    }
}

/// A block counts every arm that it has exactly once: with the last row of
/// that arm.
pub proof fn law_block_counts_arms_once(rows: Seq<RowText>, k: BlockKey)
    ensures
        ({
            let arms = arm_rows(rows, k, rows.len() as int);
            &&& forall|a: int, b: int|
                0 <= a < b < arms.len() ==> rows[#[trigger] arms[a]].arm
                    != rows[#[trigger] arms[b]].arm
            &&& forall|i: int|
                0 <= i < rows.len() && key_of(#[trigger] rows[i]) == k ==> exists|a: int|
                    0 <= a < arms.len() && rows[#[trigger] arms[a]].arm == rows[i].arm && arms[a]
                        >= i
        }),
{
    let len = rows.len() as int;
    let arms = arm_rows(rows, k, len);
    lemma_arm_rows(rows, k, len);
    assert forall|a: int, b: int| 0 <= a < b < arms.len() implies rows[#[trigger] arms[a]].arm
        != rows[#[trigger] arms[b]].arm by {
        assert(counts(rows, arms[a]));
        assert(counts(rows, arms[b]));
    }
    assert forall|i: int| 0 <= i < rows.len() && key_of(#[trigger] rows[i]) == k implies exists|
        a: int,
    |
        0 <= a < arms.len() && rows[#[trigger] arms[a]].arm == rows[i].arm && arms[a] >= i by {
        lemma_last_row(rows, k, rows[i].arm, len);
        let l = last_row(rows, k, rows[i].arm, len).unwrap();
        assert(counts(rows, l));
        assert(arms.contains(l));
        let a = choose|a: int| 0 <= a < arms.len() && arms[a] == l;
        assert(rows[arms[a]].arm == rows[i].arm);
    }
}

pub(crate) proof fn lemma_arm_rows(rows: Seq<RowText>, k: BlockKey, n: int)
    requires
        0 <= n <= rows.len(),
    ensures
        ({
            let arms = arm_rows(rows, k, n);
            &&& forall|a: int|
                0 <= a < arms.len() ==> 0 <= #[trigger] arms[a] < n && key_of(rows[arms[a]]) == k
                    && counts(rows, arms[a])
            &&& forall|a: int, b: int|
                0 <= a < b < arms.len() ==> #[trigger] arms[a] < #[trigger] arms[b]
            &&& forall|i: int|
                0 <= i < n && key_of(#[trigger] rows[i]) == k && counts(rows, i) ==> arms.contains(
                    i,
                )
        }),
    decreases n,
{
    if n > 0 {
        lemma_arm_rows(rows, k, n - 1);
        let before = arm_rows(rows, k, n - 1);
        let arms = arm_rows(rows, k, n);
        assert forall|i: int|
            0 <= i < n && key_of(#[trigger] rows[i]) == k && counts(
                rows,
                i,
            ) implies arms.contains(i) by {
            if i < n - 1 {
                assert(before.contains(i));
                let a = choose|a: int| 0 <= a < before.len() && before[a] == i;
                assert(arms[a] == i);
            } else {
                assert(arms[arms.len() - 1] == i);
            }
        }
    }
}

/// A sample is a row of a complete block, of the arm and at the place of its
/// cell, and is compared with the mutex of the same block.
pub open spec fn well_paired(rows: Seq<RowText>, cell: CellText, s: Sample) -> bool {
    let row = rows[s.row as int];
    &&& s.row < rows.len()
    &&& row.arm == cell.arm
    &&& complete(rows, key_of(row))
    &&& place_of(rows, key_of(row)) == (cell.domain, cell.bucket)
    &&& s.baseline matches Some(b) ==> {
        &&& b < rows.len()
        &&& key_of(rows[b as int]) == key_of(row)
        &&& rows[b as int].arm == Arm::Mutex.label()
    }
}

/// Throughputs are compared within blocks only, and only within complete ones.
pub proof fn law_samples_are_paired(
    rows: Seq<RowText>,
    keys: Seq<BlockKey>,
    n: int,
    cell: CellText,
)
    requires
        0 <= n <= keys.len(),
        rows.len() <= usize::MAX,
    ensures
        forall|j: int|
            0 <= j < samples_of(rows, keys, n, cell).len() ==> well_paired(
                rows,
                cell,
                #[trigger] samples_of(rows, keys, n, cell)[j],
            ),
    decreases n,
{
    if n > 0 {
        law_samples_are_paired(rows, keys, n - 1, cell);
        let before = samples_of(rows, keys, n - 1, cell);
        let now = samples_of(rows, keys, n, cell);
        lemma_last_row(rows, keys[n - 1], cell.arm, rows.len() as int);
        lemma_last_row(rows, keys[n - 1], Arm::Mutex.label(), rows.len() as int);
        assert forall|j: int| 0 <= j < now.len() implies well_paired(
            rows,
            cell,
            #[trigger] now[j],
        ) by {
            if j < before.len() {
                assert(now[j] == before[j]);
            }
        }
    }
}

/// Two ascending lists with the same entries are the same.
pub(crate) proof fn lemma_same_ascending<K>(a: Seq<K>, b: Seq<K>, less: spec_fn(K, K) -> bool)
    requires
        total_order(less),
        ascending(a, less),
        ascending(b, less),
        forall|x: K| #[trigger] a.contains(x) <==> #[trigger] b.contains(x),
    ensures
        a == b,
    decreases a.len(),
{
    if a.len() == 0 {
        if b.len() > 0 {
            assert(b.contains(b[0]));
            assert(a.contains(b[0]));
        }
        assert(a =~= b);
    } else {
        assert(a.contains(a[0]));
        assert(b.contains(a[0]));
        assert(b.contains(b[0]));
        assert(a.contains(b[0]));
        let i = choose|i: int| 0 <= i < b.len() && b[i] == a[0];
        let j = choose|j: int| 0 <= j < a.len() && a[j] == b[0];
        if i > 0 {
            assert(less(b[0], b[i]));
            if j > 0 {
                assert(less(a[0], a[j]));
            }
        }
        assert(a[0] == b[0]);
        let c = a.drop_first();
        let d = b.drop_first();
        assert(ascending(c, less)) by {
            assert forall|x: int, y: int| 0 <= x < y < c.len() implies less(
                #[trigger] c[x],
                #[trigger] c[y],
            ) by {
                assert(less(a[x + 1], a[y + 1]));
            }
        }
        assert(ascending(d, less)) by {
            assert forall|x: int, y: int| 0 <= x < y < d.len() implies less(
                #[trigger] d[x],
                #[trigger] d[y],
            ) by {
                assert(less(b[x + 1], b[y + 1]));
            }
        }
        assert forall|x: K| #[trigger] c.contains(x) <==> #[trigger] d.contains(x) by {
            lemma_rest_contains(a, less, x);
            lemma_rest_contains(b, less, x);
        }
        lemma_same_ascending(c, d, less);
        assert(a =~= seq![a[0]] + c);
        assert(b =~= seq![b[0]] + d);
    }
}

/// Behind the first entry of an ascending list are the others.
proof fn lemma_rest_contains<K>(a: Seq<K>, less: spec_fn(K, K) -> bool, x: K)
    requires
        total_order(less),
        ascending(a, less),
        a.len() > 0,
    ensures
        a.drop_first().contains(x) <==> a.contains(x) && x != a[0],
{
    let c = a.drop_first();
    if c.contains(x) {
        let i = choose|i: int| 0 <= i < c.len() && c[i] == x;
        assert(a[i + 1] == x);
        assert(less(a[0], a[i + 1]));
    }
    if a.contains(x) && x != a[0] {
        let i = choose|i: int| 0 <= i < a.len() && a[i] == x;
        assert(c[i - 1] == x);
    }
}

/// Each arm of a block has one row, and the rows of a block share the
/// parameter point, as the block design makes sure.
pub open spec fn by_design(rows: Seq<RowText>) -> bool {
    &&& forall|i: int, j: int|
        #![trigger rows[i], rows[j]]
        0 <= i < j < rows.len() && key_of(rows[i]) == key_of(rows[j]) ==> rows[i].arm
            != rows[j].arm
    &&& forall|i: int, j: int|
        #![trigger rows[i], rows[j]]
        0 <= i < rows.len() && 0 <= j < rows.len() && key_of(rows[i]) == key_of(rows[j])
            ==> own_place(rows[i]) == own_place(rows[j])
}

/// The same rows, in whatever order.
pub open spec fn same_rows(a: Seq<RowText>, b: Seq<RowText>) -> bool {
    forall|r: RowText| #[trigger] a.contains(r) <==> #[trigger] b.contains(r)
}

/// The place of a block is that of each of its rows.
proof fn lemma_place_shared(rows: Seq<RowText>, i: int)
    requires
        by_design(rows),
        0 <= i < rows.len(),
    ensures
        place_of(rows, key_of(rows[i])) == own_place(rows[i]),
{
    lemma_first_row(rows, key_of(rows[i]), 0, i);
}

pub(crate) proof fn lemma_first_row(rows: Seq<RowText>, k: BlockKey, from: int, i: int)
    requires
        0 <= from <= i < rows.len(),
        key_of(rows[i]) == k,
    ensures
        first_row(rows, k, from) is Some,
        from <= first_row(rows, k, from).unwrap() <= i,
        key_of(rows[first_row(rows, k, from).unwrap()]) == k,
    decreases rows.len() - from,
{
    if key_of(rows[from]) != k {
        lemma_first_row(rows, k, from + 1, i);
    }
}

/// The text of the row that counts for an arm, if there is one.
pub open spec fn arm_text(rows: Seq<RowText>, k: BlockKey, arm: Seq<char>) -> Option<RowText> {
    match last_row(rows, k, arm, rows.len() as int) {
        Some(i) => Some(rows[i]),
        None => None,
    }
}

proof fn lemma_arm_text(a: Seq<RowText>, b: Seq<RowText>, k: BlockKey, arm: Seq<char>)
    requires
        by_design(a),
        by_design(b),
        same_rows(a, b),
    ensures
        arm_text(a, k, arm) == arm_text(b, k, arm),
{
    lemma_last_row(a, k, arm, a.len() as int);
    lemma_last_row(b, k, arm, b.len() as int);
    if arm_text(a, k, arm) is Some {
        let i = last_row(a, k, arm, a.len() as int).unwrap();
        assert(a.contains(a[i]));
        assert(b.contains(a[i]));
        let j = choose|j: int| 0 <= j < b.len() && b[j] == a[i];
        assert(key_of(b[j]) == k && b[j].arm == arm);
        let l = last_row(b, k, arm, b.len() as int).unwrap();
        if l != j {
            assert(b[l].arm == b[j].arm);
        }
    } else if arm_text(b, k, arm) is Some {
        let i = last_row(b, k, arm, b.len() as int).unwrap();
        assert(b.contains(b[i]));
        assert(a.contains(b[i]));
        let j = choose|j: int| 0 <= j < a.len() && a[j] == b[i];
        assert(key_of(a[j]) == k && a[j].arm == arm);
    }
}

/// The texts of the rows that count for a block.
spec fn block_texts(rows: Seq<RowText>, k: BlockKey) -> Set<RowText> {
    Set::new(|r: RowText| rows.contains(r) && key_of(r) == k)
}

/// A block has as many counting rows as it has different ones.
proof fn lemma_arm_count(rows: Seq<RowText>, k: BlockKey)
    requires
        by_design(rows),
    ensures
        block_texts(rows, k).finite(),
        arm_rows(rows, k, rows.len() as int).len() == block_texts(rows, k).len(),
{
    let arms = arm_rows(rows, k, rows.len() as int);
    lemma_arm_rows(rows, k, rows.len() as int);
    let texts = Seq::new(arms.len(), |a: int| rows[arms[a]]);
    assert(texts.no_duplicates()) by {
        assert forall|x: int, y: int| 0 <= x < y < texts.len() implies texts[x] != texts[y] by {
            assert(arms[x] < arms[y]);
            assert(rows[arms[x]].arm != rows[arms[y]].arm);
        }
    }
    texts.unique_seq_to_set();
    assert(texts.to_set() =~= block_texts(rows, k)) by {
        assert forall|r: RowText| texts.to_set().contains(r) <==> block_texts(
            rows,
            k,
        ).contains(r) by {
            if texts.to_set().contains(r) {
                let a = choose|a: int| 0 <= a < texts.len() && texts[a] == r;
                assert(rows.contains(rows[arms[a]]));
            }
            if block_texts(rows, k).contains(r) {
                let i = choose|i: int| 0 <= i < rows.len() && rows[i] == r;
                lemma_last_row(rows, k, r.arm, rows.len() as int);
                let l = last_row(rows, k, r.arm, rows.len() as int).unwrap();
                if l != i {
                    assert(rows[l].arm == rows[i].arm);
                }
                assert(counts(rows, i));
                assert(arms.contains(i));
                let a = choose|a: int| 0 <= a < arms.len() && arms[a] == i;
                assert(texts[a] == r);
            }
        }
    }
}

proof fn lemma_complete_shared(a: Seq<RowText>, b: Seq<RowText>, k: BlockKey)
    requires
        by_design(a),
        by_design(b),
        same_rows(a, b),
    ensures
        complete(a, k) == complete(b, k),
{
    lemma_arm_count(a, k);
    lemma_arm_count(b, k);
    assert(block_texts(a, k) =~= block_texts(b, k));
}

/// Both have the block, at the same place.
proof fn lemma_same_place(a: Seq<RowText>, b: Seq<RowText>, i: int)
    requires
        by_design(a),
        by_design(b),
        same_rows(a, b),
        0 <= i < a.len(),
    ensures
        place_of(a, key_of(a[i])) == place_of(b, key_of(a[i])),
{
    assert(a.contains(a[i]));
    assert(b.contains(a[i]));
    let j = choose|j: int| 0 <= j < b.len() && b[j] == a[i];
    lemma_place_shared(a, i);
    lemma_place_shared(b, j);
}

/// The blocks are the same ones.
proof fn lemma_same_blocks(a: Seq<RowText>, b: Seq<RowText>)
    requires
        same_rows(a, b),
    ensures
        block_keys(a, a.len() as int) == block_keys(b, b.len() as int),
{
    law_block_keys(a, a.len() as int);
    law_block_keys(b, b.len() as int);
    let ka = block_keys(a, a.len() as int);
    let kb = block_keys(b, b.len() as int);
    assert forall|k: BlockKey| #[trigger] ka.contains(k) <==> #[trigger] kb.contains(k) by {
        if ka.contains(k) {
            let i = choose|i: int| 0 <= i < a.len() && key_of(#[trigger] a[i]) == k;
            assert(a.contains(a[i]));
            assert(b.contains(a[i]));
            let j = choose|j: int| 0 <= j < b.len() && b[j] == a[i];
            assert(key_of(b[j]) == k);
        }
        if kb.contains(k) {
            let i = choose|i: int| 0 <= i < b.len() && key_of(#[trigger] b[i]) == k;
            assert(b.contains(b[i]));
            assert(a.contains(b[i]));
            let j = choose|j: int| 0 <= j < a.len() && a[j] == b[i];
            assert(key_of(a[j]) == k);
        }
    }
    lemma_same_ascending(ka, kb, key_before());
}

/// A sample by what its rows say.
pub open spec fn sample_text(rows: Seq<RowText>, s: Sample) -> (RowText, Option<RowText>) {
    (
        rows[s.row as int],
        match s.baseline {
            Some(b) => Some(rows[b as int]),
            None => None,
        },
    )
}

/// The samples of a cell by what their rows say.
pub open spec fn sample_texts(
    rows: Seq<RowText>,
    keys: Seq<BlockKey>,
    n: int,
    cell: CellText,
) -> Seq<(RowText, Option<RowText>)> {
    let samples = samples_of(rows, keys, n, cell);
    Seq::new(samples.len(), |j: int| sample_text(rows, samples[j]))
}

/// The samples do not depend on the order of the rows: every cell has the same
/// measurements, compared with the same baselines, whatever order the rows
/// were read in.
pub proof fn law_analysis_ignores_row_order(
    a: Seq<RowText>,
    b: Seq<RowText>,
    n: int,
    cell: CellText,
)
    requires
        by_design(a),
        by_design(b),
        same_rows(a, b),
        a.len() <= usize::MAX,
        b.len() <= usize::MAX,
        0 <= n <= block_keys(a, a.len() as int).len(),
    ensures
        block_keys(a, a.len() as int) == block_keys(b, b.len() as int),
        sample_texts(a, block_keys(a, a.len() as int), n, cell) == sample_texts(
            b,
            block_keys(b, b.len() as int),
            n,
            cell,
        ),
        incomplete(a, block_keys(a, a.len() as int), n) == incomplete(
            b,
            block_keys(b, b.len() as int),
            n,
        ),
    decreases n,
{
    lemma_same_blocks(a, b);
    let keys = block_keys(a, a.len() as int);
    if n > 0 {
        law_analysis_ignores_row_order(a, b, n - 1, cell);
        let k = keys[n - 1];
        law_block_keys(a, a.len() as int);
        assert(keys.contains(k));
        let i = choose|i: int| 0 <= i < a.len() && key_of(#[trigger] a[i]) == k;
        lemma_same_place(a, b, i);
        lemma_complete_shared(a, b, k);
        lemma_arm_text(a, b, k, cell.arm);
        lemma_arm_text(a, b, k, Arm::Mutex.label());
        lemma_last_row(a, k, cell.arm, a.len() as int);
        lemma_last_row(b, k, cell.arm, b.len() as int);
        lemma_last_row(a, k, Arm::Mutex.label(), a.len() as int);
        lemma_last_row(b, k, Arm::Mutex.label(), b.len() as int);
        let before_a = samples_of(a, keys, n - 1, cell);
        let before_b = samples_of(b, keys, n - 1, cell);
        let now_a = samples_of(a, keys, n, cell);
        let now_b = samples_of(b, keys, n, cell);
        assert(sample_texts(a, keys, n - 1, cell).len() == sample_texts(
            b,
            keys,
            n - 1,
            cell,
        ).len());
        assert forall|j: int| 0 <= j < now_a.len() implies #[trigger] sample_texts(
            a,
            keys,
            n,
            cell,
        )[j] == sample_texts(b, keys, n, cell)[j] by {
            if j < before_a.len() {
                assert(now_a[j] == before_a[j]);
                assert(now_b[j] == before_b[j]);
                assert(sample_texts(a, keys, n - 1, cell)[j] == sample_texts(
                    b,
                    keys,
                    n - 1,
                    cell,
                )[j]);
            }
        }
        assert(sample_texts(a, keys, n, cell) =~= sample_texts(b, keys, n, cell));
    } else {
        assert(sample_texts(a, keys, n, cell) =~= sample_texts(b, keys, n, cell));
    }
}

/// The cells of a block: those there were, and one for each of its arms.
proof fn lemma_cells_of_block(rows: Seq<RowText>, k: BlockKey, n: int, cells: Seq<CellText>)
    requires
        0 <= n <= arm_rows(rows, k, rows.len() as int).len(),
        ascending(cells, cell_before()),
    ensures
        ascending(cells_of_block(rows, k, n, cells), cell_before()),
        forall|x: CellText| #[trigger]
            cells_of_block(rows, k, n, cells).contains(x) <==> cells.contains(x) || (
            place_of(rows, k) == (x.domain, x.bucket) && exists|a: int|
                0 <= a < n && rows[#[trigger] arm_rows(rows, k, rows.len() as int)[a]].arm
                    == x.arm),
    decreases n,
{
    if n > 0 {
        lemma_cells_of_block(rows, k, n - 1, cells);
        lemma_cell_order();
        let arms = arm_rows(rows, k, rows.len() as int);
        let place = place_of(rows, k);
        let cell = CellText { domain: place.0, bucket: place.1, arm: rows[arms[n - 1]].arm };
        let before = cells_of_block(rows, k, n - 1, cells);
        let now = cells_of_block(rows, k, n, cells);
        law_placing(before, cell, cell_before());
        assert forall|x: CellText| #[trigger] now.contains(x) <==> cells.contains(x) || (place == (
            x.domain,
            x.bucket,
        ) && exists|a: int| 0 <= a < n && rows[#[trigger] arms[a]].arm == x.arm) by {
            if x == cell {
                assert(rows[arms[n - 1]].arm == x.arm);
            }
            if before.contains(x) && !cells.contains(x) {
                let a = choose|a: int| 0 <= a < n - 1 && rows[#[trigger] arms[a]].arm == x.arm;
                assert(rows[arms[a]].arm == x.arm);
            }
            if place == (x.domain, x.bucket) && exists|a: int|
                0 <= a < n && rows[#[trigger] arms[a]].arm == x.arm {
                let a = choose|a: int| 0 <= a < n && rows[#[trigger] arms[a]].arm == x.arm;
                if a < n - 1 {
                    assert(rows[arms[a]].arm == x.arm);
                    assert(before.contains(x));
                } else {
                    assert(x == cell);
                }
            }
        }
    }
}

/// The report lists exactly the cells that have samples, in ascending order.
pub proof fn law_cells_are_those_with_samples(
    rows: Seq<RowText>,
    keys: Seq<BlockKey>,
    n: int,
)
    requires
        0 <= n <= keys.len(),
    ensures
        ascending(cell_keys(rows, keys, n), cell_before()),
        forall|x: CellText| #[trigger]
            cell_keys(rows, keys, n).contains(x) <==> samples_of(rows, keys, n, x).len() > 0,
    decreases n,
{
    if n > 0 {
        law_cells_are_those_with_samples(rows, keys, n - 1);
        let k = keys[n - 1];
        let before = cell_keys(rows, keys, n - 1);
        let arms = arm_rows(rows, k, rows.len() as int);
        if complete(rows, k) {
            lemma_cells_of_block(rows, k, NARMS as int, before);
            lemma_arm_rows(rows, k, rows.len() as int);
            assert forall|x: CellText| #[trigger]
                cell_keys(rows, keys, n).contains(x) <==> samples_of(rows, keys, n, x).len() > 0 by {
                assert(before.contains(x) <==> samples_of(rows, keys, n - 1, x).len() > 0);
                lemma_last_row(rows, k, x.arm, rows.len() as int);
                let l = last_row(rows, k, x.arm, rows.len() as int);
                if l is Some {
                    assert(counts(rows, l.unwrap()));
                    assert(arms.contains(l.unwrap()));
                    let a = choose|a: int| 0 <= a < arms.len() && arms[a] == l.unwrap();
                    assert(rows[arms[a]].arm == x.arm);
                }
                if exists|a: int| 0 <= a < NARMS && rows[#[trigger] arms[a]].arm == x.arm {
                    let a = choose|a: int| 0 <= a < NARMS && rows[#[trigger] arms[a]].arm == x.arm;
                    assert(key_of(rows[arms[a]]) == k);
                    assert(l is Some);
                }
            }
        }
    }
}

} // verus!
