//! Per-CPU data as the live runtime lays it out, at rest: the rseq area, the
//! per-CPU counter and the per-CPU freelist when no sequence is in flight.

use vstd::prelude::*;

verus! {

/// Upper bound on CPU ids we size per-CPU arrays for. 32 KiB per array:
/// cheap, and safely above any machine this will meet.
pub const MAX_CPUS: usize = 4096;

/// "No node" sentinel for the freelist.
pub const NIL: u64 = 0xffff_ffff_ffff_ffff;

/// The kernel's `struct rseq` (uapi/linux/rseq.h). Only `cpu_id` and
/// `rseq_cs` are touched here; both exist in every registered version.
#[derive(Clone, Copy, Debug)]
pub struct RseqArea {
    pub cpu_id_start: u32,
    pub cpu_id: u32,
    pub rseq_cs: u64,
    pub flags: u32,
    pub node_id: u32,
    pub mm_cid: u32,
}

impl RseqArea {
    /// Whether the kernel keeps the area up to date: as a signed number, the
    /// CPU id of an area that is not registered is negative.
    #[must_use]
    pub fn is_registered(&self) -> (b: bool)
        ensures
            b == (self.cpu_id < 0x8000_0000),
    {
        self.cpu_id < 0x8000_0000
    }
}

/// Address of the thread's rseq area: `offset` from the thread pointer, if
/// glibc registered an area at all (`size` is 0 otherwise).
#[must_use]
pub fn area_address(size: u32, thread_pointer: usize, offset: isize) -> (addr: Option<usize>)
    requires
        thread_pointer <= isize::MAX,
        0 <= thread_pointer + offset <= isize::MAX,
    ensures
        addr == if size == 0 {
            None
        } else {
            Some((thread_pointer + offset) as usize)
        },
{
    if size == 0 {
        None
    } else {
        Some((thread_pointer as isize + offset) as usize)
    }
}

/// The sum of the first `n` words.
pub open spec fn sum_of(words: Seq<u64>, n: int) -> int
    decreases n,
{
    if n <= 0 {
        0
    } else {
        sum_of(words, n - 1) + words[n - 1]
    }
}

proof fn lemma_sum_grows(words: Seq<u64>, low: int, high: int)
    requires
        0 <= low <= high,
    ensures
        0 <= sum_of(words, low) <= sum_of(words, high),
    decreases high,
{
    if low < high {
        lemma_sum_grows(words, low, high - 1);
    } else if low > 0 {
        lemma_sum_grows(words, low - 1, low - 1);
    }
}

/// The sum of one word is that word, and the sum of all is that of any two
/// parts: no word is left out and none counts twice.
pub proof fn law_sums_add_up(a: Seq<u64>, b: Seq<u64>, w: u64)
    ensures
        sum_of(seq![w], 1) == w,
        sum_of(a + b, (a + b).len() as int) == sum_of(a, a.len() as int) + sum_of(
            b,
            b.len() as int,
        ),
{
    reveal_with_fuel(sum_of, 2);
    lemma_sum_of_parts(a, b, b.len() as int);
}

proof fn lemma_sum_of_parts(a: Seq<u64>, b: Seq<u64>, n: int)
    requires
        0 <= n <= b.len(),
    ensures
        sum_of(a + b, a.len() + n) == sum_of(a, a.len() as int) + sum_of(b, n),
    decreases n,
{
    if n > 0 {
        lemma_sum_of_parts(a, b, n - 1);
    } else {
        lemma_sum_of_front(a, b, a.len() as int);
    }
}

proof fn lemma_sum_of_front(a: Seq<u64>, b: Seq<u64>, n: int)
    requires
        0 <= n <= a.len(),
    ensures
        sum_of(a + b, n) == sum_of(a, n),
    decreases n,
{
    if n > 0 {
        lemma_sum_of_front(a, b, n - 1);
    }
}

/// A per-CPU array of u64 counters.
#[derive(Debug)]
pub struct PerCpuCounter {
    slots: Vec<u64>,
}

impl View for PerCpuCounter {
    type V = Seq<u64>;

    closed spec fn view(&self) -> Seq<u64> {
        self.slots@
    }
}

impl PerCpuCounter {
    /// One slot per CPU.
    pub open spec fn wf(self) -> bool {
        self@.len() == MAX_CPUS
    }

    /// Total across CPUs.
    pub open spec fn total(self) -> int {
        sum_of(self@, self@.len() as int)
    }

    #[must_use]
    pub fn new() -> (c: Self)
        ensures
            c.wf(),
            c@ == Seq::new(MAX_CPUS as nat, |i: int| 0u64),
    {
        let slots: Vec<u64> = vec![0; MAX_CPUS];
        assert(slots@ =~= Seq::new(MAX_CPUS as nat, |i: int| 0u64));
        PerCpuCounter { slots }
    }

    /// Counters with the given values.
    #[must_use]
    pub fn from_slots(slots: Vec<u64>) -> (c: Self)
        ensures
            c@ == slots@,
    {
        PerCpuCounter { slots }
    }

    /// The values, one per CPU.
    #[must_use]
    pub fn into_slots(self) -> (slots: Vec<u64>)
        ensures
            slots@ == self@,
    {
        self.slots
    }

    /// Total across CPUs; None if it does not fit a word.
    #[must_use]
    pub fn checked_sum(&self) -> (sum: Option<u64>)
        ensures
            match sum {
                Some(s) => s == self.total(),
                None => self.total() > u64::MAX,
            },
    {
        let mut sum: u64 = 0;
        let mut i: usize = 0;
        while i < self.slots.len()
            invariant
                i <= self.slots@.len(),
                sum == sum_of(self.slots@, i as int),
            decreases self.slots@.len() - i,
        {
            proof {
                lemma_sum_grows(self.slots@, i + 1, self.slots@.len() as int);
            }
            match sum.checked_add(self.slots[i]) {
                Some(s) => {
                    sum = s;
                },
                None => return None,
            }
            i = i + 1;
        }
        Some(sum)
    }

    /// Total across CPUs. `&mut self` guarantees no concurrent increments.
    pub fn sum(&mut self) -> (s: u64)
        requires
            old(self).total() <= u64::MAX,
        ensures
            s == old(self).total(),
            final(self)@ == old(self)@,
    {
        match self.checked_sum() {
            Some(s) => s,
            None => 0,
        }
    }
}

impl Default for PerCpuCounter {
    fn default() -> (c: Self)
        ensures
            c.wf(),
            c@ == Seq::new(MAX_CPUS as nat, |i: int| 0u64),
    {
        Self::new()
    }
}

/// The end of a list is no node of any pool, and is the same for the programs
/// as for the walks.
pub proof fn law_nil_is_no_node(nnodes: usize)
    ensures
        NIL >= nnodes,
        NIL == crate::progs::NIL,
        NIL == u64::MAX,
{
}

/// The list that starts at `head`, where `nexts[i]` is the next pointer of
/// node `i`. None if it leaves the pool or has more than `limit` nodes.
pub open spec fn chain(nexts: Seq<u64>, head: u64, limit: nat) -> Option<Seq<u64>>
    decreases limit,
{
    if head == NIL {
        Some(seq![])
    } else if limit == 0 || head as usize >= nexts.len() {
        None
    } else {
        match chain(nexts, nexts[head as usize as int], (limit - 1) as nat) {
            Some(rest) => Some(seq![head] + rest),
            None => None,
        }
    }
}

/// The list at `head` in a pool: one with more nodes than the pool has, and
/// one to spare, has a cycle.
pub open spec fn list_at(nexts: Seq<u64>, head: u64) -> Option<Seq<u64>> {
    chain(nexts, head, nexts.len() + 1)
}

/// What follows node `k` of a list is the list at that node.
pub(crate) proof fn lemma_suffix(nexts: Seq<u64>, head: u64, limit: nat, k: int)
    requires
        chain(nexts, head, limit) is Some,
        0 <= k < chain(nexts, head, limit).unwrap().len(),
    ensures
        k < limit,
        ({
            let list = chain(nexts, head, limit).unwrap();
            chain(nexts, list[k], (limit - k) as nat) == Some(list.skip(k))
        }),
    decreases limit,
{
    let list = chain(nexts, head, limit).unwrap();
    if k == 0 {
        assert(list.skip(0) =~= list);
    } else {
        let next = nexts[head as usize as int];
        let rest = chain(nexts, next, (limit - 1) as nat).unwrap();
        lemma_suffix(nexts, next, (limit - 1) as nat, k - 1);
        assert(list[k] == rest[k - 1]);
        assert(list.skip(k) =~= rest.skip(k - 1));
    }
}

/// A higher limit makes no difference to a list that ends.
pub proof fn lemma_same_list(nexts: Seq<u64>, head: u64, low: nat, high: nat)
    requires
        low <= high,
        chain(nexts, head, low) is Some,
    ensures
        chain(nexts, head, high) == chain(nexts, head, low),
    decreases low,
{
    if head != NIL {
        lemma_same_list(
            nexts,
            nexts[head as usize as int],
            (low - 1) as nat,
            (high - 1) as nat,
        );
    }
}

/// No node is on a list twice.
pub proof fn law_list_has_no_repeats(nexts: Seq<u64>, head: u64)
    requires
        list_at(nexts, head) is Some,
    ensures
        forall|i: int, j: int|
            #![trigger list_at(nexts, head).unwrap()[i], list_at(nexts, head).unwrap()[j]]
            0 <= i < j < list_at(nexts, head).unwrap().len() ==> list_at(
                nexts,
                head,
            ).unwrap()[i] as usize != list_at(nexts, head).unwrap()[j] as usize,
{
    let limit = nexts.len() + 1;
    let list = list_at(nexts, head).unwrap();
    assert forall|i: int, j: int|
        #![trigger list[i], list[j]]
        0 <= i < j < list.len() implies list[i] as usize != list[j] as usize by {
        lemma_suffix(nexts, head, limit, i);
        lemma_suffix(nexts, head, limit, j);
        let a = list.skip(i);
        let b = list.skip(j);
        if list[i] as usize == list[j] as usize {
            let next = nexts[list[i] as usize as int];
            let low = chain(nexts, next, (limit - j - 1) as nat);
            lemma_same_list(nexts, next, (limit - j - 1) as nat, (limit - i - 1) as nat);
            assert(a.len() == b.len());
        }
    }
}

/// The nodes of a list are in the pool.
pub(crate) proof fn lemma_in_pool(nexts: Seq<u64>, head: u64, limit: nat, k: int)
    requires
        chain(nexts, head, limit) is Some,
        0 <= k < chain(nexts, head, limit).unwrap().len(),
    ensures
        (chain(nexts, head, limit).unwrap()[k] as usize) < nexts.len(),
        chain(nexts, head, limit).unwrap()[k] != NIL,
{
    lemma_suffix(nexts, head, limit, k);
    let list = chain(nexts, head, limit).unwrap();
    assert(list.skip(k).len() > 0);
}

/// A list has no more nodes than the pool.
pub proof fn lemma_list_len(nexts: Seq<u64>, head: u64)
    requires
        list_at(nexts, head) is Some,
    ensures
        list_at(nexts, head).unwrap().len() <= nexts.len(),
{
    lemma_no_list_is_longer(nexts, head, nexts.len() + 1);
}

/// A limit that the list keeps to is as good as any.
pub proof fn lemma_enough(nexts: Seq<u64>, head: u64, limit: nat, low: nat)
    requires
        chain(nexts, head, limit) is Some,
        chain(nexts, head, limit).unwrap().len() <= low,
    ensures
        chain(nexts, head, low) == chain(nexts, head, limit),
    decreases limit,
{
    if head != NIL {
        let next = nexts[head as usize as int];
        let rest = chain(nexts, next, (limit - 1) as nat).unwrap();
        assert(chain(nexts, head, limit).unwrap().len() == rest.len() + 1);
        lemma_enough(nexts, next, (limit - 1) as nat, (low - 1) as nat);
    }
}

/// A change to a node that is not on a list does not change the list.
pub proof fn lemma_list_frame(nexts: Seq<u64>, head: u64, limit: nat, node: int, v: u64)
    requires
        chain(nexts, head, limit) is Some,
        0 <= node < nexts.len(),
        forall|k: int|
            0 <= k < chain(nexts, head, limit).unwrap().len() ==> #[trigger] chain(
                nexts,
                head,
                limit,
            ).unwrap()[k] as usize != node,
    ensures
        chain(nexts.update(node, v), head, limit) == chain(nexts, head, limit),
    decreases limit,
{
    if head != NIL {
        let list = chain(nexts, head, limit).unwrap();
        let next = nexts[head as usize as int];
        let rest = chain(nexts, next, (limit - 1) as nat).unwrap();
        assert(list[0] == head);
        assert forall|k: int| 0 <= k < rest.len() implies #[trigger] rest[k] as usize != node by {
            assert(list[k + 1] == rest[k]);
        }
        lemma_list_frame(nexts, next, (limit - 1) as nat, node, v);
    }
}

/// Linking a node that is not on a list to its head puts the node in front.
pub proof fn law_linking_prepends(nexts: Seq<u64>, head: u64, node: u64)
    requires
        list_at(nexts, head) is Some,
        node != NIL,
        (node as usize) < nexts.len(),
        forall|k: int|
            0 <= k < list_at(nexts, head).unwrap().len() ==> #[trigger] list_at(
                nexts,
                head,
            ).unwrap()[k] as usize != node as usize,
    ensures
        list_at(nexts.update(node as usize as int, head), node) == Some(
            seq![node] + list_at(nexts, head).unwrap(),
        ),
{
    let limit = nexts.len() + 1;
    let new = nexts.update(node as usize as int, head);
    lemma_list_frame(nexts, head, limit, node as usize as int, head);
    lemma_list_len(nexts, head);
    lemma_enough(new, head, limit, nexts.len());
}

/// Taking the head off a list leaves the rest.
pub proof fn law_unlinking_leaves_the_rest(nexts: Seq<u64>, head: u64)
    requires
        list_at(nexts, head) is Some,
        head != NIL,
    ensures
        (head as usize) < nexts.len(),
        list_at(nexts, head).unwrap().len() > 0,
        list_at(nexts, head).unwrap()[0] == head,
        list_at(nexts, nexts[head as usize as int]) == Some(
            list_at(nexts, head).unwrap().drop_first(),
        ),
{
    let limit = nexts.len() + 1;
    let next = nexts[head as usize as int];
    let rest = chain(nexts, next, (limit - 1) as nat).unwrap();
    lemma_same_list(nexts, next, (limit - 1) as nat, limit);
    assert(list_at(nexts, head).unwrap().drop_first() =~= rest);
}

/// `list` is what one comes by, from `head` on, by following next pointers
/// inside the pool until one is nil.
pub open spec fn leads_through(nexts: Seq<u64>, head: u64, list: Seq<u64>) -> bool {
    &&& head == if list.len() == 0 {
        NIL
    } else {
        list[0]
    }
    &&& forall|k: int|
        0 <= k < list.len() ==> (#[trigger] list[k]) != NIL && (list[k] as usize) < nexts.len()
    &&& forall|k: int|
        0 <= k < list.len() ==> nexts[(#[trigger] list[k]) as usize as int] == if k + 1
            < list.len() {
            list[k + 1]
        } else {
            NIL
        }
}

proof fn lemma_leads_through(nexts: Seq<u64>, head: u64, list: Seq<u64>)
    requires
        leads_through(nexts, head, list),
    ensures
        chain(nexts, head, list.len()) == Some(list),
    decreases list.len(),
{
    if list.len() > 0 {
        let rest = list.drop_first();
        assert(list[0] != NIL);
        assert forall|k: int| 0 <= k < rest.len() implies (#[trigger] rest[k]) != NIL && (
        rest[k] as usize) < nexts.len() && nexts[rest[k] as usize as int] == if k + 1 < rest.len() {
            rest[k + 1]
        } else {
            NIL
        } by {
            assert(rest[k] == list[k + 1]);
        }
        lemma_leads_through(nexts, nexts[head as usize as int], rest);
        assert(seq![head] + rest =~= list);
    } else {
        assert(list =~= seq![]);
    }
}

proof fn lemma_chain_leads_through(nexts: Seq<u64>, head: u64, limit: nat)
    requires
        chain(nexts, head, limit) is Some,
    ensures
        leads_through(nexts, head, chain(nexts, head, limit).unwrap()),
    decreases limit,
{
    if head != NIL {
        let next = nexts[head as usize as int];
        lemma_chain_leads_through(nexts, next, (limit - 1) as nat);
        let rest = chain(nexts, next, (limit - 1) as nat).unwrap();
        let list = chain(nexts, head, limit).unwrap();
        assert forall|k: int| 0 <= k < list.len() implies (#[trigger] list[k]) != NIL && (
        list[k] as usize) < nexts.len() && nexts[list[k] as usize as int] == if k + 1 < list.len() {
            list[k + 1]
        } else {
            NIL
        } by {
            if k > 0 {
                assert(list[k] == rest[k - 1]);
                if k + 1 < list.len() {
                    assert(list[k + 1] == rest[k]);
                }
            } else {
                assert(list[0] == head);
                if list.len() > 1 {
                    assert(list[1] == rest[0]);
                }
            }
        }
    }
}

/// The list at a head is what its pointers lead through, whatever the pool:
/// there is none exactly if they leave the pool or never end.
pub proof fn law_lists_follow_the_pointers(nexts: Seq<u64>, head: u64, list: Seq<u64>)
    ensures
        list_at(nexts, head) == Some(list) <==> leads_through(nexts, head, list),
{
    if list_at(nexts, head) is Some {
        lemma_chain_leads_through(nexts, head, nexts.len() + 1);
    }
    if leads_through(nexts, head, list) {
        lemma_leads_through(nexts, head, list);
        let limit = nexts.len() + 1;
        if list.len() <= limit {
            lemma_same_list(nexts, head, list.len(), limit);
        } else {
            lemma_no_list_is_longer(nexts, head, list.len());
        }
    }
}

/// A list that ends has no more nodes than the pool.
proof fn lemma_no_list_is_longer(nexts: Seq<u64>, head: u64, limit: nat)
    requires
        chain(nexts, head, limit) is Some,
    ensures
        chain(nexts, head, limit).unwrap().len() <= nexts.len(),
{
    let list = chain(nexts, head, limit).unwrap();
    let indices = Seq::new(list.len(), |k: int| list[k] as usize as int);
    assert(indices.no_duplicates()) by {
        assert forall|i: int, j: int|
            0 <= i < j < indices.len() implies indices[i] != indices[j] by {
            lemma_suffix(nexts, head, limit, i);
            lemma_suffix(nexts, head, limit, j);
            if indices[i] == indices[j] {
                let next = nexts[list[i] as usize as int];
                lemma_same_list(nexts, next, (limit - j - 1) as nat, (limit - i - 1) as nat);
                assert(list.skip(i).len() == list.skip(j).len());
            }
        }
    }
    indices.unique_seq_to_set();
    let pool = vstd::set_lib::set_int_range(0, nexts.len() as int);
    vstd::set_lib::lemma_int_range(0, nexts.len() as int);
    assert(indices.to_set().subset_of(pool)) by {
        assert forall|x: int| indices.to_set().contains(x) implies pool.contains(x) by {
            let k = choose|k: int| 0 <= k < indices.len() && indices[k] == x;
            lemma_in_pool(nexts, head, limit, k);
        }
    }
    vstd::set_lib::lemma_len_subset(indices.to_set(), pool);
}

/// `rest` behind `front`, if there is one.
pub open spec fn behind(front: Seq<u64>, rest: Option<Seq<u64>>) -> Option<Seq<u64>> {
    match rest {
        Some(r) => Some(front + r),
        None => None,
    }
}

/// Walk the list at `head`.
#[must_use]
pub fn walk(head: u64, nexts: &[u64]) -> (list: Option<Vec<u64>>)
    ensures
        match list {
            Some(l) => list_at(nexts@, head) == Some(l@),
            None => list_at(nexts@, head) is None,
        },
{
    let mut out: Vec<u64> = Vec::new();
    let mut cur: u64 = head;
    let ghost limit = nexts@.len() + 1;
    proof {
        let whole = list_at(nexts@, head);
        if whole is Some {
            assert(out@ + whole.unwrap() =~= whole.unwrap());
        }
    }
    while cur != NIL
        invariant
            out@.len() <= limit,
            limit == nexts@.len() + 1,
            list_at(nexts@, head) == behind(
                out@,
                chain(nexts@, cur, (limit - out@.len()) as nat),
            ),
        decreases limit - out@.len(),
    {
        if out.len() > nexts.len() || cur as usize >= nexts.len() {
            return None;
        }
        let ghost front = out@;
        let ghost here = cur;
        out.push(cur);
        cur = nexts[cur as usize];
        proof {
            let rest = chain(nexts@, cur, (limit - out@.len()) as nat);
            if rest is Some {
                assert(front + (seq![here] + rest.unwrap()) =~= out@ + rest.unwrap());
            }
        }
    }
    assert(out@ + Seq::<u64>::empty() =~= out@);
    Some(out)
}

/// Every head leads to a list.
pub open spec fn all_intact(heads: Seq<u64>, nexts: Seq<u64>) -> bool {
    forall|c: int| 0 <= c < heads.len() ==> list_at(nexts, #[trigger] heads[c]) is Some
}

/// The pointers from `head` on stay in the pool and come to an end.
pub open spec fn comes_to_an_end(nexts: Seq<u64>, head: u64) -> bool {
    exists|list: Seq<u64>| #[trigger] leads_through(nexts, head, list)
}

/// Nothing is amiss exactly if the pointers from every head, the first to the
/// last, stay in the pool and come to an end.
pub proof fn law_intact_means_every_list_ends(heads: Seq<u64>, nexts: Seq<u64>)
    ensures
        all_intact(heads, nexts) <==> forall|c: int|
            0 <= c < heads.len() ==> comes_to_an_end(nexts, #[trigger] heads[c]),
{
    assert forall|c: int| 0 <= c < heads.len() implies list_at(nexts, #[trigger] heads[c]) is Some
        == comes_to_an_end(nexts, heads[c]) by {
        if list_at(nexts, heads[c]) is Some {
            law_lists_follow_the_pointers(nexts, heads[c], list_at(nexts, heads[c]).unwrap());
        }
        if comes_to_an_end(nexts, heads[c]) {
            let list = choose|list: Seq<u64>| #[trigger] leads_through(nexts, heads[c], list);
            law_lists_follow_the_pointers(nexts, heads[c], list);
        }
    }
    if all_intact(heads, nexts) {
        assert forall|c: int| 0 <= c < heads.len() implies comes_to_an_end(
            nexts,
            #[trigger] heads[c],
        ) by {
            assert(list_at(nexts, heads[c]) is Some);
        }
    }
}

/// Whether every head leads to a list.
#[must_use]
pub fn lists_intact(heads: &[u64], nexts: &[u64]) -> (b: bool)
    ensures
        b == all_intact(heads@, nexts@),
{
    let mut c: usize = 0;
    while c < heads.len()
        invariant
            c <= heads@.len(),
            forall|k: int| 0 <= k < c ==> list_at(nexts@, #[trigger] heads@[k]) is Some,
        decreases heads@.len() - c,
    {
        if walk(heads[c], nexts).is_none() {
            assert(list_at(nexts@, heads@[c as int]) is None);
            return false;
        }
        c = c + 1;
    }
    true
}

/// Walk the list of every head.
#[must_use]
pub fn walk_all(heads: &[u64], nexts: &[u64]) -> (lists: Vec<Vec<u64>>)
    requires
        all_intact(heads@, nexts@),
    ensures
        lists@.len() == heads@.len(),
        forall|c: int|
            0 <= c < heads@.len() ==> list_at(nexts@, heads@[c]) == Some(#[trigger] lists@[c]@),
{
    let mut lists: Vec<Vec<u64>> = Vec::new();
    let mut c: usize = 0;
    while c < heads.len()
        invariant
            all_intact(heads@, nexts@),
            c <= heads@.len(),
            lists@.len() == c,
            forall|k: int|
                0 <= k < c ==> list_at(nexts@, heads@[k]) == Some(#[trigger] lists@[k]@),
        decreases heads@.len() - c,
    {
        assert(list_at(nexts@, heads@[c as int]) is Some);
        let list = match walk(heads[c], nexts) {
            Some(l) => l,
            None => Vec::new(),
        };
        lists.push(list);
        c = c + 1;
    }
    lists
}

/// Per-CPU freelists over a shared node pool, as in `progs::freelist`:
/// `heads[cpu]` is the published head, `nodes[i]` is node i's next pointer.
#[derive(Debug)]
pub struct PerCpuFreelist {
    heads: Vec<u64>,
    nodes: Vec<u64>,
}

impl PerCpuFreelist {
    /// The head of every CPU's list.
    pub closed spec fn heads(self) -> Seq<u64> {
        self.heads@
    }

    /// The next pointer of every node.
    pub closed spec fn nodes(self) -> Seq<u64> {
        self.nodes@
    }

    #[must_use]
    pub fn new(nnodes: usize) -> (f: Self)
        ensures
            f.heads() == Seq::new(MAX_CPUS as nat, |i: int| NIL),
            f.nodes() == Seq::new(nnodes as nat, |i: int| NIL),
            all_intact(f.heads(), f.nodes()),
    {
        let heads: Vec<u64> = vec![NIL; MAX_CPUS];
        let nodes: Vec<u64> = vec![NIL; nnodes];
        assert(heads@ =~= Seq::new(MAX_CPUS as nat, |i: int| NIL));
        assert(nodes@ =~= Seq::new(nnodes as nat, |i: int| NIL));
        PerCpuFreelist { heads, nodes }
    }

    /// Freelists with the given heads and next pointers.
    #[must_use]
    pub fn from_parts(heads: Vec<u64>, nodes: Vec<u64>) -> (f: Self)
        ensures
            f.heads() == heads@,
            f.nodes() == nodes@,
    {
        PerCpuFreelist { heads, nodes }
    }

    /// The heads and the next pointers.
    #[must_use]
    pub fn into_parts(self) -> (parts: (Vec<u64>, Vec<u64>))
        ensures
            parts.0@ == self.heads(),
            parts.1@ == self.nodes(),
    {
        (self.heads, self.nodes)
    }

    /// Whether every list ends, and stays within the pool.
    #[must_use]
    pub fn is_intact(&self) -> (b: bool)
        ensures
            b == all_intact(self.heads(), self.nodes()),
    {
        lists_intact(self.heads.as_slice(), self.nodes.as_slice())
    }

    /// Walk every CPU's list. `&mut self` guarantees quiescence.
    pub fn drain_all(&mut self) -> (lists: Vec<Vec<u64>>)
        requires
            all_intact(old(self).heads(), old(self).nodes()),
        ensures
            lists@.len() == old(self).heads().len(),
            forall|c: int|
                0 <= c < lists@.len() ==> list_at(old(self).nodes(), old(self).heads()[c]) == Some(
                    #[trigger] lists@[c]@,
                ),
            *final(self) == *old(self),
    {
        walk_all(self.heads.as_slice(), self.nodes.as_slice())
    }
}

} // verus!
