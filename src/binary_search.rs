use core::cmp::Ordering;
use vstd::prelude::*;
use vstd::utf8::encode_utf8;

use crate::store_item::Item;
use crate::text_store::TextStore;

verus! {

/// The UTF-8 bytes of a record's text. `str` orders and tests prefixes byte by byte,
/// so the search is stated over these bytes.
pub open spec fn text_bytes<I: Item>(it: I) -> Seq<u8> {
    encode_utf8(it.text_view())
}

/// The texts of a sequence of records, as bytes.
pub open spec fn texts_of<I: Item>(items: Seq<I>) -> Seq<Seq<u8>> {
    items.map_values(|it: I| text_bytes(it))
}

/// `a <= b` in lexicographic order, comparing from position `i` on.
pub open spec fn lex_le_from(a: Seq<u8>, b: Seq<u8>, i: int) -> bool
    decreases a.len() - i,
{
    if i >= a.len() {
        true
    } else if i >= b.len() {
        false
    } else if a[i] != b[i] {
        a[i] < b[i]
    } else {
        lex_le_from(a, b, i + 1)
    }
}

/// `a <= b` in the lexicographic order of `str`.
pub open spec fn lex_le(a: Seq<u8>, b: Seq<u8>) -> bool {
    lex_le_from(a, b, 0)
}

/// The texts are in ascending order.
pub open spec fn is_sorted(texts: Seq<Seq<u8>>) -> bool {
    forall|i: int, j: int| 0 <= i < j < texts.len() ==> lex_le(#[trigger] texts[i], #[trigger] texts[j])
}

/// `t` begins with `q`.
pub open spec fn starts_with(t: Seq<u8>, q: Seq<u8>) -> bool {
    q.len() <= t.len() && t.subrange(0, q.len() as int) == q
}

/// The records whose text begins with `q`, in their order.
pub open spec fn prefix_matches<I: Item>(items: Seq<I>, q: Seq<u8>) -> Seq<I> {
    items.filter(|it: I| starts_with(text_bytes(it), q))
}

/// How `t` compares against the query `q`, from position `i` on: `Equal` when
/// `t` begins with `q`, otherwise the order of the first differing byte, and
/// `Less` when `t` ends first.
pub open spec fn order_from(t: Seq<u8>, q: Seq<u8>, i: int) -> Ordering
    decreases q.len() - i,
{
    if i >= q.len() {
        Ordering::Equal
    } else if i >= t.len() {
        Ordering::Less
    } else if t[i] < q[i] {
        Ordering::Less
    } else if t[i] > q[i] {
        Ordering::Greater
    } else {
        order_from(t, q, i + 1)
    }
}

/// How the text `t` compares against the query `q`.
pub open spec fn prefix_order(t: Seq<u8>, q: Seq<u8>) -> Ordering {
    order_from(t, q, 0)
}

/// `Less`, `Equal` and `Greater` as 0, 1 and 2.
pub open spec fn rank(o: Ordering) -> int {
    match o {
        Ordering::Less => 0,
        Ordering::Equal => 1,
        Ordering::Greater => 2,
    }
}

/// The rank of the `i`-th text against `q`.
pub open spec fn rank_at(texts: Seq<Seq<u8>>, q: Seq<u8>, i: int) -> int {
    rank(prefix_order(texts[i], q))
}

proof fn lemma_order_from_equal(t: Seq<u8>, q: Seq<u8>, i: int)
    requires
        0 <= i <= q.len(),
        i <= t.len(),
        forall|j: int| 0 <= j < i ==> t[j] == q[j],
    ensures
        (order_from(t, q, i) == Ordering::Equal) == starts_with(t, q),
    decreases q.len() - i,
{
    if i == q.len() {
        assert(t.subrange(0, q.len() as int) =~= q);
    } else if i == t.len() {
    } else if t[i] != q[i] {
        if q.len() <= t.len() {
            assert(t.subrange(0, q.len() as int)[i] == t[i]);
        }
    } else {
        lemma_order_from_equal(t, q, i + 1);
    }
}

/// The comparator reports `Equal` exactly on the texts that begin with the query.
pub proof fn lemma_equal_iff_starts_with(t: Seq<u8>, q: Seq<u8>)
    ensures
        (prefix_order(t, q) == Ordering::Equal) == starts_with(t, q),
{
    lemma_order_from_equal(t, q, 0);
}

proof fn lemma_order_from_monotone(a: Seq<u8>, b: Seq<u8>, q: Seq<u8>, i: int)
    requires
        0 <= i,
        lex_le_from(a, b, i),
    ensures
        rank(order_from(a, q, i)) <= rank(order_from(b, q, i)),
    decreases q.len() - i,
{
    if i >= q.len() || i >= a.len() || i >= b.len() || a[i] != b[i] || a[i] != q[i] {
    } else {
        lemma_order_from_monotone(a, b, q, i + 1);
    }
}

/// A text that is not above another compares against any query no higher than it.
pub proof fn lemma_order_monotone(a: Seq<u8>, b: Seq<u8>, q: Seq<u8>)
    requires
        lex_le(a, b),
    ensures
        rank(prefix_order(a, q)) <= rank(prefix_order(b, q)),
{
    lemma_order_from_monotone(a, b, q, 0);
}

/// In sorted texts the comparator's results ascend: `Less`, then `Equal`, then `Greater`.
pub proof fn lemma_ranks_ascend(texts: Seq<Seq<u8>>, q: Seq<u8>)
    ensures
        is_sorted(texts) ==> forall|i: int, j: int|
            0 <= i <= j < texts.len() ==> #[trigger] rank_at(texts, q, i) <= #[trigger] rank_at(texts, q, j),
{
    if is_sorted(texts) {
        assert forall|i: int, j: int| 0 <= i <= j < texts.len() implies #[trigger] rank_at(texts, q, i)
            <= #[trigger] rank_at(texts, q, j) by {
            if i < j {
                lemma_order_monotone(texts[i], texts[j], q);
            }
        }
    }
}

/// Compares a text against a query: `Equal` when the text begins with the query,
/// otherwise the order of the first byte where they differ, `Less` when the text ends first.
pub fn compare(text: &str, query: &str) -> (r: Ordering)
    ensures
        r == prefix_order(encode_utf8(text@), encode_utf8(query@)),
{
    let t = text.as_bytes();
    let q = query.as_bytes();
    let mut i: usize = 0;
    loop
        invariant
            i <= q@.len(),
            i <= t@.len(),
            t@ == encode_utf8(text@),
            q@ == encode_utf8(query@),
            order_from(t@, q@, 0) == order_from(t@, q@, i as int),
        decreases q@.len() - i,
    {
        if i >= q.len() {
            return Ordering::Equal;
        }
        if i >= t.len() {
            return Ordering::Less;
        }
        if t[i] < q[i] {
            return Ordering::Less;
        }
        if t[i] > q[i] {
            return Ordering::Greater;
        }
        i = i + 1;
    }
}


/// Compares the record at `pos` against the query.
fn compare_at<S: TextStore>(store: &S, pos: usize, query: &str) -> (r: Ordering)
    requires
        pos < store.items().len(),
    ensures
        r == prefix_order(texts_of(store.items())[pos as int], encode_utf8(query@)),
{
    let item = store.get_at(pos).unwrap();
    compare(item.get_text(), query)
}

/// Binary search for any record whose text begins with the query (a pivot).
/// Finds one whenever a sorted store holds one.
pub fn find_pivot<S: TextStore>(store: &S, query: &str) -> (r: Option<usize>)
    ensures
        match r {
            Some(p) => p < store.items().len() && rank_at(
                texts_of(store.items()),
                encode_utf8(query@),
                p as int,
            ) == 1,
            None => is_sorted(texts_of(store.items())) ==> forall|i: int|
                0 <= i < store.items().len() ==> #[trigger] rank_at(
                    texts_of(store.items()),
                    encode_utf8(query@),
                    i,
                ) != 1,
        },
{
    let ghost texts = texts_of(store.items());
    let ghost q = encode_utf8(query@);
    proof {
        lemma_ranks_ascend(texts, q);
    }
    let n = store.len();
    let mut left: usize = 0;
    let mut right: usize = n;
    while left < right
        invariant
            left <= right <= n,
            n == store.items().len(),
            texts == texts_of(store.items()),
            q == encode_utf8(query@),
            is_sorted(texts) ==> forall|i: int, j: int|
                0 <= i <= j < texts.len() ==> #[trigger] rank_at(texts, q, i) <= #[trigger] rank_at(
                    texts,
                    q,
                    j,
                ),
            is_sorted(texts) ==> forall|i: int| 0 <= i < left ==> #[trigger] rank_at(texts, q, i) == 0,
            is_sorted(texts) ==> forall|i: int| right <= i < n ==> #[trigger] rank_at(texts, q, i) == 2,
        decreases right - left,
    {
        let mid = left + (right - left) / 2;
        let c = compare_at(store, mid, query);
        assert(rank_at(texts, q, mid as int) == rank(c));
        match c {
            Ordering::Less => {
                left = mid + 1;
            },
            Ordering::Greater => {
                right = mid;
            },
            Ordering::Equal => {
                return Some(mid);
            },
        }
    }
    None
}

/// The first record at or before the pivot `p` whose text begins with the query.
pub fn lower_bound<S: TextStore>(store: &S, query: &str, p: usize) -> (r: usize)
    requires
        p < store.items().len(),
        rank_at(texts_of(store.items()), encode_utf8(query@), p as int) == 1,
    ensures
        r <= p,
        rank_at(texts_of(store.items()), encode_utf8(query@), r as int) != 0,
        is_sorted(texts_of(store.items())) ==> forall|i: int|
            0 <= i < r ==> #[trigger] rank_at(texts_of(store.items()), encode_utf8(query@), i)
                == 0,
{
    let ghost texts = texts_of(store.items());
    let ghost q = encode_utf8(query@);
    proof {
        lemma_ranks_ascend(texts, q);
    }
    let mut left: usize = 0;
    let mut right: usize = p;
    while left < right
        invariant
            left <= right <= p < store.items().len(),
            texts == texts_of(store.items()),
            q == encode_utf8(query@),
            rank_at(texts, q, right as int) != 0,
            is_sorted(texts) ==> forall|i: int, j: int|
                0 <= i <= j < texts.len() ==> #[trigger] rank_at(texts, q, i) <= #[trigger] rank_at(
                    texts,
                    q,
                    j,
                ),
            is_sorted(texts) ==> forall|i: int| 0 <= i < left ==> #[trigger] rank_at(texts, q, i) == 0,
        decreases right - left,
    {
        let mid = left + (right - left) / 2;
        let c = compare_at(store, mid, query);
        assert(rank_at(texts, q, mid as int) == rank(c));
        match c {
            Ordering::Less => {
                left = mid + 1;
            },
            _ => {
                right = mid;
            },
        }
    }
    left
}

/// The first record after the pivot `p` whose text does not begin with the query,
/// or the store's length.
pub fn upper_bound<S: TextStore>(store: &S, query: &str, p: usize) -> (r: usize)
    requires
        p < store.items().len(),
        rank_at(texts_of(store.items()), encode_utf8(query@), p as int) == 1,
    ensures
        p < r <= store.items().len(),
        is_sorted(texts_of(store.items())) ==> forall|i: int|
            p <= i < r ==> #[trigger] rank_at(texts_of(store.items()), encode_utf8(query@), i)
                == 1,
        is_sorted(texts_of(store.items())) ==> forall|i: int|
            r <= i < store.items().len() ==> #[trigger] rank_at(
                texts_of(store.items()),
                encode_utf8(query@),
                i,
            ) == 2,
{
    let ghost texts = texts_of(store.items());
    let ghost q = encode_utf8(query@);
    proof {
        lemma_ranks_ascend(texts, q);
    }
    let n = store.len();
    let mut left: usize = p + 1;
    let mut right: usize = n;
    while left < right
        invariant
            p < left <= right <= n,
            n == store.items().len(),
            texts == texts_of(store.items()),
            q == encode_utf8(query@),
            rank_at(texts, q, p as int) == 1,
            is_sorted(texts) ==> forall|i: int, j: int|
                0 <= i <= j < texts.len() ==> #[trigger] rank_at(texts, q, i) <= #[trigger] rank_at(
                    texts,
                    q,
                    j,
                ),
            is_sorted(texts) ==> forall|i: int| p <= i < left ==> #[trigger] rank_at(texts, q, i) == 1,
            is_sorted(texts) ==> forall|i: int| right <= i < n ==> #[trigger] rank_at(texts, q, i) == 2,
        decreases right - left,
    {
        let mid = left + (right - left) / 2;
        let c = compare_at(store, mid, query);
        assert(rank_at(texts, q, mid as int) == rank(c));
        match c {
            Ordering::Equal => {
                left = mid + 1;
            },
            _ => {
                right = mid;
            },
        }
    }
    left
}

/// In sorted texts those that begin with a query form one unbroken run: a text
/// lying between two that begin with it begins with it too.
pub proof fn lemma_matches_contiguous(texts: Seq<Seq<u8>>, q: Seq<u8>, i: int, j: int, k: int)
    requires
        is_sorted(texts),
        0 <= i <= j <= k < texts.len(),
        starts_with(texts[i], q),
        starts_with(texts[k], q),
    ensures
        starts_with(texts[j], q),
{
    lemma_ranks_ascend(texts, q);
    lemma_equal_iff_starts_with(texts[i], q);
    lemma_equal_iff_starts_with(texts[j], q);
    lemma_equal_iff_starts_with(texts[k], q);
    assert(rank_at(texts, q, i) <= rank_at(texts, q, j));
    assert(rank_at(texts, q, j) <= rank_at(texts, q, k));
}

/// Two prefix searches for the same query in the same sorted store give the same
/// records: the result depends on the store and the query alone.
pub proof fn lemma_prefix_search_repeatable<I: Item>(
    items: Seq<I>,
    query: Seq<char>,
    first: Seq<I>,
    second: Seq<I>,
)
    requires
        is_sorted(texts_of(items)),
        query.len() == 0 ==> first.len() == 0 && second.len() == 0,
        query.len() > 0 ==> first == prefix_matches(items, encode_utf8(query)),
        query.len() > 0 ==> second == prefix_matches(items, encode_utf8(query)),
    ensures
        first == second,
{
    if query.len() == 0 {
        assert(first =~= second);
    }
}

/// Filtering a sequence whose elements satisfy the predicate exactly on the
/// positions `[lo, hi)` keeps that slice.
pub proof fn lemma_filter_interval<A>(s: Seq<A>, pred: spec_fn(A) -> bool, lo: int, hi: int)
    requires
        0 <= lo <= hi <= s.len(),
        forall|i: int| 0 <= i < s.len() ==> (pred(#[trigger] s[i]) <==> lo <= i < hi),
    ensures
        s.filter(pred) == s.subrange(lo, hi),
    decreases s.len(),
{
    reveal(Seq::filter);
    if s.len() > 0 {
        let n = s.len();
        let init = s.drop_last();
        assert forall|i: int| 0 <= i < init.len() implies (pred(#[trigger] init[i]) <==> lo <= i
            < hi) by {
            assert(init[i] == s[i]);
        }
        if pred(s.last()) {
            assert(pred(s[n - 1]));
            lemma_filter_interval(init, pred, lo, n - 1);
            assert(s.subrange(lo, n - 1).push(s.last()) =~= s.subrange(lo, hi));
        } else if hi < n {
            lemma_filter_interval(init, pred, lo, hi);
            assert(init.subrange(lo, hi) =~= s.subrange(lo, hi));
        } else {
            assert(!pred(s[n - 1]));
            lemma_filter_interval(init, pred, n - 1, n - 1);
            assert(init.subrange(n - 1, n - 1) =~= s.subrange(lo, hi));
        }
    }
}

/// The positions `[start, end)` of a store.
pub struct MatchRange {
    pub start: usize,
    pub end: usize,
}

/// Locates the maximal run of records whose text begins with the query: a pivot,
/// then the lower and the upper boundary around it. An empty query matches nothing.
pub fn match_range<S: TextStore>(store: &S, query: &str) -> (r: MatchRange)
    ensures
        r.start <= r.end <= store.items().len(),
        query@.len() == 0 ==> r.start == r.end,
        query@.len() > 0 && is_sorted(texts_of(store.items())) ==> forall|i: int|
            0 <= i < store.items().len() ==> (starts_with(
                #[trigger] texts_of(store.items())[i],
                encode_utf8(query@),
            ) <==> r.start <= i < r.end),
{
    if query.is_empty() {
        return MatchRange { start: 0, end: 0 };
    }
    let ghost texts = texts_of(store.items());
    let ghost q = encode_utf8(query@);
    match find_pivot(store, query) {
        None => {
            proof {
                if is_sorted(texts) {
                    assert forall|i: int| 0 <= i < store.items().len() implies !starts_with(
                        #[trigger] texts[i],
                        q,
                    ) by {
                        lemma_equal_iff_starts_with(texts[i], q);
                        assert(rank_at(texts, q, i) == rank(prefix_order(texts[i], q)));
                    }
                }
            }
            MatchRange { start: 0, end: 0 }
        },
        Some(p) => {
            let lo = lower_bound(store, query, p);
            let hi = upper_bound(store, query, p);
            proof {
                lemma_ranks_ascend(texts, q);
                if is_sorted(texts) {
                    assert forall|i: int| 0 <= i < store.items().len() implies (starts_with(
                        #[trigger] texts[i],
                        q,
                    ) <==> lo <= i < hi) by {
                        lemma_equal_iff_starts_with(texts[i], q);
                        assert(rank_at(texts, q, i) == rank(prefix_order(texts[i], q)));
                        if lo <= i && i < p {
                            assert(rank_at(texts, q, lo as int) <= rank_at(texts, q, i));
                            assert(rank_at(texts, q, i) <= rank_at(texts, q, p as int));
                        }
                    }
                }
            }
            MatchRange { start: lo, end: hi }
        },
    }
}

/// A lazy prefix search: yields, in store order, the records whose text begins
/// with the query.
pub struct Search<'a, S: TextStore> {
    store: &'a S,
    next_pos: usize,
    end: usize,
}

impl<'a, S: TextStore> Search<'a, S> {
    /// The positions of the records still to come stay within the store.
    pub closed spec fn wf(&self) -> bool {
        self.next_pos <= self.end <= self.store.items().len()
    }

    /// The records still to come, in order.
    pub closed spec fn remaining(&self) -> Seq<S::Item> {
        self.store.items().subrange(self.next_pos as int, self.end as int)
    }

    /// Starts a search of `store` for `query`; the boundaries are found here,
    /// the records are handed out one by one by `next`.
    pub fn new(store: &'a S, query: &str) -> (r: Self)
        ensures
            r.wf(),
            query@.len() == 0 ==> r.remaining().len() == 0,
            store.items().len() == 0 ==> r.remaining().len() == 0,
            query@.len() > 0 && is_sorted(texts_of(store.items())) ==> r.remaining()
                == prefix_matches(store.items(), encode_utf8(query@)),
    {
        let mut s = Search { store, next_pos: 0, end: 0 };
        if !s.is_valid(query) {
            return s;
        }
        let range = match_range(store, query);
        proof {
            let q = encode_utf8(query@);
            let items = store.items();
            if is_sorted(texts_of(items)) {
                let pred = |it: S::Item| starts_with(text_bytes(it), q);
                assert forall|i: int| 0 <= i < items.len() implies (pred(#[trigger] items[i])
                    <==> range.start <= i < range.end) by {
                    assert(texts_of(items)[i] == text_bytes(items[i]));
                }
                lemma_filter_interval(items, pred, range.start as int, range.end as int);
            }
        }
        s.next_pos = range.start;
        s.end = range.end;
        s
    }

    /// The search has something to look at: the store and the query are not empty.
    fn is_valid(&self, query: &str) -> (r: bool)
        ensures
            r == (self.store.items().len() != 0 && query@.len() != 0),
    {
        self.store.len() != 0 && !query.is_empty()
    }

    /// Hands out the next matching record, or `None` when all have been.
    pub fn next(&mut self) -> (r: Option<&'a S::Item>)
        requires
            old(self).wf(),
        ensures
            final(self).wf(),
            old(self).remaining().len() == 0 ==> r is None && final(self).remaining()
                == old(self).remaining(),
            old(self).remaining().len() > 0 ==> r == Some(&old(self).remaining()[0])
                && final(self).remaining() == old(self).remaining().drop_first(),
    {
        if self.next_pos >= self.end {
            return None;
        }
        let item = self.store.get_at(self.next_pos).unwrap();
        self.next_pos = self.next_pos + 1;
        proof {
            assert(final(self).remaining() =~= old(self).remaining().drop_first());
        }
        Some(item)
    }
}

} // verus!
