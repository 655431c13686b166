use vstd::prelude::*;
use vstd::utf8::encode_utf8;

use crate::store_item::Item;
use crate::text_store::TextStore;

verus! {

/// The Levenshtein distance between two texts, counted in characters.
pub uninterp spec fn edit_distance_of(a: Seq<char>, b: Seq<char>) -> nat;

/// Relies on `strsim::levenshtein`: the least number of character insertions,
/// deletions and substitutions that turn `a` into `b`, a function of the two texts alone.
#[verifier::external_body]
fn edit_distance(a: &str, b: &str) -> (r: usize)
    ensures
        r == edit_distance_of(a@, b@),
{
    strsim::levenshtein(a, b)
}

/// The acceptance threshold: the most edits a fuzzy match may need, in percent
/// of the byte length of the longer of the two texts.
pub const MAX_EDIT_PERCENT: u128 = 40;

/// The distance between two integers.
pub open spec fn abs_diff(a: int, b: int) -> int {
    if a >= b {
        a - b
    } else {
        b - a
    }
}

/// The larger of two integers.
pub open spec fn max(a: int, b: int) -> int {
    if a >= b {
        a
    } else {
        b
    }
}

/// The cheap pre-filter: the lengths differ by at most `len_limit`.
pub open spec fn within_length(text_len: int, query_len: int, len_limit: int) -> bool {
    abs_diff(text_len, query_len) <= len_limit
}

/// The similarity test: `distance` edits are few enough for texts of these lengths.
pub open spec fn close_enough(distance: int, text_len: int, query_len: int) -> bool {
    100 * distance <= MAX_EDIT_PERCENT * max(text_len, query_len)
}

/// A text is a fuzzy match for the query: it is the query itself, or it passes
/// the length pre-filter and is close enough in edit distance. Lengths are in
/// UTF-8 bytes, as `str::len` counts.
pub open spec fn fuzzy_accepts(text: Seq<char>, query: Seq<char>, len_limit: int) -> bool {
    let tl = encode_utf8(text).len() as int;
    let ql = encode_utf8(query).len() as int;
    text == query || (within_length(tl, ql, len_limit) && close_enough(
        edit_distance_of(text, query) as int,
        tl,
        ql,
    ))
}

/// The fuzzy-match test on records.
pub open spec fn accepts_item<I: Item>(query: Seq<char>, len_limit: int) -> spec_fn(I) -> bool {
    |it: I| fuzzy_accepts(it.text_view(), query, len_limit)
}

/// The records that are fuzzy matches for the query, in store order.
pub open spec fn fuzzy_matches<I: Item>(items: Seq<I>, query: Seq<char>, len_limit: int) -> Seq<I> {
    items.filter(accepts_item(query, len_limit))
}

/// Tells whether a candidate passes the length pre-filter.
pub fn within_length_limit(text_len: usize, query_len: usize, len_limit: usize) -> (r: bool)
    ensures
        r == within_length(text_len as int, query_len as int, len_limit as int),
{
    if text_len >= query_len {
        text_len - query_len <= len_limit
    } else {
        query_len - text_len <= len_limit
    }
}

/// Tells whether a candidate at edit distance `distance` from the query is accepted.
pub fn accepts_candidate(text_len: usize, query_len: usize, len_limit: usize, distance: usize) -> (r: bool)
    ensures
        r == (within_length(text_len as int, query_len as int, len_limit as int) && close_enough(
            distance as int,
            text_len as int,
            query_len as int,
        )),
{
    if !within_length_limit(text_len, query_len, len_limit) {
        return false;
    }
    let longer: usize = if text_len >= query_len {
        text_len
    } else {
        query_len
    };
    (distance as u128) * 100 <= MAX_EDIT_PERCENT * (longer as u128)
}

/// Tells whether two texts are the same.
pub fn same_text(a: &str, b: &str) -> (r: bool)
    ensures
        r == (a@ == b@),
{
    let x = a.as_bytes();
    let y = b.as_bytes();
    proof {
        vstd::utf8::encode_utf8_decode_utf8(a@);
        vstd::utf8::encode_utf8_decode_utf8(b@);
    }
    if x.len() != y.len() {
        return false;
    }
    let mut i: usize = 0;
    while i < x.len()
        invariant
            i <= x@.len() == y@.len(),
            x@ == encode_utf8(a@),
            y@ == encode_utf8(b@),
            forall|j: int| 0 <= j < i ==> x@[j] == y@[j],
        decreases x@.len() - i,
    {
        if x[i] != y[i] {
            return false;
        }
        i = i + 1;
    }
    assert(x@ =~= y@);
    true
}

/// Splitting off the first element of a sequence splits off its filter the same way.
proof fn lemma_filter_first<A>(s: Seq<A>, pred: spec_fn(A) -> bool)
    requires
        s.len() > 0,
    ensures
        s.filter(pred) == (if pred(s[0]) {
            seq![s[0]]
        } else {
            Seq::<A>::empty()
        }) + s.drop_first().filter(pred),
{
    let head = seq![s[0]];
    assert(s =~= head + s.drop_first());
    Seq::filter_distributes_over_add(head, s.drop_first(), pred);
    reveal_with_fuel(Seq::filter, 2);
    assert(head.drop_last() =~= Seq::<A>::empty());
    if pred(s[0]) {
        assert(Seq::<A>::empty().push(s[0]) =~= head);
    }
}

/// A lazy fuzzy search: scans the store and yields, in store order, the records
/// that are fuzzy matches for the query.
pub struct Search<'a, 'q, S: TextStore> {
    store: &'a S,
    query: &'q str,
    len_limit: usize,
    pos: usize,
}

impl<'a, 'q, S: TextStore> Search<'a, 'q, S> {
    /// The scan position stays within the store.
    pub closed spec fn wf(&self) -> bool {
        self.pos <= self.store.items().len()
    }

    /// The matches still to come, in order.
    pub closed spec fn remaining(&self) -> Seq<S::Item> {
        fuzzy_matches(
            self.store.items().subrange(self.pos as int, self.store.items().len() as int),
            self.query@,
            self.len_limit as int,
        )
    }

    /// Starts a fuzzy search of `store` for `query`; nothing is scanned yet.
    /// An empty query matches nothing.
    pub fn new(store: &'a S, query: &'q str, len_limit: usize) -> (r: Self)
        ensures
            r.wf(),
            query@.len() == 0 ==> r.remaining().len() == 0,
            query@.len() > 0 ==> r.remaining() == fuzzy_matches(
                store.items(),
                query@,
                len_limit as int,
            ),
    {
        let pos = if query.is_empty() {
            store.len()
        } else {
            0
        };
        let s = Search { store, query, len_limit, pos };
        proof {
            let items = store.items();
            assert(items.subrange(0, items.len() as int) =~= items);
            if query@.len() == 0 {
                reveal(Seq::filter);
                assert(items.subrange(pos as int, items.len() as int).len() == 0);
            }
        }
        s
    }

    /// Scans on to the next fuzzy match and hands it out, or `None` at the end of the store.
    pub fn next(&mut self) -> (r: Option<&'a S::Item>)
        requires
            old(self).wf(),
        ensures
            final(self).wf(),
            old(self).remaining().len() == 0 ==> r is None && final(self).remaining()
                == old(self).remaining(),
            old(self).remaining().len() > 0 ==> r == Some(&old(self).remaining()[0])
                && final(self).remaining() == old(self).remaining().drop_first(),
    {
        let ghost items = self.store.items();
        let ghost pred = accepts_item::<S::Item>(self.query@, self.len_limit as int);
        let n = self.store.len();
        let query_len = self.query.as_bytes().len();
        while self.pos < n
            invariant
                self.pos <= n == items.len(),
                items == self.store.items(),
                self.store == old(self).store,
                self.query == old(self).query,
                self.len_limit == old(self).len_limit,
                pred == accepts_item::<S::Item>(self.query@, self.len_limit as int),
                query_len == encode_utf8(self.query@).len(),
                self.remaining() == old(self).remaining(),
            decreases n - self.pos,
        {
            let item = self.store.get_at(self.pos).unwrap();
            let text = item.get_text();
            let ghost rest = items.subrange(self.pos as int, n as int);
            proof {
                lemma_filter_first(rest, pred);
                assert(rest.drop_first() =~= items.subrange(self.pos + 1, n as int));
                assert(rest[0] == items[self.pos as int]);
            }
            self.pos = self.pos + 1;
            let text_len = text.as_bytes().len();
            let accepted = if !within_length_limit(text_len, query_len, self.len_limit) {
                false
            } else if same_text(text, self.query) {
                true
            } else {
                let distance = edit_distance(text, self.query);
                accepts_candidate(text_len, query_len, self.len_limit, distance)
            };
            assert(accepted == pred(rest[0]));
            if accepted {
                return Some(item);
            }
        }
        proof {
            reveal(Seq::filter);
            assert(items.subrange(self.pos as int, n as int).len() == 0);
        }
        None
    }
}

/// A record whose text is exactly the query is a fuzzy match, whatever the length limit.
pub proof fn lemma_exact_text_is_fuzzy_match<I: Item>(
    items: Seq<I>,
    query: Seq<char>,
    len_limit: int,
    i: int,
)
    requires
        0 <= i < items.len(),
        items[i].text_view() == query,
        len_limit >= 0,
    ensures
        fuzzy_matches(items, query, len_limit).contains(items[i]),
{
    items.lemma_filter_contains(accepts_item(query, len_limit), i);
}

} // verus!
