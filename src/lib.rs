pub mod binary_search;
pub mod fuzzy_search;
pub mod store_item;
pub mod text_store;

use vstd::prelude::*;
use vstd::utf8::encode_utf8;

use binary_search::{is_sorted, prefix_matches, texts_of, Search as BinarySearch};
use fuzzy_search::{fuzzy_matches, Search as FuzzySearch};
use store_item::records;
use text_store::TextStore;

verus! {

/// Exact-prefix and fuzzy search over a store that the caller keeps sorted.
pub struct TextSearch<'a, T: TextStore> {
    text_store: &'a T,
}

impl<'a, T: TextStore> TextSearch<'a, T> {
    /// The records of the store searched.
    pub closed spec fn items(&self) -> Seq<T::Item> {
        self.text_store.items()
    }

    /// Wraps a store, which must be sorted by text; it is neither copied nor sorted here.
    pub fn new(text_store: &'a T) -> (r: Self)
        ensures
            r.items() == text_store.items(),
    {
        Self { text_store }
    }

    /// Returns all records whose text begins with `query`, in store order.
    pub fn find_all_bin(&self, query: &str) -> (r: Vec<&'a T::Item>)
        ensures
            query@.len() == 0 ==> r@.len() == 0,
            self.items().len() == 0 ==> r@.len() == 0,
            query@.len() > 0 && is_sorted(texts_of(self.items())) ==> records(r@) == prefix_matches(
                self.items(),
                encode_utf8(query@),
            ),
    {
        let mut out: Vec<&'a T::Item> = Vec::new();
        if query.is_empty() {
            return out;
        }
        let mut it = self.find_binary(query);
        let ghost all = it.remaining();
        loop
            invariant
                it.wf(),
                records(out@) + it.remaining() == all,
            ensures
                records(out@) == all,
            decreases it.remaining().len(),
        {
            match it.next() {
                Some(x) => {
                    proof {
                        assert(records(out@.push(x)) =~= records(out@).push(*x));
                    }
                    out.push(x);
                },
                None => {
                    assert(records(out@) + it.remaining() =~= records(out@));
                    break ;
                },
            }
        }
        out
    }

    /// Returns all records that are fuzzy matches for `query`, in store order.
    pub fn find_all_lev(&self, query: &str, len_limit: usize) -> (r: Vec<&'a T::Item>)
        ensures
            query@.len() == 0 ==> r@.len() == 0,
            query@.len() > 0 ==> records(r@) == fuzzy_matches(self.items(), query@, len_limit as int),
    {
        let mut out: Vec<&'a T::Item> = Vec::new();
        if query.is_empty() {
            return out;
        }
        let mut it = self.find_jaro(query, len_limit);
        let ghost all = it.remaining();
        loop
            invariant
                it.wf(),
                records(out@) + it.remaining() == all,
            ensures
                records(out@) == all,
            decreases it.remaining().len(),
        {
            match it.next() {
                Some(x) => {
                    proof {
                        assert(records(out@.push(x)) =~= records(out@).push(*x));
                    }
                    out.push(x);
                },
                None => {
                    assert(records(out@) + it.remaining() =~= records(out@));
                    break ;
                },
            }
        }
        out
    }

    /// Starts a lazy fuzzy search for `query`.
    pub fn find_jaro<'q>(&self, query: &'q str, len_limit: usize) -> (r: FuzzySearch<'a, 'q, T>)
        ensures
            r.wf(),
            query@.len() == 0 ==> r.remaining().len() == 0,
            query@.len() > 0 ==> r.remaining() == fuzzy_matches(
                self.items(),
                query@,
                len_limit as int,
            ),
    {
        FuzzySearch::new(self.text_store, query, len_limit)
    }

    /// Starts a lazy prefix search for `query`.
    pub fn find_binary(&self, query: &str) -> (r: BinarySearch<'a, T>)
        ensures
            r.wf(),
            query@.len() == 0 ==> r.remaining().len() == 0,
            self.items().len() == 0 ==> r.remaining().len() == 0,
            query@.len() > 0 && is_sorted(texts_of(self.items())) ==> r.remaining()
                == prefix_matches(self.items(), encode_utf8(query@)),
    {
        BinarySearch::new(self.text_store, query)
    }
}

} // verus!
