use vstd::prelude::*;

use crate::store_item::Item;

verus! {

/// A read-only, randomly indexable sequence of records, sorted by text.
pub trait TextStore {
    type Item: Item;

    /// The records, in store order.
    spec fn items(&self) -> Seq<Self::Item>;

    /// Returns the record at `pos`, or `None` past the end.
    fn get_at(&self, pos: usize) -> (r: Option<&Self::Item>)
        ensures
            match r {
                Some(it) => pos < self.items().len() && *it == self.items()[pos as int],
                None => pos >= self.items().len(),
            },
    ;

    /// Returns the number of records.
    fn len(&self) -> (r: usize)
        ensures
            r == self.items().len(),
    ;
}

impl<T: Item> TextStore for Vec<T> {
    type Item = T;

    open spec fn items(&self) -> Seq<T> {
        self@
    }

    fn get_at(&self, pos: usize) -> (r: Option<&T>) {
        if pos < self.len() {
            Some(&self[pos])
        } else {
            None
        }
    }

    fn len(&self) -> (r: usize) {
        self.len()
    }
}

} // verus!
