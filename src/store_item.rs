use vstd::prelude::*;

verus! {

/// A stored record that exposes the text it is searched and ordered by.
pub trait Item {
    /// The record's text, as characters.
    spec fn text_view(&self) -> Seq<char>;

    /// Borrows the record's text; the same text on every call.
    fn get_text(&self) -> (r: &str)
        ensures
            r@ == self.text_view(),
    ;
}

impl Item for String {
    open spec fn text_view(&self) -> Seq<char> {
        self@
    }

    fn get_text(&self) -> (r: &str) {
        self.as_str()
    }
}

impl<'s> Item for &'s str {
    open spec fn text_view(&self) -> Seq<char> {
        (**self)@
    }

    fn get_text(&self) -> (r: &str) {
        *self
    }
}

/// The records that a sequence of references points at.
pub open spec fn records<I>(refs: Seq<&I>) -> Seq<I> {
    refs.map_values(|r: &I| *r)
}

} // verus!
