//! Access to the characters of a text by their position.

use vstd::prelude::*;

verus! {

/// Texts whose characters can be had by position.
pub trait StringSubscription {
    /// The characters of the text, in order.
    spec fn characters(&self) -> Seq<char>;

    /// The character at position `pos`, counted from 0. Takes time in
    /// proportion to `pos`.
    fn ch(&self, pos: usize) -> (c: char)
        requires
            pos < self.characters().len(),
        ensures
            c == self.characters()[pos as int],
    ;
}

impl StringSubscription for String {
    open spec fn characters(&self) -> Seq<char> {
        self@
    }

    fn ch(&self, pos: usize) -> (c: char) {
        self.as_str().get_char(pos)
    }
}

} // verus!
