//! Values that can be read as text.
use vstd::prelude::*;

verus! {

/// A string-like value: anything that can lend out its text as a `&str`.
pub trait AsText {
    /// The characters of the value.
    spec fn text(&self) -> Seq<char>;

    /// The value's text.
    fn as_text(&self) -> (r: &str)
        ensures
            r@ == self.text(),
    ;
}

impl AsText for str {
    open spec fn text(&self) -> Seq<char> {
        self@
    }

    fn as_text(&self) -> (r: &str) {
        self
    }
}

impl AsText for String {
    open spec fn text(&self) -> Seq<char> {
        self@
    }

    fn as_text(&self) -> (r: &str) {
        self.as_str()
    }
}

impl<'a, T: AsText + ?Sized> AsText for &'a T {
    open spec fn text(&self) -> Seq<char> {
        (**self).text()
    }

    fn as_text(&self) -> (r: &str) {
        (**self).as_text()
    }
}

} // verus!
