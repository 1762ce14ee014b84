//! Type-assisted HTML safety.
//!
//! Text that goes into an HTML document is either raw, and has to be escaped
//! on the way, or already safe, and must not be escaped again. This library
//! keeps the two apart by type. An [`Escaped`] value holds text that is safe
//! as it stands; it comes from escaping raw text or from marking text as safe
//! by hand, and it grows by appending, which escapes what is raw and takes
//! over what is safe. An [`EscapedWriter`] does the same in front of a byte
//! sink.
pub mod encode;
pub mod entities;
pub mod inert;
pub mod sink;
pub mod text;
pub mod utf8;

use vstd::prelude::*;
use vstd::string::StringExecFns;
use vstd::utf8::encode_utf8;
use crate::encode::{
    encode_attribute, encode_attribute_w, encoded, encoded_bytes, lemma_encoded_concat,
};
use crate::inert::{
    is_inert, lemma_inert_concat, lemma_inert_has_no_markup, reference_at,
};
use crate::sink::appended;
pub use crate::sink::{Recorded, Sink, Writer};
pub use crate::text::AsText;

verus! {

/// An escaped string-like value: text that can stand in HTML as it is.
///
/// The only ways to one are `escape`, which encodes, and `safe`, by which
/// the caller vouches for the text. A value remembers whether any part of it
/// was vouched for; one that holds nothing of the kind is harmless text,
/// however it was put together.
pub struct Escaped<T: AsText> {
    inner: T,
    vouched: Ghost<bool>,
}

impl<T: AsText> View for Escaped<T> {
    type V = Seq<char>;

    /// The text that the value holds.
    open spec fn view(&self) -> Seq<char> {
        self.payload().text()
    }
}

impl<T: AsText> Escaped<T> {
    /// The wrapped value.
    pub closed spec fn payload(self) -> T {
        self.inner
    }

    /// Whether some part of the text was marked as safe by hand and not
    /// produced by the encoder.
    pub closed spec fn vouched(self) -> bool {
        self.vouched@
    }

    #[verifier::type_invariant]
    spec fn harmless_or_vouched(self) -> bool {
        self.vouched@ || is_inert(self.inner.text())
    }

    /// Consumes the escaped marker and returns the wrapped value. Unless
    /// part of it was vouched for, the text is harmless.
    pub fn into_inner(self) -> (r: T)
        ensures
            r == self.payload(),
            r.text() == self@,
            !self.vouched() ==> is_inert(r.text()),
    {
        proof {
            use_type_invariant(&self);
        }
        self.inner
    }

    fn as_ref(&self) -> (r: &str)
        ensures
            r@ == self@,
            !self.vouched() ==> is_inert(r@),
    {
        proof {
            use_type_invariant(self);
        }
        self.inner.as_text()
    }
}

/// Values that can be appended to an escaped value.
pub trait Append<T> {
    /// The text that the receiver holds.
    spec fn content(&self) -> Seq<char>;

    /// The safe text that stands for `string`: what appending it adds.
    spec fn addition(string: &T) -> Seq<char>;

    /// Appends `string`. What the receiver held stays as it was.
    fn append_str(&mut self, string: T)
        ensures
            final(self).content() == old(self).content() + Self::addition(&string),
    ;
}

/// Raw text is escaped on its way in.
impl<T: Escapable> Append<T> for Escaped<String> {
    open spec fn content(&self) -> Seq<char> {
        self@
    }

    open spec fn addition(string: &T) -> Seq<char> {
        encoded(string.text())
    }

    fn append_str(&mut self, string: T)
        ensures
            final(self)@ == old(self)@ + encoded(string.text()),
            final(self).vouched() == old(self).vouched(),
    {
        self.append_str(string.escape())
    }
}

/// Escaped text is taken over as it is: it is not escaped a second time.
impl<T: AsText> Append<Escaped<T>> for Escaped<String> {
    open spec fn content(&self) -> Seq<char> {
        self@
    }

    open spec fn addition(string: &Escaped<T>) -> Seq<char> {
        string@
    }

    fn append_str(&mut self, string: Escaped<T>)
        ensures
            final(self)@ == old(self)@ + string@,
            final(self).vouched() == (old(self).vouched() || string.vouched()),
    {
        // The text is taken out while it grows and put back whole.
        let more = string.as_ref();
        let mut text = String::new();
        proof {
            use_type_invariant(&*self);
            if !self.vouched@ && !string.vouched@ {
                lemma_inert_concat(self.inner@, more@);
            }
        }
        core::mem::swap(&mut self.inner, &mut text);
        text.append(more);
        proof {
            self.vouched@ = self.vouched@ || string.vouched@;
        }
        self.inner = text;
    }
}

/// A wrapper for a sink that escapes the text written to it.
pub struct EscapedWriter<T: Sink> {
    inner: T,
}

impl<T: Sink> EscapedWriter<T> {
    /// The wrapped sink.
    pub closed spec fn sink(self) -> T {
        self.inner
    }

    /// Creates a new `EscapedWriter` in front of `inner`.
    pub fn new(inner: T) -> (r: Self)
        ensures
            r.sink() == inner,
    {
        EscapedWriter { inner: inner }
    }

    /// Consumes the writer and returns the wrapped sink, with all that was
    /// written to it.
    pub fn into_inner(self) -> (r: T)
        ensures
            r == self.sink(),
    {
        self.inner
    }
}

/// Values that can be escaped.
///
/// Such a value is escaped by hand, or by appending it to an `Escaped` value
/// or writing it to an `EscapedWriter`. It can also be marked as safe, which
/// exempts it from escaping.
pub trait Escapable: AsText {
    /// Escapes the value and returns the escaped string.
    fn escape(&self) -> (r: Escaped<String>)
        ensures
            r@ == encoded(self.text()),
            !r.vouched(),
            is_inert(r@),
    ;

    /// Marks the value as safe, exempting it from escaping: the result holds
    /// the text unchanged, and `into_inner` gives it back.
    fn safe(&self) -> (r: Escaped<String>)
        ensures
            r@ == self.text(),
            r.payload()@ == self.text(),
            r.vouched(),
    ;
}

impl<T: AsText> Escapable for T {
    fn escape(&self) -> (r: Escaped<String>) {
        Escaped { inner: encode_attribute(self.as_text()), vouched: Ghost(false) }
    }

    fn safe(&self) -> (r: Escaped<String>) {
        Escaped { inner: self.as_text().to_owned(), vouched: Ghost(true) }
    }
}

/// Escaped writing to sinks.
///
/// Implemented by `EscapedWriter` for each kind of value that may be written
/// to it. Whatever the kind, what reaches the sink is the value's safe form.
pub trait EscapedWrite<T> {
    /// What the sink behind the writer reports when a write fails.
    type Failure;

    /// The bytes that have reached the sink.
    spec fn sent(&self) -> Seq<u8>;

    /// Whether the sink vouches that no write to it fails.
    spec fn never_fails(&self) -> bool;

    /// The bytes of the safe form of `value`.
    spec fn safe_bytes(value: &T) -> Seq<u8>;

    /// Writes the safe form of `value` to the sink and returns the sink's
    /// result. After a failure the sink holds a leading part of it.
    fn write_str(&mut self, value: T) -> (r: Result<(), Self::Failure>)
        ensures
            appended(old(self).sent(), final(self).sent(), Self::safe_bytes(&value), r is Ok),
            final(self).never_fails() == old(self).never_fails(),
            old(self).never_fails() ==> r is Ok,
    ;
}

/// Escaped text goes to the sink byte for byte.
impl<X: AsText, W: Sink> EscapedWrite<Escaped<X>> for EscapedWriter<W> {
    type Failure = W::Failure;

    open spec fn sent(&self) -> Seq<u8> {
        self.sink().written()
    }

    open spec fn never_fails(&self) -> bool {
        self.sink().never_fails()
    }

    open spec fn safe_bytes(value: &Escaped<X>) -> Seq<u8> {
        encode_utf8(value@)
    }

    fn write_str(&mut self, value: Escaped<X>) -> (r: Result<(), Self::Failure>) {
        self.inner.write_all(value.as_ref().as_bytes())
    }
}

/// Raw text is escaped while it is written.
impl<X: Escapable, W: Sink> EscapedWrite<X> for EscapedWriter<W> {
    type Failure = W::Failure;

    open spec fn sent(&self) -> Seq<u8> {
        self.sink().written()
    }

    open spec fn never_fails(&self) -> bool {
        self.sink().never_fails()
    }

    open spec fn safe_bytes(value: &X) -> Seq<u8> {
        encoded_bytes(value.text())
    }

    fn write_str(&mut self, value: X) -> (r: Result<(), Self::Failure>) {
        encode_attribute_w(value.as_text(), &mut self.inner)
    }
}

/// Marking a text as safe and unwrapping it again gives the text back,
/// character for character.
pub proof fn lemma_safe_then_into_inner<T: Escapable>(x: T, marked: Escaped<String>, out: String)
    requires
        call_ensures(<T as Escapable>::safe, (&x,), marked),
        call_ensures(Escaped::<String>::into_inner, (marked,), out),
    ensures
        out@ == x.text(),
{
}

/// What `escape` returns is harmless text: unwrapped, it holds no `<`, `>`,
/// quote or `/`, and every `&` in it begins a character reference.
pub proof fn lemma_escape_then_into_inner<T: Escapable>(x: T, escaped: Escaped<String>, out: String)
    requires
        call_ensures(<T as Escapable>::escape, (&x,), escaped),
        call_ensures(Escaped::<String>::into_inner, (escaped,), out),
    ensures
        out@ == encoded(x.text()),
        is_inert(out@),
        forall|at: int|
            0 <= at < out@.len() ==> {
                let c = #[trigger] out@[at];
                &&& c != '<'
                &&& c != '>'
                &&& c != '"'
                &&& c != '\''
                &&& c != '/'
                &&& (c == '&' ==> reference_at(out@, at))
            },
{
    lemma_inert_has_no_markup(out@);
}

/// Appending an escaped value to an escaped value escapes neither again:
/// the result unwraps to the two escaped texts, one after the other, which
/// is also what escaping the joined text gives.
pub proof fn lemma_escaped_append<A: Escapable, B: Escapable>(
    a: A,
    b: B,
    left: &mut Escaped<String>,
    right: Escaped<String>,
    first: String,
    second: String,
    out: String,
)
    requires
        call_ensures(<A as Escapable>::escape, (&a,), *old(left)),
        call_ensures(<B as Escapable>::escape, (&b,), right),
        call_ensures(Escaped::<String>::into_inner, (*old(left),), first),
        call_ensures(Escaped::<String>::into_inner, (right,), second),
        call_ensures(<Escaped<String> as Append<Escaped<String>>>::append_str, (left, right), ()),
        call_ensures(Escaped::<String>::into_inner, (*final(left),), out),
    ensures
        out@ == first@ + second@,
        out@ == encoded(a.text() + b.text()),
{
    lemma_encoded_concat(a.text(), b.text());
}

/// Appending raw text to an escaped value escapes the raw text and nothing
/// else: the result unwraps to the two escaped texts, one after the other,
/// which is also what escaping the joined text gives.
pub proof fn lemma_raw_append<A: Escapable, B: Escapable>(
    a: A,
    b: B,
    left: &mut Escaped<String>,
    right: Escaped<String>,
    first: String,
    second: String,
    out: String,
)
    requires
        call_ensures(<A as Escapable>::escape, (&a,), *old(left)),
        call_ensures(<B as Escapable>::escape, (&b,), right),
        call_ensures(Escaped::<String>::into_inner, (*old(left),), first),
        call_ensures(Escaped::<String>::into_inner, (right,), second),
        call_ensures(<Escaped<String> as Append<B>>::append_str, (left, b), ()),
        call_ensures(Escaped::<String>::into_inner, (*final(left),), out),
    ensures
        out@ == first@ + second@,
        out@ == encoded(a.text() + b.text()),
{
    lemma_encoded_concat(a.text(), b.text());
}

} // verus!
