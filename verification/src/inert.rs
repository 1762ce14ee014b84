//! Why encoded text is safe to place in HTML.
//!
//! Encoded text is made of characters that mean nothing to an HTML parser and
//! of complete character references. In particular it holds no `<`, `>` or
//! quote, and every `&` in it begins a reference.
use vstd::prelude::*;
use crate::encode::{encoded, encoded_char, is_plain, is_replaced, lemma_encoded_char_shape};

verus! {

/// `part` stands in `text` at `at`.
pub open spec fn holds_at(text: Seq<char>, at: int, part: Seq<char>) -> bool {
    0 <= at && at + part.len() <= text.len() && text.subrange(at, at + part.len()) == part
}

/// A complete character reference, as the encoder writes them, begins at
/// `at`.
pub open spec fn reference_at(text: Seq<char>, at: int) -> bool {
    exists|c: char| is_replaced(c) && #[trigger] holds_at(text, at, encoded_char(c))
}

/// The character at `at` is harmless where it stands: an `&` begins a
/// reference, and anything else is plain or one of `#` and `;`.
pub open spec fn inert_at(text: Seq<char>, at: int) -> bool {
    if text[at] == '&' {
        reference_at(text, at)
    } else {
        is_plain(text[at]) || text[at] == '#' || text[at] == ';'
    }
}

/// Every character of `text` is harmless where it stands.
pub open spec fn is_inert(text: Seq<char>) -> bool {
    forall|at: int| 0 <= at < text.len() ==> inert_at(text, at)
}

/// Harmless text stays harmless when what a character becomes is put behind
/// it.
proof fn lemma_inert_extend(text: Seq<char>, c: char)
    requires
        is_inert(text),
    ensures
        is_inert(text + encoded_char(c)),
{
    let part = encoded_char(c);
    let whole = text + part;
    lemma_encoded_char_shape(c);
    assert forall|at: int| 0 <= at < whole.len() implies inert_at(whole, at) by {
        if at < text.len() {
            assert(inert_at(text, at));
            assert(whole[at] == text[at]);
            if text[at] == '&' {
                let w = choose|w: char| is_replaced(w) && #[trigger] holds_at(text, at, encoded_char(w));
                let known = encoded_char(w);
                assert(whole.subrange(at, at + known.len()) =~= text.subrange(at, at + known.len()));
                assert(holds_at(whole, at, known));
            }
        } else {
            let k = at - text.len();
            assert(whole[at] == part[k]);
            if is_replaced(c) {
                if k == 0 {
                    assert(whole.subrange(at, at + part.len()) =~= part);
                    assert(holds_at(whole, at, part));
                } else {
                    assert(is_plain(part[k]) || part[k] == '#' || part[k] == ';');
                    assert(part[k] != '&');
                }
            } else {
                assert(k == 0);
                assert(part[0] == c);
            }
        }
    }
}

/// Encoded text is harmless, whatever was encoded.
pub proof fn lemma_encoded_is_inert(text: Seq<char>)
    ensures
        is_inert(encoded(text)),
    decreases text.len(),
{
    if text.len() > 0 {
        lemma_encoded_is_inert(text.drop_last());
        lemma_inert_extend(encoded(text.drop_last()), text.last());
    }
}

/// Two harmless texts side by side are harmless.
pub proof fn lemma_inert_concat(a: Seq<char>, b: Seq<char>)
    requires
        is_inert(a),
        is_inert(b),
    ensures
        is_inert(a + b),
{
    let whole = a + b;
    assert forall|at: int| 0 <= at < whole.len() implies inert_at(whole, at) by {
        if at < a.len() {
            assert(inert_at(a, at));
            if a[at] == '&' {
                let w = choose|w: char| is_replaced(w) && #[trigger] holds_at(a, at, encoded_char(w));
                let known = encoded_char(w);
                assert(whole.subrange(at, at + known.len()) =~= a.subrange(at, at + known.len()));
                assert(holds_at(whole, at, known));
            }
        } else {
            let k = at - a.len();
            assert(inert_at(b, k));
            assert(whole[at] == b[k]);
            if b[k] == '&' {
                let w = choose|w: char| is_replaced(w) && #[trigger] holds_at(b, k, encoded_char(w));
                let known = encoded_char(w);
                assert(whole.subrange(at, at + known.len()) =~= b.subrange(k, k + known.len()));
                assert(holds_at(whole, at, known));
            }
        }
    }
}

/// Harmless text holds none of the characters that begin or end markup or
/// end a quoted attribute value, and every `&` in it begins a reference.
pub proof fn lemma_inert_has_no_markup(text: Seq<char>)
    requires
        is_inert(text),
    ensures
        forall|at: int|
            0 <= at < text.len() ==> {
                let c = #[trigger] text[at];
                &&& c != '<'
                &&& c != '>'
                &&& c != '"'
                &&& c != '\''
                &&& c != '/'
                &&& (c == '&' ==> reference_at(text, at))
            },
{
    assert forall|at: int| 0 <= at < text.len() implies {
        let c = #[trigger] text[at];
        &&& c != '<'
        &&& c != '>'
        &&& c != '"'
        &&& c != '\''
        &&& c != '/'
        &&& (c == '&' ==> reference_at(text, at))
    } by {
        assert(inert_at(text, at));
    }
}

} // verus!
