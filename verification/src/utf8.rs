//! Facts about UTF-8 that the encoder's proofs rest on, and the width of a
//! character's encoding.
use vstd::prelude::*;
use vstd::utf8::*;

verus! {

/// `std::string::FromUtf8Error`, which `String::from_utf8` returns for bytes
/// that are not UTF-8. Nothing is read from it.
#[verifier::external_type_specification]
#[verifier::external_body]
pub struct ExFromUtf8Error(std::string::FromUtf8Error);

/// `String::from_utf8` of the standard library. It is taken to return a
/// string exactly when the bytes are valid UTF-8, and the string then has
/// those bytes as its encoding.
pub assume_specification[ String::from_utf8 ](vec: Vec<u8>) -> (r: Result<
    String,
    std::string::FromUtf8Error,
>)
    ensures
        r is Ok <==> valid_utf8(vec@),
        r matches Ok(s) ==> encode_utf8(s@) == vec@,
;

/// The number of bytes that `c` takes in UTF-8.
pub fn utf8_width(c: char) -> (n: usize)
    ensures
        n == encode_scalar(c as u32).len(),
        1 <= n <= 4,
{
    let code: u32 = c as u32;
    if code < 0x80 {
        1
    } else if code < 0x800 {
        2
    } else if code < 0x10000 {
        3
    } else {
        4
    }
}

/// Encoding joins: the bytes of two texts side by side are the bytes of the
/// joined text.
pub proof fn lemma_utf8_concat(a: Seq<char>, b: Seq<char>)
    ensures
        encode_utf8(a + b) == encode_utf8(a) + encode_utf8(b),
    decreases a.len(),
{
    if a.len() == 0 {
        assert(a + b =~= b);
        assert(encode_utf8(a) + encode_utf8(b) =~= encode_utf8(b));
    } else {
        assert((a + b).drop_first() =~= a.drop_first() + b);
        lemma_utf8_concat(a.drop_first(), b);
        assert(encode_utf8(a + b) =~= encode_utf8(a) + encode_utf8(b));
    }
}

/// The bytes of a text of one character are that character's encoding.
pub proof fn lemma_utf8_single(c: char)
    ensures
        encode_utf8(seq![c]) == encode_scalar(c as u32),
{
    let t = seq![c];
    assert(t.drop_first() =~= Seq::<char>::empty());
    assert(encode_utf8(t.drop_first()) =~= Seq::<u8>::empty());
    assert(encode_utf8(t) =~= encode_scalar(c as u32));
}

/// The bytes of the characters from `from` up to `to` stand in the encoded
/// text between the lengths of the two encoded prefixes.
pub proof fn lemma_utf8_window(t: Seq<char>, from: int, to: int)
    requires
        0 <= from <= to <= t.len(),
    ensures
        encode_utf8(t.take(from)).len() <= encode_utf8(t.take(to)).len() <= encode_utf8(t).len(),
        encode_utf8(t).subrange(
            encode_utf8(t.take(from)).len() as int,
            encode_utf8(t.take(to)).len() as int,
        ) == encode_utf8(t.subrange(from, to)),
        encode_utf8(t.take(to)) == encode_utf8(t.take(from)) + encode_utf8(t.subrange(from, to)),
{
    let head = t.take(from);
    let mid = t.subrange(from, to);
    let tail = t.skip(to);
    assert(t.take(to) =~= head + mid);
    assert(t =~= t.take(to) + tail);
    lemma_utf8_concat(head, mid);
    lemma_utf8_concat(t.take(to), tail);
    assert(encode_utf8(t).subrange(encode_utf8(head).len() as int, encode_utf8(t.take(to)).len() as int)
        =~= encode_utf8(mid));
}

/// The encoded length of a prefix of a text falls on a character boundary of
/// the encoded text.
pub proof fn lemma_prefix_is_boundary(t: Seq<char>, k: int)
    requires
        0 <= k <= t.len(),
    ensures
        is_char_boundary(encode_utf8(t), encode_utf8(t.take(k)).len() as int),
    decreases k,
{
    let bytes = encode_utf8(t);
    encode_utf8_valid_utf8(t);
    if k == 0 {
        assert(t.take(0) =~= Seq::<char>::empty());
    } else {
        let rest = t.drop_first();
        encode_utf8_first_scalar(t);
        assert(pop_first_scalar(bytes) =~= encode_utf8(rest));
        assert(t.take(k).drop_first() =~= rest.take(k - 1));
        assert(encode_utf8(t.take(k)).len() == encode_scalar(t[0] as u32).len() + encode_utf8(
            rest.take(k - 1),
        ).len());
        lemma_prefix_is_boundary(rest, k - 1);
        lemma_utf8_window(t, 0, k);
    }
}

/// A text of ASCII characters is encoded one byte per character, each the
/// character's code.
pub proof fn lemma_utf8_ascii(t: Seq<char>)
    requires
        is_ascii_chars(t),
    ensures
        encode_utf8(t) == Seq::new(t.len(), |i: int| t[i] as u8),
{
    is_ascii_chars_encode_utf8(t);
    assert(encode_utf8(t) =~= Seq::new(t.len(), |i: int| t[i] as u8));
}

/// Every character takes at least one byte.
pub proof fn lemma_utf8_not_shorter(t: Seq<char>)
    ensures
        encode_utf8(t).len() >= t.len(),
    decreases t.len(),
{
    if t.len() > 0 {
        lemma_utf8_not_shorter(t.drop_first());
    }
}

/// Two texts with the same bytes are the same text.
pub proof fn lemma_utf8_injective(a: Seq<char>, b: Seq<char>)
    requires
        encode_utf8(a) == encode_utf8(b),
    ensures
        a == b,
{
    encode_utf8_decode_utf8(a);
    encode_utf8_decode_utf8(b);
}

} // verus!
