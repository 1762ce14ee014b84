//! The entity encoder: text in, HTML-safe text out.
//!
//! Each character is looked at on its own. One that the entity table names is
//! replaced by the table's text. Any other character of the Latin-1 range that
//! is not an ASCII letter or digit is replaced by a hexadecimal character
//! reference. Every other character stays as it is.
use vstd::prelude::*;
use vstd::string::StringSliceAdditionalSpecFns;
use vstd::utf8::*;
use crate::entities::{
    entity_of, has_entity, is_entry, keys_ascend, lemma_entities, lemma_entry_is_entity,
    lemma_table_ascends, MINIMAL_ENTITIES,
};
use crate::inert::{is_inert, lemma_encoded_is_inert};
use crate::sink::{appended, lemma_appended_extends, Sink};
use crate::utf8::{
    lemma_prefix_is_boundary, lemma_utf8_ascii, lemma_utf8_concat, lemma_utf8_injective,
    lemma_utf8_not_shorter, lemma_utf8_single, lemma_utf8_window, utf8_width,
};

verus! {

/// The digits of a hexadecimal character reference, by value.
pub const HEX_DIGITS: [char; 16] = [
    '0', '1', '2', '3', '4', '5', '6', '7', '8', '9', 'A', 'B', 'C', 'D', 'E', 'F',
];

/// `c` is an ASCII letter or digit.
pub open spec fn is_alnum(c: char) -> bool {
    ('a' <= c && c <= 'z') || ('A' <= c && c <= 'Z') || ('0' <= c && c <= '9')
}

/// `c`, if the table does not name it, is written as a hexadecimal
/// reference: it lies in the Latin-1 range and is no ASCII letter or digit.
pub open spec fn needs_hex(c: char) -> bool {
    (c as u32) < 256 && ((c as u32) > 127 || !is_alnum(c))
}

/// `c` is replaced by a character reference when text is encoded.
pub open spec fn is_replaced(c: char) -> bool {
    has_entity(c) || needs_hex(c)
}

/// `c` is a letter or digit of ASCII, or lies beyond Latin-1: it cannot end
/// an attribute value or begin markup.
pub open spec fn is_plain(c: char) -> bool {
    is_alnum(c) || (c as u32) >= 256
}

/// The hexadecimal reference for a character of the Latin-1 range: `&#x`,
/// two upper-case digits, `;`.
pub open spec fn hex_escape(c: char) -> Seq<char> {
    seq![
        '&',
        '#',
        'x',
        HEX_DIGITS[(c as u32 / 16) as int],
        HEX_DIGITS[(c as u32 % 16) as int],
        ';',
    ]
}

/// What one character becomes. The table is asked first, so a character
/// that it names never gets a hexadecimal reference.
pub open spec fn encoded_char(c: char) -> Seq<char> {
    match entity_of(c) {
        Some(entity) => entity,
        None => if needs_hex(c) {
            hex_escape(c)
        } else {
            seq![c]
        },
    }
}

/// What a text becomes: what its characters become, in order.
pub open spec fn encoded(text: Seq<char>) -> Seq<char>
    decreases text.len(),
{
    if text.len() == 0 {
        Seq::empty()
    } else {
        encoded(text.drop_last()) + encoded_char(text.last())
    }
}

/// The encoded text as the bytes that a sink receives.
pub open spec fn encoded_bytes(text: Seq<char>) -> Seq<u8> {
    encode_utf8(encoded(text))
}

/// Encoding a text with one more character adds what that character becomes.
pub proof fn lemma_encoded_push(text: Seq<char>, c: char)
    ensures
        encoded(text.push(c)) == encoded(text) + encoded_char(c),
{
    assert(text.push(c).drop_last() =~= text);
}

/// Encoding goes piece by piece: the encoded form of two joined texts is
/// their encoded forms joined. Nothing that is already encoded is touched
/// when more text follows.
pub proof fn lemma_encoded_concat(a: Seq<char>, b: Seq<char>)
    ensures
        encoded(a + b) == encoded(a) + encoded(b),
        encoded_bytes(a + b) == encoded_bytes(a) + encoded_bytes(b),
    decreases b.len(),
{
    if b.len() == 0 {
        assert(a + b =~= a);
        assert(encoded(a) + encoded(b) =~= encoded(a));
    } else {
        assert((a + b).drop_last() =~= a + b.drop_last());
        lemma_encoded_concat(a, b.drop_last());
        assert(encoded(a + b) =~= encoded(a) + encoded(b));
    }
    lemma_utf8_concat(encoded(a), encoded(b));
}

/// The text of one character is encoded as that character is.
pub proof fn lemma_encoded_single(c: char)
    ensures
        encoded(seq![c]) == encoded_char(c),
{
    lemma_encoded_push(Seq::empty(), c);
    assert(Seq::<char>::empty().push(c) =~= seq![c]);
    assert(encoded(Seq::<char>::empty()) + encoded_char(c) =~= encoded_char(c));
}

/// A character that the table names becomes the table's text, also where
/// the hexadecimal rule would apply to it.
pub proof fn lemma_entity_first(c: char)
    requires
        has_entity(c),
    ensures
        entity_of(c) is Some,
        encoded(seq![c]) == entity_of(c)->0,
{
    lemma_encoded_single(c);
}

/// What one character becomes is the character itself, if it is plain, or a
/// reference: an `&`, then at least three characters that are plain or one
/// of `#` and `;`.
pub proof fn lemma_encoded_char_shape(c: char)
    ensures
        !is_replaced(c) ==> is_plain(c) && encoded_char(c) == seq![c],
        is_replaced(c) ==> ({
            let part = encoded_char(c);
            &&& (c as u32) < 256
            &&& part.len() >= 4
            &&& part[0] == '&'
            &&& forall|k: int|
                1 <= k < part.len() ==> (is_plain(#[trigger] part[k]) || part[k] == '#' || part[k]
                    == ';')
        }),
{
    lemma_entities(c);
    if !has_entity(c) && needs_hex(c) {
        let part = hex_escape(c);
        let high = (c as u32 / 16) as int;
        let low = (c as u32 % 16) as int;
        assert(0 <= high < 16 && 0 <= low < 16);
        assert(forall|d: int| 0 <= d < 16 ==> is_alnum(#[trigger] HEX_DIGITS[d]));
        assert(is_plain(part[3]));
        assert(is_plain(part[4]));
        assert(is_plain(part[2]));
    }
}

/// Encoding never shortens: the encoded text has at least as many
/// characters as the text, and at least as many bytes.
pub proof fn lemma_encoded_not_shorter(text: Seq<char>)
    ensures
        encoded(text).len() >= text.len(),
        encoded_bytes(text).len() >= encode_utf8(text).len(),
    decreases text.len(),
{
    if text.len() > 0 {
        let front = text.drop_last();
        let c = text.last();
        lemma_encoded_not_shorter(front);
        lemma_encoded_char_shape(c);
        assert(text =~= front + seq![c]);
        lemma_utf8_concat(front, seq![c]);
        lemma_utf8_single(c);
        lemma_utf8_concat(encoded(front), encoded_char(c));
        lemma_utf8_not_shorter(encoded_char(c));
    }
}

/// Whether `c` is an ASCII letter or digit.
pub fn is_ascii_alnum(c: char) -> (r: bool)
    ensures
        r == is_alnum(c),
{
    (c >= 'a' && c <= 'z') || (c >= 'A' && c <= 'Z') || (c >= '0' && c <= '9')
}

/// Looks `c` up in the table by halving the range in which its entry could
/// stand.
pub fn get_entity(c: char) -> (r: Option<&'static str>)
    ensures
        r is Some <==> has_entity(c),
        match r {
            Some(e) => entity_of(c) == Some(e@),
            None => entity_of(c) is None,
        },
{
    let mut low: usize = 0;
    let mut high: usize = MINIMAL_ENTITIES.len();
    proof {
        lemma_table_ascends();
    }
    while low < high
        invariant
            low <= high <= MINIMAL_ENTITIES@.len(),
            keys_ascend(MINIMAL_ENTITIES@),
            forall|i: int| 0 <= i < low ==> (#[trigger] MINIMAL_ENTITIES@[i]).0 < c,
            forall|i: int| high <= i < MINIMAL_ENTITIES@.len() ==> c < (#[trigger] MINIMAL_ENTITIES@[i]).0,
        decreases high - low,
    {
        let middle = low + (high - low) / 2;
        let (key, text) = MINIMAL_ENTITIES[middle];
        if key == c {
            proof {
                lemma_entry_is_entity(middle as int, c);
            }
            return Some(text);
        } else if key < c {
            low = middle + 1;
        } else {
            high = middle;
        }
    }
    assert forall|i: int| !is_entry(i, c) by {
        if 0 <= i < MINIMAL_ENTITIES@.len() {
            let e = MINIMAL_ENTITIES@[i];
            assert(e.0 != c);
        }
    }
    None
}

/// Writes the hexadecimal reference for `c` to `writer`.
pub fn write_hex<W: Sink>(writer: &mut W, c: char) -> (r: Result<(), W::Failure>)
    requires
        (c as u32) < 256,
    ensures
        appended(old(writer).written(), final(writer).written(), encode_utf8(hex_escape(c)), r is Ok),
        final(writer).never_fails() == old(writer).never_fails(),
        old(writer).never_fails() ==> r is Ok,
{
    let n: u8 = c as u8;
    let high: usize = ((n & 0xF0) >> 4) as usize;
    let low: usize = (n & 0x0F) as usize;
    assert(high == n / 16 && low == n % 16) by (bit_vector)
        requires
            high == ((n & 0xF0) >> 4) as usize,
            low == (n & 0x0F) as usize,
    ;
    let bytes: [u8; 6] = [
        '&' as u8,
        '#' as u8,
        'x' as u8,
        HEX_DIGITS[high] as u8,
        HEX_DIGITS[low] as u8,
        ';' as u8,
    ];
    proof {
        let text = hex_escape(c);
        assert(is_ascii_chars(text));
        lemma_utf8_ascii(text);
        assert(bytes@ =~= encode_utf8(text));
    }
    writer.write_all(&bytes)
}

/// Writes the bytes of `s` from `marker` up to `pos`, a run of whole
/// characters, to `writer`.
pub fn flush<W: Sink>(s: &str, marker: usize, pos: usize, writer: &mut W) -> (r: Result<
    (),
    W::Failure,
>)
    requires
        marker <= pos <= s.spec_bytes().len(),
        is_char_boundary(s.spec_bytes(), marker as int),
        is_char_boundary(s.spec_bytes(), pos as int),
    ensures
        appended(
            old(writer).written(),
            final(writer).written(),
            s.spec_bytes().subrange(marker as int, pos as int),
            r is Ok,
        ),
        final(writer).never_fails() == old(writer).never_fails(),
        old(writer).never_fails() ==> r is Ok,
{
    let bytes = s.as_bytes();
    writer.write_all(&bytes[marker..pos])
}

/// Where the streaming encoder stands between two characters: `index`
/// characters are dealt with, those before `run` have reached the sink in
/// their encoded form, and those from `run` on stay as they are and wait to
/// be written in one piece.
spec fn streaming(text: Seq<char>, run: int, index: int) -> bool {
    &&& 0 <= run <= index <= text.len()
    &&& encoded(text.take(index)) == encoded(text.take(run)) + text.subrange(run, index)
}

/// The waiting run, as bytes of the input: it lies between two character
/// boundaries, and writing it brings the sink up to `index`.
proof fn lemma_run(text: Seq<char>, run: int, index: int)
    requires
        streaming(text, run, index),
    ensures
        encode_utf8(text.take(run)).len() <= encode_utf8(text.take(index)).len() <= encode_utf8(
            text,
        ).len(),
        is_char_boundary(encode_utf8(text), encode_utf8(text.take(run)).len() as int),
        is_char_boundary(encode_utf8(text), encode_utf8(text.take(index)).len() as int),
        encoded_bytes(text.take(index)) == encoded_bytes(text.take(run)) + encode_utf8(text).subrange(
            encode_utf8(text.take(run)).len() as int,
            encode_utf8(text.take(index)).len() as int,
        ),
{
    lemma_utf8_window(text, run, index);
    lemma_prefix_is_boundary(text, run);
    lemma_prefix_is_boundary(text, index);
    lemma_utf8_concat(encoded(text.take(run)), text.subrange(run, index));
}

/// One character further: where it ends in the input, and what it adds to
/// the encoded text.
proof fn lemma_next(text: Seq<char>, index: int)
    requires
        0 <= index < text.len(),
    ensures
        encode_utf8(text.take(index + 1)).len() == encode_utf8(text.take(index)).len()
            + encode_scalar(text[index] as u32).len(),
        encode_utf8(text.take(index + 1)).len() <= encode_utf8(text).len(),
        encoded(text.take(index + 1)) == encoded(text.take(index)) + encoded_char(text[index]),
        encoded_bytes(text.take(index + 1)) == encoded_bytes(text.take(index)) + encode_utf8(
            encoded_char(text[index]),
        ),
{
    let c = text[index];
    assert(text.take(index + 1) =~= text.take(index).push(c));
    lemma_encoded_push(text.take(index), c);
    lemma_utf8_window(text, index, index + 1);
    assert(text.subrange(index, index + 1) =~= seq![c]);
    lemma_utf8_single(c);
    lemma_utf8_concat(encoded(text.take(index)), encoded_char(c));
}

/// A character that stays as it is joins the waiting run.
proof fn lemma_keep(text: Seq<char>, run: int, index: int)
    requires
        streaming(text, run, index),
        index < text.len(),
        encoded_char(text[index]) == seq![text[index]],
    ensures
        streaming(text, run, index + 1),
{
    lemma_next(text, index);
    assert(text.subrange(run, index + 1) =~= text.subrange(run, index).push(text[index]));
    assert(encoded(text.take(index + 1)) =~= encoded(text.take(run)) + text.subrange(run, index + 1));
}

/// After a replacement nothing waits.
proof fn lemma_restart(text: Seq<char>, index: int)
    requires
        0 <= index <= text.len(),
    ensures
        streaming(text, index, index),
{
    assert(encoded(text.take(index)) + text.subrange(index, index) =~= encoded(text.take(index)));
}

/// One write of the streaming encoder. The sink held the encoded form of the
/// first `from` characters, and `data` is what brings it up to `to`. If the
/// write went through, the sink holds the encoded form of the first `to`
/// characters; if not, what it holds is still a leading part of the whole
/// encoded text.
proof fn lemma_wrote(
    text: Seq<char>,
    start: Seq<u8>,
    from: int,
    to: int,
    data: Seq<u8>,
    now: Seq<u8>,
    complete: bool,
)
    requires
        0 <= from <= to <= text.len(),
        encoded_bytes(text.take(to)) == encoded_bytes(text.take(from)) + data,
        appended(start + encoded_bytes(text.take(from)), now, data, complete),
    ensures
        complete ==> now == start + encoded_bytes(text.take(to)),
        !complete ==> appended(start, now, encoded_bytes(text), false),
{
    let rest = encoded_bytes(text.skip(to));
    assert(text =~= text.take(to) + text.skip(to));
    lemma_encoded_concat(text.take(to), text.skip(to));
    lemma_appended_extends(start, encoded_bytes(text.take(from)), data, rest, now, complete);
}

/// Encodes `s` and streams the result into `writer`.
///
/// Characters that stay as they are are not written one by one: the encoder
/// remembers where the current run of them began and hands the whole run to
/// the sink just before the next replacement, and once more at the end. The
/// first failure of the sink ends the encoding and is returned as it is;
/// what the sink has taken by then is a leading part of the encoded text.
pub fn encode_attribute_w<W: Sink>(s: &str, writer: &mut W) -> (r: Result<(), W::Failure>)
    ensures
        appended(old(writer).written(), final(writer).written(), encoded_bytes(s@), r is Ok),
        final(writer).never_fails() == old(writer).never_fails(),
        old(writer).never_fails() ==> r is Ok,
{
    let end: usize = s.as_bytes().len();
    let mut marker: usize = 0;
    let mut flushed = false;
    let mut pos: usize = 0;
    let ghost start = writer.written();
    let ghost text = s@;
    let ghost mut run: int = 0;
    proof {
        lemma_restart(text, 0);
        assert(text.take(0) =~= Seq::<char>::empty());
        assert(start + encoded_bytes(text.take(0)) =~= start);
    }
    for c in it: s.chars()
        invariant
            it.seq() == text,
            text == s@,
            start == old(writer).written(),
            end == encode_utf8(text).len(),
            streaming(text, run, it.index() as int),
            pos == encode_utf8(text.take(it.index() as int)).len(),
            flushed ==> run == it.index(),
            !flushed ==> marker == encode_utf8(text.take(run)).len(),
            writer.written() == start + encoded_bytes(text.take(run)),
            writer.never_fails() == old(writer).never_fails(),
    {
        let ghost index = it.index() as int;
        if flushed {
            marker = pos;
            flushed = false;
        }
        proof {
            lemma_run(text, run, index);
            lemma_next(text, index);
        }
        let ghost waiting = s.spec_bytes().subrange(marker as int, pos as int);
        let ghost piece = encode_utf8(encoded_char(c));
        let b: u32 = c as u32;
        match get_entity(c) {
            Some(entity) => {
                let flush_result = flush(s, marker, pos, writer);
                proof {
                    lemma_wrote(text, start, run, index, waiting, writer.written(), flush_result is Ok);
                }
                match flush_result {
                    Ok(()) => {},
                    Err(e) => {
                        return Err(e);
                    },
                }
                flushed = true;
                let write_result = writer.write_all(entity.as_bytes());
                proof {
                    lemma_wrote(text, start, index, index + 1, piece, writer.written(), write_result is Ok);
                    lemma_restart(text, index + 1);
                    run = index + 1;
                }
                match write_result {
                    Ok(()) => {},
                    Err(e) => {
                        return Err(e);
                    },
                }
            },
            None => {
                if b < 256 && (b > 127 || !is_ascii_alnum(c)) {
                    let flush_result = flush(s, marker, pos, writer);
                    proof {
                        lemma_wrote(text, start, run, index, waiting, writer.written(), flush_result is Ok);
                    }
                    match flush_result {
                        Ok(()) => {},
                        Err(e) => {
                            return Err(e);
                        },
                    }
                    flushed = true;
                    let write_result = write_hex(writer, c);
                    proof {
                        lemma_wrote(text, start, index, index + 1, piece, writer.written(), write_result is Ok);
                        lemma_restart(text, index + 1);
                        run = index + 1;
                    }
                    match write_result {
                        Ok(()) => {},
                        Err(e) => {
                            return Err(e);
                        },
                    }
                } else {
                    proof {
                        lemma_keep(text, run, index);
                    }
                }
            },
        }
        pos = pos + utf8_width(c);
    }
    if !flushed {
        proof {
            assert(text.take(text.len() as int) =~= text);
            lemma_run(text, run, text.len() as int);
        }
        let ghost waiting = s.spec_bytes().subrange(marker as int, end as int);
        let flush_result = flush(s, marker, end, writer);
        proof {
            lemma_wrote(text, start, run, text.len() as int, waiting, writer.written(), flush_result is Ok);
        }
        return flush_result;
    }
    proof {
        assert(text.take(text.len() as int) =~= text);
    }
    Ok(())
}

/// Encodes `s` into a new string.
///
/// The text goes through the streaming encoder into a buffer in memory, so
/// its bytes are exactly what `encode_attribute_w` hands to a sink.
pub fn encode_attribute(s: &str) -> (r: String)
    ensures
        r@ == encoded(s@),
        encode_utf8(r@) == encoded_bytes(s@),
        is_inert(r@),
        encode_utf8(r@).len() >= encode_utf8(s@).len(),
{
    proof {
        lemma_encoded_is_inert(s@);
        lemma_encoded_not_shorter(s@);
    }
    let mut writer: Vec<u8> = Vec::with_capacity(s.len());
    match encode_attribute_w(s, &mut writer) {
        Err(_) => vstd::pervasive::unreached(),
        Ok(_) => {
            proof {
                assert(writer@ =~= encoded_bytes(s@));
                encode_utf8_valid_utf8(encoded(s@));
            }
            match String::from_utf8(writer) {
                Ok(text) => {
                    proof {
                        lemma_utf8_injective(text@, encoded(s@));
                    }
                    text
                },
                Err(_) => vstd::pervasive::unreached(),
            }
        },
    }
}

/// Streaming and building a string come to the same bytes: where the
/// streaming encoder succeeds, the sink has grown by exactly the bytes of
/// the string that `encode_attribute` returns for the same text; and it
/// succeeds on every sink that never fails.
pub proof fn lemma_streaming_matches_string<W: Sink>(
    s: &str,
    writer: &mut W,
    streamed: Result<(), W::Failure>,
    built: String,
)
    requires
        call_ensures(encode_attribute_w::<W>, (s, writer), streamed),
        call_ensures(encode_attribute, (s,), built),
    ensures
        streamed is Ok ==> final(writer).written() == old(writer).written() + encode_utf8(built@),
        appended(old(writer).written(), final(writer).written(), encode_utf8(built@), streamed is Ok),
        old(writer).never_fails() ==> streamed is Ok,
{
}

} // verus!
