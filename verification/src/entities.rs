//! The table of named entities.
//!
//! Each entry pairs a character with the text that replaces it in HTML. The
//! entries are in ascending order of code point and no character has two of
//! them, so a lookup can halve the table at every step.
use vstd::prelude::*;

verus! {

/// The characters that break out of markup or of an attribute value, each
/// with its replacement.
pub const MINIMAL_ENTITIES: [(char, &'static str); 6] = [
    ('"', "&quot;"),
    ('&', "&amp;"),
    ('\'', "&#x27;"),
    ('/', "&#x2F;"),
    ('<', "&lt;"),
    ('>', "&gt;"),
];

/// The keys of `table` ascend strictly; no key occurs twice.
pub open spec fn keys_ascend(table: Seq<(char, &'static str)>) -> bool {
    forall|i: int, j: int| 0 <= i < j < table.len() ==> (#[trigger] table[i]).0 < (#[trigger] table[j]).0
}

/// Entry `i` of the table is the one for `c`.
pub open spec fn is_entry(i: int, c: char) -> bool {
    0 <= i < MINIMAL_ENTITIES@.len() && MINIMAL_ENTITIES[i].0 == c
}

/// The table has an entry for `c`.
pub open spec fn has_entity(c: char) -> bool {
    exists|i: int| is_entry(i, c)
}

/// The replacement text that the table gives for `c`, if it has one.
pub open spec fn entity_of(c: char) -> Option<Seq<char>> {
    if has_entity(c) {
        Some(MINIMAL_ENTITIES[choose|i: int| is_entry(i, c)].1@)
    } else {
        None
    }
}

/// The table is sorted by code point, without duplicates.
pub proof fn lemma_table_ascends()
    ensures
        keys_ascend(MINIMAL_ENTITIES@),
{
}

/// An entry found at any index is the entry that `entity_of` speaks of.
pub proof fn lemma_entry_is_entity(i: int, c: char)
    requires
        is_entry(i, c),
    ensures
        has_entity(c),
        entity_of(c) == Some(MINIMAL_ENTITIES[i].1@),
{
    lemma_table_ascends();
    let j = choose|j: int| is_entry(j, c);
    let table = MINIMAL_ENTITIES@;
    if i < j {
        assert(table[i].0 < table[j].0);
    } else if j < i {
        assert(table[j].0 < table[i].0);
    }
}

/// The table, entry by entry: which characters it names, and the text it
/// gives each.
pub proof fn lemma_entities(c: char)
    ensures
        has_entity(c) <==> (c == '"' || c == '&' || c == '\'' || c == '/' || c == '<' || c == '>'),
        c == '"' ==> entity_of(c) == Some(seq!['&', 'q', 'u', 'o', 't', ';']),
        c == '&' ==> entity_of(c) == Some(seq!['&', 'a', 'm', 'p', ';']),
        c == '\'' ==> entity_of(c) == Some(seq!['&', '#', 'x', '2', '7', ';']),
        c == '/' ==> entity_of(c) == Some(seq!['&', '#', 'x', '2', 'F', ';']),
        c == '<' ==> entity_of(c) == Some(seq!['&', 'l', 't', ';']),
        c == '>' ==> entity_of(c) == Some(seq!['&', 'g', 't', ';']),
{
    reveal_strlit("&quot;");
    reveal_strlit("&amp;");
    reveal_strlit("&#x27;");
    reveal_strlit("&#x2F;");
    reveal_strlit("&lt;");
    reveal_strlit("&gt;");
    assert("&quot;"@ =~= seq!['&', 'q', 'u', 'o', 't', ';']);
    assert("&amp;"@ =~= seq!['&', 'a', 'm', 'p', ';']);
    assert("&#x27;"@ =~= seq!['&', '#', 'x', '2', '7', ';']);
    assert("&#x2F;"@ =~= seq!['&', '#', 'x', '2', 'F', ';']);
    assert("&lt;"@ =~= seq!['&', 'l', 't', ';']);
    assert("&gt;"@ =~= seq!['&', 'g', 't', ';']);
    if c == '"' {
        lemma_entry_is_entity(0, c);
    } else if c == '&' {
        lemma_entry_is_entity(1, c);
    } else if c == '\'' {
        lemma_entry_is_entity(2, c);
    } else if c == '/' {
        lemma_entry_is_entity(3, c);
    } else if c == '<' {
        lemma_entry_is_entity(4, c);
    } else if c == '>' {
        lemma_entry_is_entity(5, c);
    } else {
        assert forall|i: int| !is_entry(i, c) by {}
    }
}

} // verus!
