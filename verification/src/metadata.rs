//! Reading the `key=value` metadata items of a BAG.

use vstd::prelude::*;
use crate::text::{
    chars_of, find, first_match, has_prefix, is_white, leading_count, lemma_find_from, matches_at,
    range_starts_with, trailing_count, trim_bounds, trimmed, CharClass,
};

verus! {

/// What a metadata item says about the grid resolutions.
#[derive(Debug)]
pub enum MetadataEntry {
    /// A `MIN_RESOLUTION...` key, with its value text, trimmed.
    MinResolution(String),
    /// A `MAX_RESOLUTION...` key, with its value text, trimmed.
    MaxResolution(String),
    /// Anything else.
    Other,
}

/// The key and the value of an item, split at its first `=` (what `str::split_once('=')` gives).
pub open spec fn split_at_equals(item: Seq<char>) -> Option<(Seq<char>, Seq<char>)> {
    match first_match(item, "="@) {
        Some(p) => Some((item.take(p), item.skip(p + 1))),
        None => None,
    }
}

/// `entry` is what the item `item` says: a key that, trimmed, starts with `MIN_RESOLUTION`
/// gives its trimmed value as a minimum; otherwise one that starts with `MAX_RESOLUTION` gives
/// it as a maximum; an item without `=` or with another key gives nothing.
pub open spec fn describes(item: Seq<char>, entry: MetadataEntry) -> bool {
    match split_at_equals(item) {
        Some((key, value)) => {
            let k = trimmed(key);
            if has_prefix(k, "MIN_RESOLUTION"@) {
                entry matches MetadataEntry::MinResolution(v) && v@ == trimmed(value)
            } else if has_prefix(k, "MAX_RESOLUTION"@) {
                entry matches MetadataEntry::MaxResolution(v) && v@ == trimmed(value)
            } else {
                entry is Other
            }
        },
        None => entry is Other,
    }
}

/// What one metadata item says about the grid resolutions.
pub fn classify_metadata_item(item: &str) -> (entry: MetadataEntry)
    ensures
        describes(item@, entry),
{
    let s = chars_of(item);
    let eq = chars_of("=");
    match find(&s, &eq) {
        None => MetadataEntry::Other,
        Some(p) => {
            proof {
                crate::text::lemma_find_from(s@, eq@, 0);
                reveal_strlit("=");
            }
            let n = s.len();
            let (ka, kb) = trim_bounds(&s, 0, p);
            let (va, vb) = trim_bounds(&s, p + 1, n);
            proof {
                assert(s@.subrange(0, p as int) =~= s@.take(p as int));
                assert(s@.subrange(p + 1, n as int) =~= s@.skip(p + 1));
            }
            if range_starts_with(&s, ka, kb, "MIN_RESOLUTION") {
                MetadataEntry::MinResolution(item.substring_char(va, vb).to_owned())
            } else if range_starts_with(&s, ka, kb, "MAX_RESOLUTION") {
                MetadataEntry::MaxResolution(item.substring_char(va, vb).to_owned())
            } else {
                MetadataEntry::Other
            }
        },
    }
}

/// Text without white space is its own trimmed text.
pub proof fn lemma_trimmed_without_white(s: Seq<char>)
    requires
        forall|i: int| 0 <= i < s.len() ==> !is_white(#[trigger] s[i]),
    ensures
        trimmed(s) == s,
{
    assert(leading_count(s, CharClass::White) == 0);
    assert(s.skip(0) =~= s);
    assert(trailing_count(s, CharClass::White) == 0);
    assert(s.take(s.len() as int) =~= s);
}

/// For an item made of a key without `=`, then `=`, then a value: a key that, trimmed, starts with
/// `MIN_RESOLUTION` gives a minimum, else one that starts with `MAX_RESOLUTION` a maximum, else
/// nothing; and the text that a minimum or a maximum carries is the whole value after the first
/// `=`, trimmed, which is the value itself when it has no white space.
pub proof fn lemma_entry_carries_value(key: Seq<char>, value: Seq<char>, entry: MetadataEntry)
    requires
        forall|i: int| 0 <= i < key.len() ==> #[trigger] key[i] != '=',
        describes(key + seq!['='] + value, entry),
    ensures
        has_prefix(trimmed(key), "MIN_RESOLUTION"@) ==> (entry matches MetadataEntry::MinResolution(
            v,
        ) && v@ == trimmed(value)),
        !has_prefix(trimmed(key), "MIN_RESOLUTION"@) && has_prefix(trimmed(key), "MAX_RESOLUTION"@)
            ==> (entry matches MetadataEntry::MaxResolution(v) && v@ == trimmed(value)),
        !has_prefix(trimmed(key), "MIN_RESOLUTION"@) && !has_prefix(trimmed(key), "MAX_RESOLUTION"@)
            ==> entry is Other,
        (forall|i: int| 0 <= i < value.len() ==> !is_white(#[trigger] value[i])) ==> match entry {
            MetadataEntry::MinResolution(v) => v@ == value,
            MetadataEntry::MaxResolution(v) => v@ == value,
            MetadataEntry::Other => true,
        },
{
    let item = key + seq!['='] + value;
    let eq = "="@;
    reveal_strlit("=");
    assert(eq =~= seq!['=']);
    let n = key.len() as int;
    assert(item.subrange(n, n + 1) =~= eq);
    assert(matches_at(item, eq, n));
    lemma_find_from(item, eq, 0);
    assert forall|j: int| 0 <= j < n implies !matches_at(item, eq, j) by {
        assert(item.subrange(j, j + 1)[0] == key[j]);
    }
    assert(first_match(item, eq) == Some(n));
    assert(item.take(n) =~= key);
    assert(item.skip(n + 1) =~= value);
    if forall|i: int| 0 <= i < value.len() ==> !is_white(#[trigger] value[i]) {
        lemma_trimmed_without_white(value);
    }
}

} // verus!
