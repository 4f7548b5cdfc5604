//! Vertical datum codes: mapping a BAG datum description to its S-100 code, and merging the
//! codes found across a file's metadata items.

use vstd::prelude::*;
use crate::text::{chars_of, contains, has_substring, matches_at};

verus! {

/// S-100 vertical datum: Mean Lower Low Water (also the default).
pub const DATUM_MLLW: i32 = 12;

/// S-100 vertical datum: Lowest Astronomical Tide.
pub const DATUM_LAT: i32 = 10;

/// S-100 vertical datum: Mean Low Water.
pub const DATUM_MLW: i32 = 11;

/// S-100 vertical datum: Mean Sea Level.
pub const DATUM_MSL: i32 = 1;

/// What `str::to_uppercase` returns for a string with the characters `s`: the Unicode
/// upper-case mapping, which may change the number of characters.
pub uninterp spec fn upper_case(s: Seq<char>) -> Seq<char>;

/// The ASCII upper case of a character: `a`..`z` become `A`..`Z`, anything else is kept.
pub open spec fn ascii_upper_char(c: char) -> char {
    if 'a' <= c <= 'z' {
        ((c as u32) - 32) as char
    } else {
        c
    }
}

/// The ASCII upper case of each character of `s`.
pub open spec fn ascii_upper(s: Seq<char>) -> Seq<char> {
    s.map_values(|c: char| ascii_upper_char(c))
}

/// Calls `str::to_uppercase`. The contract claims that the result is a function of the input's
/// characters (named `upper_case`); that, the Unicode upper-case mapping being applied character
/// by character, cutting the input in three pieces cuts the result in the three upper-cased
/// pieces; and that an ASCII piece is upper-cased by ASCII rules, each of `a`..`z` becoming its
/// capital and every other character kept. The Unicode case tables for other characters are
/// not restated.
#[verifier::external_body]
fn to_uppercase(s: &str) -> (r: String)
    ensures
        r@ == upper_case(s@),
        vstd::utf8::is_ascii_chars(s@) ==> r@ == ascii_upper(s@),
        forall|i: int, j: int|
            0 <= i <= j <= s@.len() && vstd::utf8::is_ascii_chars(#[trigger] s@.subrange(i, j))
                ==> r@ == upper_case(s@.take(i)) + ascii_upper(s@.subrange(i, j)) + upper_case(
                s@.skip(j),
            ),
{
    s.to_uppercase()
}

/// The S-100 code for an upper-cased datum description: the first family whose abbreviation
/// or full name occurs in it, tried in the order MLLW, LAT, MLW, MSL; MLLW when none does.
pub open spec fn datum_code_of_upper(u: Seq<char>) -> i32 {
    if has_substring(u, "MLLW"@) || has_substring(u, "MEAN LOWER LOW WATER"@) {
        DATUM_MLLW
    } else if has_substring(u, "LAT"@) || has_substring(u, "LOWEST ASTRONOMICAL TIDE"@) {
        DATUM_LAT
    } else if has_substring(u, "MLW"@) || has_substring(u, "MEAN LOW WATER"@) {
        DATUM_MLW
    } else if has_substring(u, "MSL"@) || has_substring(u, "MEAN SEA LEVEL"@) {
        DATUM_MSL
    } else {
        DATUM_MLLW
    }
}

/// What a datum description names decides its code, whatever else it says: MLLW when it names
/// Mean Lower Low Water; otherwise LAT when it names Lowest Astronomical Tide, even if it also
/// names Mean Low Water or Mean Sea Level; otherwise MLW when it names Mean Low Water, even if it
/// also names Mean Sea Level; otherwise MSL when it names Mean Sea Level; otherwise MLLW.
pub proof fn lemma_datum_families_in_order(u: Seq<char>)
    ensures
        has_substring(u, "MLLW"@) || has_substring(u, "MEAN LOWER LOW WATER"@) ==> datum_code_of_upper(u) == 12,
        !has_substring(u, "MLLW"@) && !has_substring(u, "MEAN LOWER LOW WATER"@) && (has_substring(u, "LAT"@)
            || has_substring(u, "LOWEST ASTRONOMICAL TIDE"@)) ==> datum_code_of_upper(u) == 10,
        !has_substring(u, "MLLW"@) && !has_substring(u, "MEAN LOWER LOW WATER"@) && !has_substring(u, "LAT"@)
            && !has_substring(u, "LOWEST ASTRONOMICAL TIDE"@) && (has_substring(u, "MLW"@)
            || has_substring(u, "MEAN LOW WATER"@)) ==> datum_code_of_upper(u) == 11,
        !has_substring(u, "MLLW"@) && !has_substring(u, "MEAN LOWER LOW WATER"@) && !has_substring(u, "LAT"@)
            && !has_substring(u, "LOWEST ASTRONOMICAL TIDE"@) && !has_substring(u, "MLW"@)
            && !has_substring(u, "MEAN LOW WATER"@) && (has_substring(u, "MSL"@)
            || has_substring(u, "MEAN SEA LEVEL"@)) ==> datum_code_of_upper(u) == 1,
        !has_substring(u, "MLLW"@) && !has_substring(u, "MEAN LOWER LOW WATER"@) && !has_substring(u, "LAT"@)
            && !has_substring(u, "LOWEST ASTRONOMICAL TIDE"@) && !has_substring(u, "MLW"@)
            && !has_substring(u, "MEAN LOW WATER"@) && !has_substring(u, "MSL"@)
            && !has_substring(u, "MEAN SEA LEVEL"@) ==> datum_code_of_upper(u) == 12,
{
}

/// A code that this library produces: one of the four S-100 datums above.
pub open spec fn is_known_datum(code: i32) -> bool {
    code == DATUM_MLLW || code == DATUM_LAT || code == DATUM_MLW || code == DATUM_MSL
}

/// The S-100 code of a datum description that is already upper case.
pub fn vertical_datum_code_from_upper(upper: &str) -> (code: i32)
    ensures
        code == datum_code_of_upper(upper@),
        is_known_datum(code),
{
    let u = chars_of(upper);
    if contains(&u, "MLLW") || contains(&u, "MEAN LOWER LOW WATER") {
        DATUM_MLLW
    } else if contains(&u, "LAT") || contains(&u, "LOWEST ASTRONOMICAL TIDE") {
        DATUM_LAT
    } else if contains(&u, "MLW") || contains(&u, "MEAN LOW WATER") {
        DATUM_MLW
    } else if contains(&u, "MSL") || contains(&u, "MEAN SEA LEVEL") {
        DATUM_MSL
    } else {
        DATUM_MLLW
    }
}

/// The S-100 code of a datum description, compared without regard to case.
pub fn parse_vertical_datum_code(datum_str: &str) -> (code: i32)
    ensures
        code == datum_code_of_upper(upper_case(datum_str@)),
        vstd::utf8::is_ascii_chars(datum_str@) ==> code == datum_code_of_upper(
            ascii_upper(datum_str@),
        ),
        has_substring(ascii_upper(datum_str@), "MLLW"@) || has_substring(
            ascii_upper(datum_str@),
            "MEAN LOWER LOW WATER"@,
        ) ==> code == DATUM_MLLW,
        is_known_datum(code),
{
    let upper = to_uppercase(datum_str);
    proof {
        reveal_strlit("MLLW");
        reveal_strlit("MEAN LOWER LOW WATER");
        lemma_ascii_name_survives(datum_str@, upper@, "MLLW"@);
        lemma_ascii_name_survives(datum_str@, upper@, "MEAN LOWER LOW WATER"@);
    }
    vertical_datum_code_from_upper(upper.as_str())
}

/// When the ASCII upper case of `s` shows the upper-case ASCII name `name`, so does `upper`,
/// the upper case of `s` as `to_uppercase` states it.
proof fn lemma_ascii_name_survives(s: Seq<char>, upper: Seq<char>, name: Seq<char>)
    requires
        vstd::utf8::is_ascii_chars(name),
        forall|i: int, j: int|
            0 <= i <= j <= s.len() && vstd::utf8::is_ascii_chars(#[trigger] s.subrange(i, j))
                ==> upper == upper_case(s.take(i)) + ascii_upper(s.subrange(i, j)) + upper_case(
                s.skip(j),
            ),
    ensures
        has_substring(ascii_upper(s), name) ==> has_substring(upper, name),
{
    if has_substring(ascii_upper(s), name) {
        let i = choose|i: int| matches_at(ascii_upper(s), name, i);
        let j = i + name.len();
        let sub = s.subrange(i, j);
        assert(ascii_upper(sub) =~= ascii_upper(s).subrange(i, j));
        assert forall|k: int| 0 <= k < sub.len() implies '\0' <= #[trigger] sub[k] <= '\u{7f}' by {
            assert(ascii_upper(sub)[k] == name[k]);
            if !('a' <= sub[k] <= 'z') {
                assert(ascii_upper_char(sub[k]) == sub[k]);
            }
        }
        let before = upper_case(s.take(i));
        assert(upper == before + name + upper_case(s.skip(j)));
        assert(upper.subrange(before.len() as int, (before.len() + name.len()) as int) =~= name);
        assert(matches_at(upper, name, before.len() as int));
    }
}

/// The code of one metadata item.
pub open spec fn item_datum_code(item: Seq<char>) -> i32 {
    datum_code_of_upper(upper_case(item))
}

/// One step of the merge: a code other than the default replaces what was found so far; the
/// default replaces only the default.
pub open spec fn merge_datum(acc: i32, code: i32) -> i32 {
    if code != DATUM_MLLW || acc == DATUM_MLLW {
        code
    } else {
        acc
    }
}

/// The merge of `codes` from left to right, starting from the default.
pub open spec fn merged_datum(codes: Seq<i32>) -> i32
    decreases codes.len(),
{
    if codes.len() == 0 {
        DATUM_MLLW
    } else {
        merge_datum(merged_datum(codes.drop_last()), codes.last())
    }
}

/// The codes of the items, in order.
pub open spec fn item_datum_codes(items: Seq<String>) -> Seq<i32> {
    items.map_values(|s: String| item_datum_code(s@))
}

/// The vertical datum of a file: the merge of the codes of its metadata items, in order.
pub fn vertical_datum_from_metadata(items: &Vec<String>) -> (code: i32)
    ensures
        code == merged_datum(item_datum_codes(items@)),
{
    let mut acc: i32 = DATUM_MLLW;
    let mut i: usize = 0;
    while i < items.len()
        invariant
            0 <= i <= items.len(),
            acc == merged_datum(item_datum_codes(items@.take(i as int))),
        decreases items.len() - i,
    {
        let c = parse_vertical_datum_code(items[i].as_str());
        if c != DATUM_MLLW || acc == DATUM_MLLW {
            acc = c;
        }
        proof {
            let next = item_datum_codes(items@.take(i + 1));
            assert(next.drop_last() =~= item_datum_codes(items@.take(i as int)));
            assert(next.last() == c);
        }
        i = i + 1;
    }
    assert(items@.take(items.len() as int) =~= items@);
    acc
}

/// The merge gives the last code that is not the default, or the default when every code is
/// the default.
pub proof fn lemma_merged_datum_is_last_non_default(codes: Seq<i32>)
    ensures
        (forall|i: int| 0 <= i < codes.len() ==> codes[i] == DATUM_MLLW) ==> merged_datum(codes)
            == DATUM_MLLW,
        forall|i: int|
            0 <= i < codes.len() && codes[i] != DATUM_MLLW && (forall|j: int|
                i < j < codes.len() ==> codes[j] == DATUM_MLLW) ==> merged_datum(codes) == codes[i],
    decreases codes.len(),
{
    if codes.len() > 0 {
        let init = codes.drop_last();
        lemma_merged_datum_is_last_non_default(init);
        assert forall|i: int|
            0 <= i < codes.len() && codes[i] != DATUM_MLLW && (forall|j: int|
                i < j < codes.len() ==> codes[j] == DATUM_MLLW) implies merged_datum(codes)
            == codes[i] by {
            if i < codes.len() - 1 {
                assert(init[i] == codes[i]);
                assert(codes.last() == DATUM_MLLW);
                assert forall|j: int| i < j < init.len() implies init[j] == DATUM_MLLW by {
                    assert(init[j] == codes[j]);
                }
            }
        }
        if forall|i: int| 0 <= i < codes.len() ==> codes[i] == DATUM_MLLW {
            assert forall|i: int| 0 <= i < init.len() implies init[i] == DATUM_MLLW by {
                assert(init[i] == codes[i]);
            }
        }
    }
}

} // verus!
