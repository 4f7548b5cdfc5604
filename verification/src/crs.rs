//! The horizontal coordinate reference system of a BAG: its EPSG code, read from what GDAL
//! identified or, failing that, from the WKT text itself.

use vstd::prelude::*;
use crate::text::{
    chars_of, digit_run, digit_run_bounds, find, first_match, has_substring, in_class, is_digit,
    last_match, leading_count, lemma_find_from, lemma_rfind_below, matches_at, rfind_within,
    CharClass,
};

verus! {

/// The WKT text before the first `VERT_CS[` block, or all of it when there is none.
pub open spec fn horizontal_part(wkt: Seq<char>) -> Seq<char> {
    match first_match(wkt, "VERT_CS["@) {
        Some(p) => wkt.take(p),
        None => wkt,
    }
}

/// The value of a run of ASCII decimal digits.
pub open spec fn decimal_value(d: Seq<char>) -> nat
    decreases d.len(),
{
    if d.len() == 0 {
        0
    } else {
        decimal_value(d.drop_last()) * 10 + (d.last() as int - '0' as int) as nat
    }
}

/// What `str::parse::<i32>` gives for a run of ASCII digits, with an error read as 0: the
/// value when the run is not empty and the value fits in an `i32`, else 0.
pub open spec fn digits_to_i32_or_zero(d: Seq<char>) -> i32 {
    if d.len() > 0 && decimal_value(d) <= i32::MAX {
        decimal_value(d) as i32
    } else {
        0
    }
}

/// The EPSG code that the WKT text itself names for its horizontal system: in the part before
/// any `VERT_CS[` block, the digits that follow the last `AUTHORITY["EPSG"`; 0 when there is
/// no such authority or its digits do not make an `i32`.
pub open spec fn wkt_authority_epsg(wkt: Seq<char>) -> i32 {
    let h = horizontal_part(wkt);
    match last_match(h, "AUTHORITY[\"EPSG\""@) {
        Some(p) => digits_to_i32_or_zero(digit_run(h.skip(p))),
        None => 0,
    }
}

/// The horizontal EPSG code of a WKT text, given what GDAL identified for it (`None` when GDAL
/// could not read the text or name an authority code): 0 for an empty text, the identified
/// code when it is positive, else the code that the text names.
pub open spec fn horizontal_epsg_of(wkt: Seq<char>, identified: Option<i32>) -> i32 {
    if wkt.len() == 0 {
        0
    } else if identified matches Some(c) && c > 0 {
        identified->0
    } else {
        wkt_authority_epsg(wkt)
    }
}

/// The code that a WKT text names depends only on its horizontal part: cutting the text at its
/// vertical block first changes nothing.
pub proof fn lemma_authority_epsg_ignores_vertical_part(wkt: Seq<char>)
    ensures
        wkt_authority_epsg(wkt) == wkt_authority_epsg(horizontal_part(wkt)),
        horizontal_part(horizontal_part(wkt)) == horizontal_part(wkt),
{
    let v = "VERT_CS["@;
    crate::text::lemma_find_from(wkt, v, 0);
    if let Some(p) = first_match(wkt, v) {
        let h = wkt.take(p);
        crate::text::lemma_find_from(h, v, 0);
        if let Some(j) = first_match(h, v) {
            reveal_strlit("VERT_CS[");
            assert(h.subrange(j, j + v.len()) =~= wkt.subrange(j, j + v.len()));
            assert(crate::text::matches_at(wkt, v, j));
        }
    }
}

/// A positive code that GDAL identified is the answer for any non-empty text, whatever the text
/// says; without one the answer is the code the text itself names; an empty text gives 0.
pub proof fn lemma_identified_code_wins(wkt: Seq<char>, c: i32)
    ensures
        wkt.len() > 0 && c > 0 ==> horizontal_epsg_of(wkt, Some(c)) == c,
        wkt.len() > 0 && c <= 0 ==> horizontal_epsg_of(wkt, Some(c)) == wkt_authority_epsg(wkt),
        wkt.len() > 0 ==> horizontal_epsg_of(wkt, None) == wkt_authority_epsg(wkt),
        wkt.len() == 0 ==> horizontal_epsg_of(wkt, Some(c)) == 0 && horizontal_epsg_of(wkt, None)
            == 0,
{
}

/// Reading digits is positional in base ten: the digits `a` followed by the digits `b` are worth
/// `a` times ten to the number of digits of `b`, plus `b`.
pub proof fn lemma_decimal_value_concat(a: Seq<char>, b: Seq<char>)
    ensures
        decimal_value(a + b) == decimal_value(a) * vstd::arithmetic::power::pow(10, b.len())
            + decimal_value(b),
    decreases b.len(),
{
    reveal(vstd::arithmetic::power::pow);
    if b.len() == 0 {
        assert(a + b =~= a);
    } else {
        let b1 = b.drop_last();
        lemma_decimal_value_concat(a, b1);
        assert((a + b).drop_last() =~= a + b1);
        assert((a + b).last() == b.last());
        let p = vstd::arithmetic::power::pow(10, b1.len());
        assert(vstd::arithmetic::power::pow(10, b.len()) == 10 * p);
        let d = (b.last() as int - '0' as int) as nat;
        assert((decimal_value(a) * p + decimal_value(b1)) * 10 + d == decimal_value(a) * (10 * p)
            + (decimal_value(b1) * 10 + d)) by (nonlinear_arith);
    }
}

/// The digits found in a text are its first run of digits: for a text made of characters that
/// are not digits, then a non-empty run of digits, then either nothing or a character that is
/// not a digit followed by anything, the run is what is found.
pub proof fn lemma_digit_run_is_first_run(lead: Seq<char>, digits: Seq<char>, rest: Seq<char>)
    requires
        forall|i: int| 0 <= i < lead.len() ==> !is_digit(#[trigger] lead[i]),
        digits.len() > 0,
        forall|i: int| 0 <= i < digits.len() ==> is_digit(#[trigger] digits[i]),
        rest.len() > 0 ==> !is_digit(rest[0]),
    ensures
        digit_run(lead + digits + rest) == digits,
{
    let s = lead + digits + rest;
    assert(s[lead.len() as int] == digits[0]);
    lemma_leading_count_prefix(s, lead.len(), CharClass::NotDigit);
    let t = s.skip(lead.len() as int);
    assert(t =~= digits + rest);
    lemma_leading_count_prefix(t, digits.len(), CharClass::Digit);
    assert(t.take(digits.len() as int) =~= digits);
}

/// When the first `n` characters of `s` are of class `k` and the next one (if any) is not, the
/// leading run of class `k` is `n` long.
proof fn lemma_leading_count_prefix(s: Seq<char>, n: nat, k: CharClass)
    requires
        n <= s.len(),
        forall|i: int| 0 <= i < n ==> in_class(k, #[trigger] s[i]),
        n < s.len() ==> !in_class(k, s[n as int]),
    ensures
        leading_count(s, k) == n,
    decreases n,
{
    if n > 0 {
        let t = s.drop_first();
        assert forall|i: int| 0 <= i < n - 1 implies in_class(k, #[trigger] t[i]) by {
            assert(t[i] == s[i + 1]);
        }
        if n - 1 < t.len() {
            assert(t[n - 1] == s[n as int]);
        }
        lemma_leading_count_prefix(t, (n - 1) as nat, k);
        assert(in_class(k, s[0]));
    } else if s.len() > 0 {
        assert(!in_class(k, s[0]));
    }
}

/// In a text without a vertical block, the code comes from the digits that follow the last
/// `AUTHORITY["EPSG"`.
pub proof fn lemma_code_from_last_authority(wkt: Seq<char>, p: int)
    requires
        matches_at(wkt, "AUTHORITY[\"EPSG\""@, p),
        forall|j: int| p < j ==> !matches_at(wkt, "AUTHORITY[\"EPSG\""@, j),
        !has_substring(wkt, "VERT_CS["@),
    ensures
        wkt_authority_epsg(wkt) == digits_to_i32_or_zero(digit_run(wkt.skip(p))),
{
    let auth = "AUTHORITY[\"EPSG\""@;
    reveal_strlit("AUTHORITY[\"EPSG\"");
    lemma_find_from(wkt, "VERT_CS["@, 0);
    if let Some(i) = first_match(wkt, "VERT_CS["@) {
        assert(matches_at(wkt, "VERT_CS["@, i));
    }
    assert(horizontal_part(wkt) == wkt);
    lemma_rfind_below(wkt, auth, wkt.len());
    assert(last_match(wkt, auth) == Some(p));
}

/// Everything from the first `VERT_CS[` on is ignored: the code of the text is the code of the
/// text before it, which has no vertical block.
pub proof fn lemma_text_from_vertical_block_ignored(wkt: Seq<char>, q: int)
    requires
        matches_at(wkt, "VERT_CS["@, q),
        forall|j: int| 0 <= j < q ==> !matches_at(wkt, "VERT_CS["@, j),
    ensures
        wkt_authority_epsg(wkt) == wkt_authority_epsg(wkt.take(q)),
        !has_substring(wkt.take(q), "VERT_CS["@),
{
    let v = "VERT_CS["@;
    reveal_strlit("VERT_CS[");
    lemma_find_from(wkt, v, 0);
    assert(first_match(wkt, v) == Some(q));
    lemma_authority_epsg_ignores_vertical_part(wkt);
    let h = wkt.take(q);
    if has_substring(h, v) {
        let j = choose|j: int| matches_at(h, v, j);
        assert(h.subrange(j, j + v.len()) =~= wkt.subrange(j, j + v.len()));
        assert(matches_at(wkt, v, j));
    }
}

/// The value of the digits `s[a..b]`, as `str::parse::<i32>` reads them, with an error read as 0.
fn parse_digits_i32(s: &Vec<char>, a: usize, b: usize) -> (r: i32)
    requires
        a <= b <= s.len(),
        forall|i: int| a <= i < b ==> '0' <= #[trigger] s@[i] <= '9',
    ensures
        r == digits_to_i32_or_zero(s@.subrange(a as int, b as int)),
{
    let cap: u64 = 2147483648;
    let mut acc: u64 = 0;
    let mut i = a;
    while i < b
        invariant
            a <= i <= b <= s.len(),
            forall|k: int| a <= k < b ==> '0' <= #[trigger] s@[k] <= '9',
            cap == 2147483648,
            acc == if decimal_value(s@.subrange(a as int, i as int)) < cap {
                decimal_value(s@.subrange(a as int, i as int))
            } else {
                cap as nat
            },
        decreases b - i,
    {
        let c = s[i];
        assert('0' <= s@[i as int] <= '9');
        let d: u64 = (c as u32 - '0' as u32) as u64;
        let ghost v = decimal_value(s@.subrange(a as int, i as int));
        proof {
            let next = s@.subrange(a as int, i + 1);
            assert(next.drop_last() =~= s@.subrange(a as int, i as int));
            assert(next.last() == c);
            assert(decimal_value(next) == v * 10 + d);
        }
        let t = acc * 10 + d;
        acc = if t < cap {
            t
        } else {
            cap
        };
        i = i + 1;
    }
    if b > a && acc <= 2147483647 {
        acc as i32
    } else {
        0
    }
}

/// The EPSG code that a WKT text names for its horizontal system (see `wkt_authority_epsg`).
pub fn authority_epsg_from_wkt(wkt: &str) -> (code: i32)
    ensures
        code == wkt_authority_epsg(wkt@),
{
    let w = chars_of(wkt);
    let vert = chars_of("VERT_CS[");
    let limit = match find(&w, &vert) {
        Some(p) => p,
        None => w.len(),
    };
    proof {
        crate::text::lemma_find_from(w@, vert@, 0);
    }
    assert(w@.take(w@.len() as int) =~= w@);
    assert(limit <= w.len());
    let auth = chars_of("AUTHORITY[\"EPSG\"");
    match rfind_within(&w, limit, &auth) {
        Some(p) => {
            let ghost h = w@.take(limit as int);
            proof {
                crate::text::lemma_rfind_below(h, auth@, h.len());
            }
            let (a, b) = digit_run_bounds(&w, p, limit);
            assert(h.skip(p as int) =~= w@.subrange(p as int, limit as int));
            parse_digits_i32(&w, a, b)
        },
        None => 0,
    }
}

/// The horizontal EPSG code of a WKT text, given the authority code that GDAL identified for it
/// (`None` when GDAL could not read the text or give a code).
pub fn horizontal_epsg(wkt: &str, identified: Option<i32>) -> (code: i32)
    ensures
        code == horizontal_epsg_of(wkt@, identified),
{
    if wkt.is_empty() {
        return 0;
    }
    if let Some(c) = identified {
        if c > 0 {
            return c;
        }
    }
    authority_epsg_from_wkt(wkt)
}

/// The EPSG code written to an S-102 file: the one found in the source when it is positive,
/// else the one the caller supplies.
pub fn export_epsg(found: i32, fallback: i32) -> (code: i32)
    ensures
        code == (if found > 0 {
            found
        } else {
            fallback
        }),
{
    if found > 0 {
        found
    } else {
        fallback
    }
}

/// The label shown for a source's coordinate system, given the WKT text and what GDAL made of
/// it: `None` when GDAL could not read the text, `Some(None)` when it read it but found no name.
pub fn crs_label(wkt: &str, parsed_name: Option<Option<String>>) -> (label: String)
    ensures
        label@ == (if wkt@.len() == 0 {
            "未設定投影坐標系"@
        } else {
            match parsed_name {
                Some(Some(name)) => name@,
                Some(None) => "未知投影座標系"@,
                None => "無法解析 WKT 坐標系"@,
            }
        }),
{
    if wkt.is_empty() {
        return "未設定投影坐標系".to_owned();
    }
    match parsed_name {
        Some(Some(name)) => name,
        Some(None) => "未知投影座標系".to_owned(),
        None => "無法解析 WKT 坐標系".to_owned(),
    }
}

} // verus!
