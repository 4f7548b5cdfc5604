//! Character-level helpers over strings, stated on `Seq<char>` views.

use vstd::prelude::*;

verus! {

/// The characters of `s`, in order.
pub fn chars_of(s: &str) -> (v: Vec<char>)
    ensures
        v@ == s@,
{
    let mut v: Vec<char> = Vec::new();
    for c in it: s.chars()
        invariant
            v@ == it.seq().take(it.index()),
    {
        v.push(c);
    }
    v
}

/// The Unicode `White_Space` characters, the set that `char::is_whitespace` accepts.
pub open spec fn is_white(c: char) -> bool {
    ||| '\u{0009}' <= c <= '\u{000D}'
    ||| c == ' '
    ||| c == '\u{0085}'
    ||| c == '\u{00A0}'
    ||| c == '\u{1680}'
    ||| '\u{2000}' <= c <= '\u{200A}'
    ||| c == '\u{2028}'
    ||| c == '\u{2029}'
    ||| c == '\u{202F}'
    ||| c == '\u{205F}'
    ||| c == '\u{3000}'
}

/// Whether `c` is white space in the sense of [`is_white`].
pub fn is_whitespace(c: char) -> (b: bool)
    ensures
        b == is_white(c),
{
    ('\u{0009}' <= c && c <= '\u{000D}') || c == ' ' || c == '\u{0085}' || c == '\u{00A0}' || c
        == '\u{1680}' || ('\u{2000}' <= c && c <= '\u{200A}') || c == '\u{2028}' || c == '\u{2029}'
        || c == '\u{202F}' || c == '\u{205F}' || c == '\u{3000}'
}

/// An ASCII decimal digit.
pub open spec fn is_digit(c: char) -> bool {
    '0' <= c <= '9'
}

/// `pat` occurs in `s` starting at position `i`.
pub open spec fn matches_at(s: Seq<char>, pat: Seq<char>, i: int) -> bool {
    &&& 0 <= i
    &&& i + pat.len() <= s.len()
    &&& s.subrange(i, i + pat.len()) == pat
}

/// `pat` occurs somewhere in `s`.
pub open spec fn has_substring(s: Seq<char>, pat: Seq<char>) -> bool {
    exists|i: int| matches_at(s, pat, i)
}

/// The first position at or after `k` where `pat` occurs in `s`.
pub open spec fn find_from(s: Seq<char>, pat: Seq<char>, k: int) -> Option<int>
    decreases s.len() + 1 - k,
{
    if k < 0 || k + pat.len() > s.len() {
        None
    } else if matches_at(s, pat, k) {
        Some(k)
    } else {
        find_from(s, pat, k + 1)
    }
}

/// The first position where `pat` occurs in `s` (what `str::find` gives, counted in characters).
pub open spec fn first_match(s: Seq<char>, pat: Seq<char>) -> Option<int> {
    find_from(s, pat, 0)
}

/// The last position below `n` where `pat` occurs in `s`.
pub open spec fn rfind_below(s: Seq<char>, pat: Seq<char>, n: nat) -> Option<int>
    decreases n,
{
    if n == 0 {
        None
    } else if matches_at(s, pat, n - 1) {
        Some(n - 1)
    } else {
        rfind_below(s, pat, (n - 1) as nat)
    }
}

/// The last position where `pat` occurs in `s` (what `str::rfind` gives, counted in characters).
pub open spec fn last_match(s: Seq<char>, pat: Seq<char>) -> Option<int> {
    rfind_below(s, pat, s.len())
}

/// `find_from` gives the least match at or after `k`, and `None` exactly when there is none.
pub proof fn lemma_find_from(s: Seq<char>, pat: Seq<char>, k: int)
    requires
        0 <= k,
    ensures
        find_from(s, pat, k) matches Some(i) ==> k <= i && matches_at(s, pat, i) && forall|j: int|
            k <= j < i ==> !matches_at(s, pat, j),
        find_from(s, pat, k) is None ==> forall|j: int| k <= j ==> !matches_at(s, pat, j),
    decreases s.len() + 1 - k,
{
    if k + pat.len() > s.len() {
    } else if matches_at(s, pat, k) {
    } else {
        lemma_find_from(s, pat, k + 1);
    }
}

/// `rfind_below` gives the greatest match below `n`, and `None` exactly when there is none.
pub proof fn lemma_rfind_below(s: Seq<char>, pat: Seq<char>, n: nat)
    ensures
        rfind_below(s, pat, n) matches Some(i) ==> i < n && matches_at(s, pat, i) && forall|j: int|
            i < j < n ==> !matches_at(s, pat, j),
        rfind_below(s, pat, n) is None ==> forall|j: int| j < n ==> !matches_at(s, pat, j),
    decreases n,
{
    if n > 0 && !matches_at(s, pat, n - 1) {
        lemma_rfind_below(s, pat, (n - 1) as nat);
    }
}

/// Whether `pat` occurs in `s` at position `i`.
pub fn matches_at_exec(s: &Vec<char>, pat: &Vec<char>, i: usize) -> (b: bool)
    ensures
        b == matches_at(s@, pat@, i as int),
{
    if i > s.len() || pat.len() > s.len() - i {
        return false;
    }
    let mut j: usize = 0;
    while j < pat.len()
        invariant
            i + pat.len() <= s.len(),
            0 <= j <= pat.len(),
            forall|t: int| 0 <= t < j ==> s@[i + t] == pat@[t],
        decreases pat.len() - j,
    {
        if s[i + j] != pat[j] {
            assert(s@.subrange(i as int, i + pat.len())[j as int] != pat@[j as int]);
            return false;
        }
        j = j + 1;
    }
    assert(s@.subrange(i as int, i + pat.len()) =~= pat@);
    true
}

/// The first position where `pat` occurs in `s`.
pub fn find(s: &Vec<char>, pat: &Vec<char>) -> (r: Option<usize>)
    ensures
        r matches Some(i) ==> first_match(s@, pat@) == Some(i as int),
        r is None ==> first_match(s@, pat@) is None,
{
    if pat.len() > s.len() {
        return None;
    }
    let last = s.len() - pat.len();
    let mut i: usize = 0;
    loop
        invariant
            last + pat.len() == s.len(),
            0 <= i <= last,
            find_from(s@, pat@, 0) == find_from(s@, pat@, i as int),
        decreases last - i,
    {
        if matches_at_exec(s, pat, i) {
            return Some(i);
        }
        if i == last {
            assert(find_from(s@, pat@, i + 1) is None);
            return None;
        }
        i = i + 1;
    }
}

/// The last position where `pat` occurs in the first `limit` characters of `s`.
pub fn rfind_within(s: &Vec<char>, limit: usize, pat: &Vec<char>) -> (r: Option<usize>)
    requires
        limit <= s.len(),
    ensures
        r matches Some(i) ==> last_match(s@.take(limit as int), pat@) == Some(i as int),
        r is None ==> last_match(s@.take(limit as int), pat@) is None,
{
    let ghost h = s@.take(limit as int);
    let mut n: usize = limit;
    while n > 0
        invariant
            limit <= s.len(),
            h == s@.take(limit as int),
            n <= limit,
            rfind_below(h, pat@, h.len()) == rfind_below(h, pat@, n as nat),
        decreases n,
    {
        let start = n - 1;
        let ok = pat.len() <= limit - start && matches_at_exec(s, pat, start);
        assert(ok == matches_at(h, pat@, start as int)) by {
            if start + pat.len() <= limit {
                assert(h.subrange(start as int, start + pat.len()) =~= s@.subrange(
                    start as int,
                    start + pat.len(),
                ));
            }
        }
        if ok {
            return Some(start);
        }
        n = start;
    }
    None
}

/// Whether `pat` occurs in `s`.
pub fn contains(s: &Vec<char>, pat: &str) -> (b: bool)
    ensures
        b == has_substring(s@, pat@),
{
    let p = chars_of(pat);
    let r = find(s, &p);
    proof {
        lemma_find_from(s@, p@, 0);
    }
    r.is_some()
}

/// `p` is a prefix of `s`.
pub open spec fn has_prefix(s: Seq<char>, p: Seq<char>) -> bool {
    p.len() <= s.len() && s.take(p.len() as int) == p
}

/// Whether the part `a..b` of `s` starts with the characters of `p`.
pub fn range_starts_with(s: &Vec<char>, a: usize, b: usize, p: &str) -> (r: bool)
    requires
        a <= b <= s.len(),
    ensures
        r == has_prefix(s@.subrange(a as int, b as int), p@),
{
    let pv = chars_of(p);
    if pv.len() > b - a {
        return false;
    }
    let r = matches_at_exec(s, &pv, a);
    assert(s@.subrange(a as int, b as int).take(pv@.len() as int) =~= s@.subrange(
        a as int,
        a + pv@.len(),
    ));
    r
}

/// Classes of characters that the scanners below skip over.
pub enum CharClass {
    White,
    NotWhite,
    Digit,
    NotDigit,
}

/// `c` belongs to class `k`.
pub open spec fn in_class(k: CharClass, c: char) -> bool {
    match k {
        CharClass::White => is_white(c),
        CharClass::NotWhite => !is_white(c),
        CharClass::Digit => is_digit(c),
        CharClass::NotDigit => !is_digit(c),
    }
}

/// Whether `c` belongs to class `k`.
pub fn in_class_exec(k: &CharClass, c: char) -> (b: bool)
    ensures
        b == in_class(*k, c),
{
    match k {
        CharClass::White => is_whitespace(c),
        CharClass::NotWhite => !is_whitespace(c),
        CharClass::Digit => '0' <= c && c <= '9',
        CharClass::NotDigit => !('0' <= c && c <= '9'),
    }
}

/// Length of the longest prefix of `s` made of characters of class `k`.
pub open spec fn leading_count(s: Seq<char>, k: CharClass) -> nat
    decreases s.len(),
{
    if s.len() > 0 && in_class(k, s[0]) {
        1 + leading_count(s.drop_first(), k)
    } else {
        0
    }
}

/// Length of the longest suffix of `s` made of characters of class `k`.
pub open spec fn trailing_count(s: Seq<char>, k: CharClass) -> nat
    decreases s.len(),
{
    if s.len() > 0 && in_class(k, s.last()) {
        1 + trailing_count(s.drop_last(), k)
    } else {
        0
    }
}

/// The end of the run of class-`k` characters of `s` that starts at `from`, looking no further
/// than `to`.
pub fn span(s: &Vec<char>, from: usize, to: usize, k: &CharClass) -> (e: usize)
    requires
        from <= to <= s.len(),
    ensures
        from <= e <= to,
        e - from == leading_count(s@.subrange(from as int, to as int), *k),
{
    let mut i = from;
    while i < to && in_class_exec(k, s[i])
        invariant
            from <= i <= to <= s.len(),
            leading_count(s@.subrange(from as int, to as int), *k) == (i - from) + leading_count(
                s@.subrange(i as int, to as int),
                *k,
            ),
        decreases to - i,
    {
        assert(s@.subrange(i as int, to as int).drop_first() =~= s@.subrange(i + 1, to as int));
        i = i + 1;
    }
    i
}

/// The start of the run of class-`k` characters of `s` that ends at `to`, looking no further
/// back than `from`.
pub fn span_back(s: &Vec<char>, from: usize, to: usize, k: &CharClass) -> (b: usize)
    requires
        from <= to <= s.len(),
    ensures
        from <= b <= to,
        to - b == trailing_count(s@.subrange(from as int, to as int), *k),
{
    let mut j = to;
    while j > from && in_class_exec(k, s[j - 1])
        invariant
            from <= j <= to <= s.len(),
            trailing_count(s@.subrange(from as int, to as int), *k) == (to - j) + trailing_count(
                s@.subrange(from as int, j as int),
                *k,
            ),
        decreases j - from,
    {
        assert(s@.subrange(from as int, j as int).drop_last() =~= s@.subrange(
            from as int,
            j - 1,
        ));
        j = j - 1;
    }
    j
}

/// `s` without its leading and trailing white space (what `str::trim` gives).
pub open spec fn trimmed(s: Seq<char>) -> Seq<char> {
    let t = s.skip(leading_count(s, CharClass::White) as int);
    t.take(t.len() - trailing_count(t, CharClass::White))
}

/// The bounds of `trimmed` of the part `lo..hi` of `s`, as positions in `s`.
pub fn trim_bounds(s: &Vec<char>, lo: usize, hi: usize) -> (r: (usize, usize))
    requires
        lo <= hi <= s.len(),
    ensures
        lo <= r.0 <= r.1 <= hi,
        s@.subrange(r.0 as int, r.1 as int) == trimmed(s@.subrange(lo as int, hi as int)),
{
    let a = span(s, lo, hi, &CharClass::White);
    let b = span_back(s, a, hi, &CharClass::White);
    proof {
        let part = s@.subrange(lo as int, hi as int);
        let t = part.skip(leading_count(part, CharClass::White) as int);
        assert(t =~= s@.subrange(a as int, hi as int));
        assert(t.take(t.len() - trailing_count(t, CharClass::White)) =~= s@.subrange(
            a as int,
            b as int,
        ));
    }
    (a, b)
}

/// The first maximal run of non-white characters of `s` (what `split_whitespace().next()`
/// gives), or `None` when `s` is all white space.
pub open spec fn first_word(s: Seq<char>) -> Option<Seq<char>> {
    let t = s.skip(leading_count(s, CharClass::White) as int);
    if t.len() == 0 {
        None
    } else {
        Some(t.take(leading_count(t, CharClass::NotWhite) as int))
    }
}

/// The bounds of `first_word(s)` as positions in `s`.
pub fn first_word_bounds(s: &Vec<char>) -> (r: Option<(usize, usize)>)
    ensures
        r is None <==> first_word(s@) is None,
        r matches Some((a, b)) ==> a <= b <= s.len() && first_word(s@) == Some(
            s@.subrange(a as int, b as int),
        ),
{
    let n = s.len();
    let a = span(s, 0, n, &CharClass::White);
    proof {
        assert(s@.subrange(0, n as int) =~= s@);
        assert(s@.skip(a as int) =~= s@.subrange(a as int, n as int));
    }
    if a == n {
        return None;
    }
    let b = span(s, a, n, &CharClass::NotWhite);
    proof {
        let t = s@.skip(a as int);
        assert(t.take((b - a) as int) =~= s@.subrange(a as int, b as int));
    }
    Some((a, b))
}

/// The first maximal run of ASCII digits in `s`, empty when `s` has no digit (what
/// `chars().skip_while(not digit).take_while(digit)` collects).
pub open spec fn digit_run(s: Seq<char>) -> Seq<char> {
    let t = s.skip(leading_count(s, CharClass::NotDigit) as int);
    t.take(leading_count(t, CharClass::Digit) as int)
}

/// The bounds of `digit_run` of the part `from..to` of `s`, as positions in `s`.
pub fn digit_run_bounds(s: &Vec<char>, from: usize, to: usize) -> (r: (usize, usize))
    requires
        from <= to <= s.len(),
    ensures
        from <= r.0 <= r.1 <= to,
        s@.subrange(r.0 as int, r.1 as int) == digit_run(s@.subrange(from as int, to as int)),
        forall|i: int| r.0 <= i < r.1 ==> '0' <= #[trigger] s@[i] <= '9',
{
    let a = span(s, from, to, &CharClass::NotDigit);
    let b = span(s, a, to, &CharClass::Digit);
    proof {
        let part = s@.subrange(from as int, to as int);
        let t = part.skip(leading_count(part, CharClass::NotDigit) as int);
        assert(t =~= s@.subrange(a as int, to as int));
        assert(t.take(leading_count(t, CharClass::Digit) as int) =~= s@.subrange(
            a as int,
            b as int,
        ));
        lemma_leading_count_all(s@.subrange(a as int, to as int), CharClass::Digit);
        assert forall|i: int| a <= i < b implies '0' <= #[trigger] s@[i] <= '9' by {
            assert(s@[i] == s@.subrange(a as int, to as int)[i - a]);
        }
    }
    (a, b)
}

/// Every character in the leading run of class `k` is of class `k`.
proof fn lemma_leading_count_all(s: Seq<char>, k: CharClass)
    ensures
        leading_count(s, k) <= s.len(),
        forall|i: int| 0 <= i < leading_count(s, k) ==> in_class(k, #[trigger] s[i]),
    decreases s.len(),
{
    if s.len() > 0 && in_class(k, s[0]) {
        lemma_leading_count_all(s.drop_first(), k);
        assert forall|i: int| 0 <= i < leading_count(s, k) implies in_class(k, #[trigger] s[i]) by {
            if i > 0 {
                assert(s[i] == s.drop_first()[i - 1]);
            }
        }
    }
}

} // verus!
