//! Character-level model of the `str` operations the response parsers use
//! (`trim`, `trim_start_matches`, `trim_end_matches`, `contains`, `split`,
//! `u64::from_str`), with executable versions that work on index ranges of a
//! character vector.

use core::str::Utf8Error;
use vstd::prelude::*;
use vstd::string::StringSliceAdditionalSpecFns;
use vstd::utf8::valid_utf8;

verus! {

// ---------------------------------------------------------------------------
// Specification
// ---------------------------------------------------------------------------

/// Unicode `White_Space`, the set that `char::is_whitespace` (and therefore
/// `str::trim`) uses.
pub open spec fn is_whitespace(c: char) -> bool {
    let u = c as u32;
    ||| 0x09 <= u <= 0x0d
    ||| u == 0x20
    ||| u == 0x85
    ||| u == 0xa0
    ||| u == 0x1680
    ||| 0x2000 <= u <= 0x200a
    ||| u == 0x2028
    ||| u == 0x2029
    ||| u == 0x202f
    ||| u == 0x205f
    ||| u == 0x3000
}

/// `s` with all leading whitespace removed.
pub open spec fn trim_start_ws(s: Seq<char>) -> Seq<char>
    decreases s.len(),
{
    if s.len() > 0 && is_whitespace(s[0]) {
        trim_start_ws(s.drop_first())
    } else {
        s
    }
}

/// `s` with all trailing whitespace removed.
pub open spec fn trim_end_ws(s: Seq<char>) -> Seq<char>
    decreases s.len(),
{
    if s.len() > 0 && is_whitespace(s.last()) {
        trim_end_ws(s.drop_last())
    } else {
        s
    }
}

/// `str::trim`.
pub open spec fn trim_ws(s: Seq<char>) -> Seq<char> {
    trim_end_ws(trim_start_ws(s))
}

/// `s` begins with `p`.
pub open spec fn has_prefix(s: Seq<char>, p: Seq<char>) -> bool {
    p.len() <= s.len() && s.take(p.len() as int) == p
}

/// `s` ends with `p`.
pub open spec fn has_suffix(s: Seq<char>, p: Seq<char>) -> bool {
    p.len() <= s.len() && s.skip(s.len() - p.len()) == p
}

/// `str::trim_start_matches` with a string pattern: every leading copy of
/// `p` is removed, repeatedly.
pub open spec fn trim_start_matches(s: Seq<char>, p: Seq<char>) -> Seq<char>
    decreases s.len(),
{
    if p.len() > 0 && has_prefix(s, p) {
        trim_start_matches(s.skip(p.len() as int), p)
    } else {
        s
    }
}

/// `str::trim_end_matches` with a string pattern: every trailing copy of
/// `p` is removed, repeatedly.
pub open spec fn trim_end_matches(s: Seq<char>, p: Seq<char>) -> Seq<char>
    decreases s.len(),
{
    if p.len() > 0 && has_suffix(s, p) {
        trim_end_matches(s.take(s.len() - p.len()), p)
    } else {
        s
    }
}

/// `p` occurs in `s` at position `k`.
pub open spec fn occurs_at(s: Seq<char>, p: Seq<char>, k: int) -> bool {
    0 <= k && k + p.len() <= s.len() && s.subrange(k, k + p.len()) == p
}

/// `str::contains` with a string pattern.
pub open spec fn contains_pattern(s: Seq<char>, p: Seq<char>) -> bool {
    exists|k: int| occurs_at(s, p, k)
}

/// `str::split` on a single character: the pieces between occurrences of
/// `sep`, always at least one.
pub open spec fn split_on(s: Seq<char>, sep: char) -> Seq<Seq<char>>
    decreases s.len(),
{
    if s.len() == 0 {
        seq![Seq::<char>::empty()]
    } else {
        let rest = split_on(s.drop_first(), sep);
        if s[0] == sep {
            seq![Seq::<char>::empty()] + rest
        } else {
            rest.update(0, seq![s[0]] + rest[0])
        }
    }
}

/// Index of the first `c` in `s` (`str::find` with a character).
pub open spec fn first_index_of(s: Seq<char>, c: char) -> Option<int>
    decreases s.len(),
{
    if s.len() == 0 {
        None
    } else if s[0] == c {
        Some(0)
    } else {
        match first_index_of(s.drop_first(), c) {
            Some(i) => Some(i + 1),
            None => None,
        }
    }
}

/// Index of the first piece in `lines` that contains `p`.
pub open spec fn find_first_containing(lines: Seq<Seq<char>>, p: Seq<char>) -> Option<int>
    decreases lines.len(),
{
    if lines.len() == 0 {
        None
    } else if contains_pattern(lines[0], p) {
        Some(0)
    } else {
        match find_first_containing(lines.drop_first(), p) {
            Some(i) => Some(i + 1),
            None => None,
        }
    }
}

/// An ASCII decimal digit.
pub open spec fn is_digit(c: char) -> bool {
    48 <= (c as u32) <= 57
}

/// Value of an ASCII decimal digit.
pub open spec fn digit_value(c: char) -> int {
    (c as u32) - 48
}

/// Every character of `s` is a decimal digit.
pub open spec fn all_digits(s: Seq<char>) -> bool {
    forall|i: int| 0 <= i < s.len() ==> is_digit(#[trigger] s[i])
}

/// The number that the decimal digits `s` denote.
pub open spec fn digits_value(s: Seq<char>) -> int
    decreases s.len(),
{
    if s.len() == 0 {
        0
    } else {
        digits_value(s.drop_last()) * 10 + digit_value(s.last())
    }
}

/// The digits of `s` once an optional single leading `+` is dropped, as
/// `u64::from_str` reads them.
pub open spec fn unsigned_digits(s: Seq<char>) -> Seq<char> {
    if s.len() > 1 && s[0] == '+' {
        s.drop_first()
    } else {
        s
    }
}

/// `u64::from_str`: an optional `+`, then one or more decimal digits whose
/// value fits in a `u64`.
pub open spec fn parse_u64(s: Seq<char>) -> Option<u64> {
    let d = unsigned_digits(s);
    if d.len() > 0 && all_digits(d) && digits_value(d) <= u64::MAX {
        Some(digits_value(d) as u64)
    } else {
        None
    }
}

/// The character of a decimal digit.
pub open spec fn digit_char(d: int) -> char {
    if d <= 0 {
        '0'
    } else if d == 1 {
        '1'
    } else if d == 2 {
        '2'
    } else if d == 3 {
        '3'
    } else if d == 4 {
        '4'
    } else if d == 5 {
        '5'
    } else if d == 6 {
        '6'
    } else if d == 7 {
        '7'
    } else if d == 8 {
        '8'
    } else {
        '9'
    }
}

/// Decimal rendering of `n`, without leading zeros.
pub open spec fn decimal(n: nat) -> Seq<char>
    decreases n,
{
    if n < 10 {
        seq![digit_char(n as int)]
    } else {
        decimal(n / 10).push(digit_char((n % 10) as int))
    }
}

// ---------------------------------------------------------------------------
// Lemmas
// ---------------------------------------------------------------------------

/// `split_on` always yields at least one piece.
pub proof fn lemma_split_nonempty(s: Seq<char>, sep: char)
    ensures
        split_on(s, sep).len() >= 1,
    decreases s.len(),
{
    if s.len() > 0 {
        lemma_split_nonempty(s.drop_first(), sep);
    }
}

/// The first piece ends at the first separator.
pub proof fn lemma_split_at_first(s: Seq<char>, sep: char, e: int)
    requires
        0 <= e < s.len(),
        s[e] == sep,
        forall|k: int| 0 <= k < e ==> s[k] != sep,
    ensures
        split_on(s, sep) == seq![s.take(e)] + split_on(s.skip(e + 1), sep),
    decreases e,
{
    if e == 0 {
        assert(s.take(0) =~= Seq::<char>::empty());
        assert(s.skip(1) =~= s.drop_first());
    } else {
        let t = s.drop_first();
        assert forall|k: int| 0 <= k < e - 1 implies t[k] != sep by {
            assert(t[k] == s[k + 1]);
        }
        lemma_split_at_first(t, sep, e - 1);
        lemma_split_nonempty(t, sep);
        assert(seq![s[0]] + t.take(e - 1) =~= s.take(e));
        assert(t.skip(e) =~= s.skip(e + 1));
        assert(split_on(s, sep) =~= seq![s.take(e)] + split_on(s.skip(e + 1), sep));
    }
}

/// Without a separator there is a single piece, the whole sequence.
pub proof fn lemma_split_without_sep(s: Seq<char>, sep: char)
    requires
        forall|k: int| 0 <= k < s.len() ==> s[k] != sep,
    ensures
        split_on(s, sep) == seq![s],
    decreases s.len(),
{
    if s.len() == 0 {
        assert(s =~= Seq::<char>::empty());
    } else {
        let t = s.drop_first();
        assert forall|k: int| 0 <= k < t.len() implies t[k] != sep by {
            assert(t[k] == s[k + 1]);
        }
        lemma_split_without_sep(t, sep);
        assert(seq![s[0]] + t =~= s);
        assert(split_on(s, sep) =~= seq![s]);
    }
}

/// A separator and a piece without separators appended add one piece.
pub proof fn lemma_split_append(s: Seq<char>, sep: char, x: Seq<char>)
    requires
        forall|i: int| 0 <= i < x.len() ==> x[i] != sep,
    ensures
        split_on(s + seq![sep] + x, sep) == split_on(s, sep) + seq![x],
    decreases s.len(),
{
    let t = s + seq![sep] + x;
    if s.len() == 0 {
        assert(t =~= seq![sep] + x);
        assert(t.drop_first() =~= x);
        lemma_split_without_sep(x, sep);
        assert(split_on(t, sep) =~= split_on(s, sep) + seq![x]);
    } else {
        let s1 = s.drop_first();
        assert(t.drop_first() =~= s1 + seq![sep] + x);
        lemma_split_append(s1, sep, x);
        lemma_split_nonempty(s1, sep);
        assert(t[0] == s[0]);
        assert(split_on(t, sep) =~= split_on(s, sep) + seq![x]);
    }
}

/// The first piece containing `p` lies within the pieces.
pub proof fn lemma_find_first_containing_bound(lines: Seq<Seq<char>>, p: Seq<char>)
    ensures
        find_first_containing(lines, p) matches Some(i) ==> 0 <= i < lines.len()
            && contains_pattern(lines[i], p),
    decreases lines.len(),
{
    if lines.len() > 0 {
        lemma_find_first_containing_bound(lines.drop_first(), p);
    }
}

/// Appending a piece without `p` does not change which piece first
/// contains `p`.
pub proof fn lemma_find_first_containing_append(lines: Seq<Seq<char>>, x: Seq<char>, p: Seq<char>)
    requires
        !contains_pattern(x, p),
    ensures
        find_first_containing(lines + seq![x], p) == find_first_containing(lines, p),
    decreases lines.len(),
{
    let l = lines + seq![x];
    if lines.len() == 0 {
        assert(l =~= seq![x]);
        assert(l.drop_first() =~= Seq::<Seq<char>>::empty());
    } else {
        assert(l.drop_first() =~= lines.drop_first() + seq![x]);
        assert(l[0] == lines[0]);
        lemma_find_first_containing_append(lines.drop_first(), x, p);
    }
}

/// Dropping the last digit: the value of a prefix is at most the value of
/// the whole.
pub proof fn lemma_digits_value_prefix(s: Seq<char>, k: int)
    requires
        0 <= k <= s.len(),
        all_digits(s),
    ensures
        0 <= digits_value(s.take(k)) <= digits_value(s),
    decreases s.len() - k,
{
    if k == s.len() {
        assert(s.take(k) =~= s);
        lemma_digits_value_nonneg(s);
    } else {
        lemma_digits_value_prefix(s, k + 1);
        assert(s.take(k + 1).drop_last() =~= s.take(k));
        assert(is_digit(s[k]));
        lemma_digits_value_nonneg(s.take(k));
    }
}

/// Digit values are never negative.
pub proof fn lemma_digits_value_nonneg(s: Seq<char>)
    requires
        all_digits(s),
    ensures
        digits_value(s) >= 0,
    decreases s.len(),
{
    if s.len() > 0 {
        assert(all_digits(s.drop_last())) by {
            assert forall|i: int| 0 <= i < s.drop_last().len() implies is_digit(
                #[trigger] s.drop_last()[i],
            ) by {
                assert(s.drop_last()[i] == s[i]);
            }
        }
        lemma_digits_value_nonneg(s.drop_last());
        assert(is_digit(s[s.len() - 1]));
    }
}

/// The decimal rendering of `n` is made of digits and denotes `n`.
pub proof fn lemma_decimal(n: nat)
    ensures
        decimal(n).len() > 0,
        all_digits(decimal(n)),
        digits_value(decimal(n)) == n,
        decimal(n)[0] != '+',
    decreases n,
{
    if n >= 10 {
        lemma_decimal(n / 10);
        let d = decimal(n / 10);
        let e = d.push(digit_char((n % 10) as int));
        assert(e.drop_last() =~= d);
        assert(e[0] == d[0]);
        assert forall|i: int| 0 <= i < e.len() implies is_digit(#[trigger] e[i]) by {
            if i < d.len() {
                assert(e[i] == d[i]);
            }
        }
        assert((n / 10) * 10 + n % 10 == n) by (nonlinear_arith);
        assert(digit_value(digit_char((n % 10) as int)) == n % 10);
        assert(e.last() == digit_char((n % 10) as int));
        assert(digits_value(e) == digits_value(d) * 10 + ((n % 10) as int));
        assert(digits_value(d) == n / 10);
        assert(decimal(n) == e);
        assert(digits_value(e) == n);
    } else {
        let e = seq![digit_char(n as int)];
        assert(e.drop_last() =~= Seq::<char>::empty());
        assert(digit_value(digit_char(n as int)) == n);
        assert(digits_value(Seq::<char>::empty()) == 0);
        assert(e.last() == digit_char(n as int));
        assert(digits_value(e) == n);
        assert(decimal(n) == e);
    }
}

/// `u64::from_str` reads back the decimal rendering of a `u64`.
pub proof fn lemma_parse_decimal(n: u64)
    ensures
        parse_u64(decimal(n as nat)) == Some(n),
{
    lemma_decimal(n as nat);
}

/// One leading copy of `p` comes off, and no more when what follows does
/// not start with `p`.
pub proof fn lemma_trim_start_matches_once(p: Seq<char>, r: Seq<char>)
    requires
        p.len() > 0,
        !has_prefix(r, p),
    ensures
        trim_start_matches(p + r, p) == r,
{
    let s = p + r;
    assert(s.take(p.len() as int) =~= p);
    assert(s.skip(p.len() as int) =~= r);
    assert(trim_start_matches(r, p) == r);
    assert(has_prefix(s, p));
}

/// One trailing copy of `p` comes off, and no more when what precedes does
/// not end with `p`.
pub proof fn lemma_trim_end_matches_once(r: Seq<char>, p: Seq<char>)
    requires
        p.len() > 0,
        !has_suffix(r, p),
    ensures
        trim_end_matches(r + p, p) == r,
{
    let s = r + p;
    assert(s.skip(s.len() - p.len()) =~= p);
    assert(s.take(s.len() - p.len()) =~= r);
    assert(trim_end_matches(r, p) == r);
    assert(has_suffix(s, p));
}

/// A sequence that neither starts nor ends with whitespace is its own trim.
pub proof fn lemma_trim_ws_fixed(s: Seq<char>)
    requires
        s.len() > 0 ==> !is_whitespace(s[0]) && !is_whitespace(s.last()),
    ensures
        trim_ws(s) == s,
{
}

/// `p` occurs in `s` where it is found.
pub proof fn lemma_contains_at(s: Seq<char>, p: Seq<char>, k: int)
    requires
        occurs_at(s, p, k),
    ensures
        contains_pattern(s, p),
{
}

// ---------------------------------------------------------------------------
// Executable operations on `chars[lo..hi]`
// ---------------------------------------------------------------------------

/// The characters of `s`, in order.
pub fn chars_of(s: &str) -> (v: Vec<char>)
    ensures
        v@ == s@,
{
    let mut v: Vec<char> = Vec::new();
    for c in it: s.chars()
        invariant
            v@ == it.seq().take(it.index() as int),
            it.seq() == s@,
    {
        v.push(c);
    }
    v
}

/// Whether `c` is Unicode whitespace.
pub fn char_is_whitespace(c: char) -> (b: bool)
    ensures
        b == is_whitespace(c),
{
    let u = c as u32;
    (0x09 <= u && u <= 0x0d) || u == 0x20 || u == 0x85 || u == 0xa0 || u == 0x1680 || (0x2000
        <= u && u <= 0x200a) || u == 0x2028 || u == 0x2029 || u == 0x202f || u == 0x205f || u
        == 0x3000
}

/// Start of `chars[lo..hi]` once leading whitespace is removed.
pub fn skip_ws_start(chars: &Vec<char>, lo: usize, hi: usize) -> (a: usize)
    requires
        lo <= hi <= chars@.len(),
    ensures
        lo <= a <= hi,
        chars@.subrange(a as int, hi as int) == trim_start_ws(chars@.subrange(lo as int, hi as int)),
{
    let mut i = lo;
    while i < hi && char_is_whitespace(chars[i])
        invariant
            lo <= i <= hi <= chars@.len(),
            trim_start_ws(chars@.subrange(lo as int, hi as int)) == trim_start_ws(
                chars@.subrange(i as int, hi as int),
            ),
        decreases hi - i,
    {
        assert(chars@.subrange(i as int, hi as int).drop_first() =~= chars@.subrange(
            i + 1,
            hi as int,
        ));
        i = i + 1;
    }
    i
}

/// End of `chars[lo..hi]` once trailing whitespace is removed.
pub fn skip_ws_end(chars: &Vec<char>, lo: usize, hi: usize) -> (b: usize)
    requires
        lo <= hi <= chars@.len(),
    ensures
        lo <= b <= hi,
        chars@.subrange(lo as int, b as int) == trim_end_ws(chars@.subrange(lo as int, hi as int)),
{
    let mut j = hi;
    while j > lo && char_is_whitespace(chars[j - 1])
        invariant
            lo <= j <= hi <= chars@.len(),
            trim_end_ws(chars@.subrange(lo as int, hi as int)) == trim_end_ws(
                chars@.subrange(lo as int, j as int),
            ),
        decreases j - lo,
    {
        assert(chars@.subrange(lo as int, j as int).drop_last() =~= chars@.subrange(
            lo as int,
            j - 1,
        ));
        j = j - 1;
    }
    j
}

/// Bounds of `trim(chars[lo..hi])`.
pub fn trim_range(chars: &Vec<char>, lo: usize, hi: usize) -> (r: (usize, usize))
    requires
        lo <= hi <= chars@.len(),
    ensures
        lo <= r.0 <= r.1 <= hi,
        chars@.subrange(r.0 as int, r.1 as int) == trim_ws(chars@.subrange(lo as int, hi as int)),
{
    let a = skip_ws_start(chars, lo, hi);
    let b = skip_ws_end(chars, a, hi);
    (a, b)
}

/// Whether `pat` occurs in `chars` at position `k`.
pub fn matches_at(chars: &Vec<char>, k: usize, pat: &[char]) -> (b: bool)
    requires
        k + pat@.len() <= chars@.len(),
    ensures
        b == (chars@.subrange(k as int, k + pat@.len()) == pat@),
{
    let mut i: usize = 0;
    assert(chars@.len() == chars.len());
    while i < pat.len()
        invariant
            k + pat@.len() <= chars@.len(),
            chars@.len() <= usize::MAX,
            i <= pat@.len(),
            chars@.subrange(k as int, k + i) == pat@.take(i as int),
        decreases pat@.len() - i,
    {
        if chars[k + i] != pat[i] {
            assert(chars@.subrange(k as int, k + pat@.len())[i as int] != pat@[i as int]);
            return false;
        }
        assert(chars@.subrange(k as int, k + i + 1) =~= pat@.take(i + 1));
        i = i + 1;
    }
    assert(pat@.take(pat@.len() as int) =~= pat@);
    true
}

/// Start of `trim_start_matches(chars[lo..hi], pat)`.
pub fn skip_pattern_start(chars: &Vec<char>, lo: usize, hi: usize, pat: &[char]) -> (a: usize)
    requires
        lo <= hi <= chars@.len(),
    ensures
        lo <= a <= hi,
        chars@.subrange(a as int, hi as int) == trim_start_matches(
            chars@.subrange(lo as int, hi as int),
            pat@,
        ),
{
    let n = pat.len();
    if n == 0 {
        return lo;
    }
    let mut i = lo;
    while i <= hi && n <= hi - i && matches_at(chars, i, pat)
        invariant
            lo <= i <= hi <= chars@.len(),
            n == pat@.len(),
            n > 0,
            trim_start_matches(chars@.subrange(lo as int, hi as int), pat@) == trim_start_matches(
                chars@.subrange(i as int, hi as int),
                pat@,
            ),
        decreases hi - i,
    {
        let ghost s = chars@.subrange(i as int, hi as int);
        assert(s.take(n as int) =~= chars@.subrange(i as int, i + n));
        assert(s.skip(n as int) =~= chars@.subrange(i + n, hi as int));
        i = i + n;
    }
    proof {
        let s = chars@.subrange(i as int, hi as int);
        if n <= hi - i {
            assert(s.take(n as int) =~= chars@.subrange(i as int, i + n));
        }
    }
    i
}

/// End of `trim_end_matches(chars[lo..hi], pat)`.
pub fn skip_pattern_end(chars: &Vec<char>, lo: usize, hi: usize, pat: &[char]) -> (b: usize)
    requires
        lo <= hi <= chars@.len(),
    ensures
        lo <= b <= hi,
        chars@.subrange(lo as int, b as int) == trim_end_matches(
            chars@.subrange(lo as int, hi as int),
            pat@,
        ),
{
    let n = pat.len();
    if n == 0 {
        return hi;
    }
    let mut j = hi;
    while n <= j - lo && matches_at(chars, j - n, pat)
        invariant
            lo <= j <= hi <= chars@.len(),
            n == pat@.len(),
            n > 0,
            trim_end_matches(chars@.subrange(lo as int, hi as int), pat@) == trim_end_matches(
                chars@.subrange(lo as int, j as int),
                pat@,
            ),
        decreases j - lo,
    {
        let ghost s = chars@.subrange(lo as int, j as int);
        assert(s.skip(s.len() - n) =~= chars@.subrange(j - n, j as int));
        assert(s.take(s.len() - n) =~= chars@.subrange(lo as int, j - n));
        j = j - n;
    }
    proof {
        let s = chars@.subrange(lo as int, j as int);
        if n <= j - lo {
            assert(s.skip(s.len() - n) =~= chars@.subrange(j - n, j as int));
        }
    }
    j
}

/// Whether `pat` occurs in `chars[lo..hi]`.
pub fn contains_in(chars: &Vec<char>, lo: usize, hi: usize, pat: &[char]) -> (b: bool)
    requires
        lo <= hi <= chars@.len(),
    ensures
        b == contains_pattern(chars@.subrange(lo as int, hi as int), pat@),
{
    let ghost s = chars@.subrange(lo as int, hi as int);
    let n = pat.len();
    if n == 0 {
        assert(s.subrange(0, 0) =~= pat@);
        assert(occurs_at(s, pat@, 0));
        return true;
    }
    if n > hi - lo {
        assert forall|k: int| !occurs_at(s, pat@, k) by {}
        return false;
    }
    let mut k = lo;
    while k <= hi - n
        invariant
            lo <= k <= hi <= chars@.len(),
            n == pat@.len(),
            0 < n <= hi - lo,
            s == chars@.subrange(lo as int, hi as int),
            forall|m: int| 0 <= m < k - lo ==> !occurs_at(s, pat@, m),
        decreases hi - k,
    {
        assert(s.subrange(k - lo, k - lo + n) =~= chars@.subrange(k as int, k + n));
        if matches_at(chars, k, pat) {
            assert(occurs_at(s, pat@, k - lo));
            return true;
        }
        k = k + 1;
    }
    assert forall|m: int| !occurs_at(s, pat@, m) by {
        if 0 <= m && m + n <= s.len() {
            assert(m < k - lo);
        }
    }
    false
}

/// Position of the first `c` in `chars[lo..hi]`, or `hi` when there is none.
pub fn find_char(chars: &Vec<char>, lo: usize, hi: usize, c: char) -> (e: usize)
    requires
        lo <= hi <= chars@.len(),
    ensures
        lo <= e <= hi,
        e < hi ==> chars@[e as int] == c,
        forall|k: int| lo <= k < e ==> chars@[k] != c,
{
    let mut i = lo;
    while i < hi && chars[i] != c
        invariant
            lo <= i <= hi <= chars@.len(),
            forall|k: int| lo <= k < i ==> chars@[k] != c,
        decreases hi - i,
    {
        i = i + 1;
    }
    i
}

/// The first piece of `split_on(chars[lo..hi], sep)` ends at `find_char`.
pub proof fn lemma_first_piece(chars: Seq<char>, lo: int, hi: int, sep: char, e: int)
    requires
        0 <= lo <= e <= hi <= chars.len(),
        e < hi ==> chars[e] == sep,
        forall|k: int| lo <= k < e ==> chars[k] != sep,
    ensures
        e < hi ==> split_on(chars.subrange(lo, hi), sep) == seq![chars.subrange(lo, e)]
            + split_on(chars.subrange(e + 1, hi), sep),
        e == hi ==> split_on(chars.subrange(lo, hi), sep) == seq![chars.subrange(lo, hi)],
{
    let s = chars.subrange(lo, hi);
    if e < hi {
        assert forall|k: int| 0 <= k < e - lo implies s[k] != sep by {
            assert(s[k] == chars[lo + k]);
        }
        lemma_split_at_first(s, sep, e - lo);
        assert(s.take(e - lo) =~= chars.subrange(lo, e));
        assert(s.skip(e - lo + 1) =~= chars.subrange(e + 1, hi));
    } else {
        assert forall|k: int| 0 <= k < s.len() implies s[k] != sep by {
            assert(s[k] == chars[lo + k]);
        }
        lemma_split_without_sep(s, sep);
    }
}

/// What `find_char` finds is the first occurrence in the range.
pub proof fn lemma_find_char_first(chars: Seq<char>, lo: int, hi: int, c: char, e: int)
    requires
        0 <= lo <= e <= hi <= chars.len(),
        e < hi ==> chars[e] == c,
        forall|k: int| lo <= k < e ==> chars[k] != c,
    ensures
        e < hi ==> first_index_of(chars.subrange(lo, hi), c) == Some(e - lo),
        e == hi ==> first_index_of(chars.subrange(lo, hi), c) is None,
    decreases e - lo,
{
    let s = chars.subrange(lo, hi);
    if lo < hi {
        assert(s.drop_first() =~= chars.subrange(lo + 1, hi));
        if lo < e {
            lemma_find_char_first(chars, lo + 1, hi, c, e);
        }
    }
}

/// The pieces of `split_on(chars[p..hi], sep)` that a cursor still has to
/// visit: all of them at `Some(p)`, none at `None`.
pub open spec fn pieces_left(chars: Seq<char>, hi: int, cursor: Option<usize>, sep: char) -> Seq<
    Seq<char>,
> {
    match cursor {
        Some(p) => split_on(chars.subrange(p as int, hi), sep),
        None => Seq::empty(),
    }
}

/// A cursor over `chars[..hi]` is in bounds.
pub open spec fn cursor_ok(chars: Seq<char>, hi: int, cursor: Option<usize>) -> bool {
    hi <= chars.len() && (cursor matches Some(p) ==> p <= hi)
}

/// Shifts an optional index by `k`.
pub open spec fn shift(o: Option<int>, k: int) -> Option<int> {
    match o {
        Some(i) => Some(i + k),
        None => None,
    }
}

/// Bounds of the next piece at `cursor`, and the cursor after it.
pub fn next_piece(chars: &Vec<char>, hi: usize, cursor: Option<usize>, sep: char) -> (r: (
    Option<(usize, usize)>,
    Option<usize>,
))
    requires
        cursor_ok(chars@, hi as int, cursor),
    ensures
        cursor_ok(chars@, hi as int, r.1),
        pieces_left(chars@, hi as int, cursor, sep).len() == 0 ==> r.0 is None && r.1 is None,
        pieces_left(chars@, hi as int, cursor, sep).len() > 0 ==> {
            &&& r.0 matches Some((a, b))
            &&& a <= b <= hi
            &&& chars@.subrange(a as int, b as int) == pieces_left(
                chars@,
                hi as int,
                cursor,
                sep,
            )[0]
            &&& pieces_left(chars@, hi as int, r.1, sep) == pieces_left(
                chars@,
                hi as int,
                cursor,
                sep,
            ).drop_first()
        },
{
    match cursor {
        None => (None, None),
        Some(p) => {
            let e = find_char(chars, p, hi, sep);
            proof {
                lemma_first_piece(chars@, p as int, hi as int, sep, e as int);
            }
            if e < hi {
                let ghost l = pieces_left(chars@, hi as int, cursor, sep);
                assert(l.drop_first() =~= split_on(chars@.subrange(e + 1, hi as int), sep));
                (Some((p, e)), Some(e + 1))
            } else {
                let ghost l = pieces_left(chars@, hi as int, cursor, sep);
                assert(l.drop_first() =~= Seq::<Seq<char>>::empty());
                (Some((p, hi)), None)
            }
        },
    }
}

/// Bounds of the first piece left at `cursor` that contains `pat`, and the
/// cursor just after that piece.
pub fn find_piece_containing(
    chars: &Vec<char>,
    hi: usize,
    cursor: Option<usize>,
    sep: char,
    pat: &[char],
) -> (r: (Option<(usize, usize)>, Option<usize>))
    requires
        cursor_ok(chars@, hi as int, cursor),
    ensures
        cursor_ok(chars@, hi as int, r.1),
        ({
            let l = pieces_left(chars@, hi as int, cursor, sep);
            match find_first_containing(l, pat@) {
                Some(i) => {
                    &&& r.0 matches Some((a, b))
                    &&& a <= b <= hi
                    &&& 0 <= i < l.len()
                    &&& chars@.subrange(a as int, b as int) == l[i]
                    &&& pieces_left(chars@, hi as int, r.1, sep) == l.skip(i + 1)
                },
                None => r.0 is None,
            }
        }),
{
    let ghost l0 = pieces_left(chars@, hi as int, cursor, sep);
    let mut cur = cursor;
    let ghost mut k: int = 0;
    loop
        invariant
            cursor_ok(chars@, hi as int, cur),
            l0 == pieces_left(chars@, hi as int, cursor, sep),
            0 <= k <= l0.len(),
            pieces_left(chars@, hi as int, cur, sep) == l0.skip(k),
            find_first_containing(l0, pat@) == shift(
                find_first_containing(pieces_left(chars@, hi as int, cur, sep), pat@),
                k,
            ),
        decreases l0.len() - k,
    {
        let ghost before = pieces_left(chars@, hi as int, cur, sep);
        let (piece, next) = next_piece(chars, hi, cur, sep);
        match piece {
            None => {
                assert(before.len() == 0);
                assert(find_first_containing(before, pat@) is None);
                assert(find_first_containing(l0, pat@) is None);
                return (None, None);
            },
            Some((a, b)) => {
                assert(before.len() > 0);
                assert(before.drop_first() =~= l0.skip(k + 1));
                if contains_in(chars, a, b, pat) {
                    assert(find_first_containing(before, pat@) == Some(0int));
                    assert(before[0] == l0[k]);
                    assert(find_first_containing(l0, pat@) == Some(k));
                    assert(k < l0.len());
                    assert(l0.skip(k)[0] == l0[k]);
                    return (Some((a, b)), next);
                }
                assert(find_first_containing(before, pat@) == shift(
                    find_first_containing(before.drop_first(), pat@),
                    1,
                ));
                cur = next;
                proof {
                    k = k + 1;
                }
            },
        }
    }
}

/// Value of the digits `chars[lo..hi]` as `u64::from_str` reads them.
pub fn parse_u64_in(chars: &Vec<char>, lo: usize, hi: usize) -> (r: Option<u64>)
    requires
        lo <= hi <= chars@.len(),
    ensures
        r == parse_u64(chars@.subrange(lo as int, hi as int)),
{
    let ghost s = chars@.subrange(lo as int, hi as int);
    let start = if hi - lo > 1 && chars[lo] == '+' {
        lo + 1
    } else {
        lo
    };
    let ghost d = chars@.subrange(start as int, hi as int);
    assert(d =~= unsigned_digits(s));
    if start == hi {
        return None;
    }
    let mut i = start;
    while i < hi
        invariant
            start <= i <= hi <= chars@.len(),
            d == chars@.subrange(start as int, hi as int),
            s == chars@.subrange(lo as int, hi as int),
            d == unsigned_digits(s),
            forall|k: int| start <= k < i ==> is_digit(chars@[k]),
        decreases hi - i,
    {
        let u = chars[i] as u32;
        if u < 48 || u > 57 {
            assert(!is_digit(d[i - start]));
            return None;
        }
        i = i + 1;
    }
    assert(all_digits(d)) by {
        assert forall|k: int| 0 <= k < d.len() implies is_digit(#[trigger] d[k]) by {
            assert(d[k] == chars@[start + k]);
        }
    }
    let mut acc: u64 = 0;
    let mut j = start;
    while j < hi
        invariant
            start <= j <= hi <= chars@.len(),
            d == chars@.subrange(start as int, hi as int),
            s == chars@.subrange(lo as int, hi as int),
            d == unsigned_digits(s),
            all_digits(d),
            acc == digits_value(d.take(j - start)),
        decreases hi - j,
    {
        let ghost t = d.take(j - start + 1);
        assert(t.drop_last() =~= d.take(j - start));
        assert(t.last() == chars@[j as int]);
        assert(is_digit(d[j - start]));
        let digit = (chars[j] as u32 - 48) as u64;
        proof {
            lemma_digits_value_prefix(d, j - start + 1);
        }
        assert(digits_value(t) == acc * 10 + digit);
        if acc > (u64::MAX - digit) / 10 {
            assert(digits_value(t) > u64::MAX) by (nonlinear_arith)
                requires
                    acc > (u64::MAX - digit) / 10,
                    digits_value(t) == acc * 10 + digit,
                    digit <= 9,
            ;
            return None;
        }
        assert(acc * 10 + digit <= u64::MAX) by (nonlinear_arith)
            requires
                acc <= (u64::MAX - digit) / 10,
                digit <= 9,
        ;
        acc = acc * 10 + digit;
        j = j + 1;
    }
    assert(d.take(d.len() as int) =~= d);
    Some(acc)
}

/// `core::str::from_utf8`: succeeds exactly on well-formed UTF-8, and the
/// string it gives back is made of exactly those bytes.
#[verifier::external_body]
pub(crate) fn str_from_utf8(bytes: &[u8]) -> (r: Result<&str, Utf8Error>)
    ensures
        r is Ok <==> valid_utf8(bytes@),
        r matches Ok(s) ==> s.spec_bytes() == bytes@,
{
    core::str::from_utf8(bytes)
}

} // verus!
