//! Character-level text utilities shared by the parser: whitespace
//! classification, trimming, case-insensitive comparison against lowercase
//! keywords, decimal numerals, tokenization, and line splitting.

use vstd::prelude::*;

verus! {

/// Whether `c` is a whitespace character, by the Unicode `White_Space`
/// property (the set that `char::is_whitespace` recognizes).
pub open spec fn is_space(c: char) -> bool {
    c == ' ' || c == '\t' || c == '\n' || c == '\u{b}' || c == '\u{c}' || c == '\r'
        || c == '\u{85}' || c == '\u{a0}' || c == '\u{1680}'
        || c == '\u{2000}' || c == '\u{2001}' || c == '\u{2002}' || c == '\u{2003}'
        || c == '\u{2004}' || c == '\u{2005}' || c == '\u{2006}' || c == '\u{2007}'
        || c == '\u{2008}' || c == '\u{2009}' || c == '\u{200a}'
        || c == '\u{2028}' || c == '\u{2029}' || c == '\u{202f}' || c == '\u{205f}'
        || c == '\u{3000}'
}

/// Executable test for `is_space`.
pub fn is_space_char(c: char) -> (r: bool)
    ensures
        r == is_space(c),
{
    c == ' ' || c == '\t' || c == '\n' || c == '\u{b}' || c == '\u{c}' || c == '\r'
        || c == '\u{85}' || c == '\u{a0}' || c == '\u{1680}'
        || (c >= '\u{2000}' && c <= '\u{200a}')
        || c == '\u{2028}' || c == '\u{2029}' || c == '\u{202f}' || c == '\u{205f}'
        || c == '\u{3000}'
}

/// The number of leading whitespace characters of `s`.
pub open spec fn lead_spaces(s: Seq<char>) -> nat
    decreases s.len(),
{
    if s.len() > 0 && is_space(s[0]) {
        (1 + lead_spaces(s.subrange(1, s.len() as int))) as nat
    } else {
        0
    }
}

/// The number of trailing whitespace characters of `s`.
pub open spec fn trail_spaces(s: Seq<char>) -> nat
    decreases s.len(),
{
    if s.len() > 0 && is_space(s[s.len() - 1]) {
        (1 + trail_spaces(s.subrange(0, s.len() - 1))) as nat
    } else {
        0
    }
}

/// `s` with leading and trailing whitespace removed, as `str::trim` does.
pub open spec fn trim_of(s: Seq<char>) -> Seq<char> {
    let rest = s.subrange(lead_spaces(s) as int, s.len() as int);
    rest.subrange(0, rest.len() - trail_spaces(rest))
}

proof fn lemma_lead_spaces_bound(s: Seq<char>)
    ensures
        lead_spaces(s) <= s.len(),
        forall|j: int| 0 <= j < lead_spaces(s) ==> is_space(s[j]),
        lead_spaces(s) < s.len() ==> !is_space(s[lead_spaces(s) as int]),
    decreases s.len(),
{
    if s.len() > 0 && is_space(s[0]) {
        let t = s.subrange(1, s.len() as int);
        lemma_lead_spaces_bound(t);
        assert(forall|j: int| 1 <= j < lead_spaces(s) ==> is_space(#[trigger] s[j]) == is_space(t[j - 1]));
    }
}

proof fn lemma_trail_spaces_bound(s: Seq<char>)
    ensures
        trail_spaces(s) <= s.len(),
        forall|j: int| s.len() - trail_spaces(s) <= j < s.len() ==> is_space(s[j]),
        trail_spaces(s) < s.len() ==> !is_space(s[s.len() - trail_spaces(s) - 1]),
    decreases s.len(),
{
    if s.len() > 0 && is_space(s[s.len() - 1]) {
        let t = s.subrange(0, s.len() - 1);
        lemma_trail_spaces_bound(t);
        assert(forall|j: int| s.len() - trail_spaces(s) <= j < s.len() - 1
            ==> is_space(#[trigger] s[j]) == is_space(t[j]));
    }
}

/// A forward scan that stops at the first non-space determines `lead_spaces`.
proof fn lemma_lead_spaces_scan(s: Seq<char>, i: int)
    requires
        0 <= i <= s.len(),
        forall|j: int| 0 <= j < i ==> is_space(s[j]),
        i < s.len() ==> !is_space(s[i]),
    ensures
        lead_spaces(s) == i,
    decreases i,
{
    if i == 0 {
        if s.len() > 0 && is_space(s[0]) {
            assert(false);
        }
    } else {
        let t = s.subrange(1, s.len() as int);
        assert(forall|j: int| 0 <= j < i - 1 ==> is_space(#[trigger] t[j]));
        lemma_lead_spaces_scan(t, i - 1);
    }
}

/// A backward scan that stops at the last non-space determines `trail_spaces`.
proof fn lemma_trail_spaces_scan(s: Seq<char>, i: int)
    requires
        0 <= i <= s.len(),
        forall|j: int| s.len() - i <= j < s.len() ==> is_space(s[j]),
        i < s.len() ==> !is_space(s[s.len() - i - 1]),
    ensures
        trail_spaces(s) == i,
    decreases i,
{
    if i == 0 {
        if s.len() > 0 && is_space(s[s.len() - 1]) {
            assert(false);
        }
    } else {
        let t = s.subrange(0, s.len() - 1);
        assert(forall|j: int| t.len() - (i - 1) <= j < t.len() ==> is_space(#[trigger] t[j]));
        lemma_trail_spaces_scan(t, i - 1);
    }
}

/// Finds the bounds `(lo, hi)` of the trimmed region of `s`:
/// `s@.subrange(lo, hi)` is `trim_of(s@)`.
pub fn trim_bounds(s: &str) -> (r: (usize, usize))
    ensures
        0 <= r.0 <= r.1 <= s@.len(),
        trim_of(s@) == s@.subrange(r.0 as int, r.1 as int),
{
    let n = s.unicode_len();
    let mut lo: usize = 0;
    while lo < n && is_space_char(s.get_char(lo))
        invariant
            0 <= lo <= n == s@.len(),
            forall|j: int| 0 <= j < lo ==> is_space(s@[j]),
        decreases n - lo,
    {
        lo = lo + 1;
    }
    proof {
        lemma_lead_spaces_scan(s@, lo as int);
    }
    let mut hi: usize = n;
    while hi > lo && is_space_char(s.get_char(hi - 1))
        invariant
            lo <= hi <= n == s@.len(),
            forall|j: int| hi <= j < n ==> is_space(s@[j]),
        decreases hi,
    {
        hi = hi - 1;
    }
    proof {
        let rest = s@.subrange(lo as int, s@.len() as int);
        assert(forall|j: int| rest.len() - (n - hi) <= j < rest.len() ==> is_space(#[trigger] rest[j]));
        if hi > lo {
            assert(!is_space(rest[rest.len() - (n - hi) - 1]));
        }
        lemma_trail_spaces_scan(rest, n - hi);
        assert(trim_of(s@) =~= s@.subrange(lo as int, hi as int));
    }
    (lo, hi)
}

/// A string with no whitespace at either edge is its own trimmed form.
pub proof fn lemma_no_edge_space_trim(s: Seq<char>)
    requires
        s.len() > 0,
        !is_space(s[0]),
        !is_space(s[s.len() - 1]),
    ensures
        trim_of(s) == s,
{
    lemma_lead_spaces_scan(s, 0);
    assert(s.subrange(0, s.len() as int) =~= s);
    lemma_trail_spaces_scan(s, 0);
    assert(trim_of(s) =~= s);
}

/// Folds to lowercase the uppercase ASCII letters that occur in the
/// mnemonics and register names of the assembly grammar; every other
/// character is left as it is.
pub open spec fn lc(c: char) -> char {
    match c {
        'A' => 'a',
        'B' => 'b',
        'C' => 'c',
        'D' => 'd',
        'I' => 'i',
        'M' => 'm',
        'O' => 'o',
        'P' => 'p',
        'R' => 'r',
        'S' => 's',
        'U' => 'u',
        'V' => 'v',
        _ => c,
    }
}

/// Executable fold matching `lc`.
pub fn lc_char(c: char) -> (r: char)
    ensures
        r == lc(c),
{
    match c {
        'A' => 'a',
        'B' => 'b',
        'C' => 'c',
        'D' => 'd',
        'I' => 'i',
        'M' => 'm',
        'O' => 'o',
        'P' => 'p',
        'R' => 'r',
        'S' => 's',
        'U' => 'u',
        'V' => 'v',
        _ => c,
    }
}

/// Case-insensitive equality of `s` against a lowercase keyword `t`:
/// same length, and each character of `s` folds to the one of `t`.
pub open spec fn eq_ci(s: Seq<char>, t: Seq<char>) -> bool {
    s.len() == t.len() && forall|i: int| 0 <= i < s.len() ==> lc(s[i]) == t[i]
}

/// Compares `s@.subrange(lo, hi)` case-insensitively against the lowercase
/// keyword `t`.
pub fn range_eq_ci(s: &str, lo: usize, hi: usize, t: &str) -> (r: bool)
    requires
        0 <= lo <= hi <= s@.len(),
    ensures
        r == eq_ci(s@.subrange(lo as int, hi as int), t@),
{
    let n = t.unicode_len();
    if hi - lo != n {
        return false;
    }
    let ghost w = s@.subrange(lo as int, hi as int);
    let mut i: usize = 0;
    while i < n
        invariant
            0 <= i <= n == t@.len(),
            lo <= hi <= s@.len(),
            hi - lo == n,
            w == s@.subrange(lo as int, hi as int),
            forall|j: int| 0 <= j < i ==> lc(w[j]) == t@[j],
        decreases n - i,
    {
        if lc_char(s.get_char(lo + i)) != t.get_char(i) {
            return false;
        }
        i = i + 1;
    }
    true
}

/// Whether `c` is an ASCII decimal digit.
pub open spec fn is_digit(c: char) -> bool {
    '0' <= c && c <= '9'
}

/// The numeric value of the digit `c`.
pub open spec fn digit_val(c: char) -> nat
    recommends
        is_digit(c),
{
    (c as nat - '0' as nat) as nat
}

/// The value of a sequence of decimal digits, most significant first.
pub open spec fn digits_val(s: Seq<char>) -> nat
    decreases s.len(),
{
    if s.len() == 0 {
        0
    } else {
        digits_val(s.subrange(0, s.len() - 1)) * 10 + digit_val(s[s.len() - 1])
    }
}

/// The value of `d` read as a run of decimal digits, `None` when `d` is
/// empty, holds a non-digit, or exceeds 16 bits.
pub open spec fn digits_of(d: Seq<char>) -> Option<u16> {
    if d.len() > 0 && (forall|i: int| 0 <= i < d.len() ==> is_digit(d[i])) && digits_val(d) <= 65535 {
        Some(digits_val(d) as u16)
    } else {
        None
    }
}

/// What `str::parse::<u16>` accepts: an optional leading `+`, then one or
/// more decimal digits whose value fits in 16 bits.
pub open spec fn u16_of(s: Seq<char>) -> Option<u16> {
    if s.len() > 0 && s[0] == '+' {
        digits_of(s.subrange(1, s.len() as int))
    } else {
        digits_of(s)
    }
}

/// A digit appended to a digit string can only raise its value.
proof fn lemma_digits_val_monotone(s: Seq<char>, i: int)
    requires
        0 <= i <= s.len(),
    ensures
        digits_val(s.subrange(0, i)) <= digits_val(s),
    decreases s.len() - i,
{
    if i < s.len() {
        let t = s.subrange(0, s.len() - 1);
        if i < s.len() - 1 {
            assert(t.subrange(0, i) =~= s.subrange(0, i));
            lemma_digits_val_monotone(t, i);
        } else {
            assert(s.subrange(0, i) =~= t);
        }
    } else {
        assert(s.subrange(0, i) =~= s);
    }
}

/// Parses the digit run `s@.subrange(lo, hi)` as a 16-bit value, `None` when
/// some character is not a digit or the value does not fit.
fn parse_digits(s: &str, lo: usize, hi: usize) -> (r: Option<u16>)
    requires
        0 <= lo <= hi <= s@.len(),
    ensures
        r == digits_of(s@.subrange(lo as int, hi as int)),
{
    let ghost d = s@.subrange(lo as int, hi as int);
    if lo == hi {
        return None;
    }
    let mut val: u32 = 0;
    let mut i: usize = 0;
    while i < hi - lo
        invariant
            0 <= i <= hi - lo,
            lo <= hi <= s@.len(),
            d == s@.subrange(lo as int, hi as int),
            forall|j: int| 0 <= j < i ==> is_digit(d[j]),
            val == digits_val(d.subrange(0, i as int)),
            val <= 65535,
        decreases hi - lo - i,
    {
        let c = s.get_char(lo + i);
        if c < '0' || c > '9' {
            assert(!is_digit(d[i as int]));
            assert(digits_of(d) is None);
            return None;
        }
        let digit: u32 = (c as u32) - ('0' as u32);
        assert(digit == digit_val(d[i as int]));
        let next: u32 = val * 10 + digit;
        proof {
            assert(d.subrange(0, i + 1).subrange(0, i as int) =~= d.subrange(0, i as int));
            assert(d.subrange(0, i + 1)[i as int] == d[i as int]);
        }
        if next > 65535 {
            proof {
                lemma_digits_val_monotone(d, i + 1);
            }
            return None;
        }
        val = next;
        i = i + 1;
    }
    proof {
        assert(d.subrange(0, (hi - lo) as int) =~= d);
    }
    Some(val as u16)
}

/// Parses `s@.subrange(lo, hi)` as `str::parse::<u16>` would parse that
/// region: an optional `+` sign, then digits, within 16-bit range.
pub fn parse_u16(s: &str, lo: usize, hi: usize) -> (r: Option<u16>)
    requires
        0 <= lo <= hi <= s@.len(),
    ensures
        r == u16_of(s@.subrange(lo as int, hi as int)),
{
    let ghost w = s@.subrange(lo as int, hi as int);
    if lo < hi && s.get_char(lo) == '+' {
        proof {
            assert(w[0] == s@[lo as int]);
            assert(w.subrange(1, w.len() as int) =~= s@.subrange(lo + 1, hi as int));
        }
        parse_digits(s, lo + 1, hi)
    } else {
        proof {
            if lo < hi {
                assert(w[0] == s@[lo as int]);
            }
        }
        parse_digits(s, lo, hi)
    }
}

/// Equality of two strings, character by character.
pub fn str_eq(a: &str, b: &str) -> (r: bool)
    ensures
        r == (a@ == b@),
{
    let n = a.unicode_len();
    if n != b.unicode_len() {
        return false;
    }
    let mut i: usize = 0;
    while i < n
        invariant
            0 <= i <= n == a@.len() == b@.len(),
            forall|j: int| 0 <= j < i ==> a@[j] == b@[j],
        decreases n - i,
    {
        if a.get_char(i) != b.get_char(i) {
            return false;
        }
        i = i + 1;
    }
    proof {
        assert(a@ =~= b@);
    }
    true
}

/// The length of the maximal non-space prefix of `s`.
pub open spec fn word_len(s: Seq<char>) -> nat
    decreases s.len(),
{
    if s.len() > 0 && !is_space(s[0]) {
        (1 + word_len(s.subrange(1, s.len() as int))) as nat
    } else {
        0
    }
}

/// The whitespace-separated tokens of `s`, in order, as
/// `str::split_whitespace` yields them.
pub open spec fn tokens(s: Seq<char>) -> Seq<Seq<char>>
    decreases s.len(),
{
    if s.len() == 0 {
        Seq::empty()
    } else if is_space(s[0]) {
        tokens(s.subrange(1, s.len() as int))
    } else {
        let k = vstd::math::min(word_len(s) as int, s.len() as int);
        seq![s.subrange(0, k)] + tokens(s.subrange(k, s.len() as int))
    }
}

/// A forward scan that stops at the first space determines `word_len`.
proof fn lemma_word_len_scan(s: Seq<char>, i: int)
    requires
        0 <= i <= s.len(),
        forall|j: int| 0 <= j < i ==> !is_space(s[j]),
        i < s.len() ==> is_space(s[i]),
    ensures
        word_len(s) == i,
    decreases i,
{
    if i == 0 {
        if s.len() > 0 && !is_space(s[0]) {
            assert(false);
        }
    } else {
        let t = s.subrange(1, s.len() as int);
        assert(forall|j: int| 0 <= j < i - 1 ==> !is_space(#[trigger] t[j]));
        lemma_word_len_scan(t, i - 1);
    }
}

/// Splits `s` into its whitespace-separated tokens, returned as index pairs
/// into `s`: pair `k` bounds token `k` of `tokens(s@)`.
pub fn tokenize(s: &str) -> (r: Vec<(usize, usize)>)
    ensures
        r@.len() == tokens(s@).len(),
        forall|k: int| 0 <= k < r@.len()
            ==> 0 <= #[trigger] r@[k].0 <= r@[k].1 <= s@.len()
                && s@.subrange(r@[k].0 as int, r@[k].1 as int) == tokens(s@)[k],
{
    let n = s.unicode_len();
    let mut out: Vec<(usize, usize)> = Vec::new();
    let mut i: usize = 0;
    proof {
        assert(s@.subrange(0, n as int) =~= s@);
        assert(out@.map_values(|p: (usize, usize)| s@.subrange(p.0 as int, p.1 as int))
            + tokens(s@) =~= tokens(s@));
    }
    while i < n
        invariant
            0 <= i <= n == s@.len(),
            tokens(s@) == out@.map_values(|p: (usize, usize)| s@.subrange(p.0 as int, p.1 as int))
                + tokens(s@.subrange(i as int, n as int)),
            forall|k: int| 0 <= k < out@.len()
                ==> 0 <= #[trigger] out@[k].0 <= out@[k].1 <= s@.len(),
        decreases n - i,
    {
        let ghost rest = s@.subrange(i as int, n as int);
        if is_space_char(s.get_char(i)) {
            proof {
                assert(rest.subrange(1, rest.len() as int)
                    =~= s@.subrange(i + 1, n as int));
            }
            i = i + 1;
        } else {
            let mut j: usize = i + 1;
            while j < n && !is_space_char(s.get_char(j))
                invariant
                    i < j <= n == s@.len(),
                    forall|t: int| i <= t < j ==> !is_space(s@[t]),
                decreases n - j,
            {
                j = j + 1;
            }
            proof {
                assert(forall|t: int| 0 <= t < j - i ==> !is_space(#[trigger] rest[t]));
                if j < n {
                    assert(is_space(rest[j - i]));
                }
                lemma_word_len_scan(rest, j - i);
                assert(rest.subrange(0, j - i) =~= s@.subrange(i as int, j as int));
                assert(rest.subrange(j - i, rest.len() as int)
                    =~= s@.subrange(j as int, n as int));
            }
            let ghost prev = out@;
            out.push((i, j));
            proof {
                assert(out@.map_values(|p: (usize, usize)| s@.subrange(p.0 as int, p.1 as int))
                    =~= prev.map_values(|p: (usize, usize)| s@.subrange(p.0 as int, p.1 as int))
                        + seq![s@.subrange(i as int, j as int)]);
                assert(tokens(s@) == out@.map_values(
                    |p: (usize, usize)| s@.subrange(p.0 as int, p.1 as int))
                    + tokens(s@.subrange(j as int, n as int)));
            }
            i = j;
        }
    }
    proof {
        assert(s@.subrange(n as int, n as int) =~= Seq::<char>::empty());
        let m = out@.map_values(|p: (usize, usize)| s@.subrange(p.0 as int, p.1 as int));
        assert(tokens(s@) =~= m);
        assert(forall|k: int| 0 <= k < out@.len() ==> m[k] == tokens(s@)[k]);
    }
    out
}

/// A token with one trailing comma removed, as the parser tolerates in
/// comma-separated operand lists.
pub open spec fn strip_comma(w: Seq<char>) -> Seq<char> {
    if w.len() > 0 && w[w.len() - 1] == ',' {
        w.subrange(0, w.len() - 1)
    } else {
        w
    }
}

/// The length of the prefix of `s` before its first line feed.
pub open spec fn nl_prefix(s: Seq<char>) -> nat
    decreases s.len(),
{
    if s.len() > 0 && s[0] != '\n' {
        (1 + nl_prefix(s.subrange(1, s.len() as int))) as nat
    } else {
        0
    }
}

/// A line with a final carriage return removed, as `str::lines` does for
/// `\r\n` endings.
pub open spec fn chop_cr(l: Seq<char>) -> Seq<char> {
    if l.len() > 0 && l[l.len() - 1] == '\r' {
        l.subrange(0, l.len() - 1)
    } else {
        l
    }
}

/// The lines of `s`, as `str::lines` yields them: split at `\n`, with a
/// carriage return before the line feed removed, and no final empty line
/// after a trailing terminator.
pub open spec fn split_lines(s: Seq<char>) -> Seq<Seq<char>>
    decreases s.len(),
{
    if s.len() == 0 {
        Seq::empty()
    } else {
        let k = vstd::math::min(nl_prefix(s) as int, s.len() as int);
        if k == s.len() {
            seq![s]
        } else {
            seq![chop_cr(s.subrange(0, k))] + split_lines(s.subrange(k + 1, s.len() as int))
        }
    }
}

/// A forward scan that stops at the first line feed determines `nl_prefix`.
proof fn lemma_nl_prefix_scan(s: Seq<char>, i: int)
    requires
        0 <= i <= s.len(),
        forall|j: int| 0 <= j < i ==> s[j] != '\n',
        i < s.len() ==> s[i] == '\n',
    ensures
        nl_prefix(s) == i,
    decreases i,
{
    if i == 0 {
        if s.len() > 0 && s[0] != '\n' {
            assert(false);
        }
    } else {
        let t = s.subrange(1, s.len() as int);
        assert(forall|j: int| 0 <= j < i - 1 ==> #[trigger] t[j] != '\n');
        lemma_nl_prefix_scan(t, i - 1);
    }
}

/// Splits `s` into its lines, returned as index pairs into `s`: pair `k`
/// bounds line `k` of `split_lines(s@)`.
pub fn line_spans(s: &str) -> (r: Vec<(usize, usize)>)
    ensures
        r@.len() == split_lines(s@).len(),
        forall|k: int| 0 <= k < r@.len()
            ==> 0 <= #[trigger] r@[k].0 <= r@[k].1 <= s@.len()
                && s@.subrange(r@[k].0 as int, r@[k].1 as int) == split_lines(s@)[k],
{
    let n = s.unicode_len();
    let mut out: Vec<(usize, usize)> = Vec::new();
    let mut i: usize = 0;
    proof {
        assert(s@.subrange(0, n as int) =~= s@);
        assert(out@.map_values(|p: (usize, usize)| s@.subrange(p.0 as int, p.1 as int))
            + split_lines(s@) =~= split_lines(s@));
    }
    while i < n
        invariant
            0 <= i <= n == s@.len(),
            split_lines(s@) == out@.map_values(
                |p: (usize, usize)| s@.subrange(p.0 as int, p.1 as int))
                + split_lines(s@.subrange(i as int, n as int)),
            forall|k: int| 0 <= k < out@.len()
                ==> 0 <= #[trigger] out@[k].0 <= out@[k].1 <= s@.len(),
        decreases n - i,
    {
        let ghost rest = s@.subrange(i as int, n as int);
        let mut j: usize = i;
        while j < n && s.get_char(j) != '\n'
            invariant
                i <= j <= n == s@.len(),
                forall|t: int| i <= t < j ==> s@[t] != '\n',
            decreases n - j,
        {
            j = j + 1;
        }
        proof {
            assert(forall|t: int| 0 <= t < j - i ==> #[trigger] rest[t] != '\n');
            if j < n {
                assert(rest[j - i] == '\n');
            }
            lemma_nl_prefix_scan(rest, j - i);
        }
        let hi: usize = if j < n && j > i && s.get_char(j - 1) == '\r' {
            j - 1
        } else {
            j
        };
        let ghost prev = out@;
        out.push((i, hi));
        proof {
            let raw = rest.subrange(0, j - i);
            assert(raw =~= s@.subrange(i as int, j as int));
            if j < n {
                assert(chop_cr(raw) =~= s@.subrange(i as int, hi as int));
                assert(rest.subrange(j - i + 1, rest.len() as int)
                    =~= s@.subrange(j + 1, n as int));
            } else {
                assert(rest =~= s@.subrange(i as int, hi as int));
            }
            assert(out@.map_values(|p: (usize, usize)| s@.subrange(p.0 as int, p.1 as int))
                =~= prev.map_values(|p: (usize, usize)| s@.subrange(p.0 as int, p.1 as int))
                    + seq![s@.subrange(i as int, hi as int)]);
            if j < n {
                assert(split_lines(s@) == out@.map_values(
                    |p: (usize, usize)| s@.subrange(p.0 as int, p.1 as int))
                    + split_lines(s@.subrange(j + 1, n as int)));
            } else {
                assert(split_lines(rest) =~= seq![rest]);
                assert(split_lines(s@.subrange(n as int, n as int)) =~= Seq::<Seq<char>>::empty());
                assert(split_lines(s@) == out@.map_values(
                    |p: (usize, usize)| s@.subrange(p.0 as int, p.1 as int))
                    + split_lines(s@.subrange(n as int, n as int)));
            }
        }
        if j < n {
            i = j + 1;
        } else {
            i = n;
        }
    }
    proof {
        assert(s@.subrange(n as int, n as int) =~= Seq::<char>::empty());
        let m = out@.map_values(|p: (usize, usize)| s@.subrange(p.0 as int, p.1 as int));
        assert(split_lines(s@) =~= m);
        assert(forall|k: int| 0 <= k < out@.len() ==> m[k] == split_lines(s@)[k]);
    }
    out
}

} // verus!
