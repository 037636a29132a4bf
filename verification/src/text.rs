//! Character-level text helpers shared by every other module.
//!
//! Strings are modelled by their view, a `Seq<char>`. The functions here are
//! the string operations the rest of the crate needs, each with a spec.

use vstd::prelude::*;

verus! {

/// Appends one character to a `String` (`String::push`).
#[verifier::external_body]
pub(crate) fn push_char(s: &mut String, c: char)
    ensures
        final(s)@ == old(s)@.push(c),
{
    s.push(c);
}

/// The characters of `s`, in order.
pub fn chars_of(s: &str) -> (out: Vec<char>)
    ensures
        out@ == s@,
{
    let mut out: Vec<char> = Vec::new();
    for c in it: s.chars()
        invariant
            it.seq() == s@,
            out@ == it.seq().take(it.index() as int),
    {
        out.push(c);
    }
    assert(out@ =~= s@);
    out
}


/// A `String` holding exactly the characters of `v`.
pub fn string_of(v: &Vec<char>) -> (out: String)
    ensures
        out@ == v@,
{
    let mut out = String::new();
    let mut i: usize = 0;
    while i < v.len()
        invariant
            i <= v.len(),
            out@ == v@.take(i as int),
        decreases v.len() - i,
    {
        push_char(&mut out, v[i]);
        i = i + 1;
        assert(out@ =~= v@.take(i as int));
    }
    assert(v@.take(i as int) =~= v@);
    out
}

/// Appends every character of `t` to `out`.
pub fn extend_chars(out: &mut Vec<char>, t: &Vec<char>)
    ensures
        final(out)@ == old(out)@ + t@,
{
    let mut i: usize = 0;
    while i < t.len()
        invariant
            i <= t.len(),
            out@ == old(out)@ + t@.take(i as int),
        decreases t.len() - i,
    {
        out.push(t[i]);
        i = i + 1;
        assert(out@ =~= old(out)@ + t@.take(i as int));
    }
    assert(t@.take(i as int) =~= t@);
}

/// Appends the characters of `t` to `out`.
pub fn extend_str(out: &mut Vec<char>, t: &str)
    ensures
        final(out)@ == old(out)@ + t@,
{
    let tc = chars_of(t);
    extend_chars(out, &tc);
}

/// The characters `v[lo..hi]`.
pub fn slice_chars(v: &Vec<char>, lo: usize, hi: usize) -> (out: Vec<char>)
    requires
        lo <= hi <= v.len(),
    ensures
        out@ == v@.subrange(lo as int, hi as int),
{
    let mut out: Vec<char> = Vec::new();
    let mut i: usize = lo;
    while i < hi
        invariant
            lo <= i <= hi <= v.len(),
            out@ == v@.subrange(lo as int, i as int),
        decreases hi - i,
    {
        out.push(v[i]);
        i = i + 1;
        assert(out@ =~= v@.subrange(lo as int, i as int));
    }
    out
}

// ---------------------------------------------------------------------------
// decimal numbers
// ---------------------------------------------------------------------------

pub open spec fn is_digit(c: char) -> bool {
    '0' <= c && c <= '9'
}

pub open spec fn digit_value(c: char) -> nat {
    (c as nat - '0' as nat) as nat
}

pub open spec fn digit_char(d: nat) -> char
    recommends
        d < 10,
{
    (d + '0' as nat) as char
}

/// The shortest decimal spelling of `n`, as `Display` prints an unsigned integer.
pub open spec fn decimal(n: nat) -> Seq<char>
    decreases n,
{
    if n < 10 {
        seq![digit_char(n)]
    } else {
        decimal(n / 10).push(digit_char(n % 10))
    }
}

/// `n` spelled with at least `width` digits, zero-padded on the left (`{:0width$}`).
pub open spec fn zero_padded(n: nat, width: nat) -> Seq<char> {
    if decimal(n).len() >= width {
        decimal(n)
    } else {
        Seq::new((width - decimal(n).len()) as nat, |i: int| '0') + decimal(n)
    }
}

pub open spec fn all_digits(s: Seq<char>) -> bool {
    forall|i: int| 0 <= i < s.len() ==> is_digit(#[trigger] s[i])
}

/// The number a run of decimal digits spells.
pub open spec fn digits_value(s: Seq<char>) -> nat
    decreases s.len(),
{
    if s.len() == 0 {
        0
    } else {
        digits_value(s.drop_last()) * 10 + digit_value(s.last())
    }
}

/// What `str::parse` gives for an unsigned integer type whose largest value is
/// `max`: an optional `+`, then one or more digits, with no overflow.
pub open spec fn parse_unsigned(s: Seq<char>, max: nat) -> Option<nat> {
    let body = if s.len() > 0 && s[0] == '+' { s.drop_first() } else { s };
    if body.len() > 0 && all_digits(body) && digits_value(body) <= max {
        Some(digits_value(body))
    } else {
        None
    }
}

/// What `str::parse` gives for a signed integer type ranging over `[min, max]`:
/// an optional `+` or `-`, then one or more digits, within range.
pub open spec fn parse_signed(s: Seq<char>, min: int, max: int) -> Option<int> {
    let neg = s.len() > 0 && s[0] == '-';
    let body = if s.len() > 0 && (s[0] == '+' || s[0] == '-') { s.drop_first() } else { s };
    let v: int = if neg { -digits_value(body) } else { digits_value(body) as int };
    if body.len() > 0 && all_digits(body) && min <= v <= max {
        Some(v)
    } else {
        None
    }
}

pub proof fn lemma_decimal_digits(n: nat)
    ensures
        all_digits(decimal(n)),
        decimal(n).len() > 0,
        digits_value(decimal(n)) == n,
    decreases n,
{
    let c = digit_char(n % 10);
    assert(c as nat == n % 10 + 48);
    assert(digit_value(c) == n % 10);
    if n < 10 {
        assert(decimal(n).drop_last() =~= Seq::<char>::empty());
        assert(digits_value(Seq::<char>::empty()) == 0);
    } else {
        lemma_decimal_digits(n / 10);
        let d = decimal(n);
        assert(d.drop_last() =~= decimal(n / 10));
        assert(d.last() == c);
        assert(n == (n / 10) * 10 + n % 10);
        assert forall|i: int| 0 <= i < d.len() implies is_digit(#[trigger] d[i]) by {
            if i < d.len() - 1 {
                assert(d[i] == decimal(n / 10)[i]);
            }
        }
    }
}

/// Decimal spellings parse back to the number they spell.
pub proof fn lemma_parse_decimal(n: nat, max: nat)
    requires
        n <= max,
    ensures
        parse_unsigned(decimal(n), max) == Some(n),
{
    lemma_decimal_digits(n);
}

/// Appends the decimal spelling of `n` to `out`.
pub fn push_decimal(out: &mut Vec<char>, n: u64)
    ensures
        final(out)@ == old(out)@ + decimal(n as nat),
    decreases n,
{
    if n >= 10 {
        push_decimal(out, n / 10);
    }
    let d: u8 = (n % 10) as u8;
    let c: char = (d + 48u8) as char;
    assert(c == digit_char((n % 10) as nat));
    out.push(c);
    proof {
        if n >= 10 {
            assert(out@ =~= old(out)@ + decimal(n as nat));
        } else {
            assert(out@ =~= old(out)@ + decimal(n as nat));
        }
    }
}

/// Scans `s` as decimal digits, returning `min(value, cap)`, or `None` when a
/// character is not a digit.
fn scan_digits(s: &Vec<char>, start: usize, cap: u128) -> (r: Option<u128>)
    requires
        start <= s.len(),
        1 <= cap <= u64::MAX as u128 + 1,
    ensures
        match r {
            Some(v) => all_digits(s@.skip(start as int)) && v as nat == if digits_value(
                s@.skip(start as int),
            ) < cap {
                digits_value(s@.skip(start as int))
            } else {
                cap as nat
            },
            None => !all_digits(s@.skip(start as int)),
        },
{
    let mut acc: u128 = 0;
    let mut i: usize = start;
    while i < s.len()
        invariant
            start <= i <= s.len(),
            1 <= cap <= u64::MAX as u128 + 1,
            all_digits(s@.subrange(start as int, i as int)),
            acc as nat == if digits_value(s@.subrange(start as int, i as int)) < cap {
                digits_value(s@.subrange(start as int, i as int))
            } else {
                cap as nat
            },
        decreases s.len() - i,
    {
        let c = s[i];
        if !('0' <= c && c <= '9') {
            assert(s@.skip(start as int)[i - start] == c);
            return None;
        }
        let d: u128 = (c as u32 - 48) as u128;
        let ghost pre = s@.subrange(start as int, i as int);
        let ghost next = s@.subrange(start as int, i + 1);
        assert(next.drop_last() =~= pre);
        assert(next.last() == c);
        assert(d as nat == digit_value(c));
        if acc >= cap {
            acc = cap;
        } else {
            let nv: u128 = acc * 10 + d;
            if nv >= cap {
                acc = cap;
            } else {
                acc = nv;
            }
        }
        proof {
            assert forall|j: int| 0 <= j < next.len() implies is_digit(#[trigger] next[j]) by {
                if j < pre.len() {
                    assert(next[j] == pre[j]);
                }
            }
            let vp = digits_value(pre);
            assert(digits_value(next) == vp * 10 + digit_value(c));
        }
        i = i + 1;
    }
    assert(s@.subrange(start as int, i as int) =~= s@.skip(start as int));
    Some(acc)
}


/// Parses an unsigned integer no larger than `max`, as `str::parse` does for
/// an unsigned type whose largest value is `max`.
pub fn parse_uint(s: &Vec<char>, max: u64) -> (r: Option<u64>)
    ensures
        match r {
            Some(v) => parse_unsigned(s@, max as nat) == Some(v as nat),
            None => parse_unsigned(s@, max as nat) is None,
        },
{
    let start: usize = if s.len() > 0 && s[0] == '+' { 1 } else { 0 };
    let ghost body = if s@.len() > 0 && s@[0] == '+' { s@.drop_first() } else { s@ };
    assert(body =~= s@.skip(start as int));
    if start >= s.len() {
        return None;
    }
    match scan_digits(s, start, max as u128 + 1) {
        None => None,
        Some(v) => {
            if v > max as u128 {
                None
            } else {
                Some(v as u64)
            }
        },
    }
}

/// Parses a signed integer in `[min, max]`, as `str::parse` does for a signed
/// type with that range.
pub fn parse_int(s: &Vec<char>, min: i64, max: i64) -> (r: Option<i64>)
    requires
        min <= 0 <= max,
    ensures
        match r {
            Some(v) => parse_signed(s@, min as int, max as int) == Some(v as int),
            None => parse_signed(s@, min as int, max as int) is None,
        },
{
    let neg = s.len() > 0 && s[0] == '-';
    let start: usize = if s.len() > 0 && (s[0] == '+' || s[0] == '-') { 1 } else { 0 };
    let ghost body = if s@.len() > 0 && (s@[0] == '+' || s@[0] == '-') { s@.drop_first() } else { s@ };
    assert(body =~= s@.skip(start as int));
    if start >= s.len() {
        return None;
    }
    let bound: u128 = if neg { (0i128 - min as i128) as u128 } else { max as u128 };
    match scan_digits(s, start, bound + 1) {
        None => None,
        Some(v) => {
            if v > bound {
                None
            } else if neg {
                Some((0i128 - v as i128) as i64)
            } else {
                Some(v as i64)
            }
        },
    }
}


// ---------------------------------------------------------------------------
// character classes and trimming
// ---------------------------------------------------------------------------

/// Unicode `White_Space`, the set `char::is_whitespace` tests for.
pub open spec fn is_space(c: char) -> bool {
    ('\u{9}' <= c && c <= '\u{d}') || c == ' ' || c == '\u{85}' || c == '\u{a0}' || c
        == '\u{1680}' || ('\u{2000}' <= c && c <= '\u{200a}') || c == '\u{2028}' || c
        == '\u{2029}' || c == '\u{202f}' || c == '\u{205f}' || c == '\u{3000}'
}

/// `char::is_whitespace`.
pub fn is_space_char(c: char) -> (r: bool)
    ensures
        r == is_space(c),
{
    ('\u{9}' <= c && c <= '\u{d}') || c == ' ' || c == '\u{85}' || c == '\u{a0}' || c
        == '\u{1680}' || ('\u{2000}' <= c && c <= '\u{200a}') || c == '\u{2028}' || c
        == '\u{2029}' || c == '\u{202f}' || c == '\u{205f}' || c == '\u{3000}'
}

/// The character sets the crate trims by.
#[derive(Clone, Copy, PartialEq, Eq)]
pub enum Trim {
    /// Unicode whitespace, as `str::trim` uses.
    Space,
    /// `.` and ` `, trimmed off sanitised file names.
    DotSpace,
    /// `.` and `,`, trimmed off the end of a logged URL.
    DotComma,
    /// Line feeds, trimmed off the end of a pasted snippet.
    Newline,
    /// `+` and `-`, trimmed off the front of a UTC offset.
    Sign,
}

pub open spec fn in_set(set: Trim, c: char) -> bool {
    match set {
        Trim::Space => is_space(c),
        Trim::DotSpace => c == '.' || c == ' ',
        Trim::DotComma => c == '.' || c == ',',
        Trim::Newline => c == '\n',
        Trim::Sign => c == '+' || c == '-',
    }
}

pub fn in_set_char(set: Trim, c: char) -> (r: bool)
    ensures
        r == in_set(set, c),
{
    match set {
        Trim::Space => is_space_char(c),
        Trim::DotSpace => c == '.' || c == ' ',
        Trim::DotComma => c == '.' || c == ',',
        Trim::Newline => c == '\n',
        Trim::Sign => c == '+' || c == '-',
    }
}

/// `s` without its leading characters from `set` (`trim_start_matches`).
pub open spec fn trim_start(s: Seq<char>, set: Trim) -> Seq<char>
    decreases s.len(),
{
    if s.len() > 0 && in_set(set, s[0]) {
        trim_start(s.drop_first(), set)
    } else {
        s
    }
}

/// `s` without its trailing characters from `set` (`trim_end_matches`).
pub open spec fn trim_end(s: Seq<char>, set: Trim) -> Seq<char>
    decreases s.len(),
{
    if s.len() > 0 && in_set(set, s.last()) {
        trim_end(s.drop_last(), set)
    } else {
        s
    }
}

/// `s` without leading or trailing characters from `set` (`trim_matches`).
pub open spec fn trim_both(s: Seq<char>, set: Trim) -> Seq<char> {
    trim_end(trim_start(s, set), set)
}

/// Index of the first character of `s` outside `set`, so that
/// `trim_start(s, set) == s.skip(result)`.
pub fn trim_start_index(s: &Vec<char>, set: Trim) -> (i: usize)
    ensures
        i <= s.len(),
        trim_start(s@, set) == s@.skip(i as int),
{
    let mut i: usize = 0;
    assert(s@.skip(0) =~= s@);
    while i < s.len() && in_set_char(set, s[i])
        invariant
            i <= s.len(),
            trim_start(s@, set) == trim_start(s@.skip(i as int), set),
        decreases s.len() - i,
    {
        assert(s@.skip(i as int).drop_first() =~= s@.skip(i + 1));
        i = i + 1;
    }
    i
}

/// Index just past the last character of `s[..hi]` outside `set`.
pub fn trim_end_index(s: &Vec<char>, hi: usize, set: Trim) -> (j: usize)
    requires
        hi <= s.len(),
    ensures
        j <= hi,
        trim_end(s@.take(hi as int), set) == s@.take(j as int),
{
    let mut j: usize = hi;
    while j > 0 && in_set_char(set, s[j - 1])
        invariant
            j <= hi <= s.len(),
            trim_end(s@.take(hi as int), set) == trim_end(s@.take(j as int), set),
        decreases j,
    {
        assert(s@.take(j as int).drop_last() =~= s@.take(j - 1));
        j = j - 1;
    }
    j
}

/// `trim_start_matches` by `set`.
pub fn trimmed_start(s: &Vec<char>, set: Trim) -> (out: Vec<char>)
    ensures
        out@ == trim_start(s@, set),
{
    let i = trim_start_index(s, set);
    slice_chars(s, i, s.len())
}

/// `trim_end_matches` by `set`.
pub fn trimmed_end(s: &Vec<char>, set: Trim) -> (out: Vec<char>)
    ensures
        out@ == trim_end(s@, set),
{
    assert(s@.take(s.len() as int) =~= s@);
    let j = trim_end_index(s, s.len(), set);
    slice_chars(s, 0, j)
}

/// `trim_matches` by `set`; with `Trim::Space` this is `str::trim`.
pub fn trimmed(s: &Vec<char>, set: Trim) -> (out: Vec<char>)
    ensures
        out@ == trim_both(s@, set),
{
    let a = trimmed_start(s, set);
    trimmed_end(&a, set)
}

// ---------------------------------------------------------------------------
// searching
// ---------------------------------------------------------------------------

pub open spec fn matches_at(s: Seq<char>, pat: Seq<char>, i: int) -> bool {
    0 <= i && i + pat.len() <= s.len() && s.subrange(i, i + pat.len()) == pat
}

/// The first position at or after `i` where `pat` occurs in `s`.
pub open spec fn find_from(s: Seq<char>, pat: Seq<char>, i: int) -> Option<int>
    decreases s.len() - i,
{
    if i < 0 || i + pat.len() > s.len() {
        None
    } else if matches_at(s, pat, i) {
        Some(i)
    } else if i >= s.len() {
        None
    } else {
        find_from(s, pat, i + 1)
    }
}

/// `str::find`: the first position where `pat` occurs in `s`.
pub open spec fn find(s: Seq<char>, pat: Seq<char>) -> Option<int> {
    find_from(s, pat, 0)
}

/// `str::contains`.
pub open spec fn contains(s: Seq<char>, pat: Seq<char>) -> bool {
    find(s, pat) is Some
}

/// `str::starts_with`.
pub open spec fn starts_with(s: Seq<char>, pat: Seq<char>) -> bool {
    matches_at(s, pat, 0)
}

/// `str::ends_with`.
pub open spec fn ends_with(s: Seq<char>, pat: Seq<char>) -> bool {
    matches_at(s, pat, s.len() - pat.len())
}

pub fn matches_at_exec(s: &Vec<char>, pat: &Vec<char>, i: usize) -> (r: bool)
    ensures
        r == matches_at(s@, pat@, i as int),
{
    if i > s.len() || pat.len() > s.len() - i {
        return false;
    }
    let mut k: usize = 0;
    while k < pat.len()
        invariant
            i + pat.len() <= s.len(),
            k <= pat.len(),
            forall|m: int| 0 <= m < k ==> s@[i + m] == pat@[m],
        decreases pat.len() - k,
    {
        if s[i + k] != pat[k] {
            assert(s@.subrange(i as int, i + pat.len())[k as int] != pat@[k as int]);
            return false;
        }
        k = k + 1;
    }
    assert(s@.subrange(i as int, i + pat.len()) =~= pat@);
    true
}

/// `find_from` as code.
pub fn find_from_exec(s: &Vec<char>, pat: &Vec<char>, start: usize) -> (r: Option<usize>)
    ensures
        match r {
            Some(i) => find_from(s@, pat@, start as int) == Some(i as int),
            None => find_from(s@, pat@, start as int) is None,
        },
{
    if pat.len() == 0 {
        if start <= s.len() {
            assert(s@.subrange(start as int, start as int) =~= pat@);
            return Some(start);
        }
        return None;
    }
    let mut i: usize = start;
    while i < s.len() && pat.len() <= s.len() - i
        invariant
            pat.len() > 0,
            start <= i,
            find_from(s@, pat@, start as int) == find_from(s@, pat@, i as int),
        decreases s.len() + 1 - i,
    {
        if matches_at_exec(s, pat, i) {
            return Some(i);
        }
        i = i + 1;
    }
    None
}

/// `str::find`.
pub fn find_exec(s: &Vec<char>, pat: &Vec<char>) -> (r: Option<usize>)
    ensures
        match r {
            Some(i) => find(s@, pat@) == Some(i as int),
            None => find(s@, pat@) is None,
        },
{
    find_from_exec(s, pat, 0)
}

/// `str::contains`.
pub fn contains_exec(s: &Vec<char>, pat: &Vec<char>) -> (r: bool)
    ensures
        r == contains(s@, pat@),
{
    find_exec(s, pat).is_some()
}

pub proof fn lemma_find_from_bounds(s: Seq<char>, pat: Seq<char>, i: int)
    ensures
        find_from(s, pat, i) matches Some(j) ==> i <= j && matches_at(s, pat, j),
    decreases s.len() - i,
{
    if !(i < 0 || i + pat.len() > s.len()) && !matches_at(s, pat, i) && i < s.len() {
        lemma_find_from_bounds(s, pat, i + 1);
    }
}

// ---------------------------------------------------------------------------
// replacing and splitting
// ---------------------------------------------------------------------------

/// `s[i..]` with every non-overlapping occurrence of `pat`, scanning from the
/// left, replaced by `rep` (`str::replace`).
pub open spec fn replace_from(s: Seq<char>, pat: Seq<char>, rep: Seq<char>, i: int) -> Seq<char>
    decreases s.len() - i,
{
    if i < 0 || i >= s.len() || pat.len() == 0 {
        if 0 <= i <= s.len() {
            s.subrange(i, s.len() as int)
        } else {
            Seq::empty()
        }
    } else if matches_at(s, pat, i) {
        rep + replace_from(s, pat, rep, i + pat.len())
    } else {
        seq![s[i]] + replace_from(s, pat, rep, i + 1)
    }
}

pub open spec fn replace_all(s: Seq<char>, pat: Seq<char>, rep: Seq<char>) -> Seq<char> {
    replace_from(s, pat, rep, 0)
}

/// `str::replace` for a non-empty pattern.
pub fn replace_exec(s: &Vec<char>, pat: &Vec<char>, rep: &Vec<char>) -> (out: Vec<char>)
    requires
        pat.len() > 0,
    ensures
        out@ == replace_all(s@, pat@, rep@),
{
    let mut out: Vec<char> = Vec::new();
    let mut i: usize = 0;
    while i < s.len()
        invariant
            pat.len() > 0,
            i <= s.len(),
            replace_all(s@, pat@, rep@) == out@ + replace_from(s@, pat@, rep@, i as int),
        decreases s.len() - i,
    {
        if matches_at_exec(s, pat, i) {
            let ghost before = out@;
            extend_chars(&mut out, rep);
            assert(before + (rep@ + replace_from(s@, pat@, rep@, i + pat.len())) =~= out@
                + replace_from(s@, pat@, rep@, i + pat.len()));
            i = i + pat.len();
        } else {
            let ghost before = out@;
            out.push(s[i]);
            assert(before + (seq![s@[i as int]] + replace_from(s@, pat@, rep@, i + 1)) =~= out@
                + replace_from(s@, pat@, rep@, i + 1));
            i = i + 1;
        }
    }
    assert(replace_from(s@, pat@, rep@, i as int) =~= Seq::<char>::empty());
    assert(out@ + Seq::<char>::empty() =~= out@);
    out
}

/// The pieces of `s[start..]` between occurrences of `c` (`str::split`).
pub open spec fn split_from(s: Seq<char>, c: char, start: int) -> Seq<Seq<char>>
    decreases s.len() - start,
{
    if start < 0 || start > s.len() {
        Seq::empty()
    } else {
        match find_from(s, seq![c], start) {
            None => seq![s.subrange(start, s.len() as int)],
            Some(i) => if start <= i < s.len() {
                seq![s.subrange(start, i)] + split_from(s, c, i + 1)
            } else {
                Seq::empty()
            },
        }
    }
}

/// `s.split(c)`.
pub open spec fn split(s: Seq<char>, c: char) -> Seq<Seq<char>> {
    split_from(s, c, 0)
}

pub open spec fn views(v: Seq<Vec<char>>) -> Seq<Seq<char>> {
    v.map_values(|x: Vec<char>| x@)
}

/// `s.split(c)`, each piece as its characters.
pub fn split_exec(s: &Vec<char>, c: char) -> (out: Vec<Vec<char>>)
    ensures
        views(out@) == split(s@, c),
{
    let pat = vec![c];
    assert(pat@ =~= seq![c]);
    let mut out: Vec<Vec<char>> = Vec::new();
    let mut start: usize = 0;
    loop
        invariant
            start <= s.len(),
            pat@ == seq![c],
            split(s@, c) == views(out@) + split_from(s@, c, start as int),
        decreases s.len() - start,
    {
        let ghost before = views(out@);
        match find_from_exec(s, &pat, start) {
            None => {
                let piece = slice_chars(s, start, s.len());
                out.push(piece);
                assert(views(out@) =~= before + split_from(s@, c, start as int));
                return out;
            },
            Some(i) => {
                proof {
                    lemma_find_from_bounds(s@, pat@, start as int);
                }
                let piece = slice_chars(s, start, i);
                out.push(piece);
                assert(views(out@) + split_from(s@, c, i + 1) =~= before + split_from(s@, c, start as int));
                start = i + 1;
            },
        }
    }
}

/// The part of `s` before the first `c`, and the part after it
/// (`str::split_once`).
pub open spec fn split_once(s: Seq<char>, c: char) -> Option<(Seq<char>, Seq<char>)> {
    match find(s, seq![c]) {
        None => None,
        Some(i) => Some((s.take(i), s.skip(i + 1))),
    }
}

pub fn split_once_exec(s: &Vec<char>, c: char) -> (r: Option<(Vec<char>, Vec<char>)>)
    ensures
        match r {
            None => split_once(s@, c) is None,
            Some((a, b)) => split_once(s@, c) == Some((a@, b@)),
        },
{
    let pat = vec![c];
    assert(pat@ =~= seq![c]);
    match find_exec(s, &pat) {
        None => None,
        Some(i) => {
            proof {
                lemma_find_from_bounds(s@, pat@, 0);
                assert(find_from(s@, pat@, 0) == Some(i as int));
                assert(matches_at(s@, pat@, i as int));
                assert(pat@.len() == 1);
            }
            assert(i < s.len());
            let a = slice_chars(s, 0, i);
            let b = slice_chars(s, i + 1, s.len());
            assert(a@ =~= s@.take(i as int));
            assert(b@ =~= s@.skip(i + 1));
            Some((a, b))
        },
    }
}

/// Whether the character sequences are equal.
pub fn chars_eq(a: &Vec<char>, b: &Vec<char>) -> (r: bool)
    ensures
        r == (a@ == b@),
{
    if a.len() != b.len() {
        return false;
    }
    let mut i: usize = 0;
    while i < a.len()
        invariant
            a.len() == b.len(),
            i <= a.len(),
            forall|j: int| 0 <= j < i ==> a@[j] == b@[j],
        decreases a.len() - i,
    {
        if a[i] != b[i] {
            return false;
        }
        i = i + 1;
    }
    assert(a@ =~= b@);
    true
}

/// `s` starts with `pat`.
pub fn starts_with_exec(s: &Vec<char>, pat: &Vec<char>) -> (r: bool)
    ensures
        r == starts_with(s@, pat@),
{
    matches_at_exec(s, pat, 0)
}

/// The whitespace-separated words of `s` (`str::split_whitespace`), built
/// character by character: a non-space character either continues the word
/// the previous character was in, or starts a new one.
pub open spec fn words(s: Seq<char>) -> Seq<Seq<char>>
    decreases s.len(),
{
    if s.len() == 0 {
        Seq::empty()
    } else {
        let w = words(s.drop_last());
        let c = s.last();
        if is_space(c) {
            w
        } else if s.len() >= 2 && !is_space(s[s.len() - 2]) && w.len() > 0 {
            w.update(w.len() - 1, w.last().push(c))
        } else {
            w.push(seq![c])
        }
    }
}

/// `s.split_whitespace()`, each word as its characters.
pub fn words_exec(s: &Vec<char>) -> (out: Vec<Vec<char>>)
    ensures
        views(out@) == words(s@),
{
    let mut out: Vec<Vec<char>> = Vec::new();
    let mut i: usize = 0;
    while i < s.len()
        invariant
            i <= s.len(),
            views(out@) == words(s@.take(i as int)),
        decreases s.len() - i,
    {
        let c = s[i];
        let ghost pre = s@.take(i as int);
        assert(s@.take(i + 1).drop_last() =~= pre);
        assert(s@.take(i + 1).last() == c);
        if is_space_char(c) {
        } else if i >= 1 && !is_space_char(s[i - 1]) && out.len() > 0 {
            assert(s@.take(i + 1)[i - 1] == s@[i - 1]);
            let last = out.len() - 1;
            let mut w = out.remove(last);
            w.push(c);
            out.push(w);
            assert(views(out@) =~= words(pre).update(words(pre).len() - 1, words(pre).last().push(c)));
        } else {
            if i >= 1 {
                assert(s@.take(i + 1)[i - 1] == s@[i - 1]);
            }
            let mut w: Vec<char> = Vec::new();
            w.push(c);
            out.push(w);
            assert(views(out@) =~= words(pre).push(seq![c]));
        }
        i = i + 1;
    }
    assert(s@.take(s.len() as int) =~= s@);
    out
}

/// What `char::is_alphanumeric` says of `c` (Unicode Alphabetic or Numeric).
pub uninterp spec fn is_alphanumeric(c: char) -> bool;

/// An ASCII letter or digit.
pub open spec fn ascii_alnum(c: char) -> bool {
    '0' <= c <= '9' || 'a' <= c <= 'z' || 'A' <= c <= 'Z'
}

/// `char::is_alphanumeric` as the crate reasons about it: exactly the
/// letters and digits on ASCII, the named function beyond.
pub open spec fn alnum(c: char) -> bool {
    if (c as u32) < 128 { ascii_alnum(c) } else { is_alphanumeric(c) }
}

/// Calls `char::is_alphanumeric`. Claims the result is the named function
/// of `c` and, as std documents, that on ASCII it holds of exactly the
/// letters and digits.
#[verifier::external_body]
pub(crate) fn alphanumeric(c: char) -> (r: bool)
    ensures
        r == is_alphanumeric(c),
        (c as u32) < 128 ==> (r <==> ('0' <= c <= '9' || 'a' <= c <= 'z' || 'A' <= c <= 'Z')),
        r == alnum(c),
{
    c.is_alphanumeric()
}

/// `str::to_lowercase` of `s`.
pub uninterp spec fn lowercase(s: Seq<char>) -> Seq<char>;

/// Calls `str::to_lowercase`. Claims only that the result is the named
/// function of the argument.
#[verifier::external_body]
pub(crate) fn to_lower(s: &str) -> (out: String)
    ensures
        out@ == lowercase(s@),
{
    s.to_lowercase()
}

/// The index of the last `c` in `s`.
pub open spec fn last_index(s: Seq<char>, c: char) -> Option<int>
    decreases s.len(),
{
    if s.len() == 0 {
        None
    } else if s.last() == c {
        Some(s.len() - 1)
    } else {
        last_index(s.drop_last(), c)
    }
}

pub proof fn lemma_last_index(s: Seq<char>, c: char)
    ensures
        last_index(s, c) matches Some(i) ==> 0 <= i < s.len() && s[i] == c,
    decreases s.len(),
{
    if s.len() > 0 && s.last() != c {
        lemma_last_index(s.drop_last(), c);
    }
}

pub fn last_index_exec(s: &Vec<char>, c: char) -> (r: Option<usize>)
    ensures
        match r {
            Some(i) => last_index(s@, c) == Some(i as int) && i < s.len(),
            None => last_index(s@, c) is None,
        },
{
    let mut j: usize = s.len();
    assert(s@.take(j as int) =~= s@);
    while j > 0
        invariant
            j <= s.len(),
            last_index(s@, c) == last_index(s@.take(j as int), c),
        decreases j,
    {
        if s[j - 1] == c {
            return Some(j - 1);
        }
        assert(s@.take(j as int).drop_last() =~= s@.take(j - 1));
        j = j - 1;
    }
    None
}

/// The first match of a one-character pattern is preceded by none.
pub proof fn lemma_find_char_from(s: Seq<char>, c: char, start: int)
    requires
        0 <= start <= s.len(),
    ensures
        match find_from(s, seq![c], start) {
            Some(i) => start <= i < s.len() && s[i] == c && forall|j: int| start <= j < i ==> s[j] != c,
            None => forall|j: int| start <= j < s.len() ==> s[j] != c,
        },
    decreases s.len() - start,
{
    if start < s.len() {
        if matches_at(s, seq![c], start) {
            assert(s.subrange(start, start + 1)[0] == s[start]);
        } else {
            assert(s.subrange(start, start + 1) =~= seq![s[start]]);
            lemma_find_char_from(s, c, start + 1);
        }
    }
}

/// No piece of a split contains the separator.
pub proof fn lemma_split_pieces(s: Seq<char>, c: char, start: int)
    requires
        0 <= start <= s.len(),
    ensures
        forall|p: int, j: int|
            0 <= p < split_from(s, c, start).len() && 0 <= j < split_from(s, c, start)[p].len()
                ==> split_from(s, c, start)[p][j] != c,
    decreases s.len() - start,
{
    lemma_find_char_from(s, c, start);
    match find_from(s, seq![c], start) {
        None => {},
        Some(i) => {
            lemma_split_pieces(s, c, i + 1);
            let rest = split_from(s, c, i + 1);
            let all = split_from(s, c, start);
            assert forall|p: int, j: int|
                0 <= p < all.len() && 0 <= j < all[p].len() implies all[p][j] != c by {
                if p > 0 {
                    assert(all[p] == rest[p - 1]);
                }
            }
        },
    }
}

/// Trimming the front leaves a suffix that starts outside the set.
pub proof fn lemma_trim_start(s: Seq<char>, set: Trim)
    ensures
        exists|k: int| 0 <= k <= s.len() && trim_start(s, set) == #[trigger] s.skip(k),
        trim_start(s, set).len() > 0 ==> !in_set(set, trim_start(s, set)[0]),
    decreases s.len(),
{
    if s.len() > 0 && in_set(set, s[0]) {
        lemma_trim_start(s.drop_first(), set);
        let k = choose|k: int| 0 <= k <= s.drop_first().len() && trim_start(s.drop_first(), set) == #[trigger] s.drop_first().skip(k);
        assert(s.drop_first().skip(k) =~= s.skip(k + 1));
    } else {
        assert(s.skip(0) =~= s);
    }
}

/// Trimming the back leaves a prefix that ends outside the set.
pub proof fn lemma_trim_end(s: Seq<char>, set: Trim)
    ensures
        exists|k: int| 0 <= k <= s.len() && trim_end(s, set) == #[trigger] s.take(k),
        trim_end(s, set).len() > 0 ==> !in_set(set, trim_end(s, set).last()),
    decreases s.len(),
{
    if s.len() > 0 && in_set(set, s.last()) {
        lemma_trim_end(s.drop_last(), set);
        let k = choose|k: int| 0 <= k <= s.drop_last().len() && trim_end(s.drop_last(), set) == #[trigger] s.drop_last().take(k);
        assert(s.drop_last().take(k) =~= s.take(k));
    } else {
        assert(s.take(s.len() as int) =~= s);
    }
}

/// Trimming both ends leaves a run of `s` that neither starts nor ends with a
/// character of the set.
pub proof fn lemma_trim_both(s: Seq<char>, set: Trim)
    ensures
        exists|a: int, b: int| 0 <= a <= b <= s.len() && trim_both(s, set) == #[trigger] s.subrange(a, b),
        trim_both(s, set).len() > 0 ==> !in_set(set, trim_both(s, set)[0]) && !in_set(
            set,
            trim_both(s, set).last(),
        ),
{
    lemma_trim_start(s, set);
    let t = trim_start(s, set);
    let k = choose|k: int| 0 <= k <= s.len() && t == #[trigger] s.skip(k);
    lemma_trim_end(t, set);
    let m = choose|m: int| 0 <= m <= t.len() && trim_end(t, set) == #[trigger] t.take(m);
    assert(t.take(m) =~= s.subrange(k, k + m));
    if m > 0 {
        assert(trim_both(s, set)[0] == t[0]);
    }
}

/// Replacing the one-character pattern `c` by text without `x` leaves no `x`
/// behind, provided `x` is `c` itself or was not there to begin with.
pub proof fn lemma_replace_removes(s: Seq<char>, c: char, rep: Seq<char>, x: char, i: int)
    requires
        0 <= i <= s.len(),
        forall|j: int| 0 <= j < rep.len() ==> rep[j] != x,
        x == c || forall|k: int| i <= k < s.len() ==> s[k] != x,
    ensures
        forall|j: int|
            0 <= j < replace_from(s, seq![c], rep, i).len() ==> replace_from(s, seq![c], rep, i)[j] != x,
    decreases s.len() - i,
{
    let out = replace_from(s, seq![c], rep, i);
    if i < s.len() {
        if matches_at(s, seq![c], i) {
            assert(s.subrange(i, i + 1)[0] == s[i]);
            lemma_replace_removes(s, c, rep, x, i + 1);
            let rest = replace_from(s, seq![c], rep, i + 1);
            assert forall|j: int| 0 <= j < out.len() implies out[j] != x by {
                if j >= rep.len() {
                    assert(out[j] == rest[j - rep.len()]);
                }
            }
        } else {
            assert(s.subrange(i, i + 1) =~= seq![s[i]]);
            lemma_replace_removes(s, c, rep, x, i + 1);
            let rest = replace_from(s, seq![c], rep, i + 1);
            assert forall|j: int| 0 <= j < out.len() implies out[j] != x by {
                if j >= 1 {
                    assert(out[j] == rest[j - 1]);
                }
            }
        }
    } else {
        assert(out.len() == 0);
    }
}

/// A split has at least one piece.
/// Splitting `a`, a separator, then a `b` free of separators gives the
/// pieces of `a` followed by `b`.
pub proof fn lemma_split_append(a: Seq<char>, c: char, b: Seq<char>, start: int)
    requires
        0 <= start <= a.len(),
        forall|j: int| 0 <= j < b.len() ==> b[j] != c,
    ensures
        split_from(a + seq![c] + b, c, start) == split_from(a, c, start) + seq![b],
    decreases a.len() - start,
{
    let s = a + seq![c] + b;
    lemma_find_char_from(s, c, start);
    lemma_find_char_from(a, c, start);
    assert(s[a.len() as int] == c);
    match find_from(a, seq![c], start) {
        Some(i) => {
            match find_from(s, seq![c], start) {
                Some(k) => {
                    if k < i {
                        assert(s[k] == a[k]);
                    }
                    assert(s[i] == a[i]);
                    assert(k == i);
                },
                None => {},
            }
            assert(s.subrange(start, i) =~= a.subrange(start, i));
            lemma_split_append(a, c, b, i + 1);
            assert(split_from(s, c, start) == seq![a.subrange(start, i)] + split_from(s, c, i + 1));
            assert(split_from(a, c, start) == seq![a.subrange(start, i)] + split_from(a, c, i + 1));
            assert(split_from(s, c, start) =~= split_from(a, c, start) + seq![b]);
        },
        None => {
            match find_from(s, seq![c], start) {
                Some(k) => {
                    if k < a.len() {
                        assert(s[k] == a[k]);
                    }
                    assert(k == a.len());
                },
                None => {},
            }
            let e: int = a.len() as int + 1;
            lemma_find_char_from(s, c, e);
            match find_from(s, seq![c], e) {
                Some(k) => {
                    assert(s[k] == b[k - e]);
                },
                None => {},
            }
            assert(find_from(s, seq![c], e) is None);
            assert(s.subrange(e, s.len() as int) =~= b);
            assert(split_from(s, c, e) == seq![b]);
            assert(s.subrange(start, a.len() as int) =~= a.subrange(start, a.len() as int));
            assert(split_from(s, c, start) == seq![a.subrange(start, a.len() as int)] + split_from(s, c, e));
            assert(split_from(a, c, start) == seq![a.subrange(start, a.len() as int)]);
            assert(split_from(s, c, start) =~= split_from(a, c, start) + seq![b]);
        },
    }
}

pub proof fn lemma_split_nonempty(s: Seq<char>, c: char, start: int)
    requires
        0 <= start <= s.len(),
    ensures
        split_from(s, c, start).len() >= 1,
{
    lemma_find_char_from(s, c, start);
}

/// A number spelled in two characters lies in `[-9, 99]`.
pub proof fn lemma_two_char_number(s: Seq<char>, min: int, max: int)
    requires
        s.len() == 2,
        parse_signed(s, min, max) is Some,
    ensures
        -9 <= parse_signed(s, min, max)->0 <= 99,
{
    let body = if s[0] == '+' || s[0] == '-' { s.drop_first() } else { s };
    assert(all_digits(body) && body.len() > 0);
    if body.len() == 1 {
        assert(body.drop_last() =~= Seq::<char>::empty());
        assert(is_digit(body[0]));
        assert(digit_value(body[0]) <= 9);
        assert(digits_value(body) == digits_value(body.drop_last()) * 10 + digit_value(body.last()));
        assert(digits_value(body) <= 9);
    } else {
        assert(body =~= s);
        let d = s.drop_last();
        assert(d.drop_last() =~= Seq::<char>::empty());
        assert(is_digit(s[0]) && is_digit(s[1]));
        assert(d[0] == s[0]);
        assert(digit_value(s[0]) <= 9 && digit_value(s[1]) <= 9);
        assert(digits_value(d) == digits_value(d.drop_last()) * 10 + digit_value(d.last()));
        assert(digits_value(d) <= 9);
        assert(digits_value(s) == digits_value(d) * 10 + digit_value(s.last()));
        assert(digits_value(s) <= 99);
    }
}

} // verus!
