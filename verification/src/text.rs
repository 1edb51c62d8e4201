//! Character classes, searching and trimming over character sequences,
//! and conversions between `str`/`String` and character vectors.
use vstd::prelude::*;

verus! {

/// Unicode `White_Space` characters (what `char::is_whitespace` accepts).
pub open spec fn is_ws(c: char) -> bool {
    ||| '\u{9}' <= c && c <= '\u{d}'
    ||| c == ' '
    ||| c == '\u{85}'
    ||| c == '\u{a0}'
    ||| c == '\u{1680}'
    ||| '\u{2000}' <= c && c <= '\u{200a}'
    ||| c == '\u{2028}'
    ||| c == '\u{2029}'
    ||| c == '\u{202f}'
    ||| c == '\u{205f}'
    ||| c == '\u{3000}'
}

/// ASCII decimal digit.
pub open spec fn is_digit(c: char) -> bool {
    '0' <= c && c <= '9'
}

/// What `char::is_alphanumeric` returns for `c` (Unicode `Alphabetic` or `Numeric`).
pub uninterp spec fn char_is_alphanumeric(c: char) -> bool;

/// Calls `char::is_alphanumeric`; its result is the named predicate above.
#[verifier::external_body]
fn is_alphanumeric(c: char) -> (r: bool)
    ensures
        r == char_is_alphanumeric(c),
{
    c.is_alphanumeric()
}

/// Whether `c` is Unicode whitespace.
pub fn is_whitespace(c: char) -> (r: bool)
    ensures
        r == is_ws(c),
{
    ('\u{9}' <= c && c <= '\u{d}') || c == ' ' || c == '\u{85}' || c == '\u{a0}' || c == '\u{1680}'
        || ('\u{2000}' <= c && c <= '\u{200a}') || c == '\u{2028}' || c == '\u{2029}' || c
        == '\u{202f}' || c == '\u{205f}' || c == '\u{3000}'
}

/// Whether `c` is an ASCII decimal digit.
pub fn is_ascii_digit(c: char) -> (r: bool)
    ensures
        r == is_digit(c),
{
    '0' <= c && c <= '9'
}

/// The classes of characters that the scanners skip over.
#[derive(Clone, Copy)]
pub enum CharClass {
    /// whitespace
    Space,
    /// whitespace or `,`
    SpaceOrComma,
    /// whitespace or `:`
    SpaceOrColon,
    /// whitespace or `=`
    SpaceOrEquals,
    /// alphanumeric or `_`
    Word,
    /// ASCII digit or `.`
    DigitOrDot,
    /// neither whitespace nor `>`
    IdText,
}

pub open spec fn in_class(c: char, cls: CharClass) -> bool {
    match cls {
        CharClass::Space => is_ws(c),
        CharClass::SpaceOrComma => is_ws(c) || c == ',',
        CharClass::SpaceOrColon => is_ws(c) || c == ':',
        CharClass::SpaceOrEquals => is_ws(c) || c == '=',
        CharClass::Word => char_is_alphanumeric(c) || c == '_',
        CharClass::DigitOrDot => is_digit(c) || c == '.',
        CharClass::IdText => !is_ws(c) && c != '>',
    }
}

/// Whether `c` belongs to `cls`.
pub fn class_contains(c: char, cls: CharClass) -> (r: bool)
    ensures
        r == in_class(c, cls),
{
    match cls {
        CharClass::Space => is_whitespace(c),
        CharClass::SpaceOrComma => is_whitespace(c) || c == ',',
        CharClass::SpaceOrColon => is_whitespace(c) || c == ':',
        CharClass::SpaceOrEquals => is_whitespace(c) || c == '=',
        CharClass::Word => is_alphanumeric(c) || c == '_',
        CharClass::DigitOrDot => is_ascii_digit(c) || c == '.',
        CharClass::IdText => !is_whitespace(c) && c != '>',
    }
}

/// The end of the run of `cls` characters that starts at `i`.
pub open spec fn run_end(s: Seq<char>, i: int, cls: CharClass) -> int
    decreases s.len() - i,
{
    if 0 <= i < s.len() && in_class(s[i], cls) {
        run_end(s, i + 1, cls)
    } else {
        i
    }
}

pub proof fn lemma_run_end(s: Seq<char>, i: int, cls: CharClass)
    requires
        0 <= i <= s.len(),
    ensures
        i <= run_end(s, i, cls) <= s.len(),
        forall|k: int| i <= k < run_end(s, i, cls) ==> in_class(#[trigger] s[k], cls),
        run_end(s, i, cls) < s.len() ==> !in_class(s[run_end(s, i, cls)], cls),
    decreases s.len() - i,
{
    if i < s.len() && in_class(s[i], cls) {
        lemma_run_end(s, i + 1, cls);
    }
}

/// A run of `cls` characters from `i` that stops at `e` ends at `e`.
pub proof fn lemma_run_end_at(s: Seq<char>, i: int, e: int, cls: CharClass)
    requires
        0 <= i <= e <= s.len(),
        forall|k: int| i <= k < e ==> in_class(#[trigger] s[k], cls),
        e < s.len() ==> !in_class(s[e], cls),
    ensures
        run_end(s, i, cls) == e,
    decreases e - i,
{
    if i < e {
        lemma_run_end_at(s, i + 1, e, cls);
    }
}

/// Index of the first character at or after `i` that is not in `cls` (or the length).
pub fn scan_run(s: &Vec<char>, i: usize, cls: CharClass) -> (r: usize)
    requires
        i <= s.len(),
    ensures
        r as int == run_end(s@, i as int, cls),
        i <= r <= s.len(),
{
    proof {
        lemma_run_end(s@, i as int, cls);
    }
    let mut j = i;
    while j < s.len() && class_contains(s[j], cls)
        invariant
            i <= j <= s.len(),
            run_end(s@, i as int, cls) == run_end(s@, j as int, cls),
        decreases s.len() - j,
    {
        j = j + 1;
    }
    j
}

/// ASCII case folding of a character, as a code point.
pub open spec fn fold_ascii(c: char) -> int {
    if 'A' <= c && c <= 'Z' {
        c as int + 32
    } else {
        c as int
    }
}

pub open spec fn chars_match(a: char, b: char, fold: bool) -> bool {
    if fold {
        fold_ascii(a) == fold_ascii(b)
    } else {
        a == b
    }
}

/// `p` occurs at `k` in `s` (ASCII-case-insensitively when `fold`).
pub open spec fn matches_at(s: Seq<char>, p: Seq<char>, k: int, fold: bool) -> bool {
    forall|t: int| 0 <= t < p.len() ==> chars_match(#[trigger] s[k + t], p[t], fold)
}

/// The first position `k` with `lo <= k` and `k + p.len() <= hi` at which `p` occurs.
pub open spec fn find_range(s: Seq<char>, p: Seq<char>, lo: int, hi: int, fold: bool) -> Option<int>
    decreases hi - lo,
{
    if lo < 0 || lo + p.len() > hi {
        None
    } else if matches_at(s, p, lo, fold) {
        Some(lo)
    } else {
        find_range(s, p, lo + 1, hi, fold)
    }
}

pub proof fn lemma_find_range(s: Seq<char>, p: Seq<char>, lo: int, hi: int, fold: bool)
    requires
        0 <= lo,
    ensures
        find_range(s, p, lo, hi, fold) matches Some(k) ==> lo <= k && k + p.len() <= hi
            && matches_at(s, p, k, fold),
        find_range(s, p, lo, hi, fold) matches Some(k) ==> forall|j: int|
            lo <= j < k ==> !matches_at(s, p, j, fold),
        find_range(s, p, lo, hi, fold) is None ==> forall|j: int|
            lo <= j && j + p.len() <= hi ==> !matches_at(s, p, j, fold),
    decreases hi - lo,
{
    if lo + p.len() <= hi && !matches_at(s, p, lo, fold) {
        lemma_find_range(s, p, lo + 1, hi, fold);
    }
}

fn fold_code(c: char) -> (r: u32)
    ensures
        r as int == fold_ascii(c),
{
    if 'A' <= c && c <= 'Z' {
        c as u32 + 32
    } else {
        c as u32
    }
}

fn char_eq(a: char, b: char, fold: bool) -> (r: bool)
    ensures
        r == chars_match(a, b, fold),
{
    if fold {
        fold_code(a) == fold_code(b)
    } else {
        a == b
    }
}

pub open spec fn opt_int(r: Option<usize>) -> Option<int> {
    match r {
        Some(k) => Some(k as int),
        None => None,
    }
}

/// Whether `p` occurs in `s` at position `k`.
fn occurs_at(s: &Vec<char>, p: &Vec<char>, k: usize, fold: bool) -> (r: bool)
    requires
        k + p.len() <= s.len(),
    ensures
        r == matches_at(s@, p@, k as int, fold),
{
    let mut t: usize = 0;
    while t < p.len()
        invariant
            t <= p.len(),
            k + p.len() <= s.len(),
            forall|u: int| 0 <= u < t ==> chars_match(#[trigger] s@[k + u], p@[u], fold),
        decreases p.len() - t,
    {
        if !char_eq(s[k + t], p[t], fold) {
            return false;
        }
        t = t + 1;
    }
    true
}

/// First occurrence of `p` inside `s[lo..hi]`.
pub fn find_in(s: &Vec<char>, p: &Vec<char>, lo: usize, hi: usize, fold: bool) -> (r: Option<usize>)
    requires
        lo <= hi <= s.len(),
    ensures
        opt_int(r) == find_range(s@, p@, lo as int, hi as int, fold),
{
    if p.len() > hi {
        return None;
    }
    let last = hi - p.len();
    let mut k = lo;
    while k <= last
        invariant
            lo <= k,
            last + p.len() == hi,
            hi <= s.len(),
            find_range(s@, p@, lo as int, hi as int, fold) == find_range(
                s@,
                p@,
                k as int,
                hi as int,
                fold,
            ),
        decreases last + 1 - k,
    {
        if occurs_at(s, p, k, fold) {
            return Some(k);
        }
        k = k + 1;
    }
    None
}

/// End of the leading whitespace of `s[a..b]`.
pub open spec fn skip_ws(s: Seq<char>, a: int, b: int) -> int
    decreases b - a,
{
    if a < b && is_ws(s[a]) {
        skip_ws(s, a + 1, b)
    } else {
        a
    }
}

/// Start of the trailing whitespace of `s[a..b]`.
pub open spec fn back_ws(s: Seq<char>, a: int, b: int) -> int
    decreases b - a,
{
    if a < b && is_ws(s[b - 1]) {
        back_ws(s, a, b - 1)
    } else {
        b
    }
}

/// `s[a..b]` without leading and trailing whitespace (what `str::trim` gives).
pub open spec fn trimmed(s: Seq<char>, a: int, b: int) -> Seq<char> {
    s.subrange(skip_ws(s, a, b), back_ws(s, skip_ws(s, a, b), b))
}

pub proof fn lemma_trim_bounds(s: Seq<char>, a: int, b: int)
    requires
        0 <= a <= b <= s.len(),
    ensures
        a <= skip_ws(s, a, b) <= b,
        skip_ws(s, a, b) <= back_ws(s, skip_ws(s, a, b), b) <= b,
        forall|k: int| a <= k < skip_ws(s, a, b) ==> is_ws(#[trigger] s[k]),
        skip_ws(s, a, b) < b ==> !is_ws(s[skip_ws(s, a, b)]),
{
    lemma_skip_ws(s, a, b);
    lemma_back_ws(s, skip_ws(s, a, b), b);
}

proof fn lemma_skip_ws(s: Seq<char>, a: int, b: int)
    requires
        0 <= a <= b <= s.len(),
    ensures
        a <= skip_ws(s, a, b) <= b,
        forall|k: int| a <= k < skip_ws(s, a, b) ==> is_ws(#[trigger] s[k]),
        skip_ws(s, a, b) < b ==> !is_ws(s[skip_ws(s, a, b)]),
    decreases b - a,
{
    if a < b && is_ws(s[a]) {
        lemma_skip_ws(s, a + 1, b);
    }
}

proof fn lemma_back_ws(s: Seq<char>, a: int, b: int)
    requires
        0 <= a <= b <= s.len(),
    ensures
        a <= back_ws(s, a, b) <= b,
        forall|k: int| back_ws(s, a, b) <= k < b ==> is_ws(#[trigger] s[k]),
        a < back_ws(s, a, b) ==> !is_ws(s[back_ws(s, a, b) - 1]),
    decreases b - a,
{
    if a < b && is_ws(s[b - 1]) {
        lemma_back_ws(s, a, b - 1);
    }
}

/// Bounds of `s[a..b]` with surrounding whitespace removed.
pub fn trim_bounds(s: &Vec<char>, a: usize, b: usize) -> (r: (usize, usize))
    requires
        a <= b <= s.len(),
    ensures
        r.0 as int == skip_ws(s@, a as int, b as int),
        r.1 as int == back_ws(s@, r.0 as int, b as int),
        a <= r.0 <= r.1 <= b,
{
    proof {
        lemma_trim_bounds(s@, a as int, b as int);
    }
    let mut lo = a;
    while lo < b && is_whitespace(s[lo])
        invariant
            a <= lo <= b <= s.len(),
            skip_ws(s@, a as int, b as int) == skip_ws(s@, lo as int, b as int),
        decreases b - lo,
    {
        lo = lo + 1;
    }
    let mut hi = b;
    while lo < hi && is_whitespace(s[hi - 1])
        invariant
            a <= lo <= hi <= b <= s.len(),
            back_ws(s@, lo as int, b as int) == back_ws(s@, lo as int, hi as int),
        decreases hi - lo,
    {
        hi = hi - 1;
    }
    (lo, hi)
}

/// Copies the characters of a string slice into a vector.
pub fn chars_of(s: &str) -> (v: Vec<char>)
    ensures
        v@ == s@,
{
    let mut v: Vec<char> = Vec::new();
    for c in it: s.chars()
        invariant
            v@ == it.seq().take(it.index() as int),
    {
        v.push(c);
    }
    v
}

/// Copies `s[a..b]` into a new vector.
pub fn copy_range(s: &Vec<char>, a: usize, b: usize) -> (v: Vec<char>)
    requires
        a <= b <= s.len(),
    ensures
        v@ == s@.subrange(a as int, b as int),
{
    let mut v: Vec<char> = Vec::new();
    let mut k = a;
    while k < b
        invariant
            a <= k <= b <= s.len(),
            v@ == s@.subrange(a as int, k as int),
        decreases b - k,
    {
        v.push(s[k]);
        k = k + 1;
        assert(v@ =~= s@.subrange(a as int, k as int));
    }
    v
}

/// Calls `String::push`, which appends one character.
#[verifier::external_body]
fn push_char(s: &mut String, c: char)
    ensures
        final(s)@ == old(s)@.push(c),
{
    s.push(c);
}

/// Appends `s[a..b]` to `out`.
pub fn append_range(out: &mut String, s: &Vec<char>, a: usize, b: usize)
    requires
        a <= b <= s.len(),
    ensures
        final(out)@ == old(out)@ + s@.subrange(a as int, b as int),
{
    let mut k = a;
    while k < b
        invariant
            a <= k <= b <= s.len(),
            out@ == old(out)@ + s@.subrange(a as int, k as int),
        decreases b - k,
    {
        push_char(out, s[k]);
        k = k + 1;
        assert(out@ =~= old(out)@ + s@.subrange(a as int, k as int));
    }
}

/// A `String` holding `s[a..b]`.
pub fn string_of_range(s: &Vec<char>, a: usize, b: usize) -> (r: String)
    requires
        a <= b <= s.len(),
    ensures
        r@ == s@.subrange(a as int, b as int),
{
    let mut r = String::new();
    append_range(&mut r, s, a, b);
    assert(r@ =~= s@.subrange(a as int, b as int));
    r
}

/// A `String` holding all of `s`.
pub fn string_of(s: &Vec<char>) -> (r: String)
    ensures
        r@ == s@,
{
    let r = string_of_range(s, 0, s.len());
    assert(s@.subrange(0, s@.len() as int) =~= s@);
    r
}

/// Whether two character vectors are equal.
pub fn same_chars(a: &Vec<char>, b: &Vec<char>) -> (r: bool)
    ensures
        r == (a@ == b@),
{
    if a.len() != b.len() {
        return false;
    }
    let mut k: usize = 0;
    while k < a.len()
        invariant
            k <= a.len() == b.len(),
            forall|t: int| 0 <= t < k ==> a@[t] == b@[t],
        decreases a.len() - k,
    {
        if a[k] != b[k] {
            return false;
        }
        k = k + 1;
    }
    assert(a@ =~= b@);
    true
}

} // verus!
