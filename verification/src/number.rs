//! Decimal numbers written as text: unsigned integers and the literals that
//! hold point coordinates.
use vstd::prelude::*;
use crate::text::{in_class, is_ascii_digit, is_digit, CharClass};

verus! {

/// The value of an ASCII digit.
pub open spec fn digit_value(c: char) -> int {
    c as int - '0' as int
}

pub open spec fn all_digits(s: Seq<char>) -> bool {
    forall|k: int| 0 <= k < s.len() ==> is_digit(#[trigger] s[k])
}

/// The number that a string of ASCII digits denotes.
pub open spec fn decimal_value(s: Seq<char>) -> int
    decreases s.len(),
{
    if s.len() == 0 {
        0
    } else {
        decimal_value(s.drop_last()) * 10 + digit_value(s.last())
    }
}

/// What `str::parse::<usize>` gives: an optional `+`, then at least one ASCII
/// digit, and a value that fits in `usize`.
pub open spec fn spec_parse_usize(t: Seq<char>) -> Option<usize> {
    let ds = if t.len() > 0 && t[0] == '+' {
        t.drop_first()
    } else {
        t
    };
    if ds.len() > 0 && all_digits(ds) && decimal_value(ds) <= usize::MAX {
        Some(decimal_value(ds) as usize)
    } else {
        None
    }
}

pub proof fn lemma_decimal_value_nonneg(s: Seq<char>)
    requires
        all_digits(s),
    ensures
        decimal_value(s) >= 0,
    decreases s.len(),
{
    if s.len() > 0 {
        lemma_decimal_value_nonneg(s.drop_last());
    }
}

/// Parses `s[a..b]` as `str::parse::<usize>` does.
pub fn parse_usize_range(s: &Vec<char>, a: usize, b: usize) -> (r: Option<usize>)
    requires
        a <= b <= s.len(),
    ensures
        r == spec_parse_usize(s@.subrange(a as int, b as int)),
{
    let ghost t = s@.subrange(a as int, b as int);
    let mut start = a;
    if a < b && s[a] == '+' {
        start = a + 1;
    }
    let ghost ds = s@.subrange(start as int, b as int);
    assert(ds =~= (if t.len() > 0 && t[0] == '+' {
        t.drop_first()
    } else {
        t
    }));
    if start == b {
        return None;
    }
    let mut acc: usize = 0;
    let mut over = false;
    let mut k = start;
    while k < b
        invariant
            start <= k <= b <= s.len(),
            ds == s@.subrange(start as int, b as int),
            t == s@.subrange(a as int, b as int),
            ds == (if t.len() > 0 && t[0] == '+' {
                t.drop_first()
            } else {
                t
            }),
            forall|j: int| start <= j < k ==> is_digit(#[trigger] s@[j]),
            !over ==> acc as int == decimal_value(s@.subrange(start as int, k as int)),
            over ==> decimal_value(s@.subrange(start as int, k as int)) > usize::MAX,
        decreases b - k,
    {
        let c = s[k];
        if !is_ascii_digit(c) {
            assert(!all_digits(ds)) by {
                assert(ds[k - start] == c);
            }
            return None;
        }
        let d = (c as u32 - '0' as u32) as usize;
        let ghost prev = s@.subrange(start as int, k as int);
        assert(s@.subrange(start as int, k + 1).drop_last() =~= prev);
        assert(s@.subrange(start as int, k + 1).last() == c);
        if !over {
            if acc > (usize::MAX - d) / 10 {
                over = true;
            } else {
                acc = acc * 10 + d;
            }
        } else {
            proof {
                lemma_decimal_value_nonneg(prev);
            }
        }
        k = k + 1;
    }
    assert(s@.subrange(start as int, b as int) =~= ds);
    assert(all_digits(ds));
    if over {
        None
    } else {
        Some(acc)
    }
}

/// Number of occurrences of `c` in `s`.
pub open spec fn count_of(s: Seq<char>, c: char) -> nat
    decreases s.len(),
{
    if s.len() == 0 {
        0
    } else {
        count_of(s.drop_last(), c) + if s.last() == c {
            1nat
        } else {
            0nat
        }
    }
}

/// A text that `str::parse::<f64>` accepts, among those made of an optional sign
/// followed by digits and dots: at least one digit and at most one dot.
pub open spec fn is_decimal_literal(s: Seq<char>) -> bool {
    is_unsigned_decimal(unsigned_part(s))
}

/// `s` without a leading `+` or `-`.
pub open spec fn unsigned_part(s: Seq<char>) -> Seq<char> {
    if s.len() > 0 && (s[0] == '+' || s[0] == '-') {
        s.drop_first()
    } else {
        s
    }
}

/// Digits and dots only, at least one digit and at most one dot.
pub open spec fn is_unsigned_decimal(b: Seq<char>) -> bool {
    &&& forall|k: int| 0 <= k < b.len() ==> is_digit(#[trigger] b[k]) || b[k] == '.'
    &&& exists|k: int| 0 <= k < b.len() && is_digit(#[trigger] b[k])
    &&& count_of(b, '.') <= 1
}

/// Whether `s[a..b]`, which consists of an optional sign followed by digits and
/// dots, is a decimal literal.
pub fn check_decimal_literal(s: &Vec<char>, a: usize, b: usize) -> (r: bool)
    requires
        a <= b <= s.len(),
        forall|k: int|
            (if a < b && (s@[a as int] == '+' || s@[a as int] == '-') {
                a + 1
            } else {
                a as int
            }) <= k < b ==> #[trigger] in_class(s@[k], CharClass::DigitOrDot),
    ensures
        r == is_decimal_literal(s@.subrange(a as int, b as int)),
{
    let ghost t = s@.subrange(a as int, b as int);
    let mut start = a;
    if a < b && (s[a] == '+' || s[a] == '-') {
        start = a + 1;
    }
    let ghost body = s@.subrange(start as int, b as int);
    assert(forall|j: int| start <= j < b ==> #[trigger] in_class(s@[j], CharClass::DigitOrDot));
    assert(body =~= unsigned_part(t));
    let mut digits: usize = 0;
    let mut dots: usize = 0;
    let mut k = start;
    while k < b
        invariant
            start <= k <= b <= s.len(),
            body == s@.subrange(start as int, b as int),
            t == s@.subrange(a as int, b as int),
            body == unsigned_part(t),
            forall|j: int| start <= j < b ==> #[trigger] in_class(s@[j], CharClass::DigitOrDot),
            dots as int == count_of(s@.subrange(start as int, k as int), '.'),
            digits == 0 ==> forall|j: int| start <= j < k ==> !is_digit(#[trigger] s@[j]),
            digits > 0 ==> exists|j: int| start <= j < k && is_digit(#[trigger] s@[j]),
            digits <= k - start,
            dots <= k - start,
        decreases b - k,
    {
        let c = s[k];
        assert(s@.subrange(start as int, k + 1).drop_last() =~= s@.subrange(
            start as int,
            k as int,
        ));
        if c == '.' {
            dots = dots + 1;
        } else {
            digits = digits + 1;
            assert(in_class(s@[k as int], CharClass::DigitOrDot));
        }
        k = k + 1;
    }
    assert(s@.subrange(start as int, b as int) =~= body);
    assert forall|j: int| 0 <= j < body.len() implies is_digit(#[trigger] body[j]) || body[j]
        == '.' by {
        assert(body[j] == s@[start + j]);
        assert(in_class(s@[start + j], CharClass::DigitOrDot));
    }
    if digits > 0 {
        assert(exists|j: int| 0 <= j < body.len() && is_digit(#[trigger] body[j])) by {
            let j = choose|j: int| start <= j < b && is_digit(#[trigger] s@[j]);
            assert(body[j - start] == s@[j]);
        }
    } else {
        assert forall|j: int| 0 <= j < body.len() implies !is_digit(#[trigger] body[j]) by {
            assert(body[j] == s@[start + j]);
        }
    }
    assert(count_of(body, '.') == dots);
    digits > 0 && dots <= 1
}

/// The ASCII digit for `d` (0 to 9).
pub open spec fn digit_char(d: int) -> char {
    if d == 0 {
        '0'
    } else if d == 1 {
        '1'
    } else if d == 2 {
        '2'
    } else if d == 3 {
        '3'
    } else if d == 4 {
        '4'
    } else if d == 5 {
        '5'
    } else if d == 6 {
        '6'
    } else if d == 7 {
        '7'
    } else if d == 8 {
        '8'
    } else {
        '9'
    }
}

/// The usual decimal writing of `n`: no sign, no leading zero.
pub open spec fn decimal_text(n: nat) -> Seq<char>
    decreases n,
{
    if n < 10 {
        seq![digit_char(n as int)]
    } else {
        decimal_text(n / 10).push(digit_char((n % 10) as int))
    }
}

/// The decimal writing of a number consists of digits and denotes that number.
pub proof fn lemma_decimal_text(n: nat)
    ensures
        decimal_text(n).len() > 0,
        all_digits(decimal_text(n)),
        decimal_value(decimal_text(n)) == n,
    decreases n,
{
    if n >= 10 {
        lemma_decimal_text(n / 10);
        let t = decimal_text(n);
        let d = n % 10;
        vstd::arithmetic::div_mod::lemma_fundamental_div_mod(n as int, 10);
        vstd::arithmetic::div_mod::lemma_mod_bound(n as int, 10);
        assert(t.drop_last() =~= decimal_text(n / 10));
        assert(digit_value(digit_char(d as int)) == d);
        assert(t.last() == digit_char(d as int));
        assert(decimal_value(t) == decimal_value(t.drop_last()) * 10 + digit_value(t.last()));
        assert(decimal_value(t) == (n / 10) * 10 + d);
        assert forall|k: int| 0 <= k < t.len() implies is_digit(#[trigger] t[k]) by {
            if k < t.len() - 1 {
                assert(t[k] == decimal_text(n / 10)[k]);
            }
        }
    } else {
        let t = decimal_text(n);
        assert(t.drop_last() =~= Seq::<char>::empty());
        assert(digit_value(digit_char(n as int)) == n);
        assert(decimal_value(t) == decimal_value(t.drop_last()) * 10 + digit_value(t.last()));
    }
}

/// Reading the decimal writing of any `usize` as `str::parse::<usize>` does
/// gives the number back.
pub proof fn lemma_parse_usize_decimal_text(n: usize)
    ensures
        spec_parse_usize(decimal_text(n as nat)) == Some(n),
{
    lemma_decimal_text(n as nat);
}

/// A string of digits denotes a number written with those digits: its value
/// comes from its last digit and the value of the rest.
pub proof fn lemma_decimal_value_push(s: Seq<char>, c: char)
    ensures
        decimal_value(s.push(c)) == decimal_value(s) * 10 + digit_value(c),
{
    assert(s.push(c).drop_last() =~= s);
}

} // verus!
