//! The `points:` section: `{ x: .., y: .., z: .. }` groups.
use vstd::prelude::*;
use crate::number::{check_decimal_literal, is_decimal_literal, unsigned_part};
use crate::question::{Halt, HaltModel, Point3, PointModel};
use crate::text::{
    char_is_alphanumeric, in_class, is_digit, is_ws, lemma_run_end, lemma_run_end_at, run_end,
    scan_run, string_of_range, CharClass,
};

verus! {

/// The number literal that starts at `m` after optional whitespace: its
/// bounds. A sign followed by digits and dots that is not a valid decimal
/// literal gives none.
pub open spec fn number_at(s: Seq<char>, m: int) -> Option<(int, int)> {
    let p = run_end(s, m, CharClass::Space);
    let q0 = if p < s.len() && (s[p] == '-' || s[p] == '+') {
        p + 1
    } else {
        p
    };
    let q = run_end(s, q0, CharClass::DigitOrDot);
    if q == q0 {
        None
    } else if is_decimal_literal(s.subrange(p, q)) {
        Some((p, q))
    } else {
        None
    }
}

/// What reading `name: number` at a position gives.
pub enum LabelScan {
    /// the separators before the name run to the end of the text
    RanOff,
    /// no name, or no number after it
    Absent,
    /// name `s[.0 .. .1]`, literal `s[.2 .. .3]`; reading resumes at `.3`
    Found(int, int, int, int),
}

/// Reads `name: number` at `i`: separators (whitespace and commas), a name of
/// alphanumerics and `_`, whitespace and colons, then a number.
pub open spec fn label_at(s: Seq<char>, i: int) -> LabelScan {
    let j = run_end(s, i, CharClass::SpaceOrComma);
    let k = run_end(s, j, CharClass::Word);
    if j >= s.len() {
        LabelScan::RanOff
    } else if k == j {
        LabelScan::Absent
    } else {
        match number_at(s, run_end(s, k, CharClass::SpaceOrColon)) {
            Some((p, q)) => LabelScan::Found(j, k, p, q),
            None => LabelScan::Absent,
        }
    }
}

pub proof fn lemma_label_at(s: Seq<char>, i: int)
    requires
        0 <= i <= s.len(),
    ensures
        label_at(s, i) matches LabelScan::Found(j, k, p, q) ==> i <= j < k <= p < q <= s.len()
            && is_decimal_literal(s.subrange(p, q)),
{
    let j = run_end(s, i, CharClass::SpaceOrComma);
    lemma_run_end(s, i, CharClass::SpaceOrComma);
    lemma_run_end(s, j, CharClass::Word);
    let k = run_end(s, j, CharClass::Word);
    lemma_run_end(s, k, CharClass::SpaceOrColon);
    let m = run_end(s, k, CharClass::SpaceOrColon);
    lemma_run_end(s, m, CharClass::Space);
    let p = run_end(s, m, CharClass::Space);
    let q0 = if p < s.len() && (s[p] == '-' || s[p] == '+') {
        p + 1
    } else {
        p
    };
    lemma_run_end(s, q0, CharClass::DigitOrDot);
}

/// The point whose literals are the three spans.
pub open spec fn point_from(s: Seq<char>, a: (int, int), b: (int, int), c: (int, int)) -> PointModel {
    PointModel {
        x: s.subrange(a.0, a.1),
        y: s.subrange(b.0, b.1),
        z: s.subrange(c.0, c.1),
    }
}

/// Whether `s[j..k]` is the one-character name `n`.
pub open spec fn is_name(s: Seq<char>, j: int, k: int, n: char) -> bool {
    k == j + 1 && s[j] == n
}

/// Scans a brace group from `i` on, with the literals read so far for x, y, z.
/// `None`: a read ran past the end; `Some(None)`: no complete point;
/// `Some(Some((p, n)))`: point `p`, scanning resumes at `n`.
pub open spec fn brace_scan(
    s: Seq<char>,
    i: int,
    x: Option<(int, int)>,
    y: Option<(int, int)>,
    z: Option<(int, int)>,
) -> Option<Option<(PointModel, int)>>
    decreases s.len() - i,
{
    if i < 0 || i >= s.len() {
        Some(None)
    } else if s[i] == '}' {
        match (x, y, z) {
            (Some(a), Some(b), Some(c)) => Some(Some((point_from(s, a, b, c), i + 1))),
            _ => Some(None),
        }
    } else {
        match label_at(s, i) {
            LabelScan::RanOff => None,
            LabelScan::Absent => brace_scan(s, i + 1, x, y, z),
            LabelScan::Found(j, k, p, q) => {
                proof {
                    lemma_label_at(s, i);
                }
                brace_scan(
                    s,
                    q,
                    if is_name(s, j, k, 'x') {
                        Some((p, q))
                    } else {
                        x
                    },
                    if is_name(s, j, k, 'y') {
                        Some((p, q))
                    } else {
                        y
                    },
                    if is_name(s, j, k, 'z') {
                        Some((p, q))
                    } else {
                        z
                    },
                )
            },
        }
    }
}

pub proof fn lemma_brace_scan(
    s: Seq<char>,
    i: int,
    x: Option<(int, int)>,
    y: Option<(int, int)>,
    z: Option<(int, int)>,
)
    requires
        0 <= i,
        x matches Some(a) ==> is_decimal_literal(s.subrange(a.0, a.1)),
        y matches Some(a) ==> is_decimal_literal(s.subrange(a.0, a.1)),
        z matches Some(a) ==> is_decimal_literal(s.subrange(a.0, a.1)),
    ensures
        brace_scan(s, i, x, y, z) matches Some(Some((pt, n))) ==> i < n <= s.len()
            && is_decimal_literal(pt.x) && is_decimal_literal(pt.y) && is_decimal_literal(pt.z),
    decreases s.len() - i,
{
    if 0 <= i < s.len() && s[i] != '}' {
        lemma_label_at(s, i);
        match label_at(s, i) {
            LabelScan::RanOff => {},
            LabelScan::Absent => {
                lemma_brace_scan(s, i + 1, x, y, z);
            },
            LabelScan::Found(j, k, p, q) => {
                lemma_brace_scan(
                    s,
                    q,
                    if is_name(s, j, k, 'x') {
                        Some((p, q))
                    } else {
                        x
                    },
                    if is_name(s, j, k, 'y') {
                        Some((p, q))
                    } else {
                        y
                    },
                    if is_name(s, j, k, 'z') {
                        Some((p, q))
                    } else {
                        z
                    },
                );
            },
        }
    }
}

/// The points read from `s[i..]`.
pub open spec fn points_from(s: Seq<char>, i: int) -> Result<Seq<PointModel>, HaltModel>
    decreases s.len() - i,
{
    if i < 0 || i >= s.len() {
        Ok(Seq::empty())
    } else if s[i] == '{' && i + 1 < s.len() && s[i + 1] != '{' {
        match brace_scan(s, i + 1, None, None, None) {
            None => Err(HaltModel::Overrun),
            Some(Some((pt, n))) => {
                proof {
                    lemma_brace_scan(s, i + 1, None, None, None);
                }
                match points_from(s, n) {
                    Ok(rest) => Ok(seq![pt] + rest),
                    Err(h) => Err(h),
                }
            },
            Some(None) => points_from(s, i + 1),
        }
    } else {
        points_from(s, i + 1)
    }
}

pub open spec fn msg_points_empty() -> Seq<char> {
    "points 为空"@
}

/// The `points:` section's points; rejected when there is none.
pub open spec fn points_of(s: Seq<char>) -> Result<Seq<PointModel>, HaltModel> {
    match points_from(s, 0) {
        Ok(ps) => if ps.len() == 0 {
            Err(HaltModel::Rejected(msg_points_empty()))
        } else {
            Ok(ps)
        },
        Err(h) => Err(h),
    }
}

/// All three coordinates are decimal literals.
pub open spec fn is_literal_point(p: PointModel) -> bool {
    is_decimal_literal(p.x) && is_decimal_literal(p.y) && is_decimal_literal(p.z)
}

pub open spec fn literal_points(ps: Seq<PointModel>) -> bool {
    forall|k: int| 0 <= k < ps.len() ==> is_literal_point(#[trigger] ps[k])
}

pub proof fn lemma_points_from_literals(s: Seq<char>, i: int)
    requires
        0 <= i,
    ensures
        points_from(s, i) matches Ok(ps) ==> literal_points(ps),
    decreases s.len() - i,
{
    if 0 <= i < s.len() {
        if s[i] == '{' && i + 1 < s.len() && s[i + 1] != '{' {
            lemma_brace_scan(s, i + 1, None, None, None);
            match brace_scan(s, i + 1, None, None, None) {
                Some(Some((pt, n))) => {
                    lemma_points_from_literals(s, n);
                    assert(is_decimal_literal(pt.x) && is_decimal_literal(pt.y) && is_decimal_literal(pt.z));
                    if let Ok(rest) = points_from(s, n) {
                        let all = seq![pt] + rest;
                        assert(points_from(s, i) == Ok::<_, HaltModel>(all));
                        assert forall|k: int| 0 <= k < all.len() implies is_literal_point(
                            #[trigger] all[k],
                        ) by {
                            if k > 0 {
                                assert(all[k] == rest[k - 1]);
                            } else {
                                assert(all[k] == pt);
                            }
                        }
                    }
                },
                Some(None) => {
                    lemma_points_from_literals(s, i + 1);
                    assert(points_from(s, i) == points_from(s, i + 1));
                },
                None => {},
            }
        } else {
            lemma_points_from_literals(s, i + 1);
        }
    }
}

/// What reading `name: number` found, as positions.
pub enum LabelSpan {
    RanOff,
    Absent,
    Found(usize, usize, usize, usize),
}

impl View for LabelSpan {
    type V = LabelScan;

    open spec fn view(&self) -> LabelScan {
        match self {
            LabelSpan::RanOff => LabelScan::RanOff,
            LabelSpan::Absent => LabelScan::Absent,
            LabelSpan::Found(j, k, p, q) => LabelScan::Found(*j as int, *k as int, *p as int, *q as int),
        }
    }
}

/// Reads a number literal at `m` (after optional whitespace).
fn read_number(s: &Vec<char>, m: usize) -> (r: Option<(usize, usize)>)
    requires
        m <= s.len(),
    ensures
        match r {
            Some((p, q)) => number_at(s@, m as int) == Some((p as int, q as int)),
            None => number_at(s@, m as int) is None,
        },
{
    let p = scan_run(s, m, CharClass::Space);
    let q0 = if p < s.len() && (s[p] == '-' || s[p] == '+') {
        p + 1
    } else {
        p
    };
    let q = scan_run(s, q0, CharClass::DigitOrDot);
    proof {
        lemma_run_end(s@, q0 as int, CharClass::DigitOrDot);
    }
    if q == q0 {
        return None;
    }
    if check_decimal_literal(s, p, q) {
        Some((p, q))
    } else {
        None
    }
}

/// Reads `name: number` at `i`.
pub fn try_read_labeled_number(s: &Vec<char>, i: usize) -> (r: LabelSpan)
    requires
        i <= s.len(),
    ensures
        r@ == label_at(s@, i as int),
{
    let j = scan_run(s, i, CharClass::SpaceOrComma);
    let k = scan_run(s, j, CharClass::Word);
    if j >= s.len() {
        return LabelSpan::RanOff;
    }
    if k == j {
        return LabelSpan::Absent;
    }
    let m = scan_run(s, k, CharClass::SpaceOrColon);
    match read_number(s, m) {
        Some((p, q)) => LabelSpan::Found(j, k, p, q),
        None => LabelSpan::Absent,
    }
}

fn name_is(s: &Vec<char>, j: usize, k: usize, n: char) -> (r: bool)
    requires
        j < k <= s.len(),
    ensures
        r == is_name(s@, j as int, k as int, n),
{
    k == j + 1 && s[j] == n
}

/// Scans the brace group whose content starts at `start`.
fn parse_point_brace(s: &Vec<char>, start: usize) -> (r: Option<Option<(Point3, usize)>>)
    requires
        start <= s.len(),
    ensures
        match r {
            None => brace_scan(s@, start as int, None, None, None) is None,
            Some(None) => brace_scan(s@, start as int, None, None, None) == Some(
                None::<(PointModel, int)>,
            ),
            Some(Some((pt, n))) => brace_scan(s@, start as int, None, None, None) == Some(
                Some((pt@, n as int)),
            ),
        },
{
    let mut i = start;
    let mut x: Option<(usize, usize)> = None;
    let mut y: Option<(usize, usize)> = None;
    let mut z: Option<(usize, usize)> = None;
    loop
        invariant
            start <= i <= s.len(),
            x matches Some(a) ==> a.0 <= a.1 <= s.len(),
            y matches Some(a) ==> a.0 <= a.1 <= s.len(),
            z matches Some(a) ==> a.0 <= a.1 <= s.len(),
            brace_scan(s@, start as int, None, None, None) == brace_scan(
                s@,
                i as int,
                span_int(x),
                span_int(y),
                span_int(z),
            ),
        decreases s.len() - i,
    {
        if i >= s.len() {
            return Some(None);
        }
        if s[i] == '}' {
            match (x, y, z) {
                (Some(a), Some(b), Some(c)) => {
                    let pt = Point3 {
                        x: string_of_range(s, a.0, a.1),
                        y: string_of_range(s, b.0, b.1),
                        z: string_of_range(s, c.0, c.1),
                    };
                    return Some(Some((pt, i + 1)));
                },
                _ => {
                    return Some(None);
                },
            }
        }
        proof {
            lemma_label_at(s@, i as int);
        }
        match try_read_labeled_number(s, i) {
            LabelSpan::RanOff => {
                return None;
            },
            LabelSpan::Absent => {
                i = i + 1;
            },
            LabelSpan::Found(j, k, p, q) => {
                if name_is(s, j, k, 'x') {
                    x = Some((p, q));
                }
                if name_is(s, j, k, 'y') {
                    y = Some((p, q));
                }
                if name_is(s, j, k, 'z') {
                    z = Some((p, q));
                }
                i = q;
            },
        }
    }
}

pub open spec fn span_int(a: Option<(usize, usize)>) -> Option<(int, int)> {
    match a {
        Some((p, q)) => Some((p as int, q as int)),
        None => None,
    }
}

pub open spec fn points_view(v: Seq<Point3>) -> Seq<PointModel> {
    v.map_values(|p: Point3| p@)
}

pub fn msg_points_empty_exec() -> (m: String)
    ensures
        m@ == msg_points_empty(),
{
    String::from_str("points 为空")
}

/// Parses the points of a `points:` section.
pub fn parse_points(s: &Vec<char>) -> (r: Result<Vec<Point3>, Halt>)
    ensures
        match r {
            Ok(v) => points_of(s@) == Ok::<_, HaltModel>(points_view(v@)),
            Err(h) => points_of(s@) == Err::<Seq<PointModel>, _>(h@),
        },
{
    let mut points: Vec<Point3> = Vec::new();
    let mut i: usize = 0;
    while i < s.len()
        invariant
            i <= s.len(),
            points_from(s@, 0) == match points_from(s@, i as int) {
                Ok(rest) => Ok(points_view(points@) + rest),
                Err(h) => Err(h),
            },
        decreases s.len() - i,
    {
        if s[i] == '{' && i + 1 < s.len() && s[i + 1] != '{' {
            proof {
                lemma_brace_scan(s@, i + 1, None, None, None);
            }
            match parse_point_brace(s, i + 1) {
                None => {
                    return Err(Halt::Overrun);
                },
                Some(Some((pt, n))) => {
                    let ghost before = points_view(points@);
                    points.push(pt);
                    proof {
                        assert(points_view(points@) =~= before + seq![pt@]);
                        if let Ok(rest) = points_from(s@, n as int) {
                            assert(before + (seq![pt@] + rest) =~= points_view(points@) + rest);
                        }
                    }
                    i = n;
                },
                Some(None) => {
                    i = i + 1;
                },
            }
        } else {
            i = i + 1;
        }
    }
    assert(points_view(points@) + Seq::<PointModel>::empty() =~= points_view(points@));
    if points.len() == 0 {
        Err(Halt::Rejected(msg_points_empty_exec()))
    } else {
        Ok(points)
    }
}

/// How `char::is_alphanumeric` classifies the characters of written-out
/// points: `x`, `y` and `z` are alphanumeric, `:` and `}` are not.
pub open spec fn point_chars_classified() -> bool {
    &&& char_is_alphanumeric('x')
    &&& char_is_alphanumeric('y')
    &&& char_is_alphanumeric('z')
    &&& !char_is_alphanumeric(':')
    &&& !char_is_alphanumeric('}')
    &&& !char_is_alphanumeric('{')
}

/// A point written out: `{ x: <x>, y: <y>, z: <z> }`.
pub open spec fn point_text(p: PointModel) -> Seq<char> {
    seq!['{', ' ', 'x', ':', ' '] + p.x + seq![',', ' ', 'y', ':', ' '] + p.y + seq![
        ',',
        ' ',
        'z',
        ':',
        ' ',
    ] + p.z + seq![' ', '}']
}

/// Points written out one after the other, separated by `, `.
pub open spec fn points_text(ps: Seq<PointModel>) -> Seq<char>
    decreases ps.len(),
{
    if ps.len() == 0 {
        Seq::empty()
    } else if ps.len() == 1 {
        point_text(ps[0])
    } else {
        point_text(ps[0]) + seq![',', ' '] + points_text(ps.drop_first())
    }
}

proof fn lemma_field(
    t: Seq<char>,
    i: int,
    pre: Seq<char>,
    name: char,
    lit: Seq<char>,
    term: char,
)
    requires
        0 <= i,
        i + pre.len() + 3 + lit.len() + 1 <= t.len(),
        t.subrange(i, i + pre.len() + 3 + lit.len() + 1) == pre + seq![name, ':', ' '] + lit
            + seq![term],
        forall|k: int| 0 <= k < pre.len() ==> is_ws(#[trigger] pre[k]) || pre[k] == ',',
        !is_ws(name),
        name != ',',
        char_is_alphanumeric(name),
        !char_is_alphanumeric(':'),
        is_decimal_literal(lit),
        !is_digit(term),
        term != '.',
    ensures
        label_at(t, i) == LabelScan::Found(
            i + pre.len(),
            i + pre.len() + 1,
            i + pre.len() + 3,
            i + pre.len() + 3 + lit.len(),
        ),
{
    let w = pre + seq![name, ':', ' '] + lit + seq![term];
    let j = i + pre.len();
    let m = j + 3;
    let e = m + lit.len();
    assert forall|k: int| 0 <= k < w.len() implies #[trigger] t[i + k] == w[k] by {
        assert(t.subrange(i, e + 1)[k] == t[i + k]);
    }
    let b = unsigned_part(lit);
    assert(b.len() > 0);
    assert forall|k: int| 0 <= k < lit.len() implies #[trigger] t[m + k] == lit[k] by {
        assert(t[i + (pre.len() + 3 + k)] == w[pre.len() + 3 + k]);
    }
    assert(t[j] == name) by {
        assert(t[i + pre.len()] == w[pre.len() as int]);
    }
    assert(t[j + 1] == ':') by {
        assert(t[i + (pre.len() + 1)] == w[(pre.len() + 1) as int]);
    }
    assert(t[j + 2] == ' ') by {
        assert(t[i + (pre.len() + 2)] == w[(pre.len() + 2) as int]);
    }
    assert(t[e] == term) by {
        assert(t[i + (pre.len() + 3 + lit.len())] == w[(pre.len() + 3 + lit.len()) as int]);
    }
    assert forall|k: int| i <= k < j implies in_class(#[trigger] t[k], CharClass::SpaceOrComma) by {
        assert(t[i + (k - i)] == w[k - i]);
        assert(w[k - i] == pre[k - i]);
    }
    lemma_run_end_at(t, i, j, CharClass::SpaceOrComma);
    lemma_run_end_at(t, j, j + 1, CharClass::Word);
    let first = lit[0];
    assert(first == '+' || first == '-' || is_digit(first) || first == '.') by {
        if !(first == '+' || first == '-') {
            assert(b == lit);
            assert(is_digit(b[0]) || b[0] == '.');
        }
    }
    assert(t[m + 0] == lit[0]);
    assert(t[m] == first);
    lemma_run_end_at(t, j + 1, m, CharClass::SpaceOrColon);
    lemma_run_end_at(t, m, m, CharClass::Space);
    let q0 = if first == '-' || first == '+' {
        m + 1
    } else {
        m
    };
    assert forall|k: int| q0 <= k < e implies in_class(#[trigger] t[k], CharClass::DigitOrDot) by {
        assert(t[m + (k - m)] == lit[k - m]);
        if first == '-' || first == '+' {
            assert(b == lit.drop_first());
            assert(lit[k - m] == b[k - m - 1]);
            assert(is_digit(b[k - m - 1]) || b[k - m - 1] == '.');
        } else {
            assert(b == lit);
            assert(is_digit(b[k - m]) || b[k - m] == '.');
        }
    }
    lemma_run_end_at(t, q0, e, CharClass::DigitOrDot);
    assert(e > q0) by {
        if first == '-' || first == '+' {
            assert(b == lit.drop_first());
            assert(b.len() == lit.len() - 1);
        }
    }
    assert forall|k: int| 0 <= k < lit.len() implies #[trigger] t.subrange(m, e)[k] == lit[k] by {
        assert(t[m + k] == lit[k]);
    }
    assert(t.subrange(m, e) =~= lit);
}

proof fn lemma_window(t: Seq<char>, a: int, w: Seq<char>, u: int, v: int)
    requires
        0 <= a,
        0 <= u <= v <= w.len(),
        a + w.len() <= t.len(),
        t.subrange(a, a + w.len()) == w,
    ensures
        t.subrange(a + u, a + v) == w.subrange(u, v),
{
    assert forall|k: int| 0 <= k < v - u implies #[trigger] t.subrange(a + u, a + v)[k] == w.subrange(
        u,
        v,
    )[k] by {
        assert(t.subrange(a, a + w.len())[u + k] == t[a + u + k]);
    }
    assert(t.subrange(a + u, a + v) =~= w.subrange(u, v));
}

proof fn lemma_point_text_parts(p: PointModel)
    ensures
        ({
            let w = point_text(p);
            let lx = p.x.len() as int;
            let ly = p.y.len() as int;
            let lz = p.z.len() as int;
            &&& w.len() == 17 + lx + ly + lz
            &&& w.subrange(1, 6 + lx) == seq![' '] + seq!['x', ':', ' '] + p.x + seq![',']
            &&& w.subrange(5 + lx, 11 + lx + ly) == seq![',', ' '] + seq!['y', ':', ' '] + p.y
                + seq![',']
            &&& w.subrange(10 + lx + ly, 16 + lx + ly + lz) == seq![',', ' '] + seq!['z', ':', ' ']
                + p.z + seq![' ']
            &&& w.subrange(5, 5 + lx) == p.x
            &&& w.subrange(10 + lx, 10 + lx + ly) == p.y
            &&& w.subrange(15 + lx + ly, 15 + lx + ly + lz) == p.z
            &&& w.subrange(15 + lx + ly + lz, 17 + lx + ly + lz) == seq![' ', '}']
            &&& w[0] == '{'
            &&& w[1] == ' '
        }),
{
    let w = point_text(p);
    let lx = p.x.len() as int;
    let ly = p.y.len() as int;
    let lz = p.z.len() as int;
    assert(w.subrange(1, 6 + lx) =~= seq![' '] + seq!['x', ':', ' '] + p.x + seq![',']);
    assert(w.subrange(5 + lx, 11 + lx + ly) =~= seq![',', ' '] + seq!['y', ':', ' '] + p.y + seq![',']);
    assert(w.subrange(10 + lx + ly, 16 + lx + ly + lz) =~= seq![',', ' '] + seq!['z', ':', ' '] + p.z
        + seq![' ']);
    assert(w.subrange(5, 5 + lx) =~= p.x);
    assert(w.subrange(10 + lx, 10 + lx + ly) =~= p.y);
    assert(w.subrange(15 + lx + ly, 15 + lx + ly + lz) =~= p.z);
    assert(w.subrange(15 + lx + ly + lz, 17 + lx + ly + lz) =~= seq![' ', '}']);
}

proof fn lemma_scan_found(
    t: Seq<char>,
    i: int,
    x: Option<(int, int)>,
    y: Option<(int, int)>,
    z: Option<(int, int)>,
    j: int,
    k: int,
    p: int,
    q: int,
)
    requires
        0 <= i < t.len(),
        t[i] != '}',
        label_at(t, i) == LabelScan::Found(j, k, p, q),
    ensures
        brace_scan(t, i, x, y, z) == brace_scan(
            t,
            q,
            if is_name(t, j, k, 'x') {
                Some((p, q))
            } else {
                x
            },
            if is_name(t, j, k, 'y') {
                Some((p, q))
            } else {
                y
            },
            if is_name(t, j, k, 'z') {
                Some((p, q))
            } else {
                z
            },
        ),
{
}

proof fn lemma_point_brace(t: Seq<char>, a: int, p: PointModel)
    requires
        point_chars_classified(),
        0 <= a,
        a + point_text(p).len() <= t.len(),
        t.subrange(a, a + point_text(p).len()) == point_text(p),
        is_literal_point(p),
    ensures
        brace_scan(t, a + 1, None, None, None) == Some(Some((p, a + point_text(p).len()))),
{
    let w = point_text(p);
    let lx = p.x.len() as int;
    let ly = p.y.len() as int;
    let lz = p.z.len() as int;
    lemma_point_text_parts(p);
    let x0 = a + 5;
    let y0 = x0 + lx + 5;
    let z0 = y0 + ly + 5;
    let ze = z0 + lz;
    lemma_window(t, a, w, 1, 6 + lx);
    lemma_window(t, a, w, 5 + lx, 11 + lx + ly);
    lemma_window(t, a, w, 10 + lx + ly, 16 + lx + ly + lz);
    lemma_window(t, a, w, 5, 5 + lx);
    lemma_window(t, a, w, 10 + lx, 10 + lx + ly);
    lemma_window(t, a, w, 15 + lx + ly, 15 + lx + ly + lz);
    lemma_window(t, a, w, 15 + lx + ly + lz, 17 + lx + ly + lz);
    lemma_window(t, a, w, 1, 2);
    assert(t[a + 1] == t.subrange(a + 1, a + 2)[0]);
    assert(w.subrange(1, 2)[0] == w[1]);
    let sp = seq![' '];
    assert forall|u: int| 0 <= u < sp.len() implies is_ws(#[trigger] sp[u]) || sp[u] == ',' by {}
    let cs = seq![',', ' '];
    assert forall|u: int| 0 <= u < cs.len() implies is_ws(#[trigger] cs[u]) || cs[u] == ',' by {}
    lemma_field(t, a + 1, sp, 'x', p.x, ',');
    lemma_field(t, x0 + lx, cs, 'y', p.y, ',');
    lemma_field(t, y0 + ly, cs, 'z', p.z, ' ');
    let tail = t.subrange(ze, ze + 2);
    assert(t[ze] == tail[0] && t[ze + 1] == tail[1]);
    assert(t[a + 1] == ' ');
    assert(t[x0 + lx] == t.subrange(x0 + lx, x0 + lx + ly + 6)[0]);
    assert(t[y0 + ly] == t.subrange(y0 + ly, y0 + ly + lz + 6)[0]);
    assert(t[a + 2] == t.subrange(a + 1, a + 6 + lx)[1]);
    assert(t[x0 + lx + 2] == t.subrange(x0 + lx, x0 + lx + ly + 6)[2]);
    assert(t[y0 + ly + 2] == t.subrange(y0 + ly, y0 + ly + lz + 6)[2]);
    let sx = Some((x0, x0 + lx));
    let sy = Some((y0, y0 + ly));
    let sz = Some((z0, z0 + lz));
    lemma_scan_found(t, a + 1, None, None, None, a + 2, a + 3, x0, x0 + lx);
    lemma_scan_found(t, x0 + lx, sx, None, None, x0 + lx + 2, x0 + lx + 3, y0, y0 + ly);
    lemma_scan_found(t, y0 + ly, sx, sy, None, y0 + ly + 2, y0 + ly + 3, z0, ze);
    lemma_run_end_at(t, ze, ze + 1, CharClass::SpaceOrComma);
    lemma_run_end_at(t, ze + 1, ze + 1, CharClass::Word);
    assert(label_at(t, ze) == LabelScan::Absent);
    assert(brace_scan(t, ze, sx, sy, sz) == brace_scan(t, ze + 1, sx, sy, sz));
    assert(point_from(t, (x0, x0 + lx), (y0, y0 + ly), (z0, z0 + lz)) == p);
    assert(brace_scan(t, ze + 1, sx, sy, sz) == Some(Some((p, ze + 2))));
}

proof fn lemma_no_brace(t: Seq<char>, i: int)
    requires
        0 <= i,
        forall|k: int| i <= k < t.len() ==> #[trigger] t[k] != '{',
    ensures
        points_from(t, i) == Ok::<_, HaltModel>(Seq::<PointModel>::empty()),
    decreases t.len() - i,
{
    if i < t.len() {
        lemma_no_brace(t, i + 1);
    }
}

proof fn lemma_points_text_len(ps: Seq<PointModel>)
    requires
        ps.len() > 0,
    ensures
        points_text(ps).len() >= point_text(ps[0]).len(),
        ps.len() > 1 ==> points_text(ps) == point_text(ps[0]) + seq![',', ' '] + points_text(
            ps.drop_first(),
        ),
        ps.len() == 1 ==> points_text(ps) == point_text(ps[0]),
{
}

proof fn lemma_point_text_head(p: PointModel)
    ensures
        point_text(p).len() >= 17,
        point_text(p)[0] == '{',
        point_text(p)[1] == ' ',
{
}

proof fn lemma_points_step(t: Seq<char>, a: int, p: PointModel, n: int)
    requires
        0 <= a,
        a + 1 < t.len(),
        t[a] == '{',
        t[a + 1] != '{',
        brace_scan(t, a + 1, None, None, None) == Some(Some((p, n))),
    ensures
        points_from(t, a) == match points_from(t, n) {
            Ok(rest) => Ok(seq![p] + rest),
            Err(h) => Err(h),
        },
{
}

proof fn lemma_points_skip(t: Seq<char>, i: int)
    requires
        0 <= i < t.len(),
        t[i] != '{',
    ensures
        points_from(t, i) == points_from(t, i + 1),
{
}

#[verifier::rlimit(30)]
proof fn lemma_points_text_from(t: Seq<char>, a: int, ps: Seq<PointModel>)
    requires
        point_chars_classified(),
        ps.len() > 0,
        literal_points(ps),
        0 <= a,
        a + points_text(ps).len() <= t.len(),
        t.subrange(a, a + points_text(ps).len()) == points_text(ps),
        forall|k: int| a + points_text(ps).len() <= k < t.len() ==> #[trigger] t[k] != '{',
    ensures
        points_from(t, a) == Ok::<_, HaltModel>(ps),
    decreases ps.len(),
{
    let p0 = ps[0];
    let w = points_text(ps);
    let w0 = point_text(p0);
    let b = w0.len() as int;
    lemma_points_text_len(ps);
    lemma_point_text_head(p0);
    assert(w.subrange(0, b) =~= w0);
    lemma_window(t, a, w, 0, b);
    assert(is_literal_point(ps[0]));
    lemma_point_brace(t, a, p0);
    assert(t[a] == w0[0]) by {
        assert(t.subrange(a, a + b)[0] == t[a]);
    }
    assert(t[a + 1] == w0[1]) by {
        assert(t.subrange(a, a + b)[1] == t[a + 1]);
    }
    lemma_points_step(t, a, p0, a + b);
    if ps.len() == 1 {
        lemma_no_brace(t, a + b);
        assert(seq![p0] + Seq::<PointModel>::empty() =~= ps);
    } else {
        let rest = ps.drop_first();
        let rw = points_text(rest);
        assert(w.subrange(b, b + 2) =~= seq![',', ' ']);
        assert(w.subrange(b + 2, w.len() as int) =~= rw);
        lemma_window(t, a, w, b, b + 2);
        lemma_window(t, a, w, b + 2, w.len() as int);
        assert(t[a + b] == t.subrange(a + b, a + b + 2)[0]);
        assert(t[a + b + 1] == t.subrange(a + b, a + b + 2)[1]);
        assert forall|k: int| 0 <= k < rest.len() implies is_literal_point(#[trigger] rest[k]) by {
            assert(rest[k] == ps[k + 1]);
        }
        lemma_points_text_from(t, a + b + 2, rest);
        lemma_points_skip(t, a + b);
        lemma_points_skip(t, a + b + 1);
        assert(seq![p0] + rest =~= ps);
    }
}

/// Written-out points read back as the same points, all of them and in order
/// (given how `char::is_alphanumeric` classifies the letters and braces used).
pub proof fn lemma_points_text(ps: Seq<PointModel>)
    requires
        point_chars_classified(),
        ps.len() > 0,
        literal_points(ps),
    ensures
        points_of(points_text(ps)) == Ok::<_, HaltModel>(ps),
{
    let t = points_text(ps);
    assert(t.subrange(0, t.len() as int) =~= t);
    lemma_points_text_from(t, 0, ps);
}

/// The same in the file's own form, the point list in braces:
/// `{ { x: .., y: .., z: .. }, { .. } }`.
#[verifier::rlimit(30)]
pub proof fn lemma_braced_points_text(ps: Seq<PointModel>)
    requires
        point_chars_classified(),
        ps.len() > 0,
        literal_points(ps),
    ensures
        points_of(seq!['{', ' '] + points_text(ps) + seq![' ', '}']) == Ok::<_, HaltModel>(ps),
{
    let w = points_text(ps);
    let t = seq!['{', ' '] + w + seq![' ', '}'];
    let w0 = point_text(ps[0]);
    let b = w0.len() as int;
    lemma_points_text_len(ps);
    lemma_point_text_head(ps[0]);
    assert(t.subrange(2, 2 + w.len() as int) =~= w);
    assert(t[0] == '{' && t[1] == ' ');
    assert(t[2] == w[0]);
    assert(w[0] == w0[0]);
    assert forall|k: int| 2 + w.len() <= k < t.len() implies #[trigger] t[k] != '{' by {}
    assert(w.subrange(0, b) =~= w0);
    lemma_window(t, 2, w, 0, b);
    assert(is_literal_point(ps[0]));
    lemma_point_brace(t, 2, ps[0]);
    lemma_run_end_at(t, 1, 2, CharClass::SpaceOrComma);
    lemma_run_end_at(t, 2, 2, CharClass::Word);
    lemma_run_end_at(t, 2, 2, CharClass::SpaceOrComma);
    assert(label_at(t, 1) == LabelScan::Absent);
    assert(label_at(t, 2) == LabelScan::Absent);
    assert(brace_scan(t, 1, None, None, None) == brace_scan(t, 2, None, None, None));
    assert(brace_scan(t, 2, None, None, None) == brace_scan(t, 3, None, None, None));
    lemma_points_step(t, 0, ps[0], 2 + b);
    if ps.len() == 1 {
        lemma_no_brace(t, 2 + b);
        assert(seq![ps[0]] + Seq::<PointModel>::empty() =~= ps);
    } else {
        let rest = ps.drop_first();
        assert(w.subrange(b + 2, w.len() as int) =~= points_text(rest));
        assert(w.subrange(b, b + 2) =~= seq![',', ' ']);
        lemma_window(t, 2, w, b, b + 2);
        lemma_window(t, 2, w, b + 2, w.len() as int);
        assert(t[2 + b] == t.subrange(2 + b, 4 + b)[0]);
        assert(t[3 + b] == t.subrange(2 + b, 4 + b)[1]);
        assert forall|k: int| 0 <= k < rest.len() implies is_literal_point(#[trigger] rest[k]) by {
            assert(rest[k] == ps[k + 1]);
        }
        assert(4 + b + points_text(rest).len() == 2 + w.len());
        lemma_points_text_from(t, 4 + b, rest);
        lemma_points_skip(t, 2 + b);
        lemma_points_skip(t, 3 + b);
        assert(seq![ps[0]] + rest =~= ps);
    }
}

} // verus!
