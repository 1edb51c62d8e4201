//! Parsing of the input file: `<question id=...> ... </question>` blocks, each
//! with `points:`, `connets:`, `width:` and `height:` fields; and choosing a
//! question by id.
use vstd::prelude::*;
use crate::connets::{connets_of, groups_view, lemma_connets_nonempty, nonempty_groups, parse_connets, prepend};
use crate::number::{
    all_digits, decimal_text, decimal_value, lemma_decimal_text, parse_usize_range, spec_parse_usize,
};
use crate::points::{lemma_points_from_literals, literal_points, parse_points, points_of, points_view};
use crate::question::{questions_view, Halt, HaltModel, Question, QuestionModel};
use crate::text::{
    append_range, chars_of, copy_range, find_in, find_range, is_ascii_digit, is_digit,
    lemma_find_range, opt_int, run_end, scan_run, string_of_range, trim_bounds, trimmed, CharClass,
};

verus! {

pub open spec fn key_points() -> Seq<char> {
    seq!['p', 'o', 'i', 'n', 't', 's']
}

pub open spec fn key_connets() -> Seq<char> {
    seq!['c', 'o', 'n', 'n', 'e', 't', 's']
}

pub open spec fn key_width() -> Seq<char> {
    seq!['w', 'i', 'd', 't', 'h']
}

pub open spec fn key_height() -> Seq<char> {
    seq!['h', 'e', 'i', 'g', 'h', 't']
}

/// `key:` — how a field starts.
pub open spec fn field_marker(key: Seq<char>) -> Seq<char> {
    key + seq![':']
}

pub open spec fn tag_open() -> Seq<char> {
    seq!['<', 'q', 'u', 'e', 's', 't', 'i', 'o', 'n']
}

pub open spec fn tag_close() -> Seq<char> {
    seq!['<', '/', 'q', 'u', 'e', 's', 't', 'i', 'o', 'n', '>']
}

pub open spec fn msg_missing(key: Seq<char>) -> Seq<char> {
    "缺少 "@ + key + ":"@
}

pub open spec fn msg_invalid(key: Seq<char>, section: Seq<char>) -> Seq<char> {
    "无效的 "@ + key + ": "@ + section
}

pub open spec fn msg_no_id() -> Seq<char> {
    "question 标签缺少 id"@
}

pub open spec fn msg_unclosed_quote() -> Seq<char> {
    "id 引号未闭合"@
}

pub open spec fn msg_empty_id() -> Seq<char> {
    "question id 为空"@
}

pub open spec fn msg_no_gt() -> Seq<char> {
    "缺少 question 开始标签的 >"@
}

pub open spec fn msg_no_close() -> Seq<char> {
    "缺少 </question>"@
}

pub open spec fn msg_no_question() -> Seq<char> {
    "未找到任何 <question> 块"@
}

pub open spec fn msg_empty_list() -> Seq<char> {
    "题目列表为空"@
}

pub open spec fn msg_not_found(want: Seq<char>) -> Seq<char> {
    "未找到 id="@ + want + " 的题目"@
}

/// Where a field marker occurs in `c[lo..hi]`, when not at `lo` itself (only
/// its first occurrence counts, case-insensitively).
pub open spec fn marker_after(c: Seq<char>, key: Seq<char>, lo: int, hi: int) -> Option<int> {
    match find_range(c, field_marker(key), lo, hi, true) {
        Some(k) => if k > lo {
            Some(k)
        } else {
            None
        },
        None => None,
    }
}

pub open spec fn min_opt(a: Option<int>, b: Option<int>) -> Option<int> {
    match (a, b) {
        (Some(x), Some(y)) => Some(if x <= y {
            x
        } else {
            y
        }),
        (Some(x), None) => Some(x),
        (None, y) => y,
    }
}

/// The start of the next field in `c[lo..hi]`.
pub open spec fn next_field(c: Seq<char>, lo: int, hi: int) -> Option<int> {
    min_opt(
        min_opt(marker_after(c, key_points(), lo, hi), marker_after(c, key_connets(), lo, hi)),
        min_opt(marker_after(c, key_width(), lo, hi), marker_after(c, key_height(), lo, hi)),
    )
}

/// The text of field `key` in the body `c[lo..hi]`: from after `key:` (first
/// occurrence, case-insensitively) up to the next field or the body's end,
/// trimmed.
pub open spec fn section(c: Seq<char>, lo: int, hi: int, key: Seq<char>) -> Result<
    Seq<char>,
    Seq<char>,
> {
    match find_range(c, field_marker(key), lo, hi, true) {
        None => Err(msg_missing(key)),
        Some(st) => {
            let v = st + key.len() + 1;
            Ok(
                trimmed(
                    c,
                    v,
                    match next_field(c, v, hi) {
                        Some(e) => e,
                        None => hi,
                    },
                ),
            )
        },
    }
}

/// The ASCII digits of `s`, in order.
pub open spec fn keep_digits(s: Seq<char>) -> Seq<char>
    decreases s.len(),
{
    if s.len() == 0 {
        s
    } else if is_digit(s.last()) {
        keep_digits(s.drop_last()).push(s.last())
    } else {
        keep_digits(s.drop_last())
    }
}

/// The number field `key`: the digits of its section read as one number.
pub open spec fn number_field(c: Seq<char>, lo: int, hi: int, key: Seq<char>) -> Result<
    usize,
    Seq<char>,
> {
    match section(c, lo, hi, key) {
        Err(m) => Err(m),
        Ok(sec) => match spec_parse_usize(keep_digits(sec)) {
            Some(n) => Ok(n),
            None => Err(msg_invalid(key, sec)),
        },
    }
}

/// The question whose body is `c[lo..hi]`.
pub open spec fn question_body(c: Seq<char>, lo: int, hi: int, id: Seq<char>) -> Result<
    QuestionModel,
    HaltModel,
> {
    match section(c, lo, hi, key_points()) {
        Err(m) => Err(HaltModel::Rejected(m)),
        Ok(ps) => match points_of(ps) {
            Err(h) => Err(h),
            Ok(points) => match section(c, lo, hi, key_connets()) {
                Err(m) => Err(HaltModel::Rejected(m)),
                Ok(cs) => match connets_of(cs) {
                    Err(m) => Err(HaltModel::Rejected(m)),
                    Ok(groups) => match number_field(c, lo, hi, key_width()) {
                        Err(m) => Err(HaltModel::Rejected(m)),
                        Ok(w) => match number_field(c, lo, hi, key_height()) {
                            Err(m) => Err(HaltModel::Rejected(m)),
                            Ok(h) => Ok(
                                QuestionModel {
                                    id,
                                    points,
                                    connets: groups,
                                    width: w,
                                    height: h,
                                },
                            ),
                        },
                    },
                },
            },
        },
    }
}

/// Where the opening tag that starts at `start` ends: its first `>`, or the
/// end of the text.
pub open spec fn tag_end(c: Seq<char>, start: int) -> int {
    match find_range(c, seq!['>'], start, c.len() as int, false) {
        Some(g) => g,
        None => c.len() as int,
    }
}

/// The id of the question tag at `start`: after the first `id` (any case)
/// inside the opening tag (before its first `>`) and any `=` or whitespace, a
/// quoted text (trimmed) or the text up to whitespace or `>`.
pub open spec fn id_at(c: Seq<char>, start: int) -> Result<Seq<char>, Seq<char>> {
    match find_range(c, seq!['i', 'd'], start, tag_end(c, start), true) {
        None => Err(msg_no_id()),
        Some(p) => {
            let r = run_end(c, p + 2, CharClass::SpaceOrEquals);
            if r < c.len() && (c[r] == '"' || c[r] == '\'') {
                match find_range(c, seq![c[r]], r + 1, c.len() as int, false) {
                    None => Err(msg_unclosed_quote()),
                    Some(e) => Ok(trimmed(c, r + 1, e)),
                }
            } else if run_end(c, r, CharClass::IdText) == r {
                Err(msg_empty_id())
            } else {
                Ok(c.subrange(r, run_end(c, r, CharClass::IdText)))
            }
        },
    }
}

/// The question whose tag starts at `start`, and where the text after its
/// closing tag starts.
#[verifier::opaque]
pub open spec fn question_at(c: Seq<char>, start: int) -> Result<(QuestionModel, int), HaltModel> {
    match id_at(c, start) {
        Err(m) => Err(HaltModel::Rejected(m)),
        Ok(id) => match find_range(c, seq!['>'], start, c.len() as int, false) {
            None => Err(HaltModel::Rejected(msg_no_gt())),
            Some(g) => match find_range(c, tag_close(), g + 1, c.len() as int, false) {
                None => Err(HaltModel::Rejected(msg_no_close())),
                Some(ce) => match question_body(c, g + 1, ce, id) {
                    Err(h) => Err(h),
                    Ok(q) => Ok((q, ce + 11)),
                },
            },
        },
    }
}

pub proof fn lemma_question_at(c: Seq<char>, start: int)
    requires
        0 <= start,
    ensures
        question_at(c, start) matches Ok((q, n)) ==> n > start,
{
    reveal(question_at);
    lemma_find_range(c, seq!['>'], start, c.len() as int, false);
    if let Some(g) = find_range(c, seq!['>'], start, c.len() as int, false) {
        lemma_find_range(c, tag_close(), g + 1, c.len() as int, false);
    }
}

/// The questions of `c` from `from` on.
pub open spec fn questions_from(c: Seq<char>, from: int) -> Result<Seq<QuestionModel>, HaltModel>
    decreases c.len() - from,
{
    if from < 0 || from > c.len() {
        Ok(Seq::empty())
    } else {
        match find_range(c, tag_open(), from, c.len() as int, false) {
            None => Ok(Seq::empty()),
            Some(start) => match question_at(c, start) {
                Err(h) => Err(h),
                Ok((q, n)) => if n >= c.len() {
                    Ok(seq![q])
                } else {
                    proof {
                        lemma_find_range(c, tag_open(), from, c.len() as int, false);
                        lemma_question_at(c, start);
                    }
                    prepend(seq![q], questions_from(c, n))
                },
            },
        }
    }
}

/// All questions of the text `c`; rejected when there is none.
pub open spec fn spec_parse_all(c: Seq<char>) -> Result<Seq<QuestionModel>, HaltModel> {
    match questions_from(c, 0) {
        Err(h) => Err(h),
        Ok(qs) => if qs.len() == 0 {
            Err(HaltModel::Rejected(msg_no_question()))
        } else {
            Ok(qs)
        },
    }
}

fn marker_chars(key: &Vec<char>) -> (m: Vec<char>)
    ensures
        m@ == field_marker(key@),
{
    let mut m = key.clone();
    m.push(':');
    assert(m@ =~= field_marker(key@));
    m
}

fn keys_points() -> (v: Vec<char>)
    ensures
        v@ == key_points(),
{
    let v = vec!['p', 'o', 'i', 'n', 't', 's'];
    assert(v@ =~= key_points());
    v
}

fn keys_connets() -> (v: Vec<char>)
    ensures
        v@ == key_connets(),
{
    let v = vec!['c', 'o', 'n', 'n', 'e', 't', 's'];
    assert(v@ =~= key_connets());
    v
}

fn keys_width() -> (v: Vec<char>)
    ensures
        v@ == key_width(),
{
    let v = vec!['w', 'i', 'd', 't', 'h'];
    assert(v@ =~= key_width());
    v
}

fn keys_height() -> (v: Vec<char>)
    ensures
        v@ == key_height(),
{
    let v = vec!['h', 'e', 'i', 'g', 'h', 't'];
    assert(v@ =~= key_height());
    v
}

fn find_marker_after(c: &Vec<char>, key: &Vec<char>, lo: usize, hi: usize) -> (r: Option<usize>)
    requires
        lo <= hi <= c.len(),
    ensures
        opt_int(r) == marker_after(c@, key@, lo as int, hi as int),
{
    let m = marker_chars(key);
    match find_in(c, &m, lo, hi, true) {
        Some(k) => if k > lo {
            Some(k)
        } else {
            None
        },
        None => None,
    }
}

fn min_option(a: Option<usize>, b: Option<usize>) -> (r: Option<usize>)
    ensures
        opt_int(r) == min_opt(opt_int(a), opt_int(b)),
{
    match (a, b) {
        (Some(x), Some(y)) => Some(
            if x <= y {
                x
            } else {
                y
            },
        ),
        (Some(x), None) => Some(x),
        (None, y) => y,
    }
}

/// Where the next field starts in `c[lo..hi]`.
fn find_next_field_start(c: &Vec<char>, lo: usize, hi: usize) -> (r: Option<usize>)
    requires
        lo <= hi <= c.len(),
    ensures
        opt_int(r) == next_field(c@, lo as int, hi as int),
        r matches Some(e) ==> lo < e <= hi,
{
    proof {
        lemma_find_range(c@, field_marker(key_points()), lo as int, hi as int, true);
        lemma_find_range(c@, field_marker(key_connets()), lo as int, hi as int, true);
        lemma_find_range(c@, field_marker(key_width()), lo as int, hi as int, true);
        lemma_find_range(c@, field_marker(key_height()), lo as int, hi as int, true);
    }
    let a = find_marker_after(c, &keys_points(), lo, hi);
    let b = find_marker_after(c, &keys_connets(), lo, hi);
    let d = find_marker_after(c, &keys_width(), lo, hi);
    let e = find_marker_after(c, &keys_height(), lo, hi);
    min_option(min_option(a, b), min_option(d, e))
}

fn msg_missing_exec(key: &Vec<char>) -> (m: String)
    ensures
        m@ == msg_missing(key@),
{
    let mut m = String::from_str("缺少 ");
    append_range(&mut m, key, 0, key.len());
    m.append(":");
    assert(key@.subrange(0, key@.len() as int) =~= key@);
    m
}

/// The bounds of the section of field `key` in the body `c[lo..hi]`.
fn extract_section(c: &Vec<char>, lo: usize, hi: usize, key: &Vec<char>) -> (r: Result<
    (usize, usize),
    String,
>)
    requires
        lo <= hi <= c.len(),
    ensures
        match r {
            Ok((a, b)) => a <= b <= c.len() && section(c@, lo as int, hi as int, key@) == Ok::<
                _,
                Seq<char>,
            >(c@.subrange(a as int, b as int)),
            Err(m) => section(c@, lo as int, hi as int, key@) == Err::<Seq<char>, _>(m@),
        },
{
    let pat = marker_chars(key);
    match find_in(c, &pat, lo, hi, true) {
        None => Err(msg_missing_exec(key)),
        Some(st) => {
            proof {
                lemma_find_range(c@, pat@, lo as int, hi as int, true);
            }
            let v = st + key.len() + 1;
            let end = match find_next_field_start(c, v, hi) {
                Some(e) => e,
                None => hi,
            };
            let (a, b) = trim_bounds(c, v, end);
            Ok((a, b))
        },
    }
}

/// The digits of `c[a..b]`.
fn digits_of(c: &Vec<char>, a: usize, b: usize) -> (v: Vec<char>)
    requires
        a <= b <= c.len(),
    ensures
        v@ == keep_digits(c@.subrange(a as int, b as int)),
{
    let mut v: Vec<char> = Vec::new();
    let mut k = a;
    assert(c@.subrange(a as int, a as int) =~= Seq::<char>::empty());
    while k < b
        invariant
            a <= k <= b <= c.len(),
            v@ == keep_digits(c@.subrange(a as int, k as int)),
        decreases b - k,
    {
        assert(c@.subrange(a as int, k + 1).drop_last() =~= c@.subrange(a as int, k as int));
        if is_ascii_digit(c[k]) {
            v.push(c[k]);
        }
        k = k + 1;
    }
    v
}

/// The number field `key` of the body `c[lo..hi]`.
fn parse_usize_field(c: &Vec<char>, lo: usize, hi: usize, key: &Vec<char>) -> (r: Result<
    usize,
    String,
>)
    requires
        lo <= hi <= c.len(),
    ensures
        match r {
            Ok(n) => number_field(c@, lo as int, hi as int, key@) == Ok::<_, Seq<char>>(n),
            Err(m) => number_field(c@, lo as int, hi as int, key@) == Err::<usize, _>(m@),
        },
{
    let (a, b) = extract_section(c, lo, hi, key)?;
    let ds = digits_of(c, a, b);
    match parse_usize_range(&ds, 0, ds.len()) {
        Some(n) => {
            assert(ds@.subrange(0, ds@.len() as int) =~= ds@);
            Ok(n)
        },
        None => {
            assert(ds@.subrange(0, ds@.len() as int) =~= ds@);
            let mut m = String::from_str("无效的 ");
            append_range(&mut m, key, 0, key.len());
            m.append(": ");
            append_range(&mut m, c, a, b);
            assert(key@.subrange(0, key@.len() as int) =~= key@);
            assert(m@ =~= msg_invalid(key@, c@.subrange(a as int, b as int)));
            Err(m)
        },
    }
}

/// Parses the body `c[lo..hi]` of a question with the given id.
fn parse_question_body(c: &Vec<char>, lo: usize, hi: usize, id: String) -> (r: Result<
    Question,
    Halt,
>)
    requires
        lo <= hi <= c.len(),
    ensures
        match r {
            Ok(q) => question_body(c@, lo as int, hi as int, id@) == Ok::<_, HaltModel>(q@),
            Err(h) => question_body(c@, lo as int, hi as int, id@) == Err::<QuestionModel, _>(h@),
        },
{
    let (pa, pb) = match extract_section(c, lo, hi, &keys_points()) {
        Ok(b) => b,
        Err(m) => {
            return Err(Halt::Rejected(m));
        },
    };
    let psec = string_range_chars(c, pa, pb);
    let points = parse_points(&psec)?;
    let (ca, cb) = match extract_section(c, lo, hi, &keys_connets()) {
        Ok(b) => b,
        Err(m) => {
            return Err(Halt::Rejected(m));
        },
    };
    let csec = string_range_chars(c, ca, cb);
    let connets = match parse_connets(&csec) {
        Ok(g) => g,
        Err(m) => {
            return Err(Halt::Rejected(m));
        },
    };
    let width = match parse_usize_field(c, lo, hi, &keys_width()) {
        Ok(n) => n,
        Err(m) => {
            return Err(Halt::Rejected(m));
        },
    };
    let height = match parse_usize_field(c, lo, hi, &keys_height()) {
        Ok(n) => n,
        Err(m) => {
            return Err(Halt::Rejected(m));
        },
    };
    let q = Question { id, points, connets, width, height };
    assert(q@.points == points_view(q.points@));
    assert(q@.connets == groups_view(q.connets@));
    Ok(q)
}

fn string_range_chars(c: &Vec<char>, a: usize, b: usize) -> (v: Vec<char>)
    requires
        a <= b <= c.len(),
    ensures
        v@ == c@.subrange(a as int, b as int),
{
    copy_range(c, a, b)
}

fn tag_open_chars() -> (v: Vec<char>)
    ensures
        v@ == tag_open(),
{
    let v = vec!['<', 'q', 'u', 'e', 's', 't', 'i', 'o', 'n'];
    assert(v@ =~= tag_open());
    v
}

fn tag_close_chars() -> (v: Vec<char>)
    ensures
        v@ == tag_close(),
{
    let v = vec!['<', '/', 'q', 'u', 'e', 's', 't', 'i', 'o', 'n', '>'];
    assert(v@ =~= tag_close());
    v
}

fn one_char(ch: char) -> (v: Vec<char>)
    ensures
        v@ == seq![ch],
{
    let v = vec![ch];
    assert(v@ =~= seq![ch]);
    v
}

/// Reads the id of the question tag at `start`.
fn parse_question_id(c: &Vec<char>, start: usize) -> (r: Result<String, String>)
    requires
        start <= c.len(),
    ensures
        match r {
            Ok(id) => id_at(c@, start as int) == Ok::<_, Seq<char>>(id@),
            Err(m) => id_at(c@, start as int) == Err::<Seq<char>, _>(m@),
        },
{
    let id_pat = vec!['i', 'd'];
    assert(id_pat@ =~= seq!['i', 'd']);
    let gt = one_char('>');
    proof {
        lemma_find_range(c@, seq!['>'], start as int, c@.len() as int, false);
    }
    let end = match find_in(c, &gt, start, c.len(), false) {
        Some(g) => g,
        None => c.len(),
    };
    let p = match find_in(c, &id_pat, start, end, true) {
        Some(p) => p,
        None => {
            return Err(String::from_str("question 标签缺少 id"));
        },
    };
    proof {
        lemma_find_range(c@, seq!['i', 'd'], start as int, end as int, true);
    }
    let r = scan_run(c, p + 2, CharClass::SpaceOrEquals);
    if r < c.len() && (c[r] == '"' || c[r] == '\'') {
        let q = one_char(c[r]);
        match find_in(c, &q, r + 1, c.len(), false) {
            None => Err(String::from_str("id 引号未闭合")),
            Some(e) => {
                proof {
                    lemma_find_range(c@, seq![c@[r as int]], r + 1, c@.len() as int, false);
                }
                let (a, b) = trim_bounds(c, r + 1, e);
                Ok(string_of_range(c, a, b))
            },
        }
    } else {
        let e = scan_run(c, r, CharClass::IdText);
        if e == r {
            Err(String::from_str("question id 为空"))
        } else {
            Ok(string_of_range(c, r, e))
        }
    }
}

/// Reads the question whose tag starts at `start`.
fn read_question(
    c: &Vec<char>,
    start: usize,
    gt: &Vec<char>,
    close_tag: &Vec<char>,
) -> (r: Result<(Question, usize), Halt>)
    requires
        start <= c.len(),
        gt@ == seq!['>'],
        close_tag@ == tag_close(),
    ensures
        match r {
            Ok((q, n)) => question_at(c@, start as int) == Ok::<_, HaltModel>((q@, n as int)),
            Err(h) => question_at(c@, start as int) == Err::<(QuestionModel, int), _>(h@),
        },
{
    reveal(question_at);
    let id = match parse_question_id(c, start) {
        Ok(id) => id,
        Err(m) => {
            return Err(Halt::Rejected(m));
        },
    };
    let g = match find_in(c, gt, start, c.len(), false) {
        Some(g) => g,
        None => {
            return Err(Halt::Rejected(String::from_str("缺少 question 开始标签的 >")));
        },
    };
    proof {
        lemma_find_range(c@, seq!['>'], start as int, c@.len() as int, false);
    }
    let ce = match find_in(c, close_tag, g + 1, c.len(), false) {
        Some(k) => k,
        None => {
            return Err(Halt::Rejected(String::from_str("缺少 </question>")));
        },
    };
    proof {
        lemma_find_range(c@, tag_close(), g + 1, c@.len() as int, false);
    }
    let q = parse_question_body(c, g + 1, ce, id)?;
    Ok((q, ce + 11))
}

/// Parses every question of the text `c`.
pub fn parse_all_chars(c: &Vec<char>) -> (r: Result<Vec<Question>, Halt>)
    ensures
        match r {
            Ok(v) => spec_parse_all(c@) == Ok::<_, HaltModel>(questions_view(v@)),
            Err(h) => spec_parse_all(c@) == Err::<Seq<QuestionModel>, _>(h@),
        },
{
    let open_tag = tag_open_chars();
    let close_tag = tag_close_chars();
    let gt = one_char('>');
    let mut questions: Vec<Question> = Vec::new();
    let mut from: usize = 0;
    loop
        invariant_except_break
            from <= c.len(),
            open_tag@ == tag_open(),
            close_tag@ == tag_close(),
            gt@ == seq!['>'],
            questions_from(c@, 0) == prepend(
                questions_view(questions@),
                questions_from(c@, from as int),
            ),
        ensures
            questions_from(c@, 0) == Ok::<_, HaltModel>(questions_view(questions@)),
        decreases c.len() - from,
    {
        let ghost before = questions_view(questions@);
        let start = match find_in(c, &open_tag, from, c.len(), false) {
            Some(s) => s,
            None => {
                assert(before + Seq::<QuestionModel>::empty() =~= before);
                break ;
            },
        };
        proof {
            lemma_find_range(c@, tag_open(), from as int, c@.len() as int, false);
            lemma_question_at(c@, start as int);
        }
        let (q, n) = read_question(c, start, &gt, &close_tag)?;
        questions.push(q);
        proof {
            assert(questions_view(questions@) =~= before + seq![q@]);
            if let Ok(rest) = questions_from(c@, n as int) {
                assert(before + (seq![q@] + rest) =~= questions_view(questions@) + rest);
            }
        }
        if n >= c.len() {
            assert(before + seq![q@] =~= questions_view(questions@));
            break ;
        }
        from = n;
    }
    if questions.len() == 0 {
        Err(Halt::Rejected(String::from_str("未找到任何 <question> 块")))
    } else {
        Ok(questions)
    }
}

/// Parses all questions of `content`. Rejected, with a message, when a block
/// is malformed or there is no block.
/// Defined for every text on which no scan runs past its end.
pub fn parse_all(content: &str) -> (r: Result<Vec<Question>, String>)
    requires
        !(spec_parse_all(content@) matches Err(HaltModel::Overrun)),
    ensures
        match r {
            Ok(v) => spec_parse_all(content@) == Ok::<_, HaltModel>(questions_view(v@)),
            Err(m) => spec_parse_all(content@) == Err::<Seq<QuestionModel>, _>(
                HaltModel::Rejected(m@),
            ),
        },
{
    let c = chars_of(content);
    match parse_all_chars(&c) {
        Ok(v) => Ok(v),
        Err(Halt::Rejected(m)) => Err(m),
        Err(Halt::Overrun) => Err(String::new()),
    }
}

/// Parses all questions of `content`; `None` exactly when a scan would run
/// past the end of the text (a `name: value` pair inside an unclosed point
/// brace whose separators reach the end of its section).
pub fn try_parse_all(content: &str) -> (r: Option<Result<Vec<Question>, String>>)
    ensures
        match r {
            None => spec_parse_all(content@) == Err::<Seq<QuestionModel>, _>(HaltModel::Overrun),
            Some(Ok(v)) => spec_parse_all(content@) == Ok::<_, HaltModel>(questions_view(v@)),
            Some(Err(m)) => spec_parse_all(content@) == Err::<Seq<QuestionModel>, _>(
                HaltModel::Rejected(m@),
            ),
        },
{
    let c = chars_of(content);
    match parse_all_chars(&c) {
        Ok(v) => Some(Ok(v)),
        Err(Halt::Rejected(m)) => Some(Err(m)),
        Err(Halt::Overrun) => None,
    }
}

/// Chooses a question: the last one when `id` is `None`, else the first one
/// whose id equals `id`.
pub fn select_question<'a>(questions: &'a [Question], id: Option<&str>) -> (r: Result<
    &'a Question,
    String,
>)
    ensures
        id is None ==> match r {
            Ok(q) => questions@.len() > 0 && *q == questions@.last(),
            Err(m) => questions@.len() == 0 && m@ == msg_empty_list(),
        },
        id matches Some(want) ==> match r {
            Ok(q) => exists|k: int|
                0 <= k < questions@.len() && *q == questions@[k] && questions@[k].id@ == want@
                    && forall|j: int| 0 <= j < k ==> (#[trigger] questions@[j]).id@ != want@,
            Err(m) => (forall|j: int|
                0 <= j < questions@.len() ==> (#[trigger] questions@[j]).id@ != want@) && m@
                == msg_not_found(want@),
        },
{
    match id {
        None => {
            if questions.len() == 0 {
                Err(String::from_str("题目列表为空"))
            } else {
                Ok(&questions[questions.len() - 1])
            }
        },
        Some(want) => {
            let w = String::from_str(want);
            let mut k: usize = 0;
            while k < questions.len()
                invariant
                    k <= questions@.len(),
                    w@ == want@,
                    id == Some(want),
                    forall|j: int| 0 <= j < k ==> (#[trigger] questions@[j]).id@ != want@,
                decreases questions.len() - k,
            {
                if questions[k].id == w {
                    assert(questions@[k as int].id@ == want@);
                    return Ok(&questions[k]);
                }
                k = k + 1;
            }
            let mut m = String::from_str("未找到 id=");
            m.append(want);
            m.append(" 的题目");
            Err(m)
        },
    }
}

/// A question as parsing leaves it: at least one point, every coordinate a
/// decimal literal, no empty connection group.
pub open spec fn well_formed_question(q: QuestionModel) -> bool {
    &&& q.points.len() > 0
    &&& literal_points(q.points)
    &&& nonempty_groups(q.connets)
}

pub open spec fn all_well_formed(qs: Seq<QuestionModel>) -> bool {
    forall|k: int| 0 <= k < qs.len() ==> well_formed_question(#[trigger] qs[k])
}

proof fn lemma_body_well_formed(c: Seq<char>, lo: int, hi: int, id: Seq<char>)
    ensures
        question_body(c, lo, hi, id) matches Ok(q) ==> well_formed_question(q) && q.id == id,
{
    if let Ok(ps) = section(c, lo, hi, key_points()) {
        lemma_points_from_literals(ps, 0);
        if let Ok(cs) = section(c, lo, hi, key_connets()) {
            lemma_connets_nonempty(cs, 0);
        }
    }
}

proof fn lemma_questions_well_formed(c: Seq<char>, from: int)
    ensures
        questions_from(c, from) matches Ok(qs) ==> all_well_formed(qs),
    decreases c.len() - from,
{
    if 0 <= from <= c.len() {
        if let Some(start) = find_range(c, tag_open(), from, c.len() as int, false) {
            lemma_find_range(c, tag_open(), from, c.len() as int, false);
            lemma_question_at(c, start);
            reveal(question_at);
            if let Ok((q, n)) = question_at(c, start) {
                if let Ok(id) = id_at(c, start) {
                    if let Some(g) = find_range(c, seq!['>'], start, c.len() as int, false) {
                        if let Some(ce) = find_range(c, tag_close(), g + 1, c.len() as int, false) {
                            lemma_body_well_formed(c, g + 1, ce, id);
                        }
                    }
                }
                if n < c.len() {
                    lemma_questions_well_formed(c, n);
                    if let Ok(rest) = questions_from(c, n) {
                        let all = seq![q] + rest;
                        assert forall|k: int| 0 <= k < all.len() implies well_formed_question(
                            #[trigger] all[k],
                        ) by {
                            if k > 0 {
                                assert(all[k] == rest[k - 1]);
                            }
                        }
                    }
                } else {
                    assert(seq![q][0] == q);
                }
            }
        }
    }
}

/// A successful parse yields at least one question, and every question has
/// points, decimal-literal coordinates (so each converts to a number) and no
/// empty connection group.
pub proof fn lemma_parse_all_well_formed(c: Seq<char>)
    ensures
        spec_parse_all(c) matches Ok(qs) ==> qs.len() > 0 && all_well_formed(qs),
{
    lemma_questions_well_formed(c, 0);
}

proof fn lemma_keep_digits(s: Seq<char>)
    ensures
        all_digits(keep_digits(s)),
        all_digits(s) ==> keep_digits(s) == s,
    decreases s.len(),
{
    if s.len() > 0 {
        let p = s.drop_last();
        lemma_keep_digits(p);
        if is_digit(s.last()) {
            let r = keep_digits(s);
            assert forall|k: int| 0 <= k < r.len() implies is_digit(#[trigger] r[k]) by {
                if k < r.len() - 1 {
                    assert(r[k] == keep_digits(p)[k]);
                }
            }
        }
        if all_digits(s) {
            assert(all_digits(p)) by {
                assert forall|k: int| 0 <= k < p.len() implies is_digit(#[trigger] p[k]) by {
                    assert(p[k] == s[k]);
                }
            }
            assert(p.push(s.last()) =~= s);
        }
    }
}

/// A number field's value is the number that all the digits of its section
/// denote, read in order; it is given exactly when there is a digit and the
/// number fits in `usize`; and a section holding a number's decimal writing
/// gives that number.
pub proof fn lemma_number_field(c: Seq<char>, lo: int, hi: int, key: Seq<char>)
    ensures
        number_field(c, lo, hi, key) matches Ok(n) ==> section(c, lo, hi, key) matches Ok(sec)
            && n == decimal_value(keep_digits(sec)),
        section(c, lo, hi, key) matches Ok(sec) ==> (number_field(c, lo, hi, key) is Ok
            <==> keep_digits(sec).len() > 0 && decimal_value(keep_digits(sec)) <= usize::MAX),
        forall|n: usize|
            section(c, lo, hi, key) == Ok::<_, Seq<char>>(#[trigger] decimal_text(n as nat))
                ==> number_field(c, lo, hi, key) == Ok::<_, Seq<char>>(n),
{
    if let Ok(sec) = section(c, lo, hi, key) {
        lemma_keep_digits(sec);
        let ds = keep_digits(sec);
        crate::number::lemma_decimal_value_nonneg(ds);
        assert(ds.len() == 0 || ds[0] != '+') by {
            if ds.len() > 0 {
                assert(is_digit(ds[0]));
            }
        }
        assert forall|n: usize|
            section(c, lo, hi, key) == Ok::<_, Seq<char>>(#[trigger] decimal_text(n as nat))
            implies number_field(c, lo, hi, key) == Ok::<_, Seq<char>>(n) by {
            lemma_decimal_text(n as nat);
        }
    }
}

} // verus!
