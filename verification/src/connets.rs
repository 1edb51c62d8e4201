//! The `connets:` section: brace groups of comma-separated point indices,
//! possibly nested.
use vstd::prelude::*;
use crate::number::{
    all_digits, decimal_text, lemma_decimal_text, lemma_parse_usize_decimal_text, parse_usize_range,
    spec_parse_usize,
};
use crate::text::{
    back_ws, chars_match, is_ws, matches_at, skip_ws, append_range, copy_range, find_in, find_range, is_ascii_digit, is_digit, lemma_find_range,
    opt_int, trim_bounds, trimmed,
};

verus! {

/// `acc` followed by the sequence that `r` holds, or `r`'s error.
pub open spec fn prepend<T, E>(acc: Seq<T>, r: Result<Seq<T>, E>) -> Result<Seq<T>, E> {
    match r {
        Ok(rest) => Ok(acc + rest),
        Err(e) => Err(e),
    }
}

/// The index of the `}` that closes a group, scanning from `j` with `depth`
/// groups open.
pub open spec fn close_index(s: Seq<char>, j: int, depth: int) -> Option<int>
    decreases s.len() - j,
{
    if j < 0 || j >= s.len() {
        None
    } else if s[j] == '{' {
        close_index(s, j + 1, depth + 1)
    } else if s[j] == '}' {
        if depth <= 1 {
            Some(j)
        } else {
            close_index(s, j + 1, depth - 1)
        }
    } else {
        close_index(s, j + 1, depth)
    }
}

pub proof fn lemma_close_index(s: Seq<char>, j: int, depth: int)
    requires
        0 <= j,
    ensures
        close_index(s, j, depth) matches Some(k) ==> j <= k < s.len() && s[k] == '}',
    decreases s.len() - j,
{
    if j < s.len() {
        if s[j] == '{' {
            lemma_close_index(s, j + 1, depth + 1);
        } else if s[j] == '}' {
            if depth > 1 {
                lemma_close_index(s, j + 1, depth - 1);
            }
        } else {
            lemma_close_index(s, j + 1, depth);
        }
    }
}

pub open spec fn msg_bad_index(item: Seq<char>) -> Seq<char> {
    "无效索引: "@ + item
}

/// End of the comma-separated item that starts at `a`.
pub open spec fn item_end(t: Seq<char>, a: int) -> int {
    match find_range(t, seq![','], a, t.len() as int, false) {
        Some(k) => k,
        None => t.len() as int,
    }
}

/// The index that the (trimmed) item `t[a..e]` holds: none when it is empty.
pub open spec fn item_value(t: Seq<char>, a: int, e: int) -> Result<Seq<usize>, Seq<char>> {
    if trimmed(t, a, e).len() == 0 {
        Ok(Seq::empty())
    } else {
        match spec_parse_usize(trimmed(t, a, e)) {
            Some(n) => Ok(seq![n]),
            None => Err(msg_bad_index(trimmed(t, a, e))),
        }
    }
}

/// The indices of the comma-separated items of `t` from `a` on.
pub open spec fn index_items_from(t: Seq<char>, a: int) -> Result<Seq<usize>, Seq<char>>
    decreases t.len() - a,
{
    if a < 0 || a > t.len() {
        Ok(Seq::empty())
    } else {
        match item_value(t, a, item_end(t, a)) {
            Err(m) => Err(m),
            Ok(h) => if item_end(t, a) >= t.len() {
                Ok(h)
            } else {
                proof {
                    lemma_find_range(t, seq![','], a, t.len() as int, false);
                }
                prepend(h, index_items_from(t, item_end(t, a) + 1))
            },
        }
    }
}

/// The indices that `t` lists, separated by commas, each trimmed; empty items
/// are skipped (what splitting at `,` and `str::parse::<usize>` give).
pub open spec fn index_list(t: Seq<char>) -> Result<Seq<usize>, Seq<char>> {
    index_items_from(t, 0)
}

pub open spec fn has_char(t: Seq<char>, c: char) -> bool {
    exists|k: int| 0 <= k < t.len() && t[k] == c
}

pub open spec fn has_digit(t: Seq<char>) -> bool {
    exists|k: int| 0 <= k < t.len() && is_digit(#[trigger] t[k])
}

/// The groups of one brace group whose content is `inner`: the groups nested
/// in it when it holds a `{`, else its index list when it holds a digit and the
/// list is not empty.
pub open spec fn group_of(inner: Seq<char>) -> Result<Seq<Seq<usize>>, Seq<char>>
    decreases inner.len(), 1int,
{
    if has_char(inner, '{') {
        connets_from(inner, 0)
    } else if has_digit(inner) {
        match index_list(inner) {
            Ok(l) => if l.len() > 0 {
                Ok(seq![l])
            } else {
                Ok(Seq::empty())
            },
            Err(m) => Err(m),
        }
    } else {
        Ok(Seq::empty())
    }
}

/// The groups of `s[i..]`: each outermost brace group in turn; an unclosed
/// group ends the scan.
pub open spec fn connets_from(s: Seq<char>, i: int) -> Result<Seq<Seq<usize>>, Seq<char>>
    decreases s.len(), 0int, s.len() - i,
{
    if i < 0 || i >= s.len() {
        Ok(Seq::empty())
    } else if s[i] != '{' {
        connets_from(s, i + 1)
    } else {
        match close_index(s, i + 1, 1) {
            None => Ok(Seq::empty()),
            Some(j) => {
                proof {
                    lemma_close_index(s, i + 1, 1);
                }
                match group_of(s.subrange(i + 1, j)) {
                    Err(m) => Err(m),
                    Ok(g) => prepend(g, connets_from(s, j + 1)),
                }
            },
        }
    }
}

/// The connection groups of a `connets:` section.
pub open spec fn connets_of(s: Seq<char>) -> Result<Seq<Seq<usize>>, Seq<char>> {
    connets_from(s, 0)
}

pub open spec fn groups_view(v: Seq<Vec<usize>>) -> Seq<Seq<usize>> {
    v.map_values(|g: Vec<usize>| g@)
}

/// The `}` closing the group opened at `i`.
fn find_close(s: &Vec<char>, i: usize) -> (r: Option<usize>)
    requires
        i < s.len(),
    ensures
        opt_int(r) == close_index(s@, i + 1, 1),
{
    let mut j = i + 1;
    let mut depth: usize = 1;
    while j < s.len()
        invariant
            i < j <= s.len(),
            1 <= depth <= j - i,
            close_index(s@, i + 1, 1) == close_index(s@, j as int, depth as int),
        decreases s.len() - j,
    {
        if s[j] == '{' {
            depth = depth + 1;
        } else if s[j] == '}' {
            if depth <= 1 {
                return Some(j);
            }
            depth = depth - 1;
        }
        j = j + 1;
    }
    None
}

fn contains_char(t: &Vec<char>, c: char) -> (r: bool)
    ensures
        r == has_char(t@, c),
{
    let mut k: usize = 0;
    while k < t.len()
        invariant
            k <= t.len(),
            forall|u: int| 0 <= u < k ==> t@[u] != c,
        decreases t.len() - k,
    {
        if t[k] == c {
            return true;
        }
        k = k + 1;
    }
    false
}

fn contains_digit(t: &Vec<char>) -> (r: bool)
    ensures
        r == has_digit(t@),
{
    let mut k: usize = 0;
    while k < t.len()
        invariant
            k <= t.len(),
            forall|u: int| 0 <= u < k ==> !is_digit(#[trigger] t@[u]),
        decreases t.len() - k,
    {
        if is_ascii_digit(t[k]) {
            return true;
        }
        k = k + 1;
    }
    false
}

fn comma() -> (v: Vec<char>)
    ensures
        v@ == seq![','],
{
    let v = vec![','];
    assert(v@ =~= seq![',']);
    v
}

/// Parses the comma-separated index list `t`.
pub fn parse_index_list(t: &Vec<char>) -> (r: Result<Vec<usize>, String>)
    ensures
        match r {
            Ok(v) => index_list(t@) == Ok::<_, Seq<char>>(v@),
            Err(m) => index_list(t@) == Err::<Seq<usize>, _>(m@),
        },
{
    let sep = comma();
    let mut out: Vec<usize> = Vec::new();
    let mut a: usize = 0;
    loop
        invariant
            a <= t.len(),
            sep@ == seq![','],
            index_list(t@) == prepend(out@, index_items_from(t@, a as int)),
        decreases t.len() - a,
    {
        let e = match find_in(t, &sep, a, t.len(), false) {
            Some(k) => k,
            None => t.len(),
        };
        proof {
            lemma_find_range(t@, seq![','], a as int, t@.len() as int, false);
        }
        let (lo, hi) = trim_bounds(t, a, e);
        let ghost before = out@;
        if lo < hi {
            match parse_usize_range(t, lo, hi) {
                Some(n) => {
                    out.push(n);
                },
                None => {
                    let mut m = String::from_str("无效索引: ");
                    append_range(&mut m, t, lo, hi);
                    return Err(m);
                },
            }
        }
        proof {
            if lo < hi {
                if let Ok(rest) = index_items_from(t@, e + 1) {
                    assert(before + (seq![out@.last()] + rest) =~= out@ + rest);
                }
                assert(out@ =~= before + seq![out@.last()]);
            } else {
                assert(before + Seq::<usize>::empty() =~= before);
                if let Ok(rest) = index_items_from(t@, e + 1) {
                    assert(before + (Seq::<usize>::empty() + rest) =~= out@ + rest);
                }
            }
        }
        if e >= t.len() {
            return Ok(out);
        }
        a = e + 1;
    }
}

/// Parses the connection groups of `s`.
pub fn parse_connets(s: &Vec<char>) -> (r: Result<Vec<Vec<usize>>, String>)
    ensures
        match r {
            Ok(v) => connets_from(s@, 0) == Ok::<_, Seq<char>>(groups_view(v@)),
            Err(m) => connets_from(s@, 0) == Err::<Seq<Seq<usize>>, _>(m@),
        },
    decreases s@.len(),
{
    let mut groups: Vec<Vec<usize>> = Vec::new();
    let mut i: usize = 0;
    while i < s.len()
        invariant
            i <= s.len(),
            connets_from(s@, 0) == prepend(groups_view(groups@), connets_from(s@, i as int)),
        decreases s.len() - i,
    {
        if s[i] != '{' {
            i = i + 1;
            continue;
        }
        match find_close(s, i) {
            None => {
                assert(groups_view(groups@) + Seq::<Seq<usize>>::empty() =~= groups_view(
                    groups@,
                ));
                return Ok(groups);
            },
            Some(j) => {
                proof {
                    lemma_close_index(s@, i + 1, 1);
                }
                let inner = copy_range(s, i + 1, j);
                let ghost before = groups_view(groups@);
                assert(connets_from(s@, i as int) == match group_of(inner@) {
                    Err(m) => Err(m),
                    Ok(g) => prepend(g, connets_from(s@, j + 1)),
                });
                if contains_char(&inner, '{') {
                    match parse_connets(&inner) {
                        Ok(mut sub) => {
                            let ghost subv = groups_view(sub@);
                            groups.append(&mut sub);
                            proof {
                                assert(groups_view(groups@) =~= before + subv);
                                if let Ok(rest) = connets_from(s@, j + 1) {
                                    assert(before + (subv + rest) =~= groups_view(groups@)
                                        + rest);
                                }
                            }
                        },
                        Err(m) => {
                            assert(group_of(inner@) == Err::<Seq<Seq<usize>>, _>(m@));
                            return Err(m);
                        },
                    }
                } else if contains_digit(&inner) {
                    match parse_index_list(&inner) {
                        Ok(list) => {
                            if list.len() > 0 {
                                let ghost lv = list@;
                                groups.push(list);
                                proof {
                                    assert(groups_view(groups@) =~= before + seq![lv]);
                                    if let Ok(rest) = connets_from(s@, j + 1) {
                                        assert(before + (seq![lv] + rest) =~= groups_view(
                                            groups@,
                                        ) + rest);
                                    }
                                }
                            } else {
                                proof {
                                    if let Ok(rest) = connets_from(s@, j + 1) {
                                        assert(before + (Seq::<Seq<usize>>::empty() + rest)
                                            =~= groups_view(groups@) + rest);
                                    }
                                }
                            }
                        },
                        Err(m) => {
                            assert(group_of(inner@) == Err::<Seq<Seq<usize>>, _>(m@));
                            return Err(m);
                        },
                    }
                } else {
                    proof {
                        if let Ok(rest) = connets_from(s@, j + 1) {
                            assert(before + (Seq::<Seq<usize>>::empty() + rest) =~= groups_view(
                                groups@,
                            ) + rest);
                        }
                    }
                }
                i = j + 1;
            },
        }
    }
    assert(groups_view(groups@) + Seq::<Seq<usize>>::empty() =~= groups_view(groups@));
    Ok(groups)
}

/// Every group that a `connets:` section yields holds at least one index.
pub proof fn lemma_connets_nonempty(s: Seq<char>, i: int)
    ensures
        connets_from(s, i) matches Ok(gs) ==> nonempty_groups(gs),
    decreases s.len(), 0int, s.len() - i,
{
    if 0 <= i < s.len() {
        if s[i] != '{' {
            lemma_connets_nonempty(s, i + 1);
        } else {
            lemma_close_index(s, i + 1, 1);
            if let Some(j) = close_index(s, i + 1, 1) {
                lemma_group_nonempty(s.subrange(i + 1, j));
                lemma_connets_nonempty(s, j + 1);
                if let Ok(g) = group_of(s.subrange(i + 1, j)) {
                    if let Ok(rest) = connets_from(s, j + 1) {
                        lemma_concat_nonempty(g, rest);
                    }
                }
            }
        }
    }
}

proof fn lemma_group_nonempty(inner: Seq<char>)
    ensures
        group_of(inner) matches Ok(gs) ==> nonempty_groups(gs),
    decreases inner.len(), 1int,
{
    if has_char(inner, '{') {
        lemma_connets_nonempty(inner, 0);
    }
}

proof fn lemma_concat_nonempty(a: Seq<Seq<usize>>, b: Seq<Seq<usize>>)
    requires
        nonempty_groups(a),
        nonempty_groups(b),
    ensures
        nonempty_groups(a + b),
{
    assert forall|k: int| 0 <= k < (a + b).len() implies (#[trigger] (a + b)[k]).len() > 0 by {
        if k < a.len() {
            assert((a + b)[k] == a[k]);
        } else {
            assert((a + b)[k] == b[k - a.len()]);
        }
    }
}

pub open spec fn nonempty_groups(gs: Seq<Seq<usize>>) -> bool {
    forall|k: int| 0 <= k < gs.len() ==> (#[trigger] gs[k]).len() > 0
}

/// An index list written out: each index in decimal, separated by commas.
pub open spec fn index_list_text(ns: Seq<usize>) -> Seq<char>
    decreases ns.len(),
{
    if ns.len() == 0 {
        Seq::empty()
    } else if ns.len() == 1 {
        decimal_text(ns[0] as nat)
    } else {
        decimal_text(ns[0] as nat) + seq![','] + index_list_text(ns.drop_first())
    }
}

proof fn lemma_index_items_text(t: Seq<char>, a: int, ns: Seq<usize>)
    requires
        ns.len() > 0,
        0 <= a <= t.len(),
        t.skip(a) == index_list_text(ns),
    ensures
        index_items_from(t, a) == Ok::<_, Seq<char>>(ns),
    decreases ns.len(),
{
    let d = decimal_text(ns[0] as nat);
    lemma_decimal_text(ns[0] as nat);
    lemma_parse_usize_decimal_text(ns[0]);
    let l = d.len() as int;
    let x = index_list_text(ns);
    assert(x.subrange(0, l) =~= d);
    assert(a + l <= t.len());
    assert forall|k: int| a <= k < a + l implies #[trigger] t[k] == d[k - a] by {
        assert(t.skip(a)[k - a] == t[k]);
        assert(x[k - a] == x.subrange(0, l)[k - a]);
    }
    assert forall|k: int| a <= k < a + l implies t[k] != ',' && !is_ws(#[trigger] t[k]) by {
        assert(t[k] == d[k - a]);
        assert(is_digit(d[k - a]));
    }
    lemma_find_range(t, seq![','], a, t.len() as int, false);
    let e = item_end(t, a);
    if ns.len() == 1 {
        assert(x == d);
        assert(t.len() == a + l);
        if let Some(k) = find_range(t, seq![','], a, t.len() as int, false) {
            assert(matches_at(t, seq![','], k, false));
            assert(chars_match(t[k + 0], seq![','][0], false));
        }
        assert(e == t.len());
    } else {
        assert(x == d + seq![','] + index_list_text(ns.drop_first()));
        assert(t[a + l] == x[l]);
        assert(t[a + l] == ',');
        assert(matches_at(t, seq![','], a + l, false)) by {
            assert forall|u: int| 0 <= u < 1 implies chars_match(#[trigger] t[a + l + u], seq![','][u], false) by {
                assert(u == 0);
            }
        }
        if let Some(k) = find_range(t, seq![','], a, t.len() as int, false) {
            if k < a + l {
                assert(matches_at(t, seq![','], k, false));
                assert(chars_match(t[k + 0], seq![','][0], false));
            }
        }
        assert(e == a + l);
    }
    assert(skip_ws(t, a, a + l) == a);
    assert(back_ws(t, a, a + l) == a + l);
    assert(trimmed(t, a, a + l) =~= d);
    assert(item_value(t, a, e) == Ok::<_, Seq<char>>(seq![ns[0]]));
    if ns.len() == 1 {
        assert(seq![ns[0]] =~= ns);
    } else {
        let rest = ns.drop_first();
        assert(t.skip(e + 1) =~= index_list_text(rest)) by {
            assert(x.skip(l + 1) =~= index_list_text(rest));
        }
        lemma_index_items_text(t, e + 1, rest);
        assert(seq![ns[0]] + rest =~= ns);
    }
}

/// Reading a written-out index list gives back its indices, each whole, in
/// order.
pub proof fn lemma_index_list_text(ns: Seq<usize>)
    requires
        ns.len() > 0,
    ensures
        index_list(index_list_text(ns)) == Ok::<_, Seq<char>>(ns),
{
    assert(index_list_text(ns).skip(0) =~= index_list_text(ns));
    lemma_index_items_text(index_list_text(ns), 0, ns);
}

proof fn lemma_index_list_text_chars(ns: Seq<usize>)
    requires
        ns.len() > 0,
    ensures
        index_list_text(ns).len() > 0,
        is_digit(index_list_text(ns)[0]),
        forall|k: int|
            0 <= k < index_list_text(ns).len() ==> is_digit(#[trigger] index_list_text(ns)[k])
                || index_list_text(ns)[k] == ',',
    decreases ns.len(),
{
    let d = decimal_text(ns[0] as nat);
    lemma_decimal_text(ns[0] as nat);
    if ns.len() > 1 {
        let rest = ns.drop_first();
        lemma_index_list_text_chars(rest);
        let x = index_list_text(ns);
        assert(x == d + seq![','] + index_list_text(rest));
        assert forall|k: int| 0 <= k < x.len() implies is_digit(#[trigger] x[k]) || x[k] == ',' by {
            if k < d.len() {
                assert(x[k] == d[k]);
            } else if k > d.len() {
                assert(x[k] == index_list_text(rest)[k - d.len() - 1]);
            }
        }
        assert(x[0] == d[0]);
    } else {
        assert(index_list_text(ns) == d);
    }
}

/// Connection groups written out: each index list in braces, separated by
/// commas.
pub open spec fn groups_text(gs: Seq<Seq<usize>>) -> Seq<char>
    decreases gs.len(),
{
    if gs.len() == 0 {
        Seq::empty()
    } else if gs.len() == 1 {
        seq!['{'] + index_list_text(gs[0]) + seq!['}']
    } else {
        seq!['{'] + index_list_text(gs[0]) + seq!['}', ','] + groups_text(gs.drop_first())
    }
}

proof fn lemma_close_flat(t: Seq<char>, j: int, e: int)
    requires
        0 <= j <= e < t.len(),
        forall|k: int| j <= k < e ==> #[trigger] t[k] != '{' && t[k] != '}',
        t[e] == '}',
    ensures
        close_index(t, j, 1) == Some(e),
    decreases e - j,
{
    if j < e {
        lemma_close_flat(t, j + 1, e);
    }
}

proof fn lemma_groups_text_from(t: Seq<char>, a: int, gs: Seq<Seq<usize>>)
    requires
        gs.len() > 0,
        forall|k: int| 0 <= k < gs.len() ==> (#[trigger] gs[k]).len() > 0,
        0 <= a <= t.len(),
        t.skip(a) == groups_text(gs),
    ensures
        connets_from(t, a) == Ok::<_, Seq<char>>(gs),
    decreases gs.len(),
{
    let g = gs[0];
    let il = index_list_text(g);
    lemma_index_list_text_chars(g);
    lemma_index_list_text(g);
    let l = il.len() as int;
    let x = groups_text(gs);
    let rest = gs.drop_first();
    if gs.len() == 1 {
        assert(x == seq!['{'] + il + seq!['}']);
    } else {
        assert(x == seq!['{'] + il + seq!['}', ','] + groups_text(rest));
    }
    assert(x[0] == '{');
    assert(x[l + 1] == '}');
    assert(t[a] == x[0]);
    assert(t[a + l + 1] == x[l + 1]);
    assert forall|k: int| a + 1 <= k < a + 1 + l implies #[trigger] t[k] == il[k - a - 1] by {
        assert(t[k] == x[k - a]);
    }
    assert forall|k: int| a + 1 <= k < a + 1 + l implies #[trigger] t[k] != '{' && t[k] != '}' by {
        assert(t[k] == il[k - a - 1]);
        assert(is_digit(il[k - a - 1]) || il[k - a - 1] == ',');
    }
    lemma_close_flat(t, a + 1, a + 1 + l);
    let inner = t.subrange(a + 1, a + 1 + l);
    assert(inner =~= il);
    assert(!has_char(inner, '{'));
    assert(has_digit(inner)) by {
        assert(is_digit(inner[0]));
    }
    assert(group_of(inner) == Ok::<_, Seq<char>>(seq![g]));
    let j = a + 1 + l;
    if gs.len() == 1 {
        assert(t.len() == j + 1);
        assert(connets_from(t, j + 1) == Ok::<_, Seq<char>>(Seq::<Seq<usize>>::empty()));
        assert(seq![g] + Seq::<Seq<usize>>::empty() =~= gs);
    } else {
        assert(t[j + 1] == x[l + 2]);
        assert(x[l + 2] == ',');
        assert(t.skip(j + 2) =~= groups_text(rest)) by {
            assert(x.skip(l + 3) =~= groups_text(rest));
        }
        assert forall|k: int| 0 <= k < rest.len() implies (#[trigger] rest[k]).len() > 0 by {
            assert(rest[k] == gs[k + 1]);
        }
        lemma_groups_text_from(t, j + 2, rest);
        assert(connets_from(t, j + 1) == connets_from(t, j + 2));
        assert(seq![g] + rest =~= gs);
    }
}

/// Reading written-out connection groups gives back every group, whole and in
/// order.
pub proof fn lemma_groups_text(gs: Seq<Seq<usize>>)
    requires
        gs.len() > 0,
        forall|k: int| 0 <= k < gs.len() ==> (#[trigger] gs[k]).len() > 0,
    ensures
        connets_of(groups_text(gs)) == Ok::<_, Seq<char>>(gs),
{
    assert(groups_text(gs).skip(0) =~= groups_text(gs));
    lemma_groups_text_from(groups_text(gs), 0, gs);
}

} // verus!
