//! Which lines a frame draws, and the index lists of the quads that draw them.
use vstd::prelude::*;

verus! {

/// The edges of one connection group: consecutive indices are joined, and a
/// group of three or more is closed by joining its last index to its first.
/// A group of fewer than two indices draws nothing.
pub open spec fn group_edges(g: Seq<usize>) -> Seq<(usize, usize)> {
    if g.len() < 2 {
        Seq::empty()
    } else {
        Seq::new((g.len() - 1) as nat, |i: int| (g[i], g[i + 1])) + if g.len() >= 3 {
            seq![(g[g.len() - 1], g[0])]
        } else {
            Seq::empty()
        }
    }
}

/// The edges of all groups, group by group.
pub open spec fn all_edges(groups: Seq<Seq<usize>>) -> Seq<(usize, usize)>
    decreases groups.len(),
{
    if groups.len() == 0 {
        Seq::empty()
    } else {
        all_edges(groups.drop_last()) + group_edges(groups.last())
    }
}

/// The edges of `es` whose two ends are both points (indices below `n`), in order.
pub open spec fn edges_within(es: Seq<(usize, usize)>, n: usize) -> Seq<(usize, usize)>
    decreases es.len(),
{
    if es.len() == 0 {
        Seq::empty()
    } else if es.last().0 < n && es.last().1 < n {
        edges_within(es.drop_last(), n).push(es.last())
    } else {
        edges_within(es.drop_last(), n)
    }
}

/// How many edges a group of `n` indices draws: none below two, one for two,
/// `n` (a closed polygon) from three on.
pub proof fn lemma_group_edge_count(g: Seq<usize>)
    ensures
        g.len() < 2 ==> group_edges(g).len() == 0,
        g.len() == 2 ==> group_edges(g).len() == 1,
        g.len() >= 3 ==> group_edges(g).len() == g.len(),
{
}

/// A group joins each index to the next one, cyclically: a group of `n >= 3`
/// indices draws exactly the `n` edges `(g[i], g[(i + 1) % n])`, a group of
/// two draws the one edge between them, and smaller groups draw nothing.
pub proof fn lemma_group_edges_cycle(g: Seq<usize>)
    ensures
        g.len() >= 3 ==> group_edges(g).len() == g.len() && forall|i: int|
            0 <= i < g.len() ==> #[trigger] group_edges(g)[i] == (g[i], g[(i + 1) % (g.len() as int)]),
        g.len() == 2 ==> group_edges(g) == seq![(g[0], g[1])],
        g.len() < 2 ==> group_edges(g).len() == 0,
{
    let n = g.len() as int;
    if n >= 3 {
        assert forall|i: int| 0 <= i < n implies #[trigger] group_edges(g)[i] == (g[i], g[(i + 1) % n]) by {
            if i < n - 1 {
                assert((i + 1) % n == i + 1) by (nonlinear_arith)
                    requires
                        0 <= i + 1 < n,
                ;
            } else {
                assert((i + 1) % n == 0) by (nonlinear_arith)
                    requires
                        i + 1 == n,
                        n > 0,
                ;
            }
        }
    }
    if n == 2 {
        assert(group_edges(g) =~= seq![(g[0], g[1])]);
    }
}

/// The edges of several groups are the edges of each group, one group after
/// the other.
pub proof fn lemma_all_edges_concat(a: Seq<Seq<usize>>, b: Seq<Seq<usize>>)
    ensures
        all_edges(a + b) == all_edges(a) + all_edges(b),
    decreases b.len(),
{
    if b.len() == 0 {
        assert(a + b =~= a);
        assert(all_edges(a) + all_edges(b) =~= all_edges(a));
    } else {
        lemma_all_edges_concat(a, b.drop_last());
        assert((a + b).drop_last() =~= a + b.drop_last());
        assert((a + b).last() == b.last());
        assert(all_edges(a) + all_edges(b) =~= all_edges(a) + all_edges(b.drop_last()) + group_edges(b.last()));
    }
}

/// When every index is a point, every edge of the groups is drawn.
pub proof fn lemma_edges_within_all(es: Seq<(usize, usize)>, n: usize)
    requires
        forall|k: int| 0 <= k < es.len() ==> (#[trigger] es[k]).0 < n && es[k].1 < n,
    ensures
        edges_within(es, n) == es,
    decreases es.len(),
{
    if es.len() > 0 {
        lemma_edges_within_all(es.drop_last(), n);
        assert(es.drop_last().push(es.last()) =~= es);
    } else {
        assert(es =~= Seq::<(usize, usize)>::empty());
    }
}

/// Every edge kept for drawing joins two existing points, and every edge of
/// the groups that joins two existing points is kept.
pub proof fn lemma_edges_within(es: Seq<(usize, usize)>, n: usize)
    ensures
        forall|k: int|
            0 <= k < edges_within(es, n).len() ==> (#[trigger] edges_within(es, n)[k]).0 < n
                && edges_within(es, n)[k].1 < n,
        forall|k: int|
            0 <= k < es.len() && (#[trigger] es[k]).0 < n && es[k].1 < n ==> edges_within(
                es,
                n,
            ).contains(es[k]),
        edges_within(es, n).len() <= es.len(),
    decreases es.len(),
{
    if es.len() > 0 {
        let prev = es.drop_last();
        lemma_edges_within(prev, n);
        let r = edges_within(es, n);
        assert forall|k: int| 0 <= k < es.len() && (#[trigger] es[k]).0 < n && es[k].1 < n implies r.contains(
            es[k],
        ) by {
            if k < es.len() - 1 {
                assert(prev[k] == es[k]);
                let j = choose|j: int| 0 <= j < edges_within(prev, n).len() && edges_within(prev, n)[j] == prev[k];
                assert(r[j] == es[k]);
            } else {
                assert(r[r.len() - 1] == es[k]);
            }
        }
        assert forall|k: int| 0 <= k < r.len() implies (#[trigger] r[k]).0 < n && r[k].1 < n by {
            if k < edges_within(prev, n).len() {
                assert(r[k] == edges_within(prev, n)[k]);
            }
        }
    }
}

/// The lines a frame draws: the edges of the connection groups whose two ends
/// are points of the question (`n_points` of them), in order.
pub fn frame_edges(connets: &Vec<Vec<usize>>, n_points: usize) -> (r: Vec<(usize, usize)>)
    ensures
        r@ == edges_within(all_edges(connets@.map_values(|g: Vec<usize>| g@)), n_points),
{
    let ghost gs = connets@.map_values(|g: Vec<usize>| g@);
    let mut out: Vec<(usize, usize)> = Vec::new();
    let mut k: usize = 0;
    while k < connets.len()
        invariant
            k <= connets.len(),
            gs == connets@.map_values(|g: Vec<usize>| g@),
            out@ == edges_within(all_edges(gs.take(k as int)), n_points),
        decreases connets.len() - k,
    {
        let g = &connets[k];
        let ghost es = all_edges(gs.take(k as int));
        assert(gs.take(k + 1).drop_last() =~= gs.take(k as int));
        assert(gs.take(k + 1).last() == g@);
        let ghost ge = group_edges(g@);
        let m = g.len();
        if m >= 2 {
            let mut i: usize = 0;
            while i + 1 < m
                invariant
                    m == g.len() >= 2,
                    i + 1 <= m,
                    ge == group_edges(g@),
                    out@ == edges_within(es + ge.take(i as int), n_points),
                decreases m - i,
            {
                let e = (g[i], g[i + 1]);
                assert(ge[i as int] == e);
                assert((es + ge.take(i + 1)).drop_last() =~= es + ge.take(i as int));
                assert((es + ge.take(i + 1)).last() == e);
                if e.0 < n_points && e.1 < n_points {
                    out.push(e);
                }
                i = i + 1;
            }
            if m >= 3 {
                let e = (g[m - 1], g[0]);
                assert(ge[(m - 1) as int] == e);
                assert((es + ge.take(m as int)).drop_last() =~= es + ge.take((m - 1) as int));
                assert((es + ge.take(m as int)).last() == e);
                if e.0 < n_points && e.1 < n_points {
                    out.push(e);
                }
                assert(ge.take(m as int) =~= ge);
            } else {
                assert(ge.take((m - 1) as int) =~= ge);
            }
        } else {
            assert(es + ge =~= es);
        }
        assert(all_edges(gs.take(k + 1)) == es + ge);
        k = k + 1;
    }
    assert(gs.take(connets.len() as int) =~= gs);
    out
}

/// The six indices (two triangles) of a quad whose four vertices start at `base`.
pub fn quad_indices(base: u32) -> (r: [u32; 6])
    requires
        base <= u32::MAX - 3,
    ensures
        r@ == seq![base, (base + 1) as u32, (base + 2) as u32, base, (base + 2) as u32, (base + 3) as u32],
{
    let r = [base, base + 1, base + 2, base, base + 2, base + 3];
    assert(r@ =~= seq![base, (base + 1) as u32, (base + 2) as u32, base, (base + 2) as u32, (base + 3) as u32]);
    r
}

} // verus!
