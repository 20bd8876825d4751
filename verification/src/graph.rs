//! Breadth-first search on graphs whose vertices are `0..n`, given as
//! adjacency lists, and the walks and reachability it decides.
use vstd::prelude::*;

verus! {

// ───────────────────────── walks ─────────────────────────

/// Step `i` of the sequence `p` follows the relation `r`.
pub open spec fn step_ok<A>(p: Seq<A>, r: spec_fn(A, A) -> bool, i: int) -> bool {
    r(p[i], p[i + 1])
}

/// `p` is a walk: a nonempty sequence of vertices, each step an edge of `r`.
pub open spec fn is_walk<A>(p: Seq<A>, r: spec_fn(A, A) -> bool) -> bool {
    &&& p.len() > 0
    &&& forall|i: int| 0 <= i < p.len() - 1 ==> #[trigger] step_ok(p, r, i)
}

/// `p` is a walk of `r` from `a` to `b`.
pub open spec fn walk_between<A>(p: Seq<A>, r: spec_fn(A, A) -> bool, a: A, b: A) -> bool {
    &&& is_walk(p, r)
    &&& p[0] == a
    &&& p.last() == b
}

/// `b` can be reached from `a` by following `r` (every vertex reaches itself).
pub open spec fn reachable<A>(r: spec_fn(A, A) -> bool, a: A, b: A) -> bool {
    exists|p: Seq<A>| #[trigger] walk_between(p, r, a, b)
}

/// `p` is a walk from `a` to `b` with the fewest vertices of all such walks.
pub open spec fn is_shortest_walk<A>(p: Seq<A>, r: spec_fn(A, A) -> bool, a: A, b: A) -> bool {
    &&& walk_between(p, r, a, b)
    &&& forall|q: Seq<A>| #[trigger] walk_between(q, r, a, b) ==> p.len() <= q.len()
}

pub proof fn lemma_single_walk<A>(r: spec_fn(A, A) -> bool, a: A)
    ensures
        walk_between(seq![a], r, a, a),
        reachable(r, a, a),
{
    assert(walk_between(seq![a], r, a, a));
}

/// Extending a walk by one edge.
pub proof fn lemma_walk_push<A>(p: Seq<A>, r: spec_fn(A, A) -> bool, a: A, b: A, c: A)
    requires
        walk_between(p, r, a, b),
        r(b, c),
    ensures
        walk_between(p.push(c), r, a, c),
{
    let q = p.push(c);
    assert forall|i: int| 0 <= i < q.len() - 1 implies #[trigger] step_ok(q, r, i) by {
        if i < p.len() - 1 {
            assert(step_ok(p, r, i));
        }
    }
}

/// A prefix of a walk is a walk.
pub proof fn lemma_walk_prefix<A>(p: Seq<A>, r: spec_fn(A, A) -> bool, k: int)
    requires
        is_walk(p, r),
        1 <= k <= p.len(),
    ensures
        is_walk(p.take(k), r),
{
    let q = p.take(k);
    assert forall|i: int| 0 <= i < q.len() - 1 implies #[trigger] step_ok(q, r, i) by {
        assert(step_ok(p, r, i));
    }
}

/// A walk mapped through `f` is a walk of any relation `s` that contains the
/// image of every step.
pub proof fn lemma_walk_map<A, B>(
    p: Seq<A>,
    r: spec_fn(A, A) -> bool,
    s: spec_fn(B, B) -> bool,
    f: spec_fn(A) -> B,
)
    requires
        is_walk(p, r),
        forall|i: int| 0 <= i < p.len() - 1 ==> #[trigger] step_ok(p, r, i) ==> s(f(p[i]), f(p[i + 1])),
    ensures
        is_walk(p.map_values(f), s),
        p.map_values(f).len() == p.len(),
        p.map_values(f)[0] == f(p[0]),
        p.map_values(f).last() == f(p.last()),
{
    let q = p.map_values(f);
    assert forall|i: int| 0 <= i < q.len() - 1 implies #[trigger] step_ok(q, s, i) by {
        assert(step_ok(p, r, i));
    }
}

/// Reachability along `r` carries over to any relation that contains `r`.
pub proof fn lemma_reach_mono<A>(r: spec_fn(A, A) -> bool, s: spec_fn(A, A) -> bool, a: A, b: A)
    requires
        reachable(r, a, b),
        forall|x: A, y: A| #[trigger] r(x, y) ==> s(x, y),
    ensures
        reachable(s, a, b),
{
    let p = choose|p: Seq<A>| #[trigger] walk_between(p, r, a, b);
    assert forall|i: int| 0 <= i < p.len() - 1 implies #[trigger] step_ok(p, s, i) by {
        assert(step_ok(p, r, i));
    }
    assert(walk_between(p, s, a, b));
}

/// One more step after a reachable vertex.
pub proof fn lemma_reach_step<A>(r: spec_fn(A, A) -> bool, a: A, b: A, c: A)
    requires
        reachable(r, a, b),
        r(b, c),
    ensures
        reachable(r, a, c),
{
    let p = choose|p: Seq<A>| #[trigger] walk_between(p, r, a, b);
    lemma_walk_push(p, r, a, b, c);
}

/// Reachability is transitive.
pub proof fn lemma_reach_trans<A>(r: spec_fn(A, A) -> bool, a: A, b: A, c: A)
    requires
        reachable(r, a, b),
        reachable(r, b, c),
    ensures
        reachable(r, a, c),
{
    let p = choose|p: Seq<A>| #[trigger] walk_between(p, r, a, b);
    let q = choose|q: Seq<A>| #[trigger] walk_between(q, r, b, c);
    let w = p + q.drop_first();
    assert forall|i: int| 0 <= i < w.len() - 1 implies #[trigger] step_ok(w, r, i) by {
        if i < p.len() - 1 {
            assert(step_ok(p, r, i));
        } else if i == p.len() - 1 {
            assert(step_ok(q, r, 0));
        } else {
            assert(step_ok(q, r, i - p.len() + 1));
        }
    }
    if q.len() == 1 {
        assert(w =~= p);
    }
    assert(walk_between(w, r, a, c));
}

/// Along a symmetric relation, reachability is symmetric.
pub proof fn lemma_reach_symm<A>(r: spec_fn(A, A) -> bool, a: A, b: A)
    requires
        reachable(r, a, b),
        forall|x: A, y: A| #[trigger] r(x, y) ==> r(y, x),
    ensures
        reachable(r, b, a),
{
    let p = choose|p: Seq<A>| #[trigger] walk_between(p, r, a, b);
    let q = p.reverse();
    assert forall|i: int| 0 <= i < q.len() - 1 implies #[trigger] step_ok(q, r, i) by {
        let j = p.len() - 2 - i;
        assert(step_ok(p, r, j));
        assert(q[i] == p[j + 1]);
        assert(q[i + 1] == p[j]);
    }
    assert(walk_between(q, r, b, a));
}

/// Reachability along `s` carries over to `r` when every step of `s` can be
/// made by a walk of `r`.
pub proof fn lemma_reach_by_walks<A>(r: spec_fn(A, A) -> bool, s: spec_fn(A, A) -> bool, a: A, b: A)
    requires
        reachable(s, a, b),
        forall|x: A, y: A| #[trigger] s(x, y) ==> reachable(r, x, y),
    ensures
        reachable(r, a, b),
{
    let p = choose|p: Seq<A>| #[trigger] walk_between(p, s, a, b);
    lemma_walk_prefix_reach(r, s, p, (p.len() - 1) as int);
}

proof fn lemma_walk_prefix_reach<A>(r: spec_fn(A, A) -> bool, s: spec_fn(A, A) -> bool, p: Seq<A>, k: int)
    requires
        is_walk(p, s),
        0 <= k < p.len(),
        forall|x: A, y: A| #[trigger] s(x, y) ==> reachable(r, x, y),
    ensures
        reachable(r, p[0], p[k]),
    decreases k,
{
    if k == 0 {
        lemma_single_walk(r, p[0]);
    } else {
        lemma_walk_prefix_reach(r, s, p, k - 1);
        assert(step_ok(p, s, k - 1));
        assert(s(p[k - 1], p[k]));
        lemma_reach_trans(r, p[0], p[k - 1], p[k]);
    }
}

// ───────────────────────── adjacency-list graphs ─────────────────────────

/// The adjacency lists of `adj` as sequences.
pub open spec fn adj_view(adj: &Vec<Vec<usize>>) -> Seq<Seq<usize>> {
    adj@.map_values(|v: Vec<usize>| v@)
}

/// Every listed neighbour is a vertex of the graph.
pub open spec fn adj_wf(g: Seq<Seq<usize>>) -> bool {
    forall|u: int, k: int|
        0 <= u < g.len() && 0 <= k < g[u].len() ==> (#[trigger] g[u][k] as int) < g.len()
}

/// The edge `u → v` is listed.
pub open spec fn has_edge(g: Seq<Seq<usize>>, u: usize, v: usize) -> bool {
    &&& (u as int) < g.len()
    &&& g[u as int].contains(v)
}

/// The edge relation of an adjacency-list graph.
pub open spec fn edge_rel(g: Seq<Seq<usize>>) -> spec_fn(usize, usize) -> bool {
    |u: usize, v: usize| has_edge(g, u, v)
}

/// What a breadth-first search from `src` establishes: `dist[v]` is the number
/// of edges of a shortest walk from `src` to `v` (or `None` when `v` cannot be
/// reached), and `parent[v]` is the last vertex before `v` on such a walk.
#[verifier::opaque]
pub open spec fn bfs_result(
    g: Seq<Seq<usize>>,
    src: usize,
    dist: Seq<Option<usize>>,
    parent: Seq<usize>,
) -> bool {
    &&& dist.len() == g.len()
    &&& parent.len() == g.len()
    &&& dist[src as int] == Some(0usize)
    &&& forall|v: usize| (v as int) < g.len() ==> (#[trigger] dist[v as int] is Some) == reachable(
        edge_rel(g),
        src,
        v,
    )
    &&& forall|v: usize, p: Seq<usize>|
        (v as int) < g.len() && #[trigger] walk_between(p, edge_rel(g), src, v) ==> (
        #[trigger] dist[v as int] is Some) && dist[v as int]->0 + 1 <= p.len()
    &&& forall|v: usize|
        (v as int) < g.len() && #[trigger] dist[v as int] is Some && dist[v as int]->0 > 0
            ==> has_edge(g, parent[v as int], v) && dist[parent[v as int] as int] is Some
            && dist[parent[v as int] as int]->0 + 1 == dist[v as int]->0
    &&& forall|v: usize|
        (v as int) < g.len() && #[trigger] dist[v as int] == Some(0usize) ==> v == src
    &&& forall|v: int| 0 <= v < g.len() && #[trigger] dist[v] is Some ==> dist[v]->0 < g.len()
}

pub open spec fn count_some(s: Seq<Option<usize>>) -> nat
    decreases s.len(),
{
    if s.len() == 0 {
        0
    } else {
        count_some(s.drop_last()) + (if s.last() is Some {
            1nat
        } else {
            0nat
        })
    }
}

proof fn lemma_count_some_bound(s: Seq<Option<usize>>)
    ensures
        count_some(s) <= s.len(),
    decreases s.len(),
{
    if s.len() > 0 {
        lemma_count_some_bound(s.drop_last());
    }
}

proof fn lemma_count_some_update(s: Seq<Option<usize>>, i: int, x: usize)
    requires
        0 <= i < s.len(),
        s[i] is None,
    ensures
        count_some(s.update(i, Some(x))) == count_some(s) + 1,
    decreases s.len(),
{
    let t = s.update(i, Some(x));
    if i == s.len() - 1 {
        assert(t.drop_last() =~= s.drop_last());
    } else {
        assert(t.drop_last() =~= s.drop_last().update(i, Some(x)));
        lemma_count_some_update(s.drop_last(), i, x);
    }
}

/// Parent links: every reached vertex other than `src` is entered by an edge
/// from a vertex one level closer, and only `src` sits at level zero.
#[verifier::opaque]
spec fn parents_ok(g: Seq<Seq<usize>>, src: usize, dist: Seq<Option<usize>>, parent: Seq<usize>) -> bool {
    &&& forall|w: usize|
        (w as int) < g.len() && #[trigger] dist[w as int] is Some && dist[w as int]->0 > 0
            ==> has_edge(g, parent[w as int], w) && dist[parent[w as int] as int] is Some
            && dist[parent[w as int] as int]->0 + 1 == dist[w as int]->0
    &&& forall|w: usize| (w as int) < g.len() && #[trigger] dist[w as int] == Some(0usize) ==> w == src
}

/// Every reached vertex is at level at most `k`.
#[verifier::opaque]
spec fn levels_at_most(dist: Seq<Option<usize>>, k: int) -> bool {
    forall|v: int| 0 <= v < dist.len() && #[trigger] dist[v] is Some ==> dist[v]->0 <= k
}

/// `fr` lists exactly the vertices at level `k`.
#[verifier::opaque]
spec fn is_level(dist: Seq<Option<usize>>, fr: Seq<usize>, k: usize) -> bool {
    &&& forall|j: int|
        0 <= j < fr.len() ==> (#[trigger] fr[j] as int) < dist.len() && dist[fr[j] as int] == Some(k)
    &&& forall|v: int| 0 <= v < dist.len() && #[trigger] dist[v] == Some(k) ==> fr.contains(v as usize)
}

/// Every reached vertex below level `k` has all its neighbours reached, at
/// most one level further.
#[verifier::opaque]
spec fn closed_below(g: Seq<Seq<usize>>, dist: Seq<Option<usize>>, k: int) -> bool {
    forall|u: usize, w: usize|
        (u as int) < g.len() && #[trigger] dist[u as int] is Some && dist[u as int]->0 < k
            && #[trigger] has_edge(g, u, w) ==> dist[w as int] is Some && dist[w as int]->0
            <= dist[u as int]->0 + 1
}

proof fn lemma_bfs_init(g: Seq<Seq<usize>>, src: usize, dist: Seq<Option<usize>>, parent: Seq<usize>)
    requires
        dist.len() == g.len(),
        parent.len() == g.len(),
        (src as int) < g.len(),
        dist[src as int] == Some(0usize),
        forall|v: int| 0 <= v < dist.len() && v != src ==> dist[v] is None,
    ensures
        parents_ok(g, src, dist, parent),
        levels_at_most(dist, 0),
        is_level(dist, seq![src], 0),
        closed_below(g, dist, 0),
{
    reveal(parents_ok);
    reveal(levels_at_most);
    reveal(is_level);
    reveal(closed_below);
    assert(seq![src][0] == src);
}

proof fn lemma_level_bound(dist: Seq<Option<usize>>, k: int, v: int)
    requires
        levels_at_most(dist, k),
        0 <= v < dist.len(),
        dist[v] is Some,
    ensures
        dist[v]->0 <= k,
{
    reveal(levels_at_most);
}

proof fn lemma_level_member(dist: Seq<Option<usize>>, fr: Seq<usize>, k: usize, j: int)
    requires
        is_level(dist, fr, k),
        0 <= j < fr.len(),
    ensures
        (fr[j] as int) < dist.len(),
        dist[fr[j] as int] == Some(k),
{
    reveal(is_level);
}

proof fn lemma_level_new() 
    ensures
        forall|dist: Seq<Option<usize>>, k: usize|
            (forall|v: int| 0 <= v < dist.len() ==> dist[v] != Some(k)) ==> #[trigger] is_level(
                dist,
                Seq::empty(),
                k,
            ),
{
    reveal(is_level);
}

proof fn lemma_discover_parents(
    g: Seq<Seq<usize>>,
    src: usize,
    dist: Seq<Option<usize>>,
    parent: Seq<usize>,
    k: usize,
    u: usize,
    w: usize,
)
    requires
        dist.len() == g.len(),
        parent.len() == g.len(),
        (u as int) < g.len(),
        (w as int) < g.len(),
        k < usize::MAX,
        dist[u as int] == Some(k),
        dist[w as int] is None,
        has_edge(g, u, w),
        parents_ok(g, src, dist, parent),
    ensures
        parents_ok(g, src, dist.update(w as int, Some((k + 1) as usize)), parent.update(w as int, u)),
{
    reveal(parents_ok);
    let d2 = dist.update(w as int, Some((k + 1) as usize));
    let p2 = parent.update(w as int, u);
    assert(u != w);
    assert(d2[u as int] == Some(k));
    assert forall|ww: usize|
        (ww as int) < g.len() && #[trigger] d2[ww as int] is Some && d2[ww as int]->0 > 0
            implies has_edge(g, p2[ww as int], ww) && d2[p2[ww as int] as int] is Some
            && d2[p2[ww as int] as int]->0 + 1 == d2[ww as int]->0 by {
        if ww != w {
            assert(d2[ww as int] == dist[ww as int]);
            assert(p2[ww as int] == parent[ww as int]);
            let pp = parent[ww as int];
            assert(has_edge(g, pp, ww));
            assert(dist[pp as int] is Some);
            assert(pp != w);
            assert(d2[pp as int] == dist[pp as int]);
        } else {
            assert(p2[w as int] == u);
        }
    }
    assert forall|ww: usize| (ww as int) < g.len() && #[trigger] d2[ww as int] == Some(0usize) implies ww
        == src by {
        if ww != w {
            assert(dist[ww as int] == Some(0usize));
        }
    }
}

proof fn lemma_discover_levels(dist: Seq<Option<usize>>, fr: Seq<usize>, next: Seq<usize>, k: usize, w: usize)
    requires
        (w as int) < dist.len(),
        k < usize::MAX,
        dist[w as int] is None,
        levels_at_most(dist, k + 1),
        is_level(dist, fr, k),
        is_level(dist, next, (k + 1) as usize),
    ensures
        levels_at_most(dist.update(w as int, Some((k + 1) as usize)), k + 1),
        is_level(dist.update(w as int, Some((k + 1) as usize)), fr, k),
        is_level(dist.update(w as int, Some((k + 1) as usize)), next.push(w), (k + 1) as usize),
{
    reveal(levels_at_most);
    reveal(is_level);
    let d2 = dist.update(w as int, Some((k + 1) as usize));
    assert forall|v: int| 0 <= v < d2.len() && #[trigger] d2[v] == Some((k + 1) as usize) implies next.push(
        w,
    ).contains(v as usize) by {
        if v == w as int {
            assert(next.push(w)[next.len() as int] == w);
        } else {
            assert(next.contains(v as usize));
            let j = choose|j: int| 0 <= j < next.len() && next[j] == v as usize;
            assert(next.push(w)[j] == v as usize);
        }
    }
    assert forall|v: int| 0 <= v < d2.len() && #[trigger] d2[v] == Some(k) implies fr.contains(
        v as usize,
    ) by {
        assert(dist[v] == Some(k));
    }
    assert forall|j: int| 0 <= j < next.push(w).len() implies (#[trigger] next.push(w)[j] as int) < d2.len()
        && d2[next.push(w)[j] as int] == Some((k + 1) as usize) by {
        if j < next.len() {
            assert(next.push(w)[j] == next[j]);
        }
    }
}

proof fn lemma_discover_closed(g: Seq<Seq<usize>>, dist: Seq<Option<usize>>, k: usize, w: usize)
    requires
        adj_wf(g),
        dist.len() == g.len(),
        (w as int) < g.len(),
        k < usize::MAX,
        dist[w as int] is None,
        closed_below(g, dist, k as int),
    ensures
        closed_below(g, dist.update(w as int, Some((k + 1) as usize)), k as int),
{
    reveal(closed_below);
    let d2 = dist.update(w as int, Some((k + 1) as usize));
    assert forall|uu: usize, x: usize|
        (uu as int) < g.len() && #[trigger] d2[uu as int] is Some && d2[uu as int]->0 < k
            && #[trigger] has_edge(g, uu, x) implies d2[x as int] is Some && d2[x as int]->0
            <= d2[uu as int]->0 + 1 by {
        if uu != w {
            assert(dist[uu as int] is Some);
            assert(dist[x as int] is Some);
            let m = choose|m: int| 0 <= m < g[uu as int].len() && g[uu as int][m] == x;
            assert(g[uu as int][m] == x);
            assert(x != w);
        }
    }
}

/// Once every vertex of the level-`k` frontier has its neighbours reached,
/// the reached set is closed below level `k + 1`.
proof fn lemma_close_level(g: Seq<Seq<usize>>, dist: Seq<Option<usize>>, fr: Seq<usize>, k: usize)
    requires
        dist.len() == g.len(),
        closed_below(g, dist, k as int),
        is_level(dist, fr, k),
        forall|j: int, w: usize|
            0 <= j < fr.len() && #[trigger] has_edge(g, #[trigger] fr[j], w) ==> dist[w as int] is Some
                && dist[w as int]->0 <= k + 1,
    ensures
        closed_below(g, dist, k + 1),
{
    reveal(closed_below);
    reveal(is_level);
    assert forall|uu: usize, w: usize|
        (uu as int) < g.len() && #[trigger] dist[uu as int] is Some && dist[uu as int]->0 < k + 1
            && #[trigger] has_edge(g, uu, w) implies dist[w as int] is Some && dist[w as int]->0
            <= dist[uu as int]->0 + 1 by {
        if dist[uu as int]->0 == k {
            assert(dist[uu as int] == Some(k));
            assert(fr.contains(uu));
            let j = choose|j: int| 0 <= j < fr.len() && fr[j] == uu;
            assert(has_edge(g, fr[j], w));
        }
    }
}

/// At the end of the search every reached vertex has its neighbours reached.
proof fn lemma_bfs_closed(g: Seq<Seq<usize>>, dist: Seq<Option<usize>>, k: usize)
    requires
        dist.len() == g.len(),
        levels_at_most(dist, k as int),
        is_level(dist, Seq::empty(), k),
        closed_below(g, dist, k as int),
    ensures
        forall|u: usize, w: usize|
            (u as int) < g.len() && #[trigger] dist[u as int] is Some && #[trigger] has_edge(g, u, w)
                ==> dist[w as int] is Some && dist[w as int]->0 <= dist[u as int]->0 + 1,
{
    reveal(levels_at_most);
    reveal(is_level);
    reveal(closed_below);
    assert forall|u: usize, w: usize|
        (u as int) < g.len() && #[trigger] dist[u as int] is Some && #[trigger] has_edge(g, u, w)
            implies dist[w as int] is Some && dist[w as int]->0 <= dist[u as int]->0 + 1 by {
        if dist[u as int]->0 == k {
            assert(dist[u as int] == Some(k));
        }
    }
}

proof fn lemma_parents_unfold(g: Seq<Seq<usize>>, src: usize, dist: Seq<Option<usize>>, parent: Seq<usize>, w: usize)
    requires
        parents_ok(g, src, dist, parent),
        (w as int) < g.len(),
        dist[w as int] is Some,
    ensures
        dist[w as int]->0 > 0 ==> has_edge(g, parent[w as int], w) && dist[parent[w as int] as int] is Some
            && dist[parent[w as int] as int]->0 + 1 == dist[w as int]->0,
        dist[w as int]->0 == 0 ==> w == src,
{
    reveal(parents_ok);
    if dist[w as int]->0 == 0 {
        assert(dist[w as int] == Some(0usize));
    }
}

proof fn lemma_count_none(s: Seq<Option<usize>>)
    requires
        forall|i: int| 0 <= i < s.len() ==> s[i] is None,
    ensures
        count_some(s) == 0,
    decreases s.len(),
{
    if s.len() > 0 {
        lemma_count_none(s.drop_last());
    }
}

/// A vertex at distance `d` has a walk of `d + 1` vertices from `src` through
/// the parent links.
proof fn lemma_parent_walk(
    g: Seq<Seq<usize>>,
    src: usize,
    dist: Seq<Option<usize>>,
    parent: Seq<usize>,
    v: usize,
) -> (p: Seq<usize>)
    requires
        dist.len() == g.len(),
        parent.len() == g.len(),
        (v as int) < g.len(),
        dist[v as int] is Some,
        parents_ok(g, src, dist, parent),
    ensures
        walk_between(p, edge_rel(g), src, v),
        p.len() == dist[v as int]->0 + 1,
    decreases dist[v as int]->0,
{
    lemma_parents_unfold(g, src, dist, parent, v);
    let d = dist[v as int]->0;
    if d == 0 {
        lemma_single_walk(edge_rel(g), v);
        seq![v]
    } else {
        let u = parent[v as int];
        let p0 = lemma_parent_walk(g, src, dist, parent, u);
        lemma_walk_push(p0, edge_rel(g), src, u, v);
        p0.push(v)
    }
}

/// In a graph where every reached vertex passes its reach on to its
/// neighbours with distance at most one more, every walk from `src` ends at a
/// reached vertex whose distance is below the walk's length.
proof fn lemma_closed_lower_bound(
    g: Seq<Seq<usize>>,
    src: usize,
    dist: Seq<Option<usize>>,
    p: Seq<usize>,
)
    requires
        adj_wf(g),
        dist.len() == g.len(),
        (src as int) < g.len(),
        dist[src as int] == Some(0usize),
        is_walk(p, edge_rel(g)),
        p[0] == src,
        forall|u: usize, w: usize|
            (u as int) < g.len() && #[trigger] dist[u as int] is Some && #[trigger] has_edge(g, u, w)
                ==> dist[w as int] is Some && dist[w as int]->0 <= dist[u as int]->0 + 1,
    ensures
        (p.last() as int) < g.len(),
        dist[p.last() as int] is Some,
        dist[p.last() as int]->0 + 1 <= p.len(),
    decreases p.len(),
{
    if p.len() > 1 {
        let q = p.drop_last();
        lemma_walk_prefix(p, edge_rel(g), p.len() - 1);
        assert(q =~= p.take(p.len() - 1));
        lemma_closed_lower_bound(g, src, dist, q);
        assert(step_ok(p, edge_rel(g), p.len() - 2));
        assert(q.last() == p[p.len() - 2]);
        assert(has_edge(g, q.last(), p.last()));
        let u = q.last();
        let m = choose|m: int| 0 <= m < g[u as int].len() && g[u as int][m] == p.last();
        assert(g[u as int][m] == p.last());
    }
}

/// Visit the neighbours of the frontier vertex `u` at level `k`: each one not
/// yet reached gets level `k + 1`, parent `u`, and joins `next`.
fn visit_neighbours(
    adj: &Vec<Vec<usize>>,
    src: usize,
    u: usize,
    k: usize,
    dist: &mut Vec<Option<usize>>,
    parent: &mut Vec<usize>,
    next: &mut Vec<usize>,
    Ghost(fr): Ghost<Seq<usize>>,
    Ghost(count): Ghost<nat>,
) -> (new_count: Ghost<nat>)
    requires
        adj_wf(adj_view(adj)),
        (src as int) < adj@.len(),
        (u as int) < adj@.len(),
        k < adj@.len(),
        old(dist)@.len() == adj@.len(),
        old(parent)@.len() == adj@.len(),
        old(dist)@[u as int] == Some(k),
        old(dist)@[src as int] == Some(0usize),
        count == count_some(old(dist)@),
        levels_at_most(old(dist)@, k + 1),
        parents_ok(adj_view(adj), src, old(dist)@, old(parent)@),
        is_level(old(dist)@, fr, k),
        is_level(old(dist)@, old(next)@, (k + 1) as usize),
        closed_below(adj_view(adj), old(dist)@, k as int),
    ensures
        final(dist)@.len() == adj@.len(),
        final(parent)@.len() == adj@.len(),
        final(dist)@[src as int] == Some(0usize),
        new_count@ == count_some(final(dist)@),
        new_count@ + old(next)@.len() == count + final(next)@.len(),
        levels_at_most(final(dist)@, k + 1),
        parents_ok(adj_view(adj), src, final(dist)@, final(parent)@),
        is_level(final(dist)@, fr, k),
        is_level(final(dist)@, final(next)@, (k + 1) as usize),
        closed_below(adj_view(adj), final(dist)@, k as int),
        forall|v: int| 0 <= v < adj@.len() && #[trigger] old(dist)@[v] is Some ==> final(dist)@[v]
            == old(dist)@[v],
        forall|w: usize| #[trigger] has_edge(adj_view(adj), u, w) ==> final(dist)@[w as int] is Some
            && final(dist)@[w as int]->0 <= k + 1,
{
    let ghost g = adj_view(adj);
    let ghost mut count = count;
    let n = adj.len();
    let nbrs = &adj[u];
    assert(g[u as int] == nbrs@);
    let mut ni: usize = 0;
    while ni < nbrs.len()
        invariant
            g == adj_view(adj),
            g.len() == adj@.len(),
            adj_wf(g),
            (src as int) < g.len(),
            (u as int) < g.len(),
            k < g.len(),
            g[u as int] == nbrs@,
            n == g.len(),
            ni <= nbrs@.len(),
            dist@.len() == g.len(),
            parent@.len() == g.len(),
            dist@[src as int] == Some(0usize),
            dist@[u as int] == Some(k),
            count == count_some(dist@),
            count + old(next)@.len() == count_some(old(dist)@) + next@.len(),
            levels_at_most(dist@, k + 1),
            parents_ok(g, src, dist@, parent@),
            is_level(dist@, fr, k),
            is_level(dist@, next@, (k + 1) as usize),
            closed_below(g, dist@, k as int),
            forall|v: int| 0 <= v < g.len() && #[trigger] old(dist)@[v] is Some ==> dist@[v]
                == old(dist)@[v],
            forall|m: int|
                0 <= m < ni ==> dist@[#[trigger] nbrs@[m] as int] is Some && dist@[nbrs@[m] as int]->0
                    <= k + 1,
        decreases nbrs@.len() - ni,
    {
        let w = nbrs[ni];
        assert(g[u as int][ni as int] == w);
        assert(has_edge(g, u, w));
        if dist[w].is_none() {
            proof {
                lemma_count_some_update(dist@, w as int, (k + 1) as usize);
                count = count + 1;
                lemma_discover_parents(g, src, dist@, parent@, k, u, w);
                lemma_discover_levels(dist@, fr, next@, k, w);
                lemma_discover_closed(g, dist@, k, w);
            }
            dist.set(w, Some(k + 1));
            parent.set(w, u);
            next.push(w);
        } else {
            proof {
                lemma_level_bound(dist@, k + 1, w as int);
            }
        }
        ni = ni + 1;
    }
    proof {
        assert forall|w: usize| #[trigger] has_edge(g, u, w) implies dist@[w as int] is Some
            && dist@[w as int]->0 <= k + 1 by {
            let m = choose|m: int| 0 <= m < nbrs@.len() && nbrs@[m] == w;
            assert(nbrs@[m] == w);
        }
    }
    Ghost(count)
}

/// Breadth-first search from `src`.
pub fn bfs(adj: &Vec<Vec<usize>>, src: usize) -> (res: (Vec<Option<usize>>, Vec<usize>))
    requires
        (src as int) < adj@.len(),
        adj_wf(adj_view(adj)),
    ensures
        bfs_result(adj_view(adj), src, res.0@, res.1@),
{
    let ghost g = adj_view(adj);
    let n = adj.len();
    let mut dist: Vec<Option<usize>> = Vec::new();
    let mut parent: Vec<usize> = Vec::new();
    let mut i: usize = 0;
    while i < n
        invariant
            i <= n,
            dist@.len() == i,
            parent@.len() == i,
            forall|v: int| 0 <= v < i ==> dist@[v] is None,
        decreases n - i,
    {
        dist.push(None);
        parent.push(0);
        i = i + 1;
    }
    proof {
        lemma_count_none(dist@);
        lemma_count_some_update(dist@, src as int, 0);
    }
    dist.set(src, Some(0));
    let mut frontier: Vec<usize> = Vec::new();
    frontier.push(src);
    let mut k: usize = 0;
    let ghost mut count: nat = 1;
    proof {
        lemma_count_some_bound(dist@);
        assert(frontier@ =~= seq![src]);
        lemma_bfs_init(g, src, dist@, parent@);
    }
    while frontier.len() > 0
        invariant
            n == adj@.len(),
            g == adj_view(adj),
            g.len() == n,
            adj_wf(g),
            (src as int) < n,
            dist@.len() == n,
            parent@.len() == n,
            dist@[src as int] == Some(0usize),
            count == count_some(dist@),
            count <= n,
            frontier@.len() > 0 ==> k + 1 <= count,
            k <= n,
            levels_at_most(dist@, k as int),
            parents_ok(g, src, dist@, parent@),
            is_level(dist@, frontier@, k),
            closed_below(g, dist@, k as int),
        decreases 2 * (n - count) + (if frontier@.len() > 0 {
            1int
        } else {
            0int
        }),
    {
        let mut next: Vec<usize> = Vec::new();
        let ghost count0 = count;
        proof {
            reveal(levels_at_most);
            assert forall|v: int| 0 <= v < dist@.len() implies dist@[v] != Some((k + 1) as usize) by {
                if dist@[v] is Some {
                    assert(dist@[v]->0 <= k);
                }
            }
            lemma_level_new();
            assert(is_level(dist@, next@, (k + 1) as usize));
        }
        let mut fi: usize = 0;
        while fi < frontier.len()
            invariant
                n == adj@.len(),
                g == adj_view(adj),
                g.len() == n,
                adj_wf(g),
                (src as int) < n,
                k < n,
                fi <= frontier@.len(),
                dist@.len() == n,
                parent@.len() == n,
                dist@[src as int] == Some(0usize),
                count == count_some(dist@),
                count == count0 + next@.len(),
                levels_at_most(dist@, k + 1),
                parents_ok(g, src, dist@, parent@),
                is_level(dist@, frontier@, k),
                is_level(dist@, next@, (k + 1) as usize),
                closed_below(g, dist@, k as int),
                forall|j: int, w: usize|
                    0 <= j < fi && #[trigger] has_edge(g, #[trigger] frontier@[j], w)
                        ==> dist@[w as int] is Some && dist@[w as int]->0 <= k + 1,
            decreases frontier@.len() - fi,
        {
            let u = frontier[fi];
            proof {
                lemma_level_member(dist@, frontier@, k, fi as int);
            }
            let ghost d0 = dist@;
            let Ghost(c) = visit_neighbours(
                adj,
                src,
                u,
                k,
                &mut dist,
                &mut parent,
                &mut next,
                Ghost(frontier@),
                Ghost(count),
            );
            proof {
                count = c;
                lemma_count_some_bound(dist@);
                assert forall|j: int, w: usize|
                    0 <= j < fi + 1 && #[trigger] has_edge(g, #[trigger] frontier@[j], w)
                        implies dist@[w as int] is Some && dist@[w as int]->0 <= k + 1 by {
                    if j < fi {
                        assert(d0[w as int] is Some);
                    }
                }
            }
            fi = fi + 1;
        }
        proof {
            lemma_count_some_bound(dist@);
            lemma_close_level(g, dist@, frontier@, k);
            if next@.len() > 0 {
                lemma_level_member(dist@, next@, (k + 1) as usize, 0);
            }
        }
        frontier = next;
        k = k + 1;
    }
    proof {
        assert(frontier@ =~= Seq::<usize>::empty());
        lemma_bfs_closed(g, dist@, k);
        reveal(parents_ok);
        assert forall|v: usize| (v as int) < g.len() implies (#[trigger] dist@[v as int] is Some)
            == reachable(edge_rel(g), src, v) by {
            if dist@[v as int] is Some {
                let p = lemma_parent_walk(g, src, dist@, parent@, v);
                assert(walk_between(p, edge_rel(g), src, v));
            }
            if reachable(edge_rel(g), src, v) {
                let p = choose|p: Seq<usize>| walk_between(p, edge_rel(g), src, v);
                lemma_closed_lower_bound(g, src, dist@, p);
            }
        }
        assert forall|v: usize, p: Seq<usize>|
            (v as int) < g.len() && #[trigger] walk_between(p, edge_rel(g), src, v) implies (
            #[trigger] dist@[v as int] is Some) && dist@[v as int]->0 + 1 <= p.len() by {
            lemma_closed_lower_bound(g, src, dist@, p);
        }
        reveal(levels_at_most);
        reveal(is_level);
        assert forall|v: int| 0 <= v < g.len() && #[trigger] dist@[v] is Some implies dist@[v]->0 < g.len() by {
            assert(dist@[v]->0 <= k);
            if dist@[v]->0 == k {
                assert(dist@[v] == Some(k));
            }
        }
        reveal(bfs_result);
    }
    (dist, parent)
}

pub proof fn lemma_bfs_facts(g: Seq<Seq<usize>>, src: usize, dist: Seq<Option<usize>>, parent: Seq<usize>)
    requires
        bfs_result(g, src, dist, parent),
    ensures
        dist.len() == g.len(),
        parent.len() == g.len(),
        dist[src as int] == Some(0usize),
        forall|v: usize| (v as int) < g.len() ==> (#[trigger] dist[v as int] is Some) == reachable(
            edge_rel(g),
            src,
            v,
        ),
        forall|v: int| 0 <= v < g.len() && #[trigger] dist[v] is Some ==> dist[v]->0 < g.len(),
{
    reveal(bfs_result);
}

pub proof fn lemma_bfs_shortest(
    g: Seq<Seq<usize>>,
    src: usize,
    dist: Seq<Option<usize>>,
    parent: Seq<usize>,
    v: usize,
    p: Seq<usize>,
)
    requires
        bfs_result(g, src, dist, parent),
        (v as int) < g.len(),
        walk_between(p, edge_rel(g), src, v),
    ensures
        dist[v as int] is Some,
        dist[v as int]->0 + 1 <= p.len(),
{
    reveal(bfs_result);
}

/// A vertex at level `d` ends a shortest walk of `d + 1` vertices.
pub proof fn lemma_bfs_walk(g: Seq<Seq<usize>>, src: usize, dist: Seq<Option<usize>>, parent: Seq<usize>, v: usize) -> (p: Seq<usize>)
    requires
        bfs_result(g, src, dist, parent),
        (v as int) < g.len(),
        dist[v as int] is Some,
    ensures
        is_shortest_walk(p, edge_rel(g), src, v),
        p.len() == dist[v as int]->0 + 1,
{
    reveal(bfs_result);
    reveal(parents_ok);
    assert(parents_ok(g, src, dist, parent)) by {
        assert forall|w: usize| (w as int) < g.len() && #[trigger] dist[w as int] == Some(0usize) implies w == src by {
        }
    }
    let p = lemma_parent_walk(g, src, dist, parent, v);
    assert forall|q: Seq<usize>| #[trigger] walk_between(q, edge_rel(g), src, v) implies p.len() <= q.len() by {
    }
    p
}

pub proof fn lemma_bfs_parent(g: Seq<Seq<usize>>, src: usize, dist: Seq<Option<usize>>, parent: Seq<usize>, v: usize)
    requires
        bfs_result(g, src, dist, parent),
        (v as int) < g.len(),
        dist[v as int] is Some,
    ensures
        dist[v as int]->0 > 0 ==> has_edge(g, parent[v as int], v) && dist[parent[v as int] as int] is Some
            && dist[parent[v as int] as int]->0 + 1 == dist[v as int]->0,
        dist[v as int]->0 == 0 ==> v == src,
{
    reveal(bfs_result);
    if dist[v as int]->0 == 0 {
        assert(dist[v as int] == Some(0usize));
    }
}

/// A walk from `src` to `dst` with the fewest vertices, if `dst` can be
/// reached.
pub fn shortest_walk(adj: &Vec<Vec<usize>>, src: usize, dst: usize) -> (res: Option<Vec<usize>>)
    requires
        (src as int) < adj@.len(),
        (dst as int) < adj@.len(),
        adj_wf(adj_view(adj)),
    ensures
        res is None <==> !reachable(edge_rel(adj_view(adj)), src, dst),
        res matches Some(p) ==> is_shortest_walk(p@, edge_rel(adj_view(adj)), src, dst),
{
    let ghost g = adj_view(adj);
    let (dist, parent) = bfs(adj, src);
    proof {
        lemma_bfs_facts(g, src, dist@, parent@);
    }
    assert(dist@[dst as int] is Some == reachable(edge_rel(g), src, dst));
    match dist[dst] {
        None => None,
        Some(d) => {
            let n = adj.len();
            assert(dist@[dst as int] is Some);
            assert(d < n);
            let mut out: Vec<usize> = vec![0; d + 1];
            out.set(d, dst);
            let mut i: usize = d;
            while i > 0
                invariant
                    g == adj_view(adj),
                    bfs_result(g, src, dist@, parent@),
                    dist@[dst as int] == Some(d),
                    (dst as int) < g.len(),
                    i <= d,
                    out@.len() == d + 1,
                    out@[d as int] == dst,
                    forall|j: int| i <= j <= d ==> (#[trigger] out@[j] as int) < g.len() && dist@[out@[j]
                        as int] == Some(j as usize),
                    forall|j: int| i <= j < d ==> #[trigger] step_ok(out@, edge_rel(g), j),
                decreases i,
            {
                let cur = out[i];
                assert(dist@[cur as int] == Some(i));
                proof {
                    lemma_bfs_facts(g, src, dist@, parent@);
                    lemma_bfs_parent(g, src, dist@, parent@, cur);
                }
                let p = parent[cur];
                assert(has_edge(g, p, cur));
                let ghost before = out@;
                out.set(i - 1, p);
                assert(step_ok(out@, edge_rel(g), i - 1));
                assert forall|j: int| i <= j < d implies #[trigger] step_ok(out@, edge_rel(g), j) by {
                    assert(step_ok(before, edge_rel(g), j));
                    assert(out@[j] == before[j]);
                    assert(out@[j + 1] == before[j + 1]);
                }
                i = i - 1;
            }
            assert(dist@[out@[0] as int] == Some(0usize));
            proof {
                lemma_bfs_parent(g, src, dist@, parent@, out@[0]);
                assert(walk_between(out@, edge_rel(g), src, dst));
                assert forall|q: Seq<usize>| #[trigger] walk_between(q, edge_rel(g), src, dst) implies out@.len()
                    <= q.len() by {
                    lemma_bfs_shortest(g, src, dist@, parent@, dst, q);
                }
            }
            Some(out)
        },
    }
}

/// A graph on `n` vertices with no edges.
pub fn empty_graph(n: usize) -> (rows: Vec<Vec<usize>>)
    ensures
        rows@.len() == n,
        adj_wf(adj_view(&rows)),
        forall|u: usize, v: usize| !#[trigger] has_edge(adj_view(&rows), u, v),
{
    let mut rows: Vec<Vec<usize>> = Vec::new();
    let mut i: usize = 0;
    while i < n
        invariant
            i <= n,
            rows@.len() == i,
            forall|u: int| 0 <= u < i ==> (#[trigger] rows@[u])@.len() == 0,
        decreases n - i,
    {
        rows.push(Vec::new());
        i = i + 1;
    }
    rows
}

/// Add the edge `x → y`.
pub fn add_edge(rows: &mut Vec<Vec<usize>>, x: usize, y: usize)
    requires
        (x as int) < old(rows)@.len(),
        (y as int) < old(rows)@.len(),
        adj_wf(adj_view(old(rows))),
    ensures
        final(rows)@.len() == old(rows)@.len(),
        adj_wf(adj_view(final(rows))),
        forall|u: usize, v: usize| #[trigger] has_edge(adj_view(final(rows)), u, v) == (has_edge(
            adj_view(old(rows)),
            u,
            v,
        ) || (u == x && v == y)),
{
    let ghost g0 = adj_view(rows);
    rows[x].push(y);
    proof {
        let g1 = adj_view(rows);
        assert(g1 =~= g0.update(x as int, g0[x as int].push(y)));
        assert forall|u: usize, v: usize| #[trigger] has_edge(g1, u, v) == (has_edge(g0, u, v) || (u == x
            && v == y)) by {
            if u == x {
                if g0[x as int].contains(v) {
                    let m = choose|m: int| 0 <= m < g0[x as int].len() && g0[x as int][m] == v;
                    assert(g1[x as int][m] == v);
                }
                if g1[x as int].contains(v) {
                    let m = choose|m: int| 0 <= m < g1[x as int].len() && g1[x as int][m] == v;
                    if m < g0[x as int].len() {
                        assert(g0[x as int][m] == v);
                    }
                }
                assert(g1[x as int][g0[x as int].len() as int] == y);
            }
        }
        assert forall|u: int, k: int| 0 <= u < g1.len() && 0 <= k < g1[u].len() implies (
        #[trigger] g1[u][k] as int) < g1.len() by {
            if u == x && k == g0[x as int].len() {
            } else {
                assert(g1[u][k] == g0[u][k]);
            }
        }
    }
}

} // verus!
