//! The counting argument behind the cyclomatic number: a graph has at least
//! as many components as vertices minus edges, so E + C ≥ V and E − V + C is
//! never cut off at zero.
use vstd::prelude::*;
use crate::complex::{
    ComplexView, component_count, components_below, cyclomatic_number, distinct_room_count, door_at, door_edge_count, door_joins,
    door_list, door_row, joined_rel, lemma_door_list_take, opens_component, room_id_seq, unordered, warp_joins,
};
use crate::graph::{lemma_reach_mono, lemma_reach_step, lemma_reach_symm, lemma_reach_trans, lemma_single_walk, reachable, step_ok, walk_between, is_walk};
use crate::unfold::{distinct_doors, edge_links, has_same_ends, lemma_distinct_doors_from, same_ends, warp_pairs};

verus! {

/// Vertex `ids[i]` starts a new component: no earlier vertex can be reached
/// from it along the edges `l`.
pub open spec fn opens_in(ids: Seq<Seq<char>>, l: Seq<(Seq<char>, Seq<char>)>, i: int) -> bool {
    forall|j: int| 0 <= j < i ==> !#[trigger] reachable(edge_links(l), ids[i], ids[j])
}

/// The number of vertices among the first `m` that start a new component.
pub open spec fn openers(ids: Seq<Seq<char>>, l: Seq<(Seq<char>, Seq<char>)>, m: int) -> nat
    decreases m,
{
    if m <= 0 {
        0
    } else {
        openers(ids, l, m - 1) + (if opens_in(ids, l, m - 1) {
            1nat
        } else {
            0nat
        })
    }
}

pub proof fn lemma_links_symmetric(l: Seq<(Seq<char>, Seq<char>)>)
    ensures
        forall|x: Seq<char>, y: Seq<char>| #[trigger] edge_links(l)(x, y) ==> edge_links(l)(y, x),
{
    assert forall|x: Seq<char>, y: Seq<char>| #[trigger] edge_links(l)(x, y) implies edge_links(l)(y, x) by {
        let k = choose|k: int| 0 <= k < l.len() && (#[trigger] l[k] == (x, y) || l[k] == (y, x));
    }
}

pub proof fn lemma_links_grow(l: Seq<(Seq<char>, Seq<char>)>, e: (Seq<char>, Seq<char>))
    ensures
        forall|x: Seq<char>, y: Seq<char>| #[trigger] edge_links(l)(x, y) ==> edge_links(l.push(e))(x, y),
{
    assert forall|x: Seq<char>, y: Seq<char>| #[trigger] edge_links(l)(x, y) implies edge_links(l.push(e))(x, y) by {
        let k = choose|k: int| 0 <= k < l.len() && (#[trigger] l[k] == (x, y) || l[k] == (y, x));
        assert(l.push(e)[k] == l[k]);
    }
}

proof fn lemma_no_edges(a: Seq<char>, b: Seq<char>)
    requires
        reachable(edge_links(Seq::<(Seq<char>, Seq<char>)>::empty()), a, b),
    ensures
        a == b,
{
    let r = edge_links(Seq::<(Seq<char>, Seq<char>)>::empty());
    let p = choose|p: Seq<Seq<char>>| #[trigger] walk_between(p, r, a, b);
    if p.len() > 1 {
        assert(step_ok(p, r, 0));
    }
}

proof fn lemma_openers_no_edges(ids: Seq<Seq<char>>, m: int)
    requires
        0 <= m <= ids.len(),
    ensures
        openers(ids, Seq::empty(), m) == ids.take(m).to_set().len(),
    decreases m,
{
    let l = Seq::<(Seq<char>, Seq<char>)>::empty();
    if m == 0 {
        assert(ids.take(0).to_set() =~= Set::<Seq<char>>::empty());
    } else {
        lemma_openers_no_edges(ids, m - 1);
        let t = ids.take(m - 1);
        let x = ids[m - 1];
        assert(ids.take(m) =~= t.push(x));
        t.lemma_push_to_set_commute(x);
        vstd::seq_lib::seq_to_set_is_finite(t);
        vstd::set::axiom_set_insert_len(t.to_set(), x);
        if t.contains(x) {
            let j = choose|j: int| 0 <= j < t.len() && t[j] == x;
            lemma_single_walk(edge_links(l), x);
            assert(reachable(edge_links(l), ids[m - 1], ids[j]));
            assert(!opens_in(ids, l, m - 1));
        } else {
            assert forall|j: int| 0 <= j < m - 1 implies !#[trigger] reachable(edge_links(l), ids[m - 1], ids[j]) by {
                if reachable(edge_links(l), ids[m - 1], ids[j]) {
                    lemma_no_edges(ids[m - 1], ids[j]);
                    assert(t[j] == ids[j]);
                }
            }
        }
    }
}

/// What one more edge `e` adds to reachability: a walk that uses it goes
/// from `a` to one end of `e`, and from the other end to `b`.
pub open spec fn through(l: Seq<(Seq<char>, Seq<char>)>, e: (Seq<char>, Seq<char>), a: Seq<char>, b: Seq<char>) -> bool {
    ||| reachable(edge_links(l), a, b)
    ||| (reachable(edge_links(l), a, e.0) && reachable(edge_links(l), e.1, b))
    ||| (reachable(edge_links(l), a, e.1) && reachable(edge_links(l), e.0, b))
}

proof fn lemma_through_prefix(l: Seq<(Seq<char>, Seq<char>)>, e: (Seq<char>, Seq<char>), p: Seq<Seq<char>>, k: int)
    requires
        is_walk(p, edge_links(l.push(e))),
        0 <= k < p.len(),
    ensures
        through(l, e, p[0], p[k]),
    decreases k,
{
    let r = edge_links(l);
    if k == 0 {
        lemma_single_walk(r, p[0]);
    } else {
        lemma_through_prefix(l, e, p, k - 1);
        let a = p[0];
        let x = p[k - 1];
        let y = p[k];
        assert(step_ok(p, edge_links(l.push(e)), k - 1));
        let l2 = l.push(e);
        let idx = choose|idx: int| 0 <= idx < l2.len() && (#[trigger] l2[idx] == (x, y) || l2[idx] == (y, x));
        if idx < l.len() {
            assert(l2[idx] == l[idx]);
            assert(r(x, y));
            if reachable(r, a, x) {
                lemma_reach_step(r, a, x, y);
            } else if reachable(r, a, e.0) && reachable(r, e.1, x) {
                lemma_reach_step(r, e.1, x, y);
            } else {
                lemma_reach_step(r, e.0, x, y);
            }
        } else {
            assert(l2[idx] == e);
            lemma_single_walk(r, e.0);
            lemma_single_walk(r, e.1);
        }
    }
}

pub proof fn lemma_through(l: Seq<(Seq<char>, Seq<char>)>, e: (Seq<char>, Seq<char>), a: Seq<char>, b: Seq<char>)
    requires
        reachable(edge_links(l.push(e)), a, b),
    ensures
        through(l, e, a, b),
{
    let p = choose|p: Seq<Seq<char>>| #[trigger] walk_between(p, edge_links(l.push(e)), a, b);
    lemma_through_prefix(l, e, p, p.len() - 1);
}

/// Vertex `i` starts a component without the edge `e` but not with it.
pub open spec fn dropped(ids: Seq<Seq<char>>, l: Seq<(Seq<char>, Seq<char>)>, e: (Seq<char>, Seq<char>), i: int) -> bool {
    opens_in(ids, l, i) && !opens_in(ids, l.push(e), i)
}

proof fn lemma_joined_via(ids: Seq<Seq<char>>, l: Seq<(Seq<char>, Seq<char>)>, e: (Seq<char>, Seq<char>), i: int) -> (j: int)
    requires
        dropped(ids, l, e, i),
    ensures
        0 <= j < i,
        (reachable(edge_links(l), ids[i], e.0) && reachable(edge_links(l), e.1, ids[j])) || (reachable(
            edge_links(l),
            ids[i],
            e.1,
        ) && reachable(edge_links(l), e.0, ids[j])),
{
    let j = choose|j: int| 0 <= j < i && #[trigger] reachable(edge_links(l.push(e)), ids[i], ids[j]);
    lemma_through(l, e, ids[i], ids[j]);
    assert(!reachable(edge_links(l), ids[i], ids[j]));
    j
}

/// One edge stops at most one vertex from starting a component.
proof fn lemma_dropped_once(ids: Seq<Seq<char>>, l: Seq<(Seq<char>, Seq<char>)>, e: (Seq<char>, Seq<char>), i: int, i2: int)
    requires
        dropped(ids, l, e, i),
        i < i2,
    ensures
        !dropped(ids, l, e, i2),
{
    if dropped(ids, l, e, i2) {
        lemma_dropped_pair(ids, l, e, i, i2);
    }
}

proof fn lemma_dropped_pair(ids: Seq<Seq<char>>, l: Seq<(Seq<char>, Seq<char>)>, e: (Seq<char>, Seq<char>), i: int, i2: int)
    requires
        dropped(ids, l, e, i),
        dropped(ids, l, e, i2),
        i < i2,
    ensures
        reachable(edge_links(l), ids[i2], ids[i]) || exists|j: int| 0 <= j < i && #[trigger] reachable(edge_links(l), ids[i2], ids[j]),
{
    let r = edge_links(l);
    lemma_links_symmetric(l);
    let j = lemma_joined_via(ids, l, e, i);
    let j2 = lemma_joined_via(ids, l, e, i2);
    if reachable(r, ids[i], e.0) && reachable(r, ids[i2], e.0) {
        lemma_reach_symm(r, ids[i], e.0);
        lemma_reach_trans(r, ids[i2], e.0, ids[i]);
    } else if reachable(r, ids[i], e.1) && reachable(r, ids[i2], e.1) {
        lemma_reach_symm(r, ids[i], e.1);
        lemma_reach_trans(r, ids[i2], e.1, ids[i]);
    } else if reachable(r, ids[i], e.0) {
        // i on the side of e.0, j and i2 on the side of e.1
        assert(reachable(r, e.1, ids[j]));
        assert(reachable(r, ids[i2], e.1));
        lemma_reach_trans(r, ids[i2], e.1, ids[j]);
    } else {
        assert(reachable(r, e.0, ids[j]));
        assert(reachable(r, ids[i2], e.0));
        lemma_reach_trans(r, ids[i2], e.0, ids[j]);
    }
}

pub proof fn lemma_openers_one_edge(ids: Seq<Seq<char>>, l: Seq<(Seq<char>, Seq<char>)>, e: (Seq<char>, Seq<char>), m: int)
    requires
        0 <= m,
    ensures
        openers(ids, l, m) <= openers(ids, l.push(e), m) + (if exists|i: int| 0 <= i < m && #[trigger] dropped(ids, l, e, i) {
            1int
        } else {
            0int
        }),
    decreases m,
{
    if m > 0 {
        lemma_openers_one_edge(ids, l, e, m - 1);
        let k = m - 1;
        lemma_links_grow(l, e);
        if opens_in(ids, l.push(e), k) {
            assert forall|j: int| 0 <= j < k implies !#[trigger] reachable(edge_links(l), ids[k], ids[j]) by {
                if reachable(edge_links(l), ids[k], ids[j]) {
                    lemma_reach_mono(edge_links(l), edge_links(l.push(e)), ids[k], ids[j]);
                }
            }
        }
        if dropped(ids, l, e, k) {
            if exists|i: int| 0 <= i < k && #[trigger] dropped(ids, l, e, i) {
                let i = choose|i: int| 0 <= i < k && #[trigger] dropped(ids, l, e, i);
                lemma_dropped_once(ids, l, e, i, k);
            }
        } else {
            if exists|i: int| 0 <= i < k && #[trigger] dropped(ids, l, e, i) {
                let i = choose|i: int| 0 <= i < k && #[trigger] dropped(ids, l, e, i);
                assert(0 <= i < m && dropped(ids, l, e, i));
            }
        }
    }
}

pub proof fn lemma_openers_edges(ids: Seq<Seq<char>>, l: Seq<(Seq<char>, Seq<char>)>, n: int)
    requires
        0 <= n <= ids.len(),
    ensures
        openers(ids, l, n) + l.len() >= ids.take(n).to_set().len(),
    decreases l.len(),
{
    if l.len() == 0 {
        assert(l =~= Seq::<(Seq<char>, Seq<char>)>::empty());
        lemma_openers_no_edges(ids, n);
    } else {
        let l0 = l.drop_last();
        let e = l.last();
        assert(l0.push(e) =~= l);
        lemma_openers_edges(ids, l0, n);
        lemma_openers_one_edge(ids, l0, e, n);
    }
}

/// No edge of `l` closes a cycle: the ends of each edge are not joined by the
/// edges before it.
pub open spec fn no_edge_closes(l: Seq<(Seq<char>, Seq<char>)>) -> bool {
    forall|k: int| 0 <= k < l.len() ==> !reachable(edge_links(l.take(k)), (#[trigger] l[k]).0, l[k].1)
}

/// Every vertex among the first `n` lies in the component of a vertex that
/// starts one, at or before it.
proof fn lemma_representative(ids: Seq<Seq<char>>, l: Seq<(Seq<char>, Seq<char>)>, p: int) -> (r: int)
    requires
        0 <= p < ids.len(),
    ensures
        0 <= r <= p,
        opens_in(ids, l, r),
        reachable(edge_links(l), ids[p], ids[r]),
    decreases p,
{
    if opens_in(ids, l, p) {
        lemma_single_walk(edge_links(l), ids[p]);
        p
    } else {
        let j = choose|j: int| 0 <= j < p && #[trigger] reachable(edge_links(l), ids[p], ids[j]);
        let r = lemma_representative(ids, l, j);
        lemma_reach_trans(edge_links(l), ids[p], ids[j], ids[r]);
        r
    }
}

/// An edge between two vertices not yet joined stops one of them from
/// starting a component.
proof fn lemma_joining_edge_drops(
    ids: Seq<Seq<char>>,
    l: Seq<(Seq<char>, Seq<char>)>,
    e: (Seq<char>, Seq<char>),
    px: int,
    py: int,
)
    requires
        0 <= px < ids.len(),
        0 <= py < ids.len(),
        ids[px] == e.0,
        ids[py] == e.1,
        !reachable(edge_links(l), e.0, e.1),
    ensures
        exists|i: int| 0 <= i < ids.len() && #[trigger] dropped(ids, l, e, i),
{
    let r = edge_links(l);
    let r2 = edge_links(l.push(e));
    lemma_links_symmetric(l);
    lemma_links_symmetric(l.push(e));
    lemma_links_grow(l, e);
    let rx = lemma_representative(ids, l, px);
    let ry = lemma_representative(ids, l, py);
    assert(r2(e.0, e.1)) by {
        assert(l.push(e)[l.len() as int] == e);
    }
    if rx == ry {
        lemma_reach_symm(r, e.1, ids[ry]);
        lemma_reach_trans(r, e.0, ids[rx], e.1);
    } else if rx < ry {
        // ry reaches e.1, crosses e to e.0, and reaches rx
        lemma_reach_mono(r, r2, e.1, ids[ry]);
        lemma_reach_symm(r2, e.1, ids[ry]);
        lemma_reach_step(r2, ids[ry], e.1, e.0);
        lemma_reach_mono(r, r2, e.0, ids[rx]);
        lemma_reach_trans(r2, ids[ry], e.0, ids[rx]);
        assert(!opens_in(ids, l.push(e), ry));
        assert(dropped(ids, l, e, ry));
    } else {
        lemma_reach_mono(r, r2, e.0, ids[rx]);
        lemma_reach_symm(r2, e.0, ids[rx]);
        lemma_reach_step(r2, ids[rx], e.0, e.1);
        lemma_reach_mono(r, r2, e.1, ids[ry]);
        lemma_reach_trans(r2, ids[rx], e.1, ids[ry]);
        assert(!opens_in(ids, l.push(e), rx));
        assert(dropped(ids, l, e, rx));
    }
}

proof fn lemma_openers_lose(ids: Seq<Seq<char>>, l: Seq<(Seq<char>, Seq<char>)>, e: (Seq<char>, Seq<char>), m: int)
    requires
        0 <= m,
    ensures
        openers(ids, l.push(e), m) + (if exists|i: int| 0 <= i < m && #[trigger] dropped(ids, l, e, i) {
            1int
        } else {
            0int
        }) <= openers(ids, l, m),
    decreases m,
{
    if m > 0 {
        lemma_openers_lose(ids, l, e, m - 1);
        let k = m - 1;
        lemma_links_grow(l, e);
        if opens_in(ids, l.push(e), k) {
            assert forall|j: int| 0 <= j < k implies !#[trigger] reachable(edge_links(l), ids[k], ids[j]) by {
                if reachable(edge_links(l), ids[k], ids[j]) {
                    lemma_reach_mono(edge_links(l), edge_links(l.push(e)), ids[k], ids[j]);
                }
            }
        }
        if dropped(ids, l, e, k) {
            if exists|i: int| 0 <= i < k && #[trigger] dropped(ids, l, e, i) {
                let i = choose|i: int| 0 <= i < k && #[trigger] dropped(ids, l, e, i);
                lemma_dropped_once(ids, l, e, i, k);
            }
        } else {
            if exists|i: int| 0 <= i < m && #[trigger] dropped(ids, l, e, i) {
                let i = choose|i: int| 0 <= i < m && #[trigger] dropped(ids, l, e, i);
                assert(0 <= i < k && dropped(ids, l, e, i));
            }
        }
    }
}

/// When no edge closes a cycle and every edge joins two of the vertices,
/// each edge merges two components: C + E == V exactly.
pub proof fn lemma_forest_count(ids: Seq<Seq<char>>, l: Seq<(Seq<char>, Seq<char>)>)
    requires
        no_edge_closes(l),
        forall|k: int| 0 <= k < l.len() ==> ids.contains((#[trigger] l[k]).0) && ids.contains(l[k].1),
    ensures
        openers(ids, l, ids.len() as int) + l.len() == ids.to_set().len(),
    decreases l.len(),
{
    let n = ids.len() as int;
    assert(ids.take(n) =~= ids);
    if l.len() == 0 {
        assert(l =~= Seq::<(Seq<char>, Seq<char>)>::empty());
        lemma_openers_no_edges(ids, n);
    } else {
        let l0 = l.drop_last();
        let e = l.last();
        assert(l0.push(e) =~= l);
        assert forall|k: int| 0 <= k < l0.len() implies !reachable(edge_links(l0.take(k)), (#[trigger] l0[k]).0, l0[k].1) by {
            assert(l0.take(k) =~= l.take(k));
            assert(l0[k] == l[k]);
        }
        assert forall|k: int| 0 <= k < l0.len() implies ids.contains((#[trigger] l0[k]).0) && ids.contains(l0[k].1) by {
            assert(l0[k] == l[k]);
        }
        lemma_forest_count(ids, l0);
        assert(l.take(l0.len() as int) =~= l0);
        assert(l[l0.len() as int] == e);
        assert(!reachable(edge_links(l0), e.0, e.1));
        assert(ids.contains(e.0) && ids.contains(e.1));
        let px = choose|px: int| 0 <= px < ids.len() && ids[px] == e.0;
        let py = choose|py: int| 0 <= py < ids.len() && ids[py] == e.1;
        lemma_joining_edge_drops(ids, l0, e, px, py);
        lemma_openers_lose(ids, l0, e, n);
        lemma_openers_one_edge(ids, l0, e, n);
    }
}

// ───────────────────────── the complex as a list of edges ─────────────────────────

/// The edges of the complex, direction ignored: each door edge once, then
/// each warp.
pub open spec fn edge_list(c: ComplexView) -> Seq<(Seq<char>, Seq<char>)> {
    distinct_doors(door_list(c.rooms)) + warp_pairs(c.warps)
}

/// `p` is the pair (room id, target) of some door.
pub open spec fn is_door_pair(c: ComplexView, p: (Seq<char>, Seq<char>)) -> bool {
    exists|i: int, j: int| #![trigger c.rooms[i].exits[j]] door_at(c, i, j) && p == (c.rooms[i].id, c.rooms[i].exits[j].to)
}

proof fn lemma_door_list_elements(c: ComplexView, m: int)
    requires
        0 <= m <= c.rooms.len(),
    ensures
        forall|k: int| 0 <= k < door_list(c.rooms.take(m)).len() ==> is_door_pair(c, #[trigger] door_list(c.rooms.take(m))[k]),
        forall|i: int, j: int| door_at(c, i, j) && i < m ==> #[trigger] door_list(c.rooms.take(m)).contains(
            (c.rooms[i].id, c.rooms[i].exits[j].to),
        ),
    decreases m,
{
    if m == 0 {
        assert(c.rooms.take(0) =~= Seq::<crate::room::RoomView>::empty());
        assert(door_list(c.rooms.take(0)).len() == 0);
    } else {
        lemma_door_list_elements(c, m - 1);
        lemma_door_list_take(c.rooms, m - 1);
        let a = door_list(c.rooms.take(m - 1));
        let row = door_row(c.rooms[m - 1]);
        let s = door_list(c.rooms.take(m));
        assert forall|k: int| 0 <= k < s.len() implies is_door_pair(c, #[trigger] s[k]) by {
            if k < a.len() {
                assert(s[k] == a[k]);
                assert(is_door_pair(c, a[k]));
            } else {
                let j = k - a.len();
                assert(s[k] == row[j]);
                assert(door_at(c, m - 1, j));
                assert(s[k] == (c.rooms[m - 1].id, c.rooms[m - 1].exits[j].to));
            }
        }
        assert forall|i: int, j: int| door_at(c, i, j) && i < m implies #[trigger] s.contains(
            (c.rooms[i].id, c.rooms[i].exits[j].to),
        ) by {
            if i == m - 1 {
                assert(s[a.len() + j] == row[j]);
            } else {
                assert(a.contains((c.rooms[i].id, c.rooms[i].exits[j].to)));
                let k = choose|k: int| 0 <= k < a.len() && a[k] == (c.rooms[i].id, c.rooms[i].exits[j].to);
                assert(s[k] == a[k]);
            }
        }
    }
}

proof fn lemma_distinct_doors_cover(s: Seq<(Seq<char>, Seq<char>)>)
    ensures
        forall|m: int| 0 <= m < s.len() ==> has_same_ends(distinct_doors(s), #[trigger] s[m]),
    decreases s.len(),
{
    if s.len() > 0 {
        let init = s.drop_last();
        lemma_distinct_doors_cover(init);
        let d0 = distinct_doors(init);
        let d = distinct_doors(s);
        assert forall|m: int| 0 <= m < s.len() implies has_same_ends(d, #[trigger] s[m]) by {
            if m < init.len() {
                assert(s[m] == init[m]);
                assert(has_same_ends(d0, init[m]));
                let k = choose|k: int| 0 <= k < d0.len() && same_ends(#[trigger] d0[k], init[m]);
                assert(d[k] == d0[k]);
            } else if !has_same_ends(d0, s.last()) {
                assert(d[d0.len() as int] == s.last());
                assert(same_ends(d[d0.len() as int], s[m]));
            }
        }
    }
}

proof fn lemma_same_ends_unordered(p: (Seq<char>, Seq<char>), q: (Seq<char>, Seq<char>))
    ensures
        same_ends(p, q) <==> unordered(p) == unordered(q),
{
    if same_ends(p, q) {
        assert(unordered(p) =~= unordered(q));
    }
    if unordered(p) == unordered(q) {
        assert(unordered(q).contains(p.0));
        assert(unordered(q).contains(p.1));
        assert(unordered(p).contains(q.0));
        assert(unordered(p).contains(q.1));
    }
}

pub proof fn lemma_distinct_doors_count(s: Seq<(Seq<char>, Seq<char>)>)
    ensures
        distinct_doors(s).map_values(|p: (Seq<char>, Seq<char>)| unordered(p)).no_duplicates(),
        distinct_doors(s).map_values(|p: (Seq<char>, Seq<char>)| unordered(p)).to_set() == s.map_values(
            |p: (Seq<char>, Seq<char>)| unordered(p),
        ).to_set(),
    decreases s.len(),
{
    let f = |p: (Seq<char>, Seq<char>)| unordered(p);
    if s.len() == 0 {
        assert(distinct_doors(s).map_values(f) =~= s.map_values(f));
    } else {
        let init = s.drop_last();
        let x = s.last();
        lemma_distinct_doors_count(init);
        let d0 = distinct_doors(init);
        assert(s.map_values(f) =~= init.map_values(f).push(f(x)));
        init.map_values(f).lemma_push_to_set_commute(f(x));
        if has_same_ends(d0, x) {
            let k = choose|k: int| 0 <= k < d0.len() && same_ends(#[trigger] d0[k], x);
            lemma_same_ends_unordered(d0[k], x);
            assert(d0.map_values(f)[k] == f(x));
            assert(d0.map_values(f).to_set().contains(f(x)));
            assert(d0.map_values(f).to_set().insert(f(x)) =~= d0.map_values(f).to_set());
        } else {
            assert(distinct_doors(s) == d0.push(x));
            assert(d0.push(x).map_values(f) =~= d0.map_values(f).push(f(x)));
            d0.map_values(f).lemma_push_to_set_commute(f(x));
            assert forall|k: int| 0 <= k < d0.len() implies d0.map_values(f)[k] != f(x) by {
                lemma_same_ends_unordered(d0[k], x);
                if same_ends(d0[k], x) {
                    assert(has_same_ends(d0, x));
                }
            }
            let dm = d0.push(x).map_values(f);
            assert forall|i: int, j: int| 0 <= i < dm.len() && 0 <= j < dm.len() && i != j implies dm[i] != dm[j] by {
                if i < d0.len() && j < d0.len() {
                    assert(dm[i] == d0.map_values(f)[i] && dm[j] == d0.map_values(f)[j]);
                } else if i < d0.len() {
                    assert(dm[i] == d0.map_values(f)[i]);
                } else if j < d0.len() {
                    assert(dm[j] == d0.map_values(f)[j]);
                }
            }
        }
    }
}

pub proof fn lemma_edge_list_links(c: ComplexView)
    ensures
        forall|a: Seq<char>, b: Seq<char>| #[trigger] joined_rel(c)(a, b) ==> edge_links(edge_list(c))(a, b),
        forall|a: Seq<char>, b: Seq<char>| #[trigger] edge_links(edge_list(c))(a, b) ==> joined_rel(c)(a, b),
{
    let s = door_list(c.rooms);
    let d = distinct_doors(s);
    let b_ = edge_list(c);
    lemma_door_list_elements(c, c.rooms.len() as int);
    assert(c.rooms.take(c.rooms.len() as int) =~= c.rooms);
    lemma_distinct_doors_cover(s);
    lemma_distinct_doors_from(s);
    assert forall|a: Seq<char>, b: Seq<char>| #[trigger] joined_rel(c)(a, b) implies edge_links(b_)(a, b) by {
        if exists|i: int, j: int| #[trigger] door_joins(c, i, j, a, b) {
            let (i, j) = choose|i: int, j: int| #[trigger] door_joins(c, i, j, a, b);
            let p = (c.rooms[i].id, c.rooms[i].exits[j].to);
            assert(s.contains(p));
            let m = choose|m: int| 0 <= m < s.len() && s[m] == p;
            assert(has_same_ends(d, s[m]));
            let k = choose|k: int| 0 <= k < d.len() && same_ends(#[trigger] d[k], s[m]);
            assert(b_[k] == d[k]);
        } else {
            let k = choose|k: int| #[trigger] warp_joins(c, k, a, b);
            assert(b_[d.len() + k] == (c.warps[k].from, c.warps[k].to));
        }
    }
    assert forall|a: Seq<char>, b: Seq<char>| #[trigger] edge_links(b_)(a, b) implies joined_rel(c)(a, b) by {
        let k = choose|k: int| 0 <= k < b_.len() && (#[trigger] b_[k] == (a, b) || b_[k] == (b, a));
        if k < d.len() {
            assert(b_[k] == d[k]);
            let m = choose|m: int| 0 <= m < s.len() && s[m] == #[trigger] d[k];
            assert(is_door_pair(c, s[m]));
            let (i, j) = choose|i: int, j: int|
                #![trigger c.rooms[i].exits[j]]
                door_at(c, i, j) && s[m] == (c.rooms[i].id, c.rooms[i].exits[j].to);
            assert(door_joins(c, i, j, a, b));
        } else {
            let w = k - d.len();
            assert(b_[k] == (c.warps[w].from, c.warps[w].to));
            assert(warp_joins(c, w, a, b));
        }
    }
}

pub proof fn lemma_components_are_openers(c: ComplexView, m: int)
    requires
        0 <= m <= c.rooms.len(),
    ensures
        components_below(c, m) == openers(room_id_seq(c), edge_list(c), m),
    decreases m,
{
    if m > 0 {
        lemma_components_are_openers(c, m - 1);
        lemma_edge_list_links(c);
        let ids = room_id_seq(c);
        let i = m - 1;
        assert forall|j: int| 0 <= j < i implies #[trigger] reachable(joined_rel(c), c.rooms[i].id, c.rooms[j].id)
            == reachable(edge_links(edge_list(c)), ids[i], ids[j]) by {
            if reachable(joined_rel(c), c.rooms[i].id, c.rooms[j].id) {
                lemma_reach_mono(joined_rel(c), edge_links(edge_list(c)), c.rooms[i].id, c.rooms[j].id);
            }
            if reachable(edge_links(edge_list(c)), ids[i], ids[j]) {
                lemma_reach_mono(edge_links(edge_list(c)), joined_rel(c), ids[i], ids[j]);
            }
        }
        if opens_component(c, i) {
            assert forall|j: int| 0 <= j < i implies !#[trigger] reachable(edge_links(edge_list(c)), ids[i], ids[j]) by {
                assert(reachable(joined_rel(c), c.rooms[i].id, c.rooms[j].id) == reachable(
                    edge_links(edge_list(c)),
                    ids[i],
                    ids[j],
                ));
            }
        }
        if opens_in(ids, edge_list(c), i) {
            assert forall|j: int| 0 <= j < i implies !#[trigger] reachable(joined_rel(c), c.rooms[i].id, c.rooms[j].id) by {
                assert(reachable(joined_rel(c), c.rooms[i].id, c.rooms[j].id) == reachable(
                    edge_links(edge_list(c)),
                    ids[i],
                    ids[j],
                ));
            }
        }
    }
}

/// Edges and components together are at least as many as the rooms:
/// E + C ≥ V, with E the door edges plus the warps, C the components and V
/// the distinct room ids. So the cyclomatic number E − V + C is never cut off
/// at zero: it is exactly E − V + C.
pub proof fn law_edges_and_components_cover_rooms(c: ComplexView)
    ensures
        door_edge_count(c) + c.warps.len() + component_count(c) >= distinct_room_count(c),
        cyclomatic_number(c) + distinct_room_count(c) == door_edge_count(c) + c.warps.len() + component_count(c)
            || c.rooms.len() == 0,
{
    let ids = room_id_seq(c);
    let l = edge_list(c);
    let n = c.rooms.len() as int;
    lemma_components_are_openers(c, n);
    lemma_openers_edges(ids, l, n);
    assert(ids.take(n) =~= ids);
    let s = door_list(c.rooms);
    lemma_distinct_doors_count(s);
    let f = |p: (Seq<char>, Seq<char>)| unordered(p);
    distinct_doors(s).map_values(f).unique_seq_to_set();
    assert(l.len() == distinct_doors(s).len() + c.warps.len());
    if c.rooms.len() > 0 {
        assert(ids.len() > 0);
        assert(ids.to_set().contains(ids[0]));
        vstd::seq_lib::seq_to_set_is_finite(ids);
        assert(distinct_room_count(c) > 0);
    }
}

proof fn lemma_openers_at_most(ids: Seq<Seq<char>>, l: Seq<(Seq<char>, Seq<char>)>, n: int)
    requires
        0 <= n <= ids.len(),
    ensures
        openers(ids, l, n) <= ids.take(n).to_set().len(),
    decreases l.len(),
{
    if l.len() == 0 {
        assert(l =~= Seq::<(Seq<char>, Seq<char>)>::empty());
        lemma_openers_no_edges(ids, n);
    } else {
        let l0 = l.drop_last();
        let e = l.last();
        assert(l0.push(e) =~= l);
        lemma_openers_at_most(ids, l0, n);
        lemma_openers_lose(ids, l0, e, n);
    }
}

/// There are never more components than distinct room ids: C ≤ V.
pub proof fn law_components_at_most_rooms(c: ComplexView)
    ensures
        component_count(c) <= distinct_room_count(c),
{
    let ids = room_id_seq(c);
    let n = c.rooms.len() as int;
    lemma_components_are_openers(c, n);
    lemma_openers_at_most(ids, edge_list(c), n);
    assert(ids.take(n) =~= ids);
}

/// An edge between two vertices already joined changes no component.
pub proof fn lemma_openers_same_when_joined(
    ids: Seq<Seq<char>>,
    l: Seq<(Seq<char>, Seq<char>)>,
    e: (Seq<char>, Seq<char>),
    m: int,
)
    requires
        reachable(edge_links(l), e.0, e.1),
        0 <= m,
    ensures
        openers(ids, l.push(e), m) == openers(ids, l, m),
    decreases m,
{
    if m > 0 {
        lemma_openers_same_when_joined(ids, l, e, m - 1);
        let k = m - 1;
        let r = edge_links(l);
        lemma_links_grow(l, e);
        lemma_links_symmetric(l);
        assert forall|j: int| 0 <= j < k implies #[trigger] reachable(edge_links(l.push(e)), ids[k], ids[j]) == reachable(
            r,
            ids[k],
            ids[j],
        ) by {
            if reachable(r, ids[k], ids[j]) {
                lemma_reach_mono(r, edge_links(l.push(e)), ids[k], ids[j]);
            }
            if reachable(edge_links(l.push(e)), ids[k], ids[j]) {
                lemma_through(l, e, ids[k], ids[j]);
                if reachable(r, ids[k], e.0) && reachable(r, e.1, ids[j]) {
                    lemma_reach_trans(r, ids[k], e.0, e.1);
                    lemma_reach_trans(r, ids[k], e.1, ids[j]);
                } else if reachable(r, ids[k], e.1) && reachable(r, e.0, ids[j]) {
                    lemma_reach_symm(r, e.0, e.1);
                    lemma_reach_trans(r, ids[k], e.1, e.0);
                    lemma_reach_trans(r, ids[k], e.0, ids[j]);
                }
            }
        }
        if opens_in(ids, l, k) {
            assert forall|j: int| 0 <= j < k implies !#[trigger] reachable(edge_links(l.push(e)), ids[k], ids[j]) by {
                assert(reachable(edge_links(l.push(e)), ids[k], ids[j]) == reachable(r, ids[k], ids[j]));
            }
        }
        if opens_in(ids, l.push(e), k) {
            assert forall|j: int| 0 <= j < k implies !#[trigger] reachable(r, ids[k], ids[j]) by {
                assert(reachable(edge_links(l.push(e)), ids[k], ids[j]) == reachable(r, ids[k], ids[j]));
            }
        }
    }
}

} // verus!
