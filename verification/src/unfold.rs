//! The unfolding of a room complex: a finite part of its universal cover,
//! grown breadth first from the first room. Every lift of a room steps
//! through the room's exits, then through the warps that leave it; the
//! `k`-th lift reached of a place `t` is named `t_k`. A step to a lift not yet
//! seen joins it below the lift it came from; a step back to a lift already
//! seen adds no edge, so the lifts form a tree.
use vstd::prelude::*;
use vstd::string::StringExecFns;
use crate::complex::{ComplexView, RoomComplex, door_at, is_node};
use crate::graph::{lemma_reach_step, lemma_single_walk, reachable};
use crate::room::{RoomView, targets};
use crate::text::{append_decimal, decimal, lemma_decimal_digits, lemma_decimal_injective};
use crate::warp::WarpView;

verus! {

// ───────────────────────── names of lifts ─────────────────────────

/// The name of the `k`-th lift of place `t`: `t_k`.
pub open spec fn lift_name(t: Seq<char>, k: nat) -> Seq<char> {
    t + "_"@ + decimal(k)
}

/// How often `t` occurs in `s`.
pub open spec fn occurrences(s: Seq<Seq<char>>, t: Seq<char>) -> nat
    decreases s.len(),
{
    if s.len() == 0 {
        0
    } else {
        occurrences(s.drop_last(), t) + (if s.last() == t {
            1nat
        } else {
            0nat
        })
    }
}

// ───────────────────────── the graph, for counting ─────────────────────────

/// The pairs `p` and `q` have the same two ends, in either order.
pub open spec fn same_ends(p: (Seq<char>, Seq<char>), q: (Seq<char>, Seq<char>)) -> bool {
    (p.0 == q.0 && p.1 == q.1) || (p.0 == q.1 && p.1 == q.0)
}

pub open spec fn has_same_ends(s: Seq<(Seq<char>, Seq<char>)>, p: (Seq<char>, Seq<char>)) -> bool {
    exists|k: int| 0 <= k < s.len() && same_ends(#[trigger] s[k], p)
}

/// The pairs of `s`, each pair of ends kept once (its first occurrence).
pub open spec fn distinct_doors(s: Seq<(Seq<char>, Seq<char>)>) -> Seq<(Seq<char>, Seq<char>)>
    decreases s.len(),
{
    if s.len() == 0 {
        Seq::empty()
    } else {
        let p = distinct_doors(s.drop_last());
        if has_same_ends(p, s.last()) {
            p
        } else {
            p.push(s.last())
        }
    }
}

/// The ends of every warp.
pub open spec fn warp_pairs(ws: Seq<WarpView>) -> Seq<(Seq<char>, Seq<char>)> {
    ws.map_values(|w: WarpView| (w.from, w.to))
}

// ───────────────────────── where a lift leads ─────────────────────────

/// The exit targets of the first room whose id is `x` (none when there is no
/// such room).
pub open spec fn first_room_exits(rooms: Seq<RoomView>, x: Seq<char>) -> Seq<Seq<char>>
    decreases rooms.len(),
{
    if rooms.len() == 0 {
        Seq::empty()
    } else if rooms[0].id == x {
        targets(rooms[0].exits)
    } else {
        first_room_exits(rooms.drop_first(), x)
    }
}

/// The targets of the warps that leave `x`, in warp order.
pub open spec fn warp_targets(warps: Seq<WarpView>, x: Seq<char>) -> Seq<Seq<char>>
    decreases warps.len(),
{
    if warps.len() == 0 {
        Seq::empty()
    } else {
        warp_targets(warps.drop_last(), x) + (if warps.last().from == x {
            seq![warps.last().to]
        } else {
            Seq::empty()
        })
    }
}

/// Where one step of the unfolding goes from a lift of `x`: through the exits
/// of the first room named `x`, then through the warps leaving `x`.
pub open spec fn unfold_targets(c: ComplexView, x: Seq<char>) -> Seq<Seq<char>> {
    first_room_exits(c.rooms, x) + warp_targets(c.warps, x)
}

// ───────────────────────── the unfolding, as mathematics ─────────────────────────

/// The state of the unfolding: lifts settled so far with their projections,
/// cover edges, every lift name ever queued, every place stepped to so far
/// (which numbers the lifts of each place), and the lifts queued for the next
/// layer with the places they lift.
#[verifier::ext_equal]
pub struct Unfolding {
    pub lifts: Seq<Seq<char>>,
    pub proj: Seq<(Seq<char>, Seq<char>)>,
    pub edges: Seq<(Seq<char>, Seq<char>)>,
    pub visited: Seq<Seq<char>>,
    pub targeted: Seq<Seq<char>>,
    pub next: Seq<(Seq<char>, Seq<char>)>,
}

/// Step from the lift `parent` to place `t`: the step reaches the next lift of
/// `t` in number; a lift not seen before is joined to `parent` by a cover edge
/// and queued, a lift already seen gets no edge.
pub open spec fn visit_target(u: Unfolding, parent: Seq<char>, t: Seq<char>) -> Unfolding {
    let name = lift_name(t, occurrences(u.targeted, t));
    let u1 = Unfolding { targeted: u.targeted.push(t), ..u };
    if u.visited.contains(name) {
        u1
    } else {
        Unfolding {
            edges: u1.edges.push((parent, name)),
            visited: u1.visited.push(name),
            next: u1.next.push((name, t)),
            ..u1
        }
    }
}

pub open spec fn visit_targets(u: Unfolding, parent: Seq<char>, ts: Seq<Seq<char>>) -> Unfolding
    decreases ts.len(),
{
    if ts.len() == 0 {
        u
    } else {
        visit_target(visit_targets(u, parent, ts.drop_last()), parent, ts.last())
    }
}

/// Settle one queued lift: record it and its projection, and, below the
/// depth limit, step to every place its room leads to.
pub open spec fn settle_item(c: ComplexView, u: Unfolding, item: (Seq<char>, Seq<char>), expand: bool) -> Unfolding {
    let u1 = Unfolding { lifts: u.lifts.push(item.0), proj: u.proj.push(item), ..u };
    if expand {
        visit_targets(u1, item.0, unfold_targets(c, item.1))
    } else {
        u1
    }
}

pub open spec fn settle_items(
    c: ComplexView,
    u: Unfolding,
    items: Seq<(Seq<char>, Seq<char>)>,
    expand: bool,
) -> Unfolding
    decreases items.len(),
{
    if items.len() == 0 {
        u
    } else {
        settle_item(c, settle_items(c, u, items.drop_last(), expand), items.last(), expand)
    }
}

/// Settle the lifts of one layer after another, breadth first, expanding
/// only layers below `depth`.
pub open spec fn unfold_layers(
    c: ComplexView,
    u: Unfolding,
    items: Seq<(Seq<char>, Seq<char>)>,
    layer: nat,
    depth: nat,
) -> Unfolding
    decreases depth - layer,
{
    let expand = layer < depth;
    let u1 = settle_items(c, Unfolding { next: Seq::empty(), ..u }, items, expand);
    if expand && u1.next.len() > 0 {
        unfold_layers(c, u1, u1.next, layer + 1, depth)
    } else {
        u1
    }
}

/// The first lift of the first room.
pub open spec fn start_lift(c: ComplexView) -> Seq<char> {
    lift_name(c.rooms[0].id, 0)
}

pub open spec fn start_state(c: ComplexView) -> Unfolding {
    Unfolding {
        lifts: Seq::empty(),
        proj: Seq::empty(),
        edges: Seq::empty(),
        visited: seq![start_lift(c)],
        targeted: Seq::empty(),
        next: Seq::empty(),
    }
}

/// The unfolding of `c` to `depth` layers, from the first lift of the first
/// room.
pub open spec fn unfolding(c: ComplexView, depth: nat) -> Unfolding {
    unfold_layers(c, start_state(c), seq![(start_lift(c), c.rooms[0].id)], 0, depth)
}

// ───────────────────────── the unfolding, computed ─────────────────────────

pub open spec fn ref_strs_view(v: Seq<&String>) -> Seq<Seq<char>> {
    v.map_values(|s: &String| s@)
}

pub open spec fn string_pairs_view(v: Seq<(String, String)>) -> Seq<(Seq<char>, Seq<char>)> {
    v.map_values(|p: (String, String)| (p.0@, p.1@))
}

pub open spec fn strs_view(v: Seq<String>) -> Seq<Seq<char>> {
    v.map_values(|s: String| s@)
}

proof fn lemma_first_room_exits(rooms: Seq<RoomView>, x: Seq<char>, i: int)
    requires
        0 <= i <= rooms.len(),
        forall|j: int| 0 <= j < i ==> #[trigger] rooms[j].id != x,
    ensures
        i < rooms.len() && rooms[i].id == x ==> first_room_exits(rooms, x) == targets(rooms[i].exits),
        i == rooms.len() ==> first_room_exits(rooms, x) == Seq::<Seq<char>>::empty(),
    decreases i,
{
    if i > 0 {
        let rest = rooms.drop_first();
        assert forall|j: int| 0 <= j < i - 1 implies #[trigger] rest[j].id != x by {
            assert(rest[j] == rooms[j + 1]);
        }
        assert(rooms[0].id != x);
        lemma_first_room_exits(rest, x, i - 1);
        if i < rooms.len() {
            assert(rest[i - 1] == rooms[i]);
        }
    }
}

/// Where a lift of `x` leads, in order.
fn unfold_targets_exec<'a>(c: &'a RoomComplex, x: &String) -> (ts: Vec<&'a String>)
    ensures
        ref_strs_view(ts@) == unfold_targets(c@, x@),
{
    let ghost cv = c@;
    let mut ts: Vec<&'a String> = Vec::new();
    let mut i: usize = 0;
    let mut found = false;
    while i < c.rooms.len() && !found
        invariant
            cv == c@,
            i <= cv.rooms.len(),
            !found ==> forall|j: int| 0 <= j < i ==> #[trigger] cv.rooms[j].id != x@,
            found ==> 0 < i && cv.rooms[i - 1].id == x@ && (forall|j: int| 0 <= j < i - 1 ==> #[trigger] cv.rooms[j].id
                != x@) && ref_strs_view(ts@) == targets(cv.rooms[i - 1].exits),
            !found ==> ts@.len() == 0,
        decreases cv.rooms.len() - i + (if found { 0int } else { 1int }),
    {
        let room = &c.rooms[i];
        assert(cv.rooms[i as int] == room@);
        if room.id == *x {
            let mut j: usize = 0;
            while j < room.exits.len()
                invariant
                    j <= room.exits@.len(),
                    ts@.len() == j,
                    forall|k: int| 0 <= k < j ==> (#[trigger] ts@[k])@ == room.exits@[k].to@,
                decreases room.exits@.len() - j,
            {
                ts.push(&room.exits[j].to);
                j = j + 1;
            }
            assert(ref_strs_view(ts@) =~= targets(room@.exits));
            found = true;
        }
        i = i + 1;
    }
    proof {
        if found {
            lemma_first_room_exits(cv.rooms, x@, i - 1);
        } else {
            lemma_first_room_exits(cv.rooms, x@, cv.rooms.len() as int);
        }
    }
    let ghost room_part = ref_strs_view(ts@);
    let mut k: usize = 0;
    while k < c.warps.len()
        invariant
            cv == c@,
            k <= cv.warps.len(),
            room_part == first_room_exits(cv.rooms, x@),
            ref_strs_view(ts@) == room_part + warp_targets(cv.warps.take(k as int), x@),
        decreases cv.warps.len() - k,
    {
        let w = &c.warps[k];
        assert(cv.warps[k as int] == w@);
        assert(cv.warps.take(k + 1).drop_last() =~= cv.warps.take(k as int));
        let ghost before = ref_strs_view(ts@);
        if w.from == *x {
            ts.push(&w.to);
            assert(ref_strs_view(ts@) =~= before.push(w.to@));
        }
        assert(ref_strs_view(ts@) =~= room_part + warp_targets(cv.warps.take(k + 1), x@));
        k = k + 1;
    }
    assert(cv.warps.take(cv.warps.len() as int) =~= cv.warps);
    ts
}

/// How often `t` occurs in `s`.
fn count_occurrences(s: &Vec<String>, t: &String) -> (k: usize)
    ensures
        k == occurrences(strs_view(s@), t@),
{
    let mut k: usize = 0;
    let mut i: usize = 0;
    while i < s.len()
        invariant
            i <= s@.len(),
            k <= i,
            k == occurrences(strs_view(s@).take(i as int), t@),
        decreases s@.len() - i,
    {
        assert(strs_view(s@).take(i + 1).drop_last() =~= strs_view(s@).take(i as int));
        if s[i] == *t {
            k = k + 1;
        }
        i = i + 1;
    }
    assert(strs_view(s@).take(s@.len() as int) =~= strs_view(s@));
    k
}

/// The name of the `k`-th lift of place `t`.
pub(crate) fn lift_name_exec(t: &String, k: usize) -> (s: String)
    ensures
        s@ == lift_name(t@, k as nat),
{
    let mut s = t.clone();
    s.append("_");
    append_decimal(&mut s, k);
    s
}

fn contains_lift(v: &Vec<String>, s: &String) -> (r: bool)
    ensures
        r == strs_view(v@).contains(s@),
{
    let mut i: usize = 0;
    while i < v.len()
        invariant
            i <= v@.len(),
            forall|k: int| 0 <= k < i ==> (#[trigger] v@[k])@ != s@,
        decreases v@.len() - i,
    {
        if v[i] == *s {
            assert(strs_view(v@)[i as int] == s@);
            return true;
        }
        i = i + 1;
    }
    proof {
        if strs_view(v@).contains(s@) {
            let k = choose|k: int| 0 <= k < strs_view(v@).len() && strs_view(v@)[k] == s@;
            assert(v@[k]@ == s@);
        }
    }
    false
}

pub(crate) struct UnfoldBuf {
    pub(crate) lifts: Vec<String>,
    pub(crate) proj: Vec<(String, String)>,
    pub(crate) edges: Vec<(String, String)>,
    pub(crate) visited: Vec<String>,
    pub(crate) targeted: Vec<String>,
    pub(crate) next: Vec<(String, String)>,
}

pub(crate) open spec fn buf_view(b: &UnfoldBuf) -> Unfolding {
    Unfolding {
        lifts: strs_view(b.lifts@),
        proj: string_pairs_view(b.proj@),
        edges: string_pairs_view(b.edges@),
        visited: strs_view(b.visited@),
        targeted: strs_view(b.targeted@),
        next: string_pairs_view(b.next@),
    }
}

fn visit_target_exec(b: &mut UnfoldBuf, parent: &String, t: &String)
    ensures
        buf_view(final(b)) == visit_target(buf_view(old(b)), parent@, t@),
{
    let ghost u = buf_view(b);
    let k = count_occurrences(&b.targeted, t);
    let name = lift_name_exec(t, k);
    b.targeted.push(t.clone());
    let seen = contains_lift(&b.visited, &name);
    if !seen {
        b.edges.push((parent.clone(), name.clone()));
        b.visited.push(name.clone());
        b.next.push((name, t.clone()));
    }
    proof {
        let nm = lift_name(t@, occurrences(u.targeted, t@));
        let u1 = Unfolding { targeted: u.targeted.push(t@), ..u };
        assert(strs_view(b.targeted@) =~= u.targeted.push(t@));
        if seen {
            assert(buf_view(b) =~= u1);
        } else {
            assert(string_pairs_view(b.edges@) =~= u.edges.push((parent@, nm)));
            assert(strs_view(b.visited@) =~= u.visited.push(nm));
            assert(string_pairs_view(b.next@) =~= u.next.push((nm, t@)));
        }
    }
}

fn settle_item_exec(c: &RoomComplex, b: &mut UnfoldBuf, item: &(String, String), expand: bool)
    ensures
        buf_view(final(b)) == settle_item(c@, buf_view(old(b)), (item.0@, item.1@), expand),
{
    let ghost u = buf_view(b);
    b.lifts.push(item.0.clone());
    b.proj.push((item.0.clone(), item.1.clone()));
    let ghost u1 = Unfolding {
        lifts: u.lifts.push(item.0@),
        proj: u.proj.push((item.0@, item.1@)),
        ..u
    };
    proof {
        assert(strs_view(b.lifts@) =~= u1.lifts);
        assert(string_pairs_view(b.proj@) =~= u1.proj);
        assert(buf_view(b) =~= u1);
    }
    if expand {
        let ts = unfold_targets_exec(c, &item.1);
        let ghost tv = ref_strs_view(ts@);
        let mut j: usize = 0;
        while j < ts.len()
            invariant
                j <= ts@.len(),
                tv == ref_strs_view(ts@),
                buf_view(b) == visit_targets(u1, item.0@, tv.take(j as int)),
            decreases ts@.len() - j,
        {
            assert(tv.take(j + 1).drop_last() =~= tv.take(j as int));
            assert(tv.take(j + 1).last() == ts@[j as int]@);
            visit_target_exec(b, &item.0, ts[j]);
            j = j + 1;
        }
        assert(tv.take(ts@.len() as int) =~= tv);
    }
}

/// The unfolding of a complex with at least one room.
pub(crate) fn unfold_exec(c: &RoomComplex, depth: usize) -> (u: UnfoldBuf)
    requires
        c@.rooms.len() > 0,
    ensures
        buf_view(&u) == unfolding(c@, depth as nat),
{
    let ghost cv = c@;
    let start = &c.rooms[0].id;
    assert(cv.rooms[0] == c.rooms@[0]@);
    let l0 = lift_name_exec(start, 0);
    let mut b = UnfoldBuf {
        lifts: Vec::new(),
        proj: Vec::new(),
        edges: Vec::new(),
        visited: Vec::new(),
        targeted: Vec::new(),
        next: Vec::new(),
    };
    b.visited.push(l0.clone());
    let mut items: Vec<(String, String)> = Vec::new();
    items.push((l0, start.clone()));
    let ghost target = unfolding(cv, depth as nat);
    proof {
        assert(strs_view(b.visited@) =~= seq![start_lift(cv)]);
        assert(string_pairs_view(items@) =~= seq![(start_lift(cv), cv.rooms[0].id)]);
        assert(strs_view(b.lifts@) =~= Seq::<Seq<char>>::empty());
        assert(string_pairs_view(b.proj@) =~= Seq::<(Seq<char>, Seq<char>)>::empty());
        assert(string_pairs_view(b.edges@) =~= Seq::<(Seq<char>, Seq<char>)>::empty());
        assert(strs_view(b.targeted@) =~= Seq::<Seq<char>>::empty());
        assert(string_pairs_view(b.next@) =~= Seq::<(Seq<char>, Seq<char>)>::empty());
        assert(buf_view(&b) =~= start_state(cv));
    }
    let mut layer: usize = 0;
    loop
        invariant
            cv == c@,
            layer <= depth,
            target == unfolding(cv, depth as nat),
            unfold_layers(cv, buf_view(&b), string_pairs_view(items@), layer as nat, depth as nat) == target,
        decreases depth - layer,
    {
        let expand = layer < depth;
        let ghost head = buf_view(&b);
        b.next = Vec::new();
        let ghost first = buf_view(&b);
        proof {
            assert(string_pairs_view(b.next@) =~= Seq::<(Seq<char>, Seq<char>)>::empty());
            assert(first =~= Unfolding { next: Seq::empty(), ..head });
        }
        let ghost iv = string_pairs_view(items@);
        let mut i: usize = 0;
        while i < items.len()
            invariant
                cv == c@,
                i <= items@.len(),
                iv == string_pairs_view(items@),
                buf_view(&b) == settle_items(cv, first, iv.take(i as int), expand),
            decreases items@.len() - i,
        {
            assert(iv.take(i + 1).drop_last() =~= iv.take(i as int));
            assert(iv.take(i + 1).last() == (items@[i as int].0@, items@[i as int].1@));
            settle_item_exec(c, &mut b, &items[i], expand);
            i = i + 1;
        }
        proof {
            assert(iv.take(items@.len() as int) =~= iv);
        }
        let ghost u1 = buf_view(&b);
        if !expand || b.next.len() == 0 {
            proof {
                assert(u1.next.len() == b.next@.len());
                assert(unfold_layers(cv, head, iv, layer as nat, depth as nat) == u1);
            }
            return b;
        }
        let mut taken: Vec<(String, String)> = Vec::new();
        std::mem::swap(&mut taken, &mut b.next);
        items = taken;
        proof {
            assert(string_pairs_view(b.next@) =~= Seq::<(Seq<char>, Seq<char>)>::empty());
            assert(buf_view(&b) =~= Unfolding { next: Seq::empty(), ..u1 });
            assert(string_pairs_view(items@) == u1.next);
            assert(unfold_layers(cv, buf_view(&b), u1.next, (layer + 1) as nat, depth as nat) == unfold_layers(
                cv,
                u1,
                u1.next,
                (layer + 1) as nat,
                depth as nat,
            ));
        }
        layer = layer + 1;
    }
}

// ───────────────────────── the unfolding is a tree ─────────────────────────

/// Edges joining `a` and `b`, direction ignored.
pub open spec fn edge_links(edges: Seq<(Seq<char>, Seq<char>)>) -> spec_fn(Seq<char>, Seq<char>) -> bool {
    |a: Seq<char>, b: Seq<char>| exists|k: int| 0 <= k < edges.len() && (#[trigger] edges[k] == (a, b) || edges[k] == (b, a))
}

/// The edges make `all` a tree: edge `k` joins the vertex `all[k + 1]` to one
/// of the vertices before it.
pub open spec fn hangs_below(all: Seq<Seq<char>>, edges: Seq<(Seq<char>, Seq<char>)>) -> bool {
    &&& edges.len() + 1 == all.len()
    &&& forall|k: int|
        0 <= k < edges.len() ==> (#[trigger] edges[k]).1 == all[k + 1] && exists|i: int| 0 <= i <= k && all[i] == edges[k].0
}

pub proof fn lemma_distinct_doors_from(s: Seq<(Seq<char>, Seq<char>)>)
    ensures
        forall|k: int| 0 <= k < distinct_doors(s).len() ==> exists|m: int|
            0 <= m < s.len() && s[m] == #[trigger] distinct_doors(s)[k],
    decreases s.len(),
{
    if s.len() > 0 {
        let init = s.drop_last();
        lemma_distinct_doors_from(init);
        assert forall|k: int| 0 <= k < distinct_doors(s).len() implies exists|m: int|
            0 <= m < s.len() && s[m] == #[trigger] distinct_doors(s)[k] by {
            let p = distinct_doors(init);
            if k < p.len() {
                assert(distinct_doors(s)[k] == p[k]);
                let m = choose|m: int| 0 <= m < init.len() && init[m] == p[k];
                assert(s[m] == init[m]);
            } else {
                assert(distinct_doors(s)[k] == s.last());
                assert(s[s.len() - 1] == s.last());
            }
        }
    }
}

/// In a tree given by `hangs_below`, every vertex can be reached from the
/// first one.
pub proof fn lemma_tree_reach(all: Seq<Seq<char>>, edges: Seq<(Seq<char>, Seq<char>)>, m: int)
    requires
        hangs_below(all, edges),
        0 <= m < all.len(),
    ensures
        reachable(edge_links(edges), all[0], all[m]),
    decreases m,
{
    if m == 0 {
        lemma_single_walk(edge_links(edges), all[0]);
    } else {
        let k = m - 1;
        assert(edges[k].1 == all[k + 1]);
        let i = choose|i: int| 0 <= i <= k && all[i] == edges[k].0;
        lemma_tree_reach(all, edges, i);
        assert(edge_links(edges)(all[i], all[m]));
        lemma_reach_step(edge_links(edges), all[0], all[i], all[m]);
    }
}

/// The lift names of queued items.
pub open spec fn item_names(items: Seq<(Seq<char>, Seq<char>)>) -> Seq<Seq<char>> {
    items.map_values(|it: (Seq<char>, Seq<char>)| it.0)
}

/// The places lifted by queued items.
pub open spec fn item_places(items: Seq<(Seq<char>, Seq<char>)>) -> Seq<Seq<char>> {
    items.map_values(|it: (Seq<char>, Seq<char>)| it.1)
}

/// Every cover edge follows a step of the complex: the place lifted by its
/// child is one that the place lifted by its parent leads to.
pub open spec fn follows_steps(
    c: ComplexView,
    all: Seq<Seq<char>>,
    places: Seq<Seq<char>>,
    edges: Seq<(Seq<char>, Seq<char>)>,
) -> bool {
    forall|k: int, i: int|
        #![trigger edges[k], all[i]]
        0 <= k < edges.len() && 0 <= i <= k && all[i] == edges[k].0 ==> unfold_targets(c, places[i]).contains(
            places[k + 1],
        )
}

/// What holds of the unfolding of `c` from the lift `start` while `pending`
/// items wait to be settled: settled, pending and queued lifts are distinct
/// and are the names visited so far; each but the first hangs by one edge
/// below an earlier one, along a step of the complex; every settled lift has
/// its projection beside it, and every lift lifts a place of `c`.
pub open spec fn unfolding_ok(c: ComplexView, u: Unfolding, pending: Seq<(Seq<char>, Seq<char>)>, start: Seq<char>) -> bool {
    let all = u.lifts + item_names(pending) + item_names(u.next);
    let places = u.proj.map_values(|p: (Seq<char>, Seq<char>)| p.1) + item_places(pending) + item_places(u.next);
    &&& all.no_duplicates()
    &&& all.len() > 0 && all[0] == start
    &&& forall|x: Seq<char>| #[trigger] u.visited.contains(x) <==> all.contains(x)
    &&& hangs_below(all, u.edges)
    &&& follows_steps(c, all, places, u.edges)
    &&& u.proj.len() == u.lifts.len()
    &&& forall|i: int| 0 <= i < u.lifts.len() ==> (#[trigger] u.proj[i]).0 == u.lifts[i]
    &&& forall|i: int| 0 <= i < places.len() ==> is_node(c, #[trigger] places[i])
}

proof fn lemma_visit_target(
    c: ComplexView,
    u: Unfolding,
    parent: Seq<char>,
    t: Seq<char>,
    pending: Seq<(Seq<char>, Seq<char>)>,
    start: Seq<char>,
    pi: int,
)
    requires
        unfolding_ok(c, u, pending, start),
        0 <= pi < u.lifts.len(),
        u.lifts[pi] == parent,
        unfold_targets(c, u.proj[pi].1).contains(t),
        is_node(c, t),
    ensures
        unfolding_ok(c, visit_target(u, parent, t), pending, start),
        visit_target(u, parent, t).lifts == u.lifts,
        visit_target(u, parent, t).proj == u.proj,
{
    let name = lift_name(t, occurrences(u.targeted, t));
    let v = visit_target(u, parent, t);
    let f = |p: (Seq<char>, Seq<char>)| p.1;
    let all = u.lifts + item_names(pending) + item_names(u.next);
    let places = u.proj.map_values(f) + item_places(pending) + item_places(u.next);
    if u.visited.contains(name) {
        assert(v.lifts + item_names(pending) + item_names(v.next) == all);
        assert(v.proj.map_values(f) + item_places(pending) + item_places(v.next) == places);
    } else {
        assert(!all.contains(name));
        let all2 = v.lifts + item_names(pending) + item_names(v.next);
        let places2 = v.proj.map_values(f) + item_places(pending) + item_places(v.next);
        assert(item_names(v.next) =~= item_names(u.next).push(name));
        assert(item_places(v.next) =~= item_places(u.next).push(t));
        assert(all2 =~= all.push(name));
        assert(places2 =~= places.push(t));
        assert forall|x: Seq<char>| #[trigger] v.visited.contains(x) <==> all2.contains(x) by {
            vstd::seq_lib::lemma_seq_contains_after_push(u.visited, name, x);
            vstd::seq_lib::lemma_seq_contains_after_push(all, name, x);
        }
        assert(all2.no_duplicates()) by {
            assert forall|i: int, j: int| 0 <= i < all2.len() && 0 <= j < all2.len() && i != j implies all2[i] != all2[j] by {
                if i < all.len() && j < all.len() {
                    assert(all2[i] == all[i] && all2[j] == all[j]);
                } else if i < all.len() {
                    assert(all2[i] == all[i]);
                } else if j < all.len() {
                    assert(all2[j] == all[j]);
                }
            }
        }
        assert(all[pi] == parent);
        assert(places[pi] == u.proj[pi].1);
        assert forall|k: int| 0 <= k < v.edges.len() implies (#[trigger] v.edges[k]).1 == all2[k + 1] && exists|i: int|
            0 <= i <= k && all2[i] == v.edges[k].0 by {
            if k < u.edges.len() {
                assert(v.edges[k] == u.edges[k]);
                let i = choose|i: int| 0 <= i <= k && all[i] == u.edges[k].0;
                assert(all2[i] == all[i]);
            } else {
                assert(all2[pi] == all[pi]);
            }
        }
        assert forall|k: int, i: int|
            #![trigger v.edges[k], all2[i]]
            0 <= k < v.edges.len() && 0 <= i <= k && all2[i] == v.edges[k].0 implies unfold_targets(c, places2[i]).contains(
                places2[k + 1],
            ) by {
            assert(all2[i] == all[i]);
            assert(places2[i] == places[i]);
            if k < u.edges.len() {
                assert(v.edges[k] == u.edges[k]);
                assert(places2[k + 1] == places[k + 1]);
            } else {
                assert(all[pi] == parent);
                assert(i == pi);
            }
        }
        assert forall|i: int| 0 <= i < places2.len() implies is_node(c, #[trigger] places2[i]) by {
            if i < places.len() {
                assert(places2[i] == places[i]);
            }
        }
    }
}

proof fn lemma_visit_targets(
    c: ComplexView,
    u: Unfolding,
    parent: Seq<char>,
    ts: Seq<Seq<char>>,
    pending: Seq<(Seq<char>, Seq<char>)>,
    start: Seq<char>,
    pi: int,
)
    requires
        unfolding_ok(c, u, pending, start),
        0 <= pi < u.lifts.len(),
        u.lifts[pi] == parent,
        forall|k: int| 0 <= k < ts.len() ==> unfold_targets(c, u.proj[pi].1).contains(#[trigger] ts[k]) && is_node(c, ts[k]),
    ensures
        unfolding_ok(c, visit_targets(u, parent, ts), pending, start),
        visit_targets(u, parent, ts).lifts == u.lifts,
        visit_targets(u, parent, ts).proj == u.proj,
    decreases ts.len(),
{
    if ts.len() > 0 {
        let rest = ts.drop_last();
        assert forall|k: int| 0 <= k < rest.len() implies unfold_targets(c, u.proj[pi].1).contains(#[trigger] rest[k])
            && is_node(c, rest[k]) by {
            assert(rest[k] == ts[k]);
        }
        lemma_visit_targets(c, u, parent, rest, pending, start, pi);
        assert(ts.last() == ts[ts.len() - 1]);
        lemma_visit_target(c, visit_targets(u, parent, rest), parent, ts.last(), pending, start, pi);
    }
}

proof fn lemma_unfold_targets_are_nodes(c: ComplexView, x: Seq<char>, s: int)
    requires
        0 <= s <= c.rooms.len(),
    ensures
        forall|k: int| 0 <= k < first_room_exits(c.rooms.skip(s), x).len() ==> is_node(
            c,
            #[trigger] first_room_exits(c.rooms.skip(s), x)[k],
        ),
    decreases c.rooms.len() - s,
{
    let rs = c.rooms.skip(s);
    if rs.len() > 0 {
        if rs[0].id == x {
            assert forall|k: int| 0 <= k < first_room_exits(rs, x).len() implies is_node(
                c,
                #[trigger] first_room_exits(rs, x)[k],
            ) by {
                assert(rs[0] == c.rooms[s]);
                assert(door_at(c, s, k));
                assert(c.rooms[s].exits[k].to == first_room_exits(rs, x)[k]);
            }
        } else {
            assert(rs.drop_first() =~= c.rooms.skip(s + 1));
            assert(first_room_exits(rs, x) == first_room_exits(c.rooms.skip(s + 1), x));
            lemma_unfold_targets_are_nodes(c, x, s + 1);
        }
    }
}

proof fn lemma_warp_targets_from(ws: Seq<WarpView>, x: Seq<char>)
    ensures
        forall|k: int| 0 <= k < warp_targets(ws, x).len() ==> exists|j: int|
            0 <= j < ws.len() && (#[trigger] ws[j]).to == #[trigger] warp_targets(ws, x)[k],
    decreases ws.len(),
{
    if ws.len() > 0 {
        let rest = ws.drop_last();
        lemma_warp_targets_from(rest, x);
        assert forall|k: int| 0 <= k < warp_targets(ws, x).len() implies exists|j: int|
            0 <= j < ws.len() && (#[trigger] ws[j]).to == #[trigger] warp_targets(ws, x)[k] by {
            if k < warp_targets(rest, x).len() {
                assert(warp_targets(ws, x)[k] == warp_targets(rest, x)[k]);
                let j = choose|j: int| 0 <= j < rest.len() && (#[trigger] rest[j]).to == warp_targets(rest, x)[k];
                assert(ws[j] == rest[j]);
            } else {
                assert(warp_targets(ws, x)[k] == ws.last().to);
                assert(ws[ws.len() - 1] == ws.last());
            }
        }
    }
}

proof fn lemma_steps_are_nodes(c: ComplexView, x: Seq<char>)
    ensures
        forall|k: int| 0 <= k < unfold_targets(c, x).len() ==> is_node(c, #[trigger] unfold_targets(c, x)[k]),
{
    lemma_unfold_targets_are_nodes(c, x, 0);
    assert(c.rooms.skip(0) =~= c.rooms);
    lemma_warp_targets_from(c.warps, x);
    let a = first_room_exits(c.rooms, x);
    let b = warp_targets(c.warps, x);
    assert forall|k: int| 0 <= k < unfold_targets(c, x).len() implies is_node(c, #[trigger] unfold_targets(c, x)[k]) by {
        if k < a.len() {
            assert(unfold_targets(c, x)[k] == a[k]);
        } else {
            assert(unfold_targets(c, x)[k] == b[k - a.len()]);
            let j = choose|j: int| 0 <= j < c.warps.len() && (#[trigger] c.warps[j]).to == b[k - a.len()];
            assert(c.warps[j].from == c.warps[j].from);
            assert(c.warps[j].to == unfold_targets(c, x)[k]);
        }
    }
}

proof fn lemma_settle_item(
    c: ComplexView,
    u: Unfolding,
    item: (Seq<char>, Seq<char>),
    rest: Seq<(Seq<char>, Seq<char>)>,
    expand: bool,
    start: Seq<char>,
)
    requires
        unfolding_ok(c, u, seq![item] + rest, start),
    ensures
        unfolding_ok(c, settle_item(c, u, item, expand), rest, start),
        !expand ==> settle_item(c, u, item, expand).next == u.next,
{
    let pend = seq![item] + rest;
    let f = |p: (Seq<char>, Seq<char>)| p.1;
    let u1 = Unfolding { lifts: u.lifts.push(item.0), proj: u.proj.push(item), ..u };
    assert(item_names(pend) =~= seq![item.0] + item_names(rest));
    assert(item_places(pend) =~= seq![item.1] + item_places(rest));
    assert(u1.proj.map_values(f) =~= u.proj.map_values(f).push(item.1));
    assert(u1.lifts + item_names(rest) + item_names(u1.next) =~= u.lifts + item_names(pend) + item_names(u.next));
    assert(u1.proj.map_values(f) + item_places(rest) + item_places(u1.next) =~= u.proj.map_values(f) + item_places(pend)
        + item_places(u.next));
    assert forall|i: int| 0 <= i < u1.lifts.len() implies (#[trigger] u1.proj[i]).0 == u1.lifts[i] by {
        if i < u.lifts.len() {
            assert(u1.proj[i] == u.proj[i]);
        }
    }
    assert(unfolding_ok(c, u1, rest, start));
    if expand {
        let pi = u.lifts.len() as int;
        assert(u1.lifts[pi] == item.0);
        assert(u1.proj[pi] == item);
        let ts = unfold_targets(c, item.1);
        lemma_steps_are_nodes(c, item.1);
        assert forall|k: int| 0 <= k < ts.len() implies unfold_targets(c, u1.proj[pi].1).contains(#[trigger] ts[k])
            && is_node(c, ts[k]) by {
        }
        lemma_visit_targets(c, u1, item.0, ts, rest, start, pi);
    }
}

proof fn lemma_settle_items(
    c: ComplexView,
    u: Unfolding,
    items: Seq<(Seq<char>, Seq<char>)>,
    rest: Seq<(Seq<char>, Seq<char>)>,
    expand: bool,
    start: Seq<char>,
)
    requires
        unfolding_ok(c, u, items + rest, start),
    ensures
        unfolding_ok(c, settle_items(c, u, items, expand), rest, start),
        !expand ==> settle_items(c, u, items, expand).next == u.next,
    decreases items.len(),
{
    if items.len() == 0 {
        assert(items + rest =~= rest);
    } else {
        let init = items.drop_last();
        let last = items.last();
        assert(init + (seq![last] + rest) =~= items + rest);
        lemma_settle_items(c, u, init, seq![last] + rest, expand, start);
        lemma_settle_item(c, settle_items(c, u, init, expand), last, rest, expand, start);
    }
}

proof fn lemma_unfold_layers(
    c: ComplexView,
    u: Unfolding,
    items: Seq<(Seq<char>, Seq<char>)>,
    layer: nat,
    depth: nat,
    start: Seq<char>,
)
    requires
        unfolding_ok(c, Unfolding { next: Seq::empty(), ..u }, items, start),
    ensures
        unfolding_ok(c, unfold_layers(c, u, items, layer, depth), Seq::empty(), start),
        unfold_layers(c, u, items, layer, depth).next.len() == 0,
    decreases depth - layer,
{
    let expand = layer < depth;
    let u0 = Unfolding { next: Seq::empty(), ..u };
    assert(items + Seq::<(Seq<char>, Seq<char>)>::empty() =~= items);
    lemma_settle_items(c, u0, items, Seq::empty(), expand, start);
    let u1 = settle_items(c, u0, items, expand);
    if expand && u1.next.len() > 0 {
        let u2 = Unfolding { next: Seq::empty(), ..u1 };
        let e = Seq::<(Seq<char>, Seq<char>)>::empty();
        assert(u2.lifts + item_names(u1.next) + item_names(u2.next) =~= u1.lifts + item_names(e) + item_names(u1.next));
        assert(u2.proj.map_values(|p: (Seq<char>, Seq<char>)| p.1) + item_places(u1.next) + item_places(u2.next)
            =~= u1.proj.map_values(|p: (Seq<char>, Seq<char>)| p.1) + item_places(e) + item_places(u1.next));
        assert(unfolding_ok(c, u2, u1.next, start));
        lemma_unfold_layers(c, u1, u1.next, layer + 1, depth, start);
    }
}

/// The finished unfolding is a tree of distinct lifts, the first of them the
/// first lift of the first room; each cover edge follows a step of the
/// complex (an exit of the room lifted by its parent, or a warp from it), and
/// every lift has beside it its projection onto a place of the complex.
pub proof fn lemma_unfolding_shape(c: ComplexView, depth: nat)
    requires
        c.rooms.len() > 0,
    ensures
        ({
            let u = unfolding(c, depth);
            &&& u.lifts.no_duplicates()
            &&& u.lifts.len() > 0 && u.lifts[0] == start_lift(c)
            &&& hangs_below(u.lifts, u.edges)
            &&& follows_steps(c, u.lifts, u.proj.map_values(|p: (Seq<char>, Seq<char>)| p.1), u.edges)
            &&& u.proj.len() == u.lifts.len()
            &&& forall|i: int| 0 <= i < u.lifts.len() ==> (#[trigger] u.proj[i]).0 == u.lifts[i] && is_node(c, u.proj[i].1)
        }),
{
    let l0 = start_lift(c);
    let items = seq![(l0, c.rooms[0].id)];
    let u0 = start_state(c);
    let e = Seq::<(Seq<char>, Seq<char>)>::empty();
    assert(Unfolding { next: Seq::empty(), ..u0 } =~= u0);
    let all = u0.lifts + item_names(items) + item_names(u0.next);
    assert(all =~= seq![l0]);
    let places = u0.proj.map_values(|p: (Seq<char>, Seq<char>)| p.1) + item_places(items) + item_places(u0.next);
    assert(places =~= seq![c.rooms[0].id]);
    assert(c.rooms[0].id == c.rooms[0].id);
    assert(is_node(c, places[0]));
    assert(unfolding_ok(c, u0, items, l0));
    lemma_unfold_layers(c, u0, items, 0, depth, l0);
    let u = unfolding(c, depth);
    let pl = u.proj.map_values(|p: (Seq<char>, Seq<char>)| p.1);
    assert(u.lifts + item_names(e) + item_names(u.next) =~= u.lifts);
    assert(pl + item_places(e) + item_places(u.next) =~= pl);
    assert forall|i: int| 0 <= i < u.lifts.len() implies (#[trigger] u.proj[i]).0 == u.lifts[i] && is_node(c, u.proj[i].1) by {
        assert(pl[i] == u.proj[i].1);
    }
}

// ───────────────────────── every lift short of the depth is expanded ─────────────────────────

proof fn lemma_occurrences_push(s: Seq<Seq<char>>, t: Seq<char>, x: Seq<char>)
    ensures
        occurrences(s.push(t), x) == occurrences(s, x) + (if t == x {
            1nat
        } else {
            0nat
        }),
{
    assert(s.push(t).drop_last() =~= s);
}

/// Different places or different numbers give different lift names.
proof fn lemma_lift_name_injective(t1: Seq<char>, k1: nat, t2: Seq<char>, k2: nat)
    requires
        lift_name(t1, k1) == lift_name(t2, k2),
    ensures
        t1 == t2,
        k1 == k2,
{
    reveal_strlit("_");
    let s = lift_name(t1, k1);
    let d1 = decimal(k1);
    let d2 = decimal(k2);
    lemma_decimal_digits(k1);
    lemma_decimal_digits(k2);
    let n = s.len();
    assert(s == t2 + "_"@ + d2);
    if d1.len() < d2.len() {
        let p = n - d1.len() - 1;
        assert(s[p] == '_');
        assert(s[p] == d2[p - (n - d2.len())]);
    } else if d2.len() < d1.len() {
        let p = n - d2.len() - 1;
        assert(s[p] == '_');
        assert(s[p] == d1[p - (n - d1.len())]);
    } else {
        assert(t1 =~= s.subrange(0, t1.len() as int));
        assert(t2 =~= s.subrange(0, t2.len() as int));
        assert(d1 =~= s.subrange(n - d1.len(), n as int));
        assert(d2 =~= s.subrange(n - d2.len(), n as int));
        lemma_decimal_injective(k1, k2);
    }
}

/// The last index at which `x` stands in `s`, or -1 when it is not there.
pub open spec fn position(s: Seq<Seq<char>>, x: Seq<char>) -> int
    decreases s.len(),
{
    if s.len() == 0 {
        -1
    } else if s.last() == x {
        s.len() - 1
    } else {
        position(s.drop_last(), x)
    }
}

/// How many cover edges lead from the first lift down to lift `i` of `all`,
/// where edge `k` hangs `all[k + 1]` below the lift it leaves.
pub open spec fn lift_depth(all: Seq<Seq<char>>, edges: Seq<(Seq<char>, Seq<char>)>, i: int) -> nat
    decreases i,
{
    if i <= 0 || i > edges.len() {
        0
    } else {
        let p = position(all.take(i), edges[i - 1].0);
        if 0 <= p < i {
            lift_depth(all, edges, p) + 1
        } else {
            0
        }
    }
}

/// The steps from a lift of `x` do not all lead back to the first lift: one
/// of them leads to another place, or there are at least two.
pub open spec fn leads_on(c: ComplexView, x: Seq<char>) -> bool {
    let ts = unfold_targets(c, x);
    ts.len() >= 2 || exists|j: int| 0 <= j < ts.len() && ts[j] != c.rooms[0].id
}

/// `x` is the name of a lift already numbered: `t_j` with `j` below the
/// number of steps taken to `t`.
spec fn issued(targeted: Seq<Seq<char>>, x: Seq<char>) -> bool {
    exists|t: Seq<char>, j: nat| j < occurrences(targeted, t) && x == #[trigger] lift_name(t, j)
}

spec fn all_of(u: Unfolding, pending: Seq<(Seq<char>, Seq<char>)>) -> Seq<Seq<char>> {
    u.lifts + item_names(pending) + item_names(u.next)
}

/// While layer `layer` is settled: settled lifts lie at most `layer` edges
/// down, pending ones exactly `layer`, queued ones `layer + 1`; every name is
/// the first lift's or one already numbered.
spec fn layered(c: ComplexView, u: Unfolding, pending: Seq<(Seq<char>, Seq<char>)>, layer: nat, depth: nat) -> bool {
    let all = all_of(u, pending);
    let a = u.lifts.len() as int;
    let b = a + pending.len();
    &&& forall|i: int| 0 <= i < a ==> #[trigger] lift_depth(all, u.edges, i) <= layer
    &&& forall|i: int| a <= i < b ==> #[trigger] lift_depth(all, u.edges, i) == layer
    &&& forall|i: int| b <= i < all.len() ==> #[trigger] lift_depth(all, u.edges, i) == layer + 1
    &&& layer <= depth
    &&& u.next.len() > 0 ==> layer < depth
    &&& forall|i: int| 0 <= i < all.len() ==> all[i] == start_lift(c) || issued(u.targeted, #[trigger] all[i])
}

/// The first `n` settled lifts that lie fewer than `depth` edges down and
/// lead on have a cover edge below them.
spec fn expanded_below(c: ComplexView, u: Unfolding, pending: Seq<(Seq<char>, Seq<char>)>, depth: nat, n: int) -> bool {
    forall|i: int|
        #![trigger u.proj[i]]
        0 <= i < n && lift_depth(all_of(u, pending), u.edges, i) < depth && leads_on(c, u.proj[i].1) ==> exists|k: int|
            0 <= k < u.edges.len() && (#[trigger] u.edges[k]).0 == u.lifts[i]
}

proof fn lemma_position(s: Seq<Seq<char>>, i: int)
    requires
        s.no_duplicates(),
        0 <= i < s.len(),
    ensures
        position(s, s[i]) == i,
    decreases s.len(),
{
    if s.last() != s[i] {
        let r = s.drop_last();
        assert(i != s.len() - 1);
        assert(r[i] == s[i]);
        lemma_position(r, i);
    }
}

proof fn lemma_lift_depth_push(
    all: Seq<Seq<char>>,
    edges: Seq<(Seq<char>, Seq<char>)>,
    x: Seq<char>,
    e: (Seq<char>, Seq<char>),
    i: int,
)
    requires
        edges.len() + 1 == all.len(),
        0 <= i < all.len(),
    ensures
        lift_depth(all.push(x), edges.push(e), i) == lift_depth(all, edges, i),
    decreases i,
{
    if i > 0 {
        assert(all.push(x).take(i) =~= all.take(i));
        assert(edges.push(e)[i - 1] == edges[i - 1]);
        let p = position(all.take(i), edges[i - 1].0);
        if 0 <= p < i {
            lemma_lift_depth_push(all, edges, x, e, p);
        }
    }
}

/// One step of the unfolding keeps the layers; a step that is not the first
/// step back to the first room hangs a new lift below `parent`.
proof fn lemma_visit_target_layered(
    c: ComplexView,
    u: Unfolding,
    parent: Seq<char>,
    t: Seq<char>,
    pending: Seq<(Seq<char>, Seq<char>)>,
    pi: int,
    layer: nat,
    depth: nat,
)
    requires
        c.rooms.len() > 0,
        unfolding_ok(c, u, pending, start_lift(c)),
        layered(c, u, pending, layer, depth),
        layer < depth,
        0 <= pi < u.lifts.len(),
        u.lifts[pi] == parent,
        lift_depth(all_of(u, pending), u.edges, pi) == layer,
        unfold_targets(c, u.proj[pi].1).contains(t),
        is_node(c, t),
    ensures
        ({
            let v = visit_target(u, parent, t);
            let all = all_of(u, pending);
            let all2 = all_of(v, pending);
            &&& unfolding_ok(c, v, pending, start_lift(c))
            &&& layered(c, v, pending, layer, depth)
            &&& v.lifts == u.lifts && v.proj == u.proj
            &&& v.targeted == u.targeted.push(t)
            &&& all.len() <= all2.len() && u.edges.len() <= v.edges.len()
            &&& forall|i: int| 0 <= i < all.len() ==> #[trigger] all2[i] == all[i]
            &&& forall|k: int| 0 <= k < u.edges.len() ==> #[trigger] v.edges[k] == u.edges[k]
            &&& forall|i: int| 0 <= i < all.len() ==> #[trigger] lift_depth(all2, v.edges, i) == lift_depth(all, u.edges, i)
            &&& !(t == c.rooms[0].id && occurrences(u.targeted, t) == 0) ==> v.edges == u.edges.push(
                (parent, lift_name(t, occurrences(u.targeted, t))),
            )
            &&& (t == c.rooms[0].id && occurrences(u.targeted, t) == 0) ==> v.edges == u.edges
        }),
{
    lemma_visit_target(c, u, parent, t, pending, start_lift(c), pi);
    let occ = occurrences(u.targeted, t);
    let name = lift_name(t, occ);
    let v = visit_target(u, parent, t);
    let all = all_of(u, pending);
    let all2 = all_of(v, pending);
    let a = u.lifts.len() as int;
    let b = a + pending.len();
    assert(v.targeted == u.targeted.push(t));
    // names already numbered stay numbered
    assert forall|x: Seq<char>| issued(u.targeted, x) implies issued(v.targeted, x) by {
        let (t2, j2) = choose|t2: Seq<char>, j2: nat| j2 < occurrences(u.targeted, t2) && x == #[trigger] lift_name(t2, j2);
        lemma_occurrences_push(u.targeted, t, t2);
        assert(j2 < occurrences(v.targeted, t2) && x == lift_name(t2, j2));
    }
    if !(t == c.rooms[0].id && occ == 0) {
        if u.visited.contains(name) {
            assert(all.contains(name));
            let i = choose|i: int| 0 <= i < all.len() && all[i] == name;
            if all[i] == start_lift(c) {
                lemma_lift_name_injective(t, occ, c.rooms[0].id, 0);
            } else {
                assert(issued(u.targeted, all[i]));
                let (t2, j2) = choose|t2: Seq<char>, j2: nat| j2 < occurrences(u.targeted, t2) && all[i] == #[trigger] lift_name(t2, j2);
                lemma_lift_name_injective(t, occ, t2, j2);
            }
        }
        assert(!u.visited.contains(name));
    } else {
        assert(all_of(u, pending)[0] == start_lift(c));
        assert(all_of(u, pending).contains(name));
    }
    if u.visited.contains(name) {
        assert(all2 == all);
        assert(v.edges == u.edges);
        assert forall|i: int| 0 <= i < all2.len() implies all2[i] == start_lift(c) || issued(v.targeted, #[trigger] all2[i]) by {
            assert(all[i] == start_lift(c) || issued(u.targeted, all[i]));
        }
    } else {
        let n = all.len() as int;
        assert(item_names(v.next) =~= item_names(u.next).push(name));
        assert(all2 =~= all.push(name));
        assert(v.edges == u.edges.push((parent, name)));
        assert(u.edges.len() + 1 == all.len());
        assert forall|i: int| 0 <= i < all.len() implies #[trigger] lift_depth(all2, v.edges, i) == lift_depth(all, u.edges, i) by {
            lemma_lift_depth_push(all, u.edges, name, (parent, name), i);
        }
        // the new lift hangs one edge below its parent
        assert(all2.take(n) =~= all);
        assert(all[pi] == parent);
        lemma_position(all, pi);
        assert(v.edges[n - 1] == (parent, name));
        assert(lift_depth(all2, v.edges, n) == lift_depth(all2, v.edges, pi) + 1);
        assert forall|i: int| 0 <= i < a implies #[trigger] lift_depth(all2, v.edges, i) <= layer by {
            assert(lift_depth(all, u.edges, i) <= layer);
        }
        assert forall|i: int| a <= i < b implies #[trigger] lift_depth(all2, v.edges, i) == layer by {
            assert(lift_depth(all, u.edges, i) == layer);
        }
        assert forall|i: int| b <= i < all2.len() implies #[trigger] lift_depth(all2, v.edges, i) == layer + 1 by {
            if i < n {
                assert(lift_depth(all, u.edges, i) == layer + 1);
            }
        }
        assert forall|i: int| 0 <= i < all2.len() implies all2[i] == start_lift(c) || issued(v.targeted, #[trigger] all2[i]) by {
            if i < n {
                assert(all2[i] == all[i]);
                assert(all[i] == start_lift(c) || issued(u.targeted, all[i]));
            } else {
                lemma_occurrences_push(u.targeted, t, t);
                assert(occ < occurrences(v.targeted, t) && all2[i] == lift_name(t, occ));
            }
        }
    }
}

#[verifier::spinoff_prover]
proof fn lemma_visit_targets_layered(
    c: ComplexView,
    u: Unfolding,
    parent: Seq<char>,
    ts: Seq<Seq<char>>,
    pending: Seq<(Seq<char>, Seq<char>)>,
    pi: int,
    layer: nat,
    depth: nat,
)
    requires
        c.rooms.len() > 0,
        unfolding_ok(c, u, pending, start_lift(c)),
        layered(c, u, pending, layer, depth),
        layer < depth,
        0 <= pi < u.lifts.len(),
        u.lifts[pi] == parent,
        lift_depth(all_of(u, pending), u.edges, pi) == layer,
        forall|k: int| 0 <= k < ts.len() ==> unfold_targets(c, u.proj[pi].1).contains(#[trigger] ts[k]) && is_node(c, ts[k]),
    ensures
        ({
            let v = visit_targets(u, parent, ts);
            let all = all_of(u, pending);
            let all2 = all_of(v, pending);
            &&& unfolding_ok(c, v, pending, start_lift(c))
            &&& layered(c, v, pending, layer, depth)
            &&& v.lifts == u.lifts && v.proj == u.proj
            &&& all.len() <= all2.len() && u.edges.len() <= v.edges.len()
            &&& forall|i: int| 0 <= i < all.len() ==> #[trigger] all2[i] == all[i]
            &&& forall|k: int| 0 <= k < u.edges.len() ==> #[trigger] v.edges[k] == u.edges[k]
            &&& forall|i: int| 0 <= i < all.len() ==> #[trigger] lift_depth(all2, v.edges, i) == lift_depth(all, u.edges, i)
            &&& (ts.len() >= 2 || exists|j: int| 0 <= j < ts.len() && ts[j] != c.rooms[0].id) ==> exists|k: int|
                0 <= k < v.edges.len() && (#[trigger] v.edges[k]).0 == parent
            &&& v.targeted == u.targeted + ts
            &&& forall|k: int| u.edges.len() <= k < v.edges.len() ==> (#[trigger] v.edges[k]).0 == parent
            &&& out_degree(v.edges, parent) + (if occurrences(u.targeted, c.rooms[0].id) == 0 && occurrences(
                ts,
                c.rooms[0].id,
            ) > 0 {
                1int
            } else {
                0int
            }) == out_degree(u.edges, parent) + ts.len()
            &&& forall|x: Seq<char>| x != parent ==> #[trigger] out_degree(v.edges, x) == out_degree(u.edges, x)
        }),
    decreases ts.len(),
{
    let v = visit_targets(u, parent, ts);
    let r0 = c.rooms[0].id;
    if ts.len() == 0 {
        assert(v == u);
        assert(u.targeted + ts =~= u.targeted);
    } else {
        let rest = ts.drop_last();
        let last = ts.last();
        assert forall|k: int| 0 <= k < rest.len() implies unfold_targets(c, u.proj[pi].1).contains(#[trigger] rest[k])
            && is_node(c, rest[k]) by {
            assert(rest[k] == ts[k]);
        }
        lemma_visit_targets_layered(c, u, parent, rest, pending, pi, layer, depth);
        let m = visit_targets(u, parent, rest);
        let all = all_of(u, pending);
        let allm = all_of(m, pending);
        assert(allm[pi] == all[pi]);
        assert(m.lifts[pi] == parent);
        assert(ts[ts.len() - 1] == last);
        lemma_visit_target_layered(c, m, parent, last, pending, pi, layer, depth);
        let all2 = all_of(v, pending);
        assert forall|i: int| 0 <= i < all.len() implies #[trigger] lift_depth(all2, v.edges, i) == lift_depth(all, u.edges, i) by {
            assert(lift_depth(allm, m.edges, i) == lift_depth(all, u.edges, i));
            assert(allm[i] == all[i]);
        }
        assert forall|i: int| 0 <= i < all.len() implies #[trigger] all2[i] == all[i] by {
            assert(allm[i] == all[i]);
        }
        assert forall|k: int| 0 <= k < u.edges.len() implies #[trigger] v.edges[k] == u.edges[k] by {
            assert(m.edges[k] == u.edges[k]);
        }
        if ts.len() >= 2 || exists|j: int| 0 <= j < ts.len() && ts[j] != c.rooms[0].id {
            if rest.len() >= 2 || exists|j: int| 0 <= j < rest.len() && rest[j] != c.rooms[0].id {
                let k = choose|k: int| 0 <= k < m.edges.len() && (#[trigger] m.edges[k]).0 == parent;
                assert(v.edges[k] == m.edges[k]);
            } else {
                assert(forall|j: int| 0 <= j < rest.len() ==> rest[j] == c.rooms[0].id);
                if last == c.rooms[0].id {
                    assert(forall|j: int| 0 <= j < ts.len() ==> ts[j] == c.rooms[0].id) by {
                        assert forall|j: int| 0 <= j < ts.len() implies ts[j] == c.rooms[0].id by {
                            if j < rest.len() {
                                assert(rest[j] == ts[j]);
                            }
                        }
                    }
                    assert(rest.len() == 1);
                    assert(rest == seq![rest[0]]);
                    assert(visit_targets(u, parent, rest.drop_last()) == u) by {
                        assert(rest.drop_last().len() == 0);
                    }
                    assert(m == visit_target(u, parent, rest[0]));
                    lemma_occurrences_push(u.targeted, rest[0], rest[0]);
                    assert(occurrences(m.targeted, last) >= 1);
                }
                let k = u.edges.len() as int;
                assert(m.edges.len() <= v.edges.len());
                assert(v.edges[m.edges.len() as int].0 == parent);
            }
        }
        // the step to `last` is the one step that adds no edge exactly when it
        // is the first step back to the first room
        assert(u.targeted + ts =~= (u.targeted + rest).push(last));
        assert(ts == rest.push(last));
        lemma_occurrences_push(rest, last, r0);
        lemma_occurrences_concat(u.targeted, rest, r0);
        let occ = occurrences(m.targeted, last);
        if !(last == r0 && occ == 0) {
            let e = (parent, lift_name(last, occ));
            assert(v.edges == m.edges.push(e));
            assert(m.edges.push(e).drop_last() =~= m.edges);
            assert forall|x: Seq<char>| x != parent implies #[trigger] out_degree(v.edges, x) == out_degree(u.edges, x) by {
                assert(out_degree(m.edges, x) == out_degree(u.edges, x));
            }
            assert forall|k: int| u.edges.len() <= k < v.edges.len() implies (#[trigger] v.edges[k]).0 == parent by {
                if k < m.edges.len() {
                    assert(v.edges[k] == m.edges[k]);
                }
            }
        } else {
            assert(v.edges == m.edges);
            assert forall|x: Seq<char>| x != parent implies #[trigger] out_degree(v.edges, x) == out_degree(u.edges, x) by {
                assert(out_degree(m.edges, x) == out_degree(u.edges, x));
            }
        }
    }
}

/// How many cover edges leave `x`.
pub open spec fn out_degree(edges: Seq<(Seq<char>, Seq<char>)>, x: Seq<char>) -> nat
    decreases edges.len(),
{
    if edges.len() == 0 {
        0
    } else {
        out_degree(edges.drop_last(), x) + (if edges.last().0 == x {
            1nat
        } else {
            0nat
        })
    }
}

proof fn lemma_occurrences_concat(s: Seq<Seq<char>>, r: Seq<Seq<char>>, x: Seq<char>)
    ensures
        occurrences(s + r, x) == occurrences(s, x) + occurrences(r, x),
    decreases r.len(),
{
    if r.len() > 0 {
        assert((s + r).drop_last() =~= s + r.drop_last());
        lemma_occurrences_concat(s, r.drop_last(), x);
    } else {
        assert(s + r =~= s);
    }
}

proof fn lemma_occurrences_contains(r: Seq<Seq<char>>, x: Seq<char>)
    ensures
        occurrences(r, x) > 0 <==> r.contains(x),
    decreases r.len(),
{
    if r.len() > 0 {
        let p = r.drop_last();
        lemma_occurrences_contains(p, x);
        assert(r =~= p.push(r.last()));
        vstd::seq_lib::lemma_seq_contains_after_push(p, r.last(), x);
    }
}

/// Lift `i` is the first lift, in order, fewer than `depth` edges down that
/// has a step back to the first room.
pub open spec fn first_step_back(
    c: ComplexView,
    lifts: Seq<Seq<char>>,
    edges: Seq<(Seq<char>, Seq<char>)>,
    proj: Seq<(Seq<char>, Seq<char>)>,
    depth: nat,
    i: int,
) -> bool {
    &&& lift_depth(lifts, edges, i) < depth
    &&& unfold_targets(c, proj[i].1).contains(c.rooms[0].id)
    &&& forall|j: int|
        #![trigger proj[j]]
        0 <= j < i ==> !(lift_depth(lifts, edges, j) < depth && unfold_targets(c, proj[j].1).contains(c.rooms[0].id))
}

/// How many cover edges leave lift `i`: one for every step from it when it
/// lies fewer than `depth` edges down, except the first step back to the first
/// room (whose lift is already there); none at the depth.
pub open spec fn expected_degree(
    c: ComplexView,
    lifts: Seq<Seq<char>>,
    edges: Seq<(Seq<char>, Seq<char>)>,
    proj: Seq<(Seq<char>, Seq<char>)>,
    depth: nat,
    i: int,
) -> int {
    if lift_depth(lifts, edges, i) < depth {
        unfold_targets(c, proj[i].1).len() - (if first_step_back(c, lifts, edges, proj, depth, i) {
            1int
        } else {
            0int
        })
    } else {
        0
    }
}

/// Every cover edge leaves a settled lift, each settled lift has as many as
/// its steps make, and a step back to the first room has been taken exactly
/// when some settled lift short of the depth has one.
/// Every edge leaves one of the lifts.
spec fn parents_settled(edges: Seq<(Seq<char>, Seq<char>)>, lifts: Seq<Seq<char>>) -> bool {
    forall|k: int| 0 <= k < edges.len() ==> lifts.contains(#[trigger] edges[k].0)
}

#[verifier::opaque]
spec fn degrees_ok(c: ComplexView, u: Unfolding, pending: Seq<(Seq<char>, Seq<char>)>, depth: nat) -> bool {
    let all = all_of(u, pending);
    let a = u.lifts.len() as int;
    let r0 = c.rooms[0].id;
    &&& parents_settled(u.edges, u.lifts)
    &&& forall|i: int| 0 <= i < a ==> out_degree(u.edges, #[trigger] u.lifts[i]) == expected_degree(c, all, u.edges, u.proj, depth, i)
    &&& (occurrences(u.targeted, r0) > 0 <==> exists|j: int|
        #![trigger u.proj[j]]
        0 <= j < a && lift_depth(all, u.edges, j) < depth && unfold_targets(c, u.proj[j].1).contains(r0))
}

proof fn lemma_out_degree_none(edges: Seq<(Seq<char>, Seq<char>)>, x: Seq<char>)
    requires
        forall|k: int| 0 <= k < edges.len() ==> (#[trigger] edges[k]).0 != x,
    ensures
        out_degree(edges, x) == 0,
    decreases edges.len(),
{
    if edges.len() > 0 {
        let p = edges.drop_last();
        assert forall|k: int| 0 <= k < p.len() implies (#[trigger] p[k]).0 != x by {
            assert(p[k] == edges[k]);
        }
        lemma_out_degree_none(p, x);
        assert(edges[edges.len() - 1] == edges.last());
    }
}

proof fn lemma_expected_degree_stable(
    c: ComplexView,
    all: Seq<Seq<char>>,
    edges: Seq<(Seq<char>, Seq<char>)>,
    proj: Seq<(Seq<char>, Seq<char>)>,
    all2: Seq<Seq<char>>,
    edges2: Seq<(Seq<char>, Seq<char>)>,
    proj2: Seq<(Seq<char>, Seq<char>)>,
    depth: nat,
    i: int,
)
    requires
        0 <= i,
        forall|j: int| 0 <= j <= i ==> #[trigger] proj2[j] == proj[j],
        forall|j: int| 0 <= j <= i ==> #[trigger] lift_depth(all2, edges2, j) == lift_depth(all, edges, j),
    ensures
        expected_degree(c, all2, edges2, proj2, depth, i) == expected_degree(c, all, edges, proj, depth, i),
        first_step_back(c, all2, edges2, proj2, depth, i) == first_step_back(c, all, edges, proj, depth, i),
{
    assert(proj2[i] == proj[i]);
    assert(lift_depth(all2, edges2, i) == lift_depth(all, edges, i));
    assert forall|j: int| 0 <= j < i implies (lift_depth(all2, edges2, j) < depth && unfold_targets(c, proj2[j].1).contains(
        c.rooms[0].id,
    )) == (lift_depth(all, edges, j) < depth && unfold_targets(c, proj[j].1).contains(c.rooms[0].id)) by {
        assert(proj2[j] == proj[j]);
        assert(lift_depth(all2, edges2, j) == lift_depth(all, edges, j));
    }
}

#[verifier::spinoff_prover]
proof fn lemma_settle_item_layered(
    c: ComplexView,
    u: Unfolding,
    item: (Seq<char>, Seq<char>),
    rest: Seq<(Seq<char>, Seq<char>)>,
    layer: nat,
    depth: nat,
)
    requires
        c.rooms.len() > 0,
        unfolding_ok(c, u, seq![item] + rest, start_lift(c)),
        layered(c, u, seq![item] + rest, layer, depth),
        expanded_below(c, u, seq![item] + rest, depth, u.lifts.len() as int),
        degrees_ok(c, u, seq![item] + rest, depth),
    ensures
        ({
            let v = settle_item(c, u, item, layer < depth);
            &&& layered(c, v, rest, layer, depth)
            &&& expanded_below(c, v, rest, depth, v.lifts.len() as int)
            &&& degrees_ok(c, v, rest, depth)
        }),
{
    let expand = layer < depth;
    let pend = seq![item] + rest;
    let u1 = Unfolding { lifts: u.lifts.push(item.0), proj: u.proj.push(item), ..u };
    lemma_settle_item(c, u, item, rest, false, start_lift(c));
    assert(settle_item(c, u, item, false) == u1);
    let a = u.lifts.len() as int;
    let all = all_of(u, pend);
    assert(item_names(pend) =~= seq![item.0] + item_names(rest));
    assert(all_of(u1, rest) =~= all);
    assert(layered(c, u1, rest, layer, depth)) by {
        assert forall|i: int| 0 <= i < a + 1 implies #[trigger] lift_depth(all, u.edges, i) <= layer by {
            if i < a {
                assert(lift_depth(all, u.edges, i) <= layer);
            } else {
                assert(lift_depth(all, u.edges, i) == layer);
            }
        }
        assert forall|i: int| a + 1 <= i < a + 1 + rest.len() implies #[trigger] lift_depth(all, u.edges, i) == layer by {
            assert(a <= i < a + pend.len());
        }
    }
    assert(lift_depth(all, u.edges, a) == layer);
    assert(u1.proj[a] == item);
    assert forall|i: int| 0 <= i < a implies u1.proj[i] == u.proj[i] && u1.lifts[i] == u.lifts[i] by {}
    if expand {
        let ts = unfold_targets(c, item.1);
        lemma_steps_are_nodes(c, item.1);
        assert forall|k: int| 0 <= k < ts.len() implies unfold_targets(c, u1.proj[a].1).contains(#[trigger] ts[k])
            && is_node(c, ts[k]) by {}
        assert(u1.lifts[a] == item.0);
        lemma_visit_targets_layered(c, u1, item.0, ts, rest, a, layer, depth);
        let v = visit_targets(u1, item.0, ts);
        assert(v == settle_item(c, u, item, expand));
        let all2 = all_of(v, rest);
        assert forall|i: int|
            #![trigger v.proj[i]]
            0 <= i < v.lifts.len() && lift_depth(all2, v.edges, i) < depth && leads_on(c, v.proj[i].1) implies exists|k: int|
                0 <= k < v.edges.len() && (#[trigger] v.edges[k]).0 == v.lifts[i] by {
            assert(lift_depth(all2, v.edges, i) == lift_depth(all, u.edges, i));
            if i < a {
                assert(u.proj[i] == v.proj[i]);
                let k = choose|k: int| 0 <= k < u.edges.len() && (#[trigger] u.edges[k]).0 == u.lifts[i];
                assert(v.edges[k] == u.edges[k]);
            } else {
                assert(v.proj[i] == item);
            }
        }
        assert(v.lifts == u1.lifts && v.proj == u1.proj);
        lemma_settle_degrees(c, u, item, rest, pend, v, all, all2, ts, depth, expand);
    } else {
        assert(settle_item(c, u, item, expand) == u1);
        assert forall|i: int|
            #![trigger u1.proj[i]]
            0 <= i < u1.lifts.len() && lift_depth(all, u1.edges, i) < depth && leads_on(c, u1.proj[i].1) implies exists|k: int|
                0 <= k < u1.edges.len() && (#[trigger] u1.edges[k]).0 == u1.lifts[i] by {
            if i < a {
                assert(u.proj[i] == u1.proj[i]);
            }
        }
        lemma_settle_degrees(c, u, item, rest, pend, u1, all, all, unfold_targets(c, item.1), depth, expand);
    }
}

/// What settling one lift does to the count of cover edges below each lift.
proof fn lemma_settle_degrees(
    c: ComplexView,
    u: Unfolding,
    item: (Seq<char>, Seq<char>),
    rest: Seq<(Seq<char>, Seq<char>)>,
    pend: Seq<(Seq<char>, Seq<char>)>,
    v: Unfolding,
    all: Seq<Seq<char>>,
    all2: Seq<Seq<char>>,
    ts: Seq<Seq<char>>,
    depth: nat,
    expand: bool,
)
    requires
        c.rooms.len() > 0,
        pend == seq![item] + rest,
        all == all_of(u, pend),
        all2 == all_of(v, rest),
        all.no_duplicates(),
        all.len() > u.lifts.len(),
        all[u.lifts.len() as int] == item.0,
        forall|i: int| 0 <= i < u.lifts.len() ==> #[trigger] all[i] == u.lifts[i],
        degrees_ok(c, u, pend, depth),
        ts == unfold_targets(c, item.1),
        v.lifts == u.lifts.push(item.0),
        u.proj.len() == u.lifts.len(),
        v.proj == u.proj.push(item),
        forall|j: int| 0 <= j <= u.lifts.len() ==> #[trigger] lift_depth(all2, v.edges, j) == lift_depth(all, u.edges, j),
        expand <==> lift_depth(all, u.edges, u.lifts.len() as int) < depth,
        expand ==> {
            &&& v.targeted == u.targeted + ts
            &&& u.edges.len() <= v.edges.len()
            &&& forall|k: int| 0 <= k < u.edges.len() ==> #[trigger] v.edges[k] == u.edges[k]
            &&& forall|k: int| u.edges.len() <= k < v.edges.len() ==> (#[trigger] v.edges[k]).0 == item.0
            &&& out_degree(v.edges, item.0) + (if occurrences(u.targeted, c.rooms[0].id) == 0 && occurrences(
                ts,
                c.rooms[0].id,
            ) > 0 {
                1int
            } else {
                0int
            }) == out_degree(u.edges, item.0) + ts.len()
            &&& forall|x: Seq<char>| x != item.0 ==> #[trigger] out_degree(v.edges, x) == out_degree(u.edges, x)
        },
        !expand ==> v.edges == u.edges && v.targeted == u.targeted,
    ensures
        degrees_ok(c, v, rest, depth),
{
    reveal(degrees_ok);
    let a = u.lifts.len() as int;
    let r0 = c.rooms[0].id;
    // the lift being settled has no cover edge below it yet
    assert forall|k: int| 0 <= k < u.edges.len() implies (#[trigger] u.edges[k]).0 != item.0 by {
        assert(u.lifts.contains(u.edges[k].0));
        let i = choose|i: int| 0 <= i < a && u.lifts[i] == u.edges[k].0;
        assert(all[i] == u.lifts[i]);
    }
    lemma_out_degree_none(u.edges, item.0);
    assert forall|i: int| 0 <= i < a implies u.lifts[i] != item.0 by {
        assert(all[i] == u.lifts[i]);
    }
    if !expand {
        assert(forall|x: Seq<char>| #[trigger] out_degree(v.edges, x) == out_degree(u.edges, x));
        assert(forall|k: int| 0 <= k < u.edges.len() ==> #[trigger] v.edges[k] == u.edges[k]);
    }
    lemma_parents_after(u.edges, v.edges, u.lifts, v.lifts, item.0);
    lemma_old_degrees_kept(c, u, v, all, all2, item, depth);
    lemma_first_back_now(c, u, item, all, ts, depth, expand);
    lemma_new_degree(c, u, v, all, all2, item, ts, depth, expand);
    lemma_back_flag_after(c, u, v, all, all2, item, ts, depth, expand);
}

proof fn lemma_parents_after(
    ue: Seq<(Seq<char>, Seq<char>)>,
    ve: Seq<(Seq<char>, Seq<char>)>,
    ul: Seq<Seq<char>>,
    vl: Seq<Seq<char>>,
    parent: Seq<char>,
)
    requires
        parents_settled(ue, ul),
        vl == ul.push(parent),
        ue.len() <= ve.len(),
        forall|k: int| 0 <= k < ue.len() ==> #[trigger] ve[k] == ue[k],
        forall|k: int| ue.len() <= k < ve.len() ==> (#[trigger] ve[k]).0 == parent,
    ensures
        parents_settled(ve, vl),
{
    assert forall|k: int| 0 <= k < ve.len() implies vl.contains(#[trigger] ve[k].0) by {
        if k < ue.len() {
            assert(ve[k] == ue[k]);
            assert(ul.contains(ue[k].0));
            vstd::seq_lib::lemma_seq_contains_after_push(ul, parent, ue[k].0);
        } else {
            assert(vl[ul.len() as int] == parent);
        }
    }
}

proof fn lemma_old_degrees_kept(
    c: ComplexView,
    u: Unfolding,
    v: Unfolding,
    all: Seq<Seq<char>>,
    all2: Seq<Seq<char>>,
    item: (Seq<char>, Seq<char>),
    depth: nat,
)
    requires
        u.proj.len() == u.lifts.len(),
        v.lifts == u.lifts.push(item.0),
        v.proj == u.proj.push(item),
        forall|i: int| 0 <= i < u.lifts.len() ==> u.lifts[i] != item.0,
        forall|x: Seq<char>| x != item.0 ==> #[trigger] out_degree(v.edges, x) == out_degree(u.edges, x),
        forall|j: int| 0 <= j <= u.lifts.len() ==> #[trigger] lift_depth(all2, v.edges, j) == lift_depth(all, u.edges, j),
        forall|i: int| 0 <= i < u.lifts.len() ==> out_degree(u.edges, #[trigger] u.lifts[i]) == expected_degree(c, all, u.edges, u.proj, depth, i),
    ensures
        forall|i: int| 0 <= i < u.lifts.len() ==> out_degree(v.edges, #[trigger] v.lifts[i]) == expected_degree(c, all2, v.edges, v.proj, depth, i),
{
    assert forall|i: int| 0 <= i < u.lifts.len() implies out_degree(v.edges, #[trigger] v.lifts[i]) == expected_degree(
        c,
        all2,
        v.edges,
        v.proj,
        depth,
        i,
    ) by {
        assert(v.lifts[i] == u.lifts[i]);
        assert(out_degree(u.edges, u.lifts[i]) == expected_degree(c, all, u.edges, u.proj, depth, i));
        assert forall|j: int| 0 <= j <= i implies #[trigger] v.proj[j] == u.proj[j] by {}
        lemma_expected_degree_stable(c, all, u.edges, u.proj, all2, v.edges, v.proj, depth, i);
    }
}

proof fn lemma_first_back_now(
    c: ComplexView,
    u: Unfolding,
    item: (Seq<char>, Seq<char>),
    all: Seq<Seq<char>>,
    ts: Seq<Seq<char>>,
    depth: nat,
    expand: bool,
)
    requires
        u.proj.len() == u.lifts.len(),
        ts == unfold_targets(c, item.1),
        expand <==> lift_depth(all, u.edges, u.lifts.len() as int) < depth,
        (occurrences(u.targeted, c.rooms[0].id) > 0 <==> exists|j: int|
            #![trigger u.proj[j]]
            0 <= j < u.lifts.len() && lift_depth(all, u.edges, j) < depth && unfold_targets(c, u.proj[j].1).contains(
                c.rooms[0].id,
            )),
    ensures
        first_step_back(c, all, u.edges, u.proj.push(item), depth, u.lifts.len() as int) == (expand && ts.contains(
            c.rooms[0].id,
        ) && occurrences(u.targeted, c.rooms[0].id) == 0),
{
    let a = u.lifts.len() as int;
    let r0 = c.rooms[0].id;
    let p = u.proj.push(item);
    assert(p[a] == item);
    if first_step_back(c, all, u.edges, p, depth, a) {
        if occurrences(u.targeted, r0) > 0 {
            let j = choose|j: int|
                #![trigger u.proj[j]]
                0 <= j < a && lift_depth(all, u.edges, j) < depth && unfold_targets(c, u.proj[j].1).contains(r0);
            assert(p[j] == u.proj[j]);
        }
    }
    if expand && ts.contains(r0) && occurrences(u.targeted, r0) == 0 {
        assert forall|j: int|
            #![trigger p[j]]
            0 <= j < a implies !(lift_depth(all, u.edges, j) < depth && unfold_targets(c, p[j].1).contains(r0)) by {
            assert(p[j] == u.proj[j]);
        }
    }
}

proof fn lemma_new_degree(
    c: ComplexView,
    u: Unfolding,
    v: Unfolding,
    all: Seq<Seq<char>>,
    all2: Seq<Seq<char>>,
    item: (Seq<char>, Seq<char>),
    ts: Seq<Seq<char>>,
    depth: nat,
    expand: bool,
)
    requires
        u.proj.len() == u.lifts.len(),
        v.proj == u.proj.push(item),
        ts == unfold_targets(c, item.1),
        out_degree(u.edges, item.0) == 0,
        expand <==> lift_depth(all, u.edges, u.lifts.len() as int) < depth,
        forall|j: int| 0 <= j <= u.lifts.len() ==> #[trigger] lift_depth(all2, v.edges, j) == lift_depth(all, u.edges, j),
        first_step_back(c, all, u.edges, u.proj.push(item), depth, u.lifts.len() as int) == (expand && ts.contains(
            c.rooms[0].id,
        ) && occurrences(u.targeted, c.rooms[0].id) == 0),
        expand ==> out_degree(v.edges, item.0) + (if occurrences(u.targeted, c.rooms[0].id) == 0 && occurrences(
            ts,
            c.rooms[0].id,
        ) > 0 {
            1int
        } else {
            0int
        }) == out_degree(u.edges, item.0) + ts.len(),
        !expand ==> v.edges == u.edges,
    ensures
        out_degree(v.edges, item.0) == expected_degree(c, all2, v.edges, v.proj, depth, u.lifts.len() as int),
{
    let a = u.lifts.len() as int;
    lemma_occurrences_contains(ts, c.rooms[0].id);
    assert forall|j: int| 0 <= j <= a implies #[trigger] v.proj[j] == u.proj.push(item)[j] by {}
    lemma_expected_degree_stable(c, all, u.edges, u.proj.push(item), all2, v.edges, v.proj, depth, a);
    assert(u.proj.push(item)[a] == item);
}

proof fn lemma_back_flag_after(
    c: ComplexView,
    u: Unfolding,
    v: Unfolding,
    all: Seq<Seq<char>>,
    all2: Seq<Seq<char>>,
    item: (Seq<char>, Seq<char>),
    ts: Seq<Seq<char>>,
    depth: nat,
    expand: bool,
)
    requires
        u.proj.len() == u.lifts.len(),
        v.lifts == u.lifts.push(item.0),
        v.proj == u.proj.push(item),
        ts == unfold_targets(c, item.1),
        expand <==> lift_depth(all, u.edges, u.lifts.len() as int) < depth,
        forall|j: int| 0 <= j <= u.lifts.len() ==> #[trigger] lift_depth(all2, v.edges, j) == lift_depth(all, u.edges, j),
        expand ==> v.targeted == u.targeted + ts,
        !expand ==> v.targeted == u.targeted,
        (occurrences(u.targeted, c.rooms[0].id) > 0 <==> exists|j: int|
            #![trigger u.proj[j]]
            0 <= j < u.lifts.len() && lift_depth(all, u.edges, j) < depth && unfold_targets(c, u.proj[j].1).contains(
                c.rooms[0].id,
            )),
    ensures
        (occurrences(v.targeted, c.rooms[0].id) > 0 <==> exists|j: int|
            #![trigger v.proj[j]]
            0 <= j < v.lifts.len() && lift_depth(all2, v.edges, j) < depth && unfold_targets(c, v.proj[j].1).contains(
                c.rooms[0].id,
            )),
{
    let a = u.lifts.len() as int;
    let r0 = c.rooms[0].id;
    lemma_occurrences_concat(u.targeted, ts, r0);
    lemma_occurrences_contains(ts, r0);
    assert(v.proj[a] == item);
    if occurrences(v.targeted, r0) > 0 {
        if occurrences(u.targeted, r0) > 0 {
            let j = choose|j: int|
                #![trigger u.proj[j]]
                0 <= j < a && lift_depth(all, u.edges, j) < depth && unfold_targets(c, u.proj[j].1).contains(r0);
            assert(v.proj[j] == u.proj[j]);
            assert(lift_depth(all2, v.edges, j) == lift_depth(all, u.edges, j));
        } else {
            assert(lift_depth(all2, v.edges, a) == lift_depth(all, u.edges, a));
        }
    }
    if exists|j: int|
        #![trigger v.proj[j]]
        0 <= j < a + 1 && lift_depth(all2, v.edges, j) < depth && unfold_targets(c, v.proj[j].1).contains(r0) {
        let j = choose|j: int|
            #![trigger v.proj[j]]
            0 <= j < a + 1 && lift_depth(all2, v.edges, j) < depth && unfold_targets(c, v.proj[j].1).contains(r0);
        assert(lift_depth(all2, v.edges, j) == lift_depth(all, u.edges, j));
        if j < a {
            assert(v.proj[j] == u.proj[j]);
        }
    }
}

proof fn lemma_settle_items_layered(
    c: ComplexView,
    u: Unfolding,
    items: Seq<(Seq<char>, Seq<char>)>,
    rest: Seq<(Seq<char>, Seq<char>)>,
    layer: nat,
    depth: nat,
)
    requires
        c.rooms.len() > 0,
        unfolding_ok(c, u, items + rest, start_lift(c)),
        layered(c, u, items + rest, layer, depth),
        expanded_below(c, u, items + rest, depth, u.lifts.len() as int),
        degrees_ok(c, u, items + rest, depth),
    ensures
        ({
            let v = settle_items(c, u, items, layer < depth);
            &&& layered(c, v, rest, layer, depth)
            &&& expanded_below(c, v, rest, depth, v.lifts.len() as int)
            &&& degrees_ok(c, v, rest, depth)
        }),
    decreases items.len(),
{
    let expand = layer < depth;
    if items.len() == 0 {
        assert(items + rest =~= rest);
    } else {
        let init = items.drop_last();
        let last = items.last();
        assert(init + (seq![last] + rest) =~= items + rest);
        lemma_settle_items_layered(c, u, init, seq![last] + rest, layer, depth);
        lemma_settle_items(c, u, init, seq![last] + rest, expand, start_lift(c));
        lemma_settle_item_layered(c, settle_items(c, u, init, expand), last, rest, layer, depth);
    }
}

proof fn lemma_unfold_layers_layered(
    c: ComplexView,
    u: Unfolding,
    items: Seq<(Seq<char>, Seq<char>)>,
    layer: nat,
    depth: nat,
)
    requires
        c.rooms.len() > 0,
        unfolding_ok(c, Unfolding { next: Seq::empty(), ..u }, items, start_lift(c)),
        layered(c, Unfolding { next: Seq::empty(), ..u }, items, layer, depth),
        expanded_below(c, Unfolding { next: Seq::empty(), ..u }, items, depth, u.lifts.len() as int),
        degrees_ok(c, Unfolding { next: Seq::empty(), ..u }, items, depth),
    ensures
        ({
            let r = unfold_layers(c, u, items, layer, depth);
            &&& forall|i: int| 0 <= i < r.lifts.len() ==> #[trigger] lift_depth(r.lifts, r.edges, i) <= depth
            &&& expanded_below(c, r, Seq::empty(), depth, r.lifts.len() as int)
            &&& forall|i: int| 0 <= i < r.lifts.len() ==> out_degree(r.edges, #[trigger] r.lifts[i]) == expected_degree(
                c,
                r.lifts,
                r.edges,
                r.proj,
                depth,
                i,
            )
        }),
    decreases depth - layer,
{
    let expand = layer < depth;
    let u0 = Unfolding { next: Seq::empty(), ..u };
    let e = Seq::<(Seq<char>, Seq<char>)>::empty();
    assert(items + e =~= items);
    lemma_settle_items_layered(c, u0, items, e, layer, depth);
    lemma_settle_items(c, u0, items, e, expand, start_lift(c));
    let u1 = settle_items(c, u0, items, expand);
    if expand && u1.next.len() > 0 {
        let u2 = Unfolding { next: Seq::empty(), ..u1 };
        assert(all_of(u2, u1.next) =~= all_of(u1, e));
        assert(u2.lifts + item_names(u1.next) + item_names(u2.next) =~= u1.lifts + item_names(e) + item_names(u1.next));
        assert(u2.proj.map_values(|p: (Seq<char>, Seq<char>)| p.1) + item_places(u1.next) + item_places(u2.next)
            =~= u1.proj.map_values(|p: (Seq<char>, Seq<char>)| p.1) + item_places(e) + item_places(u1.next));
        assert(unfolding_ok(c, u2, u1.next, start_lift(c)));
        let all = all_of(u1, e);
        assert(layered(c, u2, u1.next, layer + 1, depth)) by {
            assert forall|i: int| 0 <= i < u2.lifts.len() implies #[trigger] lift_depth(all, u2.edges, i) <= layer + 1 by {
                assert(lift_depth(all, u1.edges, i) <= layer);
            }
            assert forall|i: int| u2.lifts.len() <= i < u2.lifts.len() + u1.next.len() implies #[trigger] lift_depth(all, u2.edges, i) == layer + 1 by {
                assert(lift_depth(all, u1.edges, i) == layer + 1);
            }
        }
        assert(degrees_ok(c, u2, u1.next, depth)) by {
            reveal(degrees_ok);
        }
        lemma_unfold_layers_layered(c, u1, u1.next, layer + 1, depth);
    } else {
        assert(u1.next.len() == 0);
        let all = all_of(u1, e);
        assert(all =~= u1.lifts);
        reveal(degrees_ok);
        assert forall|i: int| 0 <= i < u1.lifts.len() implies #[trigger] lift_depth(u1.lifts, u1.edges, i) <= depth by {
            assert(lift_depth(all, u1.edges, i) <= layer);
        }
    }
}

/// The unfolding to `depth` goes exactly as deep as asked, however small the
/// complex: no lift lies more than `depth` cover edges below the first lift;
/// every lift fewer than `depth` edges down whose room leads on (somewhere
/// other than back to the first lift) has a cover edge below it; and every
/// lift has one cover edge below it for each step from its room (exits, then
/// warps) when it lies fewer than `depth` edges down, save only the first step
/// back to the first room, and none at the depth.
pub proof fn law_unfolding_reaches_depth(c: ComplexView, depth: nat)
    requires
        c.rooms.len() > 0,
    ensures
        ({
            let u = unfolding(c, depth);
            &&& hangs_below(u.lifts, u.edges)
            &&& forall|i: int| 0 <= i < u.lifts.len() ==> #[trigger] lift_depth(u.lifts, u.edges, i) <= depth
            &&& forall|i: int|
                0 <= i < u.lifts.len() && lift_depth(u.lifts, u.edges, i) < depth && leads_on(c, #[trigger] u.proj[i].1)
                    ==> exists|k: int| 0 <= k < u.edges.len() && (#[trigger] u.edges[k]).0 == u.lifts[i]
            &&& forall|i: int|
                0 <= i < u.lifts.len() ==> out_degree(u.edges, #[trigger] u.lifts[i]) == expected_degree(
                    c,
                    u.lifts,
                    u.edges,
                    u.proj,
                    depth,
                    i,
                )
        }),
{
    lemma_unfolding_shape(c, depth);
    let l0 = start_lift(c);
    let items = seq![(l0, c.rooms[0].id)];
    let u0 = start_state(c);
    assert(Unfolding { next: Seq::empty(), ..u0 } =~= u0);
    let all = all_of(u0, items);
    assert(all =~= seq![l0]);
    let places = u0.proj.map_values(|p: (Seq<char>, Seq<char>)| p.1) + item_places(items) + item_places(u0.next);
    assert(places =~= seq![c.rooms[0].id]);
    assert(is_node(c, places[0]));
    assert(unfolding_ok(c, u0, items, l0));
    assert(lift_depth(all, u0.edges, 0) == 0);
    assert(layered(c, u0, items, 0, depth));
    assert(degrees_ok(c, u0, items, depth)) by {
        reveal(degrees_ok);
        assert(occurrences(u0.targeted, c.rooms[0].id) == 0);
    }
    lemma_unfold_layers_layered(c, u0, items, 0, depth);
    let u = unfolding(c, depth);
    let e = Seq::<(Seq<char>, Seq<char>)>::empty();
    lemma_unfold_layers(c, u0, items, 0, depth, l0);
    assert(all_of(u, e) =~= u.lifts);
    assert forall|i: int|
        0 <= i < u.lifts.len() && lift_depth(u.lifts, u.edges, i) < depth && leads_on(c, #[trigger] u.proj[i].1)
            implies exists|k: int| 0 <= k < u.edges.len() && (#[trigger] u.edges[k]).0 == u.lifts[i] by {
        assert(lift_depth(all_of(u, e), u.edges, i) < depth);
    }
}

proof fn lemma_warp_targets_contain(ws: Seq<WarpView>, x: Seq<char>, j: int)
    requires
        0 <= j < ws.len(),
        ws[j].from == x,
    ensures
        warp_targets(ws, x).contains(ws[j].to),
    decreases ws.len(),
{
    let rest = ws.drop_last();
    if j < ws.len() - 1 {
        assert(rest[j] == ws[j]);
        lemma_warp_targets_contain(rest, x, j);
        let k = choose|k: int| 0 <= k < warp_targets(rest, x).len() && warp_targets(rest, x)[k] == ws[j].to;
        assert(warp_targets(ws, x)[k] == warp_targets(rest, x)[k]);
    } else {
        assert(ws.last() == ws[j]);
        assert(warp_targets(ws, x)[warp_targets(rest, x).len() as int] == ws[j].to);
    }
}

/// A lift of `x` steps through every exit of the first room named `x`, in
/// order, and then through every warp that leaves `x`.
pub proof fn law_steps_are_exits_then_warps(c: ComplexView, x: Seq<char>, i: int)
    requires
        0 <= i < c.rooms.len(),
        c.rooms[i].id == x,
        forall|m: int| 0 <= m < i ==> #[trigger] c.rooms[m].id != x,
    ensures
        unfold_targets(c, x).len() >= c.rooms[i].exits.len(),
        forall|k: int| 0 <= k < c.rooms[i].exits.len() ==> #[trigger] unfold_targets(c, x)[k] == c.rooms[i].exits[k].to,
        forall|j: int| 0 <= j < c.warps.len() && c.warps[j].from == x ==> unfold_targets(c, x).contains(#[trigger] c.warps[j].to),
{
    lemma_first_room_exits(c.rooms, x, i);
    assert forall|j: int| 0 <= j < c.warps.len() && c.warps[j].from == x implies unfold_targets(c, x).contains(
        #[trigger] c.warps[j].to,
    ) by {
        lemma_warp_targets_contain(c.warps, x, j);
        let a = first_room_exits(c.rooms, x);
        let b = warp_targets(c.warps, x);
        let k = choose|k: int| 0 <= k < b.len() && b[k] == c.warps[j].to;
        assert(unfold_targets(c, x)[a.len() + k] == b[k]);
    }
}

} // verus!
