//! Simplicial homology of the room complex viewed as a 1-dimensional
//! complex (a graph): H₀ counts connected components, H₁ independent loops
//! (the cyclomatic number E − V + C), and H₂ is always zero.
use vstd::prelude::*;
use vstd::string::StringExecFns;
use crate::complex::{
    ComplexView, RoomComplex, component_count, cyclomatic_number, distinct_room_count,
    door_edge_count, room_id_seq,
};
use crate::fundamental::pi1_generators;
use crate::complex::{components_below, joined_rel, opens_component, warp_joins};
use crate::graph::{lemma_reach_by_walks, lemma_reach_mono, lemma_reach_symm, reachable};
use crate::warp::WarpView;
use crate::counting::{
    edge_list, law_edges_and_components_cover_rooms, lemma_components_are_openers, lemma_distinct_doors_count,
    lemma_forest_count, no_edge_closes,
};
use crate::complex::{door_list, unordered};
use crate::unfold::distinct_doors;
use crate::cells::build_cells;
use crate::text::{append_decimal, decimal};

verus! {

/// Homology groups H₀, H₁, H₂ as Betti numbers.
#[derive(Debug, Clone, PartialEq, Eq, Structural)]
pub struct Homology {
    /// H₀: connected components.
    pub h0: usize,
    /// H₁: independent tunnels and warps.
    pub h1: usize,
    /// H₂: voids (always 0 for graphs).
    pub h2: usize,
}

/// The first Betti number of a complex: E − V + C with E the door edges plus
/// every warp, V the number of rooms (each room counted, even when ids
/// repeat) and C the components; zero when negative.
pub open spec fn betti_one(c: ComplexView) -> nat {
    let e = door_edge_count(c) + c.warps.len();
    let v = c.rooms.len();
    if e + component_count(c) >= v {
        (e + component_count(c) - v) as nat
    } else {
        0
    }
}

/// The text of a homology triple.
pub open spec fn homology_text(h0: nat, h1: nat, h2: nat) -> Seq<char> {
    "H₀="@ + decimal(h0) + ", H₁="@ + decimal(h1) + ", H₂="@ + decimal(h2)
}

impl Homology {
    /// Zero homology (the empty space).
    pub fn zero() -> (h: Self)
        ensures
            h.h0 == 0,
            h.h1 == 0,
            h.h2 == 0,
    {
        Homology { h0: 0, h1: 0, h2: 0 }
    }

    /// The Euler characteristic χ = H₀ − H₁ + H₂.
    pub fn euler_characteristic(&self) -> (chi: isize)
        requires
            self.h0 <= isize::MAX,
            self.h1 <= isize::MAX,
            self.h2 <= isize::MAX,
            isize::MIN <= self.h0 - self.h1 + self.h2 <= isize::MAX,
        ensures
            chi == self.h0 - self.h1 + self.h2,
    {
        let a = self.h0 as isize;
        let b = self.h1 as isize;
        let d = self.h2 as isize;
        a - b + d
    }

    /// The homology triple as text: `H₀=1, H₁=2, H₂=0`.
    pub fn to_string(&self) -> (s: String)
        ensures
            s@ == homology_text(self.h0 as nat, self.h1 as nat, self.h2 as nat),
    {
        let mut s = String::from_str("H₀=");
        append_decimal(&mut s, self.h0);
        s.append(", H₁=");
        append_decimal(&mut s, self.h1);
        s.append(", H₂=");
        append_decimal(&mut s, self.h2);
        s
    }
}

/// Compute the simplicial homology of the room complex: H₀ is the number of
/// components, H₁ the cyclomatic number E − V + C, H₂ zero.
pub fn compute_homology(complex: &RoomComplex) -> (h: Homology)
    requires
        betti_one(complex@) <= usize::MAX,
    ensures
        complex@.rooms.len() == 0 ==> h.h0 == 0 && h.h1 == 0,
        complex@.rooms.len() > 0 ==> h.h0 == component_count(complex@) && h.h1 == betti_one(complex@),
        h.h2 == 0,
{
    let v = complex.rooms.len();
    if v == 0 {
        return Homology::zero();
    }
    let components = complex.connected_components();
    let h0 = components;
    let cl = build_cells(complex);
    let doors = complex.count_door_edges(&cl);
    let warps = complex.warps.len();
    proof {
        crate::complex::law_component_count_bounds(complex@);
    }
    // E + C − V cut off at zero, computed as E − (V − C) with V ≥ C
    let gap = v - components;
    let h1 = if doors >= gap {
        doors - gap + warps
    } else if warps >= gap - doors {
        warps - (gap - doors)
    } else {
        0
    };
    Homology { h0, h1, h2: 0 }
}

/// When room ids are distinct, H₁ is the cyclomatic number, and π₁ has
/// exactly H₁ generators: it is trivial exactly when H₁ is zero.
pub proof fn law_pi1_follows_h1(c: ComplexView)
    requires
        c.rooms.len() > 0,
        room_id_seq(c).no_duplicates(),
    ensures
        betti_one(c) == cyclomatic_number(c),
        pi1_generators(c).len() == betti_one(c),
        pi1_generators(c).len() == 0 <==> betti_one(c) == 0,
{
    room_id_seq(c).unique_seq_to_set();
    assert(distinct_room_count(c) == c.rooms.len());
}

/// When room ids are distinct, the Euler characteristic of the computed
/// homology is V − E: rooms minus door edges and warps.
pub proof fn law_euler_is_rooms_minus_edges(c: ComplexView)
    requires
        c.rooms.len() > 0,
        room_id_seq(c).no_duplicates(),
    ensures
        component_count(c) - betti_one(c) + 0 == c.rooms.len() - (door_edge_count(c) + c.warps.len()),
{
    law_edges_and_components_cover_rooms(c);
    room_id_seq(c).unique_seq_to_set();
}

/// The complex with one more warp.
pub open spec fn with_warp(c: ComplexView, w: WarpView) -> ComplexView {
    ComplexView { rooms: c.rooms, warps: c.warps.push(w) }
}

proof fn lemma_same_reach_with_warp(c: ComplexView, w: WarpView, x: Seq<char>, y: Seq<char>)
    requires
        reachable(joined_rel(c), w.from, w.to),
    ensures
        reachable(joined_rel(with_warp(c, w)), x, y) == reachable(joined_rel(c), x, y),
{
    let c2 = with_warp(c, w);
    assert forall|a: Seq<char>, b: Seq<char>| #[trigger] joined_rel(c)(a, b) implies joined_rel(c2)(a, b) by {
        if exists|i: int, j: int| #[trigger] crate::complex::door_joins(c, i, j, a, b) {
            let (i, j) = choose|i: int, j: int| #[trigger] crate::complex::door_joins(c, i, j, a, b);
            assert(crate::complex::door_joins(c2, i, j, a, b));
        } else {
            let k = choose|k: int| #[trigger] warp_joins(c, k, a, b);
            assert(c2.warps[k] == c.warps[k]);
            assert(warp_joins(c2, k, a, b));
        }
    }
    assert forall|a: Seq<char>, b: Seq<char>| #[trigger] joined_rel(c)(a, b) implies joined_rel(c)(b, a) by {
        if exists|i: int, j: int| #[trigger] crate::complex::door_joins(c, i, j, a, b) {
            let (i, j) = choose|i: int, j: int| #[trigger] crate::complex::door_joins(c, i, j, a, b);
            assert(crate::complex::door_joins(c, i, j, b, a));
        } else {
            let k = choose|k: int| #[trigger] warp_joins(c, k, a, b);
            assert(warp_joins(c, k, b, a));
        }
    }
    lemma_reach_symm(joined_rel(c), w.from, w.to);
    assert forall|a: Seq<char>, b: Seq<char>| #[trigger] joined_rel(c2)(a, b) implies reachable(joined_rel(c), a, b) by {
        if exists|i: int, j: int| #[trigger] crate::complex::door_joins(c2, i, j, a, b) {
            let (i, j) = choose|i: int, j: int| #[trigger] crate::complex::door_joins(c2, i, j, a, b);
            assert(crate::complex::door_joins(c, i, j, a, b));
            assert(joined_rel(c)(a, b));
            assert(crate::graph::walk_between(seq![a, b], joined_rel(c), a, b)) by {
                assert(crate::graph::step_ok(seq![a, b], joined_rel(c), 0));
            }
        } else {
            let k = choose|k: int| #[trigger] warp_joins(c2, k, a, b);
            if k < c.warps.len() {
                assert(c2.warps[k] == c.warps[k]);
                assert(warp_joins(c, k, a, b));
                assert(crate::graph::walk_between(seq![a, b], joined_rel(c), a, b)) by {
                    assert(crate::graph::step_ok(seq![a, b], joined_rel(c), 0));
                }
            } else {
                assert(c2.warps[k] == w);
            }
        }
    }
    if reachable(joined_rel(c2), x, y) {
        lemma_reach_by_walks(joined_rel(c), joined_rel(c2), x, y);
    }
    if reachable(joined_rel(c), x, y) {
        lemma_reach_mono(joined_rel(c), joined_rel(c2), x, y);
    }
}

proof fn lemma_components_with_warp(c: ComplexView, w: WarpView, m: int)
    requires
        reachable(joined_rel(c), w.from, w.to),
        m <= c.rooms.len(),
    ensures
        components_below(with_warp(c, w), m) == components_below(c, m),
    decreases m,
{
    if m > 0 {
        lemma_components_with_warp(c, w, m - 1);
        let c2 = with_warp(c, w);
        let i = m - 1;
        assert(c2.rooms == c.rooms);
        if opens_component(c2, i) {
            assert forall|j: int| 0 <= j < i implies !#[trigger] reachable(joined_rel(c), c.rooms[i].id, c.rooms[j].id) by {
                lemma_same_reach_with_warp(c, w, c.rooms[i].id, c.rooms[j].id);
                assert(!reachable(joined_rel(c2), c2.rooms[i].id, c2.rooms[j].id));
            }
        }
        if opens_component(c, i) {
            assert forall|j: int| 0 <= j < i implies !#[trigger] reachable(joined_rel(c2), c2.rooms[i].id, c2.rooms[j].id) by {
                lemma_same_reach_with_warp(c, w, c.rooms[i].id, c.rooms[j].id);
                assert(!reachable(joined_rel(c), c.rooms[i].id, c.rooms[j].id));
            }
        }
        assert(opens_component(c2, i) == opens_component(c, i));
    }
}

/// In a complex with distinct room ids, a warp between two places already in
/// one component (direction ignored) adds an independent cycle: H₀ stays,
/// H₁ grows by one, and so the Euler characteristic drops by one.
pub proof fn law_warp_in_component_adds_a_cycle(c: ComplexView, w: WarpView)
    requires
        c.rooms.len() > 0,
        room_id_seq(c).no_duplicates(),
        reachable(joined_rel(c), w.from, w.to),
    ensures
        component_count(with_warp(c, w)) == component_count(c),
        betti_one(with_warp(c, w)) == betti_one(c) + 1,
{
    lemma_components_with_warp(c, w, c.rooms.len() as int);
    law_edges_and_components_cover_rooms(c);
    room_id_seq(c).unique_seq_to_set();
}

/// A tree of rooms is contractible: when room ids are distinct and the edges
/// (each pair of places joined by doors once, each warp) join rooms, form one
/// component and never close a cycle, then H₀ = 1, H₁ = 0 (so χ = 1) and the
/// fundamental group is trivial.
pub proof fn law_tree_is_contractible(c: ComplexView)
    requires
        c.rooms.len() > 0,
        room_id_seq(c).no_duplicates(),
        forall|k: int|
            0 <= k < edge_list(c).len() ==> room_id_seq(c).contains((#[trigger] edge_list(c)[k]).0) && room_id_seq(
                c,
            ).contains(edge_list(c)[k].1),
        no_edge_closes(edge_list(c)),
        component_count(c) == 1,
    ensures
        betti_one(c) == 0,
        component_count(c) - betti_one(c) == 1,
        pi1_generators(c).len() == 0,
{
    let ids = room_id_seq(c);
    lemma_components_are_openers(c, c.rooms.len() as int);
    lemma_forest_count(ids, edge_list(c));
    let s = door_list(c.rooms);
    lemma_distinct_doors_count(s);
    let f = |p: (Seq<char>, Seq<char>)| unordered(p);
    distinct_doors(s).map_values(f).unique_seq_to_set();
    assert(edge_list(c).len() == distinct_doors(s).len() + c.warps.len());
    ids.unique_seq_to_set();
    law_pi1_follows_h1(c);
}

} // verus!
