//! A finite part of the universal cover of a room complex: every room may
//! have several lifts, a projection maps each lift back to the place it
//! lifts, and the lifts with the cover edges form a tree.
use vstd::prelude::*;
use vstd::string::StringExecFns;
use crate::complex::{
    ComplexView, RoomComplex, cyclomatic_number, door_list, door_row, lemma_door_list_take, room_id_seq,
};
use crate::fundamental::{compute_fundamental_group, pi1_generators};
use crate::complex::{
    component_count, components_below, door_at, door_joins, is_node, joined, joined_rel, lemma_walk_vertices_are_nodes,
    opens_component, warp_joins,
};
use crate::cells::{EdgeKind, kind_rel, lemma_kind_rel_joined};
use crate::graph::{is_shortest_walk, lemma_reach_mono, lemma_reach_symm, lemma_reach_trans, lemma_single_walk, reachable};
use crate::warp::Warp;
use crate::room::Room;
use crate::unfold::{
    edge_links, expected_degree, law_unfolding_reaches_depth, leads_on, lemma_tree_reach, lemma_unfolding_shape,
    lift_depth, out_degree, start_lift, string_pairs_view, strs_view, unfold_exec, unfold_targets, unfolding, warp_pairs,
};

verus! {

/// The universal cover of a room complex, unfolded to a finite depth: each
/// room of the original may have several lifts.
#[derive(Debug, PartialEq)]
pub struct Cover {
    /// The original complex.
    pub original: RoomComplex,
    /// Lift room ids (in the cover space).
    pub lifts: Vec<String>,
    /// The projection, as pairs (lift id, original room id), one per lift id.
    pub projection: Vec<(String, String)>,
    /// Edges in the cover space: (from lift, to lift).
    pub cover_edges: Vec<(String, String)>,
}

/// The mathematical value of a cover.
pub struct CoverView {
    pub original: ComplexView,
    pub lifts: Seq<Seq<char>>,
    pub projection: Seq<(Seq<char>, Seq<char>)>,
    pub edges: Seq<(Seq<char>, Seq<char>)>,
}

pub open spec fn strings_view(v: Seq<String>) -> Seq<Seq<char>> {
    v.map_values(|s: String| s@)
}

pub open spec fn pairs_view(v: Seq<(String, String)>) -> Seq<(Seq<char>, Seq<char>)> {
    v.map_values(|p: (String, String)| (p.0@, p.1@))
}

impl View for Cover {
    type V = CoverView;

    open spec fn view(&self) -> CoverView {
        CoverView {
            original: self.original@,
            lifts: strings_view(self.lifts@),
            projection: pairs_view(self.projection@),
            edges: pairs_view(self.cover_edges@),
        }
    }
}

fn clone_strings(v: &Vec<String>) -> (r: Vec<String>)
    ensures
        strings_view(r@) == strings_view(v@),
{
    let mut r: Vec<String> = Vec::new();
    let mut i: usize = 0;
    while i < v.len()
        invariant
            i <= v@.len(),
            r@.len() == i,
            forall|k: int| 0 <= k < i ==> (#[trigger] r@[k])@ == v@[k]@,
        decreases v@.len() - i,
    {
        r.push(v[i].clone());
        i = i + 1;
    }
    assert(strings_view(r@) =~= strings_view(v@));
    r
}

fn clone_pairs(v: &Vec<(String, String)>) -> (r: Vec<(String, String)>)
    ensures
        pairs_view(r@) == pairs_view(v@),
{
    let mut r: Vec<(String, String)> = Vec::new();
    let mut i: usize = 0;
    while i < v.len()
        invariant
            i <= v@.len(),
            r@.len() == i,
            forall|k: int| 0 <= k < i ==> (#[trigger] r@[k]).0@ == v@[k].0@ && r@[k].1@ == v@[k].1@,
        decreases v@.len() - i,
    {
        let p = &v[i];
        r.push((p.0.clone(), p.1.clone()));
        i = i + 1;
    }
    assert(pairs_view(r@) =~= pairs_view(v@));
    r
}

impl Clone for Cover {
    fn clone(&self) -> (r: Self)
        ensures
            r@ == self@,
    {
        Cover {
            original: self.original.clone(),
            lifts: clone_strings(&self.lifts),
            projection: clone_pairs(&self.projection),
            cover_edges: clone_pairs(&self.cover_edges),
        }
    }
}

// ───────────────────────── the cover ─────────────────────────

/// The distinct elements of `s`, in order of first occurrence.
pub open spec fn first_occurrences(s: Seq<Seq<char>>) -> Seq<Seq<char>>
    decreases s.len(),
{
    if s.len() == 0 {
        Seq::empty()
    } else {
        let p = first_occurrences(s.drop_last());
        if p.contains(s.last()) {
            p
        } else {
            p.push(s.last())
        }
    }
}

/// Every element paired with itself.
pub open spec fn diagonal(s: Seq<Seq<char>>) -> Seq<(Seq<char>, Seq<char>)> {
    s.map_values(|x: Seq<char>| (x, x))
}

/// The cover of a simply connected complex: the complex itself, every room
/// its own lift, every door and every warp an edge.
pub open spec fn identity_cover(c: ComplexView) -> CoverView {
    CoverView {
        original: c,
        lifts: room_id_seq(c),
        projection: diagonal(first_occurrences(room_id_seq(c))),
        edges: door_list(c.rooms) + warp_pairs(c.warps),
    }
}

/// The cover of `c` unfolded to `depth` layers: the complex itself when its
/// fundamental group is trivial, otherwise the tree of walks that never turn
/// straight back, from the first lift of the first room, `depth` steps deep.
pub open spec fn cover_of(c: ComplexView, depth: nat) -> CoverView {
    if c.rooms.len() == 0 || pi1_generators(c).len() == 0 {
        identity_cover(c)
    } else {
        let u = unfolding(c, depth);
        CoverView { original: c, lifts: u.lifts, projection: u.proj, edges: u.edges }
    }
}

fn identity_cover_exec(complex: &RoomComplex) -> (cv: Cover)
    ensures
        cv@ == identity_cover(complex@),
{
    let ghost c = complex@;
    let mut lifts: Vec<String> = Vec::new();
    let mut projection: Vec<(String, String)> = Vec::new();
    let mut keys: Vec<String> = Vec::new();
    let mut i: usize = 0;
    while i < complex.rooms.len()
        invariant
            c == complex@,
            i <= c.rooms.len(),
            strings_view(lifts@) == room_id_seq(c).take(i as int),
            strings_view(keys@) == first_occurrences(room_id_seq(c).take(i as int)),
            pairs_view(projection@) == diagonal(strings_view(keys@)),
        decreases c.rooms.len() - i,
    {
        let id = &complex.rooms[i].id;
        let ghost ids = room_id_seq(c);
        proof {
            assert(ids[i as int] == id@);
            assert(ids.take(i + 1).drop_last() =~= ids.take(i as int));
            assert(ids.take(i + 1).last() == id@);
        }
        let ghost lv = strings_view(lifts@);
        lifts.push(id.clone());
        assert(strings_view(lifts@) =~= ids.take(i + 1));
        let present = contains_name(&keys, id);
        if !present {
            let ghost kv = strings_view(keys@);
            let ghost pv = pairs_view(projection@);
            keys.push(id.clone());
            projection.push((id.clone(), id.clone()));
            proof {
                assert(strings_view(keys@) =~= kv.push(id@));
                assert(pairs_view(projection@) =~= pv.push((id@, id@)));
                assert(diagonal(strings_view(keys@)) =~= diagonal(kv).push((id@, id@)));
            }
        }
        i = i + 1;
    }
    assert(room_id_seq(c).take(c.rooms.len() as int) =~= room_id_seq(c));
    let mut edges: Vec<(String, String)> = Vec::new();
    let mut i: usize = 0;
    while i < complex.rooms.len()
        invariant
            c == complex@,
            i <= c.rooms.len(),
            pairs_view(edges@) == door_list(c.rooms.take(i as int)),
        decreases c.rooms.len() - i,
    {
        let room = &complex.rooms[i];
        assert(c.rooms[i as int] == room@);
        let ghost base = pairs_view(edges@);
        let mut j: usize = 0;
        while j < room.exits.len()
            invariant
                c.rooms[i as int] == room@,
                i < c.rooms.len(),
                j <= room.exits@.len(),
                pairs_view(edges@) == base + door_row(room@).take(j as int),
            decreases room.exits@.len() - j,
        {
            let ghost before = pairs_view(edges@);
            edges.push((room.id.clone(), room.exits[j].to.clone()));
            assert(door_row(room@)[j as int] == (room.id@, room.exits@[j as int].to@));
            assert(pairs_view(edges@) =~= before.push((room.id@, room.exits@[j as int].to@)));
            assert(door_row(room@).take(j + 1) =~= door_row(room@).take(j as int).push(door_row(room@)[j as int]));
            assert(pairs_view(edges@) =~= base + door_row(room@).take(j + 1));
            j = j + 1;
        }
        proof {
            lemma_door_list_take(c.rooms, i as int);
            assert(door_row(room@).take(room.exits@.len() as int) =~= door_row(room@));
        }
        i = i + 1;
    }
    assert(c.rooms.take(c.rooms.len() as int) =~= c.rooms);
    let ghost doors = pairs_view(edges@);
    let mut k: usize = 0;
    while k < complex.warps.len()
        invariant
            c == complex@,
            k <= c.warps.len(),
            pairs_view(edges@) == doors + warp_pairs(c.warps.take(k as int)),
        decreases c.warps.len() - k,
    {
        let w = &complex.warps[k];
        assert(c.warps[k as int] == w@);
        let ghost before = pairs_view(edges@);
        edges.push((w.from.clone(), w.to.clone()));
        assert(warp_pairs(c.warps.take(k + 1)) =~= warp_pairs(c.warps.take(k as int)).push((w.from@, w.to@)));
        assert(pairs_view(edges@) =~= before.push((w.from@, w.to@)));
        k = k + 1;
    }
    assert(c.warps.take(c.warps.len() as int) =~= c.warps);
    Cover { original: complex.clone(), lifts, projection, cover_edges: edges }
}

fn contains_name(v: &Vec<String>, s: &String) -> (r: bool)
    ensures
        r == strings_view(v@).contains(s@),
{
    let mut i: usize = 0;
    while i < v.len()
        invariant
            i <= v@.len(),
            forall|k: int| 0 <= k < i ==> (#[trigger] v@[k])@ != s@,
        decreases v@.len() - i,
    {
        if v[i] == *s {
            assert(strings_view(v@)[i as int] == s@);
            return true;
        }
        i = i + 1;
    }
    proof {
        if strings_view(v@).contains(s@) {
            let k = choose|k: int| 0 <= k < strings_view(v@).len() && strings_view(v@)[k] == s@;
            assert(v@[k]@ == s@);
        }
    }
    false
}

/// Build a finite approximation of the universal cover. A simply connected
/// complex is its own cover (doors and warps its edges); otherwise the
/// complex is unfolded breadth first from its first room, `depth` layers
/// deep: each lift steps through its room's exits, then through the warps
/// that leave it, to the next lift of each place reached (`t_0`, `t_1`, …);
/// a lift not seen before hangs below it, so the lifts form a tree.
pub fn universal_cover(complex: &RoomComplex, depth: usize) -> (cv: Cover)
    requires
        cyclomatic_number(complex@) <= usize::MAX,
    ensures
        cv@ == cover_of(complex@, depth as nat),
{
    let fg = compute_fundamental_group(complex);
    proof {
        assert(fg.generators@.map_values(|s: String| s@).len() == fg.generators@.len());
    }
    if fg.is_trivial() || complex.rooms.len() == 0 {
        return identity_cover_exec(complex);
    }
    let u = unfold_exec(complex, depth);
    proof {
        assert(strings_view(u.lifts@) == strs_view(u.lifts@));
        assert(pairs_view(u.proj@) == string_pairs_view(u.proj@));
        assert(pairs_view(u.edges@) == string_pairs_view(u.edges@));
    }
    Cover { original: complex.clone(), lifts: u.lifts, projection: u.proj, cover_edges: u.edges }
}

// ───────────────────────── navigating the cover ─────────────────────────

/// Cover edge `k` joins `a` and `b`, direction ignored.
pub open spec fn cover_link(cv: CoverView, a: Seq<char>, b: Seq<char>) -> bool {
    exists|k: int| 0 <= k < cv.edges.len() && (#[trigger] cv.edges[k] == (a, b) || cv.edges[k] == (b, a))
}

pub open spec fn cover_rel(cv: CoverView) -> spec_fn(Seq<char>, Seq<char>) -> bool {
    |a: Seq<char>, b: Seq<char>| cover_link(cv, a, b)
}

/// Navigation from the first lift reaches every lift (trivially so when there
/// are none).
pub open spec fn lifts_connected(cv: CoverView) -> bool {
    forall|i: int| 0 <= i < cv.lifts.len() ==> reachable(cover_rel(cv), cv.lifts[0], #[trigger] cv.lifts[i])
}

/// `x` is a lift or an end of a cover edge.
pub open spec fn in_cover(cv: CoverView, x: Seq<char>) -> bool {
    ||| cv.lifts.contains(x)
    ||| exists|k: int| 0 <= k < cv.edges.len() && (#[trigger] cv.edges[k].0 == x || cv.edges[k].1 == x)
}

impl Cover {
    /// The cover as a complex: every lift a room without doors, every cover
    /// edge a warp.
    fn as_complex(&self) -> (sc: RoomComplex)
        ensures
            sc@.rooms.len() == self@.lifts.len(),
            forall|i: int| 0 <= i < sc@.rooms.len() ==> (#[trigger] sc@.rooms[i]).id == self@.lifts[i]
                && sc@.rooms[i].exits.len() == 0,
            sc@.warps.len() == self@.edges.len(),
            forall|k: int| 0 <= k < sc@.warps.len() ==> (#[trigger] sc@.warps[k]).from == self@.edges[k].0
                && sc@.warps[k].to == self@.edges[k].1,
    {
        let mut rooms: Vec<Room> = Vec::new();
        let mut i: usize = 0;
        while i < self.lifts.len()
            invariant
                i <= self.lifts@.len(),
                rooms@.len() == i,
                forall|k: int| 0 <= k < i ==> (#[trigger] rooms@[k])@.id == self.lifts@[k]@ && rooms@[k]@.exits.len()
                    == 0,
            decreases self.lifts@.len() - i,
        {
            rooms.push(Room::new(self.lifts[i].as_str()));
            i = i + 1;
        }
        let mut warps: Vec<Warp> = Vec::new();
        let mut k: usize = 0;
        while k < self.cover_edges.len()
            invariant
                k <= self.cover_edges@.len(),
                warps@.len() == k,
                forall|m: int| 0 <= m < k ==> (#[trigger] warps@[m])@.from == self.cover_edges@[m].0@ && warps@[m]@.to
                    == self.cover_edges@[m].1@,
            decreases self.cover_edges@.len() - k,
        {
            let e = &self.cover_edges[k];
            warps.push(Warp::new(e.0.as_str(), e.1.as_str(), ""));
            k = k + 1;
        }
        RoomComplex::from_parts(rooms, warps)
    }

    /// The first lift id equal to `x` or end of a cover edge equal to `x`.
    fn locate<'a>(&'a self, x: &str) -> (r: Option<&'a str>)
        ensures
            r matches Some(s) ==> s@ == x@,
            r is None ==> !in_cover(self@, x@),
    {
        let xs = String::from_str(x);
        let mut i: usize = 0;
        while i < self.lifts.len()
            invariant
                i <= self.lifts@.len(),
                xs@ == x@,
                forall|k: int| 0 <= k < i ==> (#[trigger] self.lifts@[k])@ != x@,
            decreases self.lifts@.len() - i,
        {
            if self.lifts[i] == xs {
                return Some(self.lifts[i].as_str());
            }
            i = i + 1;
        }
        let mut k: usize = 0;
        while k < self.cover_edges.len()
            invariant
                k <= self.cover_edges@.len(),
                xs@ == x@,
                forall|m: int| 0 <= m < k ==> (#[trigger] self.cover_edges@[m]).0@ != x@ && self.cover_edges@[m].1@ != x@,
            decreases self.cover_edges@.len() - k,
        {
            let e = &self.cover_edges[k];
            if e.0 == xs {
                return Some(e.0.as_str());
            }
            if e.1 == xs {
                return Some(e.1.as_str());
            }
            k = k + 1;
        }
        proof {
            if self@.lifts.contains(x@) {
                let j = choose|j: int| 0 <= j < self@.lifts.len() && self@.lifts[j] == x@;
                assert(self.lifts@[j]@ == x@);
            }
            if exists|m: int| 0 <= m < self@.edges.len() && (#[trigger] self@.edges[m].0 == x@ || self@.edges[m].1 == x@) {
                let m = choose|m: int| 0 <= m < self@.edges.len() && (#[trigger] self@.edges[m].0 == x@ || self@.edges[m].1 == x@);
                assert(self@.edges[m] == (self.cover_edges@[m].0@, self.cover_edges@[m].1@));
            }
        }
        None
    }

    /// Project a lift back to the room it lifts.
    pub fn project(&self, lift_id: &str) -> (r: Option<&str>)
        ensures
            r is None <==> forall|k: int| 0 <= k < self@.projection.len() ==> (#[trigger] self@.projection[k]).0
                != lift_id@,
            r matches Some(s) ==> exists|k: int|
                0 <= k < self@.projection.len() && (#[trigger] self@.projection[k]).0 == lift_id@ && s@
                    == self@.projection[k].1 && forall|j: int| 0 <= j < k ==> self@.projection[j].0 != lift_id@,
    {
        let key = String::from_str(lift_id);
        let mut i: usize = 0;
        while i < self.projection.len()
            invariant
                i <= self.projection@.len(),
                key@ == lift_id@,
                forall|k: int| 0 <= k < i ==> (#[trigger] self@.projection[k]).0 != lift_id@,
            decreases self.projection@.len() - i,
        {
            let p = &self.projection[i];
            assert(self@.projection[i as int] == (p.0@, p.1@));
            if p.0 == key {
                return Some(p.1.as_str());
            }
            i = i + 1;
        }
        None
    }

    /// The number of lifts.
    pub fn lift_count(&self) -> (n: usize)
        ensures
            n == self@.lifts.len(),
    {
        self.lifts.len()
    }

    /// A shortest path between two places of the cover, following cover edges
    /// in either direction.
    pub fn find_path<'a>(&'a self, from: &'a str, to: &'a str) -> (r: Option<Vec<&'a str>>)
        ensures
            r is None <==> !reachable(cover_rel(self@), from@, to@),
            r matches Some(p) ==> is_shortest_walk(
                p@.map_values(|s: &str| s@),
                cover_rel(self@),
                from@,
                to@,
            ),
    {
        let ghost cv = self@;
        let sc = self.as_complex();
        proof {
            lemma_cover_as_complex(cv, sc@);
        }
        match sc.path_of_kind(EdgeKind::Joined, from, to) {
            None => None,
            Some(p) => {
                if p.len() == 1 {
                    let mut path: Vec<&'a str> = Vec::new();
                    path.push(to);
                    proof {
                        let pv = p@.map_values(|s: &str| s@);
                        assert(pv[0] == from@ && pv.last() == to@);
                        assert(path@.map_values(|s: &str| s@) =~= pv);
                    }
                    return Some(path);
                }
                let ghost pv = p@.map_values(|s: &str| s@);
                let mut path: Vec<&'a str> = Vec::new();
                let mut i: usize = 0;
                while i < p.len()
                    invariant
                        i <= p@.len(),
                        p@.len() > 1,
                        pv == p@.map_values(|s: &str| s@),
                        crate::graph::is_walk(pv, kind_rel(EdgeKind::Joined, sc@)),
                        forall|x: Seq<char>| is_node(sc@, x) ==> in_cover(cv, x),
                        cv == self@,
                        path@.len() == i,
                        forall|k: int| 0 <= k < i ==> (#[trigger] path@[k])@ == pv[k],
                    decreases p@.len() - i,
                {
                    proof {
                        lemma_walk_vertices_are_nodes(EdgeKind::Joined, sc@, pv, i as int);
                    }
                    match self.locate(p[i]) {
                        Some(s) => {
                            path.push(s);
                        },
                        None => {
                            assert(false);
                            return None;
                        },
                    }
                    i = i + 1;
                }
                proof {
                    assert(path@.map_values(|s: &str| s@) =~= pv);
                }
                Some(path)
            },
        }
    }
}

/// The cover's edges, seen as warps between rooms without doors, join
/// exactly what the cover's edges join; its vertices are the cover's places.
proof fn lemma_cover_as_complex(cv: CoverView, sc: ComplexView)
    requires
        sc.rooms.len() == cv.lifts.len(),
        forall|i: int| 0 <= i < sc.rooms.len() ==> (#[trigger] sc.rooms[i]).id == cv.lifts[i] && sc.rooms[i].exits.len()
            == 0,
        sc.warps.len() == cv.edges.len(),
        forall|k: int| 0 <= k < sc.warps.len() ==> (#[trigger] sc.warps[k]).from == cv.edges[k].0 && sc.warps[k].to
            == cv.edges[k].1,
    ensures
        kind_rel(EdgeKind::Joined, sc) == cover_rel(cv),
        forall|x: Seq<char>| is_node(sc, x) ==> in_cover(cv, x),
{
    lemma_kind_rel_joined(sc);
    assert forall|a: Seq<char>, b: Seq<char>| #[trigger] joined(sc, a, b) == cover_link(cv, a, b) by {
        if joined(sc, a, b) {
            if exists|i: int, j: int| #[trigger] crate::complex::door_joins(sc, i, j, a, b) {
                let (i, j) = choose|i: int, j: int| #[trigger] crate::complex::door_joins(sc, i, j, a, b);
                assert(sc.rooms[i].exits.len() == 0);
            } else {
                let k = choose|k: int| #[trigger] crate::complex::warp_joins(sc, k, a, b);
                assert(cv.edges[k] == (sc.warps[k].from, sc.warps[k].to));
            }
        }
        if cover_link(cv, a, b) {
            let k = choose|k: int| 0 <= k < cv.edges.len() && (#[trigger] cv.edges[k] == (a, b) || cv.edges[k] == (b, a));
            assert(sc.warps[k].from == cv.edges[k].0);
            assert(crate::complex::warp_joins(sc, k, a, b));
        }
    }
    assert(joined_rel(sc) =~= cover_rel(cv));
    assert forall|x: Seq<char>| is_node(sc, x) implies in_cover(cv, x) by {
        if exists|i: int| 0 <= i < sc.rooms.len() && #[trigger] sc.rooms[i].id == x {
            let i = choose|i: int| 0 <= i < sc.rooms.len() && #[trigger] sc.rooms[i].id == x;
            assert(cv.lifts[i] == x);
        } else if exists|i: int, j: int| crate::complex::door_at(sc, i, j) && #[trigger] sc.rooms[i].exits[j].to == x {
            let (i, j) = choose|i: int, j: int| crate::complex::door_at(sc, i, j) && #[trigger] sc.rooms[i].exits[j].to == x;
            assert(sc.rooms[i].exits.len() == 0);
        } else {
            let k = choose|k: int| 0 <= k < sc.warps.len() && (#[trigger] sc.warps[k].from == x || sc.warps[k].to == x);
            assert(sc.warps[k].from == cv.edges[k].0);
        }
    }
}

/// Check that navigation on the cover reaches every lift from the first one,
/// that is (see `law_simply_connected_is_pairwise`), that every pair of lifts
/// is path-connected.
pub fn is_simply_connected(cover: &Cover) -> (r: bool)
    ensures
        r == lifts_connected(cover@),
{
    let ghost cv = cover@;
    if cover.lifts.len() == 0 {
        return true;
    }
    let sc = cover.as_complex();
    proof {
        lemma_cover_as_complex(cv, sc@);
    }
    let first = cover.lifts[0].as_str();
    let mut i: usize = 0;
    while i < cover.lifts.len()
        invariant
            cv == cover@,
            cv.lifts.len() > 0,
            first@ == cv.lifts[0],
            kind_rel(EdgeKind::Joined, sc@) == cover_rel(cv),
            i <= cv.lifts.len(),
            forall|k: int| 0 <= k < i ==> reachable(cover_rel(cv), cv.lifts[0], #[trigger] cv.lifts[k]),
        decreases cv.lifts.len() - i,
    {
        let to = cover.lifts[i].as_str();
        assert(to@ == cv.lifts[i as int]);
        let path = sc.path_of_kind(EdgeKind::Joined, first, to);
        if path.is_none() {
            return false;
        }
        i = i + 1;
    }
    true
}

proof fn lemma_first_occurrences_contains(s: Seq<Seq<char>>)
    ensures
        forall|x: Seq<char>| #[trigger] first_occurrences(s).contains(x) <==> s.contains(x),
    decreases s.len(),
{
    if s.len() > 0 {
        let init = s.drop_last();
        lemma_first_occurrences_contains(init);
        assert forall|x: Seq<char>| #[trigger] first_occurrences(s).contains(x) <==> s.contains(x) by {
            assert(s =~= init.push(s.last()));
            vstd::seq_lib::lemma_seq_contains_after_push(init, s.last(), x);
            vstd::seq_lib::lemma_seq_contains_after_push(first_occurrences(init), s.last(), x);
        }
    }
}

/// Every lift of a cover has a projection, and it projects onto a place of
/// the complex (a room, a door's target or a warp's end).
pub proof fn law_every_lift_projects(c: ComplexView, depth: nat)
    ensures
        forall|i: int| 0 <= i < cover_of(c, depth).lifts.len() ==> exists|k: int|
            0 <= k < cover_of(c, depth).projection.len() && (#[trigger] cover_of(c, depth).projection[k]).0
                == #[trigger] cover_of(c, depth).lifts[i] && is_node(c, cover_of(c, depth).projection[k].1),
{
    let cv = cover_of(c, depth);
    if c.rooms.len() == 0 || pi1_generators(c).len() == 0 {
        let ids = room_id_seq(c);
        let f = first_occurrences(ids);
        lemma_first_occurrences_contains(ids);
        assert forall|i: int| 0 <= i < cv.lifts.len() implies exists|k: int|
            0 <= k < cv.projection.len() && (#[trigger] cv.projection[k]).0 == #[trigger] cv.lifts[i] && is_node(
                c,
                cv.projection[k].1,
            ) by {
            assert(cv.lifts[i] == ids[i]);
            assert(ids.contains(ids[i]));
            assert(f.contains(ids[i]));
            let k = choose|k: int| 0 <= k < f.len() && f[k] == ids[i];
            assert(cv.projection[k] == (f[k], f[k]));
            assert(c.rooms[i].id == ids[i]);
        }
    } else {
        lemma_unfolding_shape(c, depth);
        assert forall|i: int| 0 <= i < cv.lifts.len() implies exists|k: int|
            0 <= k < cv.projection.len() && (#[trigger] cv.projection[k]).0 == #[trigger] cv.lifts[i] && is_node(
                c,
                cv.projection[k].1,
            ) by {
            assert(cv.projection[i].0 == cv.lifts[i]);
        }
    }
}

/// Navigation from the first lift reaches every lift exactly when any two
/// lifts are joined by a path of cover edges.
pub proof fn law_simply_connected_is_pairwise(cv: CoverView)
    ensures
        lifts_connected(cv) <==> forall|i: int, j: int|
            0 <= i < cv.lifts.len() && 0 <= j < cv.lifts.len() ==> reachable(
                cover_rel(cv),
                #[trigger] cv.lifts[i],
                #[trigger] cv.lifts[j],
            ),
{
    let r = cover_rel(cv);
    assert forall|x: Seq<char>, y: Seq<char>| #[trigger] r(x, y) implies r(y, x) by {
        let k = choose|k: int| 0 <= k < cv.edges.len() && (#[trigger] cv.edges[k] == (x, y) || cv.edges[k] == (y, x));
    }
    if lifts_connected(cv) {
        assert forall|i: int, j: int| 0 <= i < cv.lifts.len() && 0 <= j < cv.lifts.len() implies reachable(
            r,
            #[trigger] cv.lifts[i],
            #[trigger] cv.lifts[j],
        ) by {
            assert(reachable(r, cv.lifts[0], cv.lifts[i]));
            assert(reachable(r, cv.lifts[0], cv.lifts[j]));
            lemma_reach_symm(r, cv.lifts[0], cv.lifts[i]);
            lemma_reach_trans(r, cv.lifts[i], cv.lifts[0], cv.lifts[j]);
        }
    }
    if forall|i: int, j: int|
        0 <= i < cv.lifts.len() && 0 <= j < cv.lifts.len() ==> reachable(r, #[trigger] cv.lifts[i], #[trigger] cv.lifts[j]) {
        assert forall|i: int| 0 <= i < cv.lifts.len() implies reachable(r, cv.lifts[0], #[trigger] cv.lifts[i]) by {
            assert(reachable(r, cv.lifts[0], cv.lifts[i]));
        }
    }
}

/// The unfolded cover of a complex whose fundamental group is not trivial is
/// a tree, at every depth: its lifts are distinct, the first is the first lift
/// of the first room, each later lift hangs by exactly one cover edge below an
/// earlier one (so there are one fewer edges than lifts, and no loop), every
/// cover edge follows a step of the complex (an exit of the room its parent
/// lifts, or a warp from that room, to the place its child lifts), and
/// navigation from the first lift reaches every lift.
pub proof fn law_unfolded_cover_is_a_tree(c: ComplexView, depth: nat)
    requires
        c.rooms.len() > 0,
        pi1_generators(c).len() > 0,
    ensures
        cover_of(c, depth).lifts.no_duplicates(),
        cover_of(c, depth).lifts.len() > 0,
        cover_of(c, depth).lifts[0] == start_lift(c),
        cover_of(c, depth).edges.len() + 1 == cover_of(c, depth).lifts.len(),
        forall|k: int|
            0 <= k < cover_of(c, depth).edges.len() ==> (#[trigger] cover_of(c, depth).edges[k]).1 == cover_of(
                c,
                depth,
            ).lifts[k + 1] && exists|i: int| 0 <= i <= k && cover_of(c, depth).lifts[i] == cover_of(c, depth).edges[k].0,
        forall|k: int, i: int|
            #![trigger cover_of(c, depth).edges[k], cover_of(c, depth).lifts[i]]
            0 <= k < cover_of(c, depth).edges.len() && 0 <= i <= k && cover_of(c, depth).lifts[i] == cover_of(
                c,
                depth,
            ).edges[k].0 ==> unfold_targets(c, cover_of(c, depth).projection[i].1).contains(
                cover_of(c, depth).projection[k + 1].1,
            ),
        lifts_connected(cover_of(c, depth)),
{
    lemma_unfolding_shape(c, depth);
    let u = unfolding(c, depth);
    let cv = cover_of(c, depth);
    assert(cv.lifts == u.lifts && cv.edges == u.edges && cv.projection == u.proj);
    let pl = u.proj.map_values(|p: (Seq<char>, Seq<char>)| p.1);
    assert forall|k: int, i: int|
        #![trigger cv.edges[k], cv.lifts[i]]
        0 <= k < cv.edges.len() && 0 <= i <= k && cv.lifts[i] == cv.edges[k].0 implies unfold_targets(
            c,
            cv.projection[i].1,
        ).contains(cv.projection[k + 1].1) by {
        assert(u.edges[k] == cv.edges[k] && u.lifts[i] == cv.lifts[i]);
        assert(pl[i] == cv.projection[i].1);
        assert(pl[k + 1] == cv.projection[k + 1].1);
    }
    let r = cover_rel(cv);
    assert forall|x: Seq<char>, y: Seq<char>| #[trigger] edge_links(u.edges)(x, y) implies r(x, y) by {
        let k = choose|k: int| 0 <= k < u.edges.len() && (#[trigger] u.edges[k] == (x, y) || u.edges[k] == (y, x));
        assert(cv.edges[k] == u.edges[k]);
    }
    assert forall|i: int| 0 <= i < cv.lifts.len() implies reachable(r, cv.lifts[0], #[trigger] cv.lifts[i]) by {
        lemma_tree_reach(u.lifts, u.edges, i);
        lemma_reach_mono(edge_links(u.edges), r, u.lifts[0], u.lifts[i]);
    }
}

proof fn lemma_components_below_grow(c: ComplexView, m: int, n: int)
    requires
        0 <= m <= n,
    ensures
        components_below(c, m) <= components_below(c, n),
    decreases n - m,
{
    if m < n {
        lemma_components_below_grow(c, m, n - 1);
    }
}

/// In a complex of one component every room can be reached from the first,
/// direction ignored.
proof fn lemma_one_component(c: ComplexView, i: int)
    requires
        component_count(c) == 1,
        0 <= i < c.rooms.len(),
    ensures
        reachable(joined_rel(c), c.rooms[i].id, c.rooms[0].id),
    decreases i,
{
    if i == 0 {
        lemma_single_walk(joined_rel(c), c.rooms[0].id);
    } else {
        lemma_components_below_grow(c, 1, i);
        lemma_components_below_grow(c, i + 1, c.rooms.len() as int);
        assert(opens_component(c, 0));
        assert(components_below(c, 1) == 1);
        assert(!opens_component(c, i));
        let j = choose|j: int| 0 <= j < i && #[trigger] reachable(joined_rel(c), c.rooms[i].id, c.rooms[j].id);
        lemma_one_component(c, j);
        lemma_reach_trans(joined_rel(c), c.rooms[i].id, c.rooms[j].id, c.rooms[0].id);
    }
}

proof fn lemma_door_in_list(c: ComplexView, i: int, j: int, m: int)
    requires
        door_at(c, i, j),
        i < m <= c.rooms.len(),
    ensures
        door_list(c.rooms.take(m)).contains((c.rooms[i].id, c.rooms[i].exits[j].to)),
    decreases m,
{
    lemma_door_list_take(c.rooms, m - 1);
    let a = door_list(c.rooms.take(m - 1));
    let row = door_row(c.rooms[m - 1]);
    if i == m - 1 {
        assert(door_list(c.rooms.take(m))[a.len() + j] == row[j]);
    } else {
        lemma_door_in_list(c, i, j, m - 1);
        let k = choose|k: int| 0 <= k < a.len() && a[k] == (c.rooms[i].id, c.rooms[i].exits[j].to);
        assert(door_list(c.rooms.take(m))[k] == a[k]);
    }
}

/// The cover of a complex with a trivial fundamental group is the complex
/// itself, doors and warps included; when the complex is one component,
/// navigation on that cover reaches every lift.
pub proof fn law_trivial_cover_of_one_component_is_connected(c: ComplexView, depth: nat)
    requires
        c.rooms.len() > 0,
        pi1_generators(c).len() == 0,
        component_count(c) == 1,
    ensures
        lifts_connected(cover_of(c, depth)),
{
    let cv = cover_of(c, depth);
    let r = cover_rel(cv);
    let dl = door_list(c.rooms);
    assert(c.rooms.take(c.rooms.len() as int) =~= c.rooms);
    assert forall|a: Seq<char>, b: Seq<char>| #[trigger] joined_rel(c)(a, b) implies r(a, b) by {
        if exists|i: int, j: int| #[trigger] door_joins(c, i, j, a, b) {
            let (i, j) = choose|i: int, j: int| #[trigger] door_joins(c, i, j, a, b);
            lemma_door_in_list(c, i, j, c.rooms.len() as int);
            let k = choose|k: int| 0 <= k < dl.len() && dl[k] == (c.rooms[i].id, c.rooms[i].exits[j].to);
            assert(cv.edges[k] == dl[k]);
        } else {
            let k = choose|k: int| #[trigger] warp_joins(c, k, a, b);
            assert(cv.edges[dl.len() + k] == (c.warps[k].from, c.warps[k].to));
        }
    }
    assert forall|x: Seq<char>, y: Seq<char>| #[trigger] joined_rel(c)(x, y) implies joined_rel(c)(y, x) by {
        if exists|i: int, j: int| #[trigger] door_joins(c, i, j, x, y) {
            let (i, j) = choose|i: int, j: int| #[trigger] door_joins(c, i, j, x, y);
            assert(door_joins(c, i, j, y, x));
        } else {
            let k = choose|k: int| #[trigger] warp_joins(c, k, x, y);
            assert(warp_joins(c, k, y, x));
        }
    }
    assert forall|i: int| 0 <= i < cv.lifts.len() implies reachable(r, cv.lifts[0], #[trigger] cv.lifts[i]) by {
        lemma_one_component(c, i);
        lemma_reach_symm(joined_rel(c), c.rooms[i].id, c.rooms[0].id);
        lemma_reach_mono(joined_rel(c), r, c.rooms[0].id, c.rooms[i].id);
        assert(cv.lifts[i] == c.rooms[i].id);
        assert(cv.lifts[0] == c.rooms[0].id);
    }
}

/// The unfolded cover goes `depth` layers deep, however few rooms the complex
/// has: no lift lies more than `depth` cover edges below the first lift;
/// every lift fewer than `depth` edges down whose room leads on (to some
/// place other than the first room, or by two steps or more) has a cover
/// edge leaving it; and exactly one cover edge leaves a lift for each step
/// from its room when it lies fewer than `depth` edges down, save the first
/// step back to the first room, and none leaves a lift at the depth.
pub proof fn law_unfolded_cover_reaches_depth(c: ComplexView, depth: nat)
    requires
        c.rooms.len() > 0,
        pi1_generators(c).len() > 0,
    ensures
        forall|i: int|
            0 <= i < cover_of(c, depth).lifts.len() ==> #[trigger] lift_depth(
                cover_of(c, depth).lifts,
                cover_of(c, depth).edges,
                i,
            ) <= depth,
        forall|i: int|
            0 <= i < cover_of(c, depth).lifts.len() && lift_depth(cover_of(c, depth).lifts, cover_of(c, depth).edges, i)
                < depth && leads_on(c, #[trigger] cover_of(c, depth).projection[i].1) ==> exists|k: int|
                0 <= k < cover_of(c, depth).edges.len() && (#[trigger] cover_of(c, depth).edges[k]).0 == cover_of(
                    c,
                    depth,
                ).lifts[i],
        forall|i: int|
            0 <= i < cover_of(c, depth).lifts.len() ==> out_degree(
                cover_of(c, depth).edges,
                #[trigger] cover_of(c, depth).lifts[i],
            ) == expected_degree(
                c,
                cover_of(c, depth).lifts,
                cover_of(c, depth).edges,
                cover_of(c, depth).projection,
                depth,
                i,
            ),
{
    law_unfolding_reaches_depth(c, depth);
    let u = unfolding(c, depth);
    let cv = cover_of(c, depth);
    assert(cv.lifts == u.lifts && cv.edges == u.edges && cv.projection == u.proj);
}

} // verus!
