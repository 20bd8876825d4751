//! The room complex: rooms (0-cells) joined by doors and warps (1-cells),
//! and the connectivity questions answered on it.
use vstd::prelude::*;
use vstd::string::StringExecFns;
use crate::room::{Door, DoorView, Room, RoomView};
use crate::warp::{Warp, WarpView};
use crate::cells::{
    Cells, EdgeKind, kind_edge, lemma_kind_rel_door_moves, number_of, lemma_number_of, build_cells, build_graph, cells_ok, find_name, graph_of, has_name, kind_rel,
    lemma_kind_rel_moves, lemma_kind_rel_joined, lemma_node_has_name, lemma_reach_ends_are_nodes,
    lemma_reach_transfer, lemma_walk_to_names, lemma_walk_to_numbers,
};
use crate::counting::{law_components_at_most_rooms, law_edges_and_components_cover_rooms};
use crate::graph::{
    adj_view, bfs, edge_rel, is_shortest_walk, is_walk, lemma_bfs_facts, lemma_reach_trans, lemma_single_walk,
    reachable, shortest_walk, walk_between,
};

verus! {

/// The full topological space: rooms connected by doors and warps.
#[derive(Debug, PartialEq)]
pub struct RoomComplex {
    /// All rooms (0-cells of the complex).
    pub rooms: Vec<Room>,
    /// All warps (non-trivial 1-cells).
    pub warps: Vec<Warp>,
}

/// The mathematical value of a room complex.
pub struct ComplexView {
    pub rooms: Seq<RoomView>,
    pub warps: Seq<WarpView>,
}

impl View for RoomComplex {
    type V = ComplexView;

    open spec fn view(&self) -> ComplexView {
        ComplexView {
            rooms: self.rooms@.map_values(|r: Room| r@),
            warps: self.warps@.map_values(|w: Warp| w@),
        }
    }
}

// ───────────────────────── cells and their incidences ─────────────────────────

/// Door `j` of room `i` exists.
pub open spec fn door_at(c: ComplexView, i: int, j: int) -> bool {
    &&& 0 <= i < c.rooms.len()
    &&& 0 <= j < c.rooms[i].exits.len()
}

/// Passing door `j` of room `i` takes a player from `a` to `b`: forwards from
/// the room to the door's target, or backwards when the door is bidirectional.
/// (The room holding the door, not the door's `from` field, is its source.)
pub open spec fn door_leads(c: ComplexView, i: int, j: int, a: Seq<char>, b: Seq<char>) -> bool {
    &&& door_at(c, i, j)
    &&& {
        ||| (c.rooms[i].id == a && c.rooms[i].exits[j].to == b)
        ||| (c.rooms[i].exits[j].bidirectional && c.rooms[i].exits[j].to == a && c.rooms[i].id == b)
    }
}

/// Door `j` of room `i` joins `a` and `b`, direction ignored.
pub open spec fn door_joins(c: ComplexView, i: int, j: int, a: Seq<char>, b: Seq<char>) -> bool {
    &&& door_at(c, i, j)
    &&& {
        ||| (c.rooms[i].id == a && c.rooms[i].exits[j].to == b)
        ||| (c.rooms[i].exits[j].to == a && c.rooms[i].id == b)
    }
}

/// Warp `k` takes a player from `a` to `b`.
pub open spec fn warp_leads(c: ComplexView, k: int, a: Seq<char>, b: Seq<char>) -> bool {
    &&& 0 <= k < c.warps.len()
    &&& c.warps[k].from == a
    &&& c.warps[k].to == b
}

/// Warp `k` joins `a` and `b`, direction ignored.
pub open spec fn warp_joins(c: ComplexView, k: int, a: Seq<char>, b: Seq<char>) -> bool {
    &&& 0 <= k < c.warps.len()
    &&& {
        ||| (c.warps[k].from == a && c.warps[k].to == b)
        ||| (c.warps[k].to == a && c.warps[k].from == b)
    }
}

/// One move through a door or a warp leads from `a` to `b`.
pub open spec fn moves(c: ComplexView, a: Seq<char>, b: Seq<char>) -> bool {
    ||| exists|i: int, j: int| #[trigger] door_leads(c, i, j, a, b)
    ||| exists|k: int| #[trigger] warp_leads(c, k, a, b)
}

/// One move through a door leads from `a` to `b`.
pub open spec fn door_moves(c: ComplexView, a: Seq<char>, b: Seq<char>) -> bool {
    exists|i: int, j: int| #[trigger] door_leads(c, i, j, a, b)
}

/// Some door or warp joins `a` and `b`, direction ignored.
pub open spec fn joined(c: ComplexView, a: Seq<char>, b: Seq<char>) -> bool {
    ||| exists|i: int, j: int| #[trigger] door_joins(c, i, j, a, b)
    ||| exists|k: int| #[trigger] warp_joins(c, k, a, b)
}

pub open spec fn moves_rel(c: ComplexView) -> spec_fn(Seq<char>, Seq<char>) -> bool {
    |a: Seq<char>, b: Seq<char>| moves(c, a, b)
}

pub open spec fn door_moves_rel(c: ComplexView) -> spec_fn(Seq<char>, Seq<char>) -> bool {
    |a: Seq<char>, b: Seq<char>| door_moves(c, a, b)
}

pub open spec fn joined_rel(c: ComplexView) -> spec_fn(Seq<char>, Seq<char>) -> bool {
    |a: Seq<char>, b: Seq<char>| joined(c, a, b)
}

/// `x` names a vertex of the complex: a room id, a door target, or a warp
/// endpoint.
pub open spec fn is_node(c: ComplexView, x: Seq<char>) -> bool {
    ||| exists|i: int| 0 <= i < c.rooms.len() && #[trigger] c.rooms[i].id == x
    ||| exists|i: int, j: int| door_at(c, i, j) && #[trigger] c.rooms[i].exits[j].to == x
    ||| exists|k: int| 0 <= k < c.warps.len() && (#[trigger] c.warps[k].from == x || c.warps[k].to == x)
}

/// Room `i` is the first room of its connected component: no earlier room
/// can be reached from it when doors and warps are followed in either
/// direction.
pub open spec fn opens_component(c: ComplexView, i: int) -> bool {
    forall|j: int| 0 <= j < i ==> !#[trigger] reachable(joined_rel(c), c.rooms[i].id, c.rooms[j].id)
}

/// The number of rooms among the first `m` that open a component.
pub open spec fn components_below(c: ComplexView, m: int) -> nat
    decreases m,
{
    if m <= 0 {
        0
    } else {
        components_below(c, m - 1) + (if opens_component(c, m - 1) {
            1nat
        } else {
            0nat
        })
    }
}

/// The number of connected components that hold a room (weak connectivity:
/// directions ignored; door targets and warp endpoints that are not rooms
/// still connect what they touch).
pub open spec fn component_count(c: ComplexView) -> nat {
    components_below(c, c.rooms.len() as int)
}

/// The doors of the rooms, in order, each as the pair (room id, target).
pub open spec fn door_list(rooms: Seq<RoomView>) -> Seq<(Seq<char>, Seq<char>)>
    decreases rooms.len(),
{
    if rooms.len() == 0 {
        Seq::empty()
    } else {
        door_list(rooms.drop_last()) + door_row(rooms.last())
    }
}

/// The doors of one room, each as the pair (room id, target).
pub open spec fn door_row(r: RoomView) -> Seq<(Seq<char>, Seq<char>)> {
    r.exits.map_values(|d: DoorView| (r.id, d.to))
}

/// The unordered pair of the two ends of a door.
pub open spec fn unordered(p: (Seq<char>, Seq<char>)) -> Set<Seq<char>> {
    set![p.0, p.1]
}

/// The number of door edges: doors that join the same two rooms, in either
/// direction, count once.
pub open spec fn door_edge_count(c: ComplexView) -> nat {
    door_list(c.rooms).map_values(|p: (Seq<char>, Seq<char>)| unordered(p)).to_set().len()
}

/// The number of distinct room ids.
pub open spec fn distinct_room_count(c: ComplexView) -> nat {
    room_id_seq(c).to_set().len()
}

/// The cyclomatic number E − V + C of the complex viewed as a multigraph:
/// E counts door edges plus every warp separately, V the distinct room ids,
/// C the components; a negative value counts as zero, and an empty complex
/// has none.
pub open spec fn cyclomatic_number(c: ComplexView) -> nat {
    let n = distinct_room_count(c);
    let e = door_edge_count(c) + c.warps.len();
    if n == 0 {
        0
    } else if e + component_count(c) >= n {
        (e + component_count(c) - n) as nat
    } else {
        0
    }
}

/// The places that the adjacency map of doors holds an entry for: every room
/// and the target of every bidirectional door.
pub open spec fn door_adjacency_key(c: ComplexView, x: Seq<char>) -> bool {
    ||| exists|i: int| 0 <= i < c.rooms.len() && #[trigger] c.rooms[i].id == x
    ||| exists|i: int, j: int|
        door_at(c, i, j) && c.rooms[i].exits[j].bidirectional && #[trigger] c.rooms[i].exits[j].to == x
}

/// The places that the adjacency map of doors and warps holds an entry for:
/// those of the doors and the source of every warp.
pub open spec fn adjacency_key(c: ComplexView, x: Seq<char>) -> bool {
    ||| door_adjacency_key(c, x)
    ||| exists|k: int| 0 <= k < c.warps.len() && #[trigger] c.warps[k].from == x
}

/// An adjacency map, as entries (place, neighbours): one entry for each place
/// satisfying `key`, listing each place reached in one step of `rel` once.
pub open spec fn is_adjacency_map(
    m: Seq<(Seq<char>, Seq<Seq<char>>)>,
    key: spec_fn(Seq<char>) -> bool,
    rel: spec_fn(Seq<char>, Seq<char>) -> bool,
) -> bool {
    &&& forall|k1: int, k2: int| 0 <= k1 < m.len() && 0 <= k2 < m.len() && k1 != k2 ==> (#[trigger] m[k1]).0 != (
    #[trigger] m[k2]).0
    &&& forall|x: Seq<char>| #[trigger] key(x) <==> exists|k: int| 0 <= k < m.len() && (#[trigger] m[k]).0 == x
    &&& forall|k: int| 0 <= k < m.len() ==> (#[trigger] m[k]).1.no_duplicates()
    &&& forall|k: int, y: Seq<char>| 0 <= k < m.len() ==> (#[trigger] m[k].1.contains(y) <==> rel(m[k].0, y))
}

/// The entries of an adjacency map as mathematical values.
pub open spec fn entries_view(v: Seq<(&str, Vec<&str>)>) -> Seq<(Seq<char>, Seq<Seq<char>>)> {
    v.map_values(|e: (&str, Vec<&str>)| (e.0@, e.1@.map_values(|s: &str| s@)))
}

/// The ids of the rooms, in order.
pub open spec fn room_id_seq(c: ComplexView) -> Seq<Seq<char>> {
    c.rooms.map_values(|r: RoomView| r.id)
}

// ───────────────────────── construction and access ─────────────────────────

impl Clone for RoomComplex {
    fn clone(&self) -> (r: Self)
        ensures
            r@ == self@,
    {
        let mut rooms: Vec<Room> = Vec::new();
        let mut i: usize = 0;
        while i < self.rooms.len()
            invariant
                i <= self.rooms@.len(),
                rooms@.len() == i,
                forall|k: int| 0 <= k < i ==> (#[trigger] rooms@[k])@ == self.rooms@[k]@,
            decreases self.rooms@.len() - i,
        {
            rooms.push(self.rooms[i].clone());
            i = i + 1;
        }
        let mut warps: Vec<Warp> = Vec::new();
        let mut k: usize = 0;
        while k < self.warps.len()
            invariant
                k <= self.warps@.len(),
                warps@.len() == k,
                forall|m: int| 0 <= m < k ==> (#[trigger] warps@[m])@ == self.warps@[m]@,
            decreases self.warps@.len() - k,
        {
            warps.push(self.warps[k].clone());
            k = k + 1;
        }
        let r = RoomComplex { rooms, warps };
        assert(r@.rooms =~= self@.rooms);
        assert(r@.warps =~= self@.warps);
        r
    }
}

impl Default for RoomComplex {
    fn default() -> (c: Self)
        ensures
            c@.rooms.len() == 0,
            c@.warps.len() == 0,
    {
        RoomComplex::new()
    }
}

impl RoomComplex {
    /// An empty complex.
    pub fn new() -> (c: Self)
        ensures
            c@.rooms.len() == 0,
            c@.warps.len() == 0,
    {
        RoomComplex { rooms: Vec::new(), warps: Vec::new() }
    }

    /// A complex made of the given rooms and warps.
    pub fn from_parts(rooms: Vec<Room>, warps: Vec<Warp>) -> (c: Self)
        ensures
            c@.rooms == rooms@.map_values(|r: Room| r@),
            c@.warps == warps@.map_values(|w: Warp| w@),
    {
        RoomComplex { rooms, warps }
    }

    /// Add a room.
    pub fn add_room(&mut self, room: Room)
        ensures
            final(self)@.rooms == old(self)@.rooms.push(room@),
            final(self)@.warps == old(self)@.warps,
    {
        self.rooms.push(room);
        assert(self@.rooms =~= old(self)@.rooms.push(room@));
    }

    /// Add a warp.
    pub fn add_warp(&mut self, warp: Warp)
        ensures
            final(self)@.warps == old(self)@.warps.push(warp@),
            final(self)@.rooms == old(self)@.rooms,
    {
        self.warps.push(warp);
        assert(self@.warps =~= old(self)@.warps.push(warp@));
    }

    /// The first room whose id is `id`.
    pub fn room(&self, id: &str) -> (r: Option<&Room>)
        ensures
            r is None <==> !room_id_seq(self@).contains(id@),
            r matches Some(room) ==> exists|i: int|
                0 <= i < self@.rooms.len() && self.rooms@[i] == *room && self@.rooms[i].id == id@
                    && forall|j: int| 0 <= j < i ==> #[trigger] self@.rooms[j].id != id@,
    {
        let key = String::from_str(id);
        let mut i: usize = 0;
        while i < self.rooms.len()
            invariant
                i <= self.rooms@.len(),
                key@ == id@,
                forall|j: int| 0 <= j < i ==> #[trigger] self@.rooms[j].id != id@,
            decreases self.rooms@.len() - i,
        {
            if self.rooms[i].id == key {
                assert(room_id_seq(self@)[i as int] == id@);
                return Some(&self.rooms[i]);
            }
            i = i + 1;
        }
        proof {
            if room_id_seq(self@).contains(id@) {
                let j = choose|j: int| 0 <= j < room_id_seq(self@).len() && room_id_seq(self@)[j] == id@;
                assert(self@.rooms[j].id == id@);
            }
        }
        None
    }

    /// All room ids, in order.
    pub fn room_ids(&self) -> (v: Vec<&str>)
        ensures
            v@.map_values(|s: &str| s@) == room_id_seq(self@),
    {
        let mut v: Vec<&str> = Vec::new();
        let mut i: usize = 0;
        while i < self.rooms.len()
            invariant
                i <= self.rooms@.len(),
                v@.len() == i,
                forall|k: int| 0 <= k < i ==> (#[trigger] v@[k])@ == self.rooms@[k].id@,
            decreases self.rooms@.len() - i,
        {
            v.push(self.rooms[i].id.as_str());
            i = i + 1;
        }
        assert(v@.map_values(|s: &str| s@) =~= room_id_seq(self@));
        v
    }

    /// The number of rooms.
    pub fn room_count(&self) -> (n: usize)
        ensures
            n == self@.rooms.len(),
    {
        self.rooms.len()
    }
}

impl RoomComplex {
    /// Whether `to` can be reached from `from` by moving through doors
    /// (backwards only through bidirectional ones) and warps. A room is always
    /// connected to itself.
    pub fn is_connected(&self, from: &str, to: &str) -> (r: bool)
        ensures
            r == reachable(moves_rel(self@), from@, to@),
    {
        let ghost c = self@;
        proof {
            lemma_kind_rel_moves(c);
        }
        let fs = String::from_str(from);
        let ts = String::from_str(to);
        if fs == ts {
            proof {
                lemma_single_walk(moves_rel(c), from@);
            }
            return true;
        }
        let cl = build_cells(self);
        let fu = find_name(&cl.names, &fs);
        let tu = find_name(&cl.names, &ts);
        if fu.is_none() || tu.is_none() {
            proof {
                if reachable(moves_rel(c), from@, to@) {
                    lemma_reach_ends_are_nodes(EdgeKind::Moves, c, from@, to@);
                    lemma_node_has_name(&cl, c, from@);
                    lemma_node_has_name(&cl, c, to@);
                }
            }
            return false;
        }
        let u = fu.unwrap();
        let v = tu.unwrap();
        let g = build_graph(self, &cl, EdgeKind::Moves);
        let (dist, parent) = bfs(&g, u);
        proof {
            lemma_bfs_facts(adj_view(&g), u, dist@, parent@);
            lemma_reach_transfer(adj_view(&g), &cl, c, EdgeKind::Moves, u, v);
        }
        dist[v].is_some()
    }

    /// A shortest path from `from` to `to` (fewest rooms) following moves
    /// through doors and warps, or `None` when `to` cannot be reached.
    pub fn find_path<'a>(&'a self, from: &'a str, to: &'a str) -> (r: Option<Vec<&'a str>>)
        ensures
            r is None <==> !reachable(moves_rel(self@), from@, to@),
            r matches Some(p) ==> is_shortest_walk(
                p@.map_values(|s: &str| s@),
                moves_rel(self@),
                from@,
                to@,
            ),
    {
        proof {
            lemma_kind_rel_moves(self@);
        }
        self.path_of_kind(EdgeKind::Moves, from, to)
    }

    /// Count connected components (weak connectivity: direction ignored).
    pub fn connected_components(&self) -> (n: usize)
        ensures
            n == component_count(self@),
    {
        let ghost c = self@;
        proof {
            lemma_kind_rel_joined(c);
        }
        let cl = build_cells(self);
        let g = build_graph(self, &cl, EdgeKind::Joined);
        let mut count: usize = 0;
        let mut i: usize = 0;
        while i < self.rooms.len()
            invariant
                c == self@,
                cells_ok(&cl, c),
                graph_of(adj_view(&g), &cl, c, EdgeKind::Joined),
                kind_rel(EdgeKind::Joined, c) == joined_rel(c),
                i <= c.rooms.len(),
                count <= i,
                count == components_below(c, i as int),
            decreases c.rooms.len() - i,
        {
            let u = cl.room_at[i];
            let (dist, parent) = bfs(&g, u);
            proof {
                lemma_bfs_facts(adj_view(&g), u, dist@, parent@);
            }
            let mut opens = true;
            let mut j: usize = 0;
            while j < i
                invariant
                    c == self@,
                    cells_ok(&cl, c),
                    graph_of(adj_view(&g), &cl, c, EdgeKind::Joined),
                    kind_rel(EdgeKind::Joined, c) == joined_rel(c),
                    i < c.rooms.len(),
                    u == cl.room_at@[i as int],
                    j <= i,
                    dist@.len() == g@.len(),
                    forall|w: usize| (w as int) < g@.len() ==> (#[trigger] dist@[w as int] is Some) == reachable(
                        edge_rel(adj_view(&g)),
                        u,
                        w,
                    ),
                    opens == forall|j2: int| 0 <= j2 < j ==> !#[trigger] reachable(
                        joined_rel(c),
                        c.rooms[i as int].id,
                        c.rooms[j2].id,
                    ),
                decreases i - j,
            {
                let w = cl.room_at[j];
                proof {
                    lemma_reach_transfer(adj_view(&g), &cl, c, EdgeKind::Joined, u, w);
                }
                if dist[w].is_some() {
                    opens = false;
                }
                j = j + 1;
            }
            if opens {
                count = count + 1;
            }
            i = i + 1;
        }
        count
    }
}

/// A vertex on a walk of an adjacency-list graph that starts at a vertex is a
/// vertex.
proof fn lemma_walk_vertex_bound(g: Seq<Seq<usize>>, p: Seq<usize>, i: int)
    requires
        crate::graph::adj_wf(g),
        is_walk(p, edge_rel(g)),
        (p[0] as int) < g.len(),
        0 <= i < p.len(),
    ensures
        (p[i] as int) < g.len(),
    decreases i,
{
    if i > 0 {
        lemma_walk_vertex_bound(g, p, i - 1);
        assert(crate::graph::step_ok(p, edge_rel(g), i - 1));
        let x = p[i - 1];
        let m = choose|m: int| 0 <= m < g[x as int].len() && g[x as int][m] == p[i];
        assert(g[x as int][m] == p[i]);
    }
}

spec fn pair_names_fn(cl: &Cells) -> spec_fn((usize, usize)) -> Set<Seq<char>> {
    |p: (usize, usize)| set![cl.names@[p.0 as int]@, cl.names@[p.1 as int]@]
}

spec fn name_fn(cl: &Cells) -> spec_fn(usize) -> Seq<char> {
    |x: usize| cl.names@[x as int]@
}

spec fn door_prefix(c: ComplexView, i: int, j: int) -> Seq<Set<Seq<char>>> {
    (door_list(c.rooms.take(i)) + door_row(c.rooms[i]).take(j)).map_values(
        |p: (Seq<char>, Seq<char>)| unordered(p),
    )
}

pub proof fn lemma_door_list_take(rooms: Seq<RoomView>, i: int)
    requires
        0 <= i < rooms.len(),
    ensures
        door_list(rooms.take(i + 1)) == door_list(rooms.take(i)) + door_row(rooms[i]),
{
    assert(rooms.take(i + 1).drop_last() =~= rooms.take(i));
}

/// Two ordered pairs of distinct numbers name the same unordered pair of
/// rooms exactly when they are equal.
proof fn lemma_unordered_numbers(cl: &Cells, x: usize, y: usize, x2: usize, y2: usize)
    requires
        crate::cells::distinct_names(cl.names@),
        x <= y,
        x2 <= y2,
        (y as int) < cl.names@.len(),
        (y2 as int) < cl.names@.len(),
    ensures
        (set![cl.names@[x as int]@, cl.names@[y as int]@] == set![cl.names@[x2 as int]@, cl.names@[y2 as int]@])
            == (x == x2 && y == y2),
{
    let s1 = set![cl.names@[x as int]@, cl.names@[y as int]@];
    let s2 = set![cl.names@[x2 as int]@, cl.names@[y2 as int]@];
    if s1 == s2 {
        assert(s2.contains(cl.names@[x as int]@));
        assert(s2.contains(cl.names@[y as int]@));
        assert(s1.contains(cl.names@[x2 as int]@));
        assert(s1.contains(cl.names@[y2 as int]@));
    }
}

impl RoomComplex {
    /// The number of distinct door edges.
    pub(crate) fn count_door_edges(&self, cl: &Cells) -> (e: usize)
        requires
            cells_ok(cl, self@),
        ensures
            e == door_edge_count(self@),
    {
        let ghost c = self@;
        let mut seen: Vec<(usize, usize)> = Vec::new();
        let mut i: usize = 0;
        proof {
            assert(door_prefix(c, 0, 0) =~= Seq::<Set<Seq<char>>>::empty());
            assert(seen@.map_values(pair_names_fn(cl)) =~= Seq::<Set<Seq<char>>>::empty());
        }
        while i < self.rooms.len()
            invariant
                c == self@,
                cells_ok(cl, c),
                i <= c.rooms.len(),
                forall|k: int| 0 <= k < seen@.len() ==> (#[trigger] seen@[k]).0 <= seen@[k].1 && (seen@[k].1 as int)
                    < cl.names@.len(),
                seen@.map_values(pair_names_fn(cl)).no_duplicates(),
                seen@.map_values(pair_names_fn(cl)).to_set() == door_prefix(c, i as int, 0).to_set(),
            decreases c.rooms.len() - i,
        {
            let row = &cl.exit_at[i];
            let x0 = cl.room_at[i];
            let mut j: usize = 0;
            proof {
                assert(door_prefix(c, i as int, 0) =~= door_list(c.rooms.take(i as int)).map_values(
                    |p: (Seq<char>, Seq<char>)| unordered(p),
                ));
            }
            while j < row.len()
                invariant
                    c == self@,
                    cells_ok(cl, c),
                    i < c.rooms.len(),
                    *row == cl.exit_at@[i as int],
                    x0 == cl.room_at@[i as int],
                    row@.len() == c.rooms[i as int].exits.len(),
                    j <= row@.len(),
                    forall|k: int| 0 <= k < seen@.len() ==> (#[trigger] seen@[k]).0 <= seen@[k].1 && (seen@[k].1
                        as int) < cl.names@.len(),
                    seen@.map_values(pair_names_fn(cl)).no_duplicates(),
                    seen@.map_values(pair_names_fn(cl)).to_set() == door_prefix(c, i as int, j as int).to_set(),
                decreases row@.len() - j,
            {
                let y0 = row[j];
                assert(crate::complex::door_at(c, i as int, j as int));
                let (x, y) = if x0 <= y0 {
                    (x0, y0)
                } else {
                    (y0, x0)
                };
                let ghost e = pair_names_fn(cl)((x, y));
                proof {
                    let dr = door_row(c.rooms[i as int]);
                    let a = cl.names@[x0 as int]@;
                    let b = cl.names@[y0 as int]@;
                    assert(cl.room_at@[i as int] == x0);
                    assert(a == c.rooms[i as int].id);
                    assert(cl.exit_at@[i as int]@[j as int] == y0);
                    assert(b == c.rooms[i as int].exits[j as int].to);
                    assert(e == set![cl.names@[x as int]@, cl.names@[y as int]@]);
                    assert(set![a, b] =~= set![b, a]);
                    assert(dr[j as int] == (c.rooms[i as int].id, c.rooms[i as int].exits[j as int].to));
                    assert(e == unordered(dr[j as int]));
                    assert(door_list(c.rooms.take(i as int)) + dr.take(j + 1) =~= (door_list(c.rooms.take(i as int))
                        + dr.take(j as int)).push(dr[j as int]));
                    assert(door_prefix(c, i as int, j + 1) =~= door_prefix(c, i as int, j as int).push(e));
                    door_prefix(c, i as int, j as int).lemma_push_to_set_commute(e);
                }
                let mut found = false;
                let mut k: usize = 0;
                while k < seen.len()
                    invariant
                        k <= seen@.len(),
                        x <= y,
                        (y as int) < cl.names@.len(),
                        cells_ok(cl, c),
                        forall|m: int| 0 <= m < seen@.len() ==> (#[trigger] seen@[m]).0 <= seen@[m].1 && (seen@[m].1
                            as int) < cl.names@.len(),
                        found == exists|m: int| 0 <= m < k && #[trigger] seen@[m] == (x, y),
                    decreases seen@.len() - k,
                {
                    if seen[k].0 == x && seen[k].1 == y {
                        found = true;
                    }
                    k = k + 1;
                }
                let ghost before = seen@;
                if !found {
                    seen.push((x, y));
                    proof {
                        assert(seen@.map_values(pair_names_fn(cl)) =~= before.map_values(pair_names_fn(cl)).push(e));
                        before.map_values(pair_names_fn(cl)).lemma_push_to_set_commute(e);
                        assert forall|m: int| 0 <= m < before.len() implies before.map_values(pair_names_fn(cl))[m] != e by {
                            assert(before.map_values(pair_names_fn(cl))[m] == set![cl.names@[before[m].0 as int]@, cl.names@[before[m].1 as int]@]);
                            assert(before[m].0 <= before[m].1);
                            lemma_unordered_numbers(cl, before[m].0, before[m].1, x, y);
                            assert(before[m] != (x, y));
                        }
                        assert(!before.map_values(pair_names_fn(cl)).contains(e));
                    }
                } else {
                    proof {
                        let m = choose|m: int| 0 <= m < before.len() && #[trigger] before[m] == (x, y);
                        assert(before.map_values(pair_names_fn(cl))[m] == e);
                        assert(before.map_values(pair_names_fn(cl)).to_set().contains(e));
                        assert(before.map_values(pair_names_fn(cl)).to_set().insert(e) =~= before.map_values(pair_names_fn(cl)).to_set());
                    }
                }
                j = j + 1;
            }
            proof {
                lemma_door_list_take(c.rooms, i as int);
                let dr = door_row(c.rooms[i as int]);
                assert(dr.take(dr.len() as int) =~= dr);
                assert(door_prefix(c, i + 1, 0) =~= door_prefix(c, i as int, row@.len() as int));
            }
            i = i + 1;
        }
        proof {
            assert(c.rooms.take(c.rooms.len() as int) =~= c.rooms);
            assert(door_prefix(c, c.rooms.len() as int, 0) =~= door_list(c.rooms).map_values(
                |p: (Seq<char>, Seq<char>)| unordered(p),
            ));
            seen@.map_values(pair_names_fn(cl)).unique_seq_to_set();
        }
        seen.len()
    }

    /// The number of distinct room ids.
    pub(crate) fn count_distinct_rooms(&self, cl: &Cells) -> (n: usize)
        requires
            cells_ok(cl, self@),
        ensures
            n == distinct_room_count(self@),
    {
        let ghost c = self@;
        let mut seen: Vec<usize> = Vec::new();
        let mut i: usize = 0;
        while i < self.rooms.len()
            invariant
                c == self@,
                cells_ok(cl, c),
                i <= c.rooms.len(),
                forall|k: int| 0 <= k < seen@.len() ==> (#[trigger] seen@[k] as int) < cl.names@.len(),
                seen@.map_values(name_fn(cl)).no_duplicates(),
                seen@.map_values(name_fn(cl)).to_set() == room_id_seq(c).take(i as int).to_set(),
            decreases c.rooms.len() - i,
        {
            let x = cl.room_at[i];
            let ghost e = name_fn(cl)(x);
            proof {
                assert(cl.room_at@[i as int] == x);
                assert(cl.names@[x as int]@ == c.rooms[i as int].id);
                assert(e == cl.names@[x as int]@);
                assert(e == room_id_seq(c)[i as int]);
                assert(room_id_seq(c).take(i + 1) =~= room_id_seq(c).take(i as int).push(e));
                room_id_seq(c).take(i as int).lemma_push_to_set_commute(e);
            }
            let mut found = false;
            let mut k: usize = 0;
            while k < seen.len()
                invariant
                    k <= seen@.len(),
                    found == exists|m: int| 0 <= m < k && #[trigger] seen@[m] == x,
                decreases seen@.len() - k,
            {
                if seen[k] == x {
                    found = true;
                }
                k = k + 1;
            }
            let ghost before = seen@;
            if !found {
                seen.push(x);
                proof {
                    assert(seen@.map_values(name_fn(cl)) =~= before.map_values(name_fn(cl)).push(e));
                    before.map_values(name_fn(cl)).lemma_push_to_set_commute(e);
                    assert forall|m: int| 0 <= m < before.len() implies before.map_values(name_fn(cl))[m] != e by {
                        assert(before[m] != x);
                        assert(before.map_values(name_fn(cl))[m] == cl.names@[before[m] as int]@);
                        assert(crate::cells::distinct_names(cl.names@));
                        assert(cl.names@[before[m] as int]@ != cl.names@[x as int]@);
                    }
                    assert(!before.map_values(name_fn(cl)).contains(e));
                }
            } else {
                proof {
                    let m = choose|m: int| 0 <= m < before.len() && #[trigger] before[m] == x;
                    assert(before.map_values(name_fn(cl))[m] == e);
                    assert(before.map_values(name_fn(cl)).to_set().insert(e) =~= before.map_values(name_fn(cl)).to_set());
                }
            }
            i = i + 1;
        }
        proof {
            assert(room_id_seq(c).take(c.rooms.len() as int) =~= room_id_seq(c));
            seen@.map_values(name_fn(cl)).unique_seq_to_set();
        }
        seen.len()
    }

    /// The number of independent cycles: the cyclomatic number E − V + C,
    /// where warps are always separate edges.
    pub fn cycle_count(&self) -> (n: usize)
        requires
            cyclomatic_number(self@) <= usize::MAX,
        ensures
            n == cyclomatic_number(self@),
    {
        let cl = build_cells(self);
        let n = self.count_distinct_rooms(&cl);
        if n == 0 {
            return 0;
        }
        let doors = self.count_door_edges(&cl);
        let warps = self.warps.len();
        let components = self.connected_components();
        proof {
            law_components_at_most_rooms(self@);
            law_edges_and_components_cover_rooms(self@);
        }
        // E + C − V, computed as E − (V − C): V ≥ C and E + C ≥ V
        let gap = n - components;
        if doors >= gap {
            doors - gap + warps
        } else {
            warps - (gap - doors)
        }
    }
}

/// Every vertex of a walk of more than one vertex is a vertex of the complex.
pub proof fn lemma_walk_vertices_are_nodes(kind: EdgeKind, c: ComplexView, p: Seq<Seq<char>>, i: int)
    requires
        is_walk(p, kind_rel(kind, c)),
        p.len() > 1,
        0 <= i < p.len(),
    ensures
        is_node(c, p[i]),
{
    if i < p.len() - 1 {
        assert(crate::graph::step_ok(p, kind_rel(kind, c), i));
        crate::cells::lemma_edge_ends_are_nodes(kind, c, p[i], p[i + 1]);
    } else {
        assert(crate::graph::step_ok(p, kind_rel(kind, c), i - 1));
        crate::cells::lemma_edge_ends_are_nodes(kind, c, p[i - 1], p[i]);
    }
}

impl RoomComplex {
    /// A shortest walk from `from` to `to` along edges of the given kind.
    pub(crate) fn path_of_kind<'a>(&'a self, kind: EdgeKind, from: &'a str, to: &'a str) -> (r: Option<
        Vec<&'a str>,
    >)
        ensures
            r is None <==> !reachable(kind_rel(kind, self@), from@, to@),
            r matches Some(p) ==> is_shortest_walk(
                p@.map_values(|s: &str| s@),
                kind_rel(kind, self@),
                from@,
                to@,
            ),
    {
        let ghost c = self@;
        let fs = String::from_str(from);
        let ts = String::from_str(to);
        if fs == ts {
            let mut path: Vec<&'a str> = Vec::new();
            path.push(to);
            proof {
                lemma_single_walk(kind_rel(kind, c), from@);
                let pv = path@.map_values(|s: &str| s@);
                assert(pv =~= seq![from@]);
            }
            return Some(path);
        }
        let cl = build_cells(self);
        let fu = find_name(&cl.names, &fs);
        let tu = find_name(&cl.names, &ts);
        if fu.is_none() || tu.is_none() {
            proof {
                if reachable(kind_rel(kind, c), from@, to@) {
                    lemma_reach_ends_are_nodes(kind, c, from@, to@);
                    lemma_node_has_name(&cl, c, from@);
                    lemma_node_has_name(&cl, c, to@);
                }
            }
            return None;
        }
        let u = fu.unwrap();
        let v = tu.unwrap();
        let g = build_graph(self, &cl, kind);
        proof {
            lemma_reach_transfer(adj_view(&g), &cl, c, kind, u, v);
        }
        match shortest_walk(&g, u, v) {
            None => None,
            Some(p) => {
                let ghost gv = adj_view(&g);
                let mut path: Vec<&'a str> = Vec::new();
                let mut i: usize = 0;
                while i < p.len()
                    invariant
                        gv == adj_view(&g),
                        cells_ok(&cl, c),
                        graph_of(gv, &cl, c, kind),
                        walk_between(p@, edge_rel(gv), u, v),
                        (u as int) < gv.len(),
                        i <= p@.len(),
                        path@.len() == i,
                        forall|k: int| 0 <= k < i ==> (#[trigger] path@[k])@ == cl.names@[p@[k] as int]@,
                    decreases p@.len() - i,
                {
                    proof {
                        lemma_walk_vertex_bound(gv, p@, i as int);
                    }
                    path.push(cl.names[p[i]].as_str());
                    i = i + 1;
                }
                proof {
                    lemma_walk_to_names(gv, &cl, c, kind, p@);
                    let q = p@.map_values(|x: usize| cl.names@[x as int]@);
                    let pv = path@.map_values(|s: &str| s@);
                    assert(pv =~= q);
                    assert(walk_between(q, kind_rel(kind, c), from@, to@));
                    assert forall|w: Seq<Seq<char>>| #[trigger] walk_between(w, kind_rel(kind, c), from@, to@) implies q.len()
                        <= w.len() by {
                        assert(has_name(cl.names@, w[0]));
                        let wn = lemma_walk_to_numbers(gv, &cl, c, kind, w);
                        assert(crate::cells::distinct_names(cl.names@));
                        assert(cl.names@[wn[0] as int]@ == from@);
                        assert(wn[0] == u);
                        assert(cl.names@[wn.last() as int]@ == to@);
                        assert(wn.last() == v);
                        assert(walk_between(wn, edge_rel(gv), u, v));
                    }
                }
                Some(path)
            },
        }
    }
}

spec fn kind_key(kind: EdgeKind, c: ComplexView, x: Seq<char>) -> bool {
    match kind {
        EdgeKind::DoorMoves => door_adjacency_key(c, x),
        _ => adjacency_key(c, x),
    }
}

spec fn kind_key_fn(kind: EdgeKind, c: ComplexView) -> spec_fn(Seq<char>) -> bool {
    |x: Seq<char>| kind_key(kind, c, x)
}

proof fn lemma_key_is_node(kind: EdgeKind, c: ComplexView, x: Seq<char>)
    requires
        kind_key(kind, c, x),
    ensures
        is_node(c, x),
{
    if exists|i: int| 0 <= i < c.rooms.len() && #[trigger] c.rooms[i].id == x {
    } else if exists|i: int, j: int|
        door_at(c, i, j) && c.rooms[i].exits[j].bidirectional && #[trigger] c.rooms[i].exits[j].to == x {
        let (i, j) = choose|i: int, j: int|
            door_at(c, i, j) && c.rooms[i].exits[j].bidirectional && #[trigger] c.rooms[i].exits[j].to == x;
        assert(door_at(c, i, j) && c.rooms[i].exits[j].to == x);
    } else {
        let k = choose|k: int| 0 <= k < c.warps.len() && #[trigger] c.warps[k].from == x;
        assert(0 <= k < c.warps.len() && c.warps[k].from == x);
    }
}

/// The distinct entries of a neighbour list, in order of first occurrence.
fn distinct_row(row: &Vec<usize>) -> (picked: Vec<usize>)
    ensures
        picked@.no_duplicates(),
        forall|v: usize| picked@.contains(v) <==> row@.contains(v),
{
    let mut picked: Vec<usize> = Vec::new();
    let mut r: usize = 0;
    while r < row.len()
        invariant
            r <= row@.len(),
            picked@.no_duplicates(),
            forall|v: usize| picked@.contains(v) <==> exists|q: int| 0 <= q < r && #[trigger] row@[q] == v,
        decreases row@.len() - r,
    {
        let v = row[r];
        let mut dup = false;
        let mut q: usize = 0;
        while q < picked.len()
            invariant
                q <= picked@.len(),
                dup == exists|q2: int| 0 <= q2 < q && #[trigger] picked@[q2] == v,
            decreases picked@.len() - q,
        {
            if picked[q] == v {
                dup = true;
            }
            q = q + 1;
        }
        let ghost before = picked@;
        if !dup {
            picked.push(v);
        }
        proof {
            assert forall|w: usize| picked@.contains(w) <==> exists|q2: int| 0 <= q2 < r + 1 && #[trigger] row@[q2] == w by {
                if picked@.contains(w) {
                    let k = choose|k: int| 0 <= k < picked@.len() && picked@[k] == w;
                    if k < before.len() {
                        assert(before[k] == w);
                        assert(before.contains(w));
                    } else {
                        assert(row@[r as int] == w);
                    }
                }
                if exists|q2: int| 0 <= q2 < r + 1 && #[trigger] row@[q2] == w {
                    let q2 = choose|q2: int| 0 <= q2 < r + 1 && #[trigger] row@[q2] == w;
                    if q2 < r {
                        assert(before.contains(w));
                        let k = choose|k: int| 0 <= k < before.len() && before[k] == w;
                        assert(picked@[k] == w);
                    } else if dup {
                        let k = choose|k: int| 0 <= k < before.len() && #[trigger] before[k] == v;
                        assert(picked@[k] == w);
                    } else {
                        assert(picked@[picked@.len() - 1] == w);
                    }
                }
            }
        }
        r = r + 1;
    }
    proof {
        assert forall|v: usize| picked@.contains(v) <==> row@.contains(v) by {
            if row@.contains(v) {
                let q = choose|q: int| 0 <= q < row@.len() && row@[q] == v;
                assert(row@[q] == v);
            }
        }
    }
    picked
}

impl RoomComplex {
    /// Whether the place numbered `u` holds an entry of the adjacency map.
    fn is_key(&self, cl: &Cells, kind: EdgeKind, u: usize) -> (b: bool)
        requires
            cells_ok(cl, self@),
            !(kind is Joined),
            (u as int) < cl.names@.len(),
        ensures
            b == kind_key(kind, self@, cl.names@[u as int]@),
    {
        let ghost c = self@;
        let ghost x = cl.names@[u as int]@;
        let mut i: usize = 0;
        while i < self.rooms.len()
            invariant
                c == self@,
                cells_ok(cl, c),
                (u as int) < cl.names@.len(),
                x == cl.names@[u as int]@,
                i <= c.rooms.len(),
                forall|i2: int| 0 <= i2 < i ==> #[trigger] c.rooms[i2].id != x,
                forall|i2: int, j2: int|
                    0 <= i2 < i && door_at(c, i2, j2) && c.rooms[i2].exits[j2].bidirectional ==> #[trigger] c.rooms[i2].exits[j2].to
                        != x,
            decreases c.rooms.len() - i,
        {
            assert(crate::cells::distinct_names(cl.names@));
            if cl.room_at[i] == u {
                return true;
            }
            let room = &self.rooms[i];
            assert(c.rooms[i as int] == room@);
            let mut j: usize = 0;
            while j < room.exits.len()
                invariant
                    c == self@,
                    cells_ok(cl, c),
                    (u as int) < cl.names@.len(),
                    x == cl.names@[u as int]@,
                    i < c.rooms.len(),
                    c.rooms[i as int] == room@,
                    j <= room.exits@.len(),
                    forall|j2: int|
                        0 <= j2 < j && room.exits@[j2].bidirectional ==> #[trigger] c.rooms[i as int].exits[j2].to != x,
                decreases room.exits@.len() - j,
            {
                assert(door_at(c, i as int, j as int));
                assert(c.rooms[i as int].exits[j as int] == room.exits@[j as int]@);
                if room.exits[j].bidirectional && cl.exit_at[i][j] == u {
                    proof {
                        assert(cl.names@[cl.exit_at@[i as int]@[j as int] as int]@ == c.rooms[i as int].exits[j as int].to);
                        assert(c.rooms[i as int].exits[j as int].to == x);
                        assert(door_adjacency_key(c, x));
                        assert(adjacency_key(c, x));
                        assert(kind_key(kind, c, x));
                    }
                    return true;
                }
                j = j + 1;
            }
            i = i + 1;
        }
        let doors_only = match kind {
            EdgeKind::DoorMoves => true,
            _ => false,
        };
        if doors_only {
            return false;
        }
        let mut k: usize = 0;
        while k < self.warps.len()
            invariant
                c == self@,
                cells_ok(cl, c),
                (u as int) < cl.names@.len(),
                x == cl.names@[u as int]@,
                k <= c.warps.len(),
                kind is Moves,
                forall|k2: int| 0 <= k2 < k ==> #[trigger] c.warps[k2].from != x,
            decreases c.warps.len() - k,
        {
            if cl.warp_from[k] == u {
                proof {
                    assert(cl.names@[cl.warp_from@[k as int] as int]@ == c.warps[k as int].from);
                    assert(adjacency_key(c, x));
                }
                return true;
            }
            k = k + 1;
        }
        false
    }

    /// The adjacency map of edges of the given kind (doors and warps, or
    /// doors only).
    fn adjacency_of<'a>(&'a self, kind: EdgeKind) -> (m: Vec<(&'a str, Vec<&'a str>)>)
        requires
            !(kind is Joined),
        ensures
            is_adjacency_map(entries_view(m@), kind_key_fn(kind, self@), kind_rel(kind, self@)),
    {
        let ghost c = self@;
        let cl = build_cells(self);
        let g = build_graph(self, &cl, kind);
        let mut m: Vec<(&'a str, Vec<&'a str>)> = Vec::new();
        let ghost mut keys: Seq<usize> = Seq::empty();
        let mut u: usize = 0;
        while u < cl.names.len()
            invariant
                c == self@,
                cells_ok(&cl, c),
                graph_of(adj_view(&g), &cl, c, kind),
                !(kind is Joined),
                u <= cl.names@.len(),
                keys.len() == m@.len(),
                forall|k: int| 0 <= k < keys.len() ==> (#[trigger] keys[k] as int) < u,
                forall|k1: int, k2: int| 0 <= k1 < k2 < keys.len() ==> keys[k1] < keys[k2],
                forall|k: int| 0 <= k < keys.len() ==> (#[trigger] m@[k]).0@ == cl.names@[keys[k] as int]@,
                forall|w: int| 0 <= w < u ==> (kind_key(kind, c, (#[trigger] cl.names@[w])@) <==> keys.contains(w as usize)),
                forall|k: int| 0 <= k < keys.len() ==> kind_key(kind, c, cl.names@[#[trigger] keys[k] as int]@),
                forall|k: int| 0 <= k < m@.len() ==> (#[trigger] entries_view(m@)[k]).1.no_duplicates(),
                forall|k: int, y: Seq<char>|
                    0 <= k < m@.len() ==> (#[trigger] entries_view(m@)[k].1.contains(y) <==> kind_edge(
                        kind,
                        c,
                        entries_view(m@)[k].0,
                        y,
                    )),
            decreases cl.names@.len() - u,
        {
            let ghost before_keys = keys;
            if self.is_key(&cl, kind, u) {
                let picked = distinct_row(&g[u]);
                let ghost gu = adj_view(&g)[u as int];
                assert(gu == g@[u as int]@);
                let mut nbrs: Vec<&'a str> = Vec::new();
                let mut r: usize = 0;
                while r < picked.len()
                    invariant
                        cells_ok(&cl, c),
                        graph_of(adj_view(&g), &cl, c, kind),
                        (u as int) < cl.names@.len(),
                        gu == adj_view(&g)[u as int],
                        forall|v: usize| picked@.contains(v) <==> gu.contains(v),
                        r <= picked@.len(),
                        nbrs@.len() == r,
                        forall|k: int| 0 <= k < r ==> (#[trigger] nbrs@[k])@ == cl.names@[picked@[k] as int]@,
                    decreases picked@.len() - r,
                {
                    let v = picked[r];
                    proof {
                        assert(picked@.contains(v));
                        assert(gu.contains(v));
                        let q = choose|q: int| 0 <= q < gu.len() && gu[q] == v;
                        assert(crate::graph::adj_wf(adj_view(&g)));
                        assert(gu[q] == v);
                    }
                    nbrs.push(cl.names[v].as_str());
                    r = r + 1;
                }
                proof {
                    let nv = nbrs@.map_values(|s: &str| s@);
                    assert forall|k1: int, k2: int| 0 <= k1 < nv.len() && 0 <= k2 < nv.len() && k1 != k2 implies nv[k1]
                        != nv[k2] by {
                        assert(picked@[k1] != picked@[k2]);
                        assert(picked@.contains(picked@[k1]));
                        assert(picked@.contains(picked@[k2]));
                        assert(crate::cells::distinct_names(cl.names@));
                        assert(cl.names@[picked@[k1] as int]@ != cl.names@[picked@[k2] as int]@);
                    }
                    assert forall|y: Seq<char>| nv.contains(y) <==> kind_edge(kind, c, cl.names@[u as int]@, y) by {
                        if nv.contains(y) {
                            let k = choose|k: int| 0 <= k < nv.len() && nv[k] == y;
                            let v = picked@[k];
                            assert(picked@.contains(v));
                            assert(gu.contains(v));
                            assert(crate::graph::has_edge(adj_view(&g), u, v));
                        }
                        if kind_edge(kind, c, cl.names@[u as int]@, y) {
                            crate::cells::lemma_edge_ends_are_nodes(kind, c, cl.names@[u as int]@, y);
                            lemma_node_has_name(&cl, c, y);
                            lemma_number_of(&cl, c, y);
                            let v = number_of(&cl, y);
                            assert(crate::graph::has_edge(adj_view(&g), u, v));
                            assert(picked@.contains(v));
                            let k = choose|k: int| 0 <= k < picked@.len() && picked@[k] == v;
                            assert(nv[k] == y);
                        }
                    }
                }
                let ghost ev0 = entries_view(m@);
                m.push((cl.names[u].as_str(), nbrs));
                proof {
                    keys = keys.push(u);
                    let ev1 = entries_view(m@);
                    assert forall|k: int| 0 <= k < ev0.len() implies ev1[k] == ev0[k] by {}
                    assert(ev1[ev0.len() as int] == (cl.names@[u as int]@, nbrs@.map_values(|s: &str| s@)));
                    assert forall|k: int, y: Seq<char>| 0 <= k < m@.len() implies (#[trigger] ev1[k].1.contains(y)
                        <==> kind_edge(kind, c, ev1[k].0, y)) by {
                        if k < ev0.len() {
                            assert(ev1[k] == ev0[k]);
                        }
                    }
                }
            }
            proof {
                assert forall|w: int| 0 <= w < u + 1 implies (kind_key(kind, c, (#[trigger] cl.names@[w])@) <==> keys.contains(
                    w as usize,
                )) by {
                    if w < u {
                        if before_keys.contains(w as usize) {
                            let k = choose|k: int| 0 <= k < before_keys.len() && before_keys[k] == w as usize;
                            assert(keys[k] == w as usize);
                        }
                        if keys.contains(w as usize) {
                            let k = choose|k: int| 0 <= k < keys.len() && keys[k] == w as usize;
                            if k < before_keys.len() {
                                assert(before_keys[k] == w as usize);
                            }
                        }
                    } else {
                        if keys.contains(w as usize) {
                            let k = choose|k: int| 0 <= k < keys.len() && keys[k] == w as usize;
                            if k < before_keys.len() {
                                assert(before_keys[k] == w as usize);
                            }
                        }
                        if kind_key(kind, c, cl.names@[w]@) {
                            assert(keys[keys.len() - 1] == u);
                        }
                    }
                }
            }
            u = u + 1;
        }
        proof {
            let ev = entries_view(m@);
            assert forall|k1: int, k2: int| 0 <= k1 < ev.len() && 0 <= k2 < ev.len() && k1 != k2 implies (#[trigger] ev[k1]).0
                != (#[trigger] ev[k2]).0 by {
                if k1 < k2 {
                    assert(keys[k1] < keys[k2]);
                } else {
                    assert(keys[k2] < keys[k1]);
                }
                assert(crate::cells::distinct_names(cl.names@));
                assert(cl.names@[keys[k1] as int]@ != cl.names@[keys[k2] as int]@);
            }
            assert forall|x: Seq<char>| #[trigger] kind_key_fn(kind, c)(x) <==> exists|k: int| 0 <= k < ev.len() && (#[trigger] ev[k]).0 == x by {
                if kind_key(kind, c, x) {
                    lemma_key_is_node(kind, c, x);
                    lemma_node_has_name(&cl, c, x);
                    lemma_number_of(&cl, c, x);
                    let w = number_of(&cl, x);
                    assert(kind_key(kind, c, cl.names@[w as int]@));
                    assert(keys.contains(w));
                    let k = choose|k: int| 0 <= k < keys.len() && keys[k] == w;
                    assert(ev[k].0 == x);
                }
                if exists|k: int| 0 <= k < ev.len() && (#[trigger] ev[k]).0 == x {
                    let k = choose|k: int| 0 <= k < ev.len() && (#[trigger] ev[k]).0 == x;
                    assert(kind_key(kind, c, cl.names@[keys[k] as int]@));
                }
            }
            assert forall|k: int, y: Seq<char>| 0 <= k < ev.len() implies (#[trigger] ev[k].1.contains(y) <==> kind_rel(
                kind,
                c,
            )(ev[k].0, y)) by {
            }
        }
        m
    }

    /// The adjacency map of doors and warps: for every room, bidirectional
    /// door target and warp source, the places one move away.
    pub fn adjacency<'a>(&'a self) -> (m: Vec<(&'a str, Vec<&'a str>)>)
        ensures
            is_adjacency_map(
                entries_view(m@),
                |x: Seq<char>| adjacency_key(self@, x),
                moves_rel(self@),
            ),
    {
        proof {
            lemma_kind_rel_moves(self@);
            assert(kind_key_fn(EdgeKind::Moves, self@) =~= (|x: Seq<char>| adjacency_key(self@, x)));
        }
        self.adjacency_of(EdgeKind::Moves)
    }

    /// The adjacency map of doors only: for every room and bidirectional door
    /// target, the places one move through a door away.
    pub fn door_adjacency<'a>(&'a self) -> (m: Vec<(&'a str, Vec<&'a str>)>)
        ensures
            is_adjacency_map(
                entries_view(m@),
                |x: Seq<char>| door_adjacency_key(self@, x),
                door_moves_rel(self@),
            ),
    {
        proof {
            lemma_kind_rel_door_moves(self@);
            assert(kind_key_fn(EdgeKind::DoorMoves, self@) =~= (|x: Seq<char>| door_adjacency_key(self@, x)));
        }
        self.adjacency_of(EdgeKind::DoorMoves)
    }
}

// ───────────────────────── warps that close a cycle ─────────────────────────

/// The complex with its rooms and only its first `k` warps.
pub open spec fn with_warps_before(c: ComplexView, k: int) -> ComplexView {
    ComplexView { rooms: c.rooms, warps: c.warps.take(k) }
}

/// Warp `k` closes a cycle: its two ends are already joined (direction
/// ignored) by the doors and the warps before it.
pub open spec fn warp_closes_cycle(c: ComplexView, k: int) -> bool {
    reachable(joined_rel(with_warps_before(c, k)), c.warps[k].from, c.warps[k].to)
}

impl RoomComplex {
    /// Whether warp `k` closes a cycle.
    pub(crate) fn closes_cycle(&self, k: usize) -> (r: bool)
        requires
            k < self@.warps.len(),
        ensures
            r == warp_closes_cycle(self@, k as int),
    {
        let mut sub = self.clone();
        sub.warps.truncate(k);
        proof {
            assert(sub@.warps =~= self@.warps.take(k as int));
            assert(sub@ == with_warps_before(self@, k as int));
            lemma_kind_rel_joined(sub@);
        }
        let w = &self.warps[k];
        assert(w@ == self@.warps[k as int]);
        let found = sub.path_of_kind(EdgeKind::Joined, w.from.as_str(), w.to.as_str());
        found.is_some()
    }
}

// ───────────────────────── laws of connectivity ─────────────────────────

/// Every place is connected to itself, and connections compose: what can be
/// reached from a place reached from `a` can be reached from `a`.
pub proof fn law_connectivity_is_a_preorder(c: ComplexView, a: Seq<char>, b: Seq<char>, d: Seq<char>)
    ensures
        reachable(moves_rel(c), a, a),
        reachable(moves_rel(c), a, b) && reachable(moves_rel(c), b, d) ==> reachable(moves_rel(c), a, d),
{
    lemma_single_walk(moves_rel(c), a);
    if reachable(moves_rel(c), a, b) && reachable(moves_rel(c), b, d) {
        lemma_reach_trans(moves_rel(c), a, b, d);
    }
}

proof fn lemma_components_below_bounds(c: ComplexView, m: int)
    requires
        0 <= m <= c.rooms.len(),
    ensures
        components_below(c, m) <= m,
        m >= 1 ==> components_below(c, m) >= 1,
    decreases m,
{
    if m > 0 {
        lemma_components_below_bounds(c, m - 1);
        if m == 1 {
            assert(opens_component(c, 0));
        }
    }
}

/// A complex with rooms has at least one component and never more
/// components than rooms; an empty complex has none.
pub proof fn law_component_count_bounds(c: ComplexView)
    ensures
        component_count(c) <= c.rooms.len(),
        c.rooms.len() > 0 <==> component_count(c) >= 1,
{
    lemma_components_below_bounds(c, c.rooms.len() as int);
}

/// The numbers the cyclomatic number adds up are bounded by the sizes of the
/// complex: door edges by doors, components by rooms; and the cyclomatic
/// number is at most the door edges plus the warps. So it fits a `usize`
/// whenever the doors and warps together do.
pub proof fn law_counts_bounded(c: ComplexView)
    ensures
        door_edge_count(c) <= door_list(c.rooms).len(),
        component_count(c) <= c.rooms.len(),
        cyclomatic_number(c) <= door_edge_count(c) + c.warps.len(),
        door_list(c.rooms).len() + c.warps.len() <= usize::MAX ==> cyclomatic_number(c) <= usize::MAX,
{
    let m = door_list(c.rooms).map_values(|p: (Seq<char>, Seq<char>)| unordered(p));
    m.lemma_cardinality_of_set();
    lemma_components_below_bounds(c, c.rooms.len() as int);
    law_components_at_most_rooms(c);
}

/// The adjacency map of doors and warps is the door adjacency map with the
/// warps added: every door move is a move, a move is a door move or a warp,
/// every place the door map lists is listed, and for a complex without warps
/// the two maps agree.
pub proof fn law_door_adjacency_within_adjacency(c: ComplexView)
    ensures
        forall|a: Seq<char>, b: Seq<char>| #[trigger] moves(c, a, b) <==> door_moves(c, a, b) || exists|k: int|
            #[trigger] warp_leads(c, k, a, b),
        forall|x: Seq<char>| #[trigger] door_adjacency_key(c, x) ==> adjacency_key(c, x),
        moves_rel(ComplexView { rooms: c.rooms, warps: Seq::empty() }) == door_moves_rel(c),
        forall|x: Seq<char>| #[trigger] adjacency_key(ComplexView { rooms: c.rooms, warps: Seq::empty() }, x)
            == door_adjacency_key(c, x),
{
    let w = ComplexView { rooms: c.rooms, warps: Seq::empty() };
    assert forall|a: Seq<char>, b: Seq<char>| #[trigger] moves(w, a, b) == door_moves(c, a, b) by {
        if door_moves(c, a, b) {
            let (i, j) = choose|i: int, j: int| #[trigger] door_leads(c, i, j, a, b);
            assert(door_leads(w, i, j, a, b));
        }
        if moves(w, a, b) {
            if exists|i: int, j: int| #[trigger] door_leads(w, i, j, a, b) {
                let (i, j) = choose|i: int, j: int| #[trigger] door_leads(w, i, j, a, b);
                assert(door_leads(c, i, j, a, b));
            }
        }
    }
    assert(moves_rel(w) =~= door_moves_rel(c));
    assert forall|x: Seq<char>| #[trigger] adjacency_key(w, x) == door_adjacency_key(c, x) by {
        if door_adjacency_key(w, x) {
            if exists|i: int| 0 <= i < w.rooms.len() && #[trigger] w.rooms[i].id == x {
                let i = choose|i: int| 0 <= i < w.rooms.len() && #[trigger] w.rooms[i].id == x;
                assert(c.rooms[i].id == x);
            } else {
                let (i, j) = choose|i: int, j: int|
                    door_at(w, i, j) && w.rooms[i].exits[j].bidirectional && #[trigger] w.rooms[i].exits[j].to == x;
                assert(door_at(c, i, j) && c.rooms[i].exits[j].to == x);
            }
        }
        if door_adjacency_key(c, x) {
            if exists|i: int| 0 <= i < c.rooms.len() && #[trigger] c.rooms[i].id == x {
                let i = choose|i: int| 0 <= i < c.rooms.len() && #[trigger] c.rooms[i].id == x;
                assert(w.rooms[i].id == x);
            } else {
                let (i, j) = choose|i: int, j: int|
                    door_at(c, i, j) && c.rooms[i].exits[j].bidirectional && #[trigger] c.rooms[i].exits[j].to == x;
                assert(door_at(w, i, j) && w.rooms[i].exits[j].to == x);
            }
        }
    }
}

/// `m` has an entry for the place of `e` that lists the same neighbours.
pub open spec fn has_same_entry(m: Seq<(Seq<char>, Seq<Seq<char>>)>, e: (Seq<char>, Seq<Seq<char>>)) -> bool {
    exists|k: int| 0 <= k < m.len() && (#[trigger] m[k]).0 == e.0 && m[k].1.to_set() == e.1.to_set()
}

/// Two adjacency maps for the same places and the same moves hold the same
/// entries: as many, with the same places, each listing the same neighbours
/// (in whatever order).
pub proof fn law_adjacency_maps_agree(
    m1: Seq<(Seq<char>, Seq<Seq<char>>)>,
    m2: Seq<(Seq<char>, Seq<Seq<char>>)>,
    key: spec_fn(Seq<char>) -> bool,
    rel: spec_fn(Seq<char>, Seq<char>) -> bool,
)
    requires
        is_adjacency_map(m1, key, rel),
        is_adjacency_map(m2, key, rel),
    ensures
        m1.len() == m2.len(),
        forall|k1: int| 0 <= k1 < m1.len() ==> has_same_entry(m2, #[trigger] m1[k1]),
{
    let f = |e: (Seq<char>, Seq<Seq<char>>)| e.0;
    let n1 = m1.map_values(f);
    let n2 = m2.map_values(f);
    assert(n1.no_duplicates()) by {
        assert forall|i: int, j: int| 0 <= i < n1.len() && 0 <= j < n1.len() && i != j implies n1[i] != n1[j] by {
            assert(m1[i].0 != m1[j].0);
        }
    }
    assert(n2.no_duplicates()) by {
        assert forall|i: int, j: int| 0 <= i < n2.len() && 0 <= j < n2.len() && i != j implies n2[i] != n2[j] by {
            assert(m2[i].0 != m2[j].0);
        }
    }
    assert(n1.to_set() =~= n2.to_set()) by {
        assert forall|x: Seq<char>| n1.to_set().contains(x) <==> n2.to_set().contains(x) by {
            if n1.contains(x) {
                let k = choose|k: int| 0 <= k < n1.len() && n1[k] == x;
                assert(m1[k].0 == x);
                assert(key(x));
                let k2 = choose|k2: int| 0 <= k2 < m2.len() && (#[trigger] m2[k2]).0 == x;
                assert(n2[k2] == x);
            }
            if n2.contains(x) {
                let k = choose|k: int| 0 <= k < n2.len() && n2[k] == x;
                assert(m2[k].0 == x);
                assert(key(x));
                let k1 = choose|k1: int| 0 <= k1 < m1.len() && (#[trigger] m1[k1]).0 == x;
                assert(n1[k1] == x);
            }
        }
    }
    n1.unique_seq_to_set();
    n2.unique_seq_to_set();
    assert forall|k1: int| 0 <= k1 < m1.len() implies has_same_entry(m2, #[trigger] m1[k1]) by {
        let x = m1[k1].0;
        assert(key(x));
        let k2 = choose|k2: int| 0 <= k2 < m2.len() && (#[trigger] m2[k2]).0 == x;
        assert forall|y: Seq<char>| m2[k2].1.to_set().contains(y) <==> m1[k1].1.to_set().contains(y) by {
            assert(m2[k2].1.contains(y) <==> rel(x, y));
            assert(m1[k1].1.contains(y) <==> rel(x, y));
        }
        assert(m2[k2].1.to_set() =~= m1[k1].1.to_set());
    }
}

/// The door adjacency map of a complex and the adjacency map of the same
/// rooms without warps hold the same entries.
pub proof fn law_door_adjacency_is_adjacency_without_warps(
    c: ComplexView,
    doors: Seq<(Seq<char>, Seq<Seq<char>>)>,
    plain: Seq<(Seq<char>, Seq<Seq<char>>)>,
)
    requires
        is_adjacency_map(doors, |x: Seq<char>| door_adjacency_key(c, x), door_moves_rel(c)),
        is_adjacency_map(
            plain,
            |x: Seq<char>| adjacency_key(ComplexView { rooms: c.rooms, warps: Seq::empty() }, x),
            moves_rel(ComplexView { rooms: c.rooms, warps: Seq::empty() }),
        ),
    ensures
        doors.len() == plain.len(),
        forall|k1: int| 0 <= k1 < doors.len() ==> has_same_entry(plain, #[trigger] doors[k1]),
{
    law_door_adjacency_within_adjacency(c);
    let w = ComplexView { rooms: c.rooms, warps: Seq::empty() };
    assert((|x: Seq<char>| adjacency_key(w, x)) =~= (|x: Seq<char>| door_adjacency_key(c, x)));
    law_adjacency_maps_agree(doors, plain, |x: Seq<char>| door_adjacency_key(c, x), door_moves_rel(c));
}

} // verus!
