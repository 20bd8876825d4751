//! The vertices of a room complex numbered `0..n`, and the complex's doors
//! and warps as adjacency-list graphs on those numbers.
use vstd::prelude::*;
use crate::complex::{
    ComplexView, RoomComplex, door_at, door_leads, door_joins, warp_leads, warp_joins, moves,
    door_moves, joined, moves_rel, door_moves_rel, joined_rel, is_node,
};
use crate::graph::{
    adj_view, adj_wf, has_edge, edge_rel, empty_graph, add_edge, is_walk, step_ok, walk_between,
    reachable, lemma_walk_map,
};

verus! {

/// Which moves become edges.
#[derive(Clone, Copy)]
pub enum EdgeKind {
    /// Doors forwards (and backwards when bidirectional) and warps forwards.
    Moves,
    /// Doors only, as for `Moves`.
    DoorMoves,
    /// Doors and warps in both directions.
    Joined,
}

pub open spec fn kind_door(kind: EdgeKind, c: ComplexView, i: int, j: int, a: Seq<char>, b: Seq<char>) -> bool {
    match kind {
        EdgeKind::Joined => door_joins(c, i, j, a, b),
        _ => door_leads(c, i, j, a, b),
    }
}

pub open spec fn kind_warp(kind: EdgeKind, c: ComplexView, k: int, a: Seq<char>, b: Seq<char>) -> bool {
    match kind {
        EdgeKind::Moves => warp_leads(c, k, a, b),
        EdgeKind::DoorMoves => false,
        EdgeKind::Joined => warp_joins(c, k, a, b),
    }
}

pub open spec fn kind_edge(kind: EdgeKind, c: ComplexView, a: Seq<char>, b: Seq<char>) -> bool {
    ||| exists|i: int, j: int| #[trigger] kind_door(kind, c, i, j, a, b)
    ||| exists|k: int| #[trigger] kind_warp(kind, c, k, a, b)
}

pub open spec fn kind_rel(kind: EdgeKind, c: ComplexView) -> spec_fn(Seq<char>, Seq<char>) -> bool {
    |a: Seq<char>, b: Seq<char>| kind_edge(kind, c, a, b)
}

pub proof fn lemma_kind_rel_moves(c: ComplexView)
    ensures
        kind_rel(EdgeKind::Moves, c) == moves_rel(c),
{
    assert forall|a: Seq<char>, b: Seq<char>| #[trigger] kind_edge(EdgeKind::Moves, c, a, b) == moves(c, a, b) by {
        if kind_edge(EdgeKind::Moves, c, a, b) {
            if exists|i: int, j: int| #[trigger] kind_door(EdgeKind::Moves, c, i, j, a, b) {
                let (i, j) = choose|i: int, j: int| #[trigger] kind_door(EdgeKind::Moves, c, i, j, a, b);
                assert(door_leads(c, i, j, a, b));
            } else {
                let k = choose|k: int| #[trigger] kind_warp(EdgeKind::Moves, c, k, a, b);
                assert(warp_leads(c, k, a, b));
            }
        }
        if moves(c, a, b) {
            if exists|i: int, j: int| #[trigger] door_leads(c, i, j, a, b) {
                let (i, j) = choose|i: int, j: int| #[trigger] door_leads(c, i, j, a, b);
                assert(kind_door(EdgeKind::Moves, c, i, j, a, b));
            } else {
                let k = choose|k: int| #[trigger] warp_leads(c, k, a, b);
                assert(kind_warp(EdgeKind::Moves, c, k, a, b));
            }
        }
    }
    assert(kind_rel(EdgeKind::Moves, c) =~= moves_rel(c));
}

pub proof fn lemma_kind_rel_door_moves(c: ComplexView)
    ensures
        kind_rel(EdgeKind::DoorMoves, c) == door_moves_rel(c),
{
    assert forall|a: Seq<char>, b: Seq<char>| #[trigger] kind_edge(EdgeKind::DoorMoves, c, a, b) == door_moves(
        c,
        a,
        b,
    ) by {
        if kind_edge(EdgeKind::DoorMoves, c, a, b) {
            if exists|i: int, j: int| #[trigger] kind_door(EdgeKind::DoorMoves, c, i, j, a, b) {
                let (i, j) = choose|i: int, j: int| #[trigger] kind_door(EdgeKind::DoorMoves, c, i, j, a, b);
                assert(door_leads(c, i, j, a, b));
            } else {
                let k = choose|k: int| #[trigger] kind_warp(EdgeKind::DoorMoves, c, k, a, b);
            }
        }
        if door_moves(c, a, b) {
            let (i, j) = choose|i: int, j: int| #[trigger] door_leads(c, i, j, a, b);
            assert(kind_door(EdgeKind::DoorMoves, c, i, j, a, b));
        }
    }
    assert(kind_rel(EdgeKind::DoorMoves, c) =~= door_moves_rel(c));
}

pub proof fn lemma_kind_rel_joined(c: ComplexView)
    ensures
        kind_rel(EdgeKind::Joined, c) == joined_rel(c),
{
    assert forall|a: Seq<char>, b: Seq<char>| #[trigger] kind_edge(EdgeKind::Joined, c, a, b) == joined(c, a, b) by {
        if kind_edge(EdgeKind::Joined, c, a, b) {
            if exists|i: int, j: int| #[trigger] kind_door(EdgeKind::Joined, c, i, j, a, b) {
                let (i, j) = choose|i: int, j: int| #[trigger] kind_door(EdgeKind::Joined, c, i, j, a, b);
                assert(door_joins(c, i, j, a, b));
            } else {
                let k = choose|k: int| #[trigger] kind_warp(EdgeKind::Joined, c, k, a, b);
                assert(warp_joins(c, k, a, b));
            }
        }
        if joined(c, a, b) {
            if exists|i: int, j: int| #[trigger] door_joins(c, i, j, a, b) {
                let (i, j) = choose|i: int, j: int| #[trigger] door_joins(c, i, j, a, b);
                assert(kind_door(EdgeKind::Joined, c, i, j, a, b));
            } else {
                let k = choose|k: int| #[trigger] warp_joins(c, k, a, b);
                assert(kind_warp(EdgeKind::Joined, c, k, a, b));
            }
        }
    }
    assert(kind_rel(EdgeKind::Joined, c) =~= joined_rel(c));
}

/// Both ends of an edge are vertices of the complex.
pub proof fn lemma_edge_ends_are_nodes(kind: EdgeKind, c: ComplexView, a: Seq<char>, b: Seq<char>)
    requires
        kind_edge(kind, c, a, b),
    ensures
        is_node(c, a),
        is_node(c, b),
{
    if exists|i: int, j: int| #[trigger] kind_door(kind, c, i, j, a, b) {
        let (i, j) = choose|i: int, j: int| #[trigger] kind_door(kind, c, i, j, a, b);
        assert(c.rooms[i].id == c.rooms[i].id);
        assert(c.rooms[i].exits[j].to == c.rooms[i].exits[j].to);
    } else {
        let k = choose|k: int| #[trigger] kind_warp(kind, c, k, a, b);
        assert(c.warps[k].from == c.warps[k].from);
    }
}

/// The vertices of a complex, numbered, and for every room, door and warp
/// the numbers of its endpoints.
pub struct Cells<'a> {
    pub names: Vec<&'a String>,
    pub room_at: Vec<usize>,
    pub exit_at: Vec<Vec<usize>>,
    pub warp_from: Vec<usize>,
    pub warp_to: Vec<usize>,
}

pub open spec fn has_name(names: Seq<&String>, x: Seq<char>) -> bool {
    exists|u: int| 0 <= u < names.len() && (#[trigger] names[u])@ == x
}

pub open spec fn distinct_names(names: Seq<&String>) -> bool {
    forall|u: int, v: int| 0 <= u < names.len() && 0 <= v < names.len() && u != v ==> (#[trigger] names[u])@
        != (#[trigger] names[v])@
}

pub open spec fn cells_ok(cl: &Cells, c: ComplexView) -> bool {
    let n = cl.names@.len();
    &&& n <= usize::MAX
    &&& distinct_names(cl.names@)
    &&& forall|u: int| 0 <= u < n ==> is_node(c, (#[trigger] cl.names@[u])@)
    &&& cl.room_at@.len() == c.rooms.len()
    &&& forall|i: int|
        0 <= i < c.rooms.len() ==> (#[trigger] cl.room_at@[i] as int) < n && cl.names@[cl.room_at@[i] as int]@
            == c.rooms[i].id
    &&& cl.exit_at@.len() == c.rooms.len()
    &&& forall|i: int| 0 <= i < c.rooms.len() ==> (#[trigger] cl.exit_at@[i])@.len() == c.rooms[i].exits.len()
    &&& forall|i: int, j: int|
        door_at(c, i, j) ==> (#[trigger] cl.exit_at@[i]@[j] as int) < n && cl.names@[cl.exit_at@[i]@[j] as int]@
            == c.rooms[i].exits[j].to
    &&& cl.warp_from@.len() == c.warps.len()
    &&& cl.warp_to@.len() == c.warps.len()
    &&& forall|k: int|
        0 <= k < c.warps.len() ==> (#[trigger] cl.warp_from@[k] as int) < n && cl.names@[cl.warp_from@[k] as int]@
            == c.warps[k].from
    &&& forall|k: int|
        0 <= k < c.warps.len() ==> (#[trigger] cl.warp_to@[k] as int) < n && cl.names@[cl.warp_to@[k] as int]@
            == c.warps[k].to
}

/// Every vertex of the complex has a number.
pub proof fn lemma_node_has_name(cl: &Cells, c: ComplexView, x: Seq<char>)
    requires
        cells_ok(cl, c),
        is_node(c, x),
    ensures
        has_name(cl.names@, x),
{
    if exists|i: int| 0 <= i < c.rooms.len() && #[trigger] c.rooms[i].id == x {
        let i = choose|i: int| 0 <= i < c.rooms.len() && #[trigger] c.rooms[i].id == x;
        let u = cl.room_at@[i] as int;
        assert(cl.names@[u]@ == x);
    } else if exists|i: int, j: int| door_at(c, i, j) && #[trigger] c.rooms[i].exits[j].to == x {
        let (i, j) = choose|i: int, j: int| door_at(c, i, j) && #[trigger] c.rooms[i].exits[j].to == x;
        let u = cl.exit_at@[i]@[j] as int;
        assert(cl.names@[u]@ == x);
    } else {
        let k = choose|k: int| 0 <= k < c.warps.len() && (#[trigger] c.warps[k].from == x || c.warps[k].to == x);
        if c.warps[k].from == x {
            let u = cl.warp_from@[k] as int;
            assert(cl.names@[u]@ == x);
        } else {
            let u = cl.warp_to@[k] as int;
            assert(cl.names@[u]@ == x);
        }
    }
}

/// Add `s` to `names` unless a name equal to it is already there.
fn intern<'a>(names: &mut Vec<&'a String>, s: &'a String)
    requires
        distinct_names(old(names)@),
    ensures
        distinct_names(final(names)@),
        has_name(final(names)@, s@),
        forall|u: int| 0 <= u < final(names)@.len() ==> (#[trigger] final(names)@[u])@ == s@ || has_name(old(names)@, final(names)@[u]@),
        forall|x: Seq<char>| has_name(old(names)@, x) ==> has_name(final(names)@, x),
{
    let mut i: usize = 0;
    while i < names.len()
        invariant
            names@ == old(names)@,
            distinct_names(names@),
            i <= names@.len(),
            forall|u: int| 0 <= u < i ==> (#[trigger] names@[u])@ != s@,
        decreases names@.len() - i,
    {
        if *names[i] == *s {
            assert(names@[i as int]@ == s@);
            return;
        }
        i = i + 1;
    }
    let ghost old_names = names@;
    names.push(s);
    proof {
        assert(names@[old_names.len() as int] == s);
        assert forall|x: Seq<char>| has_name(old_names, x) implies has_name(names@, x) by {
            let u = choose|u: int| 0 <= u < old_names.len() && (#[trigger] old_names[u])@ == x;
            assert(names@[u] == old_names[u]);
        }
        assert forall|u: int| 0 <= u < names@.len() implies (#[trigger] names@[u])@ == s@ || has_name(old_names, names@[u]@) by {
            if u < old_names.len() {
                assert(names@[u] == old_names[u]);
            }
        }
    }
}

/// The number of the name equal to `s`.
fn lookup(names: &Vec<&String>, s: &String) -> (u: usize)
    requires
        has_name(names@, s@),
    ensures
        (u as int) < names@.len(),
        names@[u as int]@ == s@,
{
    let mut i: usize = 0;
    while i < names.len()
        invariant
            i <= names@.len(),
            has_name(names@, s@),
            forall|u: int| 0 <= u < i ==> (#[trigger] names@[u])@ != s@,
        decreases names@.len() - i,
    {
        if *names[i] == *s {
            return i;
        }
        i = i + 1;
    }
    proof {
        let u = choose|u: int| 0 <= u < names@.len() && (#[trigger] names@[u])@ == s@;
    }
    0
}

/// Number the vertices of `c`.
pub fn build_cells<'a>(c: &'a RoomComplex) -> (cl: Cells<'a>)
    ensures
        cells_ok(&cl, c@),
{
    let ghost cv = c@;
    let mut names: Vec<&'a String> = Vec::new();
    let mut i: usize = 0;
    while i < c.rooms.len()
        invariant
            cv == c@,
            i <= c.rooms@.len(),
            distinct_names(names@),
            forall|u: int| 0 <= u < names@.len() ==> is_node(cv, (#[trigger] names@[u])@),
            forall|i2: int| 0 <= i2 < i ==> has_name(names@, #[trigger] cv.rooms[i2].id),
            forall|i2: int, j2: int|
                0 <= i2 < i && door_at(cv, i2, j2) ==> has_name(names@, #[trigger] cv.rooms[i2].exits[j2].to),
        decreases c.rooms@.len() - i,
    {
        let room = &c.rooms[i];
        assert(cv.rooms[i as int] == room@);
        let ghost before = names@;
        intern(&mut names, &room.id);
        proof {
            assert forall|u: int| 0 <= u < names@.len() implies is_node(cv, (#[trigger] names@[u])@) by {
                if names@[u]@ != room.id@ {
                    let v = choose|v: int| 0 <= v < before.len() && (#[trigger] before[v])@ == names@[u]@;
                    assert(is_node(cv, before[v]@));
                } else {
                    assert(cv.rooms[i as int].id == room.id@);
                }
            }
        }
        let mut j: usize = 0;
        while j < room.exits.len()
            invariant
                cv == c@,
                i < c.rooms@.len(),
                cv.rooms[i as int] == room@,
                j <= room.exits@.len(),
                distinct_names(names@),
                forall|u: int| 0 <= u < names@.len() ==> is_node(cv, (#[trigger] names@[u])@),
                forall|i2: int| 0 <= i2 <= i ==> has_name(names@, #[trigger] cv.rooms[i2].id),
                forall|i2: int, j2: int|
                    0 <= i2 < i && door_at(cv, i2, j2) ==> has_name(names@, #[trigger] cv.rooms[i2].exits[j2].to),
                forall|j2: int| 0 <= j2 < j ==> has_name(names@, #[trigger] cv.rooms[i as int].exits[j2].to),
            decreases room.exits@.len() - j,
        {
            let ghost before = names@;
            assert(cv.rooms[i as int].exits[j as int] == room.exits@[j as int]@);
            intern(&mut names, &room.exits[j].to);
            proof {
                assert forall|u: int| 0 <= u < names@.len() implies is_node(cv, (#[trigger] names@[u])@) by {
                    if names@[u]@ != room.exits@[j as int].to@ {
                        let v = choose|v: int| 0 <= v < before.len() && (#[trigger] before[v])@ == names@[u]@;
                        assert(is_node(cv, before[v]@));
                    } else {
                        assert(door_at(cv, i as int, j as int));
                        assert(cv.rooms[i as int].exits[j as int].to == room.exits@[j as int].to@);
                    }
                }
            }
            j = j + 1;
        }
        i = i + 1;
    }
    let mut k: usize = 0;
    while k < c.warps.len()
        invariant
            cv == c@,
            k <= c.warps@.len(),
            distinct_names(names@),
            forall|u: int| 0 <= u < names@.len() ==> is_node(cv, (#[trigger] names@[u])@),
            forall|i2: int| 0 <= i2 < cv.rooms.len() ==> has_name(names@, #[trigger] cv.rooms[i2].id),
            forall|i2: int, j2: int| door_at(cv, i2, j2) ==> has_name(names@, #[trigger] cv.rooms[i2].exits[j2].to),
            forall|k2: int| 0 <= k2 < k ==> has_name(names@, #[trigger] cv.warps[k2].from) && has_name(
                names@,
                cv.warps[k2].to,
            ),
        decreases c.warps@.len() - k,
    {
        let w = &c.warps[k];
        assert(cv.warps[k as int] == w@);
        let ghost before = names@;
        intern(&mut names, &w.from);
        let ghost mid = names@;
        intern(&mut names, &w.to);
        proof {
            assert forall|u: int| 0 <= u < names@.len() implies is_node(cv, (#[trigger] names@[u])@) by {
                if names@[u]@ == w.to@ || names@[u]@ == w.from@ {
                    assert(cv.warps[k as int].from == w.from@);
                } else {
                    let v = choose|v: int| 0 <= v < mid.len() && (#[trigger] mid[v])@ == names@[u]@;
                    let v2 = choose|v2: int| 0 <= v2 < before.len() && (#[trigger] before[v2])@ == mid[v]@;
                    assert(is_node(cv, before[v2]@));
                }
            }
            assert(has_name(mid, w.from@));
            assert(has_name(names@, cv.warps[k as int].from));
            assert(has_name(names@, cv.warps[k as int].to));
            assert forall|k2: int| 0 <= k2 < k + 1 implies has_name(names@, #[trigger] cv.warps[k2].from)
                && has_name(names@, cv.warps[k2].to) by {
                if k2 < k {
                    assert(has_name(before, cv.warps[k2].from));
                    assert(has_name(mid, cv.warps[k2].from));
                    assert(has_name(before, cv.warps[k2].to));
                    assert(has_name(mid, cv.warps[k2].to));
                }
            }
        }
        k = k + 1;
    }
    // numbering of every endpoint
    let mut room_at: Vec<usize> = Vec::new();
    let mut exit_at: Vec<Vec<usize>> = Vec::new();
    let mut i: usize = 0;
    while i < c.rooms.len()
        invariant
            cv == c@,
            i <= c.rooms@.len(),
            forall|i2: int| 0 <= i2 < cv.rooms.len() ==> has_name(names@, #[trigger] cv.rooms[i2].id),
            forall|i2: int, j2: int| door_at(cv, i2, j2) ==> has_name(names@, #[trigger] cv.rooms[i2].exits[j2].to),
            room_at@.len() == i,
            exit_at@.len() == i,
            forall|i2: int|
                0 <= i2 < i ==> (#[trigger] room_at@[i2] as int) < names@.len() && names@[room_at@[i2] as int]@
                    == cv.rooms[i2].id,
            forall|i2: int| 0 <= i2 < i ==> (#[trigger] exit_at@[i2])@.len() == cv.rooms[i2].exits.len(),
            forall|i2: int, j2: int|
                0 <= i2 < i && door_at(cv, i2, j2) ==> (#[trigger] exit_at@[i2]@[j2] as int) < names@.len()
                    && names@[exit_at@[i2]@[j2] as int]@ == cv.rooms[i2].exits[j2].to,
        decreases c.rooms@.len() - i,
    {
        let room = &c.rooms[i];
        assert(cv.rooms[i as int] == room@);
        assert(has_name(names@, cv.rooms[i as int].id));
        room_at.push(lookup(&names, &room.id));
        let mut row: Vec<usize> = Vec::new();
        let mut j: usize = 0;
        while j < room.exits.len()
            invariant
                cv == c@,
                i < cv.rooms.len(),
                cv.rooms[i as int] == room@,
                j <= room.exits@.len(),
                forall|i2: int, j2: int| door_at(cv, i2, j2) ==> has_name(names@, #[trigger] cv.rooms[i2].exits[j2].to),
                row@.len() == j,
                forall|j2: int|
                    0 <= j2 < j ==> (#[trigger] row@[j2] as int) < names@.len() && names@[row@[j2] as int]@
                        == cv.rooms[i as int].exits[j2].to,
            decreases room.exits@.len() - j,
        {
            assert(cv.rooms[i as int].exits[j as int] == room.exits@[j as int]@);
            assert(door_at(cv, i as int, j as int));
            assert(has_name(names@, cv.rooms[i as int].exits[j as int].to));
            row.push(lookup(&names, &room.exits[j].to));
            j = j + 1;
        }
        exit_at.push(row);
        proof {
            assert forall|i2: int, j2: int|
                0 <= i2 < i + 1 && door_at(cv, i2, j2) implies (#[trigger] exit_at@[i2]@[j2] as int) < names@.len()
                    && names@[exit_at@[i2]@[j2] as int]@ == cv.rooms[i2].exits[j2].to by {
                if i2 == i {
                    assert(exit_at@[i2] == row);
                }
            }
        }
        i = i + 1;
    }
    let mut warp_from: Vec<usize> = Vec::new();
    let mut warp_to: Vec<usize> = Vec::new();
    let mut k: usize = 0;
    while k < c.warps.len()
        invariant
            cv == c@,
            k <= c.warps@.len(),
            forall|k2: int| 0 <= k2 < cv.warps.len() ==> has_name(names@, #[trigger] cv.warps[k2].from) && has_name(
                names@,
                cv.warps[k2].to,
            ),
            warp_from@.len() == k,
            warp_to@.len() == k,
            forall|k2: int|
                0 <= k2 < k ==> (#[trigger] warp_from@[k2] as int) < names@.len() && names@[warp_from@[k2] as int]@
                    == cv.warps[k2].from,
            forall|k2: int|
                0 <= k2 < k ==> (#[trigger] warp_to@[k2] as int) < names@.len() && names@[warp_to@[k2] as int]@
                    == cv.warps[k2].to,
        decreases c.warps@.len() - k,
    {
        let w = &c.warps[k];
        assert(cv.warps[k as int] == w@);
        assert(has_name(names@, cv.warps[k as int].from));
        assert(has_name(names@, cv.warps[k as int].to));
        warp_from.push(lookup(&names, &w.from));
        warp_to.push(lookup(&names, &w.to));
        k = k + 1;
    }
    let _ = names.len();
    Cells { names, room_at, exit_at, warp_from, warp_to }
}

// ───────────────────────── graphs on the numbered vertices ─────────────────────────

/// Door `j` of room `i` gives the edge `u → v` between vertex numbers.
pub open spec fn idx_door(kind: EdgeKind, cl: &Cells, c: ComplexView, i: int, j: int, u: usize, v: usize) -> bool {
    &&& door_at(c, i, j)
    &&& {
        ||| (u == cl.room_at@[i] && v == cl.exit_at@[i]@[j])
        ||| ((kind is Joined || c.rooms[i].exits[j].bidirectional) && u == cl.exit_at@[i]@[j] && v
            == cl.room_at@[i])
    }
}

/// Warp `k` gives the edge `u → v` between vertex numbers.
pub open spec fn idx_warp(kind: EdgeKind, cl: &Cells, c: ComplexView, k: int, u: usize, v: usize) -> bool {
    &&& 0 <= k < c.warps.len()
    &&& match kind {
        EdgeKind::Moves => u == cl.warp_from@[k] && v == cl.warp_to@[k],
        EdgeKind::DoorMoves => false,
        EdgeKind::Joined => (u == cl.warp_from@[k] && v == cl.warp_to@[k]) || (u == cl.warp_to@[k] && v
            == cl.warp_from@[k]),
    }
}

spec fn doors_before(kind: EdgeKind, cl: &Cells, c: ComplexView, i: int, j: int, u: usize, v: usize) -> bool {
    exists|i2: int, j2: int| (i2 < i || (i2 == i && j2 < j)) && #[trigger] idx_door(kind, cl, c, i2, j2, u, v)
}

spec fn warps_before(kind: EdgeKind, cl: &Cells, c: ComplexView, k: int, u: usize, v: usize) -> bool {
    exists|k2: int| k2 < k && #[trigger] idx_warp(kind, cl, c, k2, u, v)
}

proof fn lemma_doors_step(kind: EdgeKind, cl: &Cells, c: ComplexView, i: int, j: int)
    ensures
        forall|u: usize, v: usize| #[trigger] doors_before(kind, cl, c, i, j + 1, u, v) == (doors_before(
            kind,
            cl,
            c,
            i,
            j,
            u,
            v,
        ) || idx_door(kind, cl, c, i, j, u, v)),
{
    assert forall|u: usize, v: usize| #[trigger] doors_before(kind, cl, c, i, j + 1, u, v) == (doors_before(
        kind,
        cl,
        c,
        i,
        j,
        u,
        v,
    ) || idx_door(kind, cl, c, i, j, u, v)) by {
        if doors_before(kind, cl, c, i, j + 1, u, v) {
            let (i2, j2) = choose|i2: int, j2: int|
                (i2 < i || (i2 == i && j2 < j + 1)) && #[trigger] idx_door(kind, cl, c, i2, j2, u, v);
            if !(i2 == i && j2 == j) {
                assert(doors_before(kind, cl, c, i, j, u, v));
            }
        }
        if doors_before(kind, cl, c, i, j, u, v) {
            let (i2, j2) = choose|i2: int, j2: int|
                (i2 < i || (i2 == i && j2 < j)) && #[trigger] idx_door(kind, cl, c, i2, j2, u, v);
            assert(doors_before(kind, cl, c, i, j + 1, u, v));
        }
        if idx_door(kind, cl, c, i, j, u, v) {
            assert(doors_before(kind, cl, c, i, j + 1, u, v));
        }
    }
}

proof fn lemma_doors_row(kind: EdgeKind, cl: &Cells, c: ComplexView, i: int)
    requires
        0 <= i < c.rooms.len(),
    ensures
        forall|u: usize, v: usize| #[trigger] doors_before(kind, cl, c, i + 1, 0, u, v) == doors_before(
            kind,
            cl,
            c,
            i,
            c.rooms[i].exits.len() as int,
            u,
            v,
        ),
{
    assert forall|u: usize, v: usize| #[trigger] doors_before(kind, cl, c, i + 1, 0, u, v) == doors_before(
        kind,
        cl,
        c,
        i,
        c.rooms[i].exits.len() as int,
        u,
        v,
    ) by {
        if doors_before(kind, cl, c, i + 1, 0, u, v) {
            let (i2, j2) = choose|i2: int, j2: int|
                (i2 < i + 1 || (i2 == i + 1 && j2 < 0)) && #[trigger] idx_door(kind, cl, c, i2, j2, u, v);
            assert(doors_before(kind, cl, c, i, c.rooms[i].exits.len() as int, u, v));
        }
        if doors_before(kind, cl, c, i, c.rooms[i].exits.len() as int, u, v) {
            let (i2, j2) = choose|i2: int, j2: int|
                (i2 < i || (i2 == i && j2 < c.rooms[i].exits.len())) && #[trigger] idx_door(kind, cl, c, i2, j2, u, v);
            assert(doors_before(kind, cl, c, i + 1, 0, u, v));
        }
    }
}

proof fn lemma_warps_step(kind: EdgeKind, cl: &Cells, c: ComplexView, k: int)
    ensures
        forall|u: usize, v: usize| #[trigger] warps_before(kind, cl, c, k + 1, u, v) == (warps_before(
            kind,
            cl,
            c,
            k,
            u,
            v,
        ) || idx_warp(kind, cl, c, k, u, v)),
{
    assert forall|u: usize, v: usize| #[trigger] warps_before(kind, cl, c, k + 1, u, v) == (warps_before(
        kind,
        cl,
        c,
        k,
        u,
        v,
    ) || idx_warp(kind, cl, c, k, u, v)) by {
        if warps_before(kind, cl, c, k + 1, u, v) {
            let k2 = choose|k2: int| k2 < k + 1 && #[trigger] idx_warp(kind, cl, c, k2, u, v);
            if k2 != k {
                assert(warps_before(kind, cl, c, k, u, v));
            }
        }
        if warps_before(kind, cl, c, k, u, v) {
            let k2 = choose|k2: int| k2 < k && #[trigger] idx_warp(kind, cl, c, k2, u, v);
            assert(warps_before(kind, cl, c, k + 1, u, v));
        }
        if idx_warp(kind, cl, c, k, u, v) {
            assert(warps_before(kind, cl, c, k + 1, u, v));
        }
    }
}

/// On numbered vertices, the index form of a door or warp edge is the edge
/// between their names.
proof fn lemma_idx_names(kind: EdgeKind, cl: &Cells, c: ComplexView, u: usize, v: usize)
    requires
        cells_ok(cl, c),
        (u as int) < cl.names@.len(),
        (v as int) < cl.names@.len(),
    ensures
        doors_before(kind, cl, c, c.rooms.len() as int, 0, u, v) || warps_before(
            kind,
            cl,
            c,
            c.warps.len() as int,
            u,
            v,
        ) <==> kind_edge(kind, c, cl.names@[u as int]@, cl.names@[v as int]@),
{
    let a = cl.names@[u as int]@;
    let b = cl.names@[v as int]@;
    let n = cl.names@.len();
    assert forall|x: int, y: int| 0 <= x < n && 0 <= y < n && (#[trigger] cl.names@[x])@ == (
    #[trigger] cl.names@[y])@ implies x == y by {
    }
    if doors_before(kind, cl, c, c.rooms.len() as int, 0, u, v) {
        let (i, j) = choose|i: int, j: int|
            (i < c.rooms.len() || (i == c.rooms.len() && j < 0)) && #[trigger] idx_door(kind, cl, c, i, j, u, v);
        assert(cl.names@[cl.room_at@[i] as int]@ == c.rooms[i].id);
        assert(cl.names@[cl.exit_at@[i]@[j] as int]@ == c.rooms[i].exits[j].to);
        assert(kind_door(kind, c, i, j, a, b));
    }
    if warps_before(kind, cl, c, c.warps.len() as int, u, v) {
        let k = choose|k: int| k < c.warps.len() && #[trigger] idx_warp(kind, cl, c, k, u, v);
        assert(cl.names@[cl.warp_from@[k] as int]@ == c.warps[k].from);
        assert(cl.names@[cl.warp_to@[k] as int]@ == c.warps[k].to);
        assert(kind_warp(kind, c, k, a, b));
    }
    if kind_edge(kind, c, a, b) {
        if exists|i: int, j: int| #[trigger] kind_door(kind, c, i, j, a, b) {
            let (i, j) = choose|i: int, j: int| #[trigger] kind_door(kind, c, i, j, a, b);
            let ri = cl.room_at@[i];
            let ej = cl.exit_at@[i]@[j];
            assert(cl.names@[ri as int]@ == c.rooms[i].id);
            assert(cl.names@[ej as int]@ == c.rooms[i].exits[j].to);
            if c.rooms[i].id == a && c.rooms[i].exits[j].to == b {
                assert(cl.names@[ri as int]@ == cl.names@[u as int]@);
                assert(cl.names@[ej as int]@ == cl.names@[v as int]@);
            } else {
                assert(cl.names@[ej as int]@ == cl.names@[u as int]@);
                assert(cl.names@[ri as int]@ == cl.names@[v as int]@);
            }
            assert(idx_door(kind, cl, c, i, j, u, v));
            assert(doors_before(kind, cl, c, c.rooms.len() as int, 0, u, v));
        } else {
            let k = choose|k: int| #[trigger] kind_warp(kind, c, k, a, b);
            let f = cl.warp_from@[k];
            let t = cl.warp_to@[k];
            assert(cl.names@[f as int]@ == c.warps[k].from);
            assert(cl.names@[t as int]@ == c.warps[k].to);
            if c.warps[k].from == a && c.warps[k].to == b {
                assert(cl.names@[f as int]@ == cl.names@[u as int]@);
                assert(cl.names@[t as int]@ == cl.names@[v as int]@);
            } else {
                assert(cl.names@[t as int]@ == cl.names@[u as int]@);
                assert(cl.names@[f as int]@ == cl.names@[v as int]@);
            }
            assert(idx_warp(kind, cl, c, k, u, v));
            assert(warps_before(kind, cl, c, c.warps.len() as int, u, v));
        }
    }
}

/// What `build_graph` returns: a graph on the numbered vertices whose edges
/// are exactly the moves of the given kind between their names.
pub open spec fn graph_of(g: Seq<Seq<usize>>, cl: &Cells, c: ComplexView, kind: EdgeKind) -> bool {
    &&& g.len() == cl.names@.len()
    &&& adj_wf(g)
    &&& forall|u: usize, v: usize|
        (u as int) < g.len() && (v as int) < g.len() ==> #[trigger] has_edge(g, u, v) == kind_edge(
            kind,
            c,
            cl.names@[u as int]@,
            cl.names@[v as int]@,
        )
}

/// The graph of `kind` moves between the numbered vertices of `c`.
pub fn build_graph(c: &RoomComplex, cl: &Cells, kind: EdgeKind) -> (g: Vec<Vec<usize>>)
    requires
        cells_ok(cl, c@),
    ensures
        graph_of(adj_view(&g), cl, c@, kind),
{
    let ghost cv = c@;
    let both = match kind {
        EdgeKind::Joined => true,
        _ => false,
    };
    let mut g = empty_graph(cl.names.len());
    let mut i: usize = 0;
    while i < c.rooms.len()
        invariant
            cv == c@,
            cells_ok(cl, cv),
            both == (kind is Joined),
            i <= cv.rooms.len(),
            g@.len() == cl.names@.len(),
            adj_wf(adj_view(&g)),
            forall|u: usize, v: usize| #[trigger] has_edge(adj_view(&g), u, v) == doors_before(
                kind,
                cl,
                cv,
                i as int,
                0,
                u,
                v,
            ),
        decreases cv.rooms.len() - i,
    {
        let room = &c.rooms[i];
        assert(cv.rooms[i as int] == room@);
        let u0 = cl.room_at[i];
        let row = &cl.exit_at[i];
        assert(row@.len() == room.exits@.len());
        let mut j: usize = 0;
        while j < room.exits.len()
            invariant
                cv == c@,
                cells_ok(cl, cv),
                both == (kind is Joined),
                i < cv.rooms.len(),
                cv.rooms[i as int] == room@,
                u0 == cl.room_at@[i as int],
                *row == cl.exit_at@[i as int],
                row@.len() == room.exits@.len(),
                j <= room.exits@.len(),
                g@.len() == cl.names@.len(),
                adj_wf(adj_view(&g)),
                forall|u: usize, v: usize| #[trigger] has_edge(adj_view(&g), u, v) == doors_before(
                    kind,
                    cl,
                    cv,
                    i as int,
                    j as int,
                    u,
                    v,
                ),
            decreases room.exits@.len() - j,
        {
            assert(door_at(cv, i as int, j as int));
            let v0 = row[j];
            assert(cv.rooms[i as int].exits[j as int] == room.exits@[j as int]@);
            let back = both || room.exits[j].bidirectional;
            proof {
                lemma_doors_step(kind, cl, cv, i as int, j as int);
            }
            let ghost g0 = adj_view(&g);
            add_edge(&mut g, u0, v0);
            if back {
                add_edge(&mut g, v0, u0);
            }
            proof {
                assert forall|u: usize, v: usize| #[trigger] has_edge(adj_view(&g), u, v) == doors_before(
                    kind,
                    cl,
                    cv,
                    i as int,
                    j + 1,
                    u,
                    v,
                ) by {
                    assert(doors_before(kind, cl, cv, i as int, j + 1, u, v) == (doors_before(
                        kind,
                        cl,
                        cv,
                        i as int,
                        j as int,
                        u,
                        v,
                    ) || idx_door(kind, cl, cv, i as int, j as int, u, v)));
                    assert(has_edge(g0, u, v) == doors_before(kind, cl, cv, i as int, j as int, u, v));
                }
            }
            j = j + 1;
        }
        proof {
            lemma_doors_row(kind, cl, cv, i as int);
        }
        i = i + 1;
    }
    let mut k: usize = 0;
    while k < c.warps.len()
        invariant
            cv == c@,
            cells_ok(cl, cv),
            k <= cv.warps.len(),
            g@.len() == cl.names@.len(),
            adj_wf(adj_view(&g)),
            forall|u: usize, v: usize| #[trigger] has_edge(adj_view(&g), u, v) == (doors_before(
                kind,
                cl,
                cv,
                cv.rooms.len() as int,
                0,
                u,
                v,
            ) || warps_before(kind, cl, cv, k as int, u, v)),
        decreases cv.warps.len() - k,
    {
        let f = cl.warp_from[k];
        let t = cl.warp_to[k];
        proof {
            lemma_warps_step(kind, cl, cv, k as int);
        }
        let ghost g0 = adj_view(&g);
        match kind {
            EdgeKind::Moves => {
                add_edge(&mut g, f, t);
            },
            EdgeKind::DoorMoves => {},
            EdgeKind::Joined => {
                add_edge(&mut g, f, t);
                add_edge(&mut g, t, f);
            },
        }
        proof {
            assert forall|u: usize, v: usize| #[trigger] has_edge(adj_view(&g), u, v) == (doors_before(
                kind,
                cl,
                cv,
                cv.rooms.len() as int,
                0,
                u,
                v,
            ) || warps_before(kind, cl, cv, k + 1, u, v)) by {
                assert(warps_before(kind, cl, cv, k + 1, u, v) == (warps_before(kind, cl, cv, k as int, u, v)
                    || idx_warp(kind, cl, cv, k as int, u, v)));
                assert(has_edge(g0, u, v) == (doors_before(kind, cl, cv, cv.rooms.len() as int, 0, u, v)
                    || warps_before(kind, cl, cv, k as int, u, v)));
            }
        }
        k = k + 1;
    }
    proof {
        assert forall|u: usize, v: usize|
            (u as int) < g@.len() && (v as int) < g@.len() implies #[trigger] has_edge(adj_view(&g), u, v)
                == kind_edge(kind, cv, cl.names@[u as int]@, cl.names@[v as int]@) by {
            lemma_idx_names(kind, cl, cv, u, v);
        }
    }
    g
}

// ───────────────────────── walks on names and on numbers ─────────────────────────

/// The number of a name (meaningful for names that have one).
pub open spec fn number_of(cl: &Cells, x: Seq<char>) -> usize {
    (choose|u: int| 0 <= u < cl.names@.len() && (#[trigger] cl.names@[u])@ == x) as usize
}

pub proof fn lemma_number_of(cl: &Cells, c: ComplexView, x: Seq<char>)
    requires
        cells_ok(cl, c),
        has_name(cl.names@, x),
    ensures
        (number_of(cl, x) as int) < cl.names@.len(),
        cl.names@[number_of(cl, x) as int]@ == x,
        forall|u: int| 0 <= u < cl.names@.len() && (#[trigger] cl.names@[u])@ == x ==> u == number_of(cl, x),
{
    let w = choose|u: int| 0 <= u < cl.names@.len() && (#[trigger] cl.names@[u])@ == x;
    assert(0 <= w < cl.names@.len() && cl.names@[w]@ == x);
    assert((w as usize) as int == w);
    assert(number_of(cl, x) as int == w);
    assert forall|u: int| 0 <= u < cl.names@.len() && (#[trigger] cl.names@[u])@ == x implies u == number_of(
        cl,
        x,
    ) by {
        if u != w {
            assert(cl.names@[u]@ != cl.names@[w]@);
        }
    }
}

/// Both ends of a walk of more than one vertex are vertices of the complex.
pub proof fn lemma_walk_ends_are_nodes(kind: EdgeKind, c: ComplexView, p: Seq<Seq<char>>)
    requires
        is_walk(p, kind_rel(kind, c)),
        p.len() > 1,
    ensures
        is_node(c, p[0]),
        is_node(c, p.last()),
{
    assert(step_ok(p, kind_rel(kind, c), 0));
    lemma_edge_ends_are_nodes(kind, c, p[0], p[1]);
    assert(step_ok(p, kind_rel(kind, c), p.len() - 2));
    lemma_edge_ends_are_nodes(kind, c, p[p.len() - 2], p[p.len() - 1]);
}

/// Two distinct vertices joined by a walk are vertices of the complex.
pub proof fn lemma_reach_ends_are_nodes(kind: EdgeKind, c: ComplexView, a: Seq<char>, b: Seq<char>)
    requires
        reachable(kind_rel(kind, c), a, b),
        a != b,
    ensures
        is_node(c, a),
        is_node(c, b),
{
    let p = choose|p: Seq<Seq<char>>| #[trigger] walk_between(p, kind_rel(kind, c), a, b);
    lemma_walk_ends_are_nodes(kind, c, p);
}

/// A walk between numbers, read as names.
pub proof fn lemma_walk_to_names(g: Seq<Seq<usize>>, cl: &Cells, c: ComplexView, kind: EdgeKind, p: Seq<usize>)
    requires
        cells_ok(cl, c),
        graph_of(g, cl, c, kind),
        is_walk(p, edge_rel(g)),
        (p[0] as int) < g.len(),
    ensures
        is_walk(p.map_values(|x: usize| cl.names@[x as int]@), kind_rel(kind, c)),
        p.map_values(|x: usize| cl.names@[x as int]@).len() == p.len(),
        p.map_values(|x: usize| cl.names@[x as int]@)[0] == cl.names@[p[0] as int]@,
        p.map_values(|x: usize| cl.names@[x as int]@).last() == cl.names@[p.last() as int]@,
{
    let f = |x: usize| cl.names@[x as int]@;
    assert forall|i: int| 0 <= i < p.len() - 1 && #[trigger] step_ok(p, edge_rel(g), i) implies kind_rel(
        kind,
        c,
    )(f(p[i]), f(p[i + 1])) by {
        let x = p[i];
        let y = p[i + 1];
        assert(has_edge(g, x, y));
        let m = choose|m: int| 0 <= m < g[x as int].len() && g[x as int][m] == y;
        assert(g[x as int][m] == y);
    }
    lemma_walk_map(p, edge_rel(g), kind_rel(kind, c), f);
}

/// A walk between names, read as numbers.
pub proof fn lemma_walk_to_numbers(
    g: Seq<Seq<usize>>,
    cl: &Cells,
    c: ComplexView,
    kind: EdgeKind,
    q: Seq<Seq<char>>,
) -> (p: Seq<usize>)
    requires
        cells_ok(cl, c),
        graph_of(g, cl, c, kind),
        is_walk(q, kind_rel(kind, c)),
        has_name(cl.names@, q[0]),
    ensures
        is_walk(p, edge_rel(g)),
        p.len() == q.len(),
        forall|i: int| 0 <= i < p.len() ==> (#[trigger] p[i] as int) < g.len() && cl.names@[p[i] as int]@ == q[i],
{
    let f = |x: Seq<char>| number_of(cl, x);
    assert forall|i: int| 0 <= i < q.len() implies has_name(cl.names@, #[trigger] q[i]) by {
        if i > 0 {
            assert(step_ok(q, kind_rel(kind, c), i - 1));
            lemma_edge_ends_are_nodes(kind, c, q[i - 1], q[i]);
            lemma_node_has_name(cl, c, q[i]);
        }
    }
    assert forall|i: int| 0 <= i < q.len() implies (#[trigger] f(q[i]) as int) < g.len() && cl.names@[f(q[i]) as int]@
        == q[i] by {
        lemma_number_of(cl, c, q[i]);
    }
    assert forall|i: int| 0 <= i < q.len() - 1 && #[trigger] step_ok(q, kind_rel(kind, c), i) implies edge_rel(g)(
        f(q[i]),
        f(q[i + 1]),
    ) by {
        assert(has_name(cl.names@, q[i]));
        assert(has_name(cl.names@, q[i + 1]));
        lemma_number_of(cl, c, q[i]);
        lemma_number_of(cl, c, q[i + 1]);
    }
    lemma_walk_map(q, kind_rel(kind, c), edge_rel(g), f);
    let p = q.map_values(f);
    assert forall|i: int| 0 <= i < p.len() implies (#[trigger] p[i] as int) < g.len() && cl.names@[p[i] as int]@
        == q[i] by {
        assert(p[i] == f(q[i]));
    }
    p
}

/// Reachability between numbers is reachability between their names.
pub proof fn lemma_reach_transfer(
    g: Seq<Seq<usize>>,
    cl: &Cells,
    c: ComplexView,
    kind: EdgeKind,
    u: usize,
    v: usize,
)
    requires
        cells_ok(cl, c),
        graph_of(g, cl, c, kind),
        (u as int) < g.len(),
        (v as int) < g.len(),
    ensures
        reachable(edge_rel(g), u, v) == reachable(kind_rel(kind, c), cl.names@[u as int]@, cl.names@[v as int]@),
{
    let a = cl.names@[u as int]@;
    let b = cl.names@[v as int]@;
    if reachable(edge_rel(g), u, v) {
        let p = choose|p: Seq<usize>| #[trigger] walk_between(p, edge_rel(g), u, v);
        lemma_walk_to_names(g, cl, c, kind, p);
        let q = p.map_values(|x: usize| cl.names@[x as int]@);
        assert(walk_between(q, kind_rel(kind, c), a, b));
    }
    if reachable(kind_rel(kind, c), a, b) {
        let q = choose|q: Seq<Seq<char>>| #[trigger] walk_between(q, kind_rel(kind, c), a, b);
        assert(has_name(cl.names@, q[0]));
        let p = lemma_walk_to_numbers(g, cl, c, kind, q);
        assert(cl.names@[p[0] as int]@ == cl.names@[u as int]@);
        assert(cl.names@[p.last() as int]@ == cl.names@[v as int]@);
        assert(p[0] == u);
        assert(p.last() == v);
        assert(walk_between(p, edge_rel(g), u, v));
    }
}

/// The number of the name equal to `s`, if there is one.
pub fn find_name(names: &Vec<&String>, s: &String) -> (r: Option<usize>)
    ensures
        r is None <==> !has_name(names@, s@),
        r matches Some(u) ==> (u as int) < names@.len() && names@[u as int]@ == s@,
{
    let mut i: usize = 0;
    while i < names.len()
        invariant
            i <= names@.len(),
            forall|u: int| 0 <= u < i ==> (#[trigger] names@[u])@ != s@,
        decreases names@.len() - i,
    {
        if *names[i] == *s {
            return Some(i);
        }
        i = i + 1;
    }
    None
}

} // verus!
