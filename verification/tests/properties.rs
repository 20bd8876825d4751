//! Checks on concrete values of what the library states in general.

use room_topology::cover::{is_simply_connected, universal_cover};
use room_topology::fundamental::{
    compute_fundamental_group, count_door_cycles, is_contractible, reduce_word, spanning_tree,
};
use room_topology::homology::compute_homology;
use room_topology::{ContinuityClass, Door, FundamentalGroup, Homology, Room, RoomComplex, Warp};

fn triangle() -> RoomComplex {
    let a = Room::new("A").with_exit(Door::new("A", "B")).with_exit(Door::new("A", "C"));
    let b = Room::new("B").with_exit(Door::new("B", "A")).with_exit(Door::new("B", "C"));
    let c = Room::new("C").with_exit(Door::new("C", "A")).with_exit(Door::new("C", "B"));
    RoomComplex::from_parts(vec![a, b, c], vec![])
}

fn pair_with_warp() -> RoomComplex {
    let a = Room::new("A").with_exit(Door::new("A", "B"));
    let b = Room::new("B").with_exit(Door::new("B", "A"));
    RoomComplex::from_parts(vec![a, b], vec![Warp::new("B", "A", "tp")])
}

fn ring(n: usize) -> RoomComplex {
    let mut rooms = Vec::new();
    for i in 0..n {
        let here = format!("r{i}");
        let next = format!("r{}", (i + 1) % n);
        let prev = format!("r{}", (i + n - 1) % n);
        rooms.push(
            Room::new(&here)
                .with_exit(Door::new(&here, &next))
                .with_exit(Door::new(&here, &prev)),
        );
    }
    RoomComplex::from_parts(rooms, vec![])
}

// ─── doors ───

#[test]
fn reverse_twice_gives_the_door_back() {
    let d = Door::smooth("hall", "vault");
    let back = d.reverse().unwrap().reverse().unwrap();
    assert_eq!(back, d);
    assert_eq!(back.continuity, ContinuityClass::C1);
}

#[test]
fn one_way_with_continuity_keeps_direction() {
    let d = Door::one_way("x", "y").with_continuity(ContinuityClass::C1);
    assert_eq!(d.from, "x");
    assert_eq!(d.to, "y");
    assert!(!d.bidirectional);
    assert_eq!(Door::new("x", "y").continuity, ContinuityClass::C0);
}

// ─── rooms ───

#[test]
fn room_accessors_follow_exit_order() {
    let r = Room::new("hub")
        .with_exit(Door::new("hub", "s"))
        .with_exit(Door::new("hub", "n"))
        .with_exit(Door::new("hub", "s"));
    assert_eq!(r.neighbors(), vec!["s", "n", "s"]);
    assert_eq!(r.dimension(), 2);
    assert!(r.has_exit_to("n"));
    assert!(!r.has_exit_to("hub"));
    assert_eq!(Room::new("empty").dimension(), 0);
}

// ─── the complex ───

#[test]
fn room_lookup_finds_the_first_room_with_the_id() {
    let first = Room::new("A").with_exit(Door::new("A", "B"));
    let second = Room::new("A");
    let complex = RoomComplex::from_parts(vec![first, second, Room::new("B")], vec![]);
    assert_eq!(complex.room("A").unwrap().exits.len(), 1);
    assert!(complex.room("Z").is_none());
    assert_eq!(complex.room_ids(), vec!["A", "A", "B"]);
}

#[test]
fn connectivity_is_reflexive_and_transitive() {
    let complex = triangle();
    assert!(complex.is_connected("A", "A"));
    assert!(complex.is_connected("nowhere", "nowhere"));
    assert!(!complex.is_connected("A", "nowhere"));
    let a = Room::new("A").with_exit(Door::one_way("A", "B"));
    let b = Room::new("B").with_exit(Door::one_way("B", "C"));
    let chain = RoomComplex::from_parts(vec![a, b, Room::new("C")], vec![]);
    assert!(chain.is_connected("A", "B"));
    assert!(chain.is_connected("B", "C"));
    assert!(chain.is_connected("A", "C"));
    assert!(!chain.is_connected("C", "A"));
}

#[test]
fn warps_are_one_way_moves() {
    let complex = RoomComplex::from_parts(
        vec![Room::new("A"), Room::new("B")],
        vec![Warp::new("A", "B", "drop")],
    );
    assert!(complex.is_connected("A", "B"));
    assert!(!complex.is_connected("B", "A"));
    assert_eq!(complex.find_path("A", "B").unwrap(), vec!["A", "B"]);
    assert!(complex.find_path("B", "A").is_none());
    assert_eq!(complex.connected_components(), 1);
}

#[test]
fn find_path_is_shortest() {
    let complex = ring(6);
    let path = complex.find_path("r0", "r2").unwrap();
    assert_eq!(path.len(), 3);
    assert_eq!(path[0], "r0");
    assert_eq!(path[2], "r2");
    assert_eq!(complex.find_path("r3", "r3").unwrap(), vec!["r3"]);
}

#[test]
fn components_lie_between_one_and_room_count() {
    let lone = RoomComplex::from_parts(vec![Room::new("a"), Room::new("b"), Room::new("c"), Room::new("d")], vec![]);
    assert_eq!(lone.connected_components(), 4);
    assert_eq!(triangle().connected_components(), 1);
    assert_eq!(RoomComplex::new().connected_components(), 0);
}

#[test]
fn cycle_count_counts_distinct_rooms() {
    let complex = triangle();
    assert_eq!(complex.cycle_count(), 1);
    let twice = RoomComplex::from_parts(vec![Room::new("A"), Room::new("A")], vec![]);
    assert_eq!(twice.cycle_count(), 0);
    assert_eq!(RoomComplex::new().cycle_count(), 0);
}

#[test]
fn adjacency_lists_every_place_once() {
    let a = Room::new("A").with_exit(Door::one_way("A", "B"));
    let complex = RoomComplex::from_parts(vec![a, Room::new("B")], vec![Warp::new("B", "C", "w")]);
    let adj = complex.adjacency();
    let find = |k: &str| adj.iter().find(|(key, _)| *key == k).map(|(_, v)| v.clone());
    assert_eq!(find("A").unwrap(), vec!["B"]);
    assert_eq!(find("B").unwrap(), vec!["C"]);
    let doors = complex.door_adjacency();
    let find_door = |k: &str| doors.iter().find(|(key, _)| *key == k).map(|(_, v)| v.clone());
    assert_eq!(find_door("A").unwrap(), vec!["B"]);
    assert!(find_door("C").is_none());
}

// ─── homology and the fundamental group ───

#[test]
fn homology_text_writes_every_digit() {
    let hom = Homology { h0: 10, h1: 305, h2: 0 };
    assert_eq!(hom.to_string(), "H₀=10, H₁=305, H₂=0");
    assert_eq!(Homology::zero().to_string(), "H₀=0, H₁=0, H₂=0");
}

#[test]
fn euler_characteristic_is_rooms_minus_edges() {
    // three rooms, three door edges
    assert_eq!(compute_homology(&triangle()).euler_characteristic(), 0);
    // six rooms in a ring: χ = 6 − 6
    assert_eq!(compute_homology(&ring(6)).euler_characteristic(), 0);
    // two rooms, one door edge and one warp: χ = 2 − 2
    assert_eq!(compute_homology(&pair_with_warp()).euler_characteristic(), 0);
    let h = Homology { h0: 1, h1: 4, h2: 0 };
    assert_eq!(h.euler_characteristic(), -3);
}

#[test]
fn pi1_is_trivial_exactly_when_h1_is_zero() {
    for complex in [triangle(), ring(5), pair_with_warp(), RoomComplex::from_parts(vec![Room::new("x")], vec![])] {
        let h = compute_homology(&complex);
        let g = compute_fundamental_group(&complex);
        assert_eq!(g.is_trivial(), h.h1 == 0);
        assert_eq!(g.rank, h.h1);
        assert_eq!(g.rank, g.generators.len());
        assert!(g.relations.is_empty());
    }
}

#[test]
fn ring_of_five_has_one_free_generator() {
    let g = compute_fundamental_group(&ring(5));
    assert_eq!(g.rank, 1);
    assert_eq!(g.generators, vec!["c_0".to_string()]);
}

#[test]
fn generators_name_warps_then_cycles() {
    // a square with a warp across: H₁ = 5 − 4 + 1 = 2, one warp
    let a = Room::new("A").with_exit(Door::new("A", "B")).with_exit(Door::new("A", "D"));
    let b = Room::new("B").with_exit(Door::new("B", "C"));
    let c = Room::new("C").with_exit(Door::new("C", "D"));
    let d = Room::new("D");
    let complex = RoomComplex::from_parts(vec![a, b, c, d], vec![Warp::new("A", "C", "diag")]);
    let g = compute_fundamental_group(&complex);
    assert_eq!(g.generators, vec!["w_diag".to_string(), "c_0".to_string()]);
    // more warps than cycles: every warp still names a generator
    let lone = RoomComplex::from_parts(
        vec![Room::new("A"), Room::new("B")],
        vec![Warp::new("A", "B", "p"), Warp::new("A", "B", "q")],
    );
    let g = compute_fundamental_group(&lone);
    assert_eq!(compute_homology(&lone).h1, 1);
    // the first warp only joins A to B; the second closes the cycle
    assert_eq!(g.generators, vec!["w_q".to_string()]);
    // a warp that joins a room otherwise cut off adds no generator
    let a = Room::new("A").with_exit(Door::new("A", "B"));
    let b = Room::new("B").with_exit(Door::new("B", "A"));
    let c = Room::new("C");
    let bridged = RoomComplex::from_parts(vec![a, b, c], vec![Warp::new("A", "B", "x"), Warp::new("B", "C", "y")]);
    let g = compute_fundamental_group(&bridged);
    assert_eq!(g.rank, 1);
    assert_eq!(g.rank, bridged.cycle_count());
    assert_eq!(g.generators, vec!["w_x".to_string()]);
}

#[test]
fn free_group_generators_are_numbered() {
    let g = FundamentalGroup::free(3);
    assert_eq!(g.generators, vec!["g0".to_string(), "g1".to_string(), "g2".to_string()]);
    assert!(g.relations.is_empty());
    let t = FundamentalGroup::trivial();
    assert!(t.is_trivial());
    assert!(t.generators.is_empty());
}

// ─── words ───

#[test]
fn reduction_is_idempotent_and_leaves_no_pair() {
    for w in ["aBbAcA", "abCCba", "xXyYzZ", "aAbBcCCcBbAa", "ab", "", "é1!"] {
        let r = reduce_word(w);
        assert_eq!(reduce_word(&r), r);
        let chars: Vec<char> = r.chars().collect();
        for pair in chars.windows(2) {
            assert!(!(pair[0] != pair[1] && pair[0].eq_ignore_ascii_case(&pair[1])));
        }
    }
}

#[test]
fn a_word_times_its_inverse_is_contractible() {
    assert!(is_contractible("abcCBA"));
    assert!(is_contractible("xyZzYX"));
    assert!(!is_contractible("abcABC"));
    assert_eq!(reduce_word("abcABC"), "abcABC");
    // only letters of the same kind cancel
    assert_eq!(reduce_word("aa"), "aa");
    assert_eq!(reduce_word("1!"), "1!");
}

// ─── the spanning forest ───

#[test]
fn spanning_tree_of_triangle_hangs_from_first_room() {
    let mut t = spanning_tree(&triangle());
    t.sort();
    assert_eq!(t, vec![("A".to_string(), "B".to_string()), ("A".to_string(), "C".to_string())]);
}

#[test]
fn spanning_forest_has_a_root_per_unreached_room() {
    // two separate corridors; one-way door into a dead end
    let a = Room::new("A").with_exit(Door::new("A", "B"));
    let b = Room::new("B").with_exit(Door::new("B", "A"));
    let c = Room::new("C").with_exit(Door::one_way("C", "D"));
    let complex = RoomComplex::from_parts(vec![a, b, c, Room::new("D")], vec![]);
    let mut t = spanning_tree(&complex);
    t.sort();
    assert_eq!(
        t,
        vec![("A".to_string(), "B".to_string()), ("C".to_string(), "D".to_string())]
    );
    assert!(spanning_tree(&RoomComplex::new()).is_empty());
}

// ─── the cover ───

#[test]
fn unfolding_one_layer_deep() {
    let cov = universal_cover(&pair_with_warp(), 1);
    assert_eq!(cov.lifts, vec!["A_0".to_string(), "B_0".to_string()]);
    assert_eq!(cov.cover_edges, vec![("A_0".to_string(), "B_0".to_string())]);
    assert_eq!(cov.project("B_0"), Some("B"));
    assert_eq!(cov.project("A_1"), None);
}

#[test]
fn unfolding_two_layers_deep() {
    // B_0 steps back through its door to A_0, already seen: no edge;
    // through the warp it reaches the next lift of A
    let cov = universal_cover(&pair_with_warp(), 2);
    assert_eq!(cov.lifts, vec!["A_0".to_string(), "B_0".to_string(), "A_1".to_string()]);
    assert_eq!(
        cov.cover_edges,
        vec![("A_0".to_string(), "B_0".to_string()), ("B_0".to_string(), "A_1".to_string())]
    );
    assert_eq!(cov.project("A_1"), Some("A"));
}

#[test]
fn unfolding_three_layers_deep_path() {
    let cov = universal_cover(&pair_with_warp(), 3);
    assert_eq!(
        cov.lifts,
        vec!["A_0".to_string(), "B_0".to_string(), "A_1".to_string(), "B_1".to_string()]
    );
    let last = &cov.lifts[cov.lifts.len() - 1];
    assert_eq!(cov.find_path(&cov.lifts[0], last).unwrap(), vec!["A_0", "B_0", "A_1", "B_1"]);
}

fn edges_follow_exits_and_warps(complex: &RoomComplex, cov: &room_topology::Cover) -> bool {
    cov.cover_edges.iter().all(|(x, y)| {
        let px = cov.project(x).unwrap();
        let py = cov.project(y).unwrap();
        let by_door = complex.room(px).map_or(false, |r| r.has_exit_to(py));
        let by_warp = complex.warps.iter().any(|w| w.from == px && w.to == py);
        by_door || by_warp
    })
}

#[test]
fn one_warp_cycle_unfolds_into_a_tree() {
    let complex = pair_with_warp();
    let cov = universal_cover(&complex, 5);
    assert!(cov.lift_count() > 2);
    assert_eq!(cov.cover_edges.len() + 1, cov.lift_count());
    assert!(is_simply_connected(&cov));
    assert!(edges_follow_exits_and_warps(&complex, &cov));
}

#[test]
fn unfolding_steps_only_forward() {
    // B has a one-way door to A and a warp to A; nothing leaves A
    let b = Room::new("B").with_exit(Door::one_way("B", "A"));
    let complex = RoomComplex::from_parts(vec![Room::new("A"), b], vec![Warp::new("B", "A", "tp")]);
    assert!(!compute_fundamental_group(&complex).is_trivial());
    let cov = universal_cover(&complex, 4);
    assert_eq!(cov.lifts, vec!["A_0".to_string()]);
    assert!(cov.cover_edges.is_empty());
    let flipped = RoomComplex::from_parts(
        vec![Room::new("B").with_exit(Door::one_way("B", "A")), Room::new("A")],
        vec![Warp::new("B", "A", "tp")],
    );
    let cov = universal_cover(&flipped, 4);
    assert_eq!(cov.lifts, vec!["B_0".to_string(), "A_0".to_string(), "A_1".to_string()]);
    assert!(edges_follow_exits_and_warps(&flipped, &cov));
}

#[test]
fn unfolded_triangle_has_no_loop() {
    let cov = universal_cover(&triangle(), 3);
    assert_eq!(cov.cover_edges.len() + 1, cov.lift_count());
    assert!(is_simply_connected(&cov));
    for (a, b) in &cov.cover_edges {
        assert_ne!(a, b);
    }
    let mut names = cov.lifts.clone();
    names.sort();
    names.dedup();
    assert_eq!(names.len(), cov.lift_count());
}

#[test]
fn a_warp_that_bridges_keeps_the_cover_connected() {
    let complex = RoomComplex::from_parts(vec![Room::new("A"), Room::new("B")], vec![Warp::new("A", "B", "drop")]);
    assert!(compute_fundamental_group(&complex).is_trivial());
    let cov = universal_cover(&complex, 3);
    assert_eq!(cov.lifts, vec!["A".to_string(), "B".to_string()]);
    assert_eq!(cov.cover_edges, vec![("A".to_string(), "B".to_string())]);
    assert!(is_simply_connected(&cov));
}

#[test]
fn unfolded_cover_connects_every_pair_of_lifts() {
    for depth in [0, 1, 3, 6] {
        let cov = universal_cover(&pair_with_warp(), depth);
        assert!(is_simply_connected(&cov));
        for from in &cov.lifts {
            for to in &cov.lifts {
                assert!(cov.find_path(from, to).is_some());
            }
        }
    }
}

#[test]
fn every_lift_projects_onto_a_place() {
    let a = Room::new("A").with_exit(Door::new("A", "B"));
    let complex = RoomComplex::from_parts(vec![a, Room::new("B")], vec![Warp::new("B", "Z", "out")]);
    for depth in [0, 2, 5] {
        let cov = universal_cover(&complex, depth);
        for lift in &cov.lifts {
            let orig = cov.project(lift).unwrap();
            assert!(orig == "A" || orig == "B" || orig == "Z");
        }
    }
}

#[test]
fn trivial_cover_is_the_complex_itself() {
    let a = Room::new("A").with_exit(Door::new("A", "B"));
    let b = Room::new("B").with_exit(Door::new("B", "A")).with_exit(Door::new("B", "C"));
    let c = Room::new("C").with_exit(Door::new("C", "B"));
    let chain = RoomComplex::from_parts(vec![a, b, c], vec![]);
    let cov = universal_cover(&chain, 3);
    assert_eq!(cov.lifts, vec!["A".to_string(), "B".to_string(), "C".to_string()]);
    assert_eq!(cov.cover_edges.len(), 4);
    assert_eq!(cov.cover_edges[1], ("B".to_string(), "A".to_string()));
    assert_eq!(cov.project("C"), Some("C"));
    // a trivial cover of a disconnected complex is not connected
    let apart = RoomComplex::from_parts(vec![Room::new("A"), Room::new("B")], vec![]);
    assert!(!is_simply_connected(&universal_cover(&apart, 3)));
}

#[test]
fn a_back_edge_in_a_tree_adds_the_first_generator() {
    // a binary tree of 15 rooms, doors both ways between parent and child
    let mut rooms: Vec<Room> = Vec::new();
    for i in 0..15usize {
        let id = format!("n{i}");
        let mut room = Room::new(&id);
        if i > 0 {
            room = room.with_exit(Door::new(&id, &format!("n{}", (i - 1) / 2)));
        }
        for child in [2 * i + 1, 2 * i + 2] {
            if child < 15 {
                room = room.with_exit(Door::new(&id, &format!("n{child}")));
            }
        }
        rooms.push(room);
    }
    let tree = RoomComplex::from_parts(rooms.clone(), vec![]);
    let h = compute_homology(&tree);
    assert_eq!((h.h0, h.h1, h.h2), (1, 0, 0));
    assert_eq!(h.euler_characteristic(), 1);
    assert!(compute_fundamental_group(&tree).is_trivial());
    assert_eq!(spanning_tree(&tree).len(), 14);

    let leaf = rooms.pop().unwrap().with_exit(Door::new("n14", "n0"));
    rooms.push(leaf);
    let looped = RoomComplex::from_parts(rooms, vec![]);
    let h = compute_homology(&looped);
    assert_eq!(h.h1, 1);
    assert_eq!(h.euler_characteristic(), 0);
    let g = compute_fundamental_group(&looped);
    assert_eq!(g.rank, 1);
    assert_eq!(g.generators, vec!["c_0".to_string()]);
}

#[test]
fn a_warp_inside_a_component_adds_one_to_h1() {
    let a = Room::new("A").with_exit(Door::new("A", "B"));
    let b = Room::new("B").with_exit(Door::new("B", "A")).with_exit(Door::new("B", "C"));
    let c = Room::new("C").with_exit(Door::new("C", "B"));
    let mut complex = RoomComplex::from_parts(vec![a, b, c], vec![]);
    let before = compute_homology(&complex);
    complex.add_warp(Warp::new("A", "C", "w"));
    let after = compute_homology(&complex);
    assert_eq!(after.h0, before.h0);
    assert_eq!(after.h1, before.h1 + 1);
    assert_eq!(after.euler_characteristic(), before.euler_characteristic() - 1);
    assert_eq!(compute_fundamental_group(&complex).generators, vec!["w_w".to_string()]);
}

#[test]
fn reduction_respects_products() {
    let words = ["aBbAcA", "abCCba", "Aa", "xyz", "ZYX", "", "bAa"];
    for u in words {
        for v in words {
            let joined = format!("{u}{v}");
            let reduced = format!("{}{}", reduce_word(u), reduce_word(v));
            assert_eq!(reduce_word(&joined), reduce_word(&reduced));
        }
    }
}

#[test]
fn door_adjacency_is_adjacency_without_warps() {
    let a = Room::new("A").with_exit(Door::new("A", "B"));
    let b = Room::new("B").with_exit(Door::one_way("B", "C"));
    let with_warp = RoomComplex::from_parts(vec![a.clone(), b.clone()], vec![Warp::new("C", "A", "back")]);
    let without = RoomComplex::from_parts(vec![a, b], vec![]);
    let mut doors: Vec<(String, Vec<String>)> = with_warp
        .door_adjacency()
        .into_iter()
        .map(|(k, v)| (k.to_string(), v.into_iter().map(|s| s.to_string()).collect()))
        .collect();
    let mut plain: Vec<(String, Vec<String>)> = without
        .adjacency()
        .into_iter()
        .map(|(k, v)| (k.to_string(), v.into_iter().map(|s| s.to_string()).collect()))
        .collect();
    doors.sort();
    plain.sort();
    assert_eq!(doors, plain);
    let all = with_warp.adjacency();
    let c_entry = all.iter().find(|(k, _)| *k == "C").unwrap();
    assert_eq!(c_entry.1, vec!["A"]);
}

#[test]
fn inverse_then_word_is_contractible() {
    for w in ["abc", "xYz", "Q", ""] {
        let inv: String = w
            .chars()
            .rev()
            .map(|c| if c.is_ascii_uppercase() { c.to_ascii_lowercase() } else { c.to_ascii_uppercase() })
            .collect();
        assert!(is_contractible(&format!("{w}{inv}")));
        assert!(is_contractible(&format!("{inv}{w}")));
    }
}

#[test]
fn door_cycles_leave_warps_out() {
    assert_eq!(count_door_cycles(&triangle()), 1);
    assert_eq!(count_door_cycles(&pair_with_warp()), 0);
    assert_eq!(count_door_cycles(&ring(5)), 1);
    assert_eq!(count_door_cycles(&RoomComplex::new()), 0);
}
