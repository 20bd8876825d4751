//! The fundamental group π₁ of a room complex, and the word problem for
//! free groups: free reduction of words in the generators.
//!
//! A word is a string of generator letters; a lowercase letter is a generator
//! and the same letter in uppercase is its inverse.
use vstd::prelude::*;
use crate::text::{push_char, append_decimal, decimal};
use vstd::string::StringExecFns;
use crate::complex::{
    ComplexView, RoomComplex, cyclomatic_number, door_list, door_moves, door_moves_rel, joined_rel, room_id_seq,
    unordered, warp_closes_cycle, with_warps_before,
};
use crate::cells::{
    Cells, EdgeKind, build_cells, build_graph, cells_ok, graph_of, kind_rel, lemma_kind_rel_door_moves,
    lemma_reach_transfer, lemma_walk_to_names, lemma_walk_to_numbers, lemma_reach_ends_are_nodes,
    lemma_node_has_name, lemma_number_of, number_of, has_name, distinct_names,
};
use crate::graph::{
    adj_view, bfs, bfs_result, edge_rel, has_edge, is_shortest_walk, lemma_bfs_facts, lemma_bfs_parent,
    lemma_bfs_walk, reachable, walk_between,
};
use crate::warp::WarpView;
use crate::counting::{
    edge_list, law_edges_and_components_cover_rooms, lemma_components_are_openers, lemma_distinct_doors_count,
    lemma_edge_list_links, lemma_openers_edges, lemma_openers_one_edge, lemma_openers_same_when_joined, openers,
};
use crate::unfold::{distinct_doors, edge_links, warp_pairs};
use crate::graph::lemma_reach_mono;

verus! {

// ───────────────────────── the word problem ─────────────────────────

/// The code of `c` after ASCII lowercasing (as `char::to_ascii_lowercase`).
pub open spec fn folded(c: char) -> u32 {
    if 65 <= (c as u32) && (c as u32) <= 90 {
        ((c as u32) + 32) as u32
    } else {
        c as u32
    }
}

/// Two adjacent letters cancel when they differ but are equal ignoring ASCII
/// case: `a` and `A` are mutually inverse.
pub open spec fn cancels(a: char, b: char) -> bool {
    a != b && folded(a) == folded(b)
}

/// One step of free reduction: push `c` onto the reduced prefix `st`, or
/// cancel it against the last letter.
pub open spec fn reduce_step(st: Seq<char>, c: char) -> Seq<char> {
    if st.len() > 0 && cancels(st.last(), c) {
        st.drop_last()
    } else {
        st.push(c)
    }
}

/// Feed the letters of `w`, left to right, into the stack `st`.
pub open spec fn reduce_from(st: Seq<char>, w: Seq<char>) -> Seq<char>
    decreases w.len(),
{
    if w.len() == 0 {
        st
    } else {
        reduce_step(reduce_from(st, w.drop_last()), w.last())
    }
}

/// The free reduction of a word: every adjacent generator–inverse pair is
/// cancelled, scanning left to right with a stack.
pub open spec fn free_reduction(w: Seq<char>) -> Seq<char> {
    reduce_from(Seq::empty(), w)
}

/// A word is reduced when no two adjacent letters cancel.
pub open spec fn is_reduced(w: Seq<char>) -> bool {
    forall|i: int| 0 <= i < w.len() - 1 ==> !#[trigger] cancels_at(w, i)
}

pub open spec fn cancels_at(w: Seq<char>, i: int) -> bool {
    cancels(w[i], w[i + 1])
}

/// An ASCII letter.
pub open spec fn is_ascii_letter(c: char) -> bool {
    (65 <= (c as u32) && (c as u32) <= 90) || (97 <= (c as u32) && (c as u32) <= 122)
}

/// The inverse of a generator letter: the same letter in the other case.
pub open spec fn swap_case(c: char) -> char {
    if 65 <= (c as u32) && (c as u32) <= 90 {
        ((c as u32) + 32) as char
    } else if 97 <= (c as u32) && (c as u32) <= 122 {
        ((c as u32) - 32) as char
    } else {
        c
    }
}

/// The inverse of a word: reversed, with every letter inverted.
pub open spec fn inverse_word(w: Seq<char>) -> Seq<char>
    decreases w.len(),
{
    if w.len() == 0 {
        Seq::empty()
    } else {
        seq![swap_case(w.last())] + inverse_word(w.drop_last())
    }
}

proof fn lemma_reduce_from_append(st: Seq<char>, u: Seq<char>, v: Seq<char>)
    ensures
        reduce_from(st, u + v) == reduce_from(reduce_from(st, u), v),
    decreases v.len(),
{
    if v.len() == 0 {
        assert(u + v =~= u);
    } else {
        lemma_reduce_from_append(st, u, v.drop_last());
        assert((u + v).drop_last() =~= u + v.drop_last());
        assert((u + v).last() == v.last());
    }
}

proof fn lemma_step_keeps_reduced(st: Seq<char>, c: char)
    requires
        is_reduced(st),
    ensures
        is_reduced(reduce_step(st, c)),
{
    let r = reduce_step(st, c);
    assert forall|i: int| 0 <= i < r.len() - 1 implies !#[trigger] cancels_at(r, i) by {
        if st.len() > 0 && cancels(st.last(), c) {
            assert(cancels_at(st, i) == cancels_at(r, i));
        } else {
            if i < st.len() - 1 {
                assert(cancels_at(st, i) == cancels_at(r, i));
            }
        }
    }
}

/// The free reduction of any word is reduced.
pub proof fn lemma_free_reduction_is_reduced(w: Seq<char>)
    ensures
        is_reduced(free_reduction(w)),
    decreases w.len(),
{
    lemma_reduce_from_is_reduced(Seq::empty(), w);
}

proof fn lemma_reduce_from_is_reduced(st: Seq<char>, w: Seq<char>)
    requires
        is_reduced(st),
    ensures
        is_reduced(reduce_from(st, w)),
    decreases w.len(),
{
    if w.len() > 0 {
        lemma_reduce_from_is_reduced(st, w.drop_last());
        lemma_step_keeps_reduced(reduce_from(st, w.drop_last()), w.last());
    }
}

/// A reduced word is its own free reduction; in particular free reduction is
/// idempotent.
pub proof fn lemma_free_reduction_of_reduced(w: Seq<char>)
    requires
        is_reduced(w),
    ensures
        free_reduction(w) == w,
        free_reduction(free_reduction(w)) == free_reduction(w),
    decreases w.len(),
{
    if w.len() > 0 {
        let p = w.drop_last();
        assert(is_reduced(p)) by {
            assert forall|i: int| 0 <= i < p.len() - 1 implies !#[trigger] cancels_at(p, i) by {
                assert(cancels_at(p, i) == cancels_at(w, i));
            }
        }
        lemma_free_reduction_of_reduced(p);
        if p.len() > 0 {
            assert(cancels_at(w, p.len() - 1) == cancels(p.last(), w.last()));
        }
        assert(p.push(w.last()) =~= w);
    }
}

/// Free reduction is idempotent.
pub proof fn lemma_free_reduction_idempotent(w: Seq<char>)
    ensures
        free_reduction(free_reduction(w)) == free_reduction(w),
{
    lemma_free_reduction_is_reduced(w);
    lemma_free_reduction_of_reduced(free_reduction(w));
}

proof fn lemma_cancel_partner(x: char, z: char)
    requires
        is_ascii_letter(x),
        cancels(z, x),
    ensures
        z == swap_case(x),
{
}

/// Inserting a generator next to its inverse anywhere in a word does not
/// change the word's free reduction.
pub proof fn lemma_free_reduction_cancels_pair(u: Seq<char>, x: char, v: Seq<char>)
    requires
        is_ascii_letter(x),
    ensures
        free_reduction(u + seq![x, swap_case(x)] + v) == free_reduction(u + v),
{
    let y = swap_case(x);
    let r = free_reduction(u);
    lemma_free_reduction_is_reduced(u);
    lemma_reduce_from_append(Seq::empty(), u, seq![x, y]);
    assert(seq![x, y].drop_last() =~= seq![x]);
    assert(seq![x].drop_last() =~= Seq::<char>::empty());
    let s1 = reduce_step(r, x);
    assert(reduce_from(r, Seq::<char>::empty()) == r);
    assert(reduce_from(r, seq![x]) == reduce_step(r, x));
    assert(seq![x, y].last() == y);
    assert(reduce_from(r, seq![x, y]) == reduce_step(s1, y));
    if r.len() > 0 && cancels(r.last(), x) {
        lemma_cancel_partner(x, r.last());
        let r0 = r.drop_last();
        if r0.len() > 0 && cancels(r0.last(), y) {
            assert(is_ascii_letter(y));
            lemma_cancel_partner(y, r0.last());
            assert(swap_case(y) == x);
            assert(r0.last() == x);
            assert(cancels_at(r, r0.len() - 1));
        }
        assert(r0.push(y) =~= r);
    } else {
        assert(s1.drop_last() =~= r);
    }
    assert(free_reduction(u + seq![x, y]) == r);
    lemma_reduce_from_append(Seq::empty(), u + seq![x, y], v);
    lemma_reduce_from_append(Seq::empty(), u, v);
}

proof fn lemma_cancel_same(z: char, y: char, x: char)
    requires
        cancels(z, y),
        cancels(y, x),
    ensures
        z == x,
{
    let zz = z as u32;
    let yy = y as u32;
    let xx = x as u32;
    assert(zz != yy) by {
        if zz == yy {
            assert(z == y);
        }
    }
    assert(xx != yy) by {
        if xx == yy {
            assert(x == y);
        }
    }
    assert(zz == xx);
}

proof fn lemma_step_commutes(r: Seq<char>, s: Seq<char>, x: char)
    requires
        is_reduced(r),
    ensures
        reduce_from(r, reduce_step(s, x)) == reduce_step(reduce_from(r, s), x),
{
    if s.len() > 0 && cancels(s.last(), x) {
        let s1 = s.drop_last();
        let y = s.last();
        assert(s1.push(y) =~= s);
        let t = reduce_from(r, s1);
        lemma_reduce_from_is_reduced(r, s1);
        assert(reduce_from(r, s) == reduce_step(t, y));
        if t.len() > 0 && cancels(t.last(), y) {
            let t1 = t.drop_last();
            lemma_cancel_same(t.last(), y, x);
            assert(t1.push(x) =~= t);
            if t1.len() > 0 && cancels(t1.last(), x) {
                assert(cancels_at(t, t.len() - 2));
            }
        } else {
            assert(t.push(y).drop_last() =~= t);
        }
    } else {
        assert(s.push(x).drop_last() =~= s);
    }
}

proof fn lemma_reduce_from_normal(r: Seq<char>, v: Seq<char>)
    requires
        is_reduced(r),
    ensures
        reduce_from(r, v) == reduce_from(r, free_reduction(v)),
    decreases v.len(),
{
    if v.len() > 0 {
        lemma_reduce_from_normal(r, v.drop_last());
        lemma_step_commutes(r, free_reduction(v.drop_last()), v.last());
    }
}

/// Reducing a concatenation gives what reducing the concatenation of the two
/// reductions gives: free reduction respects products.
pub proof fn lemma_free_reduction_of_product(u: Seq<char>, v: Seq<char>)
    ensures
        free_reduction(u + v) == free_reduction(free_reduction(u) + free_reduction(v)),
{
    lemma_reduce_from_append(Seq::empty(), u, v);
    lemma_free_reduction_is_reduced(u);
    lemma_reduce_from_normal(free_reduction(u), v);
    lemma_reduce_from_append(Seq::empty(), free_reduction(u), free_reduction(v));
    lemma_free_reduction_idempotent(u);
}

/// Every word of ASCII letters followed by its inverse is contractible.
pub proof fn lemma_word_times_inverse_contractible(w: Seq<char>)
    requires
        forall|i: int| 0 <= i < w.len() ==> is_ascii_letter(#[trigger] w[i]),
    ensures
        free_reduction(w + inverse_word(w)).len() == 0,
    decreases w.len(),
{
    if w.len() == 0 {
        assert(w + inverse_word(w) =~= Seq::<char>::empty());
    } else {
        let p = w.drop_last();
        let x = w.last();
        assert forall|i: int| 0 <= i < p.len() implies is_ascii_letter(#[trigger] p[i]) by {
            assert(p[i] == w[i]);
        }
        lemma_word_times_inverse_contractible(p);
        lemma_free_reduction_cancels_pair(p, x, inverse_word(p));
        assert(w + inverse_word(w) =~= p + seq![x, swap_case(x)] + inverse_word(p));
    }
}

proof fn lemma_swap_case_involution(x: char)
    requires
        is_ascii_letter(x),
    ensures
        is_ascii_letter(swap_case(x)),
        swap_case(swap_case(x)) == x,
{
    let n = x as u32;
    if 65 <= n <= 90 {
        let y = ((n + 32) as u32) as char;
        assert((y as u32) == n + 32);
        assert(((y as u32 - 32) as u32) as char == x);
    } else {
        let y = ((n - 32) as u32) as char;
        assert((y as u32) == n - 32);
        assert(((y as u32 + 32) as u32) as char == x);
    }
}

proof fn lemma_inverse_word_letters(w: Seq<char>)
    requires
        forall|i: int| 0 <= i < w.len() ==> is_ascii_letter(#[trigger] w[i]),
    ensures
        inverse_word(w).len() == w.len(),
        forall|i: int| 0 <= i < inverse_word(w).len() ==> is_ascii_letter(#[trigger] inverse_word(w)[i]),
    decreases w.len(),
{
    if w.len() > 0 {
        let p = w.drop_last();
        assert forall|i: int| 0 <= i < p.len() implies is_ascii_letter(#[trigger] p[i]) by {
            assert(p[i] == w[i]);
        }
        lemma_inverse_word_letters(p);
        lemma_swap_case_involution(w.last());
        let v = inverse_word(w);
        assert forall|i: int| 0 <= i < v.len() implies is_ascii_letter(#[trigger] v[i]) by {
            if i > 0 {
                assert(v[i] == inverse_word(p)[i - 1]);
            }
        }
    }
}

proof fn lemma_inverse_word_concat(u: Seq<char>, v: Seq<char>)
    ensures
        inverse_word(u + v) == inverse_word(v) + inverse_word(u),
    decreases v.len(),
{
    if v.len() == 0 {
        assert(u + v =~= u);
        assert(inverse_word(v) + inverse_word(u) =~= inverse_word(u));
    } else {
        let p = v.drop_last();
        lemma_inverse_word_concat(u, p);
        assert((u + v).drop_last() =~= u + p);
        assert((u + v).last() == v.last());
        assert(inverse_word(u + v) =~= seq![swap_case(v.last())] + (inverse_word(p) + inverse_word(u)));
    }
}

/// Inverting a word of letters twice gives the word back.
pub proof fn lemma_inverse_word_involution(w: Seq<char>)
    requires
        forall|i: int| 0 <= i < w.len() ==> is_ascii_letter(#[trigger] w[i]),
    ensures
        inverse_word(inverse_word(w)) == w,
    decreases w.len(),
{
    if w.len() > 0 {
        let p = w.drop_last();
        let x = w.last();
        assert forall|i: int| 0 <= i < p.len() implies is_ascii_letter(#[trigger] p[i]) by {
            assert(p[i] == w[i]);
        }
        lemma_inverse_word_involution(p);
        lemma_swap_case_involution(x);
        lemma_inverse_word_concat(seq![swap_case(x)], inverse_word(p));
        let one = seq![swap_case(x)];
        assert(one.drop_last() =~= Seq::<char>::empty());
        assert(one.last() == swap_case(x));
        assert(inverse_word(Seq::<char>::empty()) =~= Seq::<char>::empty());
        assert(inverse_word(one) == seq![swap_case(swap_case(x))] + inverse_word(one.drop_last()));
        assert(inverse_word(one) =~= seq![swap_case(swap_case(x))]);
        assert(inverse_word(inverse_word(w)) =~= p + seq![x]);
        assert(p + seq![x] =~= w);
    }
}

/// The inverse of a word of letters followed by the word is contractible.
pub proof fn lemma_inverse_times_word_contractible(w: Seq<char>)
    requires
        forall|i: int| 0 <= i < w.len() ==> is_ascii_letter(#[trigger] w[i]),
    ensures
        free_reduction(inverse_word(w) + w).len() == 0,
{
    lemma_inverse_word_letters(w);
    lemma_word_times_inverse_contractible(inverse_word(w));
    lemma_inverse_word_involution(w);
}

fn folded_code(c: char) -> (r: u32)
    ensures
        r == folded(c),
{
    let code = c as u32;
    if 65 <= code && code <= 90 {
        code + 32
    } else {
        code
    }
}

/// The letters of the free reduction of `word`.
fn reduce_letters(word: &str) -> (stack: Vec<char>)
    ensures
        stack@ == free_reduction(word@),
{
    let n = word.unicode_len();
    let mut stack: Vec<char> = Vec::new();
    let mut i: usize = 0;
    while i < n
        invariant
            n == word@.len(),
            i <= n,
            stack@ == reduce_from(Seq::empty(), word@.take(i as int)),
        decreases n - i,
    {
        let c = word.get_char(i);
        assert(word@.take(i + 1).drop_last() =~= word@.take(i as int));
        let len = stack.len();
        if len > 0 && stack[len - 1] != c && folded_code(stack[len - 1]) == folded_code(c) {
            stack.pop();
        } else {
            stack.push(c);
        }
        i = i + 1;
    }
    assert(word@.take(n as int) =~= word@);
    stack
}

/// Free-reduce a word in the generators.
///
/// Adjacent generator–inverse pairs cancel: `"aA"` → `""`, `"abBA"` → `""`.
/// Lowercase letters are generators, uppercase letters their inverses.
pub fn reduce_word(word: &str) -> (reduced: String)
    ensures
        reduced@ == free_reduction(word@),
{
    let stack = reduce_letters(word);
    let mut out = String::new();
    let mut i: usize = 0;
    while i < stack.len()
        invariant
            i <= stack.len(),
            out@ == stack@.take(i as int),
        decreases stack.len() - i,
    {
        push_char(&mut out, stack[i]);
        assert(stack@.take(i + 1) =~= stack@.take(i as int).push(stack@[i as int]));
        i = i + 1;
    }
    assert(stack@.take(stack.len() as int) =~= stack@);
    out
}

/// Solve the word problem: a word is contractible when it freely reduces to
/// the identity.
pub fn is_contractible(word: &str) -> (r: bool)
    ensures
        r == (free_reduction(word@).len() == 0),
{
    reduce_letters(word).len() == 0
}


// ───────────────────────── the group ─────────────────────────

/// The fundamental group π₁ of a room complex, as a finitely presented group
/// ⟨ generators | relations ⟩.
#[derive(Debug, Clone, PartialEq)]
pub struct FundamentalGroup {
    /// Generator labels (one per independent cycle).
    pub generators: Vec<String>,
    /// Relations as words in the generators (e.g. `"abA"` means `abA = e`).
    pub relations: Vec<String>,
    /// Rank of the free group (number of independent generators).
    pub rank: usize,
}

/// The label of the `i`-th generator of a free group built by `free`.
pub open spec fn free_generator_label(i: nat) -> Seq<char> {
    "g"@ + decimal(i)
}

impl FundamentalGroup {
    /// The trivial group (of a simply connected space).
    pub fn trivial() -> (g: Self)
        ensures
            g.generators@.len() == 0,
            g.relations@.len() == 0,
            g.rank == 0,
    {
        FundamentalGroup { generators: Vec::new(), relations: Vec::new(), rank: 0 }
    }

    /// The free group on `n` generators `g0`, `g1`, …
    pub fn free(n: usize) -> (g: Self)
        ensures
            g.generators@.len() == n,
            forall|i: int| 0 <= i < n ==> (#[trigger] g.generators@[i])@ == free_generator_label(
                i as nat,
            ),
            g.relations@.len() == 0,
            g.rank == n,
    {
        let mut generators: Vec<String> = Vec::new();
        let mut i: usize = 0;
        while i < n
            invariant
                i <= n,
                generators@.len() == i,
                forall|k: int| 0 <= k < i ==> (#[trigger] generators@[k])@ == free_generator_label(
                    k as nat,
                ),
            decreases n - i,
        {
            let mut label = String::from_str("g");
            append_decimal(&mut label, i);
            generators.push(label);
            i = i + 1;
        }
        FundamentalGroup { generators, relations: Vec::new(), rank: n }
    }

    /// Is this the trivial group?
    pub fn is_trivial(&self) -> (r: bool)
        ensures
            r == (self.rank == 0),
    {
        self.rank == 0
    }
}

/// The generator contributed by a warp: `w_` followed by its label.
pub open spec fn warp_generator(w: WarpView) -> Seq<char> {
    "w_"@ + w.label
}

/// The `i`-th generator contributed by a door cycle: `c_` followed by `i`.
pub open spec fn cycle_generator(i: nat) -> Seq<char> {
    "c_"@ + decimal(i)
}

/// The warps among the first `m` that close a cycle, in order.
pub open spec fn closing_warps(c: ComplexView, m: int) -> Seq<WarpView>
    decreases m,
{
    if m <= 0 {
        Seq::empty()
    } else {
        closing_warps(c, m - 1) + (if warp_closes_cycle(c, m - 1) {
            seq![c.warps[m - 1]]
        } else {
            Seq::empty()
        })
    }
}

/// How many generators are named after warps: one per warp that closes a
/// cycle, and never more than there are independent cycles.
pub open spec fn named_warp_count(c: ComplexView) -> nat {
    let w = closing_warps(c, c.warps.len() as int).len();
    if w <= cyclomatic_number(c) {
        w
    } else {
        cyclomatic_number(c)
    }
}

/// The generators of π₁: one per independent cycle (the cyclomatic number
/// E − V + C). The cycles closed by warps are named after those warps, in
/// warp order; the remaining ones are door cycles `c_0`, `c_1`, …
pub open spec fn pi1_generators(c: ComplexView) -> Seq<Seq<char>> {
    let k = named_warp_count(c);
    closing_warps(c, c.warps.len() as int).take(k as int).map_values(|w: WarpView| warp_generator(w)) + Seq::new(
        (cyclomatic_number(c) - k) as nat,
        |i: int| cycle_generator(i as nat),
    )
}

/// Compute the fundamental group of a room complex: the free group on one
/// generator per independent cycle, with no relations. A warp that closes a
/// cycle names its generator; a warp that only joins two components adds
/// none.
pub fn compute_fundamental_group(complex: &RoomComplex) -> (g: FundamentalGroup)
    requires
        cyclomatic_number(complex@) <= usize::MAX,
    ensures
        g.generators@.map_values(|s: String| s@) == pi1_generators(complex@),
        g.relations@.len() == 0,
        g.rank == g.generators@.len(),
        g.rank == cyclomatic_number(complex@),
{
    let ghost c = complex@;
    let total_cycles = complex.cycle_count();
    let mut generators: Vec<String> = Vec::new();
    let mut k: usize = 0;
    while k < complex.warps.len() && generators.len() < total_cycles
        invariant
            c == complex@,
            total_cycles == cyclomatic_number(c),
            k <= c.warps.len(),
            generators@.len() <= total_cycles,
            generators@.len() == closing_warps(c, k as int).len() || (generators@.len() == total_cycles
                && total_cycles < closing_warps(c, k as int).len()),
            generators@.len() <= closing_warps(c, k as int).len(),
            forall|m: int| 0 <= m < generators@.len() ==> (#[trigger] generators@[m])@ == warp_generator(
                closing_warps(c, k as int)[m],
            ),
        decreases c.warps.len() - k,
    {
        let closes = complex.closes_cycle(k);
        proof {
            let prev = closing_warps(c, k as int);
            assert(closing_warps(c, k + 1) == prev + (if warp_closes_cycle(c, k as int) {
                seq![c.warps[k as int]]
            } else {
                Seq::empty()
            }));
            assert forall|m: int| 0 <= m < prev.len() implies closing_warps(c, k + 1)[m] == prev[m] by {}
        }
        if closes {
            let mut label = String::from_str("w_");
            label.append(complex.warps[k].label.as_str());
            assert(c.warps[k as int] == complex.warps@[k as int]@);
            proof {
                assert(closing_warps(c, k + 1)[closing_warps(c, k as int).len() as int] == c.warps[k as int]);
            }
            generators.push(label);
        }
        k = k + 1;
    }
    let named = generators.len();
    proof {
        // the loop stops either after every warp or once the cycles are all named
        lemma_closing_warps_grow(c, k as int, c.warps.len() as int);
        if k < c.warps.len() {
            assert(named == total_cycles);
        }
        assert(named == named_warp_count(c));
        assert forall|m: int| 0 <= m < named implies closing_warps(c, k as int)[m] == closing_warps(
            c,
            c.warps.len() as int,
        )[m] by {}
    }
    let extra = total_cycles - named;
    let mut i: usize = 0;
    while i < extra
        invariant
            c == complex@,
            i <= extra,
            named + extra == total_cycles,
            generators@.len() == named + i,
            forall|m: int| 0 <= m < named ==> (#[trigger] generators@[m])@ == warp_generator(
                closing_warps(c, c.warps.len() as int)[m],
            ),
            forall|m: int| 0 <= m < i ==> (#[trigger] generators@[named + m])@ == cycle_generator(m as nat),
        decreases extra - i,
    {
        let mut label = String::from_str("c_");
        append_decimal(&mut label, i);
        generators.push(label);
        i = i + 1;
    }
    proof {
        let gv = generators@.map_values(|s: String| s@);
        let expected = pi1_generators(c);
        assert forall|m: int| 0 <= m < gv.len() implies gv[m] == expected[m] by {
            if m < named {
            } else {
                assert((generators@[named + (m - named)])@ == cycle_generator((m - named) as nat));
            }
        }
        assert(gv =~= expected);
    }
    let rank = generators.len();
    FundamentalGroup { rank, generators, relations: Vec::new() }
}

/// The complex with its doors and no warps.
pub open spec fn doors_only(c: ComplexView) -> ComplexView {
    ComplexView { rooms: c.rooms, warps: Seq::empty() }
}

/// The number of independent cycles made by doors alone: the cyclomatic
/// number of the complex with its warps left out.
pub fn count_door_cycles(complex: &RoomComplex) -> (n: usize)
    requires
        cyclomatic_number(doors_only(complex@)) <= usize::MAX,
    ensures
        n == cyclomatic_number(doors_only(complex@)),
{
    let mut doors = complex.clone();
    doors.warps = Vec::new();
    assert(doors@.warps =~= Seq::<WarpView>::empty());
    assert(doors@.rooms == complex@.rooms);
    assert(doors@ == doors_only(complex@));
    doors.cycle_count()
}

/// The closing warps among a longer prefix of the warps begin with those of a
/// shorter one.
proof fn lemma_closing_warps_grow(c: ComplexView, k: int, m: int)
    requires
        0 <= k <= m,
    ensures
        closing_warps(c, k).len() <= closing_warps(c, m).len(),
        forall|i: int| 0 <= i < closing_warps(c, k).len() ==> #[trigger] closing_warps(c, m)[i] == closing_warps(c, k)[i],
    decreases m - k,
{
    if k < m {
        lemma_closing_warps_grow(c, k, m - 1);
    }
}

// ───────────────────────── spanning forest of the doors ─────────────────────────

/// Room `i` is the first room from which `x` can be reached through doors.
pub open spec fn first_reacher(c: ComplexView, x: Seq<char>, i: int) -> bool {
    &&& 0 <= i < c.rooms.len()
    &&& reachable(door_moves_rel(c), c.rooms[i].id, x)
    &&& forall|j: int| 0 <= j < i ==> !#[trigger] reachable(door_moves_rel(c), c.rooms[j].id, x)
}

/// A shortest walk through doors from `a` to `b` takes `d` steps.
pub open spec fn door_distance(c: ComplexView, a: Seq<char>, b: Seq<char>, d: nat) -> bool {
    exists|p: Seq<Seq<char>>| #[trigger] is_shortest_walk(p, door_moves_rel(c), a, b) && p.len() == d + 1
}

/// `x` hangs in the search forest below a root: it can be reached through
/// doors from some room, and it is not the first room that reaches it.
pub open spec fn tree_child(c: ComplexView, x: Seq<char>) -> bool {
    exists|i: int| #[trigger] first_reacher(c, x, i) && c.rooms[i].id != x
}

/// `(p, v)` is an edge of the breadth-first search forest: a door leads from
/// `p` to `v`, and `p` is one step closer than `v` to the first room that
/// reaches `v`.
pub open spec fn tree_edge(c: ComplexView, p: Seq<char>, v: Seq<char>) -> bool {
    &&& door_moves(c, p, v)
    &&& exists|i: int, d: nat|
        #![trigger first_reacher(c, v, i), door_distance(c, c.rooms[i].id, p, d)]
        first_reacher(c, v, i) && door_distance(c, c.rooms[i].id, p, d) && door_distance(
            c,
            c.rooms[i].id,
            v,
            d + 1,
        )
}

/// Distances found by a search on numbered vertices are distances between
/// names.
proof fn lemma_door_distance(
    g: Seq<Seq<usize>>,
    cl: &Cells,
    c: ComplexView,
    src: usize,
    dist: Seq<Option<usize>>,
    parent: Seq<usize>,
    v: usize,
)
    requires
        cells_ok(cl, c),
        graph_of(g, cl, c, EdgeKind::DoorMoves),
        kind_rel(EdgeKind::DoorMoves, c) == door_moves_rel(c),
        bfs_result(g, src, dist, parent),
        (src as int) < g.len(),
        (v as int) < g.len(),
        dist[v as int] is Some,
    ensures
        door_distance(c, cl.names@[src as int]@, cl.names@[v as int]@, dist[v as int]->0 as nat),
{
    let p = lemma_bfs_walk(g, src, dist, parent, v);
    lemma_walk_to_names(g, cl, c, EdgeKind::DoorMoves, p);
    let q = p.map_values(|x: usize| cl.names@[x as int]@);
    let a = cl.names@[src as int]@;
    let b = cl.names@[v as int]@;
    assert(walk_between(q, door_moves_rel(c), a, b));
    assert forall|w: Seq<Seq<char>>| #[trigger] walk_between(w, door_moves_rel(c), a, b) implies q.len() <= w.len() by {
        assert(has_name(cl.names@, w[0]));
        let wn = lemma_walk_to_numbers(g, cl, c, EdgeKind::DoorMoves, w);
        assert(distinct_names(cl.names@));
        assert(cl.names@[wn[0] as int]@ == a);
        assert(wn[0] == src);
        assert(cl.names@[wn.last() as int]@ == b);
        assert(wn.last() == v);
        assert(walk_between(wn, edge_rel(g), src, v));
    }
    assert(is_shortest_walk(q, door_moves_rel(c), a, b));
}

/// A breadth-first search forest of the door graph: roots are taken in room
/// order, and every place reachable through doors from some room hangs
/// below the first room that reaches it, by an edge from a place one step
/// closer to that room. Returned as (parent, child) pairs, one per child.
pub fn spanning_tree(complex: &RoomComplex) -> (t: Vec<(String, String)>)
    ensures
        forall|k: int| 0 <= k < t@.len() ==> tree_edge(complex@, (#[trigger] t@[k]).0@, t@[k].1@),
        forall|k1: int, k2: int| 0 <= k1 < t@.len() && 0 <= k2 < t@.len() && k1 != k2 ==> (#[trigger] t@[k1]).1@
            != (#[trigger] t@[k2]).1@,
        forall|x: Seq<char>| #[trigger] tree_child(complex@, x) <==> exists|k: int| 0 <= k < t@.len() && (#[trigger] t@[k]).1@ == x,
{
    let ghost c = complex@;
    proof {
        lemma_kind_rel_door_moves(c);
    }
    let cl = build_cells(complex);
    let g = build_graph(complex, &cl, EdgeKind::DoorMoves);
    let n = cl.names.len();
    let mut visited: Vec<bool> = Vec::new();
    let mut z: usize = 0;
    while z < n
        invariant
            z <= n,
            visited@.len() == z,
            forall|w: int| 0 <= w < z ==> !visited@[w],
        decreases n - z,
    {
        visited.push(false);
        z = z + 1;
    }
    let mut tree: Vec<(String, String)> = Vec::new();
    let ghost mut kids: Seq<usize> = Seq::empty();
    let mut i: usize = 0;
    while i < complex.rooms.len()
        invariant
            c == complex@,
            cells_ok(&cl, c),
            graph_of(adj_view(&g), &cl, c, EdgeKind::DoorMoves),
            kind_rel(EdgeKind::DoorMoves, c) == door_moves_rel(c),
            n == cl.names@.len(),
            i <= c.rooms.len(),
            visited@.len() == n,
            forall|w: usize| (w as int) < n ==> (#[trigger] visited@[w as int] <==> exists|j: int| 0 <= j < i && reachable(
                edge_rel(adj_view(&g)),
                cl.room_at@[j],
                w,
            )),
            kids.len() == tree@.len(),
            forall|k: int| 0 <= k < kids.len() ==> (#[trigger] kids[k] as int) < n && tree@[k].1@ == cl.names@[kids[k] as int]@,
            kids.no_duplicates(),
            forall|k: int| 0 <= k < tree@.len() ==> tree_edge(c, (#[trigger] tree@[k]).0@, tree@[k].1@),
            forall|w: usize| (w as int) < n ==> (kids.contains(w) <==> #[trigger] visited@[w as int] && tree_child(c, cl.names@[w as int]@)),
        decreases c.rooms.len() - i,
    {
        let r = cl.room_at[i];
        let (dist, parent) = bfs(&g, r);
        proof {
            lemma_bfs_facts(adj_view(&g), r, dist@, parent@);
        }
        let ghost visited0 = visited@;
        let mut v: usize = 0;
        while v < n
            invariant
                c == complex@,
                cells_ok(&cl, c),
                graph_of(adj_view(&g), &cl, c, EdgeKind::DoorMoves),
                kind_rel(EdgeKind::DoorMoves, c) == door_moves_rel(c),
                n == cl.names@.len(),
                i < c.rooms.len(),
                r == cl.room_at@[i as int],
                (r as int) < n,
                bfs_result(adj_view(&g), r, dist@, parent@),
                dist@.len() == n,
                parent@.len() == n,
                forall|w: usize| (w as int) < n ==> (#[trigger] dist@[w as int] is Some) == reachable(
                    edge_rel(adj_view(&g)),
                    r,
                    w,
                ),
                visited0.len() == n,
                forall|w: usize| (w as int) < n ==> (#[trigger] visited0[w as int] <==> exists|j: int| 0 <= j < i && reachable(
                    edge_rel(adj_view(&g)),
                    cl.room_at@[j],
                    w,
                )),
                v <= n,
                visited@.len() == n,
                forall|w: int| 0 <= w < v ==> (#[trigger] visited@[w] <==> visited0[w] || dist@[w] is Some),
                forall|w: int| v <= w < n ==> #[trigger] visited@[w] == visited0[w],
                kids.len() == tree@.len(),
                forall|k: int| 0 <= k < kids.len() ==> (#[trigger] kids[k] as int) < n && tree@[k].1@ == cl.names@[kids[k] as int]@,
                kids.no_duplicates(),
                forall|k: int| 0 <= k < tree@.len() ==> tree_edge(c, (#[trigger] tree@[k]).0@, tree@[k].1@),
                forall|w: usize| (w as int) < n ==> (kids.contains(w) <==> #[trigger] visited@[w as int] && tree_child(c, cl.names@[w as int]@)),
            decreases n - v,
        {
            let ghost kids0 = kids;
            let ghost seen0 = visited@;
            if dist[v].is_some() && !visited[v] {
                proof {
                    // room i is the first room that reaches v
                    let x = cl.names@[v as int]@;
                    assert forall|j: int| 0 <= j < i implies !#[trigger] reachable(door_moves_rel(c), c.rooms[j].id, x) by {
                        let rj = cl.room_at@[j];
                        lemma_reach_transfer(adj_view(&g), &cl, c, EdgeKind::DoorMoves, rj, v);
                        assert(!visited0[v as int]);
                    }
                    lemma_reach_transfer(adj_view(&g), &cl, c, EdgeKind::DoorMoves, r, v);
                    assert(first_reacher(c, x, i as int));
                    assert(!kids0.contains(v));
                }
                visited.set(v, true);
                if v != r {
                    proof {
                        assert(distinct_names(cl.names@));
                        assert(c.rooms[i as int].id != cl.names@[v as int]@);
                        assert(tree_child(c, cl.names@[v as int]@));
                        lemma_bfs_parent(adj_view(&g), r, dist@, parent@, v);
                        let d = dist@[v as int]->0;
                        assert(d > 0);
                        let pv = parent@[v as int];
                        assert(has_edge(adj_view(&g), pv, v));
                        lemma_door_distance(adj_view(&g), &cl, c, r, dist@, parent@, v);
                        lemma_door_distance(adj_view(&g), &cl, c, r, dist@, parent@, pv);
                        assert(kind_rel(EdgeKind::DoorMoves, c)(cl.names@[pv as int]@, cl.names@[v as int]@));
                        assert(door_moves(c, cl.names@[pv as int]@, cl.names@[v as int]@));
                        assert(first_reacher(c, cl.names@[v as int]@, i as int));
                        assert(door_distance(c, c.rooms[i as int].id, cl.names@[pv as int]@, (d - 1) as nat));
                        assert(door_distance(c, c.rooms[i as int].id, cl.names@[v as int]@, ((d - 1) as nat + 1) as nat));
                        assert(tree_edge(c, cl.names@[pv as int]@, cl.names@[v as int]@));
                    }
                    let p = parent[v];
                    assert(p < n) by {
                        lemma_bfs_parent(adj_view(&g), r, dist@, parent@, v);
                    }
                    tree.push((cl.names[p].clone(), cl.names[v].clone()));
                    proof {
                        kids = kids.push(v);
                        assert forall|w: usize| (w as int) < n implies (kids.contains(w) <==> #[trigger] visited@[w as int]
                            && tree_child(c, cl.names@[w as int]@)) by {
                            if w != v {
                                assert(kids.contains(w) == kids0.contains(w)) by {
                                    if kids.contains(w) {
                                        let k = choose|k: int| 0 <= k < kids.len() && kids[k] == w;
                                        assert(k < kids0.len());
                                        assert(kids0[k] == w);
                                    }
                                    if kids0.contains(w) {
                                        let k = choose|k: int| 0 <= k < kids0.len() && kids0[k] == w;
                                        assert(kids[k] == w);
                                    }
                                }
                                assert(visited@[w as int] == seen0[w as int]);
                            } else {
                                assert(kids[kids.len() - 1] == v);
                            }
                        }
                    }
                } else {
                    proof {
                        let x = cl.names@[v as int]@;
                        assert(c.rooms[i as int].id == x);
                        assert(!tree_child(c, x)) by {
                            if tree_child(c, x) {
                                let k = choose|k: int| #[trigger] first_reacher(c, x, k) && c.rooms[k].id != x;
                                if k < i {
                                    assert(reachable(door_moves_rel(c), c.rooms[k].id, x));
                                } else if k > i {
                                    assert(reachable(door_moves_rel(c), c.rooms[i as int].id, x));
                                }
                            }
                        }
                        assert forall|w: usize| (w as int) < n implies (kids.contains(w) <==> #[trigger] visited@[w as int]
                            && tree_child(c, cl.names@[w as int]@)) by {
                            if w != v {
                                assert(visited@[w as int] == seen0[w as int]);
                            }
                        }
                    }
                }
            }
            v = v + 1;
        }
        i = i + 1;
    }
    proof {
        assert forall|k1: int, k2: int| 0 <= k1 < tree@.len() && 0 <= k2 < tree@.len() && k1 != k2 implies (
        #[trigger] tree@[k1]).1@ != (#[trigger] tree@[k2]).1@ by {
            assert(kids[k1] != kids[k2]);
            assert(distinct_names(cl.names@));
            assert(cl.names@[kids[k1] as int]@ != cl.names@[kids[k2] as int]@);
        }
        assert forall|x: Seq<char>| #[trigger] tree_child(c, x) implies exists|k: int|
            0 <= k < tree@.len() && (#[trigger] tree@[k]).1@ == x by {
            let j = choose|j: int| #[trigger] first_reacher(c, x, j) && c.rooms[j].id != x;
            lemma_reach_ends_are_nodes(EdgeKind::DoorMoves, c, c.rooms[j].id, x);
            lemma_node_has_name(&cl, c, x);
            let u = choose|u: int| 0 <= u < cl.names@.len() && (#[trigger] cl.names@[u])@ == x;
            let w = u as usize;
            lemma_reach_transfer(adj_view(&g), &cl, c, EdgeKind::DoorMoves, cl.room_at@[j], w);
            assert(visited@[w as int]);
            assert(kids.contains(w));
            let k = choose|k: int| 0 <= k < kids.len() && kids[k] == w;
            assert(tree@[k].1@ == x);
        }
        assert forall|x: Seq<char>| (exists|k: int| 0 <= k < tree@.len() && (#[trigger] tree@[k]).1@ == x) implies #[trigger] tree_child(c, x) by {
            let k = choose|k: int| 0 <= k < tree@.len() && (#[trigger] tree@[k]).1@ == x;
            let w = kids[k];
            assert(kids.contains(w));
            assert((w as int) < n);
            assert(visited@[w as int] && tree_child(c, cl.names@[w as int]@));
            assert(cl.names@[w as int]@ == x);
        }
    }
    tree
}

// ───────────────────────── warps that close cycles name generators ─────────────────────────

/// The door edges, then the first `m` warps.
spec fn doors_and_warps(c: ComplexView, m: int) -> Seq<(Seq<char>, Seq<char>)> {
    distinct_doors(door_list(c.rooms)) + warp_pairs(c.warps.take(m))
}

/// A warp that does not close a cycle merges at most two components, one
/// that does merges none.
proof fn lemma_closing_count(c: ComplexView, m: int)
    requires
        0 <= m <= c.warps.len(),
    ensures
        openers(room_id_seq(c), doors_and_warps(c, m), c.rooms.len() as int) + m >= openers(
            room_id_seq(c),
            doors_and_warps(c, 0),
            c.rooms.len() as int,
        ) + closing_warps(c, m).len(),
    decreases m,
{
    if m > 0 {
        lemma_closing_count(c, m - 1);
        let ids = room_id_seq(c);
        let n = c.rooms.len() as int;
        let l = doors_and_warps(c, m - 1);
        let w = c.warps[m - 1];
        let e = (w.from, w.to);
        assert(warp_pairs(c.warps.take(m)) =~= warp_pairs(c.warps.take(m - 1)).push(e));
        assert(doors_and_warps(c, m) =~= l.push(e));
        if warp_closes_cycle(c, m - 1) {
            let c2 = with_warps_before(c, m - 1);
            assert(edge_list(c2) == l);
            lemma_edge_list_links(c2);
            lemma_reach_mono(joined_rel(c2), edge_links(l), w.from, w.to);
            lemma_openers_same_when_joined(ids, l, e, n);
        } else {
            lemma_openers_one_edge(ids, l, e, n);
        }
    }
}

/// The warps that close a cycle are never more than the independent cycles.
proof fn lemma_closing_at_most_cycles(c: ComplexView)
    requires
        c.rooms.len() > 0,
    ensures
        closing_warps(c, c.warps.len() as int).len() <= cyclomatic_number(c),
{
    let ids = room_id_seq(c);
    let n = c.rooms.len() as int;
    let w = c.warps.len() as int;
    lemma_closing_count(c, w);
    assert(c.warps.take(w) =~= c.warps);
    assert(doors_and_warps(c, w) == edge_list(c));
    lemma_components_are_openers(c, n);
    let base = distinct_doors(door_list(c.rooms));
    assert(warp_pairs(c.warps.take(0)) =~= Seq::<(Seq<char>, Seq<char>)>::empty());
    assert(doors_and_warps(c, 0) =~= base);
    lemma_openers_edges(ids, base, n);
    assert(ids.take(n) =~= ids);
    law_edges_and_components_cover_rooms(c);
    lemma_distinct_doors_count(door_list(c.rooms));
    let f = |p: (Seq<char>, Seq<char>)| unordered(p);
    base.map_values(f).unique_seq_to_set();
}

/// A warp whose two ends are already joined, direction ignored, by the doors
/// and the warps before it closes a cycle, and that cycle's generator is
/// named after it: `w_<label>` is a generator of π₁.
pub proof fn law_closing_warp_names_a_generator(c: ComplexView, k: int)
    requires
        c.rooms.len() > 0,
        0 <= k < c.warps.len(),
        reachable(joined_rel(ComplexView { rooms: c.rooms, warps: c.warps.take(k) }), c.warps[k].from, c.warps[k].to),
    ensures
        pi1_generators(c).contains(warp_generator(c.warps[k])),
{
    let w = c.warps.len() as int;
    assert(with_warps_before(c, k) == ComplexView { rooms: c.rooms, warps: c.warps.take(k) });
    assert(warp_closes_cycle(c, k));
    lemma_closing_at_most_cycles(c);
    lemma_closing_warps_grow(c, k + 1, w);
    let idx = closing_warps(c, k).len() as int;
    assert(closing_warps(c, k + 1)[idx] == c.warps[k]);
    let cw = closing_warps(c, w);
    assert(cw[idx] == c.warps[k]);
    assert(named_warp_count(c) == cw.len());
    let g = pi1_generators(c);
    assert(g[idx] == warp_generator(c.warps[k]));
}

} // verus!
