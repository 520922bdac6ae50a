//! Facts about routes and traces that relate several calls.

use vstd::prelude::*;
use crate::grid::{
    lemma_closed_holds_reach, lemma_decode, lemma_index_of, lemma_key, lemma_succ, lemma_reach_refl, lemma_reach_sym, lemma_reach_trans, lemma_reach_vertex, Grid,
    BOUNCE_ALL,
};
use crate::parse::parse_spec;
use crate::routes::{explored, lemma_component_flags, lemma_fresh_explore};

verus! {

/// A map read from text is at most 24 by 24 and has one kind per cell.
pub proof fn lemma_parsed_size(text: Seq<char>)
    requires
        parse_spec(text) is Ok,
    ensures
        parse_spec(text)->Ok_0.height <= 24,
        parse_spec(text)->Ok_0.width <= 24,
        parse_spec(text)->Ok_0.kinds.len() == parse_spec(text)->Ok_0.height * parse_spec(
            text,
        )->Ok_0.width,
{
}

/// Every state listed by `routes_upto` is a representative.
proof fn lemma_routes_upto_representatives(g: Grid, k: nat)
    ensures
        forall|i: int|
            0 <= i < g.routes_upto(k).len() ==> g.is_representative(#[trigger] g.routes_upto(k)[i]),
    decreases k,
{
    if k > 0 {
        lemma_routes_upto_representatives(g, (k - 1) as nat);
        let prev = g.routes_upto((k - 1) as nat);
        assert forall|i: int| 0 <= i < g.routes_upto(k).len() implies g.is_representative(
            #[trigger] g.routes_upto(k)[i],
        ) by {
            if i < prev.len() {
                assert(g.routes_upto(k)[i] == prev[i]);
            }
        }
    }
}

/// Every route found is a representative.
pub proof fn lemma_routes_are_representatives(g: Grid, r: int)
    requires
        g.routes().contains(r),
    ensures
        g.is_representative(r),
{
    lemma_routes_upto_representatives(g, (2 * g.size()) as nat);
}

/// Finding routes depends on the map alone: two results for equal maps are
/// equal.
pub proof fn lemma_find_routes_deterministic(a: Grid, b: Grid, ra: Seq<usize>, rb: Seq<usize>)
    requires
        a == b,
        ra.map_values(|v: usize| v as int) == a.routes(),
        rb.map_values(|v: usize| v as int) == b.routes(),
    ensures
        ra == rb,
{
    assert(ra.map_values(|v: usize| v as int).len() == ra.len());
    assert(rb.map_values(|v: usize| v as int).len() == rb.len());
    assert(ra.len() == rb.len());
    assert forall|i: int| 0 <= i < ra.len() implies ra[i] == rb[i] by {
        assert(ra.map_values(|v: usize| v as int)[i] == rb.map_values(|v: usize| v as int)[i]);
    }
    assert(ra =~= rb);
}

/// A trace depends on the map and the chosen state alone: two traces of
/// equal maps from the same state are equal.
pub proof fn lemma_trace_deterministic(a: Grid, b: Grid, v: int, ta: Seq<u8>, tb: Seq<u8>)
    requires
        a == b,
        ta == a.trace_of(v),
        tb == b.trace_of(v),
    ensures
        ta == tb,
{
}

/// Exploring again from a route found, with nothing visited, reports all four
/// bounces.
pub proof fn lemma_route_bounces_all_ways(
    g: Grid,
    r: int,
    before: Seq<bool>,
    after: Seq<bool>,
    flags: u32,
)
    requires
        g.wf(),
        g.routes().contains(r),
        before.len() == 2 * g.size(),
        forall|i: int| 0 <= i < before.len() ==> !#[trigger] before[i],
        explored(g, r, before, after, flags),
    ensures
        flags == BOUNCE_ALL,
{
    lemma_routes_are_representatives(g, r);
    lemma_fresh_explore(g, r, before, after, flags);
    reveal(explored);
    lemma_component_flags(g, r, before, after, flags);
}

/// The components of two different routes found share no state.
pub proof fn lemma_routes_disjoint(g: Grid, r1: int, r2: int, u: int)
    requires
        g.wf(),
        g.routes().contains(r1),
        g.routes().contains(r2),
        r1 != r2,
    ensures
        !(g.reachable(r1, u) && g.reachable(r2, u)),
{
    lemma_routes_are_representatives(g, r1);
    lemma_routes_are_representatives(g, r2);
    if g.reachable(r1, u) && g.reachable(r2, u) {
        lemma_first_states_equal(g, r1, r2, u);
    }
}

/// Two states that each come first in their component, and reach a common
/// state, are the same state.
proof fn lemma_first_states_equal(g: Grid, r1: int, r2: int, u: int)
    requires
        g.wf(),
        g.is_first_of_component(r1),
        g.is_first_of_component(r2),
        g.reachable(r1, u),
        g.reachable(r2, u),
    ensures
        r1 == r2,
{
    lemma_reach_vertex(g, r2, u);
    lemma_reach_sym(g, r2, u);
    lemma_reach_trans(g, r1, u, r2);
    lemma_reach_vertex(g, r1, u);
    lemma_reach_sym(g, r1, u);
    lemma_reach_trans(g, r2, u, r1);
    assert(g.key(r1) <= g.key(r2));
    assert(g.key(r2) <= g.key(r1));
    lemma_key(g, r1);
    lemma_key(g, r2);
}

/// Every travel state lies in the component of exactly one state that comes
/// first in its component.
pub proof fn lemma_component_partition(g: Grid, v: int)
    requires
        g.wf(),
        g.is_vertex(v),
    ensures
        exists|r: int| g.is_first_of_component(r) && #[trigger] g.reachable(r, v),
        forall|r1: int, r2: int|
            g.is_first_of_component(r1) && g.is_first_of_component(r2) && #[trigger] g.reachable(
                r1,
                v,
            ) && #[trigger] g.reachable(r2, v) ==> r1 == r2,
    decreases g.key(v),
{
    lemma_key(g, v);
    if g.is_first_of_component(v) {
        lemma_reach_refl(g, v);
    } else {
        let u = choose|u: int| #[trigger] g.reachable(v, u) && g.key(u) < g.key(v);
        lemma_reach_vertex(g, v, u);
        lemma_key(g, u);
        lemma_component_partition(g, u);
        let r = choose|r: int| g.is_first_of_component(r) && #[trigger] g.reachable(r, u);
        lemma_reach_sym(g, v, u);
        lemma_reach_trans(g, r, u, v);
    }
    assert forall|r1: int, r2: int|
        g.is_first_of_component(r1) && g.is_first_of_component(r2) && #[trigger] g.reachable(r1, v)
            && #[trigger] g.reachable(r2, v) implies r1 == r2 by {
        lemma_first_states_equal(g, r1, r2, v);
    }
}

/// Every state whose bit is set in a trace is reachable from the state the
/// trace was made from, and the cell of that state has a bit set.
pub proof fn lemma_trace_consistent(g: Grid, v: int, mask: Seq<u8>)
    requires
        g.wf(),
        g.is_vertex(v),
        mask == g.trace_of(v),
    ensures
        mask.len() == g.size(),
        forall|c: int| 0 <= c < mask.len() && #[trigger] mask[c] % 2 == 1 ==> g.reachable(v, c),
        forall|c: int| 0 <= c < mask.len() && #[trigger] mask[c] / 2 == 1 ==> g.reachable(v, g.size() + c),
        mask[g.cell_of(v)] != 0,
{
    lemma_reach_refl(g, v);
    lemma_key(g, v);
    lemma_decode(g, v);
    if g.orient(v) == 0 {
        assert(v == g.cell_of(v));
    } else {
        assert(v == g.size() + g.cell_of(v));
    }
}

/// The parity of a state: of its orientation, row and column together.
pub open spec fn parity(g: Grid, v: int) -> int {
    (g.orient(v) + g.row(v) + g.col(v)) % 2
}

/// Every move keeps the parity: a straight move changes row and column by one
/// each, a deflection changes one of them and the orientation.
pub proof fn lemma_move_keeps_parity(g: Grid, v: int, k: int)
    requires
        g.wf(),
        g.is_vertex(v),
        0 <= k < 2,
        g.succ(v, k) is Some,
    ensures
        parity(g, g.succ(v, k)->0) == parity(g, v),
{
    lemma_decode(g, v);
    let t = g.step(g.orient(v), g.row(v), g.col(v), k)->0;
    lemma_succ(g, v, k);
    lemma_index_of(g, t.0, t.1, t.2);
}

/// Every state reachable from a travel state has its parity.
pub proof fn lemma_reach_keeps_parity(g: Grid, v: int, u: int)
    requires
        g.wf(),
        g.is_vertex(v),
        g.reachable(v, u),
    ensures
        parity(g, u) == parity(g, v),
{
    let s = Set::new(|w: int| parity(g, w) == parity(g, v));
    assert forall|w: int, k: int|
        #![trigger s.contains(w), g.succ(w, k)]
        s.contains(w) && g.is_vertex(w) && 0 <= k < 2 && g.succ(w, k) is Some implies s.contains(
            g.succ(w, k)->0,
        ) by {
        lemma_move_keeps_parity(g, w, k);
    }
    lemma_closed_holds_reach(g, s, v, u);
}

/// No route crosses a cell in both orientations: the two states of a cell
/// differ in parity, so no trace has both bits set for one cell.
pub proof fn lemma_trace_single_orientation(g: Grid, v: int, c: int)
    requires
        g.wf(),
        g.is_vertex(v),
        0 <= c < g.size(),
    ensures
        !(g.reachable(v, c) && g.reachable(v, g.size() + c)),
        g.trace_of(v)[c] != 3,
{
    lemma_decode(g, c);
    let y = g.row(c);
    let x = g.col(c);
    lemma_index_of(g, 0, y, x);
    lemma_index_of(g, 1, y, x);
    assert(g.index_of(0, y, x) == c);
    assert(g.index_of(1, y, x) == g.size() + c);
    if g.reachable(v, c) && g.reachable(v, g.size() + c) {
        lemma_reach_keeps_parity(g, v, c);
        lemma_reach_keeps_parity(g, v, g.size() + c);
    }
}

} // verus!
