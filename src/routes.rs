//! Exploring the travel graph of a map: the moves out of a state, the
//! depth-first search, the routes that bounce in all four senses, and the
//! trace of a route.

use vstd::prelude::*;
use vstd::set_lib::{lemma_int_range, lemma_len_subset, set_int_range};
use crate::cell::CellKind;
use crate::cells::Cells;
use crate::grid::{
    lemma_closed_holds_reach, lemma_decode, lemma_index_of, lemma_key, lemma_reach_refl,
    lemma_reach_step, lemma_reach_sym, lemma_reach_trans, lemma_reach_vertex, lemma_size_bound,
    lemma_succ, lemma_vertex_of_key, Grid, BOUNCE_ALL, BOUNCE_BOTTOM, BOUNCE_LEFT, BOUNCE_RIGHT,
    BOUNCE_TOP,
};

verus! {

/// `u` was visited by the exploration that turned `before` into `after`.
pub open spec fn newly(before: Seq<bool>, after: Seq<bool>, u: int) -> bool {
    0 <= u < after.len() && after[u] && !before[u]
}

/// A move out of a state newly visited between `before` and `after` records `flag`.
pub open spec fn seen_bounce(g: Grid, before: Seq<bool>, after: Seq<bool>, flag: u32) -> bool {
    exists|u: int, k: int|
        newly(before, after, u) && 0 <= k < 2 && #[trigger] g.bounce_at(u, k) == flag
}

/// The bit set of the four bounce senses.
pub open spec fn bounce_mask(top: bool, left: bool, bottom: bool, right: bool) -> u32 {
    ((if top { BOUNCE_TOP } else { 0 }) + (if left { BOUNCE_LEFT } else { 0 }) + (if bottom {
        BOUNCE_BOTTOM
    } else {
        0
    }) + (if right { BOUNCE_RIGHT } else { 0 })) as u32
}

/// What an exploration from `start` does: it visits `start` and keeps what was
/// visited; each state it visits is reachable from `start`, and every move out
/// of it leads to a visited state; it reports the bounces of the moves out of
/// the states it visited.
#[verifier::opaque]
pub open spec fn explored(g: Grid, start: int, before: Seq<bool>, after: Seq<bool>, flags: u32) -> bool {
    &&& after.len() == before.len()
    &&& after[start]
    &&& forall|u: int| 0 <= u < before.len() && #[trigger] before[u] ==> after[u]
    &&& forall|u: int| #[trigger]
        newly(before, after, u) ==> g.is_vertex(u) && g.reachable(start, u)
    &&& forall|u: int, k: int|
        #![trigger newly(before, after, u), g.succ(u, k)]
        newly(before, after, u) && 0 <= k < 2 && g.succ(u, k) is Some ==> after[g.succ(u, k)->0]
    &&& flags == bounce_mask(
        seen_bounce(g, before, after, BOUNCE_TOP),
        seen_bounce(g, before, after, BOUNCE_LEFT),
        seen_bounce(g, before, after, BOUNCE_BOTTOM),
        seen_bounce(g, before, after, BOUNCE_RIGHT),
    )
}

/// `u` was visited between `before` and `after`, and its moves were all taken:
/// it is no longer waiting on `stack`.
spec fn done(before: Seq<bool>, after: Seq<bool>, stack: Seq<usize>, u: int) -> bool {
    newly(before, after, u) && !stack.contains(u as usize)
}

/// A move out of a finished state records `flag`.
spec fn done_bounce(
    g: Grid,
    before: Seq<bool>,
    after: Seq<bool>,
    stack: Seq<usize>,
    flag: u32,
) -> bool {
    exists|u: int, k: int|
        done(before, after, stack, u) && 0 <= k < 2 && #[trigger] g.bounce_at(u, k) == flag
}

proof fn lemma_flag_update(
    g: Grid,
    before: Seq<bool>,
    vis0: Seq<bool>,
    st0: Seq<usize>,
    vis2: Seq<bool>,
    st2: Seq<usize>,
    v: int,
    flag: u32,
    b0: u32,
    b1: u32,
)
    requires
        forall|u: int|
            #[trigger] done(before, vis2, st2, u) <==> (done(before, vis0, st0, u) || u == v),
        b0 == g.bounce_at(v, 0),
        b1 == g.bounce_at(v, 1),
    ensures
        (done_bounce(g, before, vis0, st0, flag) || b0 == flag || b1 == flag) == done_bounce(
            g,
            before,
            vis2,
            st2,
            flag,
        ),
{
    if done_bounce(g, before, vis0, st0, flag) {
        let (u, k) = choose|u: int, k: int|
            done(before, vis0, st0, u) && 0 <= k < 2 && #[trigger] g.bounce_at(u, k) == flag;
        assert(done(before, vis2, st2, u));
    }
    if b0 == flag {
        assert(done(before, vis2, st2, v) && g.bounce_at(v, 0) == flag);
    }
    if b1 == flag {
        assert(done(before, vis2, st2, v) && g.bounce_at(v, 1) == flag);
    }
    if done_bounce(g, before, vis2, st2, flag) {
        let (u, k) = choose|u: int, k: int|
            done(before, vis2, st2, u) && 0 <= k < 2 && #[trigger] g.bounce_at(u, k) == flag;
        if u != v {
            assert(done(before, vis0, st0, u));
        }
    }
}

proof fn lemma_flag_finished(g: Grid, before: Seq<bool>, after: Seq<bool>, flag: u32)
    ensures
        done_bounce(g, before, after, Seq::empty(), flag) == seen_bounce(g, before, after, flag),
{
    if done_bounce(g, before, after, Seq::empty(), flag) {
        let (u, k) = choose|u: int, k: int|
            done(before, after, Seq::empty(), u) && 0 <= k < 2 && #[trigger] g.bounce_at(u, k)
                == flag;
    }
    if seen_bounce(g, before, after, flag) {
        let (u, k) = choose|u: int, k: int|
            newly(before, after, u) && 0 <= k < 2 && #[trigger] g.bounce_at(u, k) == flag;
        assert(!Seq::<usize>::empty().contains(u as usize));
        assert(done(before, after, Seq::empty(), u));
    }
}

/// Marks `nv` visited and puts it on `stack`, unless it was visited already.
fn push_unvisited(nv: usize, visited: &mut Vec<bool>, stack: &mut Vec<usize>)
    requires
        nv < old(visited)@.len(),
    ensures
        final(visited)@ == old(visited)@.update(nv as int, true),
        final(stack)@ == (if old(visited)@[nv as int] {
            old(stack)@
        } else {
            old(stack)@.push(nv)
        }),
{
    if !visited[nv] {
        visited[nv] = true;
        stack.push(nv);
    }
}

/// What holds of the visited flags once the first `p` states of the
/// enumeration order were considered: the visited states are the travel
/// states reachable from one of those, and every move out of them stays
/// among them.
#[verifier::opaque]
spec fn visited_upto(g: Grid, vis: Seq<bool>, p: int) -> bool {
    &&& forall|u: int| 0 <= u < vis.len() && #[trigger] vis[u] ==> g.is_vertex(u)
    &&& forall|u: int, k: int|
        #![trigger vis[u], g.succ(u, k)]
        0 <= u < vis.len() && vis[u] && 0 <= k < 2 && g.succ(u, k) is Some ==> vis[g.succ(u, k)->0]
    &&& forall|u: int| #[trigger] g.is_vertex(u) && g.key(u) < p ==> vis[u]
    &&& forall|u: int|
        0 <= u < vis.len() && #[trigger] vis[u] ==> exists|s: int|
            #![trigger g.reachable(s, u)]
            g.is_vertex(s) && g.key(s) < p && g.reachable(s, u)
}

/// The search for routes after the first `p` states of the enumeration
/// order: the routes found are the representatives among those states.
spec fn enumerated(g: Grid, vis: Seq<bool>, reps: Seq<usize>, p: int) -> bool {
    &&& vis.len() == 2 * g.size()
    &&& 0 <= p <= 2 * g.size()
    &&& visited_upto(g, vis, p)
    &&& reps.map_values(|r: usize| r as int) == g.routes_upto(p as nat)
}

/// A state reachable from a visited travel state is visited, when every move
/// out of a visited state leads to a visited state.
proof fn lemma_visited_reach(g: Grid, vis: Seq<bool>, a: int, b: int)
    requires
        g.wf(),
        vis.len() == 2 * g.size(),
        g.is_vertex(a),
        vis[a],
        forall|u: int, k: int|
            #![trigger vis[u], g.succ(u, k)]
            0 <= u < vis.len() && vis[u] && 0 <= k < 2 && g.succ(u, k) is Some ==> vis[g.succ(u, k)->0],
        g.reachable(a, b),
    ensures
        0 <= b < vis.len(),
        vis[b],
{
    let s = Set::new(|u: int| 0 <= u < vis.len() && vis[u]);
    assert forall|u: int, k: int|
        #![trigger s.contains(u), g.succ(u, k)]
        s.contains(u) && g.is_vertex(u) && 0 <= k < 2 && g.succ(u, k) is Some implies s.contains(
            g.succ(u, k)->0,
        ) by {
        lemma_succ(g, u, k);
        assert(vis[u]);
    }
    lemma_closed_holds_reach(g, s, a, b);
}

/// A state that is solid, or was visited from an earlier one, is no
/// representative; considering it leaves the visited flags as they are.
proof fn lemma_skip_state(g: Grid, p: int, v: int, vis: Seq<bool>)
    requires
        g.wf(),
        0 <= p < 2 * g.size(),
        v == g.vertex_of_key(p),
        g.key(v) == p,
        0 <= v < 2 * g.size(),
        vis.len() == 2 * g.size(),
        visited_upto(g, vis, p),
        !g.is_vertex(v) || vis[v],
    ensures
        !g.is_representative(v),
        visited_upto(g, vis, p + 1),
{
    reveal(visited_upto);
    if g.is_vertex(v) {
        let s = choose|s: int|
            #![trigger g.reachable(s, v)]
            g.is_vertex(s) && g.key(s) < p && g.reachable(s, v);
        lemma_reach_sym(g, s, v);
    }
    assert forall|u: int| #[trigger] g.is_vertex(u) && g.key(u) < p + 1 implies vis[u] by {
        if g.key(u) == p {
            lemma_key(g, u);
        }
    }
    assert forall|u: int| 0 <= u < vis.len() && #[trigger] vis[u] implies exists|s: int|
        #![trigger g.reachable(s, u)]
        g.is_vertex(s) && g.key(s) < p + 1 && g.reachable(s, u) by {
        let s = choose|s: int|
            #![trigger g.reachable(s, u)]
            g.is_vertex(s) && g.key(s) < p && g.reachable(s, u);
    }
}

/// Nothing that an unvisited travel state reaches was visited, and no state
/// it reaches comes earlier in the enumeration order.
proof fn lemma_unvisited_component(g: Grid, p: int, v: int, vis: Seq<bool>)
    requires
        g.wf(),
        g.key(v) == p,
        g.is_vertex(v),
        !vis[v],
        vis.len() == 2 * g.size(),
        visited_upto(g, vis, p),
    ensures
        forall|u: int| #[trigger] g.reachable(v, u) ==> 0 <= u < vis.len() && !vis[u],
        g.is_first_of_component(v),
{
    reveal(visited_upto);
    assert forall|u: int| #[trigger] g.reachable(v, u) implies 0 <= u < vis.len() && !vis[u] by {
        lemma_reach_vertex(g, v, u);
        if vis[u] {
            let s = choose|s: int|
                #![trigger g.reachable(s, u)]
                g.is_vertex(s) && g.key(s) < p && g.reachable(s, u);
            lemma_reach_sym(g, v, u);
            lemma_reach_trans(g, s, u, v);
            assert(vis[s]);
            lemma_visited_reach(g, vis, s, v);
        }
    }
    assert forall|u: int| #[trigger] g.reachable(v, u) implies g.key(v) <= g.key(u) by {
        lemma_reach_vertex(g, v, u);
        if g.key(u) < p {
            assert(vis[u]);
        }
    }
}

/// Exploring from an unvisited travel state visits exactly the states it
/// reaches, and every move out of a visited state still leads to one.
proof fn lemma_component_reach(g: Grid, p: int, v: int, vis0: Seq<bool>, vis1: Seq<bool>, flags: u32)
    requires
        g.wf(),
        g.key(v) == p,
        g.is_vertex(v),
        !vis0[v],
        vis0.len() == 2 * g.size(),
        visited_upto(g, vis0, p),
        explored(g, v, vis0, vis1, flags),
    ensures
        vis1.len() == vis0.len(),
        forall|u: int| #[trigger] g.reachable(v, u) <==> newly(vis0, vis1, u),
        forall|u: int| 0 <= u < vis1.len() && #[trigger] vis1[u] ==> g.is_vertex(u),
        forall|u: int, k: int|
            #![trigger vis1[u], g.succ(u, k)]
            0 <= u < vis1.len() && vis1[u] && 0 <= k < 2 && g.succ(u, k) is Some ==> vis1[g.succ(u, k)->0],
{
    reveal(visited_upto);
    reveal(explored);
    lemma_unvisited_component(g, p, v, vis0);
    assert forall|u: int, k: int|
        #![trigger vis1[u], g.succ(u, k)]
        0 <= u < vis1.len() && vis1[u] && 0 <= k < 2 && g.succ(u, k) is Some implies vis1[g.succ(
            u,
            k,
        )->0] by {
        if vis0[u] {
            lemma_succ(g, u, k);
            assert(vis0[g.succ(u, k)->0]);
        } else {
            assert(newly(vis0, vis1, u));
        }
    }
    assert forall|u: int| #[trigger] g.reachable(v, u) <==> newly(vis0, vis1, u) by {
        if g.reachable(v, u) {
            lemma_visited_reach(g, vis1, v, u);
        }
    }
    assert forall|u: int| 0 <= u < vis1.len() && #[trigger] vis1[u] implies g.is_vertex(u) by {
        if !vis0[u] {
            assert(newly(vis0, vis1, u));
        }
    }
}

/// When the states newly visited are those that `v` reaches, the reported
/// bounces are all four exactly when `v`'s component bounces in all four senses.
pub(crate) proof fn lemma_component_flags(g: Grid, v: int, vis0: Seq<bool>, vis1: Seq<bool>, flags: u32)
    requires
        forall|u: int| #[trigger] g.reachable(v, u) <==> newly(vis0, vis1, u),
        flags == bounce_mask(
            seen_bounce(g, vis0, vis1, BOUNCE_TOP),
            seen_bounce(g, vis0, vis1, BOUNCE_LEFT),
            seen_bounce(g, vis0, vis1, BOUNCE_BOTTOM),
            seen_bounce(g, vis0, vis1, BOUNCE_RIGHT),
        ),
    ensures
        g.bounces_all_ways(v) <==> flags == BOUNCE_ALL,
{
    assert forall|flag: u32| #[trigger] g.bounces_with(v, flag) == seen_bounce(g, vis0, vis1, flag) by {
        if g.bounces_with(v, flag) {
            let (u, k) = choose|u: int, k: int|
                0 <= k < 2 && g.reachable(v, u) && #[trigger] g.bounce_at(u, k) == flag;
            assert(newly(vis0, vis1, u));
        }
        if seen_bounce(g, vis0, vis1, flag) {
            let (u, k) = choose|u: int, k: int|
                newly(vis0, vis1, u) && 0 <= k < 2 && #[trigger] g.bounce_at(u, k) == flag;
            assert(g.reachable(v, u));
        }
    }
    assert(g.bounces_with(v, BOUNCE_TOP) == seen_bounce(g, vis0, vis1, BOUNCE_TOP));
    assert(g.bounces_with(v, BOUNCE_LEFT) == seen_bounce(g, vis0, vis1, BOUNCE_LEFT));
    assert(g.bounces_with(v, BOUNCE_BOTTOM) == seen_bounce(g, vis0, vis1, BOUNCE_BOTTOM));
    assert(g.bounces_with(v, BOUNCE_RIGHT) == seen_bounce(g, vis0, vis1, BOUNCE_RIGHT));
}

/// Exploring from an unvisited state `v` visits exactly its component, so
/// the search invariant moves on by one state, and `v` is a representative
/// exactly when all four bounces were reported.
proof fn lemma_component_explored(g: Grid, p: int, v: int, vis0: Seq<bool>, vis1: Seq<bool>, flags: u32)
    requires
        g.wf(),
        0 <= p < 2 * g.size(),
        g.key(v) == p,
        g.is_vertex(v),
        !vis0[v],
        vis0.len() == 2 * g.size(),
        visited_upto(g, vis0, p),
        explored(g, v, vis0, vis1, flags),
    ensures
        g.is_representative(v) <==> flags == BOUNCE_ALL,
        vis1.len() == vis0.len(),
        visited_upto(g, vis1, p + 1),
{
    lemma_unvisited_component(g, p, v, vis0);
    lemma_component_reach(g, p, v, vis0, vis1, flags);
    reveal(explored);
    lemma_component_flags(g, v, vis0, vis1, flags);
    reveal(visited_upto);
    assert forall|u: int| #[trigger] g.is_vertex(u) && g.key(u) < p + 1 implies vis1[u] by {
        if g.key(u) == p {
            lemma_key(g, u);
            lemma_key(g, v);
        } else {
            assert(vis0[u]);
        }
    }
    assert forall|u: int| 0 <= u < vis1.len() && #[trigger] vis1[u] implies exists|s: int|
        #![trigger g.reachable(s, u)]
        g.is_vertex(s) && g.key(s) < p + 1 && g.reachable(s, u) by {
        if vis0[u] {
            let s = choose|s: int|
                #![trigger g.reachable(s, u)]
                g.is_vertex(s) && g.key(s) < p && g.reachable(s, u);
        } else {
            assert(newly(vis0, vis1, u));
            assert(g.reachable(v, u));
        }
    }
}

/// Exploring from `v` with nothing visited before visits exactly the states
/// that `v` reaches.
pub proof fn lemma_fresh_explore(g: Grid, v: int, before: Seq<bool>, after: Seq<bool>, flags: u32)
    requires
        g.wf(),
        g.is_vertex(v),
        before.len() == 2 * g.size(),
        forall|i: int| 0 <= i < before.len() ==> !#[trigger] before[i],
        explored(g, v, before, after, flags),
    ensures
        after.len() == before.len(),
        forall|u: int| #[trigger] g.reachable(v, u) <==> newly(before, after, u),
        forall|u: int| 0 <= u < after.len() ==> (#[trigger] after[u] <==> g.reachable(v, u)),
{
    reveal(explored);
    assert forall|u: int, k: int|
        #![trigger after[u], g.succ(u, k)]
        0 <= u < after.len() && after[u] && 0 <= k < 2 && g.succ(u, k) is Some implies after[g.succ(
            u,
            k,
        )->0] by {
        assert(newly(before, after, u));
    }
    assert forall|u: int| #[trigger] g.reachable(v, u) <==> newly(before, after, u) by {
        if g.reachable(v, u) {
            lemma_visited_reach(g, after, v, u);
        }
    }
    assert forall|u: int| 0 <= u < after.len() implies (#[trigger] after[u] <==> g.reachable(v, u)) by {
        if after[u] {
            assert(newly(before, after, u));
        }
    }
}

/// `len` flags, all unset.
fn all_unset(len: usize) -> (r: Vec<bool>)
    ensures
        r@.len() == len,
        forall|i: int| 0 <= i < len ==> !#[trigger] r@[i],
{
    let mut r: Vec<bool> = Vec::new();
    let mut i: usize = 0;
    while i < len
        invariant
            i <= len,
            r@.len() == i,
            forall|j: int| 0 <= j < i ==> !#[trigger] r@[j],
        decreases len - i,
    {
        r.push(false);
        i += 1;
    }
    r
}

impl Cells {
    /// The linear index of the state `(layer, y, x)`.
    fn encode(&self, layer: usize, y: usize, x: usize) -> (r: usize)
        requires
            self@.wf(),
            layer < 2,
            self@.in_bounds(y as int, x as int),
        ensures
            r == self@.index_of(layer as int, y as int, x as int),
            r < 2 * self@.size(),
    {
        let (h, w) = self.get_size();
        let n = self.len();
        proof {
            lemma_index_of(self@, layer as int, y as int, x as int);
            lemma_size_bound(self@);
            assert(layer * n <= n) by (nonlinear_arith)
                requires
                    layer < 2,
            ;
        }
        layer * n + y * w + x
    }

    /// The move in direction `k` out of the state `(layer, y, x)`: the linear
    /// index of the state it leads to, if any, and the bounce it records.
    fn step(&self, layer: usize, y: usize, x: usize, k: usize) -> (r: (Option<usize>, u32))
        requires
            self@.wf(),
            self@.is_state(layer as int, y as int, x as int),
            k < 2,
        ensures
            r.0 == (match self@.step(layer as int, y as int, x as int, k as int) {
                Some(t) => Some(self@.index_of(t.0, t.1, t.2) as usize),
                None => None::<usize>,
            }),
            r.1 == self@.bounce(layer as int, y as int, x as int, k as int),
    {
        let (h, w) = self.get_size();
        let left = k == 0;
        let up = if layer == 0 {
            k == 0
        } else {
            k == 1
        };
        if (up && y == 0) || (!up && y + 1 >= h) || (left && x == 0) || (!left && x + 1 >= w) {
            return (None, 0);
        }
        let ny = if up {
            y - 1
        } else {
            y + 1
        };
        let nx = if left {
            x - 1
        } else {
            x + 1
        };
        let ahead = self.get(ny, nx).unwrap();
        if !ahead.is_solid() {
            return (Some(self.encode(layer, ny, nx)), 0);
        }
        let beside_y = self.get(ny, x).unwrap();
        let beside_x = self.get(y, nx).unwrap();
        if beside_y.is_solid() && !beside_x.is_solid() {
            let flag = if ahead == CellKind::BouncyWall && beside_y == CellKind::BouncyWall {
                if up {
                    BOUNCE_TOP
                } else {
                    BOUNCE_BOTTOM
                }
            } else {
                0
            };
            (Some(self.encode(1 - layer, y, nx)), flag)
        } else if !beside_y.is_solid() && beside_x.is_solid() {
            let flag = if ahead == CellKind::BouncyWall && beside_x == CellKind::BouncyWall {
                if left {
                    BOUNCE_LEFT
                } else {
                    BOUNCE_RIGHT
                }
            } else {
                0
            };
            (Some(self.encode(1 - layer, ny, x)), flag)
        } else {
            (None, 0)
        }
    }

    /// Depth-first search from `start` through the states that `visited` does
    /// not yet hold. It marks each state it reaches, and returns the bounces
    /// recorded by the moves out of the states it marked.
    pub fn explore(&self, start: usize, visited: &mut Vec<bool>) -> (flags: u32)
        requires
            old(visited)@.len() == 2 * self@.size(),
            self@.is_vertex(start as int),
            !old(visited)@[start as int],
        ensures
            explored(self@, start as int, old(visited)@, final(visited)@, flags),
    {
        let (h, w) = self.get_size();
        let n = self.len();
        let ghost g = self@;
        let ghost before = visited@;
        proof {
            lemma_size_bound(g);
        }
        let mut top = false;
        let mut left = false;
        let mut bottom = false;
        let mut right = false;
        let mut stack: Vec<usize> = Vec::new();
        stack.push(start);
        visited[start] = true;
        let ghost mut seen: Set<int> = set![start as int];
        proof {
            lemma_reach_refl(g, start as int);
            lemma_int_range(0, 2 * n);
            assert(seen.subset_of(set_int_range(0, 2 * n)));
            lemma_len_subset(seen, set_int_range(0, 2 * n));
            assert forall|u: int| seen.contains(u) <==> #[trigger] newly(before, visited@, u) by {}
            assert(stack@.no_duplicates());
            assert forall|u: int, k: int|
                #![trigger newly(before, visited@, u), g.succ(u, k)]
                newly(before, visited@, u) && !stack@.contains(u as usize) && 0 <= k < 2
                    && g.succ(u, k) is Some implies visited@[g.succ(u, k)->0] by {
                assert(u == start);
                assert(stack@[0] == start);
            }
            assert forall|flag: u32| !done_bounce(g, before, visited@, stack@, flag) by {
                if done_bounce(g, before, visited@, stack@, flag) {
                    let (u, k) = choose|u: int, k: int|
                        done(before, visited@, stack@, u) && 0 <= k < 2 && #[trigger] g.bounce_at(
                            u,
                            k,
                        ) == flag;
                    assert(stack@[0] == start);
                }
            }
        }
        while stack.len() > 0
            invariant
                g == self@,
                g.wf(),
                n == g.size(),
                n <= 576,
                w == g.width,
                h == g.height,
                visited@.len() == before.len() == 2 * n,
                g.is_vertex(start as int),
                visited@[start as int],
                forall|u: int| 0 <= u < before.len() && #[trigger] before[u] ==> visited@[u],
                forall|u: int| #[trigger]
                    newly(before, visited@, u) ==> g.is_vertex(u) && g.reachable(start as int, u),
                forall|u: int| seen.contains(u) <==> #[trigger] newly(before, visited@, u),
                seen.finite(),
                seen.len() <= 2 * n,
                stack@.no_duplicates(),
                forall|j: int|
                    0 <= j < stack.len() ==> #[trigger] newly(before, visited@, stack@[j] as int),
                forall|u: int, k: int|
                    #![trigger newly(before, visited@, u), g.succ(u, k)]
                    newly(before, visited@, u) && !stack@.contains(u as usize) && 0 <= k < 2
                        && g.succ(u, k) is Some ==> visited@[g.succ(u, k)->0],
                top == done_bounce(g, before, visited@, stack@, BOUNCE_TOP),
                left == done_bounce(g, before, visited@, stack@, BOUNCE_LEFT),
                bottom == done_bounce(g, before, visited@, stack@, BOUNCE_BOTTOM),
                right == done_bounce(g, before, visited@, stack@, BOUNCE_RIGHT),
            decreases 2 * (2 * n - seen.len()) + stack.len(),
        {
            let ghost vis0 = visited@;
            let ghost st0 = stack@;
            let ghost seen0 = seen;
            let v = stack.pop().unwrap();
            proof {
                assert(st0 == stack@.push(v));
                assert(st0[st0.len() - 1] == v);
                assert(newly(before, vis0, v as int));
                lemma_decode(g, v as int);
                assert(!stack@.contains(v)) by {
                    if stack@.contains(v) {
                        let j = choose|j: int| 0 <= j < stack@.len() && stack@[j] == v;
                        assert(st0[j] == st0[st0.len() - 1]);
                    }
                }
                assert forall|j: int| 0 <= j < stack.len() implies #[trigger] newly(
                    before,
                    vis0,
                    stack@[j] as int,
                ) by {
                    assert(stack@[j] == st0[j]);
                }
            }
            let layer = v / n;
            let c = v % n;
            let y = c / w;
            let x = c % w;
            let (m0, b0) = self.step(layer, y, x, 0);
            let (m1, b1) = self.step(layer, y, x, 1);
            proof {
                if g.succ(v as int, 0) is Some {
                    lemma_succ(g, v as int, 0);
                }
                if g.succ(v as int, 1) is Some {
                    lemma_succ(g, v as int, 1);
                }
                assert(layer as int == g.orient(v as int));
                assert(y as int == g.row(v as int));
                assert(x as int == g.col(v as int));
                assert(g.succ(v as int, 0) == (match m0 {
                    Some(t) => Some(t as int),
                    None => None::<int>,
                }));
                assert(g.succ(v as int, 1) == (match m1 {
                    Some(t) => Some(t as int),
                    None => None::<int>,
                }));
                if m0 is Some {
                    lemma_succ(g, v as int, 0);
                    lemma_reach_step(g, start as int, v as int, m0->0 as int);
                }
                if m1 is Some {
                    lemma_succ(g, v as int, 1);
                    lemma_reach_step(g, start as int, v as int, m1->0 as int);
                }
            }
            let ghost vis1 = visited@;
            let ghost st1 = stack@;
            if let Some(nv) = m0 {
                push_unvisited(nv, visited, &mut stack);
            }
            let ghost vis_mid = visited@;
            let ghost st_mid = stack@;
            if let Some(nv) = m1 {
                push_unvisited(nv, visited, &mut stack);
            }
            proof {
                self.lemma_explore_step(
                    start as int,
                    before,
                    vis0,
                    st0,
                    vis1,
                    st1,
                    vis_mid,
                    st_mid,
                    visited@,
                    stack@,
                    v as int,
                    m0,
                    m1,
                );
                lemma_flag_update(g, before, vis0, st0, visited@, stack@, v as int, BOUNCE_TOP, b0, b1);
                lemma_flag_update(g, before, vis0, st0, visited@, stack@, v as int, BOUNCE_LEFT, b0, b1);
                lemma_flag_update(g, before, vis0, st0, visited@, stack@, v as int, BOUNCE_BOTTOM, b0, b1);
                lemma_flag_update(g, before, vis0, st0, visited@, stack@, v as int, BOUNCE_RIGHT, b0, b1);
                if m0 is Some && !vis1[m0->0 as int] {
                    assert(!newly(before, vis0, m0->0 as int));
                    assert(!seen.contains(m0->0 as int));
                    seen = seen.insert(m0->0 as int);
                }
                if m1 is Some && !vis_mid[m1->0 as int] {
                    assert(!newly(before, vis0, m1->0 as int));
                    assert(!seen.contains(m1->0 as int));
                    seen = seen.insert(m1->0 as int);
                }
                assert forall|u: int| seen.contains(u) <==> #[trigger] newly(before, visited@, u) by {}
                assert forall|u: int| seen.contains(u) implies set_int_range(0, 2 * n).contains(u) by {
                    assert(newly(before, visited@, u));
                }
                assert(seen.subset_of(set_int_range(0, 2 * n)));
                lemma_int_range(0, 2 * n);
                lemma_len_subset(seen, set_int_range(0, 2 * n));
                assert(vis0[start as int]);
            }
            top = top || b0 == BOUNCE_TOP || b1 == BOUNCE_TOP;
            left = left || b0 == BOUNCE_LEFT || b1 == BOUNCE_LEFT;
            bottom = bottom || b0 == BOUNCE_BOTTOM || b1 == BOUNCE_BOTTOM;
            right = right || b0 == BOUNCE_RIGHT || b1 == BOUNCE_RIGHT;
        }
        proof {
            reveal(explored);
            assert(stack@ =~= Seq::<usize>::empty());
            lemma_flag_finished(g, before, visited@, BOUNCE_TOP);
            lemma_flag_finished(g, before, visited@, BOUNCE_LEFT);
            lemma_flag_finished(g, before, visited@, BOUNCE_BOTTOM);
            lemma_flag_finished(g, before, visited@, BOUNCE_RIGHT);
            assert forall|u: int, k: int|
                #![trigger newly(before, visited@, u), g.succ(u, k)]
                newly(before, visited@, u) && 0 <= k < 2 && g.succ(u, k) is Some implies visited@[g.succ(
                    u,
                    k,
                )->0] by {
                assert(!stack@.contains(u as usize));
            }
        }
        (if top {
            BOUNCE_TOP
        } else {
            0
        }) + (if left {
            BOUNCE_LEFT
        } else {
            0
        }) + (if bottom {
            BOUNCE_BOTTOM
        } else {
            0
        }) + (if right {
            BOUNCE_RIGHT
        } else {
            0
        })
    }

    /// One round of the search keeps its invariant: after the state `v` was
    /// taken off the stack and its unvisited successors pushed, `v` is the one
    /// state that became finished, and each finished state has its moves visited.
    proof fn lemma_explore_step(
        &self,
        start: int,
        before: Seq<bool>,
        vis0: Seq<bool>,
        st0: Seq<usize>,
        vis1: Seq<bool>,
        st1: Seq<usize>,
        vis_mid: Seq<bool>,
        st_mid: Seq<usize>,
        vis2: Seq<bool>,
        st2: Seq<usize>,
        v: int,
        m0: Option<usize>,
        m1: Option<usize>,
    )
        requires
            self@.wf(),
            vis0.len() == before.len() == 2 * self@.size(),
            self@.size() <= 576,
            vis1 == vis0,
            st0 == st1.push(v as usize),
            st0.no_duplicates(),
            0 <= v < vis0.len(),
            newly(before, vis0, v),
            forall|j: int| 0 <= j < st0.len() ==> #[trigger] newly(before, vis0, st0[j] as int),
            forall|u: int| 0 <= u < before.len() && #[trigger] before[u] ==> vis0[u],
            forall|u: int| #[trigger]
                newly(before, vis0, u) ==> self@.is_vertex(u) && self@.reachable(start, u),
            forall|u: int, k: int|
                #![trigger newly(before, vis0, u), self@.succ(u, k)]
                newly(before, vis0, u) && !st0.contains(u as usize) && 0 <= k < 2 && self@.succ(
                    u,
                    k,
                ) is Some ==> vis0[self@.succ(u, k)->0],
            self@.succ(v, 0) == (match m0 {
                Some(t) => Some(t as int),
                None => None::<int>,
            }),
            self@.succ(v, 1) == (match m1 {
                Some(t) => Some(t as int),
                None => None::<int>,
            }),
            m0 is Some ==> {
                &&& self@.is_vertex(m0->0 as int)
                &&& self@.reachable(start, m0->0 as int)
                &&& vis_mid == vis1.update(m0->0 as int, true)
                &&& st_mid == (if vis1[m0->0 as int] {
                    st1
                } else {
                    st1.push(m0->0)
                })
            },
            m0 is None ==> vis_mid == vis1 && st_mid == st1,
            m1 is Some ==> {
                &&& self@.is_vertex(m1->0 as int)
                &&& self@.reachable(start, m1->0 as int)
                &&& vis2 == vis_mid.update(m1->0 as int, true)
                &&& st2 == (if vis_mid[m1->0 as int] {
                    st_mid
                } else {
                    st_mid.push(m1->0)
                })
            },
            m1 is None ==> vis2 == vis_mid && st2 == st_mid,
        ensures
            vis2.len() == vis0.len(),
            forall|u: int| 0 <= u < vis0.len() && #[trigger] vis0[u] ==> vis2[u],
            forall|u: int| #[trigger]
                newly(before, vis2, u) ==> self@.is_vertex(u) && self@.reachable(start, u),
            forall|u: int| #[trigger]
                newly(before, vis2, u) <==> (newly(before, vis0, u) || (m0 is Some && !vis1[m0->0 as int]
                    && u == m0->0 as int) || (m1 is Some && !vis_mid[m1->0 as int] && u == m1->0 as int)),
            st2.no_duplicates(),
            forall|j: int| 0 <= j < st2.len() ==> #[trigger] newly(before, vis2, st2[j] as int),
            forall|u: int, k: int|
                #![trigger newly(before, vis2, u), self@.succ(u, k)]
                newly(before, vis2, u) && !st2.contains(u as usize) && 0 <= k < 2 && self@.succ(
                    u,
                    k,
                ) is Some ==> vis2[self@.succ(u, k)->0],
            forall|u: int|
                #[trigger] done(before, vis2, st2, u) <==> (done(before, vis0, st0, u) || u == v),
            st2.len() == st1.len() + (if m0 is Some && !vis1[m0->0 as int] { 1int } else { 0 }) + (
            if m1 is Some && !vis_mid[m1->0 as int] {
                1int
            } else {
                0
            }),
    {
        let g = self@;
        assert(st0[st0.len() - 1] == v as usize);
        assert(forall|j: int| 0 <= j < st1.len() ==> st1[j] == st0[j]);
        assert(!st1.contains(v as usize)) by {
            if st1.contains(v as usize) {
                let j = choose|j: int| 0 <= j < st1.len() && st1[j] == v as usize;
                assert(st0[j] == st0[st0.len() - 1]);
            }
        }
        assert forall|u: int| 0 <= u < vis0.len() && #[trigger] st2.contains(u as usize) implies (st1.contains(
            u as usize,
        ) || (m0 is Some && u == m0->0 as int) || (m1 is Some && u == m1->0 as int)) by {
            let j = choose|j: int| 0 <= j < st2.len() && st2[j] == u as usize;
            if j < st1.len() {
                assert(st1[j] == st2[j]);
            } else if j < st_mid.len() {
            } else {
            }
        }
        assert forall|u: int| 0 <= u < vis0.len() && #[trigger] st1.contains(u as usize) implies st2.contains(
            u as usize,
        ) by {
            let j = choose|j: int| 0 <= j < st1.len() && st1[j] == u as usize;
            assert(st_mid[j] == st1[j]);
            assert(st2[j] == st_mid[j]);
        }
        assert forall|u: int| 0 <= u < vis0.len() && #[trigger] st0.contains(u as usize) implies (
        st1.contains(u as usize) || u == v) by {
            let j = choose|j: int| 0 <= j < st0.len() && st0[j] == u as usize;
            if j < st1.len() {
                assert(st1[j] == st0[j]);
            }
        }
        assert forall|u: int| 0 <= u < vis0.len() && #[trigger] st1.contains(u as usize) implies st0.contains(
        u as usize) by {
            let j = choose|j: int| 0 <= j < st1.len() && st1[j] == u as usize;
            assert(st0[j] == st1[j]);
        }
        if m0 is Some && !vis1[m0->0 as int] {
            assert(!st1.contains(m0->0)) by {
                if st1.contains(m0->0) {
                    let j = choose|j: int| 0 <= j < st1.len() && st1[j] == m0->0;
                    assert(st0[j] == st1[j]);
                    assert(newly(before, vis0, st0[j] as int));
                }
            }
        }
        if m1 is Some && !vis_mid[m1->0 as int] {
            assert(!st_mid.contains(m1->0)) by {
                if st_mid.contains(m1->0) {
                    let j = choose|j: int| 0 <= j < st_mid.len() && st_mid[j] == m1->0;
                    if j < st1.len() {
                        assert(st0[j] == st1[j]);
                        assert(newly(before, vis0, st0[j] as int));
                    }
                }
            }
        }
        assert forall|u: int| #[trigger]
            newly(before, vis2, u) <==> (newly(before, vis0, u) || (m0 is Some && !vis1[m0->0 as int]
                && u == m0->0 as int) || (m1 is Some && !vis_mid[m1->0 as int] && u == m1->0 as int)) by {
            if 0 <= u < vis0.len() && !before[u] && vis0[u] {
                assert(vis_mid[u]);
            }
        }
        assert forall|u: int| #[trigger] newly(before, vis2, u) implies self@.is_vertex(u)
            && self@.reachable(start, u) by {
            if !newly(before, vis0, u) {
                if m0 is Some && u == m0->0 as int {
                } else {
                }
            }
        }
        if m0 is Some && !vis1[m0->0 as int] {
            assert(st_mid[st1.len() as int] == m0->0);
            assert(st2[st1.len() as int] == m0->0);
            assert(st2.contains(m0->0));
        }
        if m1 is Some && !vis_mid[m1->0 as int] {
            assert(st2[st_mid.len() as int] == m1->0);
            assert(st2.contains(m1->0));
        }
        assert forall|j: int| 0 <= j < st2.len() implies #[trigger] newly(before, vis2, st2[j] as int) by {
            if j < st1.len() {
                assert(st1[j] == st0[j]);
                assert(newly(before, vis0, st0[j] as int));
            }
        }
        assert forall|u: int, k: int|
            #![trigger newly(before, vis2, u), g.succ(u, k)]
            newly(before, vis2, u) && !st2.contains(u as usize) && 0 <= k < 2 && g.succ(u, k) is Some
                implies vis2[g.succ(u, k)->0] by {
            if u == v {
                if k == 0 {
                    assert(vis_mid[m0->0 as int]);
                } else {
                    assert(vis2[m1->0 as int]);
                }
            } else {
                lemma_succ(g, u, k);
                assert(!st1.contains(u as usize));
                assert(!st0.contains(u as usize));
                assert(newly(before, vis0, u));
                assert(vis0[g.succ(u, k)->0]);
            }
        }
        assert forall|u: int| #[trigger] done(before, vis2, st2, u) <==> (done(before, vis0, st0, u) || u == v) by {
            if u == v {
                assert(st0.contains(v as usize)) by {
                    assert(st0[st0.len() - 1] == v as usize);
                }
            }
            if 0 <= u < vis0.len() && st0.contains(u as usize) && u != v {
                assert(st1.contains(u as usize));
            }
        }
    }

    /// One representative state for each component of the travel graph whose
    /// moves bounce off bouncy walls in all four senses: the first state of
    /// the component, by cell in row-major order and then by orientation.
    /// Each component is explored once.
    pub fn find_routes(&self) -> (r: Vec<usize>)
        ensures
            r@.map_values(|v: usize| v as int) == self@.routes(),
    {
        let n = self.len();
        let ghost g = self@;
        let mut reps: Vec<usize> = Vec::new();
        proof {
            lemma_size_bound(g);
        }
        let mut visited = all_unset(2 * n);
        proof {
            reveal(visited_upto);
            assert(reps@.map_values(|r: usize| r as int) =~= g.routes_upto(0));
        }
        let mut p: usize = 0;
        while p < 2 * n
            invariant
                g == self@,
                g.wf(),
                n == g.size(),
                n <= 576,
                p <= 2 * n,
                enumerated(g, visited@, reps@, p as int),
            decreases 2 * n - p,
        {
            proof {
                assert((p % 2) * n <= n) by (nonlinear_arith)
                    requires
                        p % 2 < 2,
                ;
            }
            let v = (p % 2) * n + p / 2;
            proof {
                assert(v == g.vertex_of_key(p as int));
                lemma_vertex_of_key(g, p as int);
            }
            self.consider(p, v, &mut visited, &mut reps);
            p += 1;
        }
        reps
    }

    /// Explores from the state `v`, `p`-th in the enumeration order, unless it
    /// is solid or was already visited, and keeps it as a representative when
    /// its component bounces in all four senses.
    fn consider(&self, p: usize, v: usize, visited: &mut Vec<bool>, reps: &mut Vec<usize>)
        requires
            self@.wf(),
            0 <= p < 2 * self@.size(),
            v == self@.vertex_of_key(p as int),
            enumerated(self@, old(visited)@, old(reps)@, p as int),
        ensures
            enumerated(self@, final(visited)@, final(reps)@, p + 1),
    {
        let ghost g = self@;
        let ghost vis0 = visited@;
        let ghost reps0 = reps@;
        let n = self.len();
        let (h, w) = self.get_size();
        proof {
            lemma_vertex_of_key(g, p as int);
            lemma_decode(g, v as int);
            lemma_key(g, v as int);
        }
        let c = v % n;
        let kind = self.get(c / w, c % w).unwrap();
        if kind.is_solid() || visited[v] {
            proof {
                lemma_skip_state(g, p as int, v as int, visited@);
                assert(reps@.map_values(|r: usize| r as int) =~= g.routes_upto((p + 1) as nat));
            }
            return;
        }
        let flags = self.explore(v, visited);
        proof {
            lemma_component_explored(g, p as int, v as int, vis0, visited@, flags);
        }
        if flags == BOUNCE_ALL {
            reps.push(v);
        }
        proof {
            assert(reps@.map_values(|r: usize| r as int) =~= g.routes_upto((p + 1) as nat));
        }
    }

    /// The trace of the route through `v`: for each cell in row-major order,
    /// bit 0 is set when the states reachable from `v` cross it in orientation
    /// 0, and bit 1 when they cross it in orientation 1.
    pub fn trace(&self, v: usize) -> (r: Vec<u8>)
        requires
            self@.is_vertex(v as int),
        ensures
            r@ == self@.trace_of(v as int),
    {
        let n = self.len();
        let ghost g = self@;
        proof {
            lemma_size_bound(g);
        }
        let mut visited = all_unset(2 * n);
        let ghost before = visited@;
        let flags = self.explore(v, &mut visited);
        proof {
            lemma_fresh_explore(g, v as int, before, visited@, flags);
        }
        let mut mask: Vec<u8> = Vec::new();
        let mut c: usize = 0;
        while c < n
            invariant
                g == self@,
                n == g.size(),
                n <= 576,
                c <= n,
                visited@.len() == 2 * n,
                forall|u: int| 0 <= u < visited@.len() ==> (#[trigger] visited@[u] <==> g.reachable(v as int, u)),
                mask@.len() == c,
                forall|j: int| 0 <= j < c ==> #[trigger] mask@[j] == g.trace_of(v as int)[j],
            decreases n - c,
        {
            let low: u8 = if visited[c] {
                1
            } else {
                0
            };
            let high: u8 = if visited[n + c] {
                2
            } else {
                0
            };
            mask.push(low + high);
            proof {
                assert(visited@[c as int] == g.reachable(v as int, c as int));
                assert(visited@[n + c] == g.reachable(v as int, n + c));
            }
            c += 1;
        }
        proof {
            assert(mask@ =~= g.trace_of(v as int));
        }
        mask
    }
}

} // verus!
