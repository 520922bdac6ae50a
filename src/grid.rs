//! The mathematical model of a map and of the diagonal travel graph over it.
//!
//! A travel state is an orientation `o` (0 for the `\` family of steps, 1 for
//! the `/` family) together with a non-solid cell `(y, x)`. States are stored
//! under the linear index `o * height * width + y * width + x`.

use vstd::prelude::*;
use vstd::arithmetic::div_mod::lemma_fundamental_div_mod_converse;
use crate::cell::CellKind;

verus! {

/// Bounce against a bouncy wall above.
pub const BOUNCE_TOP: u32 = 1;

/// Bounce against a bouncy wall on the left.
pub const BOUNCE_LEFT: u32 = 2;

/// Bounce against a bouncy wall below.
pub const BOUNCE_BOTTOM: u32 = 4;

/// Bounce against a bouncy wall on the right.
pub const BOUNCE_RIGHT: u32 = 8;

/// All four bounces.
pub const BOUNCE_ALL: u32 = 15;

/// The largest number of lines, and of cells in a line, that a map may have.
pub const MAX_SIDE: usize = 24;

/// A map as a mathematical value: its size and its cells in row-major order.
pub struct Grid {
    pub height: nat,
    pub width: nat,
    pub kinds: Seq<CellKind>,
}

/// The step `(dy, dx)` taken in direction `k` (0 or 1) of orientation `o`.
pub open spec fn delta(o: int, k: int) -> (int, int) {
    let dx = if k == 0 { -1int } else { 1int };
    if o == 0 { (dx, dx) } else { (-dx, dx) }
}

impl Grid {
    /// At most 24 by 24, with one kind per cell.
    pub open spec fn wf(self) -> bool {
        &&& self.height <= MAX_SIDE
        &&& self.width <= MAX_SIDE
        &&& self.kinds.len() == self.height * self.width
    }

    /// The number of cells.
    pub open spec fn size(self) -> int {
        (self.height * self.width) as int
    }

    pub open spec fn in_bounds(self, y: int, x: int) -> bool {
        0 <= y < self.height && 0 <= x < self.width
    }

    /// The kind of the cell at `(y, x)`.
    pub open spec fn at(self, y: int, x: int) -> CellKind {
        self.kinds[y * (self.width as int) + x]
    }

    pub open spec fn solid(self, y: int, x: int) -> bool {
        self.at(y, x).spec_is_solid()
    }

    /// A travel state: an orientation over an open cell.
    pub open spec fn is_state(self, o: int, y: int, x: int) -> bool {
        0 <= o < 2 && self.in_bounds(y, x) && !self.solid(y, x)
    }

    /// The linear index of the state `(o, y, x)`.
    pub open spec fn index_of(self, o: int, y: int, x: int) -> int {
        o * self.size() + y * (self.width as int) + x
    }

    /// The orientation of the state with linear index `v`.
    pub open spec fn orient(self, v: int) -> int {
        v / self.size()
    }

    /// The cell, in row-major order, of the state with linear index `v`.
    pub open spec fn cell_of(self, v: int) -> int {
        v % self.size()
    }

    pub open spec fn row(self, v: int) -> int {
        self.cell_of(v) / (self.width as int)
    }

    pub open spec fn col(self, v: int) -> int {
        self.cell_of(v) % (self.width as int)
    }

    /// `v` is the linear index of a travel state.
    pub open spec fn is_vertex(self, v: int) -> bool {
        &&& 0 <= v < 2 * self.size()
        &&& !self.solid(self.row(v), self.col(v))
    }

    /// Where direction `k` leads from the state `(o, y, x)`: straight on when the
    /// diagonal cell is open; along a wall, with the orientation flipped, when
    /// exactly one of the two cells beside the diagonal is solid; nowhere else.
    pub open spec fn step(self, o: int, y: int, x: int, k: int) -> Option<(int, int, int)> {
        let (dy, dx) = delta(o, k);
        let ny = y + dy;
        let nx = x + dx;
        if !self.in_bounds(ny, nx) {
            None
        } else if !self.solid(ny, nx) {
            Some((o, ny, nx))
        } else if self.solid(ny, x) && !self.solid(y, nx) {
            Some((1 - o, y, nx))
        } else if !self.solid(ny, x) && self.solid(y, nx) {
            Some((1 - o, ny, x))
        } else {
            None
        }
    }

    /// The bounce recorded when direction `k` is taken from `(o, y, x)`: a
    /// deflection where both the blocking cell and the wall followed are bouncy.
    pub open spec fn bounce(self, o: int, y: int, x: int, k: int) -> u32 {
        let (dy, dx) = delta(o, k);
        let ny = y + dy;
        let nx = x + dx;
        if !self.in_bounds(ny, nx) || !self.solid(ny, nx) {
            0
        } else if self.solid(ny, x) && !self.solid(y, nx) {
            if self.at(ny, nx) is BouncyWall && self.at(ny, x) is BouncyWall {
                if dy == -1 { BOUNCE_TOP } else { BOUNCE_BOTTOM }
            } else {
                0
            }
        } else if !self.solid(ny, x) && self.solid(y, nx) {
            if self.at(ny, nx) is BouncyWall && self.at(y, nx) is BouncyWall {
                if dx == -1 { BOUNCE_LEFT } else { BOUNCE_RIGHT }
            } else {
                0
            }
        } else {
            0
        }
    }

    /// Where direction `k` leads from the state with linear index `v`.
    pub open spec fn succ(self, v: int, k: int) -> Option<int> {
        match self.step(self.orient(v), self.row(v), self.col(v), k) {
            Some(t) => Some(self.index_of(t.0, t.1, t.2)),
            None => None,
        }
    }

    /// The bounce recorded when direction `k` is taken from the state `v`.
    pub open spec fn bounce_at(self, v: int, k: int) -> u32 {
        self.bounce(self.orient(v), self.row(v), self.col(v), k)
    }

    /// One move leads from `u` to `v`.
    pub open spec fn edge(self, u: int, v: int) -> bool {
        self.succ(u, 0) == Some(v) || self.succ(u, 1) == Some(v)
    }

    /// `p` is a walk along moves.
    pub open spec fn is_path(self, p: Seq<int>) -> bool {
        &&& p.len() >= 1
        &&& forall|i: int| 0 <= i < p.len() - 1 ==> #[trigger] self.edge(p[i], p[i + 1])
    }

    /// A walk leads from `a` to `b`.
    pub open spec fn reachable(self, a: int, b: int) -> bool {
        exists|p: Seq<int>| #[trigger] self.is_path(p) && p[0] == a && p.last() == b
    }

    /// Some state reachable from `a` takes a move that records `flag`.
    pub open spec fn bounces_with(self, a: int, flag: u32) -> bool {
        exists|u: int, k: int|
            0 <= k < 2 && self.reachable(a, u) && #[trigger] self.bounce_at(u, k) == flag
    }

    /// The states reachable from `a` bounce in all four senses.
    pub open spec fn bounces_all_ways(self, a: int) -> bool {
        &&& self.bounces_with(a, BOUNCE_TOP)
        &&& self.bounces_with(a, BOUNCE_LEFT)
        &&& self.bounces_with(a, BOUNCE_BOTTOM)
        &&& self.bounces_with(a, BOUNCE_RIGHT)
    }

    /// The enumeration order of states: by cell in row-major order, then by
    /// orientation.
    pub open spec fn key(self, v: int) -> int {
        2 * self.cell_of(v) + self.orient(v)
    }

    /// The state that comes `k`-th in the enumeration order.
    pub open spec fn vertex_of_key(self, k: int) -> int {
        (k % 2) * self.size() + k / 2
    }

    /// `v` comes first, in the enumeration order, among the states reachable from it.
    pub open spec fn is_first_of_component(self, v: int) -> bool {
        &&& self.is_vertex(v)
        &&& forall|u: int| #[trigger] self.reachable(v, u) ==> self.key(v) <= self.key(u)
    }

    /// `v` stands for a component that bounces in all four senses.
    pub open spec fn is_representative(self, v: int) -> bool {
        self.is_first_of_component(v) && self.bounces_all_ways(v)
    }

    /// The representatives among the first `k` states of the enumeration order.
    pub open spec fn routes_upto(self, k: nat) -> Seq<int>
        decreases k,
    {
        if k == 0 {
            Seq::empty()
        } else {
            let prev = self.routes_upto((k - 1) as nat);
            let v = self.vertex_of_key(k - 1);
            if self.is_representative(v) {
                prev.push(v)
            } else {
                prev
            }
        }
    }

    /// One representative for each component that bounces in all four senses,
    /// in the enumeration order.
    pub open spec fn routes(self) -> Seq<int> {
        self.routes_upto((2 * self.size()) as nat)
    }

    /// The trace of the component of `v`: for each cell, bit 0 is set when the
    /// component crosses it in orientation 0 and bit 1 when in orientation 1.
    pub open spec fn trace_of(self, v: int) -> Seq<u8> {
        Seq::new(
            self.size() as nat,
            |c: int|
                ((if self.reachable(v, c) { 1int } else { 0int }) + (if self.reachable(
                    v,
                    self.size() + c,
                ) {
                    2int
                } else {
                    0int
                })) as u8,
        )
    }
}

/// A state's linear index lies in range and decodes back to the state.
pub proof fn lemma_index_of(g: Grid, o: int, y: int, x: int)
    requires
        g.wf(),
        0 <= o < 2,
        g.in_bounds(y, x),
    ensures
        0 <= y * g.width + x < g.size(),
        0 <= g.index_of(o, y, x) < 2 * g.size(),
        g.orient(g.index_of(o, y, x)) == o,
        g.cell_of(g.index_of(o, y, x)) == y * g.width + x,
        g.row(g.index_of(o, y, x)) == y,
        g.col(g.index_of(o, y, x)) == x,
{
    let w = g.width as int;
    let h = g.height as int;
    let c = y * w + x;
    assert(0 <= c < h * w) by (nonlinear_arith)
        requires
            0 <= y < h,
            0 <= x < w,
            c == y * w + x,
    ;
    if o == 0 {
        assert(g.index_of(o, y, x) == c);
    } else {
        assert(g.index_of(o, y, x) == g.size() + c);
    }
    lemma_fundamental_div_mod_converse(g.index_of(o, y, x), g.size(), o, c);
    lemma_fundamental_div_mod_converse(c, w, y, x);
}

/// A map has at most 576 cells.
pub proof fn lemma_size_bound(g: Grid)
    requires
        g.wf(),
    ensures
        0 <= g.size() <= 576,
{
    let h = g.height as int;
    let w = g.width as int;
    assert(0 <= h * w <= 576) by (nonlinear_arith)
        requires
            0 <= h <= 24,
            0 <= w <= 24,
    ;
}

/// Every index below twice the number of cells decodes to an in-bounds state.
pub proof fn lemma_decode(g: Grid, v: int)
    requires
        g.wf(),
        0 <= v < 2 * g.size(),
    ensures
        0 <= g.orient(v) < 2,
        g.in_bounds(g.row(v), g.col(v)),
        g.cell_of(v) == g.row(v) * g.width + g.col(v),
        0 <= g.cell_of(v) < g.size(),
        g.index_of(g.orient(v), g.row(v), g.col(v)) == v,
{
    let n = g.size();
    let w = g.width as int;
    let h = g.height as int;
    assert(n > 0);
    assert(w > 0) by (nonlinear_arith)
        requires
            n == h * w,
            n > 0,
            h >= 0,
            w >= 0,
    ;
    let o = v / n;
    let c = v % n;
    assert(v == o * n + c && 0 <= c < n && 0 <= o < 2) by (nonlinear_arith)
        requires
            n > 0,
            0 <= v < 2 * n,
            o == v / n,
            c == v % n,
    ;
    let y = c / w;
    let x = c % w;
    assert(c == y * w + x && 0 <= x < w && 0 <= y < h) by (nonlinear_arith)
        requires
            w > 0,
            n == h * w,
            0 <= c < n,
            y == c / w,
            x == c % w,
    ;
}

/// Each move leads from a travel state to a travel state, and can be undone.
pub proof fn lemma_step_reverse(g: Grid, o: int, y: int, x: int, k: int)
    requires
        g.wf(),
        g.is_state(o, y, x),
        0 <= k < 2,
        g.step(o, y, x, k) is Some,
    ensures
        ({
            let t = g.step(o, y, x, k)->0;
            &&& g.is_state(t.0, t.1, t.2)
            &&& (g.step(t.0, t.1, t.2, 1 - k) == Some((o, y, x)) || g.step(t.0, t.1, t.2, k)
                == Some((o, y, x)))
        }),
{
}

/// What a move from a travel state leads to, by linear index.
pub proof fn lemma_succ(g: Grid, v: int, k: int)
    requires
        g.wf(),
        g.is_vertex(v),
        0 <= k < 2,
        g.succ(v, k) is Some,
    ensures
        g.is_vertex(g.succ(v, k)->0),
        g.edge(g.succ(v, k)->0, v),
{
    lemma_decode(g, v);
    let (o, y, x) = (g.orient(v), g.row(v), g.col(v));
    lemma_step_reverse(g, o, y, x, k);
    let t = g.step(o, y, x, k)->0;
    lemma_index_of(g, t.0, t.1, t.2);
}

/// A walk that starts at a travel state only visits travel states.
pub proof fn lemma_path_vertices(g: Grid, p: Seq<int>)
    requires
        g.wf(),
        g.is_path(p),
        g.is_vertex(p[0]),
    ensures
        forall|i: int| 0 <= i < p.len() ==> #[trigger] g.is_vertex(p[i]),
    decreases p.len(),
{
    if p.len() > 1 {
        let q = p.drop_last();
        assert forall|i: int| 0 <= i < q.len() - 1 implies #[trigger] g.edge(q[i], q[i + 1]) by {
            assert(g.edge(p[i], p[i + 1]));
        }
        lemma_path_vertices(g, q);
        let m = p.len() - 2;
        assert(g.edge(p[m], p[m + 1]));
        assert(q[m] == p[m]);
        assert(g.is_vertex(q[m]));
        if g.succ(p[m], 0) == Some(p[m + 1]) {
            lemma_succ(g, p[m], 0);
        } else {
            lemma_succ(g, p[m], 1);
        }
        assert forall|i: int| 0 <= i < p.len() implies #[trigger] g.is_vertex(p[i]) by {
            if i < p.len() - 1 {
                assert(q[i] == p[i]);
            }
        }
    }
}

/// The enumeration order numbers the states one to one.
pub proof fn lemma_key(g: Grid, v: int)
    requires
        g.wf(),
        0 <= v < 2 * g.size(),
    ensures
        0 <= g.key(v) < 2 * g.size(),
        g.vertex_of_key(g.key(v)) == v,
{
    lemma_decode(g, v);
    let k = g.key(v);
    lemma_fundamental_div_mod_converse(k, 2, g.cell_of(v), g.orient(v));
    if g.orient(v) == 0 {
        assert(v == g.cell_of(v));
    } else {
        assert(v == g.size() + g.cell_of(v));
    }
}

/// The state at each place of the enumeration order has that place.
pub proof fn lemma_vertex_of_key(g: Grid, k: int)
    requires
        g.wf(),
        0 <= k < 2 * g.size(),
    ensures
        0 <= g.vertex_of_key(k) < 2 * g.size(),
        g.key(g.vertex_of_key(k)) == k,
{
    let n = g.size();
    let o = k % 2;
    let c = k / 2;
    assert(0 <= c < n && 0 <= o < 2 && k == 2 * c + o);
    let v = g.vertex_of_key(k);
    if o == 0 {
        assert(0 * n == 0);
        assert(v == c);
    } else {
        assert(1 * n == n);
        assert(v == n + c);
    }
    lemma_fundamental_div_mod_converse(v, n, o, c);
}

/// Every state reaches itself.
pub proof fn lemma_reach_refl(g: Grid, a: int)
    ensures
        g.reachable(a, a),
{
    let p = seq![a];
    assert(g.is_path(p));
}

/// A walk extended by one move.
pub proof fn lemma_reach_step(g: Grid, a: int, u: int, v: int)
    requires
        g.reachable(a, u),
        g.edge(u, v),
    ensures
        g.reachable(a, v),
{
    let p = choose|p: Seq<int>| #[trigger] g.is_path(p) && p[0] == a && p.last() == u;
    let q = p.push(v);
    assert forall|i: int| 0 <= i < q.len() - 1 implies #[trigger] g.edge(q[i], q[i + 1]) by {
        if i < p.len() - 1 {
            assert(g.edge(p[i], p[i + 1]));
        }
    }
    assert(g.is_path(q));
}

/// Two walks one after the other.
pub proof fn lemma_reach_trans(g: Grid, a: int, b: int, c: int)
    requires
        g.reachable(a, b),
        g.reachable(b, c),
    ensures
        g.reachable(a, c),
{
    let q = choose|q: Seq<int>| #[trigger] g.is_path(q) && q[0] == b && q.last() == c;
    lemma_reach_along(g, a, q);
}

proof fn lemma_reach_along(g: Grid, a: int, q: Seq<int>)
    requires
        g.is_path(q),
        g.reachable(a, q[0]),
    ensures
        g.reachable(a, q.last()),
    decreases q.len(),
{
    if q.len() > 1 {
        let r = q.drop_last();
        assert forall|i: int| 0 <= i < r.len() - 1 implies #[trigger] g.edge(r[i], r[i + 1]) by {
            assert(g.edge(q[i], q[i + 1]));
        }
        lemma_reach_along(g, a, r);
        let i = q.len() - 2;
        assert(g.edge(q[i], q[i + 1]));
        lemma_reach_step(g, a, r.last(), q.last());
    }
}

/// A state reachable from a travel state is a travel state.
pub proof fn lemma_reach_vertex(g: Grid, a: int, b: int)
    requires
        g.wf(),
        g.is_vertex(a),
        g.reachable(a, b),
    ensures
        g.is_vertex(b),
{
    let p = choose|p: Seq<int>| #[trigger] g.is_path(p) && p[0] == a && p.last() == b;
    lemma_path_vertices(g, p);
    assert(g.is_vertex(p[p.len() - 1]));
}

/// Reachability between travel states goes both ways.
pub proof fn lemma_reach_sym(g: Grid, a: int, b: int)
    requires
        g.wf(),
        g.is_vertex(a),
        g.reachable(a, b),
    ensures
        g.reachable(b, a),
{
    let p = choose|p: Seq<int>| #[trigger] g.is_path(p) && p[0] == a && p.last() == b;
    lemma_path_vertices(g, p);
    let n = p.len();
    let q = p.reverse();
    assert forall|i: int| 0 <= i < q.len() - 1 implies #[trigger] g.edge(q[i], q[i + 1]) by {
        let j = n - 2 - i;
        assert(g.edge(p[j], p[j + 1]));
        assert(g.is_vertex(p[j]));
        if g.succ(p[j], 0) == Some(p[j + 1]) {
            lemma_succ(g, p[j], 0);
        } else {
            lemma_succ(g, p[j], 1);
        }
    }
    assert(g.is_path(q));
}

/// A set of states that every move from it stays in holds whatever its members
/// reach.
pub proof fn lemma_closed_holds_reach(g: Grid, s: Set<int>, a: int, b: int)
    requires
        g.wf(),
        g.is_vertex(a),
        s.contains(a),
        forall|u: int, k: int|
            #![trigger s.contains(u), g.succ(u, k)]
            s.contains(u) && g.is_vertex(u) && 0 <= k < 2 && g.succ(u, k) is Some ==> s.contains(
                g.succ(u, k)->0,
            ),
        g.reachable(a, b),
    ensures
        s.contains(b),
{
    let p = choose|p: Seq<int>| #[trigger] g.is_path(p) && p[0] == a && p.last() == b;
    lemma_path_vertices(g, p);
    lemma_closed_prefix(g, s, p, p.len() as int);
}

proof fn lemma_closed_prefix(g: Grid, s: Set<int>, p: Seq<int>, m: int)
    requires
        g.wf(),
        g.is_path(p),
        1 <= m <= p.len(),
        s.contains(p[0]),
        forall|i: int| 0 <= i < p.len() ==> #[trigger] g.is_vertex(p[i]),
        forall|u: int, k: int|
            #![trigger s.contains(u), g.succ(u, k)]
            s.contains(u) && g.is_vertex(u) && 0 <= k < 2 && g.succ(u, k) is Some ==> s.contains(
                g.succ(u, k)->0,
            ),
    ensures
        s.contains(p[m - 1]),
    decreases m,
{
    if m > 1 {
        lemma_closed_prefix(g, s, p, m - 1);
        let i = m - 2;
        assert(g.edge(p[i], p[i + 1]));
        assert(g.is_vertex(p[m - 2]));
        if g.succ(p[m - 2], 0) == Some(p[m - 1]) {
        } else {
        }
    }
}

} // verus!
