use crate::maze::{adjacent, lemma_raster_index_bounds, raster_index, Coord, MazeView};
use vstd::arithmetic::div_mod::{lemma_fundamental_div_mod, lemma_mod_bound};
use vstd::set_lib::{lemma_int_range, lemma_len_subset, lemma_subset_equality, set_int_range};
use vstd::prelude::*;

verus! {

/// Whether `a` comes before `b` when the grid is read row by row.
pub open spec fn precedes(a: Coord, b: Coord) -> bool {
    a.1 < b.1 || (a.1 == b.1 && a.0 < b.0)
}

/// The pair that names the passage between `a` and `b`, whichever way round they are given.
pub open spec fn passage(a: Coord, b: Coord) -> (Coord, Coord) {
    if precedes(a, b) {
        (a, b)
    } else {
        (b, a)
    }
}

impl MazeView {
    /// Every link joins two cells of the grid that are next to one another.
    pub open spec fn on_grid(self) -> bool {
        forall|a: Coord, b: Coord| #[trigger]
            self.linked(a, b) ==> self.in_bounds(a) && self.in_bounds(b) && adjacent(a, b)
    }

    /// A walk: one cell or more, each linked to the one after it.
    pub open spec fn is_walk(self, p: Seq<Coord>) -> bool {
        &&& p.len() > 0
        &&& forall|i: int| 0 <= i < p.len() - 1 ==> self.linked(#[trigger] p[i], p[i + 1])
    }

    /// Whether some walk leads from `a` to `b`.
    pub open spec fn joined(self, a: Coord, b: Coord) -> bool {
        exists|p: Seq<Coord>| #[trigger] self.is_walk(p) && p.first() == a && p.last() == b
    }

    /// Whether a walk leads from every cell of the grid to every other.
    pub open spec fn connected(self) -> bool {
        forall|a: Coord, b: Coord|
            self.in_bounds(a) && self.in_bounds(b) ==> #[trigger] self.joined(a, b)
    }

    /// A cycle: three different cells or more, each linked to the one after it and the last to
    /// the first.
    pub open spec fn is_cycle(self, p: Seq<Coord>) -> bool {
        &&& p.len() >= 3
        &&& p.no_duplicates()
        &&& self.is_walk(p)
        &&& self.linked(p.last(), p.first())
    }

    /// Whether no cells of the maze form a cycle.
    pub open spec fn acyclic(self) -> bool {
        forall|p: Seq<Coord>| !#[trigger] self.is_cycle(p)
    }

    /// The passages of the maze, each named once: by the pair of its two cells with the one
    /// first that comes first row by row.
    pub open spec fn edges(self) -> Set<(Coord, Coord)> {
        Set::new(|e: (Coord, Coord)| precedes(e.0, e.1) && self.linked(e.0, e.1))
    }

    /// The passages form a spanning tree of the grid: they run between neighbouring cells in
    /// both directions, lead from every cell to every other, close no cycle, and are one fewer
    /// than there are cells.
    pub open spec fn spanning_tree(self) -> bool {
        &&& self.symmetric()
        &&& self.on_grid()
        &&& self.connected()
        &&& self.acyclic()
        &&& self.edges().finite()
        &&& self.edges().len() == self.size() - 1
    }
}

/// How a tree was grown: `order` lists its cells as they were first reached, and for every
/// cell but the first `parent` gives the place in `order` of the cell it was reached from.
pub struct Growth {
    pub order: Seq<Coord>,
    pub parent: Seq<int>,
}

impl Growth {
    /// The tree of the single cell `c`.
    pub open spec fn seed(c: Coord) -> Growth {
        Growth { order: seq![c], parent: seq![0int] }
    }

    /// This tree with `c` reached from the cell at place `from`.
    pub open spec fn with_cell(self, c: Coord, from: int) -> Growth {
        Growth { order: self.order.push(c), parent: self.parent.push(from) }
    }

    /// No cell is listed twice, and each but the first was reached from one listed before it.
    pub open spec fn shaped(self) -> bool {
        &&& self.order.len() == self.parent.len()
        &&& self.order.len() >= 1
        &&& self.order.no_duplicates()
        &&& forall|i: int| 1 <= i < self.order.len() ==> 0 <= #[trigger] self.parent[i] < i
    }

    /// Whether `a` and `b` are the cell at place `i` and the cell it was reached from.
    pub open spec fn joins(self, i: int, a: Coord, b: Coord) -> bool {
        &&& 1 <= i < self.order.len()
        &&& (a == self.order[i] && b == self.order[self.parent[i]]) || (b == self.order[i] && a
            == self.order[self.parent[i]])
    }

    /// Whether one of `a` and `b` was reached from the other.
    pub open spec fn has_edge(self, a: Coord, b: Coord) -> bool {
        exists|i: int| #[trigger] self.joins(i, a, b)
    }
}

impl MazeView {
    /// The links of this maze are exactly those of the tree `g`, which lies on the grid.
    pub open spec fn grown_by(self, g: Growth) -> bool {
        &&& g.shaped()
        &&& forall|i: int| 0 <= i < g.order.len() ==> self.in_bounds(#[trigger] g.order[i])
        &&& forall|i: int|
            1 <= i < g.order.len() ==> adjacent(#[trigger] g.order[i], g.order[g.parent[i]])
        &&& forall|a: Coord, b: Coord|
            #![trigger self.linked(a, b)]
            #![trigger g.has_edge(a, b)]
            self.linked(a, b) <==> g.has_edge(a, b)
        &&& forall|c: Coord| #[trigger] self.has_links(c) ==> g.order.contains(c)
        &&& self.edges().finite()
        &&& self.edges().len() == g.order.len() - 1
    }
}

/// A grid without links is the tree of any one of its cells.
pub proof fn lemma_grown_seed(v: MazeView, start: Coord)
    requires
        v.links == Map::<Coord, Set<Coord>>::empty(),
        v.in_bounds(start),
    ensures
        v.grown_by(Growth::seed(start)),
{
    let g = Growth::seed(start);
    assert(v.edges() =~= Set::<(Coord, Coord)>::empty());
    assert forall|a: Coord, b: Coord| !g.has_edge(a, b) by {
        assert forall|i: int| !g.joins(i, a, b) by {}
    }
}

/// In a tree of two cells or more every listed cell has a link.
pub proof fn lemma_listed_has_links(v: MazeView, g: Growth, i: int)
    requires
        v.grown_by(g),
        g.order.len() >= 2,
        0 <= i < g.order.len(),
    ensures
        v.has_links(g.order[i]),
{
    if i >= 1 {
        assert(g.joins(i, g.order[i], g.order[g.parent[i]]));
        assert(g.has_edge(g.order[i], g.order[g.parent[i]]));
        assert(v.linked(g.order[i], g.order[g.parent[i]]));
    } else {
        assert(g.parent[1] == 0);
        assert(g.joins(1, g.order[0], g.order[1]));
        assert(g.has_edge(g.order[0], g.order[1]));
        assert(v.linked(g.order[0], g.order[1]));
    }
}

/// What linking two cells to one another does to the recorded links.
pub proof fn lemma_link_pair_links(v: MazeView, a: Coord, b: Coord)
    ensures
        forall|x: Coord, y: Coord| #[trigger]
            v.with_link_pair(a, b).linked(x, y) <==> (v.linked(x, y) || (x == a && y == b) || (x
                == b && y == a)),
        forall|c: Coord| #[trigger]
            v.with_link_pair(a, b).has_links(c) <==> (v.has_links(c) || c == a || c == b),
        v.with_link_pair(a, b).height == v.height,
        v.with_link_pair(a, b).width == v.width,
{
}

/// A tree stays one when a cell of the grid without links is linked to a neighbour that the
/// tree has listed at place `i`.
pub proof fn lemma_grow(v: MazeView, g: Growth, i: int, b: Coord)
    requires
        v.grown_by(g),
        0 <= i < g.order.len(),
        v.in_bounds(b),
        adjacent(g.order[i], b),
        !v.has_links(b),
    ensures
        !g.order.contains(b),
        v.with_link_pair(g.order[i], b).grown_by(g.with_cell(b, i)),
{
    let a = g.order[i];
    let n = g.order.len() as int;
    let w = v.with_link_pair(a, b);
    let h = g.with_cell(b, i);
    lemma_link_pair_links(v, a, b);
    assert(!g.order.contains(b)) by {
        if g.order.contains(b) {
            let k = choose|k: int| 0 <= k < g.order.len() && g.order[k] == b;
            if n >= 2 {
                lemma_listed_has_links(v, g, k);
            }
        }
    }
    assert(h.shaped()) by {
        assert forall|j: int, k: int| 0 <= j < k < h.order.len() implies h.order[j]
            != h.order[k] by {
            if k == n {
                assert(g.order.contains(g.order[j]));
            }
        }
        assert forall|k: int| 1 <= k < h.order.len() implies 0 <= #[trigger] h.parent[k] < k by {
            if k < n {
                assert(h.parent[k] == g.parent[k]);
            }
        }
    }
    assert forall|k: int| 0 <= k < h.order.len() implies w.in_bounds(#[trigger] h.order[k]) by {
        if k < n {
            assert(h.order[k] == g.order[k]);
        }
    }
    assert forall|k: int| 1 <= k < h.order.len() implies adjacent(
        #[trigger] h.order[k],
        h.order[h.parent[k]],
    ) by {
        if k < n {
            assert(h.order[k] == g.order[k]);
            assert(h.parent[k] == g.parent[k]);
            assert(h.order[h.parent[k]] == g.order[g.parent[k]]);
        }
    }
    assert forall|x: Coord, y: Coord| w.linked(x, y) <==> h.has_edge(x, y) by {
        lemma_grow_edges(g, i, b, x, y);
    }
    assert forall|c: Coord| #[trigger] w.has_links(c) implies h.order.contains(c) by {
        if v.has_links(c) {
            let k = choose|k: int| 0 <= k < g.order.len() && g.order[k] == c;
            assert(h.order[k] == c);
        } else if c == a {
            assert(h.order[i] == c);
        } else {
            assert(h.order[n] == c);
        }
    }
    assert(w.edges() =~= v.edges().insert(passage(a, b))) by {
        assert forall|e: (Coord, Coord)| w.edges().contains(e) <==> v.edges().insert(
            passage(a, b),
        ).contains(e) by {}
    }
    assert(!v.edges().contains(passage(a, b))) by {
        if v.linked(a, b) {
            let k = choose|k: int| #[trigger] g.joins(k, a, b);
            assert(g.joins(k, b, a));
            assert(g.has_edge(b, a));
            assert(v.linked(b, a));
        }
    }
}

/// The edges of a tree with one more cell are those it had and the one to the new cell.
pub proof fn lemma_grow_edges(g: Growth, i: int, b: Coord, x: Coord, y: Coord)
    requires
        g.order.len() == g.parent.len(),
        g.order.len() >= 1,
        0 <= i < g.order.len(),
        forall|k: int| 1 <= k < g.order.len() ==> 0 <= #[trigger] g.parent[k] < k,
    ensures
        g.with_cell(b, i).has_edge(x, y) <==> (g.has_edge(x, y) || (x == g.order[i] && y == b)
            || (x == b && y == g.order[i])),
{
    let h = g.with_cell(b, i);
    let n = g.order.len() as int;
    assert forall|k: int| 1 <= k < n implies (h.joins(k, x, y) <==> g.joins(k, x, y)) by {
        assert(h.order[k] == g.order[k]);
        assert(h.parent[k] == g.parent[k]);
        assert(h.order[h.parent[k]] == g.order[g.parent[k]]);
    }
    assert(h.joins(n, x, y) <==> ((x == g.order[i] && y == b) || (x == b && y == g.order[i])));
    if h.has_edge(x, y) {
        let k = choose|k: int| #[trigger] h.joins(k, x, y);
        if k < n {
            assert(g.joins(k, x, y));
        }
    }
    if g.has_edge(x, y) {
        let k = choose|k: int| #[trigger] g.joins(k, x, y);
        assert(h.joins(k, x, y));
    }
    if (x == g.order[i] && y == b) || (x == b && y == g.order[i]) {
        assert(h.joins(n, x, y));
    }
}

/// Two cells of one grid that stand at the same place of the listing are the same cell.
pub proof fn lemma_raster_index_injective(width: int, a: Coord, b: Coord)
    requires
        0 <= a.0 < width,
        0 <= b.0 < width,
        raster_index(width, a.0, a.1) == raster_index(width, b.0, b.1),
    ensures
        a == b,
{
    assert(a.1 == b.1) by (nonlinear_arith)
        requires
            0 <= a.0 < width,
            0 <= b.0 < width,
            a.1 * width + a.0 == b.1 * width + b.0,
    ;
}

/// Counting the cells of a grid: a list of cells of the grid without repetition is no longer
/// than the grid has cells, and it is that long if and only if it holds every cell.
pub proof fn lemma_listing_count(v: MazeView, order: Seq<Coord>)
    requires
        0 <= v.height,
        0 <= v.width,
        order.no_duplicates(),
        forall|i: int| 0 <= i < order.len() ==> v.in_bounds(#[trigger] order[i]),
    ensures
        order.len() <= v.size(),
        order.len() == v.size() <==> (forall|c: Coord| v.in_bounds(c) ==> order.contains(c)),
{
    let places = order.map_values(|c: Coord| raster_index(v.width, c.0, c.1));
    let all = set_int_range(0, v.size());
    assert(0 <= v.size()) by (nonlinear_arith)
        requires
            0 <= v.height,
            0 <= v.width,
            v.size() == v.height * v.width,
    ;
    lemma_int_range(0, v.size());
    assert forall|i: int, j: int| 0 <= i < j < places.len() implies places[i] != places[j] by {
        if places[i] == places[j] {
            assert(v.in_bounds(order[i]) && v.in_bounds(order[j]));
            lemma_raster_index_injective(v.width, order[i], order[j]);
        }
    }
    places.unique_seq_to_set();
    assert forall|k: int| places.to_set().contains(k) implies all.contains(k) by {
        let i = choose|i: int| 0 <= i < places.len() && places[i] == k;
        assert(v.in_bounds(order[i]));
        lemma_raster_index_bounds(v.height, v.width, order[i].0, order[i].1);
    }
    lemma_len_subset(places.to_set(), all);
    if order.len() == v.size() {
        lemma_subset_equality(places.to_set(), all);
        assert forall|c: Coord| v.in_bounds(c) implies order.contains(c) by {
            lemma_raster_index_bounds(v.height, v.width, c.0, c.1);
            let k = raster_index(v.width, c.0, c.1);
            assert(all.contains(k));
            assert(places.to_set().contains(k));
            let i = choose|i: int| 0 <= i < places.len() && places[i] == k;
            assert(v.in_bounds(order[i]));
            lemma_raster_index_injective(v.width, order[i], c);
        }
    }
    if forall|c: Coord| v.in_bounds(c) ==> order.contains(c) {
        assert forall|k: int| all.contains(k) implies places.to_set().contains(k) by {
            lemma_fundamental_div_mod(k, v.width);
            lemma_mod_bound(k, v.width);
            let c = (k % v.width, k / v.width);
            assert(0 <= c.1 < v.height) by (nonlinear_arith)
                requires
                    0 <= k < v.height * v.width,
                    0 < v.width,
                    k == v.width * c.1 + c.0,
                    0 <= c.0 < v.width,
            ;
            assert(raster_index(v.width, c.0, c.1) == k) by (nonlinear_arith)
                requires
                    k == v.width * c.1 + c.0,
                    raster_index(v.width, c.0, c.1) == c.1 * v.width + c.0,
            ;
            assert(v.in_bounds(c));
            assert(order.contains(c));
            let i = choose|i: int| 0 <= i < order.len() && order[i] == c;
            assert(places[i] == k);
        }
        lemma_len_subset(all, places.to_set());
    }
}

/// A walk stays one when a cell linked from its last cell is put behind it.
pub proof fn lemma_walk_push(v: MazeView, p: Seq<Coord>, c: Coord)
    requires
        v.is_walk(p),
        v.linked(p.last(), c),
    ensures
        v.is_walk(p.push(c)),
        p.push(c).first() == p.first(),
        p.push(c).last() == c,
{
    let q = p.push(c);
    assert forall|i: int| 0 <= i < q.len() - 1 implies v.linked(#[trigger] q[i], q[i + 1]) by {
        if i < p.len() - 1 {
            assert(v.linked(p[i], p[i + 1]));
        }
    }
}

/// Where links run both ways, a walk read backwards is a walk.
pub proof fn lemma_walk_reverse(v: MazeView, p: Seq<Coord>)
    requires
        v.symmetric(),
        v.is_walk(p),
    ensures
        v.is_walk(p.reverse()),
        p.reverse().first() == p.last(),
        p.reverse().last() == p.first(),
{
    let q = p.reverse();
    assert forall|i: int| 0 <= i < q.len() - 1 implies v.linked(#[trigger] q[i], q[i + 1]) by {
        let j = p.len() - 2 - i;
        assert(v.linked(p[j], p[j + 1]));
    }
}

/// Two walks of which the second starts where the first ends make one walk.
pub proof fn lemma_walk_append(v: MazeView, p: Seq<Coord>, q: Seq<Coord>)
    requires
        v.is_walk(p),
        v.is_walk(q),
        p.last() == q.first(),
    ensures
        v.is_walk(p + q.drop_first()),
        (p + q.drop_first()).first() == p.first(),
        (p + q.drop_first()).last() == q.last(),
{
    let r = p + q.drop_first();
    assert forall|i: int| 0 <= i < r.len() - 1 implies v.linked(#[trigger] r[i], r[i + 1]) by {
        if i < p.len() - 1 {
            assert(v.linked(p[i], p[i + 1]));
        } else {
            let j = i - p.len() + 1;
            assert(v.linked(q[j], q[j + 1]));
        }
    }
}

/// The links of a tree run both ways, between neighbouring cells of the grid.
pub proof fn lemma_grown_symmetric(v: MazeView, g: Growth)
    requires
        v.grown_by(g),
    ensures
        v.symmetric(),
        v.on_grid(),
{
    assert forall|a: Coord, b: Coord| v.linked(a, b) implies v.linked(b, a) && v.in_bounds(a)
        && v.in_bounds(b) && adjacent(a, b) by {
        assert(g.has_edge(a, b));
        let k = choose|k: int| #[trigger] g.joins(k, a, b);
        assert(g.joins(k, b, a));
        assert(g.has_edge(b, a));
        assert(v.in_bounds(g.order[k]));
        assert(v.in_bounds(g.order[g.parent[k]]));
        assert(adjacent(g.order[k], g.order[g.parent[k]]));
    }
}

/// A walk leads from the first cell of a tree to each of its cells.
pub proof fn lemma_grown_reaches(v: MazeView, g: Growth, i: int)
    requires
        v.grown_by(g),
        0 <= i < g.order.len(),
    ensures
        v.joined(g.order[0], g.order[i]),
    decreases i,
{
    if i == 0 {
        let p = seq![g.order[0]];
        assert(v.is_walk(p) && p.first() == g.order[0] && p.last() == g.order[0]);
    } else {
        let j = g.parent[i];
        lemma_grown_reaches(v, g, j);
        let p = choose|p: Seq<Coord>| #[trigger]
            v.is_walk(p) && p.first() == g.order[0] && p.last() == g.order[j];
        assert(g.joins(i, g.order[j], g.order[i]));
        assert(g.has_edge(g.order[j], g.order[i]));
        lemma_walk_push(v, p, g.order[i]);
        assert(v.is_walk(p.push(g.order[i])));
    }
}

/// A tree that lists every cell of the grid joins every cell to every other.
pub proof fn lemma_grown_connected(v: MazeView, g: Growth)
    requires
        v.grown_by(g),
        forall|c: Coord| v.in_bounds(c) ==> g.order.contains(c),
    ensures
        v.connected(),
{
    lemma_grown_symmetric(v, g);
    assert forall|a: Coord, b: Coord| v.in_bounds(a) && v.in_bounds(b) implies #[trigger]
        v.joined(a, b) by {
        assert(g.order.contains(a));
        assert(g.order.contains(b));
        let i = choose|i: int| 0 <= i < g.order.len() && g.order[i] == a;
        let j = choose|j: int| 0 <= j < g.order.len() && g.order[j] == b;
        lemma_grown_reaches(v, g, i);
        lemma_grown_reaches(v, g, j);
        let p = choose|p: Seq<Coord>| #[trigger]
            v.is_walk(p) && p.first() == g.order[0] && p.last() == a;
        let q = choose|q: Seq<Coord>| #[trigger]
            v.is_walk(q) && q.first() == g.order[0] && q.last() == b;
        lemma_walk_reverse(v, p);
        lemma_walk_append(v, p.reverse(), q);
        assert(v.is_walk(p.reverse() + q.drop_first()));
    }
}

/// The place of a listed cell in the list.
pub open spec fn place(g: Growth, c: Coord) -> int {
    choose|i: int| 0 <= i < g.order.len() && g.order[i] == c
}

/// Among the first `n` values of `f`, `n` at least one, some value is exceeded by no other.
pub proof fn lemma_argmax(f: spec_fn(int) -> int, n: int) -> (m: int)
    requires
        n >= 1,
    ensures
        0 <= m < n,
        forall|k: int| 0 <= k < n ==> #[trigger] f(k) <= f(m),
    decreases n,
{
    if n == 1 {
        0
    } else {
        let m = lemma_argmax(f, n - 1);
        if f(n - 1) > f(m) {
            n - 1
        } else {
            m
        }
    }
}

/// In a tree, a cell is linked to one cell only that was listed before it: the one it was
/// reached from.
pub proof fn lemma_grown_one_parent(v: MazeView, g: Growth, i: int, j: int)
    requires
        v.grown_by(g),
        0 <= j < i < g.order.len(),
        v.linked(g.order[i], g.order[j]),
    ensures
        j == g.parent[i],
{
    assert(g.has_edge(g.order[i], g.order[j]));
    let k = choose|k: int| #[trigger] g.joins(k, g.order[i], g.order[j]);
    if g.order[i] == g.order[k] && g.order[j] == g.order[g.parent[k]] {
        assert(k == i);
    } else {
        assert(k == j);
        assert(g.parent[k] == i);
    }
}

/// A tree closes no cycle.
pub proof fn lemma_grown_acyclic(v: MazeView, g: Growth)
    requires
        v.grown_by(g),
    ensures
        v.acyclic(),
{
    lemma_grown_symmetric(v, g);
    assert forall|p: Seq<Coord>| !#[trigger] v.is_cycle(p) by {
        if v.is_cycle(p) {
            let n = p.len() as int;
            assert forall|k: int| 0 <= k < n implies g.order.contains(#[trigger] p[k]) by {
                if k < n - 1 {
                    assert(v.linked(p[k], p[k + 1]));
                } else {
                    assert(v.linked(p.last(), p.first()));
                }
                assert(v.has_links(p[k]));
            }
            let f = |k: int| place(g, p[k]);
            let m = lemma_argmax(f, n);
            let before = if m == 0 {
                n - 1
            } else {
                m - 1
            };
            let after = if m == n - 1 {
                0
            } else {
                m + 1
            };
            assert(v.linked(p[before], p[m])) by {
                if m == 0 {
                    assert(v.linked(p.last(), p.first()));
                } else {
                    assert(v.linked(p[m - 1], p[m - 1 + 1]));
                }
            }
            assert(v.linked(p[m], p[after])) by {
                if m == n - 1 {
                    assert(v.linked(p.last(), p.first()));
                } else {
                    assert(v.linked(p[m], p[m + 1]));
                }
            }
            assert(g.order.contains(p[m]));
            assert(g.order.contains(p[before]));
            assert(g.order.contains(p[after]));
            let i = place(g, p[m]);
            let j1 = place(g, p[before]);
            let j2 = place(g, p[after]);
            assert(f(before) <= f(m));
            assert(f(after) <= f(m));
            assert(p[before] != p[m] && p[after] != p[m] && p[before] != p[after]);
            lemma_grown_one_parent(v, g, i, j1);
            lemma_grown_one_parent(v, g, i, j2);
            assert(false);
        }
    }
}

/// A tree that has as many cells as the grid is a spanning tree of the grid.
pub proof fn lemma_grown_spans(v: MazeView, g: Growth)
    requires
        v.grown_by(g),
        0 <= v.height,
        0 <= v.width,
        g.order.len() == v.size(),
    ensures
        v.spanning_tree(),
{
    lemma_grown_symmetric(v, g);
    lemma_listing_count(v, g.order);
    lemma_grown_connected(v, g);
    lemma_grown_acyclic(v, g);
}

} // verus!
