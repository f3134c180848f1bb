use vstd::prelude::*;
use vstd::set_lib::*;
use crate::grid_graph::{adjacent, Direction, GraphVertex, GridGraph, VisitedGraphVertex};
use crate::cost_function::{abs_diff, lemma_score_monotone, score, CostFunction, PathfindingOptions};

verus! {

/// The outcome of a search: the path from start to goal, and every entry in the
/// order it was taken off the frontier.
#[derive(Debug)]
pub struct PathResult {
    pub path: Vec<VisitedGraphVertex>,
    pub visited_vertices: Vec<VisitedGraphVertex>,
}

/// What a search is asked: where it starts and ends, and how steps are scored.
#[derive(Copy, Clone)]
pub struct Query {
    pub start: GraphVertex,
    pub goal: GraphVertex,
    pub cost_function: CostFunction,
    pub options: PathfindingOptions,
}

/// Position of cell `(x, y)` in the column-major bookkeeping vectors.
pub open spec fn idx(x: int, y: int, h: int) -> int {
    x * h + y
}

pub open spec fn at(v: VisitedGraphVertex, c: GraphVertex) -> bool {
    v.x == c.x && v.y == c.y
}

/// `b` is reached from `a` in one step, and carries the score of that step.
pub open spec fn is_step(
    g: &GridGraph,
    q: Query,
    a: VisitedGraphVertex,
    b: VisitedGraphVertex,
) -> bool {
    &&& adjacent(a.x as int, a.y as int, b.x as int, b.y as int)
    &&& b.cost == score(
        q.cost_function,
        q.goal,
        a.cost as int,
        b.x as int,
        b.y as int,
        g.cost_at(b.x as int, b.y as int) as int,
        q.options,
    )
}

/// A path from the start (with cost zero) to the goal through cells of the grid,
/// each entry one scored step from the one before.
pub open spec fn is_path(g: &GridGraph, q: Query, p: Seq<VisitedGraphVertex>) -> bool {
    &&& p.len() >= 1
    &&& at(p[0], q.start) && p[0].cost == 0
    &&& at(p.last(), q.goal)
    &&& forall|i: int| 0 <= i < p.len() ==> g.in_bounds(#[trigger] p[i].x as int, p[i].y as int)
    &&& forall|i: int| 0 <= i < p.len() - 1 ==> #[trigger] is_step(g, q, p[i], p[i + 1])
}

/// Manhattan distance of cell `(x, y)` from the start.
pub open spec fn distance(q: Query, x: int, y: int) -> int {
    abs_diff(x, q.start.x as int) + abs_diff(y, q.start.y as int)
}

/// The cost of the start cell, which a uniform grid shares with every cell.
pub open spec fn unit(g: &GridGraph, q: Query) -> int {
    g.cost_at(q.start.x as int, q.start.y as int) as int
}

/// A uniform-cost search, unweighted, over a grid whose cells all cost the same
/// positive amount.
pub open spec fn uniform_search(g: &GridGraph, q: Query) -> bool {
    &&& q.cost_function == CostFunction::ZeroCost
    &&& q.options.cost_weight == 1
    &&& unit(g, q) > 0
    &&& forall|x: int, y: int| g.in_bounds(x, y) ==> #[trigger] g.cost_at(x, y) == unit(g, q)
}

proof fn lemma_idx(g: &GridGraph, x1: int, y1: int, x2: int, y2: int)
    requires
        g.in_bounds(x1, y1),
        g.in_bounds(x2, y2),
    ensures
        0 <= idx(x1, y1, g.height as int) < g.width * g.height,
        idx(x1, y1, g.height as int) == idx(x2, y2, g.height as int) <==> (x1 == x2 && y1 == y2),
{
    let h = g.height as int;
    let w = g.width as int;
    assert(0 <= x1 * h + y1 < w * h) by (nonlinear_arith)
        requires
            0 <= x1 < w,
            0 <= y1 < h,
    ;
    if x1 < x2 {
        assert(x1 * h + y1 < x2 * h + y2) by (nonlinear_arith)
            requires
                x1 + 1 <= x2,
                0 <= y1 < h,
                0 <= y2,
        ;
    } else if x2 < x1 {
        assert(x2 * h + y2 < x1 * h + y1) by (nonlinear_arith)
            requires
                x2 + 1 <= x1,
                0 <= y2 < h,
                0 <= y1,
        ;
    }
}

/// Every in-bounds 4-neighbour of `(x, y)` is closed.
pub open spec fn neighbours_closed(g: &GridGraph, closed: Seq<bool>, x: int, y: int) -> bool {
    let h = g.height as int;
    &&& g.in_bounds(x, y - 1) ==> closed[idx(x, y - 1, h)]
    &&& g.in_bounds(x, y + 1) ==> closed[idx(x, y + 1, h)]
    &&& g.in_bounds(x - 1, y) ==> closed[idx(x - 1, y, h)]
    &&& g.in_bounds(x + 1, y) ==> closed[idx(x + 1, y, h)]
}

/// A set of cells that holds every neighbour of each of its members holds every
/// cell of the same row as a member.
proof fn lemma_walk_row(g: &GridGraph, closed: Seq<bool>, x: int, y: int, tx: int)
    requires
        closed.len() == g.width * g.height,
        g.in_bounds(x, y),
        g.in_bounds(tx, y),
        closed[idx(x, y, g.height as int)],
        forall|a: int, b: int|
            g.in_bounds(a, b) && #[trigger] closed[idx(a, b, g.height as int)]
                ==> neighbours_closed(g, closed, a, b),
    ensures
        closed[idx(tx, y, g.height as int)],
    decreases
            (if x < tx {
                tx - x
            } else {
                x - tx
            }),
{
    if x < tx {
        assert(neighbours_closed(g, closed, x, y));
        lemma_walk_row(g, closed, x + 1, y, tx);
    } else if tx < x {
        assert(neighbours_closed(g, closed, x, y));
        lemma_walk_row(g, closed, x - 1, y, tx);
    }
}

proof fn lemma_walk_column(g: &GridGraph, closed: Seq<bool>, x: int, y: int, ty: int)
    requires
        closed.len() == g.width * g.height,
        g.in_bounds(x, y),
        g.in_bounds(x, ty),
        closed[idx(x, y, g.height as int)],
        forall|a: int, b: int|
            g.in_bounds(a, b) && #[trigger] closed[idx(a, b, g.height as int)]
                ==> neighbours_closed(g, closed, a, b),
    ensures
        closed[idx(x, ty, g.height as int)],
    decreases
            (if y < ty {
                ty - y
            } else {
                y - ty
            }),
{
    if y < ty {
        assert(neighbours_closed(g, closed, x, y));
        lemma_walk_column(g, closed, x, y + 1, ty);
    } else if ty < y {
        assert(neighbours_closed(g, closed, x, y));
        lemma_walk_column(g, closed, x, y - 1, ty);
    }
}

/// The grid is 4-connected: a set of cells closed under taking neighbours that
/// holds one cell holds them all.
proof fn lemma_connected(g: &GridGraph, closed: Seq<bool>, sx: int, sy: int, tx: int, ty: int)
    requires
        closed.len() == g.width * g.height,
        g.in_bounds(sx, sy),
        g.in_bounds(tx, ty),
        closed[idx(sx, sy, g.height as int)],
        forall|a: int, b: int|
            g.in_bounds(a, b) && #[trigger] closed[idx(a, b, g.height as int)]
                ==> neighbours_closed(g, closed, a, b),
    ensures
        closed[idx(tx, ty, g.height as int)],
{
    lemma_walk_row(g, closed, sx, sy, tx);
    lemma_walk_column(g, closed, tx, sy, ty);
}

/// The frontier, closed set and parent table of a search in progress, with the
/// ghost bookkeeping that its proof follows.
struct Search {
    closed: Vec<bool>,
    parent: Vec<Option<VisitedGraphVertex>>,
    frontier: Vec<VisitedGraphVertex>,
    visited_vertices: Vec<VisitedGraphVertex>,
    /// Discovery rank of each closed cell.
    order: Ghost<Seq<int>>,
    next_order: Ghost<int>,
    /// Score each closed cell was pushed with.
    found_cost: Ghost<Seq<int>>,
    /// Cells taken off the frontier whose neighbours have all been discovered.
    expanded: Ghost<Seq<bool>>,
    closed_cells: Ghost<Set<int>>,
}

pub open spec fn start_entry(q: Query) -> VisitedGraphVertex {
    VisitedGraphVertex { x: q.start.x, y: q.start.y, cost: 0 }
}

pub open spec fn in_frontier(f: Seq<VisitedGraphVertex>, x: int, y: int) -> bool {
    exists|j: int| 0 <= j < f.len() && f[j].x == x && f[j].y == y
}

pub open spec fn is_hole(hole: Option<GraphVertex>, x: int, y: int) -> bool {
    hole matches Some(c) && c.x == x && c.y == y
}

impl Search {
    spec fn cell(&self, g: &GridGraph, x: int, y: int) -> int {
        idx(x, y, g.height as int)
    }

    spec fn frontier_ok(&self, g: &GridGraph, hole: Option<GraphVertex>, j: int) -> bool {
        let f = self.frontier@[j];
        let i = self.cell(g, f.x as int, f.y as int);
        &&& g.in_bounds(f.x as int, f.y as int)
        &&& self.closed@[i]
        &&& f.cost == self.found_cost@[i]
        &&& !self.expanded@[i]
        &&& !is_hole(hole, f.x as int, f.y as int)
    }

    spec fn cell_ok(&self, g: &GridGraph, q: Query, hole: Option<GraphVertex>, x: int, y: int) -> bool {
        let i = self.cell(g, x, y);
        &&& (self.parent@[i] is Some <==> (self.closed@[i] && !(x == q.start.x && y == q.start.y)))
        &&& (self.parent@[i] matches Some(p) ==> {
            let pi = self.cell(g, p.x as int, p.y as int);
            &&& g.in_bounds(p.x as int, p.y as int)
            &&& self.closed@[pi]
            &&& p.cost == self.found_cost@[pi]
            &&& self.order@[pi] < self.order@[i]
            &&& is_step(g, q, p, VisitedGraphVertex { x: x as u32, y: y as u32, cost: self.found_cost@[i] as u64 })
            &&& 0 <= self.found_cost@[i] <= u64::MAX
        })
        &&& (self.closed@[i] ==> 0 <= self.order@[i] < self.next_order@)
        &&& (uniform_search(g, q) && self.closed@[i] ==> self.found_cost@[i] == unit(g, q) * distance(q, x, y))
        &&& (self.closed@[i] ==> self.expanded@[i] || is_hole(hole, x, y) || in_frontier(self.frontier@, x, y))
        &&& (self.expanded@[i] ==> self.closed@[i] && !(x == q.goal.x && y == q.goal.y)
            && neighbours_closed(g, self.closed@, x, y) && !is_hole(hole, x, y))
    }

    spec fn inv(&self, g: &GridGraph, q: Query, hole: Option<GraphVertex>) -> bool {
        let n = g.width * g.height;
        let s = self.cell(g, q.start.x as int, q.start.y as int);
        &&& g.wf()
        &&& g.in_bounds(q.start.x as int, q.start.y as int)
        &&& g.in_bounds(q.goal.x as int, q.goal.y as int)
        &&& n <= usize::MAX
        &&& self.closed@.len() == n
        &&& self.parent@.len() == n
        &&& self.order@.len() == n
        &&& self.found_cost@.len() == n
        &&& self.expanded@.len() == n
        &&& self.closed_cells@ == Set::new(|i: int| 0 <= i < n && self.closed@[i])
        &&& self.closed_cells@.subset_of(set_int_range(0, n))
        &&& self.closed@[s]
        &&& self.found_cost@[s] == 0
        &&& forall|j: int| 0 <= j < self.frontier@.len() ==> #[trigger] self.frontier_ok(g, hole, j)
        &&& forall|j: int, k: int|
            #![trigger self.frontier@[j], self.frontier@[k]]
            0 <= j < k < self.frontier@.len() ==>
            !(self.frontier@[j].x == self.frontier@[k].x && self.frontier@[j].y == self.frontier@[k].y)
        &&& forall|x: int, y: int| g.in_bounds(x, y) ==> #[trigger] self.cell_ok(g, q, hole, x, y)
        &&& self.visited_vertices@.len() == 0 ==> self.frontier@ == seq![start_entry(q)]
        &&& self.visited_vertices@.len() > 0 ==> self.visited_vertices@[0] == start_entry(q)
        &&& forall|j: int| 0 <= j < self.visited_vertices@.len() ==> g.in_bounds(
            #[trigger] self.visited_vertices@[j].x as int, self.visited_vertices@[j].y as int)
    }
}

fn index_of(g: &GridGraph, x: u32, y: u32) -> (r: usize)
    requires
        g.in_bounds(x as int, y as int),
        g.width * g.height <= usize::MAX,
    ensures
        r == idx(x as int, y as int, g.height as int),
        r < g.width * g.height,
{
    proof {
        lemma_idx(g, x as int, y as int, x as int, y as int);
    }
    x as usize * g.height as usize + y as usize
}

impl Search {
    /// Discovers the cell one step from `cur` in `direction`, unless it is off the
    /// grid or already closed.
    #[verifier::rlimit(60)]
    #[verifier::spinoff_prover]
    fn try_neighbour(&mut self, g: &GridGraph, q: &Query, cur: &VisitedGraphVertex, direction: Direction)
        requires
            old(self).inv(g, *q, Some(GraphVertex { x: cur.x, y: cur.y })),
            g.in_bounds(cur.x as int, cur.y as int),
            old(self).closed@[idx(cur.x as int, cur.y as int, g.height as int)],
            cur.cost == old(self).found_cost@[idx(cur.x as int, cur.y as int, g.height as int)],
            old(self).visited_vertices@.len() > 0,
            (direction.dx() == 0 && (direction.dy() == 1 || direction.dy() == -1))
                || (direction.dy() == 0 && (direction.dx() == 1 || direction.dx() == -1)),
            uniform_search(g, *q) ==> forall|x: int, y: int|
                g.in_bounds(x, y) && !old(self).closed@[idx(x, y, g.height as int)]
                    ==> distance(*q, x, y) >= distance(*q, cur.x as int, cur.y as int) + 1,
        ensures
            uniform_search(g, *q) ==> forall|x: int, y: int|
                g.in_bounds(x, y) && !final(self).closed@[idx(x, y, g.height as int)]
                    ==> distance(*q, x, y) >= distance(*q, cur.x as int, cur.y as int) + 1,
            final(self).inv(g, *q, Some(GraphVertex { x: cur.x, y: cur.y })),
            g.in_bounds(cur.x + direction.dx(), cur.y + direction.dy()) ==> final(self).closed@[idx(
                cur.x + direction.dx(),
                cur.y + direction.dy(),
                g.height as int,
            )],
            forall|i: int| 0 <= i < old(self).closed@.len() && old(self).closed@[i] ==> #[trigger] final(self).closed@[i],
            final(self).closed@[idx(cur.x as int, cur.y as int, g.height as int)],
            cur.cost == final(self).found_cost@[idx(cur.x as int, cur.y as int, g.height as int)],
            final(self).expanded@ == old(self).expanded@,
            final(self).visited_vertices@ == old(self).visited_vertices@,
            final(self).frontier@.len() - final(self).closed_cells@.len() == old(self).frontier@.len()
                - old(self).closed_cells@.len(),
    {
        let ghost hole = Some(GraphVertex { x: cur.x, y: cur.y });
        let ghost n = g.width * g.height;
        proof {
            lemma_int_range(0, n);
            lemma_len_subset(self.closed_cells@, set_int_range(0, n));
        }
        if let Some(nb) = g.get_neighbouring_vertex(cur, direction) {
            let i = index_of(g, nb.x, nb.y);
            if !self.closed[i] {
                let ghost old_self = *self;
                let step = g.get_cost(&nb);
                let c = q.cost_function.evaluate(&q.start, &q.goal, cur, &nb, step, &q.options);
                let entry = nb.into_visited(c);
                proof {
                    assert(self.cell_ok(g, *q, hole, nb.x as int, nb.y as int));
                }
                let replace = match self.parent[i] {
                    None => true,
                    Some(p) => p.cost > cur.cost,
                };
                if replace {
                    self.parent[i] = Some(*cur);
                }
                self.frontier.push(entry);
                self.closed[i] = true;
                proof {
                    self.order@ = self.order@.update(i as int, self.next_order@);
                    self.next_order@ = self.next_order@ + 1;
                    self.found_cost@ = self.found_cost@.update(i as int, c as int);
                    self.closed_cells@ = self.closed_cells@.insert(i as int);
                    assert(self.closed_cells@ =~= Set::new(|k: int| 0 <= k < n && self.closed@[k]));
                    assert(!old_self.closed_cells@.contains(i as int));
                    lemma_idx(g, nb.x as int, nb.y as int, cur.x as int, cur.y as int);
                    lemma_idx(g, cur.x as int, cur.y as int, nb.x as int, nb.y as int);
                    assert(self.parent@[i as int] == Some(*cur));
                    assert(old_self.cell_ok(g, *q, hole, cur.x as int, cur.y as int));
                    assert(old_self.cell_ok(g, *q, hole, q.start.x as int, q.start.y as int));
                    assert(adjacent(cur.x as int, cur.y as int, nb.x as int, nb.y as int));
                    assert(is_step(g, *q, *cur, entry));
                    assert forall|j: int| 0 <= j < self.frontier@.len() implies #[trigger] self.frontier_ok(g, hole, j) by {
                        if j < old_self.frontier@.len() {
                            assert(old_self.frontier_ok(g, hole, j));
                            let f = self.frontier@[j];
                            lemma_idx(g, f.x as int, f.y as int, nb.x as int, nb.y as int);
                        }
                    }
                    assert forall|j: int, k: int|
                        #![trigger self.frontier@[j], self.frontier@[k]]
                        0 <= j < k < self.frontier@.len() implies
                        !(self.frontier@[j].x == self.frontier@[k].x && self.frontier@[j].y == self.frontier@[k].y) by {
                        if k == old_self.frontier@.len() {
                            assert(old_self.frontier_ok(g, hole, j));
                        } else {
                            assert(old_self.frontier@[j] == self.frontier@[j]);
                            assert(old_self.frontier@[k] == self.frontier@[k]);
                        }
                    }
                    assert forall|x: int, y: int| g.in_bounds(x, y) implies #[trigger] self.cell_ok(g, *q, hole, x, y) by {
                        assert(old_self.cell_ok(g, *q, hole, x, y));
                        lemma_idx(g, x, y, nb.x as int, nb.y as int);
                        let xi = idx(x, y, g.height as int);
                        if xi == i as int {
                            assert(x == nb.x && y == nb.y);
                            assert(VisitedGraphVertex { x: x as u32, y: y as u32, cost: self.found_cost@[xi] as u64 } == entry);
                            assert(in_frontier(self.frontier@, x, y)) by {
                                assert(self.frontier@[self.frontier@.len() - 1] == entry);
                            }
                        } else {
                            if old_self.parent@[xi] is Some {
                                let p = old_self.parent@[xi]->0;
                                lemma_idx(g, p.x as int, p.y as int, nb.x as int, nb.y as int);
                            }
                            if old_self.expanded@[xi] {
                                if g.in_bounds(x, y - 1) {
                                    lemma_idx(g, x, y - 1, nb.x as int, nb.y as int);
                                }
                                if g.in_bounds(x, y + 1) {
                                    lemma_idx(g, x, y + 1, nb.x as int, nb.y as int);
                                }
                                if g.in_bounds(x - 1, y) {
                                    lemma_idx(g, x - 1, y, nb.x as int, nb.y as int);
                                }
                                if g.in_bounds(x + 1, y) {
                                    lemma_idx(g, x + 1, y, nb.x as int, nb.y as int);
                                }
                            }
                            if in_frontier(old_self.frontier@, x, y) {
                                let j = choose|j: int| 0 <= j < old_self.frontier@.len() && old_self.frontier@[j].x == x && old_self.frontier@[j].y == y;
                                assert(self.frontier@[j] == old_self.frontier@[j]);
                            }
                        }
                        if xi == i as int {
                            let ci = idx(cur.x as int, cur.y as int, g.height as int);
                            assert(self.order@[ci] < self.order@[xi]);
                            if uniform_search(g, *q) {
                                let u = unit(g, *q);
                                let dc = distance(*q, cur.x as int, cur.y as int);
                                assert(g.cost_at(x, y) == u);
                                assert(cur.cost == u * dc);
                                assert(distance(*q, x, y) == dc + 1);
                                assert(u * dc + u == u * (dc + 1)) by (nonlinear_arith);
                                assert(u * dc <= 255 * 0x2_0000_0000) by (nonlinear_arith)
                                    requires
                                        0 <= u <= 255,
                                        0 <= dc <= 0x2_0000_0000,
                                ;
                            }
                        } else if self.parent@[xi] is Some {
                            let p = self.parent@[xi]->0;
                            let pi = idx(p.x as int, p.y as int, g.height as int);
                            assert(old_self.closed@[pi]);
                            assert(self.order@[pi] < self.order@[xi]);
                        }
                    }
                    assert forall|k: int| 0 <= k < old_self.closed@.len() && old_self.closed@[k] implies #[trigger] self.closed@[k] by {}
                    let s = idx(q.start.x as int, q.start.y as int, g.height as int);
                    lemma_idx(g, q.start.x as int, q.start.y as int, nb.x as int, nb.y as int);
                    assert(self.closed@[s]);
                    assert(self.found_cost@[s] == 0);
                    assert(self.closed_cells@.subset_of(set_int_range(0, n)));
                    assert(self.visited_vertices@.len() > 0);
                    assert forall|x: int, y: int|
                        uniform_search(g, *q) && g.in_bounds(x, y) && !self.closed@[idx(x, y, g.height as int)]
                        implies distance(*q, x, y) >= distance(*q, cur.x as int, cur.y as int) + 1 by {
                        lemma_idx(g, x, y, nb.x as int, nb.y as int);
                        assert(!old_self.closed@[idx(x, y, g.height as int)]);
                    }
                }
            }
        }
    }
}

impl Search {
    /// In an undisturbed search every undiscovered cell lies at least one step
    /// further from the start than some frontier entry.
    proof fn lemma_frontier_near(&self, g: &GridGraph, q: Query, x: int, y: int)
        requires
            self.inv(g, q, None),
            g.in_bounds(x, y),
            !self.closed@[idx(x, y, g.height as int)],
        ensures
            exists|j: int|
                0 <= j < self.frontier@.len() && distance(q, #[trigger] self.frontier@[j].x as int,
                    self.frontier@[j].y as int) + 1 <= distance(q, x, y),
        decreases distance(q, x, y),
    {
        let (sx, sy) = (q.start.x as int, q.start.y as int);
        let (vx, vy) = if x > sx {
            (x - 1, y)
        } else if x < sx {
            (x + 1, y)
        } else if y > sy {
            (x, y - 1)
        } else {
            (x, y + 1)
        };
        assert(!(x == sx && y == sy));
        assert(g.in_bounds(vx, vy));
        assert(distance(q, vx, vy) + 1 == distance(q, x, y));
        lemma_idx(g, vx, vy, x, y);
        if self.closed@[idx(vx, vy, g.height as int)] {
            assert(self.cell_ok(g, q, None, vx, vy));
            let j = choose|j: int| 0 <= j < self.frontier@.len() && self.frontier@[j].x == vx && self.frontier@[j].y == vy;
            assert(distance(q, self.frontier@[j].x as int, self.frontier@[j].y as int) + 1 <= distance(q, x, y));
        } else {
            self.lemma_frontier_near(g, q, vx, vy);
        }
    }
}

proof fn lemma_uniform_path_prefix(g: &GridGraph, q: Query, p: Seq<VisitedGraphVertex>, k: int)
    requires
        is_path(g, q, p),
        uniform_search(g, q),
        0 <= k < p.len(),
    ensures
        p[k].cost == crate::cost_function::sat(unit(g, q) * k),
    decreases k,
{
    let u = unit(g, q);
    if k > 0 {
        lemma_uniform_path_prefix(g, q, p, k - 1);
        assert(is_step(g, q, p[k - 1], p[(k - 1) + 1]));
        assert(g.in_bounds(p[k].x as int, p[k].y as int));
        assert(g.cost_at(p[k].x as int, p[k].y as int) == u);
        assert(u * (k - 1) + u == u * k) by (nonlinear_arith);
        assert(u * (k - 1) <= u * k) by (nonlinear_arith)
            requires
                u > 0,
                k > 0,
        ;
    } else {
        assert(u * 0 == 0);
    }
}

/// On a uniform grid each step of a path adds the same cost, so a path whose
/// goal entry carries the cost of the Manhattan distance has that many steps.
proof fn lemma_uniform_path_length(g: &GridGraph, q: Query, p: Seq<VisitedGraphVertex>)
    requires
        is_path(g, q, p),
        uniform_search(g, q),
        p.last().cost == unit(g, q) * distance(q, q.goal.x as int, q.goal.y as int),
    ensures
        p.len() == distance(q, q.goal.x as int, q.goal.y as int) + 1,
{
    let u = unit(g, q);
    let d = distance(q, q.goal.x as int, q.goal.y as int);
    let k = p.len() - 1;
    lemma_uniform_path_prefix(g, q, p, k);
    assert(u * d <= 255 * 0x2_0000_0000) by (nonlinear_arith)
        requires
            0 <= u <= 255,
            0 <= d <= 0x2_0000_0000,
    ;
    assert(k == d) by (nonlinear_arith)
        requires
            u * k == u * d,
            u > 0,
    ;
}

/// Position of an entry of least cost.
fn lowest_index(frontier: &Vec<VisitedGraphVertex>) -> (r: usize)
    requires
        frontier@.len() > 0,
    ensures
        r < frontier@.len(),
        forall|j: int| 0 <= j < frontier@.len() ==> frontier@[r as int].cost <= #[trigger] frontier@[j].cost,
{
    let mut best: usize = 0;
    let mut k: usize = 1;
    while k < frontier.len()
        invariant
            0 <= best < k <= frontier@.len(),
            forall|j: int| 0 <= j < k ==> frontier@[best as int].cost <= #[trigger] frontier@[j].cost,
        decreases frontier@.len() - k,
    {
        if frontier[k].has_priority_over(&frontier[best]) {
            best = k;
        }
        k = k + 1;
    }
    best
}

impl Search {
    /// Takes an entry of least cost off the frontier and records it as visited.
    #[verifier::rlimit(60)]
    #[verifier::spinoff_prover]
    fn take_lowest(&mut self, g: &GridGraph, q: &Query) -> (cur: VisitedGraphVertex)
        requires
            old(self).inv(g, *q, None),
            old(self).frontier@.len() > 0,
        ensures
            final(self).inv(g, *q, Some(GraphVertex { x: cur.x, y: cur.y })),
            g.in_bounds(cur.x as int, cur.y as int),
            final(self).closed@[idx(cur.x as int, cur.y as int, g.height as int)],
            cur.cost == final(self).found_cost@[idx(cur.x as int, cur.y as int, g.height as int)],
            forall|j: int| 0 <= j < old(self).frontier@.len() ==> cur.cost <= #[trigger] old(self).frontier@[j].cost,
            final(self).visited_vertices@ == old(self).visited_vertices@.push(cur),
            old(self).visited_vertices@.len() == 0 ==> cur == start_entry(*q),
            final(self).frontier@.len() == old(self).frontier@.len() - 1,
            final(self).closed_cells@ == old(self).closed_cells@,
            final(self).closed@ == old(self).closed@,
            final(self).expanded@ == old(self).expanded@,
    {
        let ghost old_self = *self;
        let i = lowest_index(&self.frontier);
        let cur = self.frontier.remove(i);
        self.visited_vertices.push(cur);
        proof {
            let hole = Some(GraphVertex { x: cur.x, y: cur.y });
            let of = old_self.frontier@;
            assert(old_self.frontier_ok(g, None, i as int));
            assert forall|j: int| 0 <= j < self.frontier@.len() implies #[trigger] self.frontier_ok(g, hole, j) by {
                let oj = if j < i { j } else { j + 1 };
                assert(self.frontier@[j] == of[oj]);
                assert(old_self.frontier_ok(g, None, oj));
                if oj < i {
                    assert(!(of[oj].x == of[i as int].x && of[oj].y == of[i as int].y));
                } else {
                    assert(!(of[i as int].x == of[oj].x && of[i as int].y == of[oj].y));
                }
            }
            assert forall|j: int, k: int|
                #![trigger self.frontier@[j], self.frontier@[k]]
                0 <= j < k < self.frontier@.len() implies
                !(self.frontier@[j].x == self.frontier@[k].x && self.frontier@[j].y == self.frontier@[k].y) by {
                let oj = if j < i { j } else { j + 1 };
                let ok = if k < i { k } else { k + 1 };
                assert(self.frontier@[j] == of[oj]);
                assert(self.frontier@[k] == of[ok]);
                assert(!(of[oj].x == of[ok].x && of[oj].y == of[ok].y));
            }
            assert forall|x: int, y: int| g.in_bounds(x, y) implies #[trigger] self.cell_ok(g, *q, hole, x, y) by {
                assert(old_self.cell_ok(g, *q, None, x, y));
                let xi = idx(x, y, g.height as int);
                if in_frontier(of, x, y) && !(x == cur.x && y == cur.y) {
                    let j = choose|j: int| 0 <= j < of.len() && of[j].x == x && of[j].y == y;
                    assert(j != i);
                    let nj = if j < i { j } else { j - 1 };
                    assert(self.frontier@[nj] == of[j]);
                }
                if x == cur.x && y == cur.y {
                    assert(!old_self.expanded@[xi]);
                }
            }
            if old_self.visited_vertices@.len() == 0 {
                assert(of == seq![start_entry(*q)]);
                assert(cur == of[0]);
            }
            assert(self.visited_vertices@[self.visited_vertices@.len() - 1] == cur);
            assert forall|j: int| 0 <= j < self.visited_vertices@.len() implies g.in_bounds(
                #[trigger] self.visited_vertices@[j].x as int, self.visited_vertices@[j].y as int) by {
                if j < old_self.visited_vertices@.len() {
                    assert(self.visited_vertices@[j] == old_self.visited_vertices@[j]);
                }
            }
            if old_self.visited_vertices@.len() > 0 {
                assert(self.visited_vertices@[0] == old_self.visited_vertices@[0]);
            }
        }
        cur
    }

    /// Records `cur`, whose neighbours have all been discovered, as expanded.
    #[verifier::rlimit(60)]
    #[verifier::spinoff_prover]
    fn mark_expanded(&mut self, g: &GridGraph, q: &Query, cur: &VisitedGraphVertex)
        requires
            old(self).inv(g, *q, Some(GraphVertex { x: cur.x, y: cur.y })),
            g.in_bounds(cur.x as int, cur.y as int),
            old(self).closed@[idx(cur.x as int, cur.y as int, g.height as int)],
            neighbours_closed(g, old(self).closed@, cur.x as int, cur.y as int),
            !(cur.x == q.goal.x && cur.y == q.goal.y),
        ensures
            final(self).inv(g, *q, None),
            final(self).frontier@ == old(self).frontier@,
            final(self).closed_cells@ == old(self).closed_cells@,
            final(self).visited_vertices@ == old(self).visited_vertices@,
    {
        let ghost old_self = *self;
        proof {
            let hole = Some(GraphVertex { x: cur.x, y: cur.y });
            let ci = idx(cur.x as int, cur.y as int, g.height as int);
            lemma_idx(g, cur.x as int, cur.y as int, cur.x as int, cur.y as int);
            self.expanded@ = self.expanded@.update(ci, true);
            assert forall|j: int| 0 <= j < self.frontier@.len() implies #[trigger] self.frontier_ok(g, None, j) by {
                assert(old_self.frontier_ok(g, hole, j));
                let f = self.frontier@[j];
                lemma_idx(g, f.x as int, f.y as int, cur.x as int, cur.y as int);
            }
            assert forall|x: int, y: int| g.in_bounds(x, y) implies #[trigger] self.cell_ok(g, *q, None, x, y) by {
                assert(old_self.cell_ok(g, *q, hole, x, y));
                lemma_idx(g, x, y, cur.x as int, cur.y as int);
            }
        }
    }
}

impl Search {
    /// A fresh search: only the start is discovered, and it alone is on the frontier.
    #[verifier::rlimit(60)]
    #[verifier::spinoff_prover]
    fn begin(g: &GridGraph, q: &Query) -> (r: Search)
        requires
            g.wf(),
            g.in_bounds(q.start.x as int, q.start.y as int),
            g.in_bounds(q.goal.x as int, q.goal.y as int),
            g.width * g.height <= usize::MAX,
        ensures
            r.inv(g, *q, None),
            r.visited_vertices@.len() == 0,
    {
        let n: usize = g.width as usize * g.height as usize;
        let mut closed: Vec<bool> = Vec::new();
        let mut parent: Vec<Option<VisitedGraphVertex>> = Vec::new();
        let mut k: usize = 0;
        while k < n
            invariant
                k <= n,
                n == g.width * g.height,
                closed@.len() == k,
                parent@.len() == k,
                forall|j: int| 0 <= j < k ==> !(#[trigger] closed@[j]) && parent@[j] is None,
            decreases n - k,
        {
            closed.push(false);
            parent.push(None);
            k = k + 1;
        }
        let si = index_of(g, q.start.x, q.start.y);
        closed[si] = true;
        let start0 = q.start.into_visited(0);
        let mut frontier: Vec<VisitedGraphVertex> = Vec::new();
        frontier.push(start0);
        let r = Search {
            closed,
            parent,
            frontier,
            visited_vertices: Vec::new(),
            order: Ghost(Seq::new(n as nat, |i: int| 0)),
            next_order: Ghost(1),
            found_cost: Ghost(Seq::new(n as nat, |i: int| 0)),
            expanded: Ghost(Seq::new(n as nat, |i: int| false)),
            closed_cells: Ghost(Set::empty().insert(si as int)),
        };
        proof {
            assert(r.frontier@ == seq![start_entry(*q)]);
            assert(r.closed_cells@ =~= Set::new(|i: int| 0 <= i < n && r.closed@[i]));
            assert(r.frontier_ok(g, None, 0));
            assert forall|x: int, y: int| g.in_bounds(x, y) implies #[trigger] r.cell_ok(g, *q, None, x, y) by {
                lemma_idx(g, x, y, q.start.x as int, q.start.y as int);
                if x == q.start.x && y == q.start.y {
                    assert(r.frontier@[0].x == x && r.frontier@[0].y == y);
                    assert(distance(*q, x, y) == 0);
                    assert(unit(g, *q) * 0 == 0);
                }
            }
        }
        r
    }
}

/// Runs the search from `start_vertex` to `goal_vertex`, scoring each discovered
/// cell with `cost_func`, and returns the path found together with every entry in
/// the order it was taken off the frontier.
///
/// Each cell is closed the moment it is first discovered and is pushed at most
/// once; the frontier always serves an entry of least cost next. Every cell of
/// the grid can be stepped onto, so the goal is always reached. On a grid of one
/// positive cost, unweighted uniform-cost scoring finds a path of Manhattan length.
#[verifier::rlimit(60)]
pub fn execute_a_star(
    graph: &GridGraph,
    start_vertex: GraphVertex,
    goal_vertex: GraphVertex,
    cost_func: CostFunction,
    options: &PathfindingOptions,
) -> (r: Option<PathResult>)
    requires
        graph.wf(),
        graph.in_bounds(start_vertex.x as int, start_vertex.y as int),
        graph.in_bounds(goal_vertex.x as int, goal_vertex.y as int),
        graph.width * graph.height <= usize::MAX,
    ensures
        r is Some,
        r matches Some(res) ==> {
            let q = Query { start: start_vertex, goal: goal_vertex, cost_function: cost_func, options: *options };
            let path = res.path@;
            let visited = res.visited_vertices@;
            &&& is_path(graph, q, path)
            &&& visited.len() >= 1
            &&& visited[0] == start_entry(q)
            &&& visited.last() == path.last()
            &&& forall|j: int| 0 <= j < visited.len() ==> graph.in_bounds(#[trigger] visited[j].x as int, visited[j].y as int)
            &&& start_vertex == goal_vertex ==> path == seq![start_entry(q)] && visited == seq![start_entry(q)]
            &&& uniform_search(graph, q) ==> path.len() == distance(q, goal_vertex.x as int, goal_vertex.y as int) + 1
                && path.last().cost == unit(graph, q) * distance(q, goal_vertex.x as int, goal_vertex.y as int)
        },
{
    let q = Query { start: start_vertex, goal: goal_vertex, cost_function: cost_func, options: *options };
    let ghost n = graph.width * graph.height;
    let mut search = Search::begin(graph, &q);
    let mut found = false;
    let mut goal_entry = start_vertex.into_visited(0);
    proof {
        lemma_int_range(0, n);
        lemma_len_subset(search.closed_cells@, set_int_range(0, n));
    }
    while !found && search.frontier.len() > 0
        invariant
            search.inv(graph, q, if found { Some(q.goal) } else { None }),
            search.closed_cells@.finite(),
            search.closed_cells@.len() <= n,
            n == graph.width * graph.height,
            q == (Query { start: start_vertex, goal: goal_vertex, cost_function: cost_func, options: *options }),
            found ==> at(goal_entry, q.goal) && search.closed@[idx(q.goal.x as int, q.goal.y as int, graph.height as int)]
                && goal_entry.cost == search.found_cost@[idx(q.goal.x as int, q.goal.y as int, graph.height as int)]
                && search.visited_vertices@.len() > 0 && search.visited_vertices@.last() == goal_entry,
            q.start == q.goal ==> (search.visited_vertices@.len() == 0 || (search.visited_vertices@.len() == 1 && found)),
        decreases n - search.closed_cells@.len() + search.frontier@.len() + (if found { 0int } else { 1int }),
    {
        let ghost pre = search;
        let cur = search.take_lowest(graph, &q);
        proof {
            if uniform_search(graph, q) {
                let u = unit(graph, q);
                let dc = distance(q, cur.x as int, cur.y as int);
                assert(search.cell_ok(graph, q, Some(GraphVertex { x: cur.x, y: cur.y }), cur.x as int, cur.y as int));
                assert(cur.cost == u * dc);
                assert forall|x: int, y: int|
                    graph.in_bounds(x, y) && !search.closed@[idx(x, y, graph.height as int)]
                    implies distance(q, x, y) >= dc + 1 by {
                    pre.lemma_frontier_near(graph, q, x, y);
                    let j = choose|j: int|
                        0 <= j < pre.frontier@.len() && distance(q, #[trigger] pre.frontier@[j].x as int,
                            pre.frontier@[j].y as int) + 1 <= distance(q, x, y);
                    let f = pre.frontier@[j];
                    assert(pre.frontier_ok(graph, None, j));
                    assert(pre.cell_ok(graph, q, None, f.x as int, f.y as int));
                    let df = distance(q, f.x as int, f.y as int);
                    assert(cur.cost <= f.cost);
                    assert(dc <= df) by (nonlinear_arith)
                        requires
                            u * dc <= u * df,
                            u > 0,
                    ;
                }
            }
        }
        if cur.is_at(&goal_vertex) {
            found = true;
            goal_entry = cur;
            proof {
                assert(q.goal == GraphVertex { x: cur.x, y: cur.y });
            }
        } else {
            assert(!(cur.x == q.goal.x && cur.y == q.goal.y));
            let dirs = Direction::all();
            let ghost (x, y, h) = (cur.x as int, cur.y as int, graph.height as int);
            search.try_neighbour(graph, &q, &cur, dirs[0]);
            let ghost c0 = search.closed@;
            search.try_neighbour(graph, &q, &cur, dirs[1]);
            let ghost c1 = search.closed@;
            search.try_neighbour(graph, &q, &cur, dirs[2]);
            let ghost c2 = search.closed@;
            search.try_neighbour(graph, &q, &cur, dirs[3]);
            proof {
                let c3 = search.closed@;
                if graph.in_bounds(x, y - 1) {
                    lemma_idx(graph, x, y - 1, x, y);
                    assert(c0[idx(x, y - 1, h)]);
                    assert(c1[idx(x, y - 1, h)]);
                    assert(c2[idx(x, y - 1, h)]);
                    assert(c3[idx(x, y - 1, h)]);
                }
                if graph.in_bounds(x, y + 1) {
                    lemma_idx(graph, x, y + 1, x, y);
                    assert(c1[idx(x, y + 1, h)]);
                    assert(c2[idx(x, y + 1, h)]);
                    assert(c3[idx(x, y + 1, h)]);
                }
                if graph.in_bounds(x - 1, y) {
                    lemma_idx(graph, x - 1, y, x, y);
                    assert(c2[idx(x - 1, y, h)]);
                    assert(c3[idx(x - 1, y, h)]);
                }
            }
            search.mark_expanded(graph, &q, &cur);
        }
        proof {
            lemma_int_range(0, n);
            lemma_len_subset(search.closed_cells@, set_int_range(0, n));
        }
    }
    if !found {
        proof {
            let c = search.closed@;
            assert forall|a: int, b: int|
                graph.in_bounds(a, b) && #[trigger] c[idx(a, b, graph.height as int)]
                    implies neighbours_closed(graph, c, a, b) by {
                assert(search.cell_ok(graph, q, None, a, b));
            }
            lemma_connected(graph, c, q.start.x as int, q.start.y as int, q.goal.x as int, q.goal.y as int);
            assert(search.cell_ok(graph, q, None, q.goal.x as int, q.goal.y as int));
        }
        return None;
    }
    let mut cur = goal_entry;
    let mut ci = index_of(graph, cur.x, cur.y);
    let mut rev: Vec<VisitedGraphVertex> = Vec::new();
    rev.push(goal_entry);
    while search.parent[ci].is_some()
        invariant
            search.inv(graph, q, Some(q.goal)),
            q == (Query { start: start_vertex, goal: goal_vertex, cost_function: cost_func, options: *options }),
            ci == idx(cur.x as int, cur.y as int, graph.height as int),
            ci < graph.width * graph.height,
            graph.in_bounds(cur.x as int, cur.y as int),
            search.closed@[ci as int],
            cur.cost == search.found_cost@[ci as int],
            rev@.len() >= 1,
            rev@[0] == goal_entry,
            rev@.last() == cur,
            at(goal_entry, q.goal),
            forall|j: int| 0 <= j < rev@.len() ==> graph.in_bounds(#[trigger] rev@[j].x as int, rev@[j].y as int),
            forall|j: int| 0 <= j < rev@.len() - 1 ==> #[trigger] is_step(graph, q, rev@[j + 1], rev@[j]),
            q.start == q.goal ==> rev@.len() == 1,
        decreases search.order@[ci as int],
    {
        proof {
            assert(search.cell_ok(graph, q, Some(q.goal), cur.x as int, cur.y as int));
        }
        let p = match search.parent[ci] {
            Some(p) => p,
            None => cur,
        };
        let ghost old_rev = rev@;
        rev.push(p);
        proof {
            assert(VisitedGraphVertex { x: cur.x as int as u32, y: cur.y as int as u32, cost: search.found_cost@[ci as int] as u64 } == cur);
            assert forall|j: int| 0 <= j < rev@.len() - 1 implies #[trigger] is_step(graph, q, rev@[j + 1], rev@[j]) by {
                if j < old_rev.len() - 1 {
                    assert(rev@[j + 1] == old_rev[j + 1]);
                    assert(rev@[j] == old_rev[j]);
                }
            }
            assert forall|j: int| 0 <= j < rev@.len() implies graph.in_bounds(#[trigger] rev@[j].x as int, rev@[j].y as int) by {
                if j < old_rev.len() {
                    assert(rev@[j] == old_rev[j]);
                }
            }
            lemma_idx(graph, p.x as int, p.y as int, p.x as int, p.y as int);
            assert(search.cell_ok(graph, q, Some(q.goal), p.x as int, p.y as int));
        }
        cur = p;
        ci = index_of(graph, p.x, p.y);
    }
    proof {
        assert(search.cell_ok(graph, q, Some(q.goal), cur.x as int, cur.y as int));
        lemma_idx(graph, cur.x as int, cur.y as int, q.start.x as int, q.start.y as int);
    }
    let mut path: Vec<VisitedGraphVertex> = Vec::new();
    let mut k: usize = rev.len();
    while k > 0
        invariant
            k <= rev@.len(),
            path@.len() + k == rev@.len(),
            forall|j: int| 0 <= j < path@.len() ==> #[trigger] path@[j] == rev@[rev@.len() - 1 - j],
        decreases k,
    {
        k = k - 1;
        path.push(rev[k]);
    }
    proof {
        let l = rev@.len() as int;
        assert(path@[0] == rev@[l - 1]);
        assert(path@.last() == rev@[0]);
        assert forall|i: int| 0 <= i < path@.len() implies graph.in_bounds(#[trigger] path@[i].x as int, path@[i].y as int) by {
            assert(path@[i] == rev@[l - 1 - i]);
        }
        assert forall|i: int| 0 <= i < path@.len() - 1 implies #[trigger] is_step(graph, q, path@[i], path@[i + 1]) by {
            assert(path@[i] == rev@[l - 1 - i]);
            assert(path@[i + 1] == rev@[l - 1 - (i + 1)]);
            assert(is_step(graph, q, rev@[(l - 2 - i) + 1], rev@[l - 2 - i]));
        }
        if uniform_search(graph, q) {
            assert(search.cell_ok(graph, q, Some(q.goal), q.goal.x as int, q.goal.y as int));
            lemma_uniform_path_length(graph, q, path@);
        }
        if q.start == q.goal {
            assert(path@ =~= seq![start_entry(q)]);
            assert(search.visited_vertices@ =~= seq![start_entry(q)]);
        }
    }
    Some(PathResult { path, visited_vertices: search.visited_vertices })
}

/// The cells a sequence of entries passes through.
pub open spec fn cells(p: Seq<VisitedGraphVertex>) -> Seq<GraphVertex> {
    p.map_values(|v: VisitedGraphVertex| GraphVertex { x: v.x, y: v.y })
}

/// The score with which the last cell of `route` is reached when each step is
/// scored from the one before, starting from zero.
pub open spec fn route_cost(g: &GridGraph, q: Query, route: Seq<GraphVertex>) -> int
    decreases route.len(),
{
    if route.len() <= 1 {
        0
    } else {
        let last = route.last();
        score(
            q.cost_function,
            q.goal,
            route_cost(g, q, route.drop_last()),
            last.x as int,
            last.y as int,
            g.cost_at(last.x as int, last.y as int) as int,
            q.options,
        )
    }
}

proof fn lemma_route_cost_prefix(g: &GridGraph, q: Query, p: Seq<VisitedGraphVertex>, k: int)
    requires
        is_path(g, q, p),
        0 <= k < p.len(),
    ensures
        p[k].cost == route_cost(g, q, cells(p).subrange(0, k + 1)),
    decreases k,
{
    if k > 0 {
        lemma_route_cost_prefix(g, q, p, k - 1);
        assert(is_step(g, q, p[k - 1], p[k]));
        assert(cells(p).subrange(0, k + 1).drop_last() =~= cells(p).subrange(0, k));
    }
}

/// The goal entry of a path carries exactly the cost of the route it follows.
pub proof fn lemma_path_cost(g: &GridGraph, q: Query, p: Seq<VisitedGraphVertex>)
    requires
        is_path(g, q, p),
    ensures
        p.last().cost == route_cost(g, q, cells(p)),
{
    lemma_route_cost_prefix(g, q, p, p.len() - 1);
    assert(cells(p).subrange(0, p.len() as int) =~= cells(p));
}

proof fn lemma_route_cost_monotone(g: &GridGraph, q1: Query, q2: Query, route: Seq<GraphVertex>)
    requires
        q1.cost_function == q2.cost_function,
        q1.goal == q2.goal,
        q1.options.cost_weight <= q2.options.cost_weight,
        q1.options.heuristics_weight == q2.options.heuristics_weight,
    ensures
        0 <= route_cost(g, q1, route) <= route_cost(g, q2, route),
    decreases route.len(),
{
    if route.len() > 1 {
        lemma_route_cost_monotone(g, q1, q2, route.drop_last());
        let last = route.last();
        lemma_score_monotone(
            q1.cost_function,
            q1.goal,
            route_cost(g, q1, route.drop_last()),
            route_cost(g, q2, route.drop_last()),
            last.x as int,
            last.y as int,
            g.cost_at(last.x as int, last.y as int) as int,
            q1.options,
            q2.options,
        );
    }
}

/// Along the same route, a larger cost weight (all else equal) never lowers the
/// accumulated cost with which the goal is reached.
pub proof fn lemma_goal_cost_monotone_in_cost_weight(
    g: &GridGraph,
    q1: Query,
    q2: Query,
    p1: Seq<VisitedGraphVertex>,
    p2: Seq<VisitedGraphVertex>,
)
    requires
        is_path(g, q1, p1),
        is_path(g, q2, p2),
        cells(p1) == cells(p2),
        q1.cost_function == q2.cost_function,
        q1.goal == q2.goal,
        q1.options.cost_weight <= q2.options.cost_weight,
        q1.options.heuristics_weight == q2.options.heuristics_weight,
    ensures
        p1.last().cost <= p2.last().cost,
{
    lemma_path_cost(g, q1, p1);
    lemma_path_cost(g, q2, p2);
    lemma_route_cost_monotone(g, q1, q2, cells(p1));
}

} // verus!
