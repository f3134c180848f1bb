use vstd::prelude::*;

verus! {

/// A unit step in one of the four grid directions.
#[derive(Debug, Copy, Clone, PartialEq, Eq, Structural)]
pub struct Direction {
    x: i32,
    y: i32,
}

impl Direction {
    pub closed spec fn dx(self) -> int {
        self.x as int
    }

    pub closed spec fn dy(self) -> int {
        self.y as int
    }

    pub fn up() -> (r: Direction)
        ensures
            r.dx() == 0 && r.dy() == -1,
    {
        Direction { x: 0, y: -1 }
    }

    pub fn down() -> (r: Direction)
        ensures
            r.dx() == 0 && r.dy() == 1,
    {
        Direction { x: 0, y: 1 }
    }

    pub fn left() -> (r: Direction)
        ensures
            r.dx() == -1 && r.dy() == 0,
    {
        Direction { x: -1, y: 0 }
    }

    pub fn right() -> (r: Direction)
        ensures
            r.dx() == 1 && r.dy() == 0,
    {
        Direction { x: 1, y: 0 }
    }

    /// The four directions in the order up, down, left, right.
    pub fn all() -> (r: [Direction; 4])
        ensures
            r@[0].dx() == 0 && r@[0].dy() == -1,
            r@[1].dx() == 0 && r@[1].dy() == 1,
            r@[2].dx() == -1 && r@[2].dy() == 0,
            r@[3].dx() == 1 && r@[3].dy() == 0,
    {
        [Direction::up(), Direction::down(), Direction::left(), Direction::right()]
    }
}

/// Two cells are 4-adjacent: they differ by one along exactly one axis.
pub open spec fn adjacent(ax: int, ay: int, bx: int, by: int) -> bool {
    (ax == bx && (ay - by == 1 || by - ay == 1)) || (ay == by && (ax - bx == 1 || bx - ax == 1))
}

/// A read-only grid of per-cell traversal costs, indexed as `tiles[x][y]`.
pub struct GridGraph<'a> {
    pub width: u32,
    pub height: u32,
    pub tiles: &'a [&'a [u8]],
}

impl<'a> GridGraph<'a> {
    /// The tiles hold `width` columns of `height` cells each.
    pub open spec fn wf(&self) -> bool {
        &&& self.tiles@.len() == self.width as int
        &&& forall|i: int| 0 <= i < self.width ==> (#[trigger] self.tiles@[i])@.len() == self.height as int
    }

    pub open spec fn in_bounds(&self, x: int, y: int) -> bool {
        0 <= x < self.width && 0 <= y < self.height
    }

    /// The cost of stepping onto cell `(x, y)`.
    pub open spec fn cost_at(&self, x: int, y: int) -> u8 {
        self.tiles@[x]@[y]
    }

    pub fn new(width: u32, height: u32, tiles: &'a [&'a [u8]]) -> (r: Self)
        ensures
            r.width == width,
            r.height == height,
            r.tiles == tiles,
    {
        Self { width, height, tiles }
    }

    /// The cell one step from `vertex` in `direction`, unless that leaves the grid.
    pub fn get_neighbouring_vertex(&self, vertex: &VisitedGraphVertex, direction: Direction) -> (r:
        Option<GraphVertex>)
        ensures
            r is Some <==> self.in_bounds(vertex.x + direction.dx(), vertex.y + direction.dy()),
            r matches Some(v) ==> v.x == vertex.x + direction.dx() && v.y == vertex.y
                + direction.dy(),
    {
        let neighbour_x: i64 = vertex.x as i64 + direction.x as i64;
        let neighbour_y: i64 = vertex.y as i64 + direction.y as i64;
        if neighbour_x < 0 || neighbour_y < 0 || neighbour_x >= self.width as i64 || neighbour_y
            >= self.height as i64 {
            return None;
        }
        Some(GraphVertex { x: neighbour_x as u32, y: neighbour_y as u32 })
    }

    pub fn get_cost(&self, vertex: &GraphVertex) -> (r: u8)
        requires
            self.wf(),
            self.in_bounds(vertex.x as int, vertex.y as int),
        ensures
            r == self.cost_at(vertex.x as int, vertex.y as int),
    {
        self.tiles[vertex.x as usize][vertex.y as usize]
    }
}

/// A grid cell.
#[derive(Debug, Copy, Clone, PartialEq, Eq, Hash, Structural)]
pub struct GraphVertex {
    pub x: u32,
    pub y: u32,
}

impl GraphVertex {
    pub fn new(x: u32, y: u32) -> (r: Self)
        ensures
            r.x == x,
            r.y == y,
    {
        GraphVertex { x, y }
    }

    /// This cell, carrying the accumulated cost it was reached with.
    pub fn into_visited(self, visit_cost: u64) -> (r: VisitedGraphVertex)
        ensures
            r.x == self.x,
            r.y == self.y,
            r.cost == visit_cost,
    {
        VisitedGraphVertex::new(self.x, self.y, visit_cost)
    }
}

impl From<VisitedGraphVertex> for GraphVertex {
    fn from(vertex: VisitedGraphVertex) -> (r: Self) {
        GraphVertex::new(vertex.x, vertex.y)
    }
}

impl vstd::std_specs::convert::FromSpecImpl<VisitedGraphVertex> for GraphVertex {
    open spec fn obeys_from_spec() -> bool {
        true
    }

    open spec fn from_spec(v: VisitedGraphVertex) -> GraphVertex {
        GraphVertex { x: v.x, y: v.y }
    }
}

/// A grid cell together with the accumulated priority score it was discovered with.
#[derive(Debug, Copy, Clone)]
pub struct VisitedGraphVertex {
    pub x: u32,
    pub y: u32,
    pub cost: u64,
}

impl VisitedGraphVertex {
    pub fn new(x: u32, y: u32, cost: u64) -> (r: Self)
        ensures
            r.x == x,
            r.y == y,
            r.cost == cost,
    {
        Self { x, y, cost }
    }

    /// Whether this entry names the cell `other`, whatever its cost.
    pub fn is_at(&self, other: &GraphVertex) -> (r: bool)
        ensures
            r <==> (self.x == other.x && self.y == other.y),
    {
        self.x == other.x && self.y == other.y
    }

    /// Frontier order: a lower cost is served first.
    pub fn has_priority_over(&self, other: &VisitedGraphVertex) -> (r: bool)
        ensures
            r <==> self.cost < other.cost,
    {
        self.cost < other.cost
    }
}

impl PartialEq for VisitedGraphVertex {
    fn eq(&self, other: &Self) -> (r: bool) {
        self.x == other.x && self.y == other.y && self.cost == other.cost
    }
}

impl vstd::std_specs::cmp::PartialEqSpecImpl for VisitedGraphVertex {
    open spec fn obeys_eq_spec() -> bool {
        true
    }

    open spec fn eq_spec(&self, other: &VisitedGraphVertex) -> bool {
        self.x == other.x && self.y == other.y && self.cost == other.cost
    }
}

impl Eq for VisitedGraphVertex {

}

} // verus!
