use vstd::prelude::*;
use crate::grid_graph::{GraphVertex, VisitedGraphVertex};

verus! {

/// Weights that scale the accumulated path cost and the heuristic term.
#[derive(Debug, Copy, Clone, PartialEq, Eq, Structural)]
pub struct PathfindingOptions {
    pub cost_weight: u64,
    pub heuristics_weight: u64,
}

impl PathfindingOptions {
    /// Both weights set to one.
    pub fn new() -> (r: Self)
        ensures
            r.cost_weight == 1,
            r.heuristics_weight == 1,
    {
        PathfindingOptions { cost_weight: 1, heuristics_weight: 1 }
    }
}

/// The closed set of scoring strategies.
#[derive(Debug, Copy, Clone, PartialEq, Eq, Structural)]
pub enum CostFunction {
    ZeroCost,
    EuclideanDistance,
    ManhattanDistance,
}

/// Clamps a non-negative quantity to the `u64` range, as saturating arithmetic does.
pub open spec fn sat(n: int) -> int {
    if n > u64::MAX {
        u64::MAX as int
    } else {
        n
    }
}

/// The largest `r` with `r * r <= n`.
pub open spec fn floor_sqrt(n: nat) -> nat
    decreases n,
{
    if n == 0 {
        0
    } else {
        let r = floor_sqrt((n - 1) as nat);
        if (r + 1) * (r + 1) <= n {
            r + 1
        } else {
            r
        }
    }
}

pub open spec fn abs_diff(a: int, b: int) -> int {
    if a >= b {
        a - b
    } else {
        b - a
    }
}

/// Accumulated path cost after stepping onto a cell of cost `step`.
pub open spec fn path_cost(last_cost: int, step: int) -> int {
    sat(last_cost + step)
}

pub open spec fn manhattan_heuristic(goal: GraphVertex, x: int, y: int) -> int {
    abs_diff(goal.x as int, x) + abs_diff(goal.y as int, y)
}

pub open spec fn euclidean_heuristic(goal: GraphVertex, x: int, y: int) -> int {
    let dx = abs_diff(goal.x as int, x);
    let dy = abs_diff(goal.y as int, y);
    floor_sqrt((dx * dx + dy * dy) as nat) as int
}

/// `g * cost_weight + h * heuristics_weight`, each step saturating.
pub open spec fn weighted(g: int, h: int, options: PathfindingOptions) -> int {
    sat(sat(g * options.cost_weight) + sat(h * options.heuristics_weight))
}

/// The priority score of stepping from an entry of cost `last_cost` onto cell
/// `(x, y)`, whose own cost is `step`.
pub open spec fn score(
    cf: CostFunction,
    goal: GraphVertex,
    last_cost: int,
    x: int,
    y: int,
    step: int,
    options: PathfindingOptions,
) -> int {
    let g = path_cost(last_cost, step);
    match cf {
        CostFunction::ZeroCost => sat(g * options.cost_weight),
        CostFunction::EuclideanDistance => weighted(g, euclidean_heuristic(goal, x, y), options),
        CostFunction::ManhattanDistance => weighted(g, manhattan_heuristic(goal, x, y), options),
    }
}

proof fn lemma_floor_sqrt(n: nat)
    ensures
        floor_sqrt(n) * floor_sqrt(n) <= n,
        n < (floor_sqrt(n) + 1) * (floor_sqrt(n) + 1),
    decreases n,
{
    if n > 0 {
        lemma_floor_sqrt((n - 1) as nat);
        let r = floor_sqrt((n - 1) as nat);
        if (r + 1) * (r + 1) <= n {
            assert(n < (r + 2) * (r + 2)) by (nonlinear_arith)
                requires
                    n - 1 < (r + 1) * (r + 1),
            ;
            assert(floor_sqrt(n) == r + 1);
            let s = r + 1;
            assert(s * s <= n && n < (s + 1) * (s + 1));
            assert(n < (floor_sqrt(n) + 1) * (floor_sqrt(n) + 1));
        } else {
            assert(floor_sqrt(n) == r);
            assert(r * r <= n && n < (r + 1) * (r + 1));
            assert(n < (floor_sqrt(n) + 1) * (floor_sqrt(n) + 1));
        }
    } else {
        assert(floor_sqrt(n) == 0);
        assert((0 + 1) * (0 + 1) == 1) by (nonlinear_arith);
    }
}

proof fn lemma_floor_sqrt_unique(n: nat, r: nat)
    requires
        r * r <= n < (r + 1) * (r + 1),
    ensures
        r == floor_sqrt(n),
{
    lemma_floor_sqrt(n);
    let s = floor_sqrt(n);
    if r < s {
        assert((r + 1) * (r + 1) <= s * s) by (nonlinear_arith)
            requires
                r + 1 <= s,
        ;
    } else if s < r {
        assert((s + 1) * (s + 1) <= r * r) by (nonlinear_arith)
            requires
                s + 1 <= r,
        ;
    }
}

/// Integer square root, rounded down.
pub fn isqrt(n: u128) -> (r: u64)
    requires
        n < 0x4_0000_0000_0000_0000,
    ensures
        r == floor_sqrt(n as nat),
{
    let mut lo: u128 = 0;
    let mut hi: u128 = 0x2_0000_0000;
    assert(hi * hi == 0x4_0000_0000_0000_0000);
    while hi - lo > 1
        invariant
            lo < hi <= 0x2_0000_0000,
            lo * lo <= n < hi * hi,
        decreases hi - lo,
    {
        let mid: u128 = lo + (hi - lo) / 2;
        assert(mid * mid <= 0x4_0000_0000_0000_0000) by (nonlinear_arith)
            requires
                mid <= 0x2_0000_0000,
        ;
        if mid * mid <= n {
            lo = mid;
        } else {
            hi = mid;
        }
    }
    proof {
        lemma_floor_sqrt_unique(n as nat, lo as nat);
    }
    lo as u64
}

fn saturating_mul(a: u64, b: u64) -> (r: u64)
    ensures
        r == sat(a * b),
{
    match a.checked_mul(b) {
        Some(v) => v,
        None => u64::MAX,
    }
}

fn abs_diff_u32(a: u32, b: u32) -> (r: u64)
    ensures
        r == abs_diff(a as int, b as int),
{
    if a >= b {
        (a - b) as u64
    } else {
        (b - a) as u64
    }
}

fn weighted_sum(g: u64, h: u64, options: &PathfindingOptions) -> (r: u64)
    ensures
        r == weighted(g as int, h as int, *options),
{
    saturating_mul(g, options.cost_weight).saturating_add(saturating_mul(h, options.heuristics_weight))
}

/// Uniform-cost scoring: the weighted accumulated cost, no heuristic.
pub fn zero_cost_function(
    start_vertex: &GraphVertex,
    goal_vertex: &GraphVertex,
    last_visited_vertex: &VisitedGraphVertex,
    current_vertex: &GraphVertex,
    current_vertex_cost: u8,
    options: &PathfindingOptions,
) -> (r: u64)
    ensures
        r == score(
            CostFunction::ZeroCost,
            *goal_vertex,
            last_visited_vertex.cost as int,
            current_vertex.x as int,
            current_vertex.y as int,
            current_vertex_cost as int,
            *options,
        ),
{
    saturating_mul(last_visited_vertex.cost.saturating_add(current_vertex_cost as u64), options.cost_weight)
}

/// Weighted accumulated cost plus the weighted straight-line distance to the goal,
/// rounded down.
pub fn euclidean_distance_cost_function(
    start_vertex: &GraphVertex,
    goal_vertex: &GraphVertex,
    last_visited_vertex: &VisitedGraphVertex,
    current_vertex: &GraphVertex,
    current_vertex_cost: u8,
    options: &PathfindingOptions,
) -> (r: u64)
    ensures
        r == score(
            CostFunction::EuclideanDistance,
            *goal_vertex,
            last_visited_vertex.cost as int,
            current_vertex.x as int,
            current_vertex.y as int,
            current_vertex_cost as int,
            *options,
        ),
{
    let g = last_visited_vertex.cost.saturating_add(current_vertex_cost as u64);
    let dx = abs_diff_u32(goal_vertex.x, current_vertex.x);
    let dy = abs_diff_u32(goal_vertex.y, current_vertex.y);
    assert(dx * dx + dy * dy < 0x4_0000_0000_0000_0000) by (nonlinear_arith)
        requires
            dx <= u32::MAX,
            dy <= u32::MAX,
    ;
    let h = isqrt(dx as u128 * dx as u128 + dy as u128 * dy as u128);
    weighted_sum(g, h, options)
}

/// Weighted accumulated cost plus the weighted Manhattan distance to the goal.
pub fn manhattan_distance_cost_function(
    start_vertex: &GraphVertex,
    goal_vertex: &GraphVertex,
    last_visited_vertex: &VisitedGraphVertex,
    current_vertex: &GraphVertex,
    current_vertex_cost: u8,
    options: &PathfindingOptions,
) -> (r: u64)
    ensures
        r == score(
            CostFunction::ManhattanDistance,
            *goal_vertex,
            last_visited_vertex.cost as int,
            current_vertex.x as int,
            current_vertex.y as int,
            current_vertex_cost as int,
            *options,
        ),
{
    let g = last_visited_vertex.cost.saturating_add(current_vertex_cost as u64);
    let h = abs_diff_u32(goal_vertex.x, current_vertex.x) + abs_diff_u32(goal_vertex.y, current_vertex.y);
    weighted_sum(g, h, options)
}

impl CostFunction {
    /// Scores stepping from `last_visited_vertex` onto `current_vertex` with this strategy.
    pub fn evaluate(
        &self,
        start_vertex: &GraphVertex,
        goal_vertex: &GraphVertex,
        last_visited_vertex: &VisitedGraphVertex,
        current_vertex: &GraphVertex,
        current_vertex_cost: u8,
        options: &PathfindingOptions,
    ) -> (r: u64)
        ensures
            r == score(
                *self,
                *goal_vertex,
                last_visited_vertex.cost as int,
                current_vertex.x as int,
                current_vertex.y as int,
                current_vertex_cost as int,
                *options,
            ),
    {
        match self {
            CostFunction::ZeroCost => zero_cost_function(
                start_vertex, goal_vertex, last_visited_vertex, current_vertex,
                current_vertex_cost, options),
            CostFunction::EuclideanDistance => euclidean_distance_cost_function(
                start_vertex, goal_vertex, last_visited_vertex, current_vertex,
                current_vertex_cost, options),
            CostFunction::ManhattanDistance => manhattan_distance_cost_function(
                start_vertex, goal_vertex, last_visited_vertex, current_vertex,
                current_vertex_cost, options),
        }
    }
}

proof fn lemma_sat_monotone(a: int, b: int)
    requires
        a <= b,
    ensures
        sat(a) <= sat(b),
{
}

proof fn lemma_mul_monotone(a: int, b: int, v: int, w: int)
    requires
        0 <= a <= b,
        0 <= v <= w,
    ensures
        a * v <= b * w,
{
    assert(a * v <= b * w) by (nonlinear_arith)
        requires
            0 <= a <= b,
            0 <= v <= w,
    ;
}

/// Raising the cost weight, all else equal, never lowers a step's score; neither
/// does raising the cost the step starts from.
pub proof fn lemma_score_monotone(
    cf: CostFunction,
    goal: GraphVertex,
    last_cost1: int,
    last_cost2: int,
    x: int,
    y: int,
    step: int,
    options1: PathfindingOptions,
    options2: PathfindingOptions,
)
    requires
        0 <= last_cost1 <= last_cost2,
        0 <= step,
        options1.cost_weight <= options2.cost_weight,
        options1.heuristics_weight == options2.heuristics_weight,
    ensures
        score(cf, goal, last_cost1, x, y, step, options1) <= score(cf, goal, last_cost2, x, y, step, options2),
{
    let g1 = path_cost(last_cost1, step);
    let g2 = path_cost(last_cost2, step);
    lemma_sat_monotone(last_cost1 + step, last_cost2 + step);
    lemma_mul_monotone(g1, g2, options1.cost_weight as int, options2.cost_weight as int);
    lemma_sat_monotone(g1 * options1.cost_weight, g2 * options2.cost_weight);
    let h = match cf {
        CostFunction::ZeroCost => 0,
        CostFunction::EuclideanDistance => euclidean_heuristic(goal, x, y),
        CostFunction::ManhattanDistance => manhattan_heuristic(goal, x, y),
    };
    lemma_sat_monotone(
        sat(g1 * options1.cost_weight) + sat(h * options1.heuristics_weight),
        sat(g2 * options2.cost_weight) + sat(h * options2.heuristics_weight),
    );
}

} // verus!
