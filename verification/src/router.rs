//! The road router: a search on the grid from a door to another building
//! or to a road that is already there.

use crate::building::Building;
use crate::city::{City, Extent};
use crate::city_generation::CityGenerator;
use crate::layout::{cell_within, mark_road, paved, roads_within};
use crate::occupancy::CellType;
use crate::plan::plan_of;
use crate::upkeep::with_road;
use crate::city::road_cells;
use pathfinding::prelude::astar;
use vstd::prelude::*;

verus! {

/// What a step onto a road or through a door costs.
pub const STEP_COST: i128 = 10;

/// How many times dearer a step onto a free cell is.
pub const FREE_CELL_PENALTY: i128 = 5;

/// Whether `q` is one step from `p` along one axis.
pub open spec fn unit_step(p: (i32, i32), q: (i32, i32)) -> bool {
    ||| (p.1 == q.1 && (q.0 - p.0 == 1 || p.0 - q.0 == 1))
    ||| (p.0 == q.0 && (q.1 - p.1 == 1 || p.1 - q.1 == 1))
}

/// Whether `r` is the square root of `n`, rounded down.
pub open spec fn is_floor_sqrt(r: int, n: int) -> bool {
    0 <= r && r * r <= n < (r + 1) * (r + 1)
}

/// The distance from `p` to the far corner of `end`, in steps along the axes.
pub open spec fn far_corner_distance(end: &Building, p: (i32, i32)) -> int {
    let dx = p.0 - (end.x + end.width);
    let dy = p.1 - (end.y + end.height);
    (if dx < 0 { -dx } else { dx }) + (if dy < 0 { -dy } else { dy })
}

/// The square root of `n`, rounded down.
pub fn floor_sqrt(n: u64) -> (r: u64)
    ensures
        is_floor_sqrt(r as int, n as int),
{
    let mut low: u64 = 0;
    let mut high: u64 = 0x1_0000_0000;
    while high - low > 1
        invariant
            low < high <= 0x1_0000_0000,
            low * low <= n < high * high,
        decreases high - low,
    {
        let mid = low + (high - low) / 2;
        assert(mid * mid <= 0xffff_ffff * 0xffff_ffff) by (nonlinear_arith)
            requires
                0 <= mid <= 0xffff_ffff,
        ;
        if mid * mid <= n {
            low = mid;
        } else {
            high = mid;
        }
    }
    low
}

/// What the A* search of the `pathfinding` crate returns on the grid that
/// `tags`, the buildings and the bounds of a city describe, from `start`
/// towards `end`: the cells of the path and the cost that the search gave
/// it, or `None`.
pub uninterp spec fn astar_outcome(
    tags: Map<(i32, i32), CellType>,
    buildings: Seq<Building>,
    bounds: Extent,
    start: (i32, i32),
    end: Building,
) -> Option<(Seq<(i32, i32)>, int)>;

/// Whether the search may look at `(x, y)`: the cell lies within the
/// bounds, the right and bottom bounds left out.
pub open spec fn in_search_bounds(bounds: Extent, x: int, y: int) -> bool {
    bounds.left <= x < bounds.right && bounds.top <= y < bounds.bottom
}

/// Whether `cell` is the door of a building of `s` that holds it: the one
/// cell of a footprint through which the building may be entered.
pub open spec fn entrance_among(s: Seq<Building>, cell: (i32, i32)) -> bool {
    exists|i: int| 0 <= i < s.len() && (#[trigger] s[i]).spec_contains(cell) && s[i].door == cell
}

/// Whether a search towards `end` ends at `p`: on a road, or in the
/// footprint of `end`.
pub open spec fn is_goal_on(tags: Map<(i32, i32), CellType>, end: Building, p: (i32, i32)) -> bool {
    (tags.contains_key(p) && tags[p] == CellType::Road) || end.spec_contains(p)
}

/// What a search sees of a city and of the occupancy index.
pub ghost struct Grid {
    /// The occupancy index
    pub tags: Map<(i32, i32), CellType>,
    /// The buildings of the city
    pub buildings: Seq<Building>,
    /// The bounds of the city
    pub bounds: Extent,
}

impl Grid {
    /// What a step onto `cell` costs, or `None` where no step may go: a
    /// road costs the plain step, and so does a cell tagged as building
    /// where it is the door of the building that holds it; a free cell
    /// costs five times as much; a wall cannot be entered.
    pub open spec fn step_cost(self, cell: (i32, i32)) -> Option<i128> {
        if !self.tags.contains_key(cell) {
            Some((STEP_COST * FREE_CELL_PENALTY) as i128)
        } else {
            match self.tags[cell] {
                CellType::Road => Some(STEP_COST),
                CellType::Building => if entrance_among(self.buildings, cell) {
                    Some(STEP_COST)
                } else {
                    None
                },
            }
        }
    }

    /// The step from `p` by `(dx, dy)`, if the search may take it: at most
    /// one cell with its cost.
    pub open spec fn step_towards(self, p: (i32, i32), dx: int, dy: int) -> Seq<((i32, i32), i128)> {
        let x = p.0 + dx;
        let y = p.1 + dy;
        if in_search_bounds(self.bounds, x, y) {
            match self.step_cost((x as i32, y as i32)) {
                Some(cost) => seq![((x as i32, y as i32), cost)],
                None => Seq::empty(),
            }
        } else {
            Seq::empty()
        }
    }

    /// The cells that the search may reach from `p` in one step, each with
    /// the cost of the step: the neighbours to the left, above, below and
    /// to the right, in this order, as far as the search may enter them.
    pub open spec fn successors(self, p: (i32, i32)) -> Seq<((i32, i32), i128)> {
        self.step_towards(p, -1, 0) + self.step_towards(p, 0, -1) + self.step_towards(p, 0, 1)
            + self.step_towards(p, 1, 0)
    }

    /// Whether `q` is among the successors of `p`.
    pub open spec fn linked(self, p: (i32, i32), q: (i32, i32)) -> bool {
        exists|cost: i128| #[trigger] self.successors(p).contains((q, cost))
    }

    /// Whether a search towards `end` ends at `p`.
    pub open spec fn is_goal(self, end: Building, p: (i32, i32)) -> bool {
        is_goal_on(self.tags, end, p)
    }

    /// Whether `path` leads from `start`, each cell among the successors of
    /// the cell before it, to a cell at which the search ends.
    pub open spec fn is_route(self, start: (i32, i32), end: Building, path: Seq<(i32, i32)>) -> bool {
        &&& path.len() >= 1
        &&& path[0] == start
        &&& forall|i: int| #![trigger path[i]] 0 <= i < path.len() - 1 ==> self.linked(path[i], path[i + 1])
        &&& self.is_goal(end, path.last())
    }

    /// Whether no cell of `path` before the last is one at which the
    /// search ends.
    pub open spec fn stops_at_first_goal(self, end: Building, path: Seq<(i32, i32)>) -> bool {
        forall|i: int| 0 <= i < path.len() - 1 ==> !self.is_goal(end, #[trigger] path[i])
    }

    /// Whether `road` is what a search from `start` towards `end` leaves
    /// as a road: no cells where there is no route; and else a route that
    /// has no cell twice and stops at the first cell at which the search
    /// ends.
    pub open spec fn is_searched_road(
        self,
        start: (i32, i32),
        end: Building,
        road: Seq<(i32, i32)>,
    ) -> bool {
        if road.len() == 0 {
            forall|path: Seq<(i32, i32)>| !#[trigger] self.is_route(start, end, path)
        } else {
            self.is_route(start, end, road) && road.no_duplicates() && self.stops_at_first_goal(end, road)
        }
    }

    /// The sum of the costs of the steps of `path`: of the step onto each
    /// of its cells but the first.
    pub open spec fn route_cost(self, path: Seq<(i32, i32)>) -> int
        decreases path.len(),
    {
        if path.len() <= 1 {
            0
        } else {
            self.route_cost(path.drop_last()) + match self.step_cost(path.last()) {
                Some(cost) => cost as int,
                None => 0,
            }
        }
    }
}

impl CityGenerator {
    /// What a search of this generator sees of `city`.
    pub open spec fn grid(&self, city: &City) -> Grid {
        Grid { tags: self.occupancy@, buildings: city.buildings@, bounds: city.bounds() }
    }

    /// Whether `cell` is the door of a building that holds it.
    pub fn is_entrance(city: &City, cell: (i32, i32)) -> (r: bool)
        ensures
            r == entrance_among(city.buildings@, cell),
    {
        let mut i: usize = 0;
        while i < city.buildings.len()
            invariant
                i <= city.buildings@.len(),
                forall|j: int|
                    0 <= j < i ==> !((#[trigger] city.buildings@[j]).spec_contains(cell)
                        && city.buildings@[j].door == cell),
            decreases city.buildings@.len() - i,
        {
            let b = &city.buildings[i];
            if b.door.0 == cell.0 && b.door.1 == cell.1 && b.contains(cell) {
                return true;
            }
            i += 1;
        }
        false
    }

    fn push_step(&self, city: &City, p: (i32, i32), dx: i64, dy: i64, out: &mut Vec<((i32, i32), i128)>)
        requires
            -1 <= dx <= 1,
            -1 <= dy <= 1,
        ensures
            final(out)@ == old(out)@ + self.grid(city).step_towards(p, dx as int, dy as int),
    {
        let x: i64 = p.0 as i64 + dx;
        let y: i64 = p.1 as i64 + dy;
        if x < city.min_x as i64 || x >= city.max_x as i64 || y < city.min_y as i64 || y
            >= city.max_y as i64 {
            assert(out@ =~= old(out)@ + Seq::<((i32, i32), i128)>::empty());
            return ;
        }
        let cell = (x as i32, y as i32);
        match self.occupancy.tag_of(cell) {
            Some(CellType::Building) => {
                if Self::is_entrance(city, cell) {
                    out.push((cell, STEP_COST));
                    assert(out@ =~= old(out)@ + seq![(cell, STEP_COST)]);
                } else {
                    assert(out@ =~= old(out)@ + Seq::<((i32, i32), i128)>::empty());
                }
            },
            Some(CellType::Road) => {
                out.push((cell, STEP_COST));
                assert(out@ =~= old(out)@ + seq![(cell, STEP_COST)]);
            },
            None => {
                out.push((cell, STEP_COST * FREE_CELL_PENALTY));
                assert(out@ =~= old(out)@ + seq![(cell, (STEP_COST * FREE_CELL_PENALTY) as i128)]);
            },
        }
    }

    /// The cells that the search may reach from `p` in one step, with the
    /// cost of each step. Steps go along the axes only, and stay within the
    /// bounds of the city.
    pub fn successors(&self, city: &City, p: (i32, i32)) -> (r: Vec<((i32, i32), i128)>)
        ensures
            r@ == self.grid(city).successors(p),
    {
        let mut out: Vec<((i32, i32), i128)> = Vec::new();
        self.push_step(city, p, -1, 0, &mut out);
        self.push_step(city, p, 0, -1, &mut out);
        self.push_step(city, p, 0, 1, &mut out);
        self.push_step(city, p, 1, 0, &mut out);
        assert(out@ =~= self.grid(city).successors(p));
        out
    }

    /// Whether the search ends at `p`: on a road, or in the footprint of `end`.
    pub fn is_goal(&self, end: &Building, p: (i32, i32)) -> (r: bool)
        ensures
            r == is_goal_on(self.occupancy@, *end, p),
    {
        match self.occupancy.tag_of(p) {
            Some(CellType::Road) => true,
            Some(CellType::Building) => end.contains(p),
            None => end.contains(p),
        }
    }

    /// The estimate that steers the search: the distance from `p` to the
    /// far corner of `end`, times ten, and of that the square root,
    /// rounded down.
    pub fn heuristic(end: &Building, p: (i32, i32)) -> (r: i128)
        ensures
            is_floor_sqrt(r as int, 10 * far_corner_distance(end, p)),
    {
        let dx: i64 = p.0 as i64 - (end.x as i64 + end.width as i64);
        let dy: i64 = p.1 as i64 - (end.y as i64 + end.height as i64);
        let ax: i64 = if dx < 0 { -dx } else { dx };
        let ay: i64 = if dy < 0 { -dy } else { dy };
        floor_sqrt(((ax + ay) * 10) as u64) as i128
    }

    /// `pathfinding::prelude::astar`, from `start`, with `successors`,
    /// `heuristic` and `is_goal` as its three functions. As the crate
    /// documents it, a path that is returned starts at `start`, goes from
    /// each cell to one of its successors, ends where `is_goal` holds and
    /// has no cell twice; and `None` is returned only where no such path
    /// exists. As its source shows, the search tests each cell for the
    /// goal when it takes it up and goes on from it only where the test
    /// fails, so that no cell of the path before the last is a goal, and
    /// a start that is a goal is the whole path. The cost that it returns
    /// is the sum of the costs of the steps of the path: the source
    /// gives that where the estimate falls by no more than a step costs
    /// from a cell to its successor, so that no cell is taken up twice at
    /// different costs, and `lemma_heuristic_steady` shows that of
    /// `heuristic`. Which of the paths it is is that of `astar_outcome`.
    /// The search comes to an end because the bounds of the city leave it
    /// finitely many cells, and its costs are counted in 128 bits, which
    /// no sum of steps on the grid can fill.
    #[verifier::external_body]
    fn search(&self, city: &City, start: (i32, i32), end: &Building) -> (r: Option<
        (Vec<(i32, i32)>, i128),
    >)
        ensures
            r matches Some((path, cost)) ==> self.grid(city).is_route(start, *end, path@)
                && path@.no_duplicates() && self.grid(city).stops_at_first_goal(*end, path@) && cost
                == self.grid(city).route_cost(path@),
            r is None ==> forall|path: Seq<(i32, i32)>| !#[trigger] self.grid(city).is_route(start, *end, path),
            astar_outcome(self.occupancy@, city.buildings@, city.bounds(), start, *end) == match r {
                Some((path, cost)) => Some((path@, cost as int)),
                None => None,
            },
    {
        astar(
            &start,
            |&p| self.successors(city, p),
            |&p| Self::heuristic(end, p),
            |&p| self.is_goal(end, p),
        )
    }

    /// Search a road between two buildings. The road starts at the door of
    /// the first building and ends with the first cell that lies in the
    /// second building or on a road that is already there; its cost is
    /// the sum of the costs of its steps. `None` means that there is no
    /// way.
    pub fn generate_road(&self, city: &City, start: &Building, end: &Building) -> (r: Option<
        (Vec<(i32, i32)>, i128),
    >)
        ensures
            r matches Some((path, cost)) ==> self.grid(city).is_route(start.door, *end, path@)
                && path@.no_duplicates() && self.grid(city).stops_at_first_goal(*end, path@) && cost
                == self.grid(city).route_cost(path@),
            r is None ==> forall|path: Seq<(i32, i32)>|
                !#[trigger] self.grid(city).is_route(start.door, *end, path),
            astar_outcome(self.occupancy@, city.buildings@, city.bounds(), start.door, *end) == match r {
                Some((path, cost)) => Some((path@, cost as int)),
                None => None,
            },
            r matches Some((path, cost)) ==> STEP_COST * (path@.len() - 1) <= cost <= STEP_COST
                * FREE_CELL_PENALTY * (path@.len() - 1),
            self.grid(city).is_goal(*end, start.door) ==> (r matches Some((path, cost)) && path@
                == seq![start.door] && cost == 0),
    {
        let r = self.search(city, start.door, end);
        proof {
            let road = road_of(r);
            if r is Some {
                lemma_route_cost_bounds(self.grid(city), road);
                if self.grid(city).is_goal(*end, start.door) {
                    lemma_goal_at_start(self.grid(city), start.door, *end, road);
                }
            } else if self.grid(city).is_goal(*end, start.door) {
                assert(self.grid(city).is_route(start.door, *end, seq![start.door]));
            }
        }
        r
    }
}

/// A route of which no cell before the last is a goal, from a start
/// that is a goal, is the start alone and costs nothing.
pub proof fn lemma_goal_at_start(
    grid: Grid,
    start: (i32, i32),
    end: Building,
    path: Seq<(i32, i32)>,
)
    requires
        grid.is_route(start, end, path),
        grid.stops_at_first_goal(end, path),
        grid.is_goal(end, start),
    ensures
        path == seq![start],
        grid.route_cost(path) == 0,
{
    if path.len() > 1 {
        assert(!grid.is_goal(end, path[0]));
    }
    assert(path =~= seq![start]);
}

/// A route costs ten for each step at the least and fifty at the most.
pub proof fn lemma_route_cost_bounds(grid: Grid, path: Seq<(i32, i32)>)
    requires
        grid.bounds.on_grid(),
        path.len() >= 1,
        forall|i: int|
            #![trigger path[i]]
            0 <= i < path.len() - 1 ==> grid.linked(path[i], path[i + 1]),
    ensures
        STEP_COST * (path.len() - 1) <= grid.route_cost(path) <= STEP_COST * FREE_CELL_PENALTY
            * (path.len() - 1),
    decreases path.len(),
{
    if path.len() > 1 {
        let rest = path.drop_last();
        assert forall|i: int| #![trigger rest[i]] 0 <= i < rest.len() - 1 implies grid.linked(
            rest[i],
            rest[i + 1],
        ) by {
            assert(rest[i] == path[i] && rest[i + 1] == path[i + 1]);
        }
        lemma_route_cost_bounds(grid, rest);
        let before = path[path.len() - 2];
        assert(grid.linked(before, path[path.len() - 2 + 1]));
        lemma_linked_is_step(grid, before, path.last());
    }
}

/// From a cell to a cell one step away the estimate of the search
/// changes by less than a step costs.
pub proof fn lemma_heuristic_steady(end: &Building, p: (i32, i32), q: (i32, i32), at_p: int, at_q: int)
    requires
        unit_step(p, q),
        is_floor_sqrt(at_p, 10 * far_corner_distance(end, p)),
        is_floor_sqrt(at_q, 10 * far_corner_distance(end, q)),
    ensures
        at_p - at_q < STEP_COST,
        at_q - at_p < STEP_COST,
{
    let dp = far_corner_distance(end, p);
    let dq = far_corner_distance(end, q);
    assert(dp - dq <= 1 && dq - dp <= 1);
    assert(at_p - at_q < 10 && at_q - at_p < 10) by (nonlinear_arith)
        requires
            0 <= at_p,
            0 <= at_q,
            at_p * at_p <= 10 * dp < (at_p + 1) * (at_p + 1),
            at_q * at_q <= 10 * dq < (at_q + 1) * (at_q + 1),
            dp - dq <= 1,
            dq - dp <= 1,
    ;
}

/// A successor is one step away and within the bounds of the city.
pub proof fn lemma_linked_is_step(grid: Grid, p: (i32, i32), q: (i32, i32))
    requires
        grid.bounds.on_grid(),
        grid.linked(p, q),
    ensures
        unit_step(p, q),
        in_search_bounds(grid.bounds, q.0 as int, q.1 as int),
        grid.step_cost(q) is Some,
{
    let cost = choose|cost: i128| #[trigger]
        grid.successors(p).contains((q, cost));
    let left = grid.step_towards(p, -1, 0);
    let up = grid.step_towards(p, 0, -1);
    let down = grid.step_towards(p, 0, 1);
    let right = grid.step_towards(p, 1, 0);
    let all = grid.successors(p);
    let i = choose|i: int| 0 <= i < all.len() && all[i] == (q, cost);
    if i < left.len() {
        assert(all[i] == left[i]);
    } else if i < left.len() + up.len() {
        assert(all[i] == up[i - left.len()]);
    } else if i < left.len() + up.len() + down.len() {
        assert(all[i] == down[i - left.len() - up.len()]);
    } else {
        assert(all[i] == right[i - left.len() - up.len() - down.len()]);
    }
}

/// A route goes step by step: each of its cells but the first is one step
/// from the cell before it.
pub proof fn lemma_route_connected(
    grid: Grid,
    start: (i32, i32),
    end: Building,
    path: Seq<(i32, i32)>,
)
    requires
        grid.bounds.on_grid(),
        grid.is_route(start, end, path),
    ensures
        crate::layout::connected(path),
        path.len() >= 1,
        path[0] == start,
        forall|i: int|
            1 <= i < path.len() ==> in_search_bounds(grid.bounds, (#[trigger] path[i]).0 as int,
                path[i].1 as int,
            ),
{
    assert forall|i: int| #![trigger path[i]] 0 <= i < path.len() - 1 implies unit_step(
        path[i],
        path[i + 1],
    ) by {
        lemma_linked_is_step(grid, path[i], path[i + 1]);
    }
    assert forall|i: int| 1 <= i < path.len() implies in_search_bounds(grid.bounds, (#[trigger] path[i]).0 as int,
        path[i].1 as int,
    ) by {
        let before = path[i - 1];
        lemma_linked_is_step(grid, before, path[i]);
    }
}

/// The road that comes of what a search returned: its path, or no cells.
pub open spec fn road_of(outcome: Option<(Vec<(i32, i32)>, i128)>) -> Seq<(i32, i32)> {
    match outcome {
        Some((path, _)) => path@,
        None => Seq::empty(),
    }
}

impl CityGenerator {
    /// Take what a search returned: the path becomes a road of the city,
    /// or an empty road where the search found no way, and its cells are
    /// written into the occupancy index, but for the doors.
    pub fn lay_road(&mut self, city: &mut City, outcome: Option<(Vec<(i32, i32)>, i128)>)
        ensures
            final(self).same_bounds(old(self)),
            final(self).occupancy@ == paved(
                old(self).occupancy@,
                old(city).buildings@,
                road_of(outcome),
            ),
            with_road(old(city), final(city), road_of(outcome)),
            plan_of(final(city), final(self).occupancy@) == plan_of(
                old(city),
                old(self).occupancy@,
            ).with_road(road_of(outcome)),
            final(city).buildings == old(city).buildings,
            final(city).important_buildings == old(city).important_buildings,
            roads_within(old(city)) && (forall|j: int|
                0 <= j < road_of(outcome).len() ==> cell_within(old(city), #[trigger] road_of(outcome)[j]))
                ==> roads_within(final(city)),
    {
        let road = match outcome {
            Some((path, _)) => path,
            None => Vec::new(),
        };
        mark_road(&mut self.occupancy, city, &road);
        let ghost before = city.roads@;
        city.roads.push(road);
        proof {
            assert(city.roads@.drop_last() =~= before);
            assert(road_cells(city.roads@) =~= road_cells(before).push(road_of(outcome)));
            if roads_within(old(city)) && (forall|j: int|
                0 <= j < road_of(outcome).len() ==> cell_within(old(city), #[trigger] road_of(outcome)[j])) {
                assert forall|r: int, j: int|
                    0 <= r < city.roads@.len() && 0 <= j < city.roads@[r]@.len() implies cell_within(
                    city,
                    #[trigger] city.roads@[r]@[j],
                ) by {
                    if r < before.len() {
                        assert(city.roads@[r] == before[r]);
                        assert(cell_within(old(city), old(city).roads@[r]@[j]));
                    } else {
                        assert(cell_within(old(city), road_of(outcome)[j]));
                    }
                }
            }
        }
    }
}

} // verus!
