//! The city and the occupancy index of its generator as one value, and
//! what each step of the generator makes of it. Whatever the generator
//! draws, the city that it returns is the plan that these steps make of
//! the buildings that it drew.

use crate::building::Building;
use crate::city::{building_at, extent_of, folded_bounds, road_cells, City, Extent, CITY_BOUNDS_OFFSET};
use crate::growth::spec_nearest;
use crate::layout::{pair_place, paved, stamped};
use crate::occupancy::CellType;
use crate::rescale::{scaled_all, scaled_cells, stretched};
use crate::router::{astar_outcome, Grid};
use crate::sorting::{anchors_of, sorted};
use vstd::prelude::*;

verus! {

/// A city and the occupancy index that goes with it.
#[verifier::ext_equal]
pub ghost struct Plan {
    /// The buildings, in the order in which they were placed
    pub buildings: Seq<Building>,
    /// The top left corners of the important buildings
    pub important: Seq<(i32, i32)>,
    /// The cells of each road, in the order in which the roads were laid
    pub roads: Seq<Seq<(i32, i32)>>,
    /// The bounds of the city
    pub bounds: Extent,
    /// The occupancy index
    pub tags: Map<(i32, i32), CellType>,
}

/// The plan that `city` and `tags` make.
pub open spec fn plan_of(city: &City, tags: Map<(i32, i32), CellType>) -> Plan {
    Plan {
        buildings: city.buildings@,
        important: city.important_buildings@,
        roads: road_cells(city.roads@),
        bounds: city.bounds(),
        tags,
    }
}

/// The index after the footprints of `s` were written into `tags`, one
/// after the other.
pub open spec fn stamped_all(tags: Map<(i32, i32), CellType>, s: Seq<Building>) -> Map<
    (i32, i32),
    CellType,
>
    decreases s.len(),
{
    if s.len() == 0 {
        tags
    } else {
        stamped(stamped_all(tags, s.drop_last()), s.last())
    }
}

/// The index after `roads` were written into `tags`, one after the other,
/// the doors of `s` left free.
pub open spec fn paved_all(
    tags: Map<(i32, i32), CellType>,
    s: Seq<Building>,
    roads: Seq<Seq<(i32, i32)>>,
) -> Map<(i32, i32), CellType>
    decreases roads.len(),
{
    if roads.len() == 0 {
        tags
    } else {
        paved(paved_all(tags, s, roads.drop_last()), s, roads.last())
    }
}

/// The roads of `roads`, each drawn anew at scale `k`.
pub open spec fn stretched_all(roads: Seq<Seq<(i32, i32)>>, k: int) -> Seq<Seq<(i32, i32)>> {
    Seq::new(roads.len(), |r: int| stretched(roads[r], k))
}

impl Plan {
    /// A city without buildings or roads, over an index that holds `tags`.
    pub open spec fn empty(tags: Map<(i32, i32), CellType>) -> Plan {
        Plan {
            buildings: Seq::empty(),
            important: Seq::empty(),
            roads: Seq::empty(),
            bounds: folded_bounds(Seq::empty()),
            tags,
        }
    }

    /// The plan after `b` has joined the buildings: the bounds are widened
    /// to hold it and its footprint is written into the index.
    pub open spec fn settled(self, b: Building) -> Plan {
        Plan {
            buildings: self.buildings.push(b),
            bounds: self.bounds.join(Extent::of(b).widened(CITY_BOUNDS_OFFSET as int)),
            tags: stamped(self.tags, b),
            ..self
        }
    }

    /// The plan after the important building `b` was placed.
    pub open spec fn with_seed(self, b: Building) -> Plan {
        Plan { important: self.important.push(b.anchor()), ..self.settled(b) }
    }

    /// The plan after the important buildings of `s` were placed, one
    /// after the other.
    pub open spec fn with_seeds(self, s: Seq<Building>) -> Plan
        decreases s.len(),
    {
        if s.len() == 0 {
            self
        } else {
            self.with_seeds(s.drop_last()).with_seed(s.last())
        }
    }

    /// The plan after `road` was laid: it has joined the roads and its
    /// cells are written into the index, but for the doors.
    pub open spec fn with_road(self, road: Seq<(i32, i32)>) -> Plan {
        Plan { roads: self.roads.push(road), tags: paved(self.tags, self.buildings, road), ..self }
    }

    /// What a search sees of the plan.
    pub open spec fn grid(self) -> Grid {
        Grid { tags: self.tags, buildings: self.buildings, bounds: self.bounds }
    }

    /// The road that the search gives from the door of `from` towards
    /// `to`, or no cells where it finds no way.
    pub open spec fn road_between(self, from: Building, to: Building) -> Seq<(i32, i32)> {
        match astar_outcome(self.tags, self.buildings, self.bounds, from.door, to) {
            Some((path, _)) => path,
            None => Seq::empty(),
        }
    }

    /// The plan after a road was searched from the building at `from` to
    /// the building at `to` and laid.
    pub open spec fn joined_pair(self, from: (i32, i32), to: (i32, i32)) -> Plan {
        self.with_road(
            self.road_between(building_at(self.buildings, from), building_at(self.buildings, to)),
        )
    }

    /// Whether the road that `joined_pair` lays is a searched road of
    /// the plan: it starts at the door of the building at `from` and stops
    /// at the first cell that is a road or lies in the building at `to`;
    /// or it has no cells, and no route leads there.
    pub open spec fn pair_searched(self, from: (i32, i32), to: (i32, i32)) -> bool {
        self.grid().is_searched_road(
            building_at(self.buildings, from).door,
            building_at(self.buildings, to),
            self.road_between(building_at(self.buildings, from), building_at(self.buildings, to)),
        )
    }

    /// Whether each road that `joined_row` lays is a searched road of the
    /// plan into which it is laid.
    pub open spec fn row_searched(self, order: Seq<(i32, i32)>, i: int, j: int) -> bool
        decreases j,
    {
        if j <= 0 {
            true
        } else if i == j - 1 {
            self.row_searched(order, i, j - 1)
        } else {
            self.row_searched(order, i, j - 1) && self.joined_row(order, i, j - 1).pair_searched(
                order[i],
                order[j - 1],
            )
        }
    }

    /// Whether each road that `joined_rows` lays is a searched road of
    /// the plan into which it is laid.
    pub open spec fn rows_searched(self, order: Seq<(i32, i32)>, i: int) -> bool
        decreases i,
    {
        if i <= 0 {
            true
        } else {
            self.rows_searched(order, i - 1) && self.joined_rows(order, i - 1).row_searched(
                order,
                i - 1,
                order.len() as int,
            )
        }
    }

    /// Whether each road that `joined` lays is a searched road of the
    /// plan into which it is laid: a road from the door of the first
    /// building of its pair to the first cell that is a road or lies in
    /// the second.
    pub open spec fn joins_searched(self) -> bool {
        self.rows_searched(sorted(anchors_of(self.buildings)), self.buildings.len() as int)
    }

    /// The important building that lies nearest to `b`.
    pub open spec fn nearest_to(self, b: Building) -> Building {
        self.buildings[spec_nearest(self.important, b.anchor())]
    }

    /// Whether the road that `with_growth` lays for `b` is a searched
    /// road of the plan that holds `b`: it starts at the door of `b` and
    /// stops at the first cell that is a road or lies in the nearest
    /// important building; or it has no cells, and no route leads there.
    pub open spec fn growth_searched(self, b: Building) -> bool {
        let settled = self.settled(b);
        settled.grid().is_searched_road(
            b.door,
            settled.nearest_to(b),
            settled.road_between(b, settled.nearest_to(b)),
        )
    }

    /// Whether each road that `with_growths` lays is a searched road of
    /// the plan into which it is laid.
    pub open spec fn growths_searched(self, s: Seq<Building>) -> bool
        decreases s.len(),
    {
        if s.len() == 0 {
            true
        } else {
            self.growths_searched(s.drop_last()) && self.with_growths(s.drop_last()).growth_searched(
                s.last(),
            )
        }
    }

    /// The plan after roads were searched and laid from the building at
    /// `order[i]` to those at the first `j` corners of `order`, itself
    /// left out.
    pub open spec fn joined_row(self, order: Seq<(i32, i32)>, i: int, j: int) -> Plan
        decreases j,
    {
        if j <= 0 {
            self
        } else if i == j - 1 {
            self.joined_row(order, i, j - 1)
        } else {
            self.joined_row(order, i, j - 1).joined_pair(order[i], order[j - 1])
        }
    }

    /// The plan after roads were searched and laid from each of the
    /// buildings at the first `i` corners of `order` to each other
    /// building of `order`.
    pub open spec fn joined_rows(self, order: Seq<(i32, i32)>, i: int) -> Plan
        decreases i,
    {
        if i <= 0 {
            self
        } else {
            self.joined_rows(order, i - 1).joined_row(order, i - 1, order.len() as int)
        }
    }

    /// The plan after each building was joined to each other by a road,
    /// the buildings taken in the order of their corners.
    pub open spec fn joined(self) -> Plan {
        self.joined_rows(sorted(anchors_of(self.buildings)), self.buildings.len() as int)
    }

    /// The plan brought to scale `k`: the buildings, their list and the
    /// bounds multiplied, the roads drawn anew, and the index written
    /// afresh from the buildings and the roads.
    pub open spec fn at_scale(self, k: i32) -> Plan {
        let buildings = scaled_all(self.buildings, k);
        let roads = stretched_all(self.roads, k as int);
        Plan {
            buildings,
            important: scaled_cells(self.important, k),
            roads,
            bounds: Extent {
                left: self.bounds.left * k,
                top: self.bounds.top * k,
                right: self.bounds.right * k,
                bottom: self.bounds.bottom * k,
            },
            tags: paved_all(stamped_all(Map::empty(), buildings), buildings, roads),
        }
    }

    /// The plan after the first phase placed the important buildings of
    /// `draft`, joined them, and brought the whole to scale `k` where
    /// that is above one.
    pub open spec fn seeded(self, draft: Seq<Building>, k: i32) -> Plan {
        let joined = self.with_seeds(draft).joined();
        if k > 1 {
            joined.at_scale(k)
        } else {
            joined
        }
    }

    /// The plan after the ordinary building `b` was placed and joined by
    /// a road to the nearest important building.
    pub open spec fn with_growth(self, b: Building) -> Plan {
        let settled = self.settled(b);
        settled.with_road(settled.road_between(b, settled.nearest_to(b)))
    }

    /// The plan after the ordinary buildings of `s` were placed, one
    /// after the other.
    pub open spec fn with_growths(self, s: Seq<Building>) -> Plan
        decreases s.len(),
    {
        if s.len() == 0 {
            self
        } else {
            self.with_growths(s.drop_last()).with_growth(s.last())
        }
    }

    /// The plan with its bounds computed afresh: the smallest rectangle
    /// that holds every footprint, widened by the margin.
    pub open spec fn with_fresh_bounds(self) -> Plan {
        Plan { bounds: extent_of(self.buildings).widened(CITY_BOUNDS_OFFSET as int), ..self }
    }
}

/// Laying roads between the buildings changes neither the buildings nor
/// the bounds.
pub proof fn lemma_joined_keeps(plan: Plan, order: Seq<(i32, i32)>, i: int, j: int)
    ensures
        plan.joined_row(order, i, j).buildings == plan.buildings,
        plan.joined_row(order, i, j).bounds == plan.bounds,
        plan.joined_row(order, i, j).important == plan.important,
        plan.joined_rows(order, i).buildings == plan.buildings,
        plan.joined_rows(order, i).bounds == plan.bounds,
        plan.joined_rows(order, i).important == plan.important,
    decreases i, j,
{
    if j > 0 {
        lemma_joined_keeps(plan, order, i, j - 1);
    }
    if i > 0 {
        lemma_joined_keeps(plan, order, i - 1, 0);
        lemma_joined_row_keeps(plan.joined_rows(order, i - 1), order, i - 1, order.len() as int);
    }
}

/// Laying the roads of one row changes neither the buildings nor the
/// bounds.
pub proof fn lemma_joined_row_keeps(plan: Plan, order: Seq<(i32, i32)>, i: int, j: int)
    ensures
        plan.joined_row(order, i, j).buildings == plan.buildings,
        plan.joined_row(order, i, j).bounds == plan.bounds,
        plan.joined_row(order, i, j).important == plan.important,
    decreases j,
{
    if j > 0 {
        lemma_joined_row_keeps(plan, order, i, j - 1);
    }
}

/// Whether `later` has the roads of `earlier`, each at its place, and
/// maybe more after them.
pub open spec fn roads_kept(earlier: Plan, later: Plan) -> bool {
    &&& earlier.roads.len() <= later.roads.len()
    &&& forall|r: int| 0 <= r < earlier.roads.len() ==> later.roads[r] == #[trigger] earlier.roads[r]
}

/// How many of the first `j` buildings of a row get a road from the
/// building at place `i`: each but itself.
pub open spec fn others_before(i: int, j: int) -> int {
    if j > i {
        j - 1
    } else {
        j
    }
}

/// A row that is laid further keeps the roads that it had, each road of
/// it was searched if those of the longer row were, and it has a road
/// more for each building that it came by.
pub proof fn lemma_row_grows(plan: Plan, order: Seq<(i32, i32)>, i: int, j: int, to: int)
    requires
        0 <= i,
        0 <= j <= to,
    ensures
        roads_kept(plan.joined_row(order, i, j), plan.joined_row(order, i, to)),
        plan.joined_row(order, i, j).roads.len() == plan.roads.len() + others_before(i, j),
        plan.row_searched(order, i, to) ==> plan.row_searched(order, i, j),
    decreases to, j,
{
    if j > 0 {
        lemma_row_grows(plan, order, i, j - 1, j - 1);
    }
    if to > j {
        lemma_row_grows(plan, order, i, j, to - 1);
    }
}

/// Rows that are laid further keep the roads that there were, each road
/// of them was searched if those of the longer run were, and each row
/// brings a road for each building but one.
pub proof fn lemma_rows_grow(plan: Plan, order: Seq<(i32, i32)>, i: int, to: int)
    requires
        0 <= i <= to <= order.len(),
    ensures
        roads_kept(plan.joined_rows(order, i), plan.joined_rows(order, to)),
        plan.joined_rows(order, i).roads.len() == plan.roads.len() + pair_place(order.len() as int, i, 0),
        plan.rows_searched(order, to) ==> plan.rows_searched(order, i),
    decreases to, i,
{
    let n = order.len() as int;
    if i > 0 {
        lemma_rows_grow(plan, order, i - 1, i - 1);
        lemma_row_grows(plan.joined_rows(order, i - 1), order, i - 1, n, n);
        assert((i - 1) * (n - 1) + (n - 1) == i * (n - 1)) by (nonlinear_arith);
    }
    if to > i {
        lemma_rows_grow(plan, order, i, to - 1);
        lemma_row_grows(plan.joined_rows(order, to - 1), order, to - 1, 0, n);
    }
}

/// Where each road between the buildings of a plan was searched, the
/// road from the building at place `i`, in the order of the corners, to
/// the building at place `j` stands at its place among the roads, and
/// it is a searched road of the plan as it was when the road was laid:
/// it leads from the door of the first building to the first cell that
/// was a road or lies in the second.
pub proof fn lemma_join_road(plan: Plan, i: int, j: int)
    requires
        plan.joins_searched(),
        0 <= i < plan.buildings.len(),
        0 <= j < plan.buildings.len(),
        i != j,
    ensures
        ({
            let order = sorted(anchors_of(plan.buildings));
            let n = plan.buildings.len() as int;
            let then = plan.joined_rows(order, i).joined_row(order, i, j);
            let at = plan.roads.len() + pair_place(n, i, others_before(i, j));
            &&& then.pair_searched(order[i], order[j])
            &&& then.buildings == plan.buildings
            &&& at < plan.joined().roads.len()
            &&& plan.joined().roads[at] == then.road_between(
                building_at(plan.buildings, order[i]),
                building_at(plan.buildings, order[j]),
            )
        }),
{
    let order = sorted(anchors_of(plan.buildings));
    let n = plan.buildings.len() as int;
    crate::sorting::lemma_sorted(anchors_of(plan.buildings));
    assert(order.len() == n);
    let row = plan.joined_rows(order, i);
    let then = row.joined_row(order, i, j);
    let after = row.joined_row(order, i, j + 1);
    lemma_joined_keeps(plan, order, i, 0);
    lemma_joined_row_keeps(row, order, i, j);
    lemma_rows_grow(plan, order, i, i);
    lemma_rows_grow(plan, order, i + 1, n);
    lemma_row_grows(row, order, i, j, j);
    lemma_row_grows(row, order, i, j + 1, n);
    assert(after.roads.last() == then.road_between(
        building_at(plan.buildings, order[i]),
        building_at(plan.buildings, order[j]),
    ));
    let at = plan.roads.len() + pair_place(n, i, others_before(i, j));
    assert(at == after.roads.len() - 1);
    assert(plan.joined_rows(order, i + 1) == row.joined_row(order, i, n));
    assert(row.joined_row(order, i, n).roads[at] == after.roads[at]);
    assert(plan.joined().roads[at] == plan.joined_rows(order, i + 1).roads[at]);
}

/// Buildings that grow one after the other keep the roads that there
/// were, and each brings one road.
pub proof fn lemma_growths_grow(plan: Plan, s: Seq<Building>, i: int)
    requires
        0 <= i <= s.len(),
    ensures
        roads_kept(plan.with_growths(s.take(i)), plan.with_growths(s)),
        plan.with_growths(s).roads.len() == plan.roads.len() + s.len(),
        plan.growths_searched(s) ==> plan.growths_searched(s.take(i)),
    decreases s.len(),
{
    if s.len() > 0 {
        if i == s.len() {
            assert(s.take(i) =~= s);
            lemma_growths_grow(plan, s.drop_last(), 0);
        } else {
            lemma_growths_grow(plan, s.drop_last(), i);
            assert(s.drop_last().take(i) =~= s.take(i));
        }
    } else {
        assert(s.take(i) =~= s);
    }
}

/// Whether each cell that `plan` has tagged as road lies on one of its
/// roads, or was tagged as road in `tags` already.
pub open spec fn roads_known(plan: Plan, tags: Map<(i32, i32), CellType>) -> bool {
    forall|c: (i32, i32)|
        #![trigger plan.tags[c]]
        plan.tags.contains_key(c) && plan.tags[c] == CellType::Road ==> (tags.contains_key(c) && tags[c]
            == CellType::Road) || on_roads(plan.roads, c)
}

/// Whether `c` is a cell of one of `roads`.
pub open spec fn on_roads(roads: Seq<Seq<(i32, i32)>>, c: (i32, i32)) -> bool {
    exists|r: int| 0 <= r < roads.len() && (#[trigger] roads[r]).contains(c)
}

/// A cell of a road is a cell of the roads after one more was laid.
pub proof fn lemma_on_roads_stays(roads: Seq<Seq<(i32, i32)>>, road: Seq<(i32, i32)>, c: (i32, i32))
    requires
        on_roads(roads, c) || road.contains(c),
    ensures
        on_roads(roads.push(road), c),
{
    if on_roads(roads, c) {
        let r = choose|r: int| 0 <= r < roads.len() && (#[trigger] roads[r]).contains(c);
        assert(roads.push(road)[r] == roads[r]);
    } else {
        assert(roads.push(road)[roads.len() as int] == road);
    }
}

/// Laying a road tags no cell as road that is not on a road.
pub proof fn lemma_road_known(plan: Plan, tags: Map<(i32, i32), CellType>, road: Seq<(i32, i32)>)
    requires
        roads_known(plan, tags),
    ensures
        roads_known(plan.with_road(road), tags),
{
    let after = plan.with_road(road);
    assert forall|c: (i32, i32)|
        #![trigger after.tags[c]]
        after.tags.contains_key(c) && after.tags[c] == CellType::Road implies (tags.contains_key(c)
            && tags[c] == CellType::Road) || on_roads(after.roads, c) by {
        if road.contains(c) {
            lemma_on_roads_stays(plan.roads, road, c);
        } else {
            assert(plan.tags[c] == CellType::Road);
            if on_roads(plan.roads, c) {
                lemma_on_roads_stays(plan.roads, road, c);
            }
        }
    }
}

/// Putting a building down tags no cell as road.
pub proof fn lemma_settled_known(plan: Plan, tags: Map<(i32, i32), CellType>, b: Building)
    requires
        roads_known(plan, tags),
    ensures
        roads_known(plan.settled(b), tags),
        roads_known(plan.with_seed(b), tags),
{
    let after = plan.settled(b);
    assert forall|c: (i32, i32)|
        #![trigger after.tags[c]]
        after.tags.contains_key(c) && after.tags[c] == CellType::Road implies (tags.contains_key(c)
            && tags[c] == CellType::Road) || on_roads(after.roads, c) by {
        assert(plan.tags[c] == CellType::Road);
    }
    assert(plan.with_seed(b).tags == after.tags);
}

/// Placing important buildings tags no cell as road.
pub proof fn lemma_seeds_known(plan: Plan, tags: Map<(i32, i32), CellType>, s: Seq<Building>)
    requires
        roads_known(plan, tags),
    ensures
        roads_known(plan.with_seeds(s), tags),
    decreases s.len(),
{
    if s.len() > 0 {
        lemma_seeds_known(plan, tags, s.drop_last());
        lemma_settled_known(plan.with_seeds(s.drop_last()), tags, s.last());
    }
}

/// Joining a building to others tags no cell as road that is not on a
/// road.
pub proof fn lemma_row_known(
    plan: Plan,
    tags: Map<(i32, i32), CellType>,
    order: Seq<(i32, i32)>,
    i: int,
    j: int,
)
    requires
        roads_known(plan, tags),
    ensures
        roads_known(plan.joined_row(order, i, j), tags),
    decreases j,
{
    if j > 0 {
        lemma_row_known(plan, tags, order, i, j - 1);
        if i != j - 1 {
            let row = plan.joined_row(order, i, j - 1);
            lemma_road_known(
                row,
                tags,
                row.road_between(
                    building_at(row.buildings, order[i]),
                    building_at(row.buildings, order[j - 1]),
                ),
            );
        }
    }
}

/// Joining the buildings tags no cell as road that is not on a road.
pub proof fn lemma_rows_known(plan: Plan, tags: Map<(i32, i32), CellType>, order: Seq<(i32, i32)>, i: int)
    requires
        roads_known(plan, tags),
    ensures
        roads_known(plan.joined_rows(order, i), tags),
    decreases i,
{
    if i > 0 {
        lemma_rows_known(plan, tags, order, i - 1);
        lemma_row_known(plan.joined_rows(order, i - 1), tags, order, i - 1, order.len() as int);
    }
}

/// Growing buildings tags no cell as road that is not on a road.
pub proof fn lemma_growths_known(plan: Plan, tags: Map<(i32, i32), CellType>, s: Seq<Building>)
    requires
        roads_known(plan, tags),
    ensures
        roads_known(plan.with_growths(s), tags),
    decreases s.len(),
{
    if s.len() > 0 {
        lemma_growths_known(plan, tags, s.drop_last());
        let settled = plan.with_growths(s.drop_last()).settled(s.last());
        lemma_settled_known(plan.with_growths(s.drop_last()), tags, s.last());
        lemma_road_known(settled, tags, settled.road_between(s.last(), settled.nearest_to(s.last())));
    }
}

/// An index that is written afresh from buildings and roads has no cell
/// tagged as road that is not on one of the roads.
pub proof fn lemma_fresh_known(s: Seq<Building>, roads: Seq<Seq<(i32, i32)>>, c: (i32, i32))
    requires
        paved_all(stamped_all(Map::empty(), s), s, roads).contains_key(c),
        paved_all(stamped_all(Map::empty(), s), s, roads)[c] == CellType::Road,
    ensures
        on_roads(roads, c),
    decreases roads.len(),
{
    if roads.len() == 0 {
        lemma_stamped_all_buildings(s, c);
    } else if roads.last().contains(c) {
        assert(roads[roads.len() - 1] == roads.last());
    } else {
        lemma_fresh_known(s, roads.drop_last(), c);
        lemma_on_roads_stays(roads.drop_last(), roads.last(), c);
        assert(roads.drop_last().push(roads.last()) =~= roads);
    }
}

/// An index into which only footprints were written holds no road.
pub proof fn lemma_stamped_all_buildings(s: Seq<Building>, c: (i32, i32))
    requires
        stamped_all(Map::empty(), s).contains_key(c),
    ensures
        stamped_all(Map::empty(), s)[c] == CellType::Building,
    decreases s.len(),
{
    if s.len() > 0 {
        if !s.last().spec_contains(c) {
            lemma_stamped_all_buildings(s.drop_last(), c);
        }
    }
}

/// Whatever the first phase and the growth of `grown` after it tag as
/// road lies on a road of the plan, or was tagged as road before.
pub proof fn lemma_roads_known(
    tags: Map<(i32, i32), CellType>,
    draft: Seq<Building>,
    k: i32,
    grown: Seq<Building>,
)
    ensures
        roads_known(Plan::empty(tags).with_seeds(draft), tags),
        roads_known(Plan::empty(tags).with_seeds(draft).joined(), tags),
        roads_known(Plan::empty(tags).seeded(draft, k), tags),
        roads_known(Plan::empty(tags).seeded(draft, k).with_growths(grown), tags),
{
    let placed = Plan::empty(tags).with_seeds(draft);
    lemma_seeds_known(Plan::empty(tags), tags, draft);
    lemma_rows_known(placed, tags, sorted(anchors_of(placed.buildings)), placed.buildings.len() as int);
    let seeded = Plan::empty(tags).seeded(draft, k);
    if k > 1 {
        assert forall|c: (i32, i32)|
            #![trigger seeded.tags[c]]
            seeded.tags.contains_key(c) && seeded.tags[c] == CellType::Road implies on_roads(
            seeded.roads,
            c,
        ) by {
            lemma_fresh_known(seeded.buildings, seeded.roads, c);
        }
    }
    lemma_growths_known(seeded, tags, grown);
}

/// Buildings that grow join the buildings in their order, and leave the
/// list of the important buildings as it was.
pub proof fn lemma_growths_are_buildings(plan: Plan, s: Seq<Building>)
    ensures
        plan.with_growths(s).buildings == plan.buildings + s,
        plan.with_growths(s).important == plan.important,
    decreases s.len(),
{
    if s.len() > 0 {
        lemma_growths_are_buildings(plan, s.drop_last());
        assert(plan.buildings + s =~= (plan.buildings + s.drop_last()).push(s.last()));
    } else {
        assert(plan.buildings + s =~= plan.buildings);
    }
}

/// The first phase leaves a road for each important building and each
/// other.
pub proof fn lemma_seeded_roads(tags: Map<(i32, i32), CellType>, draft: Seq<Building>, k: i32)
    ensures
        Plan::empty(tags).seeded(draft, k).roads.len() == draft.len() * (draft.len() - 1),
{
    let placed = Plan::empty(tags).with_seeds(draft);
    lemma_seeds_are_buildings(Plan::empty(tags), draft);
    assert(placed.buildings =~= draft);
    lemma_seeds_bring_no_roads(Plan::empty(tags), draft);
    let order = sorted(anchors_of(placed.buildings));
    crate::sorting::lemma_sorted(anchors_of(placed.buildings));
    lemma_rows_grow(placed, order, order.len() as int, order.len() as int);
}

/// Where each road between the important buildings of `draft` was
/// searched, the road from the building at place `i`, in the order of
/// the corners, to the building at place `j` was a searched road of
/// the plan as it was then, `then`, before anything was brought to
/// scale: `road` leads from the door of the first building to the first
/// cell that was a road or lies in the second. The first phase leaves
/// it at its place among the roads, drawn anew where the scale is above
/// one.
pub proof fn lemma_seeded_road(
    tags: Map<(i32, i32), CellType>,
    draft: Seq<Building>,
    k: i32,
    i: int,
    j: int,
) -> (found: (Plan, Seq<(i32, i32)>))
    requires
        Plan::empty(tags).with_seeds(draft).joins_searched(),
        0 <= i < draft.len(),
        0 <= j < draft.len(),
        i != j,
    ensures
        ({
            let (then, road) = found;
            let order = sorted(anchors_of(draft));
            let at = pair_place(draft.len() as int, i, others_before(i, j));
            let roads = Plan::empty(tags).seeded(draft, k).roads;
            &&& then.buildings == draft
            &&& roads_known(then, tags)
            &&& then.grid().is_searched_road(
                building_at(draft, order[i]).door,
                building_at(draft, order[j]),
                road,
            )
            &&& 0 <= at < roads.len()
            &&& roads[at] == if k > 1 {
                stretched(road, k as int)
            } else {
                road
            }
        }),
{
    let placed = Plan::empty(tags).with_seeds(draft);
    lemma_seeds_are_buildings(Plan::empty(tags), draft);
    assert(placed.buildings =~= draft);
    lemma_seeds_bring_no_roads(Plan::empty(tags), draft);
    lemma_seeded_roads(tags, draft, k);
    lemma_join_road(placed, i, j);
    let order = sorted(anchors_of(draft));
    let then = placed.joined_rows(order, i).joined_row(order, i, j);
    let road = then.road_between(building_at(draft, order[i]), building_at(draft, order[j]));
    lemma_seeds_known(Plan::empty(tags), tags, draft);
    lemma_rows_known(placed, tags, order, i);
    lemma_row_known(placed.joined_rows(order, i), tags, order, i, j);
    assert(0 <= pair_place(draft.len() as int, i, others_before(i, j))) by (nonlinear_arith)
        requires
            0 <= i,
            0 <= others_before(i, j),
            draft.len() >= 1,
    ;
    (then, road)
}

/// Placing important buildings lays no road.
pub proof fn lemma_seeds_bring_no_roads(plan: Plan, s: Seq<Building>)
    ensures
        plan.with_seeds(s).roads == plan.roads,
    decreases s.len(),
{
    if s.len() > 0 {
        lemma_seeds_bring_no_roads(plan, s.drop_last());
    }
}

/// Where the road of each building that grew was searched, the road of
/// the `i`-th of them stands at its place among the roads, and it is a
/// searched road of the plan as it was when the building had been put
/// down: it leads from the door of the building to the first cell that
/// was a road or lies in the important building nearest to it.
pub proof fn lemma_growth_road(plan: Plan, s: Seq<Building>, i: int)
    requires
        plan.growths_searched(s),
        0 <= i < s.len(),
    ensures
        ({
            let then = plan.with_growths(s.take(i)).settled(s[i]);
            &&& plan.with_growths(s.take(i)).growth_searched(s[i])
            &&& plan.roads.len() + i < plan.with_growths(s).roads.len()
            &&& plan.with_growths(s).roads[plan.roads.len() + i] == then.road_between(
                s[i],
                then.nearest_to(s[i]),
            )
        }),
{
    let upto = s.take(i + 1);
    lemma_growths_grow(plan, s, i + 1);
    lemma_growths_grow(plan, upto, i);
    assert(upto.drop_last() =~= s.take(i));
    assert(upto.take(i) =~= s.take(i));
    assert(upto.last() == s[i]);
    let after = plan.with_growths(upto);
    assert(after.roads.len() == plan.roads.len() + i + 1);
    assert(after.roads.last() == after.roads[plan.roads.len() + i]);
}

/// Placing important buildings adds them to the buildings in their order.
pub proof fn lemma_seeds_are_buildings(plan: Plan, s: Seq<Building>)
    ensures
        plan.with_seeds(s).buildings == plan.buildings + s,
    decreases s.len(),
{
    if s.len() > 0 {
        lemma_seeds_are_buildings(plan, s.drop_last());
        assert(plan.buildings + s =~= (plan.buildings + s.drop_last()).push(s.last()));
    } else {
        assert(plan.buildings + s =~= plan.buildings);
    }
}

/// The first phase at scale `k` gives the buildings that the same draft
/// gives at scale one, each with its corner, its size and its door
/// multiplied by `k`.
pub proof fn lemma_scale_multiplies(tags: Map<(i32, i32), CellType>, draft: Seq<Building>, k: i32)
    requires
        k >= 1,
    ensures
        Plan::empty(tags).seeded(draft, k).buildings == scaled_all(
            Plan::empty(tags).seeded(draft, 1).buildings,
            k,
        ),
        Plan::empty(tags).seeded(draft, 1).buildings == draft,
{
    let placed = Plan::empty(tags).with_seeds(draft);
    lemma_seeds_are_buildings(Plan::empty(tags), draft);
    assert(placed.buildings =~= draft);
    lemma_joined_keeps(placed, sorted(anchors_of(placed.buildings)), placed.buildings.len() as int, 0);
    if k == 1 {
        assert(scaled_all(draft, 1) =~= draft) by {
            assert forall|i: int| 0 <= i < draft.len() implies #[trigger] draft[i].spec_scaled(1)
                == draft[i] by {}
        }
    }
}

} // verus!
