//! The generator: places the important buildings, joins them by roads,
//! brings them to scale, then grows the ordinary buildings round them.

use crate::building::Building;
use crate::city::{
    building_at, extent_of, lemma_extent_holds_each, road_cells, City, Extent, CITY_BOUNDS_OFFSET,
};
use crate::growth::spec_nearest;
use crate::layout::{
    laid_out, lemma_bounds_renewed, lemma_laid_out_buildings, lemma_spread, pair_place, spread,
    well_spaced, within,
};
use crate::occupancy::OccupancyIndex;
use crate::plan::{
    lemma_growth_road, lemma_growths_are_buildings, lemma_growths_grow, lemma_scale_multiplies,
    lemma_roads_known, lemma_seeded_road, lemma_seeded_roads, lemma_settled_known, others_before,
    plan_of, roads_known, Plan,
};
use crate::random::seeded;
use crate::rescale::{scaled_all, stretched};
use crate::sorting::{anchors_of, sorted};
use rand_chacha::ChaCha8Rng;
use std::ops::Range;
use vstd::prelude::*;

verus! {

/// How often a building is sampled anew before the generator gives up on it.
pub const DEFAULT_MAX_ATTEMPTS: usize = 1_000_000;

/// Random city generator
pub struct CityGenerator {
    /// The stream that every draw is taken from
    pub rng: ChaCha8Rng,
    /// Lets us know if a point is not free
    pub occupancy: OccupancyIndex,
    /// Min and max width of the buildings
    pub width_bound: Range<i32>,
    /// Min and max height of the buildings
    pub height_bound: Range<i32>,
    /// Min and max distance between buildings
    pub distance_bound: Range<i32>,
    /// Max distance between important buildings
    pub important_buildings_max_distance: i32,
    /// How often one building is sampled anew before the generator gives up
    pub max_attempts: usize,
}

/// Why the generator stopped before the city was whole.
#[derive(Clone, Copy, Debug, PartialEq, Eq)]
pub enum GenerationError {
    /// A building was sampled `max_attempts` times and never fitted.
    PlacementExhausted,
}

/// What follows a sample of a building that is to be placed.
#[derive(Clone, Copy, Debug, PartialEq, Eq)]
pub enum Verdict {
    /// The sample fits: it is placed, and the misses are forgotten.
    Placed,
    /// The sample does not fit, and another may be drawn.
    Retry,
    /// The sample does not fit, and it was the last that may be drawn.
    GiveUp,
}

/// What follows a sample that came after `misses` samples that did not
/// fit, where `max_attempts` samples may be drawn for one building: a
/// sample that fits is placed; one that does not is one miss more, and
/// with the miss that fills `max_attempts` the generator gives up.
pub open spec fn spec_after_attempt(misses: usize, max_attempts: usize, fits: bool) -> Verdict {
    if fits {
        Verdict::Placed
    } else if misses + 1 >= max_attempts {
        Verdict::GiveUp
    } else {
        Verdict::Retry
    }
}

/// What follows a sample that came after `misses` samples that did not
/// fit: place it, draw another, or give up.
pub fn after_attempt(misses: usize, max_attempts: usize, fits: bool) -> (r: Verdict)
    ensures
        r == spec_after_attempt(misses, max_attempts, fits),
{
    if fits {
        Verdict::Placed
    } else if misses >= max_attempts || max_attempts - misses <= 1 {
        Verdict::GiveUp
    } else {
        Verdict::Retry
    }
}

impl CityGenerator {
    /// A generator whose draws start from `seed`, with nothing placed yet.
    #[must_use]
    pub fn new(
        seed: u64,
        width_bound: Range<i32>,
        height_bound: Range<i32>,
        distance_bound: Range<i32>,
        important_buildings_max_distance: i32,
    ) -> (r: Self)
        ensures
            r.occupancy@ == Map::<(i32, i32), crate::occupancy::CellType>::empty(),
            r.width_bound == width_bound,
            r.height_bound == height_bound,
            r.distance_bound == distance_bound,
            r.important_buildings_max_distance == important_buildings_max_distance,
            r.max_attempts == DEFAULT_MAX_ATTEMPTS,
    {
        CityGenerator {
            rng: seeded(seed),
            occupancy: OccupancyIndex::new(),
            width_bound,
            height_bound,
            distance_bound,
            important_buildings_max_distance,
            max_attempts: DEFAULT_MAX_ATTEMPTS,
        }
    }

    /// Whether `other` has the same bounds, the same limits and the same
    /// occupancy index: all but the state of the random stream.
    pub open spec fn same_setup(&self, other: &CityGenerator) -> bool {
        &&& self.occupancy@ == other.occupancy@
        &&& self.same_bounds(other)
    }

    /// Whether `other` has the same bounds and the same limits.
    pub open spec fn same_bounds(&self, other: &CityGenerator) -> bool {
        &&& self.width_bound == other.width_bound
        &&& self.height_bound == other.height_bound
        &&& self.distance_bound == other.distance_bound
        &&& self.important_buildings_max_distance == other.important_buildings_max_distance
        &&& self.max_attempts == other.max_attempts
    }

    /// The larger of the two ends of the bounds on size.
    pub open spec fn size_end(&self) -> int {
        if self.width_bound.end > self.height_bound.end {
            self.width_bound.end as int
        } else {
            self.height_bound.end as int
        }
    }

    /// Half the side of the window in which important buildings are
    /// sampled, before they are brought to scale.
    pub open spec fn window_half(&self, scale: i32) -> int {
        self.important_buildings_max_distance as int / (2 * scale)
    }

    /// How far from the origin an important building can reach, once it is
    /// brought to scale.
    pub open spec fn seed_reach(&self, scale: i32) -> int {
        self.important_buildings_max_distance as int / 2 + self.size_end()
    }

    /// What the important buildings ask of the bounds and of the scale:
    /// sizes from ranges that are not empty, none so small that the scale
    /// shrinks it to nothing; a window that is not empty; and coordinates
    /// that the machine can hold, the margin of the bounds included.
    pub open spec fn seeds_ok(&self, scale: i32) -> bool {
        &&& scale >= 1
        &&& scale <= self.width_bound.start < self.width_bound.end
        &&& scale <= self.height_bound.start < self.height_bound.end
        &&& self.important_buildings_max_distance >= 2 * scale
        &&& self.seed_reach(scale) + CITY_BOUNDS_OFFSET * scale <= i32::MAX
    }

    /// The larger of the two ends of the bound on distance, as a distance.
    pub open spec fn distance_end(&self) -> int {
        let from = if self.distance_bound.start < 0 {
            -self.distance_bound.start
        } else {
            self.distance_bound.start as int
        };
        let to = if self.distance_bound.end < 0 {
            -self.distance_bound.end
        } else {
            self.distance_bound.end as int
        };
        if from > to { from } else { to }
    }

    /// How much farther from the origin the city can reach with each
    /// ordinary building: as far as it spawns from its anchor, and its size.
    pub open spec fn stride(&self) -> int {
        self.size_end() + self.distance_end()
    }

    /// What the ordinary buildings ask of the bounds: sizes of at least
    /// one, from ranges that are not empty, and a bound on distance that
    /// ends no lower than it starts.
    pub open spec fn growth_ok(&self) -> bool {
        &&& 1 <= self.width_bound.start < self.width_bound.end
        &&& 1 <= self.height_bound.start < self.height_bound.end
        &&& self.distance_bound.start <= self.distance_bound.end
    }

    /// Whether `generate` can be asked for this many buildings at this
    /// scale: at least one important building; bounds that both phases can
    /// sample from; and a city that, however the draws fall, stays within
    /// the coordinates that the machine can hold.
    pub open spec fn spec_can_generate(
        &self,
        normal_buildings: usize,
        important_buildings: usize,
        important_building_scale: i32,
    ) -> bool {
        &&& important_buildings >= 1
        &&& self.seeds_ok(important_building_scale)
        &&& normal_buildings > 0 ==> self.growth_ok() && self.seed_reach(important_building_scale)
            + normal_buildings * self.stride() + CITY_BOUNDS_OFFSET <= i32::MAX
    }

    /// Whether `generate` can be asked for this many buildings at this scale.
    #[verifier::when_used_as_spec(spec_can_generate)]
    pub fn can_generate(
        &self,
        normal_buildings: usize,
        important_buildings: usize,
        important_building_scale: i32,
    ) -> (r: bool)
        ensures
            r == self.spec_can_generate(normal_buildings, important_buildings, important_building_scale),
    {
        let scale = important_building_scale as i128;
        let distance = self.important_buildings_max_distance as i128;
        let size_end = if self.width_bound.end > self.height_bound.end {
            self.width_bound.end as i128
        } else {
            self.height_bound.end as i128
        };
        if important_buildings < 1 || scale < 1 || (self.width_bound.start as i128) < scale
            || self.width_bound.start >= self.width_bound.end || (self.height_bound.start as i128)
            < scale || self.height_bound.start >= self.height_bound.end || distance < 2 * scale {
            return false;
        }
        let margin = CITY_BOUNDS_OFFSET as i128;
        let seed_reach = distance / 2 + size_end;
        assert(margin * scale == 20 * scale);
        if seed_reach + margin * scale > i32::MAX as i128 {
            return false;
        }
        if normal_buildings == 0 {
            return true;
        }
        if self.width_bound.start < 1 || self.height_bound.start < 1 || self.distance_bound.start
            > self.distance_bound.end {
            return false;
        }
        let from = if self.distance_bound.start < 0 {
            -(self.distance_bound.start as i128)
        } else {
            self.distance_bound.start as i128
        };
        let to = if self.distance_bound.end < 0 {
            -(self.distance_bound.end as i128)
        } else {
            self.distance_bound.end as i128
        };
        let stride = size_end + (if from > to { from } else { to });
        proof {
            let (n, s) = (normal_buildings as int, stride as int);
            assert(0 <= n * s <= 0xffff_ffff_ffff_ffff * 0x1_0000_0000) by (nonlinear_arith)
                requires
                    0 <= n <= 0xffff_ffff_ffff_ffff,
                    0 <= s <= 0x1_0000_0000,
            ;
        }
        seed_reach + normal_buildings as i128 * stride + margin <= i32::MAX as i128
    }

    /// What holds of the city that `generate` returns, `tags` being the
    /// occupancy index after the call and `self` the generator before it.
    /// The city is laid out. It has as many buildings as were asked for,
    /// the important ones first, a road for each ordered pair of
    /// important buildings and then one for each ordinary building, and
    /// bounds that hold the buildings as tightly as the margin lets them.
    /// The important buildings are a draft, brought to scale, of
    /// buildings that the first phase may sample and of which any two
    /// keep their distance of three cells; each ordinary building
    /// is one that the second phase may grow. And whatever was drawn, the
    /// city and the index are the plan that the steps of the generator
    /// make of these buildings and of the index before the call, and
    /// each road of that plan was searched, when it was laid, from the
    /// door of its building to the first cell that was a road or lay in
    /// the building that it was meant for.
    pub open spec fn generated(
        &self,
        city: &City,
        tags: Map<(i32, i32), crate::occupancy::CellType>,
        normal_buildings: usize,
        important_buildings: usize,
        important_building_scale: i32,
    ) -> bool {
        &&& laid_out(city, tags)
        &&& city.buildings@.len() == important_buildings + normal_buildings
        &&& city.important_buildings@.len() == important_buildings
        &&& city.roads@.len() == important_buildings * (important_buildings - 1) + normal_buildings
        &&& city.bounds() == extent_of(city.buildings@).widened(CITY_BOUNDS_OFFSET as int)
        &&& exists|draft: Seq<Building>|
            city.buildings@.take(important_buildings as int) == #[trigger] scaled_all(
                draft,
                important_building_scale,
            ) && draft.len() == important_buildings && (forall|i: int|
                0 <= i < important_buildings ==> self.is_seed(
                    #[trigger] draft[i],
                    important_building_scale,
                )) && well_spaced(draft) && plan_of(city, tags) == Plan::empty(
                self.occupancy@,
            ).seeded(draft, important_building_scale).with_growths(
                city.buildings@.skip(important_buildings as int),
            ).with_fresh_bounds() && Plan::empty(self.occupancy@).with_seeds(draft).joins_searched()
                && Plan::empty(self.occupancy@).seeded(draft, important_building_scale).growths_searched(
                city.buildings@.skip(important_buildings as int),
            )
        &&& forall|i: int|
            #![trigger city.buildings@[i]]
            important_buildings <= i < city.buildings@.len() ==> self.grew(
                city.buildings@,
                important_buildings as int,
                i,
                normal_buildings,
            )
    }

    /// What the two phases leave, with the bounds computed afresh, is what
    /// `generate` promises: `seeded` and `seed_tags` are the city and the
    /// index after the first phase, `grown` is the city after the second,
    /// `city` is the same with fresh bounds, and `tags` is the index at
    /// the end.
    pub proof fn lemma_generated(
        &self,
        seeded: &City,
        seed_tags: Map<(i32, i32), crate::occupancy::CellType>,
        grown: &City,
        city: &City,
        tags: Map<(i32, i32), crate::occupancy::CellType>,
        normal_buildings: usize,
        important_buildings: usize,
        important_building_scale: i32,
    )
        requires
            self.seeded(seeded, seed_tags, important_buildings, important_building_scale),
            laid_out(grown, tags),
            grown.important_buildings == seeded.important_buildings,
            grown.buildings@.len() == important_buildings + normal_buildings,
            grown.buildings@.take(important_buildings as int) == seeded.buildings@,
            grown.roads@.len() - seeded.roads@.len() == normal_buildings,
            forall|i: int|
                #![trigger grown.buildings@[i]]
                important_buildings <= i < grown.buildings@.len() ==> self.grew(
                    grown.buildings@,
                    important_buildings as int,
                    i,
                    normal_buildings,
                ),
            plan_of(grown, tags) == plan_of(seeded, seed_tags).with_growths(
                grown.buildings@.skip(important_buildings as int),
            ),
            plan_of(seeded, seed_tags).growths_searched(
                grown.buildings@.skip(important_buildings as int),
            ),
            city.buildings == grown.buildings,
            city.important_buildings == grown.important_buildings,
            city.roads == grown.roads,
            city.bounds() == extent_of(grown.buildings@).widened(CITY_BOUNDS_OFFSET as int),
        ensures
            self.generated(city, tags, normal_buildings, important_buildings, important_building_scale),
    {
        assert(crate::layout::bounds_hold(city)) by {
            assert forall|i: int| 0 <= i < city.buildings@.len() implies city.bounds().holds(
                Extent::of(#[trigger] city.buildings@[i]).widened(CITY_BOUNDS_OFFSET as int),
            ) by {
                lemma_extent_holds_each(city.buildings@, i);
            }
        }
        lemma_bounds_renewed(grown, city, tags);
        let draft = choose|draft: Seq<Building>|
            seeded.buildings@ == #[trigger] scaled_all(draft, important_building_scale) && draft.len()
                == important_buildings && (forall|i: int|
                0 <= i < important_buildings ==> self.is_seed(
                    #[trigger] draft[i],
                    important_building_scale,
                )) && well_spaced(draft) && plan_of(seeded, seed_tags) == Plan::empty(
                self.occupancy@,
            ).seeded(draft, important_building_scale) && Plan::empty(self.occupancy@).with_seeds(
                draft,
            ).joins_searched();
        assert(plan_of(city, tags) =~= plan_of(grown, tags).with_fresh_bounds());
        assert(city.buildings@.take(important_buildings as int) == scaled_all(
            draft,
            important_building_scale,
        ));
    }

    /// What `generate` returns rests on its draws through the buildings
    /// alone: two runs from the same occupancy index, with the same
    /// bounds and asked for the same, that have placed the same buildings
    /// have laid the same roads and end with the same bounds, the same
    /// list of important buildings and the same index.
    pub proof fn lemma_buildings_decide(
        &self,
        other: &CityGenerator,
        first: &City,
        first_tags: Map<(i32, i32), crate::occupancy::CellType>,
        second: &City,
        second_tags: Map<(i32, i32), crate::occupancy::CellType>,
        normal_buildings: usize,
        important_buildings: usize,
        important_building_scale: i32,
    )
        requires
            self.same_setup(other),
            self.seeds_ok(important_building_scale),
            self.generated(first, first_tags, normal_buildings, important_buildings, important_building_scale),
            other.generated(
                second,
                second_tags,
                normal_buildings,
                important_buildings,
                important_building_scale,
            ),
            first.buildings@ == second.buildings@,
        ensures
            plan_of(first, first_tags) == plan_of(second, second_tags),
    {
        let k = important_building_scale;
        let n = important_buildings as int;
        let start = Plan::empty(self.occupancy@);
        let one = choose|draft: Seq<Building>|
            first.buildings@.take(n) == #[trigger] scaled_all(draft, k) && draft.len() == n && (forall|i: int|
                0 <= i < n ==> self.is_seed(#[trigger] draft[i], k)) && plan_of(first, first_tags)
                == start.seeded(draft, k).with_growths(first.buildings@.skip(n)).with_fresh_bounds();
        let two = choose|draft: Seq<Building>|
            second.buildings@.take(n) == #[trigger] scaled_all(draft, k) && draft.len() == n && (forall|i: int|
                0 <= i < n ==> other.is_seed(#[trigger] draft[i], k)) && plan_of(second, second_tags)
                == start.seeded(draft, k).with_growths(second.buildings@.skip(n)).with_fresh_bounds();
        assert forall|i: int| 0 <= i < n implies one[i] == two[i] by {
            assert(self.is_seed(one[i], k));
            assert(self.is_seed(two[i], k));
            self.lemma_seed_scalable(one[i], k);
            self.lemma_seed_scalable(two[i], k);
            assert(scaled_all(one, k)[i] == scaled_all(two, k)[i]);
            crate::building::lemma_scaled_same(one[i], two[i], k);
        }
        assert(one =~= two);
    }

    /// In a city that `generate` returned, the road of the `i`-th
    /// ordinary building is a searched road of the city as it was when
    /// the building had been put down, `then`: it leads from the door of
    /// the building to the first cell that was then a road or lies in
    /// the important building nearest to it; or it has no cells, and no
    /// route led there.
    pub proof fn lemma_generated_road(
        &self,
        city: &City,
        tags: Map<(i32, i32), crate::occupancy::CellType>,
        normal_buildings: usize,
        important_buildings: usize,
        important_building_scale: i32,
        i: int,
    ) -> (then: Plan)
        requires
            self.generated(city, tags, normal_buildings, important_buildings, important_building_scale),
            important_building_scale >= 1,
            0 <= i < normal_buildings,
        ensures
            then.buildings == city.buildings@.take(important_buildings + i + 1),
            then.important == city.important_buildings@,
            then.roads == road_cells(city.roads@).take(important_buildings * (important_buildings - 1) + i),
            roads_known(then, self.occupancy@),
            then.grid().is_searched_road(
                city.buildings@[important_buildings + i].door,
                then.nearest_to(city.buildings@[important_buildings + i]),
                city.roads@[important_buildings * (important_buildings - 1) + i]@,
            ),
    {
        let k = important_building_scale;
        let n = important_buildings as int;
        let grown = city.buildings@.skip(n);
        let empty = Plan::empty(self.occupancy@);
        let draft = choose|draft: Seq<Building>|
            city.buildings@.take(n) == #[trigger] scaled_all(draft, k) && draft.len() == n && plan_of(
                city,
                tags,
            ) == empty.seeded(draft, k).with_growths(grown).with_fresh_bounds() && empty.seeded(
                draft,
                k,
            ).growths_searched(grown);
        let seeded = empty.seeded(draft, k);
        lemma_scale_multiplies(self.occupancy@, draft, k);
        lemma_seeded_roads(self.occupancy@, draft, k);
        lemma_growth_road(seeded, grown, i);
        lemma_growths_grow(seeded, grown, i);
        lemma_growths_are_buildings(seeded, grown.take(i));
        lemma_growths_are_buildings(seeded, grown);
        let before = seeded.with_growths(grown.take(i));
        let then = before.settled(grown[i]);
        lemma_roads_known(self.occupancy@, draft, k, grown.take(i));
        lemma_settled_known(before, self.occupancy@, grown[i]);
        assert(then.buildings =~= city.buildings@.take(n + i + 1));
        lemma_growths_grow(seeded, grown.take(i), 0);
        assert(then.roads =~= road_cells(city.roads@).take(n * (n - 1) + i));
        assert(road_cells(city.roads@)[n * (n - 1) + i] == city.roads@[n * (n - 1) + i]@);
        then
    }

    /// In a city that `generate` returned over an index that was empty,
    /// the road of the `i`-th ordinary building, unless it is empty,
    /// leads from the door of the building to a cell of a road that was
    /// laid before it or of the important building nearest to it.
    pub proof fn lemma_road_arrives(
        &self,
        city: &City,
        tags: Map<(i32, i32), crate::occupancy::CellType>,
        normal_buildings: usize,
        important_buildings: usize,
        important_building_scale: i32,
        i: int,
    )
        requires
            self.generated(city, tags, normal_buildings, important_buildings, important_building_scale),
            self.occupancy@ == Map::<(i32, i32), crate::occupancy::CellType>::empty(),
            important_building_scale >= 1,
            0 <= i < normal_buildings,
        ensures
            ({
                let at = important_buildings * (important_buildings - 1) + i;
                let road = city.roads@[at]@;
                let b = city.buildings@[important_buildings + i];
                let nearest = city.buildings@[spec_nearest(city.important_buildings@, b.anchor())];
                road.len() > 0 ==> road[0] == b.door && (nearest.spec_contains(road.last()) || exists|r: int|
                    0 <= r < at && (#[trigger] city.roads@[r])@.contains(road.last()))
            }),
    {
        let then = self.lemma_generated_road(
            city,
            tags,
            normal_buildings,
            important_buildings,
            important_building_scale,
            i,
        );
        let at = important_buildings * (important_buildings - 1) + i;
        let road = city.roads@[at]@;
        let b = city.buildings@[important_buildings + i];
        if road.len() > 0 {
            let last = road.last();
            assert(then.buildings[spec_nearest(then.important, b.anchor())] == city.buildings@[spec_nearest(
                city.important_buildings@,
                b.anchor(),
            )]) by {
                crate::growth::lemma_nearest_is_listed(city.important_buildings@, b.anchor());
            }
            if !then.nearest_to(b).spec_contains(last) {
                assert(then.tags[last] == crate::occupancy::CellType::Road);
                let r = choose|r: int| 0 <= r < then.roads.len() && (#[trigger] then.roads[r]).contains(last);
                assert(then.roads[r] == city.roads@[r]@);
            }
        }
    }

    /// In a city that `generate` returned, the road from the important
    /// building at place `i`, in the order of the corners, to that at
    /// place `j` was searched before the important buildings were
    /// brought to scale, in the plan `then`: `road` leads from the door
    /// of the first building, as it was then, to the first cell that was
    /// then a road or lies in the second. The city has it at its place
    /// among the roads, drawn anew where the scale is above one.
    pub proof fn lemma_generated_joining_road(
        &self,
        city: &City,
        tags: Map<(i32, i32), crate::occupancy::CellType>,
        normal_buildings: usize,
        important_buildings: usize,
        important_building_scale: i32,
        i: int,
        j: int,
    ) -> (found: (Plan, Seq<(i32, i32)>))
        requires
            self.generated(city, tags, normal_buildings, important_buildings, important_building_scale),
            important_building_scale >= 1,
            0 <= i < important_buildings,
            0 <= j < important_buildings,
            i != j,
        ensures
            ({
                let (then, road) = found;
                let order = sorted(anchors_of(then.buildings));
                let at = pair_place(important_buildings as int, i, others_before(i, j));
                &&& scaled_all(then.buildings, important_building_scale) == city.buildings@.take(
                    important_buildings as int,
                )
                &&& roads_known(then, self.occupancy@)
                &&& then.grid().is_searched_road(
                    building_at(then.buildings, order[i]).door,
                    building_at(then.buildings, order[j]),
                    road,
                )
                &&& 0 <= at < city.roads@.len()
                &&& city.roads@[at]@ == if important_building_scale > 1 {
                    stretched(road, important_building_scale as int)
                } else {
                    road
                }
            }),
    {
        let k = important_building_scale;
        let n = important_buildings as int;
        let grown = city.buildings@.skip(n);
        let empty = Plan::empty(self.occupancy@);
        let draft = choose|draft: Seq<Building>|
            city.buildings@.take(n) == #[trigger] scaled_all(draft, k) && draft.len() == n && plan_of(
                city,
                tags,
            ) == empty.seeded(draft, k).with_growths(grown).with_fresh_bounds() && empty.with_seeds(
                draft,
            ).joins_searched();
        let found = lemma_seeded_road(self.occupancy@, draft, k, i, j);
        lemma_seeded_roads(self.occupancy@, draft, k);
        lemma_growths_grow(empty.seeded(draft, k), grown, 0);
        assert(grown.take(0) =~= Seq::<Building>::empty());
        let at = pair_place(n, i, others_before(i, j));
        assert(road_cells(city.roads@)[at] == city.roads@[at]@);
        found
    }

    /// Generate a city: the important buildings and the roads between
    /// them, then the ordinary buildings, each with its road; at the end
    /// the bounds are computed afresh. Fails when a building has not
    /// fitted after `max_attempts` samples.
    pub fn generate(
        &mut self,
        normal_buildings: usize,
        important_buildings: usize,
        important_building_scale: i32,
    ) -> (r: Result<City, GenerationError>)
        requires
            old(self).spec_can_generate(normal_buildings, important_buildings, important_building_scale),
        ensures
            final(self).same_bounds(old(self)),
            r matches Ok(city) ==> old(self).generated(
                &city,
                final(self).occupancy@,
                normal_buildings,
                important_buildings,
                important_building_scale,
            ),
            important_buildings == 1 && normal_buildings == 0 && old(self).max_attempts >= 1 ==> r is Ok,
            old(self).max_attempts == 0 ==> r is Err,
    {
        let mut city = match self.generate_important_buildings(
            important_buildings,
            important_building_scale,
        ) {
            Ok(city) => city,
            Err(e) => {
                return Err(e);
            },
        };
        let ghost seeded = city;
        let ghost seed_tags = self.occupancy@;
        proof {
            lemma_spread(city.buildings@, self.seed_reach(important_building_scale));
        }
        match self.generate_buildings(&mut city, normal_buildings) {
            Ok(()) => {},
            Err(e) => {
                return Err(e);
            },
        }
        let ghost grown = city;
        proof {
            lemma_laid_out_buildings(&city, self.occupancy@);
            lemma_spread(city.buildings@, 0);
            assert forall|i: int| 0 <= i < city.buildings@.len() implies (
            #[trigger] city.buildings@[i]).has_margin(CITY_BOUNDS_OFFSET) by {
                assert(-spread(city.buildings@) <= city.buildings@[i].x);
                assert(city.buildings@[i].width >= 1);
            }
        }
        city.update_borders();
        proof {
            old(self).lemma_generated(
                &seeded,
                seed_tags,
                &grown,
                &city,
                self.occupancy@,
                normal_buildings,
                important_buildings,
                important_building_scale,
            );
        }
        Ok(city)
    }
}

} // verus!
