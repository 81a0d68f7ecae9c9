//! The first phase: the important buildings, the seeds of the city. They
//! are sampled round the origin at a shrunk scale, joined each to each
//! other by roads, and then brought to scale.

use crate::building::Building;
use crate::city::{building_at, City, CITY_BOUNDS_OFFSET, Extent, folded_bounds};
use crate::city_generation::{after_attempt, CityGenerator, GenerationError, Verdict};
use crate::layout::{
    lemma_laid_out_buildings, pair_place, well_spaced,
    cell_within, IMPORTANT_CLEARANCE, keeps_clear, laid_out, lemma_clear_joins, mark_footprint,
    roads_within, spec_keeps_clear, within,
};
use crate::plan::{Plan, plan_of};
use crate::random::in_range;
use crate::rescale::{cell_scalable, city_scalable, scaled_all};
use crate::router::{in_search_bounds, lemma_route_connected, road_of};
use crate::sorting::{anchors_of, sorted, sorted_anchors};
use crate::upkeep::{lemma_road_joins, lemma_route_avoids, lemma_seed_joins};
use vstd::prelude::*;

verus! {

/// A size shrunk by `scale`: the size divided by the scale, rounded down,
/// so that bringing it to scale gives it back or a little less.
pub open spec fn spec_shrunk(size: i32, scale: i32) -> int {
    size as int / (scale as int)
}

/// Shrink a size by `scale`. The size must be no less than the scale, so
/// that something is left of it.
pub fn shrunk(size: i32, scale: i32) -> (r: i32)
    requires
        1 <= scale <= size,
    ensures
        r == spec_shrunk(size, scale),
        1 <= r,
        r * scale <= size,
{
    proof {
        let (a, k) = (size as int, scale as int);
        assert(1 <= a / k && (a / k) * k <= a) by (nonlinear_arith)
            requires
                a >= k,
                k >= 1,
        ;
    }
    size / scale
}

impl CityGenerator {
    /// Whether `b` is a building that the first phase may sample at
    /// `scale`: important, with the identifier zero, its corner in the
    /// window, its size within the shrunk bounds and its door where a
    /// draw can put it.
    pub open spec fn is_seed(&self, b: Building, scale: i32) -> bool {
        &&& b.is_important
        &&& b.id == 0
        &&& -self.window_half(scale) <= b.x < self.window_half(scale)
        &&& -self.window_half(scale) <= b.y < self.window_half(scale)
        &&& spec_shrunk(self.width_bound.start, scale) <= b.width <= spec_shrunk(
            (self.width_bound.end - 1) as i32,
            scale,
        )
        &&& spec_shrunk(self.height_bound.start, scale) <= b.height <= spec_shrunk(
            (self.height_bound.end - 1) as i32,
            scale,
        )
        &&& b.door_drawn()
    }

    /// Generate a random important building: sample a corner in the
    /// window round the origin and a size from the shrunk bounds, then a
    /// door, until the building keeps clear of every building of the city.
    /// `None` after `max_attempts` samples of which none kept clear, and
    /// at once where `max_attempts` is zero.
    pub fn generate_random_important_building(&mut self, city: &City, scale_factor: i32) -> (r: Option<
        Building,
    >)
        requires
            old(self).seeds_ok(scale_factor),
        ensures
            final(self).same_setup(old(self)),
            r matches Some(b) ==> old(self).is_seed(b, scale_factor) && spec_keeps_clear(
                city.buildings@,
                b,
                IMPORTANT_CLEARANCE,
            ),
            city.buildings@.len() == 0 && old(self).max_attempts >= 1 ==> r is Some,
            old(self).max_attempts == 0 ==> r is None,
    {
        let half = self.important_buildings_max_distance / (scale_factor * 2);
        proof {
            lemma_window(self.important_buildings_max_distance, scale_factor);
        }
        let mut misses: usize = 0;
        while misses < self.max_attempts
            invariant
                self.same_setup(old(self)),
                self.seeds_ok(scale_factor),
                1 <= half == self.window_half(scale_factor),
                half <= self.important_buildings_max_distance as int / 2,
                self.max_attempts >= 1 ==> misses < self.max_attempts,
            decreases self.max_attempts - misses,
        {
            let x = in_range(&mut self.rng, -half, half);
            let y = in_range(&mut self.rng, -half, half);
            let drawn_width = in_range(&mut self.rng, self.width_bound.start, self.width_bound.end);
            let width = shrunk(drawn_width, scale_factor);
            let drawn_height = in_range(&mut self.rng, self.height_bound.start, self.height_bound.end);
            let height = shrunk(drawn_height, scale_factor);
            proof {
                lemma_shrunk_grows(self.width_bound.start, drawn_width, scale_factor);
                lemma_shrunk_grows(drawn_width, (self.width_bound.end - 1) as i32, scale_factor);
                lemma_shrunk_grows(self.height_bound.start, drawn_height, scale_factor);
                lemma_shrunk_grows(drawn_height, (self.height_bound.end - 1) as i32, scale_factor);
            }
            let building = Building::with_random_door(
                &mut self.rng,
                x,
                y,
                width,
                height,
                0,
            ).make_important();
            let fits = keeps_clear(city, &building, IMPORTANT_CLEARANCE);
            match after_attempt(misses, self.max_attempts, fits) {
                Verdict::Placed => {
                    return Some(building);
                },
                Verdict::GiveUp => {
                    return None;
                },
                Verdict::Retry => {
                    misses += 1;
                },
            }
        }
        None
    }

    /// The first part of the first phase: sample `n` important buildings,
    /// each clear of those before it, and write each into a new city and
    /// into the occupancy index. Fails when a building cannot be placed
    /// within `max_attempts` samples.
    pub fn place_important_buildings(&mut self, n: usize, scale: i32) -> (r: Result<
        City,
        GenerationError,
    >)
        requires
            old(self).seeds_ok(scale),
        ensures
            final(self).same_bounds(old(self)),
            r matches Ok(city) ==> {
                &&& laid_out(&city, final(self).occupancy@)
                &&& city.buildings@.len() == n
                &&& city.important_buildings@.len() == n
                &&& city.roads@.len() == 0
                &&& forall|i: int| 0 <= i < n ==> old(self).is_seed(#[trigger] city.buildings@[i], scale)
                &&& city.bounds() == folded_bounds(city.buildings@)
                &&& plan_of(&city, final(self).occupancy@) == Plan::empty(
                    old(self).occupancy@,
                ).with_seeds(city.buildings@)
            },
            n <= 1 && old(self).max_attempts >= 1 ==> r is Ok,
            n == 0 ==> r is Ok,
            n >= 1 && old(self).max_attempts == 0 ==> r is Err,
    {
        let mut city = City::new();
        let mut placed: usize = 0;
        proof {
            reveal(laid_out);
            assert(plan_of(&city, self.occupancy@) =~= Plan::empty(self.occupancy@));
        }
        while placed < n
            invariant
                placed <= n,
                self.max_attempts == 0 ==> placed == 0,
                plan_of(&city, self.occupancy@) == Plan::empty(old(self).occupancy@).with_seeds(
                    city.buildings@,
                ),
                self.same_bounds(old(self)),
                self.seeds_ok(scale),
                laid_out(&city, self.occupancy@),
                city.buildings@.len() == placed,
                city.important_buildings@.len() == placed,
                city.roads@.len() == 0,
                forall|i: int| 0 <= i < placed ==> self.is_seed(#[trigger] city.buildings@[i], scale),
                city.bounds() == folded_bounds(city.buildings@),
            decreases n - placed,
        {
            let building = match self.generate_random_important_building(&city, scale) {
                Some(b) => b,
                None => {
                    return Err(GenerationError::PlacementExhausted);
                },
            };
            proof {
                reveal(laid_out);
                self.lemma_seed_fits(building, scale);
                lemma_clear_joins(city.buildings@, building);
            }
            let ghost before = city;
            let ghost tags = self.occupancy@;
            mark_footprint(&mut self.occupancy, &building);
            city.important_buildings.push((building.x, building.y));
            city.update_borders_from_new_building(&building);
            city.insert(building);
            proof {
                assert(city.buildings@ == before.buildings@.push(building));
                assert(city.buildings@.drop_last() =~= before.buildings@);
                lemma_seed_joins(&before, &city, tags, building);
                assert(plan_of(&city, self.occupancy@) =~= plan_of(&before, tags).with_seed(building));
                assert forall|i: int| 0 <= i < placed + 1 implies self.is_seed(
                    #[trigger] city.buildings@[i],
                    scale,
                ) by {
                    if i < placed {
                        assert(city.buildings@[i] == before.buildings@[i]);
                    }
                }
            }
            placed += 1;
        }
        Ok(city)
    }

    /// Search a road from the building at `from` to the building at `to`,
    /// both important, and lay it. The road must come at its place among
    /// the roads: after those of the buildings before `from` in the order
    /// of the corners, and after those that lead from `from` already.
    pub fn join_pair(&mut self, city: &mut City, from: (i32, i32), to: (i32, i32))
        requires
            laid_out(old(city), old(self).occupancy@),
            old(city).buildings@.len() == old(city).important_buildings@.len(),
            old(city).has_anchor(from),
            old(city).has_anchor(to),
            exists|row: int, t: int|
                0 <= row < old(city).buildings@.len() && 0 <= t < old(city).buildings@.len() - 1
                    && #[trigger] pair_place(old(city).buildings@.len() as int, row, t) == old(
                    city,
                ).roads@.len() && from == sorted(anchors_of(old(city).buildings@))[row],
        ensures
            final(self).same_bounds(old(self)),
            laid_out(final(city), final(self).occupancy@),
            final(city).buildings == old(city).buildings,
            final(city).important_buildings == old(city).important_buildings,
            plan_of(final(city), final(self).occupancy@) == plan_of(
                old(city),
                old(self).occupancy@,
            ).joined_pair(from, to),
            final(city).bounds() == old(city).bounds(),
            final(city).roads@.len() == old(city).roads@.len() + 1,
            final(city).roads@.drop_last() == old(city).roads@,
            old(self).grid(old(city)).is_searched_road(
                building_at(old(city).buildings@, from).door,
                building_at(old(city).buildings@, to),
                final(city).roads@.last()@,
            ),
            plan_of(old(city), old(self).occupancy@).pair_searched(from, to),
            roads_within(old(city)) ==> roads_within(final(city)),
    {
        proof {
            reveal(laid_out);
        }
        let at = match city.find(from) {
            Some(k) => k,
            None => 0,
        };
        let start = city.buildings[at];
        let at_end = match city.find(to) {
            Some(k) => k,
            None => 0,
        };
        let end = city.buildings[at_end];
        let outcome = self.generate_road(city, &start, &end);
        proof {
            if outcome is Some {
                lemma_route_connected(self.grid(city), start.door, end, road_of(outcome));
                lemma_route_avoids(self, city, at as int, &end, road_of(outcome));
            }
            Self::lemma_route_within(city, start, road_of(outcome));
        }
        self.lay_road(city, outcome);
        proof {
            let n = old(city).buildings@.len() as int;
            let (row, t) = choose|row: int, t: int|
                0 <= row < n && 0 <= t < n - 1 && #[trigger] pair_place(n, row, t) == old(city).roads@.len()
                    && from == sorted(anchors_of(old(city).buildings@))[row];
            assert(start == building_at(old(city).buildings@, from));
            assert(end == building_at(old(city).buildings@, to));
            assert(old(city).buildings@.take(n) =~= old(city).buildings@);
            lemma_road_joins(
                old(city),
                city,
                old(self).occupancy@,
                at as int,
                row,
                t,
                road_of(outcome),
            );
        }
    }

    /// The second part of the first phase: search a road from each
    /// building of the city to each other, the buildings taken in the
    /// order of their corners, and lay each road as it is found.
    pub fn connect_important_buildings(&mut self, city: &mut City)
        requires
            laid_out(old(city), old(self).occupancy@),
            old(city).buildings@.len() == old(city).important_buildings@.len(),
            old(city).roads@.len() == 0,
        ensures
            final(self).same_bounds(old(self)),
            laid_out(final(city), final(self).occupancy@),
            final(city).buildings == old(city).buildings,
            final(city).important_buildings == old(city).important_buildings,
            final(city).bounds() == old(city).bounds(),
            final(city).roads@.len() == old(city).roads@.len() + old(city).buildings@.len() * (old(
                city,
            ).buildings@.len() - 1),
            final(city).roads@.take(old(city).roads@.len() as int) == old(city).roads@,
            roads_within(old(city)) ==> roads_within(final(city)),
            plan_of(final(city), final(self).occupancy@) == plan_of(
                old(city),
                old(self).occupancy@,
            ).joined(),
            plan_of(old(city), old(self).occupancy@).joins_searched(),
    {
        let order = sorted_anchors(city);
        let n = order.len();
        let mut i: usize = 0;
        let ghost start = plan_of(city, self.occupancy@);
        assert(0 * (n - 1) == 0) by (nonlinear_arith);
        assert(city.roads@.take(old(city).roads@.len() as int) =~= old(city).roads@);
        while i < n
            invariant
                i <= n == order@.len() == city.buildings@.len(),
                self.same_bounds(old(self)),
                laid_out(city, self.occupancy@),
                city.buildings@.len() == city.important_buildings@.len(),
                city.buildings == old(city).buildings,
                city.important_buildings == old(city).important_buildings,
                city.bounds() == old(city).bounds(),
                forall|k: int| 0 <= k < n ==> city.has_anchor(#[trigger] order@[k]),
                city.roads@.len() == old(city).roads@.len() + i * (n - 1),
                city.roads@.take(old(city).roads@.len() as int) == old(city).roads@,
                roads_within(old(city)) ==> roads_within(city),
                plan_of(city, self.occupancy@) == start.joined_rows(order@, i as int),
                start.rows_searched(order@, i as int),
                old(city).roads@.len() == 0,
                order@ == sorted(anchors_of(old(city).buildings@)),
            decreases n - i,
        {
            let mut j: usize = 0;
            let ghost row = plan_of(city, self.occupancy@);
            while j < n
                invariant
                    i < n == order@.len() == city.buildings@.len(),
                    j <= n,
                    self.same_bounds(old(self)),
                    laid_out(city, self.occupancy@),
                    city.buildings@.len() == city.important_buildings@.len(),
                    city.buildings == old(city).buildings,
                    city.important_buildings == old(city).important_buildings,
                    city.bounds() == old(city).bounds(),
                    forall|k: int| 0 <= k < n ==> city.has_anchor(#[trigger] order@[k]),
                    city.roads@.len() == old(city).roads@.len() + i * (n - 1) + j - (if j > i {
                        1int
                    } else {
                        0int
                    }),
                    city.roads@.take(old(city).roads@.len() as int) == old(city).roads@,
                    roads_within(old(city)) ==> roads_within(city),
                    plan_of(city, self.occupancy@) == row.joined_row(order@, i as int, j as int),
                    row.row_searched(order@, i as int, j as int),
                    old(city).roads@.len() == 0,
                    order@ == sorted(anchors_of(old(city).buildings@)),
                decreases n - j,
            {
                if i != j {
                    let ghost before = city.roads@;
                    proof {
                        let t = j - (if j > i { 1int } else { 0int });
                        assert(pair_place(n as int, i as int, t) == city.roads@.len());
                    }
                    self.join_pair(city, order[i], order[j]);
                    proof {
                        assert(city.roads@.take(old(city).roads@.len() as int) =~= old(city).roads@) by {
                            assert(city.roads@.drop_last() == before);
                            assert forall|r: int| 0 <= r < old(city).roads@.len() implies city.roads@[r]
                                == old(city).roads@[r] by {
                                assert(city.roads@.drop_last()[r] == city.roads@[r]);
                                assert(before.take(old(city).roads@.len() as int)[r] == before[r]);
                            }
                        }
                    }
                }
                j += 1;
            }
            assert((i + 1) * (n - 1) == i * (n - 1) + (n - 1)) by (nonlinear_arith);
            i += 1;
        }
    }

    /// What holds of the city that the first phase returns, `tags` being
    /// the occupancy index after it and `self` the generator before it.
    /// The city is laid out; it has `n` buildings, all important, and a
    /// road for each ordered pair of them; the buildings are a draft,
    /// brought to scale, of buildings that the first phase may sample
    /// and of which any two keep their distance of three cells,
    /// and so they stay within reach of the origin; the city and the
    /// index are the plan that the steps of the first phase make of the
    /// draft and of the index before; and each road of that plan, before
    /// it was brought to scale, was searched from the door of the first
    /// building of its pair to the first cell that was a road or lay in
    /// the second.
    pub open spec fn seeded(
        &self,
        city: &City,
        tags: Map<(i32, i32), crate::occupancy::CellType>,
        n: usize,
        scale: i32,
    ) -> bool {
        &&& laid_out(city, tags)
        &&& city.important_buildings@.len() == n
        &&& city.roads@.len() == n * (n - 1)
        &&& city.buildings@.len() == n
        &&& exists|draft: Seq<Building>|
            city.buildings@ == #[trigger] scaled_all(draft, scale) && draft.len() == n && (forall|
                i: int,
            |
                0 <= i < n ==> self.is_seed(#[trigger] draft[i], scale)) && well_spaced(draft)
                && plan_of(city, tags) == Plan::empty(self.occupancy@).seeded(draft, scale)
                && Plan::empty(self.occupancy@).with_seeds(draft).joins_searched()
        &&& within(city.buildings@, self.seed_reach(scale))
    }

    /// The first phase: place `n` important buildings, join each to each
    /// other by a road, and, where the scale is above one, bring the
    /// whole to scale.
    pub fn generate_important_buildings(&mut self, n: usize, important_building_scale: i32) -> (r:
        Result<City, GenerationError>)
        requires
            old(self).seeds_ok(important_building_scale),
            important_building_scale > 1 ==> n >= 1,
        ensures
            final(self).same_bounds(old(self)),
            r matches Ok(city) ==> old(self).seeded(
                &city,
                final(self).occupancy@,
                n,
                important_building_scale,
            ),
            n <= 1 && old(self).max_attempts >= 1 ==> r is Ok,
            n == 0 ==> r is Ok,
            n >= 1 && old(self).max_attempts == 0 ==> r is Err,
    {
        let mut city = match self.place_important_buildings(n, important_building_scale) {
            Ok(city) => city,
            Err(e) => {
                return Err(e);
            },
        };
        let ghost draft = city.buildings@;
        proof {
            lemma_laid_out_buildings(&city, self.occupancy@);
        }
        assert(roads_within(&city));
        self.connect_important_buildings(&mut city);
        if important_building_scale > 1 {
            proof {
                reveal(laid_out);
                self.lemma_draft_scalable(&city, important_building_scale);
            }
            self.rescale(&mut city, important_building_scale);
        }
        proof {
            assert(city.buildings@ =~= scaled_all(draft, important_building_scale));
            assert forall|i: int| 0 <= i < city.buildings@.len() implies -self.seed_reach(
                important_building_scale,
            ) <= (#[trigger] city.buildings@[i]).x && city.buildings@[i].x + city.buildings@[i].width
                <= self.seed_reach(important_building_scale) && -self.seed_reach(
                important_building_scale,
            ) <= city.buildings@[i].y && city.buildings@[i].y + city.buildings@[i].height
                <= self.seed_reach(important_building_scale) by {
                self.lemma_seed_fits(draft[i], important_building_scale);
            }
        }
        Ok(city)
    }

    /// An important building as the first phase samples it has a footprint
    /// of at least one cell each way and, brought to scale or not, stays
    /// within reach of the origin.
    pub proof fn lemma_seed_fits(&self, b: Building, scale: i32)
        requires
            self.seeds_ok(scale),
            self.is_seed(b, scale),
        ensures
            b.width >= 1,
            b.height >= 1,
            -self.seed_reach(scale) <= b.x * scale,
            b.x * scale + b.width * scale <= self.seed_reach(scale),
            -self.seed_reach(scale) <= b.y * scale,
            b.y * scale + b.height * scale <= self.seed_reach(scale),
            -self.seed_reach(scale) <= b.x,
            b.x + b.width <= self.seed_reach(scale),
            -self.seed_reach(scale) <= b.y,
            b.y + b.height <= self.seed_reach(scale),
            b.width * scale < self.size_end(),
            b.height * scale < self.size_end(),
    {
        let k = scale as int;
        let d = self.important_buildings_max_distance as int;
        let half = self.window_half(scale);
        lemma_window(self.important_buildings_max_distance, scale);
        lemma_shrunk_bounds(self.width_bound.start, scale);
        lemma_shrunk_bounds((self.width_bound.end - 1) as i32, scale);
        lemma_shrunk_bounds(self.height_bound.start, scale);
        lemma_shrunk_bounds((self.height_bound.end - 1) as i32, scale);
        let (x, y, w, h) = (b.x as int, b.y as int, b.width as int, b.height as int);
        let (wmax, hmax) = (
            spec_shrunk((self.width_bound.end - 1) as i32, scale),
            spec_shrunk((self.height_bound.end - 1) as i32, scale),
        );
        assert(-(half * k) <= x * k <= half * k && -(half * k) <= y * k <= half * k)
            by (nonlinear_arith)
            requires
                -half <= x < half,
                -half <= y < half,
                k >= 1,
        ;
        assert(w * k <= wmax * k && h * k <= hmax * k && w <= w * k && h <= h * k)
            by (nonlinear_arith)
            requires
                0 <= w <= wmax,
                0 <= h <= hmax,
                k >= 1,
        ;
    }

    /// The size of an important building as the first phase samples it is
    /// a size of the bounds, divided by the scale.
    pub proof fn lemma_seed_drawn(&self, b: Building, scale: i32) -> (drawn: (i32, i32))
        requires
            self.seeds_ok(scale),
            self.is_seed(b, scale),
        ensures
            self.width_bound.start <= drawn.0 < self.width_bound.end,
            self.height_bound.start <= drawn.1 < self.height_bound.end,
            b.width == drawn.0 as int / (scale as int),
            b.height == drawn.1 as int / (scale as int),
    {
        let w = lemma_shrunk_reaches(
            b.width as int,
            self.width_bound.start,
            (self.width_bound.end - 1) as i32,
            scale,
        );
        let h = lemma_shrunk_reaches(
            b.height as int,
            self.height_bound.start,
            (self.height_bound.end - 1) as i32,
            scale,
        );
        (w, h)
    }

    /// An important building as the first phase samples it can be brought
    /// to scale.
    pub proof fn lemma_seed_scalable(&self, b: Building, scale: i32)
        requires
            self.seeds_ok(scale),
            self.is_seed(b, scale),
        ensures
            b.scalable(scale),
    {
        self.lemma_seed_fits(b, scale);
        let k = scale as int;
        let (x, y, w, h) = (b.x as int, b.y as int, b.width as int, b.height as int);
        let (dx, dy) = (b.door.0 as int, b.door.1 as int);
        assert(x * k <= dx * k <= x * k + w * k && y * k <= dy * k <= y * k + h * k) by (nonlinear_arith)
            requires
                x <= dx <= x + w,
                y <= dy <= y + h,
                k >= 1,
        ;
        assert(0 <= w * k && 0 <= h * k) by (nonlinear_arith)
            requires
                w >= 1,
                h >= 1,
                k >= 1,
        ;
    }

    /// A city of important buildings as the first phase samples them, with
    /// its bounds widened building by building and its roads within them,
    /// can be brought to scale.
    pub proof fn lemma_draft_scalable(&self, city: &City, scale: i32)
        requires
            self.seeds_ok(scale),
            city.buildings@.len() >= 1,
            forall|i: int| 0 <= i < city.buildings@.len() ==> self.is_seed(#[trigger] city.buildings@[i], scale),
            city.bounds() == folded_bounds(city.buildings@),
            roads_within(city),
            crate::layout::important_listed(city),
        ensures
            city_scalable(city, scale),
    {
        let k = scale as int;
        let half = self.window_half(scale);
        let wmax = spec_shrunk((self.width_bound.end - 1) as i32, scale);
        let hmax = spec_shrunk((self.height_bound.end - 1) as i32, scale);
        let hi = half + (if wmax > hmax { wmax } else { hmax }) + CITY_BOUNDS_OFFSET;
        let lo = -half - CITY_BOUNDS_OFFSET;
        lemma_window(self.important_buildings_max_distance, scale);
        lemma_shrunk_bounds((self.width_bound.end - 1) as i32, scale);
        lemma_shrunk_bounds((self.height_bound.end - 1) as i32, scale);
        let reach = self.seed_reach(scale);
        let most = if wmax > hmax { wmax } else { hmax };
        assert(most * k <= self.size_end() - 1);
        assert(hi * k == half * k + most * k + 20 * k && lo * k == -(half * k) - 20 * k)
            by (nonlinear_arith)
            requires
                hi == half + most + 20,
                lo == -half - 20,
        ;
        assert(hi * k <= reach + CITY_BOUNDS_OFFSET * k && -(reach + CITY_BOUNDS_OFFSET * k) <= lo * k);
        assert forall|i: int| 0 <= i < city.buildings@.len() implies (#[trigger] city.buildings@[i]).scalable(
            scale,
        ) by {
            let b = city.buildings@[i];
            self.lemma_seed_fits(b, scale);
            let (x, y, w, h) = (b.x as int, b.y as int, b.width as int, b.height as int);
            let (dx, dy) = (b.door.0 as int, b.door.1 as int);
            assert(x * k <= dx * k <= x * k + w * k && y * k <= dy * k <= y * k + h * k && 0 <= w * k && 0 <= h * k) by (nonlinear_arith)
                requires
                    x <= dx <= x + w,
                    y <= dy <= y + h,
                    w >= 1,
                    h >= 1,
                    k >= 1,
            ;
        }
        assert forall|i: int| 0 <= i < city.important_buildings@.len() implies cell_scalable(
            #[trigger] city.important_buildings@[i],
            scale,
        ) by {
            assert(city.buildings@[i].anchor() == city.important_buildings@[i]);
            assert(city.buildings@[i].scalable(scale));
        }
        assert forall|i: int| 0 <= i < city.buildings@.len() implies lo <= (#[trigger] city.buildings@[i]).x
            - CITY_BOUNDS_OFFSET && city.buildings@[i].x + city.buildings@[i].width + CITY_BOUNDS_OFFSET <= hi
            && lo <= city.buildings@[i].y - CITY_BOUNDS_OFFSET && city.buildings@[i].y
            + city.buildings@[i].height + CITY_BOUNDS_OFFSET <= hi by {
            assert(self.is_seed(city.buildings@[i], scale));
        }
        lemma_folded_within(city.buildings@, lo, hi);
        assert forall|c: (i32, i32)| cell_within(city, c) implies cell_scalable(c, scale) by {
            let (cx, cy) = (c.0 as int, c.1 as int);
            assert(lo * k <= cx * k <= hi * k && lo * k <= cy * k <= hi * k) by (nonlinear_arith)
                requires
                    lo <= cx <= hi,
                    lo <= cy <= hi,
                    k >= 1,
            ;
        }
        assert(cell_within(city, (city.min_x, city.min_y)));
        assert(cell_within(city, (city.max_x, city.max_y)));
        assert forall|r: int, j: int|
            0 <= r < city.roads@.len() && 0 <= j < city.roads@[r]@.len() implies cell_scalable(
            #[trigger] city.roads@[r]@[j],
            scale,
        ) by {
            assert(cell_within(city, city.roads@[r]@[j]));
        }
    }

    /// A road that starts at the door of a building of the city and then
    /// stays where the search may go lies within the bounds of the city.
    pub proof fn lemma_route_within(city: &City, from: Building, road: Seq<(i32, i32)>)
        requires
            crate::layout::bounds_hold(city),
            exists|i: int| 0 <= i < city.buildings@.len() && #[trigger] city.buildings@[i] == from,
            from.door_on_boundary(),
            road.len() > 0 ==> road[0] == from.door,
            forall|i: int|
                1 <= i < road.len() ==> in_search_bounds(city.bounds(), (#[trigger] road[i]).0 as int, road[i].1 as int),
        ensures
            forall|j: int| 0 <= j < road.len() ==> cell_within(city, #[trigger] road[j]),
    {
        let i = choose|i: int| 0 <= i < city.buildings@.len() && #[trigger] city.buildings@[i] == from;
        assert(city.bounds().holds(Extent::of(city.buildings@[i]).widened(CITY_BOUNDS_OFFSET as int)));
        assert forall|j: int| 0 <= j < road.len() implies cell_within(city, #[trigger] road[j]) by {
            if j >= 1 {
                assert(in_search_bounds(city.bounds(), road[j].0 as int, road[j].1 as int));
            }
        }
    }
}

/// Whatever lies between what the ends of a range of sizes shrink to is
/// what a size of the range shrinks to.
pub proof fn lemma_shrunk_reaches(size: int, lo: i32, hi: i32, scale: i32) -> (drawn: i32)
    requires
        scale >= 1,
        0 <= lo <= hi,
        spec_shrunk(lo, scale) <= size <= spec_shrunk(hi, scale),
    ensures
        lo <= drawn <= hi,
        spec_shrunk(drawn, scale) == size,
{
    let k = scale as int;
    let (a, b) = (lo as int, hi as int);
    if size * k < lo {
        assert(a / k == size) by (nonlinear_arith)
            requires
                k >= 1,
                0 <= a,
                a / k <= size,
                size * k < a,
        ;
        lo
    } else {
        assert(size * k <= b && (size * k) / k == size) by (nonlinear_arith)
            requires
                k >= 1,
                0 <= b,
                0 <= size <= b / k,
        ;
        (size * k) as i32
    }
}

/// A larger size shrinks to no less.
pub proof fn lemma_shrunk_grows(a: i32, b: i32, scale: i32)
    requires
        0 <= a <= b,
        scale >= 1,
    ensures
        spec_shrunk(a, scale) <= spec_shrunk(b, scale),
{
    let (x, y, k) = (a as int, b as int, scale as int);
    assert(x / k <= y / k) by (nonlinear_arith)
        requires
            0 <= x <= y,
            k >= 1,
    ;
}

/// A size no less than the scale shrinks to at least one, and brought
/// back to scale it is no more than it was.
pub proof fn lemma_shrunk_bounds(size: i32, scale: i32)
    requires
        1 <= scale <= size,
    ensures
        1 <= spec_shrunk(size, scale) <= size,
        spec_shrunk(size, scale) * scale <= size,
{
    let (a, k) = (size as int, scale as int);
    assert(1 <= a / k && (a / k) * k <= a && a / k <= a) by (nonlinear_arith)
        requires
            a >= k,
            k >= 1,
    ;
}

/// The window of the important buildings, brought to scale, spans no more
/// than the distance it was made from.
pub proof fn lemma_window(distance: i32, scale: i32)
    requires
        scale >= 1,
        distance >= 2 * scale,
    ensures
        1 <= distance as int / (2 * scale),
        (distance as int / (2 * scale)) * scale <= distance as int / 2,
        distance as int / (2 * scale) <= distance as int / 2,
{
    let (d, k) = (distance as int, scale as int);
    assert(1 <= d / (2 * k) && (d / (2 * k)) * k <= d / 2 && d / (2 * k) <= d / 2)
        by (nonlinear_arith)
        requires
            k >= 1,
            d >= 2 * k,
    ;
}

/// Bounds that were widened building by building lie between `lo` and
/// `hi` where every footprint, with the margin round it, does.
pub proof fn lemma_folded_within(s: Seq<Building>, lo: int, hi: int)
    requires
        s.len() >= 1,
        forall|i: int|
            0 <= i < s.len() ==> lo <= (#[trigger] s[i]).x - CITY_BOUNDS_OFFSET && s[i].x + s[i].width
                + CITY_BOUNDS_OFFSET <= hi && lo <= s[i].y - CITY_BOUNDS_OFFSET && s[i].y + s[i].height
                + CITY_BOUNDS_OFFSET <= hi && s[i].width >= 0 && s[i].height >= 0,
    ensures
        lo <= folded_bounds(s).left <= hi,
        lo <= folded_bounds(s).top <= hi,
        lo <= folded_bounds(s).right <= hi,
        lo <= folded_bounds(s).bottom <= hi,
    decreases s.len(),
{
    if s.len() > 1 {
        let rest = s.drop_last();
        assert forall|i: int| 0 <= i < rest.len() implies lo <= (#[trigger] rest[i]).x
            - CITY_BOUNDS_OFFSET && rest[i].x + rest[i].width + CITY_BOUNDS_OFFSET <= hi && lo
            <= rest[i].y - CITY_BOUNDS_OFFSET && rest[i].y + rest[i].height + CITY_BOUNDS_OFFSET <= hi
            && rest[i].width >= 0 && rest[i].height >= 0 by {
            assert(rest[i] == s[i]);
        }
        lemma_folded_within(rest, lo, hi);
        assert(s.last() == s[s.len() - 1]);
    } else {
        assert(folded_bounds(s.drop_last()) == folded_bounds(Seq::<Building>::empty()));
        assert(s.last() == s[0]);
    }
}

} // verus!
