//! The second phase: the ordinary buildings. Each grows next to a building
//! that is already there, ever closer as the city fills, and is joined by
//! a road to the nearest important building.

use crate::building::Building;
use crate::city::{City, CITY_BOUNDS_OFFSET, Extent};
use crate::city_generation::{after_attempt, CityGenerator, GenerationError, Verdict};
use crate::layout::{
    collides, laid_out, lemma_clear_joins, lemma_laid_out_buildings, lemma_spread, mark_footprint,
    spec_collides, spread, stamped, within,
};
use crate::plan::plan_of;
use crate::random::{coin, in_range, pick};
use crate::router::{lemma_route_connected, road_of};
use crate::city::building_at;
use crate::sorting::{anchors_of, sorted, sorted_anchors};
use crate::upkeep::{half_placed, lemma_building_joins, lemma_road_completes, lemma_route_avoids};
use std::ops::Range;
use vstd::prelude::*;

verus! {

/// How far from its anchor a building spawns while `remaining` of `total`
/// buildings are still to come: from the end of the bound for the first
/// building down towards its start, in equal parts, rounded down.
pub open spec fn spec_spawn_distance(bound: Range<i32>, remaining: usize, total: usize) -> int {
    bound.start + ((bound.end - bound.start) * remaining) / (total as int)
}

/// How far from its anchor a building spawns while `remaining` of `total`
/// buildings are still to come.
pub fn spawn_distance(bound: &Range<i32>, remaining: usize, total: usize) -> (r: i32)
    requires
        bound.start <= bound.end,
        0 < remaining <= total,
    ensures
        r == spec_spawn_distance(*bound, remaining, total),
        bound.start <= r <= bound.end,
{
    let span: u128 = (bound.end as i64 - bound.start as i64) as u128;
    proof {
        let (a, n, m) = (span as int, remaining as int, total as int);
        assert(0 <= a * n <= 0xffff_ffff * 0xffff_ffff_ffff_ffff) by (nonlinear_arith)
            requires
                0 <= a <= 0xffff_ffff,
                0 <= n <= 0xffff_ffff_ffff_ffff,
        ;
        assert(0 <= (a * n) / m <= a) by (nonlinear_arith)
            requires
                0 <= a,
                0 < n <= m,
        ;
    }
    let part: u128 = (span * remaining as u128) / total as u128;
    (bound.start as i64 + part as i64) as i32
}

/// The distance between two cells, in steps along the axes.
pub open spec fn steps_between(a: (i32, i32), b: (i32, i32)) -> int {
    (if a.0 < b.0 { b.0 - a.0 } else { a.0 - b.0 }) + (if a.1 < b.1 { b.1 - a.1 } else { a.1 - b.1 })
}

/// The distance between two cells, in steps along the axes.
pub fn steps(a: (i32, i32), b: (i32, i32)) -> (r: i64)
    ensures
        r == steps_between(a, b),
{
    let dx: i64 = if a.0 < b.0 { b.0 as i64 - a.0 as i64 } else { a.0 as i64 - b.0 as i64 };
    let dy: i64 = if a.1 < b.1 { b.1 as i64 - a.1 as i64 } else { a.1 as i64 - b.1 as i64 };
    dx + dy
}

/// Where in `s` the cell nearest to `p` stands: the first of them, if
/// several are as near.
pub open spec fn spec_nearest(s: Seq<(i32, i32)>, p: (i32, i32)) -> int
    decreases s.len(),
{
    if s.len() <= 1 {
        0
    } else {
        let best = spec_nearest(s.drop_last(), p);
        if steps_between(s.last(), p) < steps_between(s[best], p) {
            s.len() - 1
        } else {
            best
        }
    }
}

/// The nearest of some cells is one of them.
pub proof fn lemma_nearest_is_listed(s: Seq<(i32, i32)>, p: (i32, i32))
    ensures
        0 <= spec_nearest(s, p),
        s.len() > 0 ==> spec_nearest(s, p) < s.len(),
        s.len() == 0 ==> spec_nearest(s, p) == 0,
    decreases s.len(),
{
    if s.len() > 1 {
        lemma_nearest_is_listed(s.drop_last(), p);
    }
}

/// Where in the list of important buildings the one nearest to `p` stands,
/// by the steps from its top left corner to `p`.
pub fn nearest_important(city: &City, p: (i32, i32)) -> (r: usize)
    requires
        city.important_buildings@.len() > 0,
    ensures
        r == spec_nearest(city.important_buildings@, p),
        r < city.important_buildings@.len(),
        forall|j: int|
            0 <= j < city.important_buildings@.len() ==> steps_between(
                city.important_buildings@[r as int],
                p,
            ) <= steps_between(#[trigger] city.important_buildings@[j], p),
{
    let mut best: usize = 0;
    let mut best_steps: i64 = steps(city.important_buildings[0], p);
    let mut i: usize = 1;
    assert(city.important_buildings@.take(1).len() == 1);
    while i < city.important_buildings.len()
        invariant
            1 <= i <= city.important_buildings@.len(),
            best < i,
            best == spec_nearest(city.important_buildings@.take(i as int), p),
            best_steps == steps_between(city.important_buildings@[best as int], p),
            forall|j: int|
                0 <= j < i ==> best_steps <= steps_between(#[trigger] city.important_buildings@[j], p),
        decreases city.important_buildings@.len() - i,
    {
        let here = steps(city.important_buildings[i], p);
        proof {
            let next = city.important_buildings@.take(i + 1);
            assert(next.drop_last() =~= city.important_buildings@.take(i as int));
            assert(next.last() == city.important_buildings@[i as int]);
            assert(next[best as int] == city.important_buildings@[best as int]);
        }
        if here < best_steps {
            best = i;
            best_steps = here;
        }
        i += 1;
    }
    assert(city.important_buildings@.take(i as int) =~= city.important_buildings@);
    best
}

impl CityGenerator {
    /// Whether `b` is a building that the second phase may sample: not
    /// important, its size within the bounds, its door where a draw can
    /// put it.
    pub open spec fn is_growth(&self, b: Building) -> bool {
        &&& !b.is_important
        &&& self.width_bound.start <= b.width < self.width_bound.end
        &&& self.height_bound.start <= b.height < self.height_bound.end
        &&& b.door_drawn()
    }

    /// Whether `b` stands where the second phase puts a building next to
    /// `anchor`: its corner as far as `distance` from the middle of
    /// `anchor`, to one side or the other along each axis.
    pub open spec fn spawned_from(b: Building, anchor: Building, distance: int) -> bool {
        let x_center = anchor.x + anchor.width / 2;
        let y_center = anchor.y + anchor.height / 2;
        &&& (b.x == x_center + distance || b.x == x_center - distance)
        &&& (b.y == y_center + distance || b.y == y_center - distance)
    }

    /// Whether the building at `i` in `s` is one that the second phase
    /// may have grown as one of `total`, the first of them standing at
    /// `first`: it is not important, its size is within the bounds, its
    /// door is where a draw can put it, its identifier tells how many
    /// buildings were still to come, itself among them, and it stands
    /// next to a building before it in `s`, at the distance that goes
    /// with that number.
    pub open spec fn grew(&self, s: Seq<Building>, first: int, i: int, total: usize) -> bool {
        let remaining = total - (i - first);
        &&& self.is_growth(s[i])
        &&& s[i].id == remaining
        &&& exists|j: int|
            0 <= j < i && Self::spawned_from(
                s[i],
                #[trigger] s[j],
                spec_spawn_distance(self.distance_bound, remaining as usize, total),
            )
    }

    /// Sample an ordinary building: draw a building of the city, taken in
    /// the order of their corners, as its anchor; a side along each axis;
    /// a size; and a door.
    pub fn sample_building(&mut self, city: &City, remaining: usize, total: usize) -> (r: Building)
        requires
            old(self).growth_ok(),
            0 < remaining <= total,
            city.buildings@.len() >= 1,
            city.wf(),
            crate::layout::doors_sound(city.buildings@),
            spread(city.buildings@) + old(self).stride() + CITY_BOUNDS_OFFSET <= i32::MAX,
        ensures
            final(self).same_setup(old(self)),
            old(self).is_growth(r),
            r.id == remaining,
            exists|i: int|
                0 <= i < city.buildings@.len() && Self::spawned_from(
                    r,
                    #[trigger] city.buildings@[i],
                    spec_spawn_distance(old(self).distance_bound, remaining, total),
                ),
            crate::layout::reach_of(r) <= spread(city.buildings@) + old(self).stride(),
    {
        let anchor = self.draw_anchor(city);
        proof {
            lemma_spread(city.buildings@, 0);
            let at = choose|i: int| 0 <= i < city.buildings@.len() && #[trigger] city.buildings@[i] == anchor;
            assert(-spread(city.buildings@) <= city.buildings@[at].x);
        }
        self.spawn_next_to(&anchor, remaining, total)
    }

    /// The building that the number `drawn` stands for: the buildings of
    /// the city are counted from zero in the order of their corners, by
    /// column and then by row.
    pub fn anchor_at(city: &City, drawn: usize) -> (r: Building)
        requires
            drawn < city.buildings@.len(),
            city.wf(),
        ensures
            r == building_at(city.buildings@, sorted(anchors_of(city.buildings@))[drawn as int]),
            exists|i: int| 0 <= i < city.buildings@.len() && #[trigger] city.buildings@[i] == r,
    {
        let order = sorted_anchors(city);
        assert(city.has_anchor(order@[drawn as int]));
        let at = match city.find(order[drawn]) {
            Some(i) => i,
            None => 0,
        };
        city.buildings[at]
    }

    /// Draw a building of the city: a number below the number of its
    /// buildings is drawn, and the building is the one that the number
    /// stands for in the order of the corners.
    pub fn draw_anchor(&mut self, city: &City) -> (r: Building)
        requires
            city.buildings@.len() >= 1,
            city.wf(),
        ensures
            final(self).same_setup(old(self)),
            exists|drawn: int|
                0 <= drawn < city.buildings@.len() && r == building_at(
                    city.buildings@,
                    #[trigger] sorted(anchors_of(city.buildings@))[drawn],
                ),
            exists|i: int| 0 <= i < city.buildings@.len() && #[trigger] city.buildings@[i] == r,
    {
        let drawn = pick(&mut self.rng, city.buildings.len());
        Self::anchor_at(city, drawn)
    }

    /// Where a building spawns next to `anchor`: as far as `distance`
    /// from the middle of `anchor` along each axis, to the right where
    /// `right` and to the left where not, down where `down` and up where
    /// not.
    pub open spec fn spec_spawn_corner(anchor: Building, distance: int, right: bool, down: bool) -> (
        int,
        int,
    ) {
        (
            anchor.x + anchor.width / 2 + if right { distance } else { -distance },
            anchor.y + anchor.height / 2 + if down { distance } else { -distance },
        )
    }

    /// Where a building spawns next to `anchor`, given the two sides.
    pub fn spawn_corner(anchor: &Building, distance: i32, right: bool, down: bool) -> (r: (i32, i32))
        requires
            anchor.width >= 0,
            anchor.height >= 0,
            i32::MIN <= Self::spec_spawn_corner(*anchor, distance as int, right, down).0 <= i32::MAX,
            i32::MIN <= Self::spec_spawn_corner(*anchor, distance as int, right, down).1 <= i32::MAX,
        ensures
            r.0 == Self::spec_spawn_corner(*anchor, distance as int, right, down).0,
            r.1 == Self::spec_spawn_corner(*anchor, distance as int, right, down).1,
    {
        let x_center: i64 = anchor.x as i64 + (anchor.width / 2) as i64;
        let y_center: i64 = anchor.y as i64 + (anchor.height / 2) as i64;
        let x = if right { x_center + distance as i64 } else { x_center - distance as i64 };
        let y = if down { y_center + distance as i64 } else { y_center - distance as i64 };
        (x as i32, y as i32)
    }

    /// Sample an ordinary building next to `anchor`: a side along each
    /// axis, a size, and a door.
    pub fn spawn_next_to(&mut self, anchor: &Building, remaining: usize, total: usize) -> (r: Building)
        requires
            old(self).growth_ok(),
            0 < remaining <= total,
            anchor.width >= 1,
            anchor.height >= 1,
            crate::layout::reach_of(*anchor) + old(self).stride() + CITY_BOUNDS_OFFSET <= i32::MAX,
        ensures
            final(self).same_setup(old(self)),
            old(self).is_growth(r),
            r.id == remaining,
            Self::spawned_from(
                r,
                *anchor,
                spec_spawn_distance(old(self).distance_bound, remaining, total),
            ),
            exists|right: bool, down: bool|
                (r.x as int, r.y as int) == #[trigger] Self::spec_spawn_corner(
                    *anchor,
                    spec_spawn_distance(old(self).distance_bound, remaining, total),
                    right,
                    down,
                ),
            crate::layout::reach_of(r) <= crate::layout::reach_of(*anchor) + old(self).stride(),
    {
        let distance = spawn_distance(&self.distance_bound, remaining, total);
        proof {
            self.lemma_spawn_fits(*anchor, crate::layout::reach_of(*anchor), distance);
        }
        let right = coin(&mut self.rng);
        let down = coin(&mut self.rng);
        let (spawn_x, spawn_y) = Self::spawn_corner(anchor, distance, right, down);
        let width = in_range(&mut self.rng, self.width_bound.start, self.width_bound.end);
        let height = in_range(&mut self.rng, self.height_bound.start, self.height_bound.end);
        let building = Building::with_random_door(
            &mut self.rng,
            spawn_x,
            spawn_y,
            width,
            height,
            remaining,
        );
        assert((building.x as int, building.y as int) == Self::spec_spawn_corner(
            *anchor,
            distance as int,
            right,
            down,
        ));
        building
    }

    /// A building that spawns next to an anchor within `limit` of the
    /// origin, at a distance within the bound, with a size within the
    /// bounds, reaches no farther than one stride beyond `limit`.
    pub proof fn lemma_spawn_fits(&self, anchor: Building, limit: int, distance: i32)
        requires
            self.growth_ok(),
            crate::layout::reach_of(anchor) <= limit,
            anchor.width >= 1,
            anchor.height >= 1,
            self.distance_bound.start <= distance <= self.distance_bound.end,
        ensures
            -limit <= anchor.x + anchor.width / 2 <= limit,
            -limit <= anchor.y + anchor.height / 2 <= limit,
            -self.distance_end() <= distance <= self.distance_end(),
            forall|b: Building|
                Self::spawned_from(b, anchor, distance as int) && self.width_bound.start <= (
                #[trigger] b.width) < self.width_bound.end && self.height_bound.start <= b.height
                    < self.height_bound.end ==> crate::layout::reach_of(b) <= limit + self.stride(),
    {
    }

    /// The first half of placing a building: write its footprint into the
    /// occupancy index, widen the bounds, and add it to the buildings.
    pub fn settle(&mut self, city: &mut City, building: Building)
        requires
            laid_out(old(city), old(self).occupancy@),
            !spec_collides(old(city).buildings@, old(self).occupancy@, building),
            !building.is_important,
            building.width >= 1,
            building.height >= 1,
            building.door_on_boundary(),
            building.has_margin(CITY_BOUNDS_OFFSET),
        ensures
            final(self).same_bounds(old(self)),
            final(self).occupancy@ == stamped(old(self).occupancy@, building),
            plan_of(final(city), final(self).occupancy@) == plan_of(
                old(city),
                old(self).occupancy@,
            ).settled(building),
            half_placed(final(city), final(self).occupancy@),
            final(city).buildings@ == old(city).buildings@.push(building),
            final(city).important_buildings == old(city).important_buildings,
            final(city).roads == old(city).roads,
            final(city).bounds() == old(city).bounds().join(
                Extent::of(building).widened(CITY_BOUNDS_OFFSET as int),
            ),
    {
        proof {
            reveal(laid_out);
            lemma_clear_joins(city.buildings@, building);
        }
        mark_footprint(&mut self.occupancy, &building);
        city.update_borders_from_new_building(&building);
        city.insert(building);
        proof {
            assert(city.buildings@ == old(city).buildings@.push(building));
            lemma_building_joins(old(city), city, old(self).occupancy@, building);
        }
    }

    /// The second half of placing a building: search a road from the door
    /// of the last building of the city towards the nearest important
    /// building, and lay it.
    pub fn join_last(&mut self, city: &mut City)
        requires
            half_placed(old(city), old(self).occupancy@),
            old(city).important_buildings@.len() >= 1,
            old(city).buildings@.len() > old(city).important_buildings@.len(),
        ensures
            final(self).same_bounds(old(self)),
            laid_out(final(city), final(self).occupancy@),
            final(city).buildings == old(city).buildings,
            final(city).important_buildings == old(city).important_buildings,
            final(city).roads@.len() == old(city).roads@.len() + 1,
            final(city).roads@.drop_last() == old(city).roads@,
            plan_of(final(city), final(self).occupancy@) == plan_of(
                old(city),
                old(self).occupancy@,
            ).with_road(
                plan_of(old(city), old(self).occupancy@).road_between(
                    old(city).buildings@.last(),
                    old(city).buildings@[spec_nearest(
                        old(city).important_buildings@,
                        old(city).buildings@.last().anchor(),
                    )],
                ),
            ),
            old(self).grid(old(city)).is_searched_road(
                old(city).buildings@.last().door,
                old(city).buildings@[spec_nearest(
                    old(city).important_buildings@,
                    old(city).buildings@.last().anchor(),
                )],
                final(city).roads@.last()@,
            ),
    {
        let last = city.buildings.len() - 1;
        let building = city.buildings[last];
        let nearest = nearest_important(city, (building.x, building.y));
        proof {
            assert(city.buildings@[nearest as int].anchor() == city.important_buildings@[nearest as int]);
        }
        let target = match city.find(city.important_buildings[nearest]) {
            Some(i) => city.buildings[i],
            None => city.buildings[nearest],
        };
        assert(target == city.buildings@[nearest as int]);
        let outcome = self.generate_road(city, &building, &target);
        proof {
            if outcome is Some {
                lemma_route_connected(self.grid(city), building.door, target, road_of(outcome));
                lemma_route_avoids(self, city, last as int, &target, road_of(outcome));
            }
        }
        self.lay_road(city, outcome);
        proof {
            lemma_road_completes(old(city), city, old(self).occupancy@, road_of(outcome));
        }
    }

    /// Put a building that fits into the city: write its footprint into
    /// the occupancy index, widen the bounds, add it to the buildings,
    /// then search a road from its door towards the nearest important
    /// building and lay it.
    pub fn place_building(&mut self, city: &mut City, building: Building)
        requires
            laid_out(old(city), old(self).occupancy@),
            old(city).important_buildings@.len() >= 1,
            !spec_collides(old(city).buildings@, old(self).occupancy@, building),
            !building.is_important,
            building.width >= 1,
            building.height >= 1,
            building.door_on_boundary(),
            building.has_margin(CITY_BOUNDS_OFFSET),
        ensures
            final(self).same_bounds(old(self)),
            laid_out(final(city), final(self).occupancy@),
            final(city).buildings@ == old(city).buildings@.push(building),
            final(city).important_buildings == old(city).important_buildings,
            final(city).bounds() == old(city).bounds().join(
                Extent::of(building).widened(CITY_BOUNDS_OFFSET as int),
            ),
            final(city).roads@.len() == old(city).roads@.len() + 1,
            final(city).roads@.drop_last() == old(city).roads@,
            plan_of(final(city), final(self).occupancy@) == plan_of(
                old(city),
                old(self).occupancy@,
            ).with_growth(building),
            plan_of(old(city), old(self).occupancy@).growth_searched(building),
    {
        proof {
            lemma_laid_out_buildings(city, self.occupancy@);
        }
        self.settle(city, building);
        let ghost settled = plan_of(city, self.occupancy@);
        self.join_last(city);
        proof {
            let nearest = settled.buildings[spec_nearest(settled.important, building.anchor())];
            assert(settled.buildings.last() == building);
            assert(plan_of(city, self.occupancy@).roads.last() == city.roads@.last()@);
            assert(settled.with_road(settled.road_between(building, nearest)).roads.last()
                == settled.road_between(building, nearest));
        }
    }

    /// The second phase: grow `n` ordinary buildings, one at a time. Each
    /// is sampled next to a building that is drawn from those of the
    /// city, at a distance that shrinks as the buildings still to come
    /// get fewer, and sampled anew until it fits; then it is placed and
    /// joined by a road to the nearest important building. Fails when a
    /// building has not fitted after `max_attempts` samples.
    pub fn generate_buildings(&mut self, city: &mut City, n: usize) -> (r: Result<(), GenerationError>)
        requires
            n > 0 ==> laid_out(old(city), old(self).occupancy@) && old(self).growth_ok() && old(
                city,
            ).important_buildings@.len() >= 1 && spread(old(city).buildings@) + n * old(self).stride()
                + CITY_BOUNDS_OFFSET <= i32::MAX,
        ensures
            final(self).same_bounds(old(self)),
            n > 0 ==> laid_out(final(city), final(self).occupancy@),
            n == 0 ==> *final(city) == *old(city) && final(self).occupancy@ == old(self).occupancy@,
            final(city).important_buildings == old(city).important_buildings,
            final(city).buildings@.len() >= old(city).buildings@.len(),
            final(city).buildings@.take(old(city).buildings@.len() as int) == old(city).buildings@,
            forall|i: int|
                #![trigger final(city).buildings@[i]]
                old(city).buildings@.len() <= i < final(city).buildings@.len() ==> old(self).grew(
                    final(city).buildings@,
                    old(city).buildings@.len() as int,
                    i,
                    n,
                ),
            plan_of(final(city), final(self).occupancy@) == plan_of(
                old(city),
                old(self).occupancy@,
            ).with_growths(final(city).buildings@.skip(old(city).buildings@.len() as int)),
            plan_of(old(city), old(self).occupancy@).growths_searched(
                final(city).buildings@.skip(old(city).buildings@.len() as int),
            ),
            final(city).roads@.len() - old(city).roads@.len() == final(city).buildings@.len() - old(
                city,
            ).buildings@.len(),
            spread(final(city).buildings@) <= spread(old(city).buildings@) + n * old(self).stride(),
            r is Ok ==> final(city).buildings@.len() == old(city).buildings@.len() + n,
            n == 0 ==> r is Ok,
            n > 0 && old(self).max_attempts == 0 ==> r is Err && *final(city) == *old(city)
                && final(self).occupancy@ == old(self).occupancy@,
    {
        let ghost stride = self.stride();
        proof {
            lemma_spread(city.buildings@, 0);
            assert(city.buildings@.take(city.buildings@.len() as int) =~= city.buildings@);
            assert(0 * stride == 0) by (nonlinear_arith);
            assert(city.buildings@.skip(city.buildings@.len() as int) =~= Seq::<Building>::empty());
        }
        if n == 0 {
            return Ok(());
        }
        if self.max_attempts == 0 {
            return Err(GenerationError::PlacementExhausted);
        }
        proof {
            lemma_laid_out_buildings(city, self.occupancy@);
        }
        let ghost start = plan_of(city, self.occupancy@);
        let ghost first = city.buildings@.len() as int;
        let mut remaining: usize = n;
        let mut misses: usize = 0;
        while remaining > 0
            invariant
                0 < n,
                remaining <= n,
                stride == self.stride(),
                stride >= 0,
                self.same_bounds(old(self)),
                self.growth_ok(),
                laid_out(city, self.occupancy@),
                city.important_buildings == old(city).important_buildings,
                city.important_buildings@.len() >= 1,
                spread(city.buildings@) + remaining * stride <= spread(old(city).buildings@) + n * stride,
                spread(old(city).buildings@) + n * stride + CITY_BOUNDS_OFFSET <= i32::MAX,
                city.buildings@.len() == old(city).buildings@.len() + (n - remaining),
                city.roads@.len() == old(city).roads@.len() + (n - remaining),
                city.buildings@.take(old(city).buildings@.len() as int) == old(city).buildings@,
                first == old(city).buildings@.len(),
                start == plan_of(old(city), old(self).occupancy@),
                forall|i: int|
                    #![trigger city.buildings@[i]]
                    first <= i < city.buildings@.len() ==> old(self).grew(city.buildings@, first, i, n),
                plan_of(city, self.occupancy@) == start.with_growths(city.buildings@.skip(first)),
                start.growths_searched(city.buildings@.skip(first)),
                misses < self.max_attempts,
            decreases remaining, self.max_attempts - misses,
        {
            proof {
                Self::lemma_one_more(remaining as int, stride);
                lemma_laid_out_buildings(city, self.occupancy@);
            }
            let candidate = self.sample_building(city, remaining, n);
            let fits = !collides(city, &self.occupancy, &candidate);
            match after_attempt(misses, self.max_attempts, fits) {
                Verdict::GiveUp => {
                    return Err(GenerationError::PlacementExhausted);
                },
                Verdict::Retry => {
                    misses += 1;
                },
                Verdict::Placed => {
                let ghost before = city.buildings@;
                proof {
                    Self::lemma_reach_has_margin(candidate, spread(before) + stride);
                }
                self.place_building(city, candidate);
                proof {
                    Self::lemma_grown(old(city).buildings@, before, candidate);
                    assert forall|i: int|
                        #![trigger city.buildings@[i]]
                        first <= i < city.buildings@.len() implies old(self).grew(
                        city.buildings@,
                        first,
                        i,
                        n,
                    ) by {
                        if i < before.len() {
                            assert(city.buildings@[i] == before[i]);
                            old(self).lemma_grew_stays(before, candidate, first, i, n);
                        } else {
                            let j = choose|j: int|
                                0 <= j < before.len() && Self::spawned_from(
                                    candidate,
                                    #[trigger] before[j],
                                    spec_spawn_distance(self.distance_bound, remaining, n),
                                );
                            assert(city.buildings@[j] == before[j]);
                        }
                    }
                    assert(city.buildings@.skip(first).drop_last() =~= before.skip(first));
                    assert(city.buildings@.skip(first).last() == candidate);
                }
                remaining -= 1;
                misses = 0;
                },
            }
        }
        Ok(())
    }

    /// What holds of a grown building still holds when another building
    /// joins the buildings after it.
    pub proof fn lemma_grew_stays(&self, s: Seq<Building>, b: Building, first: int, i: int, total: usize)
        requires
            0 <= i < s.len(),
            self.grew(s, first, i, total),
        ensures
            self.grew(s.push(b), first, i, total),
    {
        let remaining = total - (i - first);
        let j = choose|j: int|
            0 <= j < i && Self::spawned_from(
                s[i],
                #[trigger] s[j],
                spec_spawn_distance(self.distance_bound, remaining as usize, total),
            );
        assert(s.push(b)[j] == s[j]);
        assert(s.push(b)[i] == s[i]);
    }

    /// One building more takes one stride of the room that is left.
    pub proof fn lemma_one_more(remaining: int, stride: int)
        requires
            remaining >= 1,
            stride >= 0,
        ensures
            remaining * stride == (remaining - 1) * stride + stride,
            (remaining - 1) * stride >= 0,
    {
        assert(remaining * stride == (remaining - 1) * stride + stride && (remaining - 1) * stride >= 0)
            by (nonlinear_arith)
            requires
                remaining >= 1,
                stride >= 0,
        ;
    }

    /// A building that reaches no farther than `limit` has room for the
    /// margin of the bounds round it, where `limit` leaves that room.
    pub proof fn lemma_reach_has_margin(b: Building, limit: int)
        requires
            crate::layout::reach_of(b) <= limit,
            limit + CITY_BOUNDS_OFFSET <= i32::MAX,
            b.width >= 0,
            b.height >= 0,
        ensures
            b.has_margin(CITY_BOUNDS_OFFSET),
    {
    }

    /// After `b` has joined the buildings `before`, which began with
    /// `first`, they still begin with `first`, and they reach as far as
    /// the farther of `before` and `b`.
    pub proof fn lemma_grown(first: Seq<Building>, before: Seq<Building>, b: Building)
        requires
            first.len() <= before.len(),
            before.take(first.len() as int) == first,
        ensures
            before.push(b).take(first.len() as int) == first,
            spread(before.push(b)) == if crate::layout::reach_of(b) > spread(before) {
                crate::layout::reach_of(b)
            } else {
                spread(before)
            },
    {
        assert(before.push(b).take(first.len() as int) =~= before.take(first.len() as int));
        assert(before.push(b).drop_last() =~= before);
    }
}

} // verus!
