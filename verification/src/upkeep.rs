//! How each step of the generator keeps the layout: the footprint of a new
//! building, the cells of a new road, and the two together at a new scale.

use crate::building::Building;
use crate::city::{door_among, City};
use crate::city_generation::CityGenerator;
use crate::city::{Extent, CITY_BOUNDS_OFFSET};
use crate::layout::{
    avoids, border_taken, bounds_hold, connected, doors_free, doors_sound, footprints_marked,
    important_listed, joining_roads, joining_starts, laid_out, lemma_clear_joins,
    lemma_joining_starts_grow, lemma_joining_starts_stay, pair_place, seed_in_order, lemma_clear_means_disjoint, marked,
    on_border, paved, roads_avoid, roads_marked, roads_sound, spec_collides, spec_keeps_clear,
    stamped, well_spaced, CLEARANCE, IMPORTANT_CLEARANCE,
};
use crate::occupancy::CellType;
use crate::rescale::{cell_scalable, lemma_walked, scaled_all, stretched, walked};
use crate::router::{entrance_among, lemma_linked_is_step, unit_step};
use vstd::prelude::*;

verus! {

/// Stamping a building that keeps clear of the buildings of `s` leaves
/// their doors free and their footprints tagged, and the same holds of
/// the building itself.
pub proof fn lemma_stamp_keeps(
    s: Seq<Building>,
    tags: Map<(i32, i32), CellType>,
    b: Building,
    clearance: i32,
)
    requires
        doors_free(s, tags),
        footprints_marked(s, tags),
        doors_sound(s),
        spec_keeps_clear(s, b, clearance),
        clearance >= 1,
        b.width >= 0,
        b.height >= 0,
        b.spec_contains(b.door),
    ensures
        doors_free(s.push(b), stamped(tags, b)),
        footprints_marked(s.push(b), stamped(tags, b)),
{
    let after = stamped(tags, b);
    let t = s.push(b);
    assert forall|i: int| 0 <= i < t.len() implies !after.contains_key((#[trigger] t[i]).door) by {
        if i < s.len() {
            assert(t[i] == s[i]);
            lemma_clear_means_disjoint(s[i], b, clearance, s[i].door);
        }
    }
    assert forall|i: int, c: (i32, i32)|
        0 <= i < t.len() && #[trigger] t[i].spec_contains(c) && c != t[i].door implies after.contains_key(c)
        && after[c] == CellType::Building by {
        if i < s.len() {
            assert(t[i] == s[i]);
            assert(s[i].spec_contains(c));
            lemma_clear_means_disjoint(s[i], b, clearance, c);
            lemma_clear_means_disjoint(s[i], b, clearance, b.door);
        }
    }
}

/// A connected road that starts at a door of `s`, respects the walls of
/// `s` and is written into `tags` has no cell in the footprint of a
/// building that keeps clear of `s` and whose border is free.
pub proof fn lemma_road_misses(
    road: Seq<(i32, i32)>,
    s: Seq<Building>,
    tags: Map<(i32, i32), CellType>,
    b: Building,
    j: int,
)
    requires
        0 <= j < road.len(),
        connected(road),
        door_among(s, road[0]),
        marked(road, s, tags),
        doors_sound(s),
        spec_keeps_clear(s, b, CLEARANCE),
        !border_taken(tags, b),
        b.width >= 0,
        b.height >= 0,
    ensures
        !b.spec_contains(road[j]),
    decreases j,
{
    let c = road[j];
    if door_among(s, c) {
        let i = choose|i: int| 0 <= i < s.len() && (#[trigger] s[i]).door == c;
        lemma_clear_means_disjoint(s[i], b, CLEARANCE, c);
    } else {
        lemma_road_misses(road, s, tags, b, j - 1);
        let before = road[j - 1];
        assert(unit_step(before, road[j - 1 + 1]));
        if b.spec_contains(c) {
            assert(on_border(b, c));
            assert(tags.contains_key(c));
        }
    }
}

/// A road as in `lemma_road_misses` still respects the walls, and is
/// still written into the index, after the building has been stamped and
/// has joined the buildings.
pub proof fn lemma_stamp_keeps_road(
    road: Seq<(i32, i32)>,
    s: Seq<Building>,
    tags: Map<(i32, i32), CellType>,
    b: Building,
)
    requires
        connected(road),
        road.len() > 0 ==> door_among(s, road[0]),
        avoids(road, s),
        marked(road, s, tags),
        doors_sound(s),
        spec_keeps_clear(s, b, CLEARANCE),
        !border_taken(tags, b),
        b.width >= 0,
        b.height >= 0,
    ensures
        avoids(road, s.push(b)),
        marked(road, s.push(b), stamped(tags, b)),
{
    let t = s.push(b);
    let after = stamped(tags, b);
    assert forall|j: int, i: int|
        0 <= j < road.len() && 0 <= i < t.len() && #[trigger] t[i].spec_contains(road[j]) implies road[j]
        == t[i].door by {
        lemma_road_misses(road, s, tags, b, j);
        if i < s.len() {
            assert(t[i] == s[i]);
            assert(s[i].spec_contains(road[j]));
        }
    }
    assert forall|j: int| 0 <= j < road.len() && !door_among(t, #[trigger] road[j]) implies after.contains_key(
        road[j],
    ) && after[road[j]] == CellType::Road by {
        lemma_road_misses(road, s, tags, b, j);
        if door_among(s, road[j]) {
            let i = choose|i: int| 0 <= i < s.len() && (#[trigger] s[i]).door == road[j];
            assert(t[i].door == road[j]);
        }
        assert(t[s.len() as int].door == b.door);
    }
}

/// Paving a road that respects the walls of `s` leaves the doors of `s`
/// free and the footprints tagged, and the road is then written into the
/// index.
pub proof fn lemma_pave_keeps(s: Seq<Building>, tags: Map<(i32, i32), CellType>, road: Seq<(i32, i32)>)
    requires
        doors_free(s, tags),
        footprints_marked(s, tags),
        avoids(road, s),
    ensures
        doors_free(s, paved(tags, s, road)),
        footprints_marked(s, paved(tags, s, road)),
        marked(road, s, paved(tags, s, road)),
{
    let after = paved(tags, s, road);
    assert forall|i: int, c: (i32, i32)|
        0 <= i < s.len() && #[trigger] s[i].spec_contains(c) && c != s[i].door implies after.contains_key(c)
        && after[c] == CellType::Building by {
        if road.contains(c) {
            let j = choose|j: int| 0 <= j < road.len() && road[j] == c;
            assert(s[i].spec_contains(road[j]));
        }
    }
    assert forall|j: int| 0 <= j < road.len() && !door_among(s, #[trigger] road[j]) implies after.contains_key(
        road[j],
    ) && after[road[j]] == CellType::Road by {
        assert(road.contains(road[j]));
    }
}

/// A road that is written into the index is still written into it after
/// another road has been paved.
pub proof fn lemma_pave_keeps_road(
    earlier: Seq<(i32, i32)>,
    s: Seq<Building>,
    tags: Map<(i32, i32), CellType>,
    road: Seq<(i32, i32)>,
)
    requires
        marked(earlier, s, tags),
    ensures
        marked(earlier, s, paved(tags, s, road)),
{
}

/// A route that starts at the door of a building of the city respects
/// the walls of the city, where the footprints are tagged and the doors
/// are free.
pub proof fn lemma_route_avoids(
    generator: &CityGenerator,
    city: &City,
    from: int,
    end: &Building,
    path: Seq<(i32, i32)>,
)
    requires
        0 <= from < city.buildings@.len(),
        generator.grid(city).is_route(city.buildings@[from].door, *end, path),
        doors_free(city.buildings@, generator.occupancy@),
        footprints_marked(city.buildings@, generator.occupancy@),
        doors_sound(city.buildings@),
        well_spaced(city.buildings@),
    ensures
        avoids(path, city.buildings@),
{
    let s = city.buildings@;
    let tags = generator.occupancy@;
    assert forall|j: int, i: int|
        0 <= j < path.len() && 0 <= i < s.len() && #[trigger] s[i].spec_contains(path[j]) implies path[j]
        == s[i].door by {
        let c = path[j];
        if j == 0 {
            if i != from {
                assert(crate::layout::apart(s[i], s[from]));
                assert(!s[i].spec_overlaps(&s[from], IMPORTANT_CLEARANCE));
                lemma_clear_means_disjoint(s[i], s[from], IMPORTANT_CLEARANCE, c);
            }
        } else {
            let before = path[j - 1];
            assert(generator.grid(city).linked(before, path[j - 1 + 1]));
            lemma_linked_is_step(generator.grid(city), before, c);
            if c != s[i].door {
                assert(tags.contains_key(c) && tags[c] == CellType::Building);
                assert(entrance_among(city.buildings@, c));
                let k = choose|k: int|
                    0 <= k < s.len() && (#[trigger] s[k]).spec_contains(c) && s[k].door == c;
                assert(!tags.contains_key(s[k].door));
            }
        }
    }
}

/// On the way from a cell to the next, both brought to scale, no cell
/// lies in the footprint of a building brought to scale, unless it is its
/// door, where the two cells respect the walls of the building.
pub proof fn lemma_walked_avoids(p: (i32, i32), q: (i32, i32), b: Building, k: i32, t: int)
    requires
        unit_step(p, q),
        k >= 1,
        0 <= t < k,
        cell_scalable(p, k),
        cell_scalable(q, k),
        b.scalable(k),
        b.width >= 0,
        b.height >= 0,
        b.spec_contains(p) ==> p == b.door,
        b.spec_contains(q) ==> q == b.door,
    ensures
        b.spec_scaled(k).spec_contains(walked(p, q, k as int, t)) ==> walked(p, q, k as int, t)
            == b.spec_scaled(k).door,
{
    lemma_walked(p, q, k, t);
    let kk = k as int;
    let (px, py, qx, qy) = (p.0 as int, p.1 as int, q.0 as int, q.1 as int);
    let (x, y, w, h) = (b.x as int, b.y as int, b.width as int, b.height as int);
    let (sx, sy) = (qx - px, qy - py);
    let (cx, cy) = (px * kk + t * sx, py * kk + t * sy);
    assert(t * sx == if sx == 1 { t } else if sx == -1 { -t } else { 0 }) by (nonlinear_arith)
        requires
            -1 <= sx <= 1,
    ;
    assert(t * sy == if sy == 1 { t } else if sy == -1 { -t } else { 0 }) by (nonlinear_arith)
        requires
            -1 <= sy <= 1,
    ;
    if b.spec_contains(p) {
        // p is the door, and q, one step on, lies outside
        if t > 0 {
            assert(!b.spec_contains(q));
            if qx > x + w {
                assert(px * kk == x * kk + w * kk) by (nonlinear_arith)
                    requires
                        px == x + w,
                ;
            } else if qx < x {
                assert(px * kk == x * kk) by (nonlinear_arith)
                    requires
                        px == x,
                ;
            } else if qy > y + h {
                assert(py * kk == y * kk + h * kk) by (nonlinear_arith)
                    requires
                        py == y + h,
                ;
            } else {
                assert(py * kk == y * kk) by (nonlinear_arith)
                    requires
                        py == y,
                ;
            }
        }
    } else {
        if px < x {
            assert(px * kk <= x * kk - kk) by (nonlinear_arith)
                requires
                    px <= x - 1,
                    kk >= 1,
            ;
        } else if px > x + w {
            assert(px * kk >= x * kk + w * kk + kk) by (nonlinear_arith)
                requires
                    px >= x + w + 1,
                    kk >= 1,
            ;
        } else if py < y {
            assert(py * kk <= y * kk - kk) by (nonlinear_arith)
                requires
                    py <= y - 1,
                    kk >= 1,
            ;
        } else {
            assert(py * kk >= y * kk + h * kk + kk) by (nonlinear_arith)
                requires
                    py >= y + h + 1,
                    kk >= 1,
            ;
        }
    }
}

/// Every cell of a road drawn anew lies on the way from one cell of the
/// road to the next.
pub proof fn lemma_stretched_cell(road: Seq<(i32, i32)>, k: int, n: int) -> (at: (int, int))
    requires
        k >= 1,
        0 <= n < stretched(road, k).len(),
    ensures
        0 <= at.0 < road.len() - 1,
        0 <= at.1 < k,
        stretched(road, k)[n] == walked(road[at.0], road[at.0 + 1], k, at.1),
    decreases road.len(),
{
    let rest = stretched(road.drop_last(), k);
    if n < rest.len() {
        let at = lemma_stretched_cell(road.drop_last(), k, n);
        assert(road.drop_last()[at.0] == road[at.0]);
        assert(road.drop_last()[at.0 + 1] == road[at.0 + 1]);
        at
    } else {
        (road.len() - 2, n - rest.len())
    }
}

/// A road that respects the walls of `s` respects, drawn anew, the walls
/// of `s` brought to scale.
pub proof fn lemma_stretched_avoids(road: Seq<(i32, i32)>, s: Seq<Building>, k: i32)
    requires
        k >= 1,
        connected(road),
        avoids(road, s),
        doors_sound(s),
        forall|j: int| 0 <= j < road.len() ==> cell_scalable(#[trigger] road[j], k),
        forall|i: int| 0 <= i < s.len() ==> (#[trigger] s[i]).scalable(k),
    ensures
        avoids(stretched(road, k as int), scaled_all(s, k)),
{
    let drawn = stretched(road, k as int);
    let t = scaled_all(s, k);
    assert forall|n: int, i: int|
        0 <= n < drawn.len() && 0 <= i < t.len() && #[trigger] t[i].spec_contains(drawn[n]) implies drawn[n]
        == t[i].door by {
        let at = lemma_stretched_cell(road, k as int, n);
        let p = road[at.0];
        let q = road[at.0 + 1];
        assert(unit_step(p, q));
        assert(s[i].spec_contains(p) ==> p == s[i].door) by {
            if s[i].spec_contains(road[at.0]) {
            }
        }
        assert(s[i].spec_contains(q) ==> q == s[i].door) by {
            if s[i].spec_contains(road[at.0 + 1]) {
            }
        }
        lemma_walked_avoids(p, q, s[i], k, at.1);
    }
}

/// Whether `after` is `before` with one building more, its bounds widened
/// to hold it, and nothing else changed but what the caller says of the
/// other lists.
pub open spec fn with_building(before: &City, after: &City, b: Building) -> bool {
    &&& after.buildings@ == before.buildings@.push(b)
    &&& after.bounds() == before.bounds().join(Extent::of(b).widened(CITY_BOUNDS_OFFSET as int))
}

/// Whether `after` is `before` with `road` as one road more, and nothing
/// else changed.
pub open spec fn with_road(before: &City, after: &City, road: Seq<(i32, i32)>) -> bool {
    &&& after.buildings@ == before.buildings@
    &&& after.important_buildings@ == before.important_buildings@
    &&& after.bounds() == before.bounds()
    &&& after.roads@.len() == before.roads@.len() + 1
    &&& after.roads@.drop_last() == before.roads@
    &&& after.roads@.last()@ == road
}

/// A city of important buildings without roads stays laid out when an
/// important building that keeps clear of the others joins it.
pub proof fn lemma_seed_joins(
    before: &City,
    after: &City,
    tags: Map<(i32, i32), CellType>,
    b: Building,
)
    requires
        laid_out(before, tags),
        before.roads@.len() == 0,
        before.buildings@.len() == before.important_buildings@.len(),
        b.is_important,
        b.width >= 1,
        b.height >= 1,
        b.door_on_boundary(),
        spec_keeps_clear(before.buildings@, b, IMPORTANT_CLEARANCE),
        with_building(before, after, b),
        after.important_buildings@ == before.important_buildings@.push(b.anchor()),
        after.roads@.len() == 0,
    ensures
        laid_out(after, stamped(tags, b)),
{
    reveal(laid_out);
    let s = before.buildings@;
    assert forall|i: int| 0 <= i < s.len() implies (#[trigger] s[i]).is_important by {}
    lemma_stamp_keeps(s, tags, b, IMPORTANT_CLEARANCE);
    lemma_clear_joins(s, b);
    lemma_building_fits(before, after, b);
    assert(important_listed(after)) by {
        assert forall|k: int| 0 <= k < after.important_buildings@.len() implies (
        #[trigger] after.buildings@[k]).anchor() == after.important_buildings@[k]
            && after.buildings@[k].is_important by {
            if k < s.len() {
                assert(after.buildings@[k] == s[k]);
            }
        }
    }
}

/// The bounds and the doors stay sound when a building with a sound door
/// joins the city and the bounds are widened to hold it.
pub proof fn lemma_building_fits(before: &City, after: &City, b: Building)
    requires
        bounds_hold(before),
        doors_sound(before.buildings@),
        b.width >= 1,
        b.height >= 1,
        b.door_on_boundary(),
        with_building(before, after, b),
    ensures
        bounds_hold(after),
        doors_sound(after.buildings@),
{
    let s = before.buildings@;
    assert forall|i: int| 0 <= i < after.buildings@.len() implies after.bounds().holds(
        Extent::of(#[trigger] after.buildings@[i]).widened(CITY_BOUNDS_OFFSET as int),
    ) by {
        if i < s.len() {
            assert(after.buildings@[i] == s[i]);
            assert(before.bounds().holds(Extent::of(s[i]).widened(CITY_BOUNDS_OFFSET as int)));
        }
    }
    assert forall|i: int| 0 <= i < after.buildings@.len() implies (#[trigger] after.buildings@[i]).width
        >= 1 && after.buildings@[i].height >= 1 && after.buildings@[i].door_on_boundary() by {
        if i < s.len() {
            assert(after.buildings@[i] == s[i]);
        }
    }
}

/// The index stays in step with the city when a road that respects the
/// walls is paved and joins the roads.
pub proof fn lemma_road_paved(
    before: &City,
    after: &City,
    tags: Map<(i32, i32), CellType>,
    road: Seq<(i32, i32)>,
)
    requires
        doors_free(before.buildings@, tags),
        footprints_marked(before.buildings@, tags),
        roads_avoid(before),
        roads_marked(before, tags),
        avoids(road, before.buildings@),
        with_road(before, after, road),
    ensures
        doors_free(after.buildings@, paved(tags, before.buildings@, road)),
        footprints_marked(after.buildings@, paved(tags, before.buildings@, road)),
        roads_avoid(after),
        roads_marked(after, paved(tags, before.buildings@, road)),
{
    let s = before.buildings@;
    lemma_pave_keeps(s, tags, road);
    assert forall|r: int| 0 <= r < after.roads@.len() implies avoids(
        (#[trigger] after.roads@[r])@,
        after.buildings@,
    ) && marked(after.roads@[r]@, after.buildings@, paved(tags, s, road)) by {
        if r < before.roads@.len() {
            assert(after.roads@.drop_last()[r] == after.roads@[r]);
            assert(avoids(before.roads@[r]@, s));
            lemma_pave_keeps_road(before.roads@[r]@, s, tags, road);
        }
    }
}

/// A city of important buildings stays laid out when a road that starts
/// at the door of one of them, is connected and respects the walls is
/// paved and joins the roads.
pub proof fn lemma_road_joins(
    before: &City,
    after: &City,
    tags: Map<(i32, i32), CellType>,
    from: int,
    row: int,
    t: int,
    road: Seq<(i32, i32)>,
)
    requires
        laid_out(before, tags),
        before.buildings@.len() == before.important_buildings@.len(),
        0 <= from < before.buildings@.len(),
        0 <= row < before.buildings@.len(),
        0 <= t < before.buildings@.len() - 1,
        pair_place(before.buildings@.len() as int, row, t) == before.roads@.len(),
        connected(road),
        avoids(road, before.buildings@),
        road.len() > 0 ==> road[0] == before.buildings@[from].door,
        before.buildings@[from] == seed_in_order(before, row),
        with_road(before, after, road),
    ensures
        laid_out(after, paved(tags, before.buildings@, road)),
{
    reveal(laid_out);
    lemma_road_paved(before, after, tags, road);
    let s = before.buildings@;
    assert(s.take(s.len() as int) =~= s);
    assert forall|r: int| 0 <= r < before.roads@.len() implies #[trigger] after.roads@[r]
        == before.roads@[r] by {
        assert(after.roads@.drop_last()[r] == after.roads@[r]);
    }
    lemma_joining_starts_grow(before, after, row, t);
    assert(roads_sound(after)) by {
        assert forall|r: int| 0 <= r < after.roads@.len() implies connected(
            (#[trigger] after.roads@[r])@,
        ) by {
            if r < before.roads@.len() {
                assert(after.roads@.drop_last()[r] == after.roads@[r]);
            }
        }
        assert forall|r: int|
            0 <= r < joining_roads(after) && (#[trigger] after.roads@[r])@.len() > 0 implies door_among(
            after.buildings@.take(after.important_buildings@.len() as int),
            after.roads@[r]@[0],
        ) by {
            if r < before.roads@.len() {
                assert(after.roads@.drop_last()[r] == after.roads@[r]);
                assert(before.roads@[r]@.len() > 0);
            } else {
                assert(s[from].door == road[0]);
            }
        }
    }
    assert(bounds_hold(after)) by {
        assert forall|i: int| 0 <= i < after.buildings@.len() implies after.bounds().holds(
            Extent::of(#[trigger] after.buildings@[i]).widened(CITY_BOUNDS_OFFSET as int),
        ) by {
            assert(before.bounds().holds(Extent::of(s[i]).widened(CITY_BOUNDS_OFFSET as int)));
        }
    }
}

/// Whether the roads of a city whose last building has no road yet are
/// sound: connected, each starting at the door of its building.
pub open spec fn roads_but_last(city: &City) -> bool {
    let joining = joining_roads(city) + 1;
    &&& joining >= 0
    &&& joining_starts(city, joining)
    &&& forall|r: int| 0 <= r < city.roads@.len() ==> connected((#[trigger] city.roads@[r])@)
    &&& forall|r: int|
        0 <= r < joining && (#[trigger] city.roads@[r])@.len() > 0 ==> door_among(
            city.buildings@.take(city.important_buildings@.len() as int),
            city.roads@[r]@[0],
        )
    &&& forall|r: int|
        joining <= r < city.roads@.len() && (#[trigger] city.roads@[r])@.len() > 0
            ==> city.roads@[r]@[0] == city.buildings@[r - joining + city.important_buildings@.len()].door
}

/// What holds between the two halves of placing an ordinary building:
/// the building has joined the city and its footprint is stamped, but
/// its road is still to come.
pub open spec fn half_placed(city: &City, tags: Map<(i32, i32), CellType>) -> bool {
    &&& city.wf()
    &&& well_spaced(city.buildings@)
    &&& doors_sound(city.buildings@)
    &&& doors_free(city.buildings@, tags)
    &&& footprints_marked(city.buildings@, tags)
    &&& roads_but_last(city)
    &&& roads_avoid(city)
    &&& roads_marked(city, tags)
    &&& bounds_hold(city)
    &&& important_listed(city)
}

/// A laid out city is half placed once a building that fits has joined
/// it and its footprint is stamped.
pub proof fn lemma_building_joins(
    before: &City,
    after: &City,
    tags: Map<(i32, i32), CellType>,
    b: Building,
)
    requires
        laid_out(before, tags),
        !spec_collides(before.buildings@, tags, b),
        !b.is_important,
        b.width >= 1,
        b.height >= 1,
        b.door_on_boundary(),
        with_building(before, after, b),
        after.important_buildings@ == before.important_buildings@,
        after.roads@ == before.roads@,
    ensures
        half_placed(after, stamped(tags, b)),
{
    reveal(laid_out);
    let s = before.buildings@;
    lemma_stamp_keeps(s, tags, b, CLEARANCE);
    lemma_clear_joins(s, b);
    lemma_building_fits(before, after, b);
    assert(important_listed(after)) by {
        assert forall|k: int| 0 <= k < after.important_buildings@.len() implies (
        #[trigger] after.buildings@[k]).anchor() == after.important_buildings@[k]
            && after.buildings@[k].is_important by {
            assert(after.buildings@[k] == s[k]);
        }
        assert forall|i: int|
            after.important_buildings@.len() <= i < after.buildings@.len() implies !(
        #[trigger] after.buildings@[i]).is_important by {
            if i < s.len() {
                assert(after.buildings@[i] == s[i]);
            }
        }
    }
    assert(after.buildings@.take(before.important_buildings@.len() as int) =~= s.take(
        before.important_buildings@.len() as int,
    ));
    lemma_joining_starts_stay(before, after, joining_roads(before));
    assert(roads_but_last(after)) by {
        let seeds = before.important_buildings@.len() as int;
        assert(after.buildings@.take(seeds) =~= s.take(seeds));
        assert forall|r: int|
            joining_roads(after) + 1 <= r < after.roads@.len() && (#[trigger] after.roads@[r])@.len()
                > 0 implies after.roads@[r]@[0] == after.buildings@[r - (joining_roads(after) + 1)
            + seeds].door by {
            assert(before.roads@[r]@[0] == s[r - joining_roads(before) + seeds].door);
            assert(after.buildings@[r - joining_roads(before) + seeds] == s[r - joining_roads(before)
                + seeds]);
        }
    }
    assert forall|r: int| 0 <= r < after.roads@.len() implies avoids(
        (#[trigger] after.roads@[r])@,
        after.buildings@,
    ) && marked(after.roads@[r]@, after.buildings@, stamped(tags, b)) by {
        let road = before.roads@[r]@;
        assert(connected(road));
        assert(avoids(road, s));
        assert(marked(road, s, tags));
        if road.len() > 0 {
            lemma_starts_at_door(before, r);
        }
        lemma_stamp_keeps_road(road, s, tags, b);
    }
}

/// A road of a laid out city that is not empty starts at a door of the city.
pub proof fn lemma_starts_at_door(city: &City, r: int)
    requires
        roads_sound(city),
        important_listed(city),
        0 <= r < city.roads@.len(),
        city.roads@[r]@.len() > 0,
    ensures
        door_among(city.buildings@, city.roads@[r]@[0]),
{
    let s = city.buildings@;
    let first = city.roads@[r]@[0];
    if r < joining_roads(city) {
        let seeds = s.take(city.important_buildings@.len() as int);
        let i = choose|i: int| 0 <= i < seeds.len() && (#[trigger] seeds[i]).door == first;
        assert(s[i].door == first);
    } else {
        let i = r - joining_roads(city) + city.important_buildings@.len();
        assert(s[i].door == first);
    }
}

/// A half placed city is laid out once the road of its last building,
/// connected and respecting the walls, is paved and joins the roads.
pub proof fn lemma_road_completes(
    before: &City,
    after: &City,
    tags: Map<(i32, i32), CellType>,
    road: Seq<(i32, i32)>,
)
    requires
        half_placed(before, tags),
        before.buildings@.len() > before.important_buildings@.len(),
        connected(road),
        avoids(road, before.buildings@),
        road.len() > 0 ==> road[0] == before.buildings@.last().door,
        with_road(before, after, road),
    ensures
        laid_out(after, paved(tags, before.buildings@, road)),
{
    reveal(laid_out);
    lemma_road_paved(before, after, tags, road);
    let s = before.buildings@;
    assert(joining_roads(after) == joining_roads(before) + 1);
    assert forall|r: int| 0 <= r < before.roads@.len() implies #[trigger] after.roads@[r]
        == before.roads@[r] by {
        assert(after.roads@.drop_last()[r] == after.roads@[r]);
    }
    lemma_joining_starts_stay(before, after, joining_roads(before) + 1);
    assert(roads_sound(after)) by {
        assert forall|r: int| 0 <= r < after.roads@.len() implies connected(
            (#[trigger] after.roads@[r])@,
        ) by {
            if r < before.roads@.len() {
                assert(after.roads@.drop_last()[r] == after.roads@[r]);
            }
        }
        assert forall|r: int|
            0 <= r < joining_roads(after) && (#[trigger] after.roads@[r])@.len() > 0 implies door_among(
            after.buildings@.take(after.important_buildings@.len() as int),
            after.roads@[r]@[0],
        ) by {
            assert(after.roads@.drop_last()[r] == after.roads@[r]);
            assert(before.roads@[r]@.len() > 0);
        }
        assert forall|r: int|
            joining_roads(after) <= r < after.roads@.len() && (#[trigger] after.roads@[r])@.len()
                > 0 implies after.roads@[r]@[0] == after.buildings@[r - joining_roads(after)
            + after.important_buildings@.len()].door by {
            if r < before.roads@.len() {
                assert(after.roads@.drop_last()[r] == after.roads@[r]);
                assert(before.roads@[r]@.len() > 0);
            }
        }
    }
    assert(bounds_hold(after)) by {
        assert forall|i: int| 0 <= i < after.buildings@.len() implies after.bounds().holds(
            Extent::of(#[trigger] after.buildings@[i]).widened(CITY_BOUNDS_OFFSET as int),
        ) by {
            assert(before.bounds().holds(Extent::of(s[i]).widened(CITY_BOUNDS_OFFSET as int)));
        }
    }
}

} // verus!
