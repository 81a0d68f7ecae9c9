//! What holds of a city that was laid out, and the two ways in which a
//! layout is written into the occupancy index: the footprint of a building
//! and the cells of a road.

use crate::building::Building;
use crate::city::{building_at, door_among, City, Extent, CITY_BOUNDS_OFFSET};
use crate::sorting::{anchors_of, sorted};
use crate::occupancy::{CellType, OccupancyIndex};
use crate::router::unit_step;
use vstd::prelude::*;

verus! {

/// The clearance that two important buildings keep.
pub const IMPORTANT_CLEARANCE: i32 = 3;

/// The clearance that a building keeps from every other, unless both are
/// important.
pub const CLEARANCE: i32 = 8;

/// Whether two buildings keep their distance: neither, widened by the
/// clearance, meets the other.
pub open spec fn apart(a: Building, b: Building) -> bool {
    if a.is_important && b.is_important {
        !a.spec_overlaps(&b, IMPORTANT_CLEARANCE)
    } else {
        !a.spec_overlaps(&b, CLEARANCE)
    }
}

/// Whether any two buildings of `s` keep their distance.
pub open spec fn well_spaced(s: Seq<Building>) -> bool {
    forall|i: int, j: int|
        0 <= i < s.len() && 0 <= j < s.len() && i != j ==> apart(#[trigger] s[i], #[trigger] s[j])
}

/// Whether every building of `s` has a footprint of at least one cell each
/// way and its door on the boundary of it.
pub open spec fn doors_sound(s: Seq<Building>) -> bool {
    forall|i: int|
        0 <= i < s.len() ==> (#[trigger] s[i]).width >= 1 && s[i].height >= 1
            && s[i].door_on_boundary()
}

/// Whether the door of every building of `s` is free in `tags`.
pub open spec fn doors_free(s: Seq<Building>, tags: Map<(i32, i32), CellType>) -> bool {
    forall|i: int| 0 <= i < s.len() ==> !tags.contains_key((#[trigger] s[i]).door)
}

/// Whether every cell of the footprint of every building of `s`, but its
/// door, is tagged as building in `tags`.
pub open spec fn footprints_marked(s: Seq<Building>, tags: Map<(i32, i32), CellType>) -> bool {
    forall|i: int, c: (i32, i32)|
        0 <= i < s.len() && #[trigger] s[i].spec_contains(c) && c != s[i].door ==> tags.contains_key(c)
            && tags[c] == CellType::Building
}

/// Whether `road` respects the walls of `s`: a cell of it that lies in
/// the footprint of a building is the door of that building.
pub open spec fn avoids(road: Seq<(i32, i32)>, s: Seq<Building>) -> bool {
    forall|j: int, i: int|
        0 <= j < road.len() && 0 <= i < s.len() && #[trigger] s[i].spec_contains(road[j]) ==> road[j]
            == s[i].door
}

/// Whether every cell of `road`, but the doors of `s`, is tagged as road
/// in `tags`.
pub open spec fn marked(road: Seq<(i32, i32)>, s: Seq<Building>, tags: Map<(i32, i32), CellType>) -> bool {
    forall|j: int|
        0 <= j < road.len() && !door_among(s, #[trigger] road[j]) ==> tags.contains_key(road[j])
            && tags[road[j]] == CellType::Road
}

/// Whether every building of `s` lies between `-limit` and `limit` on both axes.
pub open spec fn within(s: Seq<Building>, limit: int) -> bool {
    forall|i: int|
        0 <= i < s.len() ==> -limit <= (#[trigger] s[i]).x && s[i].x + s[i].width <= limit
            && -limit <= s[i].y && s[i].y + s[i].height <= limit
}

/// Whether each cell of `road` but the first is one step from the cell
/// before it.
pub open spec fn connected(road: Seq<(i32, i32)>) -> bool {
    forall|i: int| #![trigger road[i]] 0 <= i < road.len() - 1 ==> unit_step(road[i], road[i + 1])
}

/// How many roads of the city join important buildings: all but one for
/// each building that is not important.
pub open spec fn joining_roads(city: &City) -> int {
    city.roads@.len() - (city.buildings@.len() - city.important_buildings@.len())
}

/// The place among the roads of the road that leads from the important
/// building at place `i`, in the order of the corners, to the `t`-th of
/// the `n - 1` others.
pub open spec fn pair_place(n: int, i: int, t: int) -> int {
    i * (n - 1) + t
}

/// The important building at place `i` in the order of the corners, by
/// column and then by row.
pub open spec fn seed_in_order(city: &City, i: int) -> Building {
    let seeds = city.buildings@.take(city.important_buildings@.len() as int);
    building_at(seeds, sorted(anchors_of(seeds))[i])
}

/// Whether each of the first `joining` roads, unless it is empty, starts
/// at the door of the first building of its pair: the roads from the
/// first important building in the order of the corners come first, then
/// those from the second, and so on.
pub open spec fn joining_starts(city: &City, joining: int) -> bool {
    let n = city.important_buildings@.len() as int;
    forall|i: int, t: int|
        0 <= i < n && 0 <= t < n - 1 && 0 <= #[trigger] pair_place(n, i, t) < joining
            && pair_place(n, i, t) < city.roads@.len() && city.roads@[pair_place(n, i, t)]@.len() > 0
            ==> city.roads@[pair_place(n, i, t)]@[0] == seed_in_order(city, i).door
}

/// Whether every road of the city is connected and, unless it is empty,
/// starts at the door of its building: for the roads that join important
/// buildings, which come first, the first building of the pair; for each
/// road after them, the building that came with it.
pub open spec fn roads_sound(city: &City) -> bool {
    &&& 0 <= joining_roads(city)
    &&& joining_starts(city, joining_roads(city))
    &&& forall|r: int| 0 <= r < city.roads@.len() ==> connected((#[trigger] city.roads@[r])@)
    &&& forall|r: int|
        0 <= r < joining_roads(city) && (#[trigger] city.roads@[r])@.len() > 0 ==> door_among(
            city.buildings@.take(city.important_buildings@.len() as int),
            city.roads@[r]@[0],
        )
    &&& forall|r: int|
        joining_roads(city) <= r < city.roads@.len() && (#[trigger] city.roads@[r])@.len() > 0
            ==> city.roads@[r]@[0] == city.buildings@[r - joining_roads(city)
            + city.important_buildings@.len()].door
}

/// Whether every road of the city respects the walls of its buildings.
pub open spec fn roads_avoid(city: &City) -> bool {
    forall|r: int| 0 <= r < city.roads@.len() ==> avoids((#[trigger] city.roads@[r])@, city.buildings@)
}

/// Whether every road of the city is written into `tags`, but for the doors.
pub open spec fn roads_marked(city: &City, tags: Map<(i32, i32), CellType>) -> bool {
    forall|r: int|
        0 <= r < city.roads@.len() ==> marked((#[trigger] city.roads@[r])@, city.buildings@, tags)
}

/// Whether the bounds of the city hold every footprint and the margin
/// round it.
pub open spec fn bounds_hold(city: &City) -> bool {
    forall|i: int|
        0 <= i < city.buildings@.len() ==> city.bounds().holds(
            Extent::of(#[trigger] city.buildings@[i]).widened(CITY_BOUNDS_OFFSET as int),
        )
}

/// Whether the important buildings of the city are its first buildings,
/// named by the list in their order, and no other building is important.
pub open spec fn important_listed(city: &City) -> bool {
    &&& city.important_buildings@.len() <= city.buildings@.len()
    &&& forall|k: int|
        0 <= k < city.important_buildings@.len() ==> (#[trigger] city.buildings@[k]).anchor()
            == city.important_buildings@[k] && city.buildings@[k].is_important
    &&& forall|i: int|
        city.important_buildings@.len() <= i < city.buildings@.len() ==> !(
        #[trigger] city.buildings@[i]).is_important
}

/// What holds of a city while and after it is generated, `tags` being the
/// occupancy index of its generator: no two buildings share a corner or
/// come too close; every door lies on its building's boundary and is free
/// in the index, while the rest of every footprint is tagged as building;
/// every road is connected, starts at the door of its building, enters
/// no footprint but through the door, and is tagged as road but for the
/// doors on it; and the bounds hold everything.
#[verifier::opaque]
pub open spec fn laid_out(city: &City, tags: Map<(i32, i32), CellType>) -> bool {
    &&& city.wf()
    &&& well_spaced(city.buildings@)
    &&& doors_sound(city.buildings@)
    &&& doors_free(city.buildings@, tags)
    &&& footprints_marked(city.buildings@, tags)
    &&& roads_sound(city)
    &&& roads_avoid(city)
    &&& roads_marked(city, tags)
    &&& bounds_hold(city)
    &&& important_listed(city)
}

/// The index after the footprint of `b` was written into `tags`: every
/// cell of the footprint is a building, but the door, which is free.
pub open spec fn stamped(tags: Map<(i32, i32), CellType>, b: Building) -> Map<(i32, i32), CellType> {
    Map::new(
        |c: (i32, i32)| (b.spec_contains(c) || tags.contains_key(c)) && c != b.door,
        |c: (i32, i32)|
            if b.spec_contains(c) {
                CellType::Building
            } else {
                tags[c]
            },
    )
}

/// The index after `road` was written into `tags`: every cell of the road
/// is a road, but those that are doors of `s`, which stay as they were.
pub open spec fn paved(tags: Map<(i32, i32), CellType>, s: Seq<Building>, road: Seq<(i32, i32)>) -> Map<
    (i32, i32),
    CellType,
> {
    Map::new(
        |c: (i32, i32)| tags.contains_key(c) || (road.contains(c) && !door_among(s, c)),
        |c: (i32, i32)|
            if road.contains(c) && !door_among(s, c) {
                CellType::Road
            } else {
                tags[c]
            },
    )
}

/// Whether `c` is among the cells that the stamping of `b` has written
/// once it stands at column `x`, row `y`: the columns before `x` whole,
/// and column `x` down to the row before `y`.
pub open spec fn stamp_done(b: Building, x: int, y: int, c: (i32, i32)) -> bool {
    &&& b.spec_contains(c)
    &&& (c.0 < x || (c.0 == x && c.1 < y))
}

/// The index while `b` is stamped into `tags`, at column `x`, row `y`.
pub open spec fn partly_stamped(tags: Map<(i32, i32), CellType>, b: Building, x: int, y: int) -> Map<
    (i32, i32),
    CellType,
> {
    Map::new(
        |c: (i32, i32)| stamp_done(b, x, y, c) || tags.contains_key(c),
        |c: (i32, i32)|
            if stamp_done(b, x, y, c) {
                CellType::Building
            } else {
                tags[c]
            },
    )
}

/// Write the footprint of `b` into the index: every cell of it becomes a
/// building, then the door is freed so that roads can go through it.
pub fn mark_footprint(index: &mut OccupancyIndex, b: &Building)
    requires
        b.x + b.width <= i32::MAX,
        b.y + b.height <= i32::MAX,
    ensures
        final(index)@ == stamped(old(index)@, *b),
{
    let right: i64 = b.x as i64 + b.width as i64;
    let bottom: i64 = b.y as i64 + b.height as i64;
    let mut x: i64 = b.x as i64;
    assert(index@ =~= partly_stamped(old(index)@, *b, x as int, b.y as int));
    while x <= right
        invariant
            b.x <= x,
            right == b.x + b.width <= i32::MAX,
            bottom == b.y + b.height <= i32::MAX,
            x <= right + 1 || x == b.x,
            index@ == partly_stamped(old(index)@, *b, x as int, b.y as int),
        decreases right + 1 - x,
    {
        let mut y: i64 = b.y as i64;
        while y <= bottom
            invariant
                b.x <= x <= right,
                b.y <= y,
                right == b.x + b.width <= i32::MAX,
                bottom == b.y + b.height <= i32::MAX,
                y <= bottom + 1 || y == b.y,
                index@ == partly_stamped(old(index)@, *b, x as int, y as int),
            decreases bottom + 1 - y,
        {
            index.mark((x as i32, y as i32), CellType::Building);
            assert(index@ =~= partly_stamped(old(index)@, *b, x as int, y + 1));
            y += 1;
        }
        assert(index@ =~= partly_stamped(old(index)@, *b, x + 1, b.y as int));
        x += 1;
    }
    index.unmark(b.door);
    assert(index@ =~= stamped(old(index)@, *b));
}

/// Write `road` into the index: every cell of it becomes a road, but the
/// doors of the city, which stay free.
pub fn mark_road(index: &mut OccupancyIndex, city: &City, road: &Vec<(i32, i32)>)
    ensures
        final(index)@ == paved(old(index)@, city.buildings@, road@),
{
    let mut i: usize = 0;
    assert(index@ =~= paved(old(index)@, city.buildings@, road@.take(0)));
    while i < road.len()
        invariant
            i <= road@.len(),
            index@ == paved(old(index)@, city.buildings@, road@.take(i as int)),
        decreases road@.len() - i,
    {
        let cell = road[i];
        proof {
            let next = road@.take(i + 1);
            let so_far = road@.take(i as int);
            assert(next =~= so_far.push(cell));
            assert forall|c: (i32, i32)| next.contains(c) <==> (so_far.contains(c) || c == cell) by {
                if so_far.contains(c) {
                    let k = choose|k: int| 0 <= k < so_far.len() && so_far[k] == c;
                    assert(next[k] == c);
                }
                if c == cell {
                    assert(next[i as int] == c);
                }
            }
        }
        if !city.is_door(cell) {
            index.mark(cell, CellType::Road);
        }
        assert(index@ =~= paved(old(index)@, city.buildings@, road@.take(i + 1)));
        i += 1;
    }
    assert(road@.take(i as int) =~= road@);
}

/// Whether `b` keeps clear of every building of `s`: none of them,
/// widened by `clearance`, meets it.
pub open spec fn spec_keeps_clear(s: Seq<Building>, b: Building, clearance: i32) -> bool {
    forall|i: int| 0 <= i < s.len() ==> !(#[trigger] s[i]).spec_overlaps(&b, clearance)
}

/// Whether `b` keeps clear of every building of the city.
pub fn keeps_clear(city: &City, b: &Building, clearance: i32) -> (r: bool)
    ensures
        r == spec_keeps_clear(city.buildings@, *b, clearance),
{
    let mut i: usize = 0;
    while i < city.buildings.len()
        invariant
            i <= city.buildings@.len(),
            forall|j: int| 0 <= j < i ==> !(#[trigger] city.buildings@[j]).spec_overlaps(b, clearance),
        decreases city.buildings@.len() - i,
    {
        if city.buildings[i].overlaps(b, clearance) {
            return false;
        }
        i += 1;
    }
    true
}

/// Two buildings of which one, widened by a clearance, does not meet the
/// other have no cell in common and stand at different corners.
pub proof fn lemma_clear_means_disjoint(a: Building, b: Building, clearance: i32, c: (i32, i32))
    requires
        !a.spec_overlaps(&b, clearance),
        clearance >= 1,
        a.width >= 0,
        a.height >= 0,
        b.width >= 0,
        b.height >= 0,
    ensures
        !(a.spec_contains(c) && b.spec_contains(c)),
        a.anchor() != b.anchor(),
{
}

/// A building that keeps clear of the buildings of `s` can join them:
/// they stay well spaced, and no two share a corner.
pub proof fn lemma_clear_joins(s: Seq<Building>, b: Building)
    requires
        well_spaced(s),
        doors_sound(s),
        crate::city::distinct_anchors(s),
        b.width >= 0,
        b.height >= 0,
        spec_keeps_clear(s, b, CLEARANCE) || (spec_keeps_clear(s, b, IMPORTANT_CLEARANCE)
            && b.is_important && forall|i: int| 0 <= i < s.len() ==> (#[trigger] s[i]).is_important),
    ensures
        well_spaced(s.push(b)),
        crate::city::distinct_anchors(s.push(b)),
        forall|i: int| 0 <= i < s.len() ==> (#[trigger] s[i]).anchor() != b.anchor(),
{
    let t = s.push(b);
    assert forall|i: int| 0 <= i < s.len() implies (#[trigger] s[i]).anchor() != b.anchor() && apart(
        s[i],
        b,
    ) && apart(b, s[i]) by {
        lemma_clear_means_disjoint(s[i], b, IMPORTANT_CLEARANCE, s[i].door);
    }
    assert forall|i: int, j: int| 0 <= i < t.len() && 0 <= j < t.len() && i != j implies apart(
        #[trigger] t[i],
        #[trigger] t[j],
    ) by {
        if i < s.len() && j < s.len() {
            assert(t[i] == s[i] && t[j] == s[j]);
        } else if i < s.len() {
            assert(t[i] == s[i]);
        } else {
            assert(t[j] == s[j]);
        }
    }
    assert forall|i: int, j: int| 0 <= i < j < t.len() implies (#[trigger] t[i]).anchor() != (
    #[trigger] t[j]).anchor() by {
        if j < s.len() {
            assert(t[i] == s[i] && t[j] == s[j]);
        } else {
            assert(t[i] == s[i]);
        }
    }
}

/// Whether `c` lies within the bounds of the city, all four bounds
/// taken in.
pub open spec fn cell_within(city: &City, c: (i32, i32)) -> bool {
    city.min_x <= c.0 <= city.max_x && city.min_y <= c.1 <= city.max_y
}

/// Whether every cell of every road lies within the bounds of the city.
pub open spec fn roads_within(city: &City) -> bool {
    forall|r: int, j: int|
        0 <= r < city.roads@.len() && 0 <= j < city.roads@[r]@.len() ==> cell_within(
            city,
            #[trigger] city.roads@[r]@[j],
        )
}

/// How far from the origin the footprint of `b` reaches, along either axis.
pub open spec fn reach_of(b: Building) -> int {
    let across = if -b.x > b.x + b.width { -b.x } else { b.x + b.width };
    let down = if -b.y > b.y + b.height { -b.y } else { b.y + b.height };
    if across > down { across } else { down }
}

/// How far from the origin the buildings of `s` reach: the least limit
/// that they all lie within, or zero for no buildings.
pub open spec fn spread(s: Seq<Building>) -> int
    decreases s.len(),
{
    if s.len() == 0 {
        0
    } else {
        let rest = spread(s.drop_last());
        if reach_of(s.last()) > rest { reach_of(s.last()) } else { rest }
    }
}

/// The buildings of `s` lie within their spread, and the spread is the
/// least such limit from zero up.
pub proof fn lemma_spread(s: Seq<Building>, limit: int)
    ensures
        within(s, spread(s)),
        spread(s) >= 0,
        within(s, limit) && limit >= 0 ==> spread(s) <= limit,
    decreases s.len(),
{
    if s.len() > 0 {
        lemma_spread(s.drop_last(), limit);
        assert forall|i: int| 0 <= i < s.len() implies -spread(s) <= (#[trigger] s[i]).x && s[i].x
            + s[i].width <= spread(s) && -spread(s) <= s[i].y && s[i].y + s[i].height <= spread(s) by {
            if i < s.len() - 1 {
                assert(s.drop_last()[i] == s[i]);
            }
        }
        if within(s, limit) && limit >= 0 {
            assert(within(s.drop_last(), limit)) by {
                assert forall|i: int| 0 <= i < s.drop_last().len() implies -limit <= (
                #[trigger] s.drop_last()[i]).x && s.drop_last()[i].x + s.drop_last()[i].width <= limit
                    && -limit <= s.drop_last()[i].y && s.drop_last()[i].y + s.drop_last()[i].height
                    <= limit by {
                    assert(s.drop_last()[i] == s[i]);
                }
            }
            assert(s.last() == s[s.len() - 1]);
        }
    }
}

/// Whether `c` lies on one of the four edges of the footprint of `b`: on
/// its first or last row between its first and last column, or on its
/// first or last column between its first and last row.
pub open spec fn on_border(b: Building, c: (i32, i32)) -> bool {
    ||| (b.x <= c.0 <= b.x + b.width && (c.1 == b.y || c.1 == b.y + b.height))
    ||| (b.y <= c.1 <= b.y + b.height && (c.0 == b.x || c.0 == b.x + b.width))
}

/// Whether a cell on the border of `b` is taken in `tags`.
pub open spec fn border_taken(tags: Map<(i32, i32), CellType>, b: Building) -> bool {
    exists|c: (i32, i32)| on_border(b, c) && #[trigger] tags.contains_key(c)
}

/// Whether `b` cannot be placed: a building of `s`, widened by the
/// clearance, meets it, or a cell on its border is taken.
pub open spec fn spec_collides(s: Seq<Building>, tags: Map<(i32, i32), CellType>, b: Building) -> bool {
    !spec_keeps_clear(s, b, CLEARANCE) || border_taken(tags, b)
}

/// Whether a cell of row `y` between the columns `from` and `to`, both
/// taken in, is taken in the index.
pub fn row_taken(index: &OccupancyIndex, from: i32, to: i32, y: i32) -> (r: bool)
    ensures
        r == exists|x: i32| from <= x <= to && #[trigger] index@.contains_key((x, y)),
{
    let mut x: i64 = from as i64;
    while x <= to as i64
        invariant
            from <= x,
            x <= to + 1 || x == from,
            forall|c: i32| from <= c < x ==> !#[trigger] index@.contains_key((c, y)),
        decreases to + 1 - x,
    {
        if index.is_occupied((x as i32, y)) {
            return true;
        }
        x += 1;
    }
    false
}

/// Whether a cell of column `x` between the rows `from` and `to`, both
/// taken in, is taken in the index.
pub fn column_taken(index: &OccupancyIndex, x: i32, from: i32, to: i32) -> (r: bool)
    ensures
        r == exists|y: i32| from <= y <= to && #[trigger] index@.contains_key((x, y)),
{
    let mut y: i64 = from as i64;
    while y <= to as i64
        invariant
            from <= y,
            y <= to + 1 || y == from,
            forall|c: i32| from <= c < y ==> !#[trigger] index@.contains_key((x, c)),
        decreases to + 1 - y,
    {
        if index.is_occupied((x, y as i32)) {
            return true;
        }
        y += 1;
    }
    false
}

/// Whether `b` cannot be placed in the city: it comes too close to a
/// building, or a cell on one of its four edges is taken in the index.
/// The cells inside are not looked at.
pub fn collides(city: &City, index: &OccupancyIndex, b: &Building) -> (r: bool)
    requires
        i32::MIN <= b.x + b.width <= i32::MAX,
        i32::MIN <= b.y + b.height <= i32::MAX,
    ensures
        r == spec_collides(city.buildings@, index@, *b),
{
    let right = b.x + b.width;
    let bottom = b.y + b.height;
    let r = !keeps_clear(city, b, CLEARANCE) || row_taken(index, b.x, right, b.y) || row_taken(
        index,
        b.x,
        right,
        bottom,
    ) || column_taken(index, b.x, b.y, bottom) || column_taken(index, right, b.y, bottom);
    proof {
        if border_taken(index@, *b) {
            let c = choose|c: (i32, i32)| on_border(*b, c) && #[trigger] index@.contains_key(c);
            if b.x <= c.0 <= right && c.1 == b.y {
                assert(index@.contains_key((c.0, b.y)));
            } else if b.x <= c.0 <= right && c.1 == bottom {
                assert(index@.contains_key((c.0, bottom)));
            } else if c.0 == b.x {
                assert(index@.contains_key((b.x, c.1)));
            } else {
                assert(index@.contains_key((right, c.1)));
            }
        }
    }
    r
}

/// In a laid out city any two buildings keep their distance: neither,
/// widened by three cells where both are important and by eight cells
/// otherwise, meets the other; and they stand at different corners.
pub proof fn lemma_laid_out_apart(city: &City, tags: Map<(i32, i32), CellType>, i: int, j: int)
    requires
        laid_out(city, tags),
        0 <= i < city.buildings@.len(),
        0 <= j < city.buildings@.len(),
        i != j,
    ensures
        apart(city.buildings@[i], city.buildings@[j]),
        !city.buildings@[i].spec_overlaps(&city.buildings@[j], IMPORTANT_CLEARANCE),
        !(city.buildings@[i].is_important && city.buildings@[j].is_important)
            ==> !city.buildings@[i].spec_overlaps(&city.buildings@[j], CLEARANCE),
        city.buildings@[i].anchor() != city.buildings@[j].anchor(),
{
    reveal(laid_out);
    let (a, b) = (city.buildings@[i], city.buildings@[j]);
    assert(apart(a, b));
    lemma_clear_means_disjoint(a, b, IMPORTANT_CLEARANCE, a.door);
}

/// In a laid out city the door of every building lies on the boundary of
/// its footprint and is free in the index, while every other cell of the
/// footprint is tagged as building.
pub proof fn lemma_laid_out_door(city: &City, tags: Map<(i32, i32), CellType>, i: int, c: (i32, i32))
    requires
        laid_out(city, tags),
        0 <= i < city.buildings@.len(),
    ensures
        city.buildings@[i].door_on_boundary(),
        !tags.contains_key(city.buildings@[i].door),
        city.buildings@[i].spec_contains(c) && c != city.buildings@[i].door ==> tags.contains_key(c)
            && tags[c] == CellType::Building,
{
    reveal(laid_out);
    if city.buildings@[i].spec_contains(c) {
    }
}

/// In a laid out city every road goes step by step along the axes and,
/// unless it is empty, starts at the door of a building of the city; it
/// enters no footprint but through the door; and each of its cells is
/// tagged as road, but for the doors on it, which are free.
pub proof fn lemma_laid_out_road(city: &City, tags: Map<(i32, i32), CellType>, r: int)
    requires
        laid_out(city, tags),
        0 <= r < city.roads@.len(),
    ensures
        connected(city.roads@[r]@),
        city.roads@[r]@.len() > 0 ==> city.spec_is_door(city.roads@[r]@[0]),
        r >= joining_roads(city) >= 0 && city.roads@[r]@.len() > 0 ==> city.roads@[r]@[0]
            == city.buildings@[r - joining_roads(city) + city.important_buildings@.len()].door,
        forall|i: int, t: int|
            0 <= i < city.important_buildings@.len() && 0 <= t < city.important_buildings@.len() - 1
                && r == #[trigger] pair_place(city.important_buildings@.len() as int, i, t) && r
                < joining_roads(city) && city.roads@[r]@.len() > 0 ==> city.roads@[r]@[0]
                == seed_in_order(city, i).door,
        avoids(city.roads@[r]@, city.buildings@),
        marked(city.roads@[r]@, city.buildings@, tags),
        forall|j: int|
            0 <= j < city.roads@[r]@.len() && city.spec_is_door(#[trigger] city.roads@[r]@[j])
                ==> !tags.contains_key(city.roads@[r]@[j]),
{
    reveal(laid_out);
    let s = city.buildings@;
    let road = city.roads@[r]@;
    if road.len() > 0 {
        if r < joining_roads(city) {
            let seeds = s.take(city.important_buildings@.len() as int);
            let i = choose|i: int| 0 <= i < seeds.len() && (#[trigger] seeds[i]).door == road[0];
            assert(s[i].door == road[0]);
        } else {
            let i = r - joining_roads(city) + city.important_buildings@.len();
            assert(s[i].door == road[0]);
        }
    }
    assert forall|j: int| 0 <= j < road.len() && city.spec_is_door(#[trigger] road[j]) implies !tags.contains_key(
        road[j],
    ) by {
        let i = choose|i: int| 0 <= i < s.len() && (#[trigger] s[i]).door == road[j];
        assert(!tags.contains_key(s[i].door));
    }
}

/// In a laid out city the bounds hold the footprint of every building
/// and the margin round it.
pub proof fn lemma_laid_out_bounds(city: &City, tags: Map<(i32, i32), CellType>, i: int)
    requires
        laid_out(city, tags),
        0 <= i < city.buildings@.len(),
    ensures
        city.min_x <= city.buildings@[i].x - CITY_BOUNDS_OFFSET,
        city.min_y <= city.buildings@[i].y - CITY_BOUNDS_OFFSET,
        city.buildings@[i].x + city.buildings@[i].width + CITY_BOUNDS_OFFSET <= city.max_x,
        city.buildings@[i].y + city.buildings@[i].height + CITY_BOUNDS_OFFSET <= city.max_y,
{
    reveal(laid_out);
    assert(city.bounds().holds(Extent::of(city.buildings@[i]).widened(CITY_BOUNDS_OFFSET as int)));
}

/// In a laid out city every building has a sound door, any two buildings
/// keep their distance and share no corner, and the important buildings
/// come first.
pub proof fn lemma_laid_out_buildings(city: &City, tags: Map<(i32, i32), CellType>)
    requires
        laid_out(city, tags),
    ensures
        city.wf(),
        doors_sound(city.buildings@),
        well_spaced(city.buildings@),
        important_listed(city),
{
    reveal(laid_out);
}

/// A laid out city stays laid out when its bounds are set anew so that
/// they hold every footprint and the margin round it.
pub proof fn lemma_bounds_renewed(before: &City, after: &City, tags: Map<(i32, i32), CellType>)
    requires
        laid_out(before, tags),
        after.buildings == before.buildings,
        after.important_buildings == before.important_buildings,
        after.roads == before.roads,
        bounds_hold(after),
    ensures
        laid_out(after, tags),
{
    reveal(laid_out);
}

/// Two pairs that have one place among the roads have one first building.
pub proof fn lemma_pair_place_row(n: int, i: int, t: int, j: int, u: int)
    requires
        0 <= i,
        0 <= j,
        0 <= t < n - 1,
        0 <= u < n - 1,
        pair_place(n, i, t) == pair_place(n, j, u),
    ensures
        i == j,
        t == u,
{
    assert(i == j && t == u) by (nonlinear_arith)
        requires
            0 <= i,
            0 <= j,
            0 <= t < n - 1,
            0 <= u < n - 1,
            i * (n - 1) + t == j * (n - 1) + u,
    ;
}

/// The joining roads keep their starts where the important buildings and
/// these roads stay as they are.
pub proof fn lemma_joining_starts_stay(before: &City, after: &City, joining: int)
    requires
        joining_starts(before, joining),
        after.important_buildings@.len() == before.important_buildings@.len(),
        after.buildings@.take(after.important_buildings@.len() as int) == before.buildings@.take(
            before.important_buildings@.len() as int,
        ),
        joining <= before.roads@.len(),
        joining <= after.roads@.len(),
        forall|r: int| 0 <= r < joining ==> #[trigger] after.roads@[r] == before.roads@[r],
    ensures
        joining_starts(after, joining),
{
    let n = before.important_buildings@.len() as int;
    assert forall|i: int, t: int|
        0 <= i < n && 0 <= t < n - 1 && 0 <= #[trigger] pair_place(n, i, t) < joining && pair_place(
            n,
            i,
            t,
        ) < after.roads@.len() && after.roads@[pair_place(n, i, t)]@.len() > 0 implies after.roads@[pair_place(
        n,
        i,
        t,
    )]@[0] == seed_in_order(after, i).door by {
        assert(after.roads@[pair_place(n, i, t)] == before.roads@[pair_place(n, i, t)]);
    }
}

/// The joining roads keep their starts when one more of them comes whose
/// start is the door of the first building of its pair.
pub proof fn lemma_joining_starts_grow(before: &City, after: &City, row: int, t: int)
    requires
        joining_starts(before, before.roads@.len() as int),
        after.important_buildings@.len() == before.important_buildings@.len(),
        after.buildings@.take(after.important_buildings@.len() as int) == before.buildings@.take(
            before.important_buildings@.len() as int,
        ),
        after.roads@.len() == before.roads@.len() + 1,
        forall|r: int| 0 <= r < before.roads@.len() ==> #[trigger] after.roads@[r] == before.roads@[r],
        0 <= row < before.important_buildings@.len(),
        0 <= t < before.important_buildings@.len() - 1,
        pair_place(before.important_buildings@.len() as int, row, t) == before.roads@.len(),
        after.roads@.last()@.len() > 0 ==> after.roads@.last()@[0] == seed_in_order(before, row).door,
    ensures
        joining_starts(after, after.roads@.len() as int),
{
    let n = before.important_buildings@.len() as int;
    assert forall|i: int, u: int|
        0 <= i < n && 0 <= u < n - 1 && 0 <= #[trigger] pair_place(n, i, u) < after.roads@.len()
            && after.roads@[pair_place(n, i, u)]@.len() > 0 implies after.roads@[pair_place(n, i, u)]@[0]
        == seed_in_order(after, i).door by {
        if pair_place(n, i, u) == before.roads@.len() {
            lemma_pair_place_row(n, i, u, row, t);
        } else {
            assert(after.roads@[pair_place(n, i, u)] == before.roads@[pair_place(n, i, u)]);
        }
    }
}

} // verus!
