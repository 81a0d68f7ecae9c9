//! Bringing a layout to scale: every coordinate of the buildings and of
//! the bounds is multiplied, every road is drawn anew at the finer grain,
//! and the occupancy index is written afresh from the result.

use crate::building::{lemma_scaled_apart, lemma_scaled_door, Building};
use crate::city::{distinct_anchors, door_among, City, CITY_BOUNDS_OFFSET};
use crate::city_generation::CityGenerator;
use crate::layout::{
    apart, avoids, bounds_hold, connected, doors_free, doors_sound, footprints_marked,
    important_listed, joining_roads, laid_out, pair_place, seed_in_order, lemma_clear_means_disjoint, mark_footprint,
    mark_road, marked, paved, roads_avoid, roads_sound, well_spaced, CLEARANCE,
    IMPORTANT_CLEARANCE,
};
use crate::plan::{paved_all, plan_of, stamped_all, stretched_all};
use crate::city::{building_at, road_cells};
use crate::sorting::{anchors_of, cell_le, in_order, lemma_sorted, lemma_sorted_is, sorted};
use crate::router::unit_step;
use vstd::prelude::*;

verus! {

/// Which way a difference points: one, zero, or minus one.
pub open spec fn sign(d: int) -> int {
    if d > 0 {
        1
    } else if d < 0 {
        -1
    } else {
        0
    }
}

/// Whether both coordinates of `cell`, multiplied by `k`, are coordinates
/// that the machine can hold.
pub open spec fn cell_scalable(cell: (i32, i32), k: i32) -> bool {
    &&& i32::MIN <= cell.0 * k <= i32::MAX
    &&& i32::MIN <= cell.1 * k <= i32::MAX
}

/// The cell `t` steps from `p`, brought to scale by `k`, towards `q`.
pub open spec fn walked(p: (i32, i32), q: (i32, i32), k: int, t: int) -> (i32, i32) {
    ((p.0 * k + t * sign(q.0 - p.0)) as i32, (p.1 * k + t * sign(q.1 - p.1)) as i32)
}

/// The `k` cells that lead from `p`, brought to scale, towards `q`,
/// brought to scale, the latter left out.
pub open spec fn segment(p: (i32, i32), q: (i32, i32), k: int) -> Seq<(i32, i32)> {
    Seq::new(k as nat, |t: int| walked(p, q, k, t))
}

/// The road drawn anew at scale `k`: for each cell of `road` but the last,
/// the `k` cells that lead from it towards the next. The last cell itself
/// is left out, and a road of one cell or none becomes empty.
pub open spec fn stretched(road: Seq<(i32, i32)>, k: int) -> Seq<(i32, i32)>
    decreases road.len(),
{
    if road.len() < 2 {
        Seq::empty()
    } else {
        stretched(road.drop_last(), k) + segment(road[road.len() - 2], road.last(), k)
    }
}

/// A cell brought to scale by `k`.
pub open spec fn scaled_cell(cell: (i32, i32), k: int) -> (i32, i32) {
    ((cell.0 * k) as i32, (cell.1 * k) as i32)
}

/// The walk from `p` to a cell `q` one step away, both brought to scale,
/// starts at `p`, goes step by step, never leaves the coordinates that the
/// machine can hold, and after `k` steps would stand on `q`.
pub proof fn lemma_walked(p: (i32, i32), q: (i32, i32), k: i32, t: int)
    requires
        unit_step(p, q),
        k >= 1,
        0 <= t < k,
        cell_scalable(p, k),
        cell_scalable(q, k),
    ensures
        i32::MIN <= p.0 * k + t * sign(q.0 - p.0) <= i32::MAX,
        i32::MIN <= p.1 * k + t * sign(q.1 - p.1) <= i32::MAX,
        sign(q.0 - p.0) == q.0 - p.0,
        sign(q.1 - p.1) == q.1 - p.1,
        t == 0 ==> walked(p, q, k as int, t) == scaled_cell(p, k as int),
        t + 1 < k ==> unit_step(walked(p, q, k as int, t), walked(p, q, k as int, t + 1)),
        t + 1 == k ==> unit_step(walked(p, q, k as int, t), scaled_cell(q, k as int)),
{
    let (px, py, qx, qy, kk) = (p.0 as int, p.1 as int, q.0 as int, q.1 as int, k as int);
    let (sx, sy) = (qx - px, qy - py);
    assert(qx * kk == px * kk + sx * kk && qy * kk == py * kk + sy * kk) by (nonlinear_arith)
        requires
            sx == qx - px,
            sy == qy - py,
    ;
    lemma_times_unit(sx, kk);
    lemma_times_unit(sy, kk);
    lemma_times_unit(sx, t);
    lemma_times_unit(sy, t);
    lemma_times_unit(sx, t + 1);
    lemma_times_unit(sy, t + 1);
    assert(sx * kk == kk * sx && sy * kk == kk * sy) by (nonlinear_arith);
}

/// A number times one, zero or minus one.
proof fn lemma_times_unit(s: int, n: int)
    requires
        -1 <= s <= 1,
    ensures
        n * s == (if s == 1 {
            n
        } else if s == -1 {
            -n
        } else {
            0
        }),
        s * n == n * s,
{
    assert(n * s == (if s == 1 {
        n
    } else if s == -1 {
        -n
    } else {
        0
    }) && s * n == n * s) by (nonlinear_arith)
        requires
            -1 <= s <= 1,
    ;
}

/// Append to `out` the cells that lead from `p`, brought to scale,
/// towards `q`, one step from `p`.
fn push_segment(out: &mut Vec<(i32, i32)>, p: (i32, i32), q: (i32, i32), k: i32)
    requires
        k >= 1,
        unit_step(p, q),
        cell_scalable(p, k),
        cell_scalable(q, k),
        connected(old(out)@),
        old(out)@.len() > 0 ==> unit_step(old(out)@.last(), scaled_cell(p, k as int)),
    ensures
        final(out)@ == old(out)@ + segment(p, q, k as int),
        connected(final(out)@),
        final(out)@.len() > 0,
        unit_step(final(out)@.last(), scaled_cell(q, k as int)),
        final(out)@[0] == (if old(out)@.len() > 0 {
            old(out)@[0]
        } else {
            scaled_cell(p, k as int)
        }),
{
    let step_x: i64 = q.0 as i64 - p.0 as i64;
    let step_y: i64 = q.1 as i64 - p.1 as i64;
    let from_x: i64 = p.0 as i64 * k as i64;
    let from_y: i64 = p.1 as i64 * k as i64;
    let mut t: i32 = 0;
    assert(out@ =~= old(out)@ + segment(p, q, k as int).take(0));
    while t < k
        invariant
            0 <= t <= k,
            k >= 1,
            unit_step(p, q),
            cell_scalable(p, k),
            cell_scalable(q, k),
            step_x == q.0 - p.0,
            step_y == q.1 - p.1,
            from_x == p.0 * k,
            from_y == p.1 * k,
            out@ == old(out)@ + segment(p, q, k as int).take(t as int),
            connected(out@),
            t > 0 ==> out@.len() > 0,
            t < k && out@.len() > 0 ==> unit_step(out@.last(), walked(p, q, k as int, t as int)),
            t == k ==> unit_step(out@.last(), scaled_cell(q, k as int)),
            out@.len() > 0 ==> out@[0] == (if old(out)@.len() > 0 {
                old(out)@[0]
            } else {
                scaled_cell(p, k as int)
            }),
        decreases k - t,
    {
        proof {
            lemma_walked(p, q, k, t as int);
            lemma_times_unit(step_x as int, t as int);
            lemma_times_unit(step_y as int, t as int);
        }
        let cell = ((from_x + t as i64 * step_x) as i32, (from_y + t as i64 * step_y) as i32);
        let ghost before = out@;
        out.push(cell);
        proof {
            assert(cell == walked(p, q, k as int, t as int));
            assert(segment(p, q, k as int).take(t + 1) =~= segment(p, q, k as int).take(t as int).push(
                cell,
            ));
            assert(out@ =~= old(out)@ + segment(p, q, k as int).take(t + 1));
            assert forall|j: int| #![trigger out@[j]] 0 <= j < out@.len() - 1 implies unit_step(
                out@[j],
                out@[j + 1],
            ) by {
                if j < before.len() - 1 {
                    assert(out@[j] == before[j] && out@[j + 1] == before[j + 1]);
                } else {
                    assert(out@[j] == before.last());
                }
            }
            if before.len() > 0 {
                assert(out@[0] == before[0]);
            }
        }
        t += 1;
    }
    assert(segment(p, q, k as int).take(k as int) =~= segment(p, q, k as int));
}

/// Draw a road anew at scale `k`.
pub fn stretch(road: &Vec<(i32, i32)>, k: i32) -> (r: Vec<(i32, i32)>)
    requires
        k >= 1,
        connected(road@),
        forall|i: int| 0 <= i < road@.len() ==> cell_scalable(#[trigger] road@[i], k),
    ensures
        r@ == stretched(road@, k as int),
        connected(r@),
        r@.len() > 0 ==> r@[0] == scaled_cell(road@[0], k as int),
        r@.len() > 0 ==> road@.len() >= 2,
{
    let mut out: Vec<(i32, i32)> = Vec::new();
    if road.len() < 2 {
        return out;
    }
    let mut i: usize = 0;
    assert(out@ =~= stretched(road@.take(1), k as int));
    while i < road.len() - 1
        invariant
            k >= 1,
            road@.len() >= 2,
            i <= road@.len() - 1,
            connected(road@),
            forall|j: int| 0 <= j < road@.len() ==> cell_scalable(#[trigger] road@[j], k),
            out@ == stretched(road@.take(i + 1), k as int),
            connected(out@),
            out@.len() > 0 ==> out@[0] == scaled_cell(road@[0], k as int),
            out@.len() > 0 ==> unit_step(out@.last(), scaled_cell(road@[i as int], k as int)),
        decreases road@.len() - 1 - i,
    {
        let p = road[i];
        let q = road[i + 1];
        assert(cell_scalable(p, k) && cell_scalable(q, k));
        assert(unit_step(road@[i as int], road@[i + 1]));
        push_segment(&mut out, p, q, k);
        proof {
            let next = road@.take(i + 2);
            assert(next.drop_last() =~= road@.take(i + 1));
            assert(next[next.len() - 2] == p && next.last() == q);
        }
        i += 1;
    }
    assert(road@.take(i + 1) =~= road@);
    out
}

/// The buildings of `s`, each brought to scale.
pub open spec fn scaled_all(s: Seq<Building>, k: i32) -> Seq<Building> {
    Seq::new(s.len(), |i: int| s[i].spec_scaled(k))
}

/// The cells of `s`, each brought to scale.
pub open spec fn scaled_cells(s: Seq<(i32, i32)>, k: i32) -> Seq<(i32, i32)> {
    Seq::new(s.len(), |i: int| scaled_cell(s[i], k as int))
}

/// Whether the city can be brought to scale `k` with coordinates that the
/// machine can hold: those of its buildings, of its roads and of its bounds.
pub open spec fn city_scalable(city: &City, k: i32) -> bool {
    &&& forall|i: int| 0 <= i < city.buildings@.len() ==> (#[trigger] city.buildings@[i]).scalable(k)
    &&& forall|i: int|
        0 <= i < city.important_buildings@.len() ==> cell_scalable(
            #[trigger] city.important_buildings@[i],
            k,
        )
    &&& forall|r: int, j: int|
        0 <= r < city.roads@.len() && 0 <= j < city.roads@[r]@.len() ==> cell_scalable(
            #[trigger] city.roads@[r]@[j],
            k,
        )
    &&& cell_scalable((city.min_x, city.min_y), k)
    &&& cell_scalable((city.max_x, city.max_y), k)
}

/// Buildings that are well spaced, with sound doors, are so when brought
/// to scale, and no two of them then share a corner.
pub proof fn lemma_scaled_layout(s: Seq<Building>, k: i32)
    requires
        k >= 1,
        well_spaced(s),
        doors_sound(s),
        forall|i: int| 0 <= i < s.len() ==> (#[trigger] s[i]).scalable(k),
    ensures
        well_spaced(scaled_all(s, k)),
        doors_sound(scaled_all(s, k)),
        distinct_anchors(scaled_all(s, k)),
{
    let t = scaled_all(s, k);
    assert forall|i: int| 0 <= i < t.len() implies (#[trigger] t[i]).width >= 1 && t[i].height >= 1
        && t[i].door_on_boundary() by {
        lemma_scaled_door(s[i], k);
        let (w, h, kk) = (s[i].width as int, s[i].height as int, k as int);
        assert(w * kk >= 1 && h * kk >= 1) by (nonlinear_arith)
            requires
                w >= 1,
                h >= 1,
                kk >= 1,
        ;
    }
    assert forall|i: int, j: int| 0 <= i < t.len() && 0 <= j < t.len() && i != j implies apart(
        #[trigger] t[i],
        #[trigger] t[j],
    ) by {
        assert(apart(s[i], s[j]));
        if s[i].is_important && s[j].is_important {
            lemma_scaled_apart(s[i], s[j], IMPORTANT_CLEARANCE, k);
        } else {
            lemma_scaled_apart(s[i], s[j], CLEARANCE, k);
        }
    }
    assert forall|i: int, j: int| 0 <= i < j < t.len() implies (#[trigger] t[i]).anchor() != (
    #[trigger] t[j]).anchor() by {
        assert(apart(t[i], t[j]));
        assert(!t[i].spec_overlaps(&t[j], IMPORTANT_CLEARANCE));
        lemma_clear_means_disjoint(t[i], t[j], IMPORTANT_CLEARANCE, t[i].door);
    }
}

/// Bringing buildings to scale keeps the order of their corners: the
/// building at each place in the order is the one that stood there
/// before, brought to scale.
pub proof fn lemma_scaled_order(s: Seq<Building>, k: i32)
    requires
        k >= 1,
        distinct_anchors(s),
        forall|i: int| 0 <= i < s.len() ==> (#[trigger] s[i]).scalable(k),
    ensures
        sorted(anchors_of(scaled_all(s, k))) == scaled_cells(sorted(anchors_of(s)), k),
        forall|i: int|
            0 <= i < s.len() ==> building_at(
                scaled_all(s, k),
                #[trigger] sorted(anchors_of(scaled_all(s, k)))[i],
            ) == building_at(s, sorted(anchors_of(s))[i]).spec_scaled(k),
{
    let a = anchors_of(s);
    let o = sorted(a);
    let s2 = scaled_all(s, k);
    let a2 = anchors_of(s2);
    let t = scaled_cells(o, k);
    lemma_sorted(a);
    assert forall|m: int| 0 <= m < s.len() implies cell_scalable(#[trigger] a[m], k) && a2[m]
        == scaled_cell(a[m], k as int) by {
        assert(s[m].scalable(k));
    }
    assert forall|i: int| 0 <= i < o.len() implies cell_scalable(#[trigger] o[i], k) && a.contains(
        o[i],
    ) by {
        assert(o.contains(o[i]));
        assert(a.contains(o[i]));
        let m = choose|m: int| 0 <= m < a.len() && a[m] == o[i];
        assert(cell_scalable(a[m], k));
    }
    assert(in_order(t)) by {
        assert forall|i: int, j: int| 0 <= i <= j < t.len() implies cell_le(
            #[trigger] t[i],
            #[trigger] t[j],
        ) by {
            assert(cell_le(o[i], o[j]));
            assert(cell_scalable(o[i], k) && cell_scalable(o[j], k));
            lemma_scaled_cell_order(o[i], o[j], k);
        }
    }
    assert(a.no_duplicates()) by {
        assert forall|i: int, j: int| 0 <= i < a.len() && 0 <= j < a.len() && i != j implies a[i]
            != a[j] by {
            if i < j {
                assert(s[i].anchor() != s[j].anchor());
            } else {
                assert(s[j].anchor() != s[i].anchor());
            }
        }
    }
    a.lemma_multiset_has_no_duplicates();
    o.lemma_multiset_has_no_duplicates_conv();
    assert(t.no_duplicates()) by {
        assert forall|i: int, j: int| 0 <= i < t.len() && 0 <= j < t.len() && i != j implies t[i]
            != t[j] by {
            assert(cell_scalable(o[i], k) && cell_scalable(o[j], k));
            lemma_scaled_cell_order(o[i], o[j], k);
        }
    }
    assert(a2.no_duplicates()) by {
        assert forall|i: int, j: int| 0 <= i < a2.len() && 0 <= j < a2.len() && i != j implies a2[i]
            != a2[j] by {
            assert(cell_scalable(a[i], k) && cell_scalable(a[j], k));
            lemma_scaled_cell_order(a[i], a[j], k);
        }
    }
    t.lemma_multiset_has_no_duplicates();
    a2.lemma_multiset_has_no_duplicates();
    t.to_multiset_ensures();
    a2.to_multiset_ensures();
    assert forall|x: (i32, i32)| t.contains(x) <==> a2.contains(x) by {
        if t.contains(x) {
            let i = choose|i: int| 0 <= i < t.len() && t[i] == x;
            assert(a.contains(o[i]));
            let m = choose|m: int| 0 <= m < a.len() && a[m] == o[i];
            assert(a2[m] == x);
        }
        if a2.contains(x) {
            let m = choose|m: int| 0 <= m < a2.len() && a2[m] == x;
            assert(a.contains(a[m]));
            assert(o.contains(a[m]));
            let i = choose|i: int| 0 <= i < o.len() && o[i] == a[m];
            assert(t[i] == x);
        }
    }
    assert(t.to_multiset() =~= a2.to_multiset()) by {
        assert forall|x: (i32, i32)| t.to_multiset().count(x) == a2.to_multiset().count(x) by {
            if t.contains(x) {
                assert(t.to_multiset().contains(x));
                assert(a2.to_multiset().contains(x));
            }
        }
    }
    lemma_sorted_is(a2, t);
    assert forall|i: int| 0 <= i < s.len() implies building_at(
        s2,
        #[trigger] sorted(anchors_of(s2))[i],
    ) == building_at(s, sorted(anchors_of(s))[i]).spec_scaled(k) by {
        assert(a.contains(o[i]));
        let m = choose|m: int| 0 <= m < a.len() && a[m] == o[i];
        assert(s[m].anchor() == o[i]);
        let before = choose|j: int| 0 <= j < s.len() && (#[trigger] s[j]).anchor() == o[i];
        if before != m {
            if before < m {
                assert(s[before].anchor() != s[m].anchor());
            } else {
                assert(s[m].anchor() != s[before].anchor());
            }
        }
        assert(s2[m].anchor() == t[i]);
        let after = choose|j: int| 0 <= j < s2.len() && (#[trigger] s2[j]).anchor() == t[i];
        assert(a2[after] == a2[m]);
    }
}

/// Bringing two cells to scale keeps their order, and keeps them apart.
pub proof fn lemma_scaled_cell_order(p: (i32, i32), q: (i32, i32), k: i32)
    requires
        k >= 1,
        cell_scalable(p, k),
        cell_scalable(q, k),
    ensures
        cell_le(p, q) ==> cell_le(scaled_cell(p, k as int), scaled_cell(q, k as int)),
        p != q ==> scaled_cell(p, k as int) != scaled_cell(q, k as int),
{
    let (px, py, qx, qy, kk) = (p.0 as int, p.1 as int, q.0 as int, q.1 as int, k as int);
    assert((px < qx ==> px * kk < qx * kk) && (px > qx ==> px * kk > qx * kk) && (py <= qy ==> py
        * kk <= qy * kk) && (py > qy ==> py * kk > qy * kk) && (py < qy ==> py * kk < qy * kk))
        by (nonlinear_arith)
        requires
            kk >= 1,
    ;
}

/// Bounds that hold a footprint and the margin round it still do when
/// both are brought to scale.
pub proof fn lemma_scaled_bounds(city: &City, b: Building, k: i32)
    requires
        k >= 1,
        city.bounds().holds(crate::city::Extent::of(b).widened(CITY_BOUNDS_OFFSET as int)),
    ensures
        city.min_x * k <= b.x * k - CITY_BOUNDS_OFFSET,
        city.min_y * k <= b.y * k - CITY_BOUNDS_OFFSET,
        b.x * k + b.width * k + CITY_BOUNDS_OFFSET <= city.max_x * k,
        b.y * k + b.height * k + CITY_BOUNDS_OFFSET <= city.max_y * k,
{
    let (x, y, w, h, kk) = (b.x as int, b.y as int, b.width as int, b.height as int, k as int);
    let (l, t, r, d) = (city.min_x as int, city.min_y as int, city.max_x as int, city.max_y as int);
    assert(l * kk <= x * kk - 20 && t * kk <= y * kk - 20) by (nonlinear_arith)
        requires
            l <= x - 20,
            t <= y - 20,
            kk >= 1,
    ;
    assert(x * kk + w * kk + 20 <= r * kk && y * kk + h * kk + 20 <= d * kk) by (nonlinear_arith)
        requires
            x + w + 20 <= r,
            y + h + 20 <= d,
            kk >= 1,
    ;
}

impl CityGenerator {
    /// Roads that start at the doors of their buildings still do when
    /// the buildings are brought to scale and the roads are drawn anew.
    pub proof fn lemma_scaled_roads_sound(before: &City, after: &City, k: i32)
        requires
            k >= 1,
            roads_sound(before),
            important_listed(before),
            before.wf(),
            forall|i: int| 0 <= i < before.buildings@.len() ==> (#[trigger] before.buildings@[i]).scalable(k),
            after.buildings@ == scaled_all(before.buildings@, k),
            after.important_buildings@.len() == before.important_buildings@.len(),
            after.roads@.len() == before.roads@.len(),
            forall|r: int| 0 <= r < after.roads@.len() ==> connected((#[trigger] after.roads@[r])@),
            forall|r: int|
                0 <= r < after.roads@.len() && (#[trigger] after.roads@[r])@.len() > 0
                    ==> before.roads@[r]@.len() > 0 && after.roads@[r]@[0] == scaled_cell(
                    before.roads@[r]@[0],
                    k as int,
                ),
        ensures
            roads_sound(after),
    {
        let s = before.buildings@;
        let t = after.buildings@;
        let seeds = before.important_buildings@.len() as int;
        assert forall|r: int|
            0 <= r < joining_roads(after) && (#[trigger] after.roads@[r])@.len() > 0 implies door_among(
            t.take(after.important_buildings@.len() as int),
            after.roads@[r]@[0],
        ) by {
            let first = before.roads@[r]@[0];
            assert(door_among(s.take(seeds), first));
            let i = choose|i: int| 0 <= i < s.take(seeds).len() && (#[trigger] s.take(seeds)[i]).door == first;
            assert(t.take(seeds)[i].door == scaled_cell(first, k as int));
        }
        assert forall|r: int|
            joining_roads(after) <= r < after.roads@.len() && (#[trigger] after.roads@[r])@.len()
                > 0 implies after.roads@[r]@[0] == t[r - joining_roads(after)
            + after.important_buildings@.len()].door by {
            let first = before.roads@[r]@[0];
            assert(first == s[r - joining_roads(before) + seeds].door);
        }
        let drafts = s.take(seeds);
        assert(t.take(seeds) =~= scaled_all(drafts, k));
        assert(distinct_anchors(drafts)) by {
            assert forall|i: int, j: int| 0 <= i < j < drafts.len() implies (#[trigger] drafts[i]).anchor()
                != (#[trigger] drafts[j]).anchor() by {
                assert(s[i].anchor() != s[j].anchor());
            }
        }
        assert forall|i: int| 0 <= i < drafts.len() implies (#[trigger] drafts[i]).scalable(k) by {
            assert(s[i].scalable(k));
        }
        lemma_scaled_order(drafts, k);
        assert forall|i: int, u: int|
            0 <= i < seeds && 0 <= u < seeds - 1 && 0 <= #[trigger] pair_place(seeds, i, u)
                < joining_roads(after) && pair_place(seeds, i, u) < after.roads@.len()
                && after.roads@[pair_place(seeds, i, u)]@.len() > 0 implies after.roads@[pair_place(
            seeds,
            i,
            u,
        )]@[0] == seed_in_order(after, i).door by {
            let r = pair_place(seeds, i, u);
            assert(before.roads@[r]@.len() > 0);
            assert(before.roads@[r]@[0] == seed_in_order(before, i).door);
            let place = sorted(anchors_of(scaled_all(drafts, k)))[i];
            assert(building_at(scaled_all(drafts, k), place) == building_at(
                drafts,
                sorted(anchors_of(drafts))[i],
            ).spec_scaled(k));
        }
    }

    /// Bring the city to scale `k`: clear the occupancy index; multiply
    /// the bounds, and the corner, the size and the door of every
    /// building; draw every road anew; and write the buildings and the
    /// roads into the index again.
    pub fn rescale(&mut self, city: &mut City, k: i32)
        requires
            k >= 1,
            old(city).wf(),
            well_spaced(old(city).buildings@),
            doors_sound(old(city).buildings@),
            roads_sound(old(city)),
            roads_avoid(old(city)),
            bounds_hold(old(city)),
            important_listed(old(city)),
            city_scalable(old(city), k),
        ensures
            final(self).same_bounds(old(self)),
            final(city).buildings@ == scaled_all(old(city).buildings@, k),
            final(city).important_buildings@ == scaled_cells(old(city).important_buildings@, k),
            final(city).roads@.len() == old(city).roads@.len(),
            forall|r: int|
                0 <= r < old(city).roads@.len() ==> (#[trigger] final(city).roads@[r])@ == stretched(
                    old(city).roads@[r]@,
                    k as int,
                ),
            final(city).min_x == old(city).min_x * k,
            final(city).min_y == old(city).min_y * k,
            final(city).max_x == old(city).max_x * k,
            final(city).max_y == old(city).max_y * k,
            plan_of(final(city), final(self).occupancy@) == plan_of(
                old(city),
                old(self).occupancy@,
            ).at_scale(k),
            laid_out(final(city), final(self).occupancy@),
    {
        let ghost target = scaled_all(city.buildings@, k);
        proof {
            lemma_scaled_layout(city.buildings@, k);
            assert forall|i: int| 0 <= i < city.buildings@.len() implies (city.min_x * k
                <= #[trigger] target[i].x - CITY_BOUNDS_OFFSET && city.min_y * k <= target[i].y
                - CITY_BOUNDS_OFFSET && target[i].x + target[i].width + CITY_BOUNDS_OFFSET
                <= city.max_x * k && target[i].y + target[i].height + CITY_BOUNDS_OFFSET
                <= city.max_y * k) by {
                lemma_scaled_bounds(city, city.buildings@[i], k);
            }
        }
        self.occupancy.clear();
        city.min_x = city.min_x * k;
        city.min_y = city.min_y * k;
        city.max_x = city.max_x * k;
        city.max_y = city.max_y * k;
        let count = city.buildings.len();
        let mut i: usize = 0;
        assert(target.take(0) =~= Seq::<Building>::empty());
        while i < count
            invariant
                k >= 1,
                i <= count == city.buildings@.len() == target.len(),
                target == scaled_all(old(city).buildings@, k),
                well_spaced(target),
                doors_sound(target),
                forall|j: int| 0 <= j < i ==> #[trigger] city.buildings@[j] == target[j],
                forall|j: int| i <= j < count ==> #[trigger] city.buildings@[j] == old(city).buildings@[j],
                forall|j: int| 0 <= j < count ==> (#[trigger] old(city).buildings@[j]).scalable(k),
                bounds_hold(old(city)),
                cell_scalable((old(city).max_x, old(city).max_y), k),
                self.occupancy@ == stamped_all(Map::empty(), target.take(i as int)),
                doors_free(target.take(i as int), self.occupancy@),
                footprints_marked(target.take(i as int), self.occupancy@),
                self.same_bounds(old(self)),
                city.important_buildings == old(city).important_buildings,
                city.roads == old(city).roads,
                city.min_x == old(city).min_x * k,
                city.min_y == old(city).min_y * k,
                city.max_x == old(city).max_x * k,
                city.max_y == old(city).max_y * k,
            decreases count - i,
        {
            let b = city.buildings[i].scaled(k);
            city.buildings.set(i, b);
            proof {
                let so_far = target.take(i as int);
                assert(b == target[i as int]);
                assert(target.take(i + 1).drop_last() =~= so_far);
                assert(target.take(i + 1) =~= so_far.push(b));
                assert forall|j: int| 0 <= j < so_far.len() implies !(#[trigger] so_far[j]).spec_overlaps(
                    &b,
                    IMPORTANT_CLEARANCE,
                ) by {
                    assert(apart(target[j], target[i as int]));
                }
                assert forall|j: int| 0 <= j < so_far.len() implies (#[trigger] so_far[j]).width >= 1
                    && so_far[j].height >= 1 && so_far[j].door_on_boundary() by {
                    assert(so_far[j] == target[j]);
                }
                crate::upkeep::lemma_stamp_keeps(so_far, self.occupancy@, b, IMPORTANT_CLEARANCE);
                assert(b.x + b.width <= i32::MAX && b.y + b.height <= i32::MAX) by {
                    lemma_scaled_bounds(old(city), old(city).buildings@[i as int], k);
                }
            }
            mark_footprint(&mut self.occupancy, &b);
            i += 1;
        }
        assert(target.take(count as int) =~= target);
        assert(city.buildings@ =~= target);
        let listed = city.important_buildings.len();
        let mut n: usize = 0;
        while n < listed
            invariant
                n <= listed == city.important_buildings@.len() == old(city).important_buildings@.len(),
                forall|j: int|
                    0 <= j < n ==> #[trigger] city.important_buildings@[j] == scaled_cell(
                        old(city).important_buildings@[j],
                        k as int,
                    ),
                forall|j: int|
                    n <= j < listed ==> #[trigger] city.important_buildings@[j] == old(
                        city,
                    ).important_buildings@[j],
                forall|j: int|
                    0 <= j < listed ==> cell_scalable(#[trigger] old(city).important_buildings@[j], k),
                city.buildings@ == target,
                city.roads == old(city).roads,
                city.min_x == old(city).min_x * k,
                city.min_y == old(city).min_y * k,
                city.max_x == old(city).max_x * k,
                city.max_y == old(city).max_y * k,
            decreases listed - n,
        {
            let anchor = city.important_buildings[n];
            assert(cell_scalable(old(city).important_buildings@[n as int], k));
            city.important_buildings.set(n, (anchor.0 * k, anchor.1 * k));
            n += 1;
        }
        assert(city.important_buildings@ =~= scaled_cells(old(city).important_buildings@, k));
        let lines = city.roads.len();
        let mut r: usize = 0;
        assert(road_cells(city.roads@).take(0) =~= Seq::<Seq<(i32, i32)>>::empty());
        while r < lines
            invariant
                k >= 1,
                r <= lines == city.roads@.len() == old(city).roads@.len(),
                forall|j: int|
                    0 <= j < r ==> (#[trigger] city.roads@[j])@ == stretched(old(city).roads@[j]@, k as int),
                forall|j: int| r <= j < lines ==> #[trigger] city.roads@[j] == old(city).roads@[j],
                forall|j: int| 0 <= j < r ==> connected((#[trigger] city.roads@[j])@),
                forall|j: int|
                    0 <= j < r && (#[trigger] city.roads@[j])@.len() > 0 ==> old(city).roads@[j]@.len()
                        > 0 && city.roads@[j]@[0] == scaled_cell(old(city).roads@[j]@[0], k as int),
                forall|j: int|
                    0 <= j < r ==> avoids((#[trigger] city.roads@[j])@, target) && marked(
                        city.roads@[j]@,
                        target,
                        self.occupancy@,
                    ),
                roads_sound(old(city)),
                roads_avoid(old(city)),
                doors_sound(old(city).buildings@),
                footprints_marked(target, self.occupancy@),
                city_scalable(old(city), k),
                target == scaled_all(old(city).buildings@, k),
                city.buildings@ == target,
                city.important_buildings@ == scaled_cells(old(city).important_buildings@, k),
                self.occupancy@ == paved_all(
                    stamped_all(Map::empty(), target),
                    target,
                    road_cells(city.roads@).take(r as int),
                ),
                doors_free(target, self.occupancy@),
                self.same_bounds(old(self)),
                city.min_x == old(city).min_x * k,
                city.min_y == old(city).min_y * k,
                city.max_x == old(city).max_x * k,
                city.max_y == old(city).max_y * k,
            decreases lines - r,
        {
            proof {
                let road = old(city).roads@[r as int]@;
                assert(connected(road));
                assert forall|j: int| 0 <= j < road.len() implies cell_scalable(#[trigger] road[j], k) by {
                    assert(cell_scalable(old(city).roads@[r as int]@[j], k));
                }
            }
            let drawn = stretch(&city.roads[r], k);
            proof {
                let road = old(city).roads@[r as int]@;
                assert(avoids(road, old(city).buildings@));
                crate::upkeep::lemma_stretched_avoids(road, old(city).buildings@, k);
                crate::upkeep::lemma_pave_keeps(target, self.occupancy@, drawn@);
                assert forall|j: int| 0 <= j < r implies marked(
                    (#[trigger] city.roads@[j])@,
                    target,
                    paved(self.occupancy@, target, drawn@),
                ) by {
                    crate::upkeep::lemma_pave_keeps_road(city.roads@[j]@, target, self.occupancy@, drawn@);
                }
            }
            let ghost before = city.roads@;
            mark_road(&mut self.occupancy, city, &drawn);
            city.roads.set(r, drawn);
            proof {
                assert(road_cells(city.roads@).take(r + 1).drop_last() =~= road_cells(before).take(
                    r as int,
                ));
                assert(road_cells(city.roads@).take(r + 1).last() == drawn@);
                assert forall|j: int| 0 <= j < r + 1 implies avoids(
                    (#[trigger] city.roads@[j])@,
                    target,
                ) && marked(city.roads@[j]@, target, self.occupancy@) by {
                    if j < r {
                        assert(city.roads@[j] == before[j]);
                    }
                }
            }
            r += 1;
        }
        proof {
            reveal(laid_out);
            assert(road_cells(city.roads@).take(lines as int) =~= road_cells(city.roads@));
            assert(road_cells(city.roads@) =~= stretched_all(road_cells(old(city).roads@), k as int));
            assert(plan_of(city, self.occupancy@) =~= plan_of(old(city), old(self).occupancy@).at_scale(
                k,
            ));
            Self::lemma_scaled_roads_sound(old(city), city, k);
            assert forall|j: int| 0 <= j < city.buildings@.len() implies city.bounds().holds(
                crate::city::Extent::of(#[trigger] city.buildings@[j]).widened(CITY_BOUNDS_OFFSET as int),
            ) by {
                assert(city.buildings@[j] == target[j]);
            }
            assert(important_listed(city)) by {
                assert forall|j: int| 0 <= j < city.important_buildings@.len() implies (
                #[trigger] city.buildings@[j]).anchor() == city.important_buildings@[j]
                    && city.buildings@[j].is_important by {
                    assert(old(city).buildings@[j].anchor() == old(city).important_buildings@[j]);
                }
                assert forall|j: int|
                    city.important_buildings@.len() <= j < city.buildings@.len() implies !(
                #[trigger] city.buildings@[j]).is_important by {
                    assert(!old(city).buildings@[j].is_important);
                }
            }
        }
    }
}

} // verus!
