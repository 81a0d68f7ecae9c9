//! The city: its buildings, its roads and the rectangle that bounds them.

use crate::building::Building;
use vstd::prelude::*;

verus! {

/// How far the bounds of a city lie beyond its outermost buildings.
pub const CITY_BOUNDS_OFFSET: i32 = 20;

/// A rectangle of the plane, by its four edges.
pub ghost struct Extent {
    pub left: int,
    pub top: int,
    pub right: int,
    pub bottom: int,
}

impl Extent {
    /// The footprint of a building.
    pub open spec fn of(b: Building) -> Extent {
        Extent { left: b.x as int, top: b.y as int, right: b.x + b.width, bottom: b.y + b.height }
    }

    /// The smallest rectangle that holds both.
    pub open spec fn join(self, other: Extent) -> Extent {
        Extent {
            left: if other.left < self.left { other.left } else { self.left },
            top: if other.top < self.top { other.top } else { self.top },
            right: if other.right > self.right { other.right } else { self.right },
            bottom: if other.bottom > self.bottom { other.bottom } else { self.bottom },
        }
    }

    /// The rectangle with every edge moved outwards by `margin`.
    pub open spec fn widened(self, margin: int) -> Extent {
        Extent {
            left: self.left - margin,
            top: self.top - margin,
            right: self.right + margin,
            bottom: self.bottom + margin,
        }
    }

    /// Whether no edge lies beyond the grid.
    pub open spec fn on_grid(self) -> bool {
        &&& i32::MIN <= self.left <= i32::MAX
        &&& i32::MIN <= self.top <= i32::MAX
        &&& i32::MIN <= self.right <= i32::MAX
        &&& i32::MIN <= self.bottom <= i32::MAX
    }

    /// Whether `other` lies inside.
    pub open spec fn holds(self, other: Extent) -> bool {
        &&& self.left <= other.left
        &&& self.top <= other.top
        &&& other.right <= self.right
        &&& other.bottom <= self.bottom
    }
}

/// The smallest rectangle that holds the footprint of every building of `s`.
pub open spec fn extent_of(s: Seq<Building>) -> Extent
    recommends
        s.len() > 0,
    decreases s.len(),
{
    if s.len() <= 1 {
        Extent::of(s[0])
    } else {
        extent_of(s.drop_last()).join(Extent::of(s.last()))
    }
}

/// The bounds that a city has after its buildings were added one by one to
/// an empty city, each widening the bounds as it came. The empty city has
/// bounds that hold nothing: its left and top lie at the far end of the
/// grid, its right and bottom at the near end, so that the first building
/// sets all four.
pub open spec fn folded_bounds(s: Seq<Building>) -> Extent
    decreases s.len(),
{
    if s.len() == 0 {
        Extent {
            left: i32::MAX as int,
            top: i32::MAX as int,
            right: i32::MIN as int,
            bottom: i32::MIN as int,
        }
    } else {
        folded_bounds(s.drop_last()).join(Extent::of(s.last()).widened(CITY_BOUNDS_OFFSET as int))
    }
}

/// Whether no two buildings of `s` have the same top left corner.
pub open spec fn distinct_anchors(s: Seq<Building>) -> bool {
    forall|i: int, j: int|
        0 <= i < j < s.len() ==> (#[trigger] s[i]).anchor() != (#[trigger] s[j]).anchor()
}

/// Whether `cell` is the door of a building of `s`.
pub open spec fn door_among(s: Seq<Building>, cell: (i32, i32)) -> bool {
    exists|i: int| 0 <= i < s.len() && (#[trigger] s[i]).door == cell
}

/// The building of `s` with its top left corner at `anchor`.
pub open spec fn building_at(s: Seq<Building>, anchor: (i32, i32)) -> Building {
    s[choose|i: int| 0 <= i < s.len() && (#[trigger] s[i]).anchor() == anchor]
}

/// The cells of each road of `roads`.
pub open spec fn road_cells(roads: Seq<Vec<(i32, i32)>>) -> Seq<Seq<(i32, i32)>> {
    Seq::new(roads.len(), |r: int| roads[r]@)
}

/// Represents a city with buildings and roads.
pub struct City {
    /// Buildings of the city, each found by its top left corner
    pub buildings: Vec<Building>,
    /// Top left corners of the important buildings, in the order they came
    pub important_buildings: Vec<(i32, i32)>,
    /// Roads of the city, each a line of cells
    pub roads: Vec<Vec<(i32, i32)>>,
    /// x coordinate of the left bound
    pub min_x: i32,
    /// y coordinate of the top bound
    pub min_y: i32,
    /// x coordinate of the right bound
    pub max_x: i32,
    /// y coordinate of the bottom bound
    pub max_y: i32,
}

impl Default for City {
    /// A city without buildings or roads.
    fn default() -> (r: Self)
        ensures
            r.buildings@.len() == 0,
            r.important_buildings@.len() == 0,
            r.roads@.len() == 0,
            r.bounds() == folded_bounds(Seq::<Building>::empty()),
            r.wf(),
    {
        City {
            min_x: i32::MAX,
            min_y: i32::MAX,
            max_x: i32::MIN,
            max_y: i32::MIN,
            buildings: Vec::new(),
            important_buildings: Vec::new(),
            roads: Vec::new(),
        }
    }
}

impl City {
    /// The city holds each top left corner once.
    pub open spec fn wf(&self) -> bool {
        distinct_anchors(self.buildings@)
    }

    /// The rectangle that bounds the city.
    pub open spec fn bounds(&self) -> Extent {
        Extent {
            left: self.min_x as int,
            top: self.min_y as int,
            right: self.max_x as int,
            bottom: self.max_y as int,
        }
    }

    /// Whether a building of the city has its top left corner at `anchor`.
    pub open spec fn has_anchor(&self, anchor: (i32, i32)) -> bool {
        exists|i: int| 0 <= i < self.buildings@.len() && (#[trigger] self.buildings@[i]).anchor() == anchor
    }

    /// Whether `cell` is the door of a building of the city.
    pub open spec fn spec_is_door(&self, cell: (i32, i32)) -> bool {
        door_among(self.buildings@, cell)
    }

    /// A city without buildings or roads.
    pub fn new() -> (r: Self)
        ensures
            r.buildings@.len() == 0,
            r.important_buildings@.len() == 0,
            r.roads@.len() == 0,
            r.bounds() == folded_bounds(Seq::<Building>::empty()),
            r.wf(),
    {
        City::default()
    }

    /// Computes the borders of the city: the smallest rectangle that holds
    /// every footprint, widened by the margin.
    pub fn update_borders(&mut self)
        requires
            old(self).buildings@.len() > 0,
            forall|i: int|
                0 <= i < old(self).buildings@.len() ==> (#[trigger] old(self).buildings@[i]).has_margin(
                    CITY_BOUNDS_OFFSET,
                ),
        ensures
            final(self).bounds() == extent_of(old(self).buildings@).widened(CITY_BOUNDS_OFFSET as int),
            final(self).buildings == old(self).buildings,
            final(self).important_buildings == old(self).important_buildings,
            final(self).roads == old(self).roads,
    {
        let first = self.buildings[0];
        let mut left: i32 = first.x;
        let mut top: i32 = first.y;
        let mut right: i32 = first.x + first.width;
        let mut bottom: i32 = first.y + first.height;
        let mut i: usize = 1;
        assert(self.buildings@.take(1).len() == 1);
        while i < self.buildings.len()
            invariant
                1 <= i <= self.buildings@.len(),
                self.buildings == old(self).buildings,
                forall|j: int|
                    0 <= j < self.buildings@.len() ==> (#[trigger] self.buildings@[j]).has_margin(
                        CITY_BOUNDS_OFFSET,
                    ),
                (Extent { left: left as int, top: top as int, right: right as int, bottom: bottom as int })
                    == extent_of(self.buildings@.take(i as int)),
                i32::MIN <= left - CITY_BOUNDS_OFFSET,
                i32::MIN <= top - CITY_BOUNDS_OFFSET,
                right + CITY_BOUNDS_OFFSET <= i32::MAX,
                bottom + CITY_BOUNDS_OFFSET <= i32::MAX,
            decreases self.buildings@.len() - i,
        {
            let b = self.buildings[i];
            proof {
                let next = self.buildings@.take(i + 1);
                assert(next.drop_last() =~= self.buildings@.take(i as int));
                assert(next.last() == b);
            }
            if b.x < left {
                left = b.x;
            }
            if b.y < top {
                top = b.y;
            }
            if b.x + b.width > right {
                right = b.x + b.width;
            }
            if b.y + b.height > bottom {
                bottom = b.y + b.height;
            }
            i += 1;
        }
        assert(self.buildings@.take(i as int) =~= self.buildings@);
        self.min_x = left - CITY_BOUNDS_OFFSET;
        self.min_y = top - CITY_BOUNDS_OFFSET;
        self.max_x = right + CITY_BOUNDS_OFFSET;
        self.max_y = bottom + CITY_BOUNDS_OFFSET;
    }

    /// Update the borders of the city based on a new building: they widen
    /// to hold its footprint and the margin round it.
    pub fn update_borders_from_new_building(&mut self, building: &Building)
        requires
            building.has_margin(CITY_BOUNDS_OFFSET),
        ensures
            final(self).bounds() == old(self).bounds().join(
                Extent::of(*building).widened(CITY_BOUNDS_OFFSET as int),
            ),
            final(self).buildings == old(self).buildings,
            final(self).important_buildings == old(self).important_buildings,
            final(self).roads == old(self).roads,
    {
        if building.x - CITY_BOUNDS_OFFSET < self.min_x {
            self.min_x = building.x - CITY_BOUNDS_OFFSET;
        }
        if building.y - CITY_BOUNDS_OFFSET < self.min_y {
            self.min_y = building.y - CITY_BOUNDS_OFFSET;
        }
        if building.x + building.width + CITY_BOUNDS_OFFSET > self.max_x {
            self.max_x = building.x + building.width + CITY_BOUNDS_OFFSET;
        }
        if building.y + building.height + CITY_BOUNDS_OFFSET > self.max_y {
            self.max_y = building.y + building.height + CITY_BOUNDS_OFFSET;
        }
    }

    /// Where the building with its top left corner at `anchor` stands among
    /// the buildings: the first such place, or `None` if there is none.
    pub fn find(&self, anchor: (i32, i32)) -> (r: Option<usize>)
        ensures
            match r {
                Some(i) => i < self.buildings@.len() && self.buildings@[i as int].anchor() == anchor
                    && forall|j: int| 0 <= j < i ==> (#[trigger] self.buildings@[j]).anchor() != anchor,
                None => !self.has_anchor(anchor),
            },
            r is Some && self.wf() ==> self.buildings@[r->0 as int] == building_at(
                self.buildings@,
                anchor,
            ),
    {
        let mut i: usize = 0;
        while i < self.buildings.len()
            invariant
                i <= self.buildings@.len(),
                forall|j: int| 0 <= j < i ==> (#[trigger] self.buildings@[j]).anchor() != anchor,
            decreases self.buildings@.len() - i,
        {
            let b = &self.buildings[i];
            if b.x == anchor.0 && b.y == anchor.1 {
                proof {
                    let s = self.buildings@;
                    let k = choose|k: int| 0 <= k < s.len() && (#[trigger] s[k]).anchor() == anchor;
                    if self.wf() && k != i {
                        assert(s[k].anchor() != s[i as int].anchor());
                    }
                }
                return Some(i);
            }
            i += 1;
        }
        None
    }

    /// Whether `cell` is the door of a building of the city.
    #[verifier::when_used_as_spec(spec_is_door)]
    pub fn is_door(&self, cell: (i32, i32)) -> (r: bool)
        ensures
            r == self.spec_is_door(cell),
    {
        let mut i: usize = 0;
        while i < self.buildings.len()
            invariant
                i <= self.buildings@.len(),
                forall|j: int| 0 <= j < i ==> (#[trigger] self.buildings@[j]).door != cell,
            decreases self.buildings@.len() - i,
        {
            let b = &self.buildings[i];
            if b.door.0 == cell.0 && b.door.1 == cell.1 {
                return true;
            }
            i += 1;
        }
        false
    }

    /// Put `building` into the city, in place of the building with the same
    /// top left corner if there is one, which is then returned.
    pub fn insert(&mut self, building: Building) -> (r: Option<Building>)
        requires
            old(self).wf(),
        ensures
            final(self).wf(),
            match r {
                Some(b) => exists|i: int|
                    0 <= i < old(self).buildings@.len() && #[trigger] old(self).buildings@[i] == b
                        && b.anchor() == building.anchor() && final(self).buildings@ == old(
                        self,
                    ).buildings@.update(i, building),
                None => !old(self).has_anchor(building.anchor()) && final(self).buildings@ == old(
                    self,
                ).buildings@.push(building),
            },
            final(self).important_buildings == old(self).important_buildings,
            final(self).roads == old(self).roads,
            final(self).bounds() == old(self).bounds(),
    {
        match self.find((building.x, building.y)) {
            Some(i) => {
                let before = self.buildings[i];
                self.buildings.set(i, building);
                Some(before)
            },
            None => {
                self.buildings.push(building);
                None
            },
        }
    }
}

/// The rectangle of `extent_of` holds the footprint of each building.
pub proof fn lemma_extent_holds_each(s: Seq<Building>, i: int)
    requires
        0 <= i < s.len(),
    ensures
        extent_of(s).holds(Extent::of(s[i])),
    decreases s.len(),
{
    if s.len() > 1 {
        if i < s.len() - 1 {
            lemma_extent_holds_each(s.drop_last(), i);
        } else {
            lemma_extent_holds_each(s.drop_last(), 0);
        }
    }
}

/// Each edge of the smallest rectangle round the buildings of `s` is an
/// edge of the footprint of one of them.
pub proof fn lemma_extent_reached(s: Seq<Building>) -> (at: (int, int, int, int))
    requires
        s.len() > 0,
    ensures
        0 <= at.0 < s.len() && extent_of(s).left == Extent::of(s[at.0]).left,
        0 <= at.1 < s.len() && extent_of(s).top == Extent::of(s[at.1]).top,
        0 <= at.2 < s.len() && extent_of(s).right == Extent::of(s[at.2]).right,
        0 <= at.3 < s.len() && extent_of(s).bottom == Extent::of(s[at.3]).bottom,
    decreases s.len(),
{
    if s.len() > 1 {
        let before = lemma_extent_reached(s.drop_last());
        let rest = extent_of(s.drop_last());
        let last = Extent::of(s.last());
        let n = s.len() - 1;
        (
            if last.left < rest.left { n } else { before.0 },
            if last.top < rest.top { n } else { before.1 },
            if last.right > rest.right { n } else { before.2 },
            if last.bottom > rest.bottom { n } else { before.3 },
        )
    } else {
        (0, 0, 0, 0)
    }
}

/// The smallest rectangle round some buildings does not depend on the
/// order in which they are listed, nor on how often each is.
pub proof fn lemma_extent_any_order(s: Seq<Building>, t: Seq<Building>)
    requires
        s.len() > 0,
        forall|i: int| 0 <= i < s.len() ==> t.contains(#[trigger] s[i]),
        forall|j: int| 0 <= j < t.len() ==> s.contains(#[trigger] t[j]),
    ensures
        extent_of(s) == extent_of(t),
{
    assert(t.contains(s[0]));
    let in_s = lemma_extent_reached(s);
    let in_t = lemma_extent_reached(t);
    lemma_extent_through(s, t, in_s);
    lemma_extent_through(t, s, in_t);
}

/// The smallest rectangle round the buildings of `t` holds the
/// footprints of those buildings of `s` that are among them.
proof fn lemma_extent_through(s: Seq<Building>, t: Seq<Building>, at: (int, int, int, int))
    requires
        t.len() > 0,
        0 <= at.0 < s.len() && t.contains(s[at.0]),
        0 <= at.1 < s.len() && t.contains(s[at.1]),
        0 <= at.2 < s.len() && t.contains(s[at.2]),
        0 <= at.3 < s.len() && t.contains(s[at.3]),
    ensures
        extent_of(t).holds(Extent::of(s[at.0])),
        extent_of(t).holds(Extent::of(s[at.1])),
        extent_of(t).holds(Extent::of(s[at.2])),
        extent_of(t).holds(Extent::of(s[at.3])),
{
    let a = choose|j: int| 0 <= j < t.len() && t[j] == s[at.0];
    let b = choose|j: int| 0 <= j < t.len() && t[j] == s[at.1];
    let c = choose|j: int| 0 <= j < t.len() && t[j] == s[at.2];
    let d = choose|j: int| 0 <= j < t.len() && t[j] == s[at.3];
    lemma_extent_holds_each(t, a);
    lemma_extent_holds_each(t, b);
    lemma_extent_holds_each(t, c);
    lemma_extent_holds_each(t, d);
}

/// Widening the bounds building by building gives the same in whatever
/// order the buildings come.
pub proof fn lemma_folded_bounds_any_order(s: Seq<Building>, t: Seq<Building>)
    requires
        s.len() > 0,
        forall|i: int| 0 <= i < s.len() ==> (#[trigger] s[i]).has_margin(CITY_BOUNDS_OFFSET),
        forall|i: int| 0 <= i < s.len() ==> t.contains(#[trigger] s[i]),
        forall|j: int| 0 <= j < t.len() ==> s.contains(#[trigger] t[j]),
    ensures
        folded_bounds(s) == folded_bounds(t),
{
    assert(t.contains(s[0]));
    assert forall|j: int| 0 <= j < t.len() implies (#[trigger] t[j]).has_margin(CITY_BOUNDS_OFFSET) by {
        assert(s.contains(t[j]));
    }
    lemma_folded_bounds_agree(s);
    lemma_folded_bounds_agree(t);
    lemma_extent_any_order(s, t);
}

/// Widening the bounds building by building and computing them afresh
/// agree, whatever the buildings.
pub proof fn lemma_folded_bounds_agree(s: Seq<Building>)
    requires
        s.len() > 0,
        forall|i: int| 0 <= i < s.len() ==> (#[trigger] s[i]).has_margin(CITY_BOUNDS_OFFSET),
    ensures
        folded_bounds(s) == extent_of(s).widened(CITY_BOUNDS_OFFSET as int),
    decreases s.len(),
{
    if s.len() > 1 {
        assert forall|i: int| 0 <= i < s.drop_last().len() implies (#[trigger] s.drop_last()[i]).has_margin(
            CITY_BOUNDS_OFFSET,
        ) by {
            assert(s.drop_last()[i] == s[i]);
        }
        lemma_folded_bounds_agree(s.drop_last());
        assert(s.last() == s[s.len() - 1]);
    } else {
        assert(folded_bounds(s.drop_last()) == folded_bounds(Seq::<Building>::empty()));
        assert(s.last() == s[0]);
    }
}

} // verus!
