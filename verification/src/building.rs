//! A building: a rectangle on the grid with one door on its boundary.

use crate::random::{coin, in_range};
use rand_chacha::ChaCha8Rng;
use vstd::prelude::*;

verus! {

/// A rectangular building. Its footprint is the closed rectangle from
/// `(x, y)` to `(x + width, y + height)`.
#[derive(Clone, Copy, Debug, PartialEq, Eq, PartialOrd, Ord)]
pub struct Building {
    /// Coordinates of the door
    pub door: (i32, i32),
    /// x coordinate of the top left corner
    pub x: i32,
    /// y coordinate of the top left corner
    pub y: i32,
    /// Width of the building
    pub width: i32,
    /// Height of the building
    pub height: i32,
    /// Whether the building is one of the city's seeds
    pub is_important: bool,
    /// Identifier
    pub id: usize,
}

impl Building {
    /// The top left corner, by which a city finds the building.
    pub open spec fn anchor(&self) -> (i32, i32) {
        (self.x, self.y)
    }

    /// Whether `pos` lies in the footprint, walls included.
    pub open spec fn spec_contains(&self, pos: (i32, i32)) -> bool {
        &&& self.x <= pos.0 <= self.x + self.width
        &&& self.y <= pos.1 <= self.y + self.height
    }

    /// Whether the footprint of `self`, widened by `offset` on every side,
    /// meets the footprint of `other`.
    pub open spec fn spec_overlaps(&self, other: &Building, offset: i32) -> bool {
        &&& self.x - offset < other.x + other.width
        &&& self.x + self.width + offset > other.x
        &&& self.y - offset < other.y + other.height
        &&& self.y + self.height + offset > other.y
    }

    /// Whether the door lies on one of the four edges of the footprint.
    pub open spec fn door_on_boundary(&self) -> bool {
        &&& self.spec_contains(self.door)
        &&& (self.door.0 == self.x || self.door.0 == self.x + self.width
            || self.door.1 == self.y || self.door.1 == self.y + self.height)
    }

    /// Whether the door lies where a draw can put it: on the boundary, but
    /// not on the corner that ends both the last row and the last column,
    /// which no side reaches.
    pub open spec fn door_drawn(&self) -> bool {
        &&& self.door_on_boundary()
        &&& !(self.door.0 == self.x + self.width && self.door.1 == self.y + self.height)
    }

    /// Whether the footprint, widened by `margin`, still has coordinates
    /// that the machine can hold.
    pub open spec fn has_margin(&self, margin: i32) -> bool {
        &&& i32::MIN <= self.x - margin
        &&& i32::MIN <= self.x + self.width
        &&& self.x + self.width + margin <= i32::MAX
        &&& i32::MIN <= self.y - margin
        &&& i32::MIN <= self.y + self.height
        &&& self.y + self.height + margin <= i32::MAX
    }

    /// Check if two buildings overlap, `self` widened by `offset`.
    #[verifier::when_used_as_spec(spec_overlaps)]
    pub fn overlaps(&self, other: &Building, offset: i32) -> (r: bool)
        ensures
            r == self.spec_overlaps(other, offset),
    {
        let sx: i64 = self.x as i64;
        let sy: i64 = self.y as i64;
        let off: i64 = offset as i64;
        let ox: i64 = other.x as i64;
        let oy: i64 = other.y as i64;
        sx - off < ox + other.width as i64 && sx + self.width as i64 + off > ox
            && sy - off < oy + other.height as i64 && sy + self.height as i64 + off > oy
    }

    /// Check if a point is inside the building (including its walls).
    #[verifier::when_used_as_spec(spec_contains)]
    pub fn contains(&self, pos: (i32, i32)) -> (r: bool)
        ensures
            r == self.spec_contains(pos),
    {
        let px: i64 = pos.0 as i64;
        let py: i64 = pos.1 as i64;
        px >= self.x as i64 && px <= self.x as i64 + self.width as i64 && py >= self.y as i64
            && py <= self.y as i64 + self.height as i64
    }

    /// The building that `with_door` makes: the door on the row `y` or
    /// `y + height` at column `along` when `on_row`, else on the column
    /// `x + width` or `x` at row `along`; `near` picks the first of each pair.
    pub open spec fn spec_with_door(
        on_row: bool,
        near: bool,
        along: i32,
        x: i32,
        y: i32,
        width: i32,
        height: i32,
        id: usize,
    ) -> Building {
        let door = if on_row {
            if near {
                (along, y)
            } else {
                (along, (y + height) as i32)
            }
        } else {
            if near {
                ((x + width) as i32, along)
            } else {
                (x, along)
            }
        };
        Building { door, x, y, width, height, is_important: false, id }
    }

    /// Whether `along` is a place for the door on the side that `on_row`
    /// names: a column of the footprint short of the last, or such a row.
    pub open spec fn door_place(on_row: bool, along: i32, x: i32, y: i32, width: i32, height: i32) -> bool {
        if on_row {
            x <= along < x + width
        } else {
            y <= along < y + height
        }
    }

    /// Create a building from a rectangle, an identifier and the three
    /// choices that place its door.
    pub fn with_door(
        on_row: bool,
        near: bool,
        along: i32,
        x: i32,
        y: i32,
        width: i32,
        height: i32,
        id: usize,
    ) -> (r: Self)
        requires
            i32::MIN <= x + width <= i32::MAX,
            i32::MIN <= y + height <= i32::MAX,
        ensures
            r == Self::spec_with_door(on_row, near, along, x, y, width, height, id),
            Self::door_place(on_row, along, x, y, width, height) && width >= 0 && height >= 0
                ==> r.door_on_boundary(),
    {
        let door = if on_row {
            if near {
                (along, y)
            } else {
                (along, y + height)
            }
        } else {
            if near {
                (x + width, along)
            } else {
                (x, along)
            }
        };
        Building { door, x, y, width, height, is_important: false, id }
    }

    /// Create a building from a rectangle and an identifier, with the door
    /// at a random place of a random side: a coin for row or column, a coin
    /// for which of the two, and a draw along that side.
    pub fn with_random_door(
        rng: &mut ChaCha8Rng,
        x: i32,
        y: i32,
        width: i32,
        height: i32,
        id: usize,
    ) -> (r: Self)
        requires
            width >= 1,
            height >= 1,
            x + width <= i32::MAX,
            y + height <= i32::MAX,
        ensures
            exists|on_row: bool, near: bool, along: i32|
                Self::door_place(on_row, along, x, y, width, height) && r == #[trigger] Self::spec_with_door(
                    on_row,
                    near,
                    along,
                    x,
                    y,
                    width,
                    height,
                    id,
                ),
            r.x == x,
            r.y == y,
            r.width == width,
            r.height == height,
            r.id == id,
            !r.is_important,
            r.door_drawn(),
    {
        let on_row = coin(rng);
        let near = coin(rng);
        let along = if on_row {
            in_range(rng, x, x + width)
        } else {
            in_range(rng, y, y + height)
        };
        Self::with_door(on_row, near, along, x, y, width, height, id)
    }

    /// Whether every coordinate of the building, multiplied by `k`, is
    /// still a coordinate that the machine can hold.
    pub open spec fn scalable(&self, k: i32) -> bool {
        &&& i32::MIN <= self.x * k <= i32::MAX
        &&& i32::MIN <= self.y * k <= i32::MAX
        &&& i32::MIN <= self.width * k <= i32::MAX
        &&& i32::MIN <= self.height * k <= i32::MAX
        &&& i32::MIN <= self.door.0 * k <= i32::MAX
        &&& i32::MIN <= self.door.1 * k <= i32::MAX
    }

    /// The building with its corner, its size and its door multiplied by `k`.
    pub open spec fn spec_scaled(&self, k: i32) -> Building {
        Building {
            door: ((self.door.0 * k) as i32, (self.door.1 * k) as i32),
            x: (self.x * k) as i32,
            y: (self.y * k) as i32,
            width: (self.width * k) as i32,
            height: (self.height * k) as i32,
            is_important: self.is_important,
            id: self.id,
        }
    }

    /// The building brought to scale: its corner, its size and its door
    /// multiplied by `k`.
    #[verifier::when_used_as_spec(spec_scaled)]
    pub fn scaled(&self, k: i32) -> (r: Building)
        requires
            self.scalable(k),
        ensures
            r == self.spec_scaled(k),
    {
        Building {
            door: (self.door.0 * k, self.door.1 * k),
            x: self.x * k,
            y: self.y * k,
            width: self.width * k,
            height: self.height * k,
            is_important: self.is_important,
            id: self.id,
        }
    }

    /// Make the building important.
    pub fn make_important(self) -> (r: Self)
        ensures
            r == (Building { is_important: true, ..self }),
    {
        Building { is_important: true, ..self }
    }
}

/// Whether one building meets another, each widened or not, does not
/// depend on which of the two is asked.
pub proof fn lemma_overlaps_symmetric(a: Building, b: Building, offset: i32)
    ensures
        a.spec_overlaps(&b, offset) == b.spec_overlaps(&a, offset),
{
}

/// Scaling loses nothing: two buildings that are the same at scale `k`
/// are the same.
pub proof fn lemma_scaled_same(a: Building, b: Building, k: i32)
    requires
        k >= 1,
        a.scalable(k),
        b.scalable(k),
        a.spec_scaled(k) == b.spec_scaled(k),
    ensures
        a == b,
{
    lemma_product_same(a.x as int, b.x as int, k as int);
    lemma_product_same(a.y as int, b.y as int, k as int);
    lemma_product_same(a.width as int, b.width as int, k as int);
    lemma_product_same(a.height as int, b.height as int, k as int);
    lemma_product_same(a.door.0 as int, b.door.0 as int, k as int);
    lemma_product_same(a.door.1 as int, b.door.1 as int, k as int);
}

/// Two numbers with the same multiple are the same.
pub proof fn lemma_product_same(a: int, b: int, k: int)
    requires
        k >= 1,
        a * k == b * k,
    ensures
        a == b,
{
    assert(a == b) by (nonlinear_arith)
        requires
            k >= 1,
            a * k == b * k,
    ;
}

/// A door on the boundary stays on the boundary when the building is
/// brought to scale, and a door off the far corner stays off it.
pub proof fn lemma_scaled_door(b: Building, k: i32)
    requires
        b.door_on_boundary(),
        b.scalable(k),
        k >= 1,
    ensures
        b.spec_scaled(k).door_on_boundary(),
        b.door_drawn() ==> b.spec_scaled(k).door_drawn(),
{
    let (x, y, w, h, k) = (b.x as int, b.y as int, b.width as int, b.height as int, k as int);
    let (dx, dy) = (b.door.0 as int, b.door.1 as int);
    assert((x + w) * k == x * k + w * k) by (nonlinear_arith);
    assert((y + h) * k == y * k + h * k) by (nonlinear_arith);
    assert(x * k <= dx * k <= (x + w) * k) by (nonlinear_arith)
        requires
            x <= dx <= x + w,
            k >= 1,
    ;
    assert(y * k <= dy * k <= (y + h) * k) by (nonlinear_arith)
        requires
            y <= dy <= y + h,
            k >= 1,
    ;
    assert(dx < x + w ==> dx * k < (x + w) * k) by (nonlinear_arith)
        requires
            k >= 1,
    ;
    assert(dy < y + h ==> dy * k < (y + h) * k) by (nonlinear_arith)
        requires
            k >= 1,
    ;
}

/// Two buildings that do not meet, the first widened by `offset`, do not
/// meet either when both are brought to scale.
pub proof fn lemma_scaled_apart(a: Building, b: Building, offset: i32, k: i32)
    requires
        !a.spec_overlaps(&b, offset),
        offset >= 0,
        k >= 1,
        a.scalable(k),
        b.scalable(k),
    ensures
        !a.spec_scaled(k).spec_overlaps(&b.spec_scaled(k), offset),
{
    let k = k as int;
    let off = offset as int;
    let (ax, ay, aw, ah) = (a.x as int, a.y as int, a.width as int, a.height as int);
    let (bx, by, bw, bh) = (b.x as int, b.y as int, b.width as int, b.height as int);
    if ax - off >= bx + bw {
        assert(ax * k - off >= bx * k + bw * k) by (nonlinear_arith)
            requires
                ax - off >= bx + bw,
                off >= 0,
                k >= 1,
        ;
    } else if ax + aw + off <= bx {
        assert(ax * k + aw * k + off <= bx * k) by (nonlinear_arith)
            requires
                ax + aw + off <= bx,
                off >= 0,
                k >= 1,
        ;
    } else if ay - off >= by + bh {
        assert(ay * k - off >= by * k + bh * k) by (nonlinear_arith)
            requires
                ay - off >= by + bh,
                off >= 0,
                k >= 1,
        ;
    } else {
        assert(ay * k + ah * k + off <= by * k) by (nonlinear_arith)
            requires
                ay + ah + off <= by,
                off >= 0,
                k >= 1,
        ;
    }
}

} // verus!
