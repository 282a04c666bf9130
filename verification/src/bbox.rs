//! Points and axis-aligned bounding boxes over integer coordinates.
//!
//! The tree is generic in spirit over any ordered coordinate field; this
//! library fixes 64-bit signed integers, which order and subtract exactly.

use vstd::prelude::*;

verus! {

/// A point in the plane.
#[derive(Clone, Copy, Debug, PartialEq, Eq, Structural)]
pub struct Pt {
    /// X coordinate.
    pub x: i64,
    /// Y coordinate.
    pub y: i64,
}

impl Pt {
    /// Create a new point.
    pub fn new(x: i64, y: i64) -> (r: Pt)
        ensures
            r == (Pt { x, y }),
    {
        Pt { x, y }
    }
}

/// An axis-aligned bounding box.  A box whose minimum exceeds its maximum
/// on either axis is empty; `BBox::empty()` is the canonical empty box.
#[derive(Clone, Copy, Debug, PartialEq, Eq, Structural)]
pub struct BBox {
    /// Least X coordinate.
    pub x_min: i64,
    /// Least Y coordinate.
    pub y_min: i64,
    /// Greatest X coordinate.
    pub x_max: i64,
    /// Greatest Y coordinate.
    pub y_max: i64,
}

/// Whether the box contains no point.
pub open spec fn spec_empty(b: BBox) -> bool {
    b.x_min > b.x_max || b.y_min > b.y_max
}

/// Whether two boxes share a point.  An empty box intersects nothing.
pub open spec fn spec_intersects(a: BBox, b: BBox) -> bool {
    !spec_empty(a) && !spec_empty(b) && a.x_min <= b.x_max && b.x_min <= a.x_max && a.y_min
        <= b.y_max && b.y_min <= a.y_max
}

/// Whether `outer` contains every point of `inner`.
pub open spec fn spec_contains(outer: BBox, inner: BBox) -> bool {
    spec_empty(inner) || (outer.x_min <= inner.x_min && inner.x_max <= outer.x_max
        && outer.y_min <= inner.y_min && inner.y_max <= outer.y_max)
}

/// The least box containing both arguments.
pub open spec fn spec_extend(a: BBox, b: BBox) -> BBox {
    if spec_empty(a) {
        b
    } else if spec_empty(b) {
        a
    } else {
        BBox {
            x_min: if a.x_min <= b.x_min { a.x_min } else { b.x_min },
            y_min: if a.y_min <= b.y_min { a.y_min } else { b.y_min },
            x_max: if a.x_max >= b.x_max { a.x_max } else { b.x_max },
            y_max: if a.y_max >= b.y_max { a.y_max } else { b.y_max },
        }
    }
}

/// Twice the X midpoint; comparing these orders boxes by X centre.
pub open spec fn spec_x_mid2(b: BBox) -> int {
    b.x_min + b.x_max
}

/// Twice the Y midpoint.
pub open spec fn spec_y_mid2(b: BBox) -> int {
    b.y_min + b.y_max
}

/// Containment cannot create an intersection: if the query misses the
/// outer box, it misses everything the outer box contains.
pub proof fn lemma_contains_prunes(query: BBox, outer: BBox, inner: BBox)
    requires
        spec_contains(outer, inner),
        !spec_intersects(outer, query),
    ensures
        !spec_intersects(inner, query),
{
}

/// Containment is transitive.
pub proof fn lemma_contains_trans(a: BBox, b: BBox, c: BBox)
    requires
        spec_contains(a, b),
        spec_contains(b, c),
    ensures
        spec_contains(a, c),
{
}

/// The extension contains both of its arguments.
pub proof fn lemma_extend_contains(a: BBox, b: BBox)
    ensures
        spec_contains(spec_extend(a, b), a),
        spec_contains(spec_extend(a, b), b),
{
}

impl BBox {
    /// The canonical empty box.
    pub fn empty() -> (r: BBox)
        ensures
            r == (BBox { x_min: i64::MAX, y_min: i64::MAX, x_max: i64::MIN, y_max: i64::MIN }),
            spec_empty(r),
    {
        BBox { x_min: i64::MAX, y_min: i64::MAX, x_max: i64::MIN, y_max: i64::MIN }
    }

    /// The box spanned by two corner points, whichever way they lie.
    pub fn new(p0: Pt, p1: Pt) -> (r: BBox)
        ensures
            r.x_min == if p0.x <= p1.x { p0.x } else { p1.x },
            r.x_max == if p0.x <= p1.x { p1.x } else { p0.x },
            r.y_min == if p0.y <= p1.y { p0.y } else { p1.y },
            r.y_max == if p0.y <= p1.y { p1.y } else { p0.y },
            !spec_empty(r),
    {
        BBox {
            x_min: if p0.x <= p1.x { p0.x } else { p1.x },
            y_min: if p0.y <= p1.y { p0.y } else { p1.y },
            x_max: if p0.x <= p1.x { p1.x } else { p0.x },
            y_max: if p0.y <= p1.y { p1.y } else { p0.y },
        }
    }

    /// Whether this box shares a point with `other`.
    pub fn bounded_by(&self, other: &BBox) -> (r: bool)
        ensures
            r == spec_intersects(*self, *other),
    {
        self.x_min <= self.x_max && self.y_min <= self.y_max && other.x_min <= other.x_max
            && other.y_min <= other.y_max && self.x_min <= other.x_max && other.x_min
            <= self.x_max && self.y_min <= other.y_max && other.y_min <= self.y_max
    }

    /// Grow this box to contain `other`.
    pub fn extend(&mut self, other: &BBox)
        ensures
            *final(self) == spec_extend(*old(self), *other),
    {
        if self.x_min > self.x_max || self.y_min > self.y_max {
            *self = *other;
        } else if other.x_min > other.x_max || other.y_min > other.y_max {
        } else {
            if other.x_min < self.x_min {
                self.x_min = other.x_min;
            }
            if other.y_min < self.y_min {
                self.y_min = other.y_min;
            }
            if other.x_max > self.x_max {
                self.x_max = other.x_max;
            }
            if other.y_max > self.y_max {
                self.y_max = other.y_max;
            }
        }
    }
}

} // verus!
