//! Points and regions: the per-axis scalar interface that the tree algorithms
//! read, and the four-axis bounding box.

use vstd::prelude::*;

verus! {

/// A value with a fixed number of axes and one scalar per axis.
///
/// The number of axes belongs to the type, not to the value: every value of
/// an implementing type has `Self::dims()` axes, and there is at least one.
pub trait Point {
    /// Number of axes of every value of this type.
    spec fn dims() -> nat;

    /// Scalar of this value along axis `dim`; meaningful for `dim < Self::dims()`.
    spec fn coord(&self, dim: nat) -> int;

    /// Get the value for a specific dimension.
    fn get_dimension(&self, dim: usize) -> (value: i64)
        requires
            (dim as nat) < Self::dims(),
        ensures
            value as int == self.coord(dim as nat),
    ;

    /// Get the total number of dimensions.
    fn dimensions(&self) -> (count: usize)
        ensures
            count as nat == Self::dims(),
            count >= 1,
    ;
}

/// A region that can be compared against a query region of the same type.
pub trait SpatialPoint: Point {
    /// Whether this region lies inside `query`.
    spec fn within(&self, query: &Self) -> bool;

    /// Whether this region and `query` share some part of space.
    spec fn intersects(&self, query: &Self) -> bool;

    /// Check if this point/region is fully within the query region.
    fn is_within(&self, query: &Self) -> (inside: bool)
        ensures
            inside == self.within(query),
    ;

    /// Check if this point/region overlaps with the query region.
    fn overlaps(&self, query: &Self) -> (touching: bool)
        ensures
            touching == self.intersects(query),
    ;
}

/// Smaller of two scalars.
pub open spec fn lesser(a: i64, b: i64) -> i64 {
    if a <= b {
        a
    } else {
        b
    }
}

/// Larger of two scalars.
pub open spec fn greater(a: i64, b: i64) -> i64 {
    if a >= b {
        a
    } else {
        b
    }
}

/// Axis-aligned box in the plane, read as a point with four axes:
/// axis 0 is `xmin`, axis 1 is `ymin`, axis 2 is `xmax`, axis 3 is `ymax`.
///
/// Nothing asks that `xmin <= xmax` or `ymin <= ymax`; the predicates below are
/// plain comparisons and keep their meaning on a box that is inside out.
#[derive(Debug, PartialEq, Eq, Structural)]
pub struct BoundingBox {
    pub xmin: i64,
    pub ymin: i64,
    pub xmax: i64,
    pub ymax: i64,
}

impl Clone for BoundingBox {
    fn clone(&self) -> (copy: Self)
        ensures
            copy == *self,
    {
        BoundingBox { xmin: self.xmin, ymin: self.ymin, xmax: self.xmax, ymax: self.ymax }
    }
}

impl BoundingBox {
    /// Create a new bounding box from min/max coordinates.
    pub fn new(xmin: i64, ymin: i64, xmax: i64, ymax: i64) -> (bbox: Self)
        ensures
            bbox == (BoundingBox { xmin, ymin, xmax, ymax }),
    {
        BoundingBox { xmin, ymin, xmax, ymax }
    }

    /// The box with axis `dim` replaced by `value`.
    pub open spec fn replaced(self, dim: nat, value: i64) -> BoundingBox {
        if dim == 0 {
            BoundingBox { xmin: value, ..self }
        } else if dim == 1 {
            BoundingBox { ymin: value, ..self }
        } else if dim == 2 {
            BoundingBox { xmax: value, ..self }
        } else {
            BoundingBox { ymax: value, ..self }
        }
    }

    /// Return a new bounding box with the specified dimension set to a new value.
    pub fn with_dimension(&self, dim: usize, value: i64) -> (bbox: Self)
        requires
            dim < 4,
        ensures
            bbox == self.replaced(dim as nat, value),
            bbox.coord(dim as nat) == value as int,
            forall|other: nat|
                other < 4 && other != dim as nat ==> #[trigger] bbox.coord(other) == self.coord(
                    other,
                ),
    {
        if dim == 0 {
            BoundingBox::new(value, self.ymin, self.xmax, self.ymax)
        } else if dim == 1 {
            BoundingBox::new(self.xmin, value, self.xmax, self.ymax)
        } else if dim == 2 {
            BoundingBox::new(self.xmin, self.ymin, value, self.ymax)
        } else {
            BoundingBox::new(self.xmin, self.ymin, self.xmax, value)
        }
    }

    /// The smallest box that encloses both boxes, axis by axis.
    pub open spec fn hull(self, other: BoundingBox) -> BoundingBox {
        BoundingBox {
            xmin: lesser(self.xmin, other.xmin),
            ymin: lesser(self.ymin, other.ymin),
            xmax: greater(self.xmax, other.xmax),
            ymax: greater(self.ymax, other.ymax),
        }
    }

    /// Compute union of two bounding boxes (enclosing box).
    pub fn union(&self, other: &BoundingBox) -> (bbox: BoundingBox)
        ensures
            bbox == self.hull(*other),
    {
        BoundingBox {
            xmin: if self.xmin <= other.xmin { self.xmin } else { other.xmin },
            ymin: if self.ymin <= other.ymin { self.ymin } else { other.ymin },
            xmax: if self.xmax >= other.xmax { self.xmax } else { other.xmax },
            ymax: if self.ymax >= other.ymax { self.ymax } else { other.ymax },
        }
    }
}

/// A box that is not inside out and lies within a query overlaps the query:
/// for such boxes a hit is an overlap.
pub proof fn lemma_within_overlaps(inner: BoundingBox, query: BoundingBox)
    requires
        inner.xmin <= inner.xmax,
        inner.ymin <= inner.ymax,
        inner.within(&query),
    ensures
        inner.intersects(&query),
{
}

impl Point for BoundingBox {
    open spec fn dims() -> nat {
        4
    }

    open spec fn coord(&self, dim: nat) -> int {
        if dim == 0 {
            self.xmin as int
        } else if dim == 1 {
            self.ymin as int
        } else if dim == 2 {
            self.xmax as int
        } else {
            self.ymax as int
        }
    }

    /// Get value for dimension (0=xmin, 1=ymin, 2=xmax, 3=ymax)
    fn get_dimension(&self, dim: usize) -> (value: i64) {
        if dim == 0 {
            self.xmin
        } else if dim == 1 {
            self.ymin
        } else if dim == 2 {
            self.xmax
        } else {
            self.ymax
        }
    }

    fn dimensions(&self) -> (count: usize) {
        4
    }
}

impl SpatialPoint for BoundingBox {
    /// Both spans of this box lie inside the spans of `query`.
    open spec fn within(&self, query: &Self) -> bool {
        &&& self.xmin >= query.xmin
        &&& self.xmax <= query.xmax
        &&& self.ymin >= query.ymin
        &&& self.ymax <= query.ymax
    }

    /// On neither axis does one span end before the other begins.
    open spec fn intersects(&self, query: &Self) -> bool {
        !(self.xmax < query.xmin || self.xmin > query.xmax || self.ymax < query.ymin || self.ymin
            > query.ymax)
    }

    /// Check if this bounding box is fully within the query box
    fn is_within(&self, query: &Self) -> (inside: bool) {
        self.xmin >= query.xmin && self.xmax <= query.xmax && self.ymin >= query.ymin && self.ymax
            <= query.ymax
    }

    /// Check if this bounding box overlaps with the query box
    fn overlaps(&self, query: &Self) -> (touching: bool) {
        !(self.xmax < query.xmin || self.xmin > query.xmax || self.ymax < query.ymin || self.ymin
            > query.ymax)
    }
}

} // verus!
