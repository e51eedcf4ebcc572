//! Axis-aligned bounding boxes with coordinates held as ordering keys:
//! growing by a point, merging, and the rule that unbounded boxes stay
//! unbounded under a transform.

use vstd::prelude::*;
use crate::order::{NAN_KEY, POS_INFINITY_KEY, NEG_INFINITY_KEY, is_number_key};

verus! {

/// A point whose coordinates are held as ordering keys of doubles.
#[derive(Clone, Copy, Debug, PartialEq, Eq, Structural)]
pub struct KeyPoint {
    pub x: u64,
    pub y: u64,
    pub z: u64,
}

/// An axis-aligned box given by its least and greatest corners, with
/// coordinates held as ordering keys.
#[derive(Clone, Copy, Debug, PartialEq, Eq, Structural)]
pub struct Bounds {
    pub min: KeyPoint,
    pub max: KeyPoint,
}

/// The lesser of two coordinates; a NaN gives way to the other one.
pub open spec fn key_min(a: u64, b: u64) -> u64 {
    if a <= b {
        a
    } else {
        b
    }
}

/// The greater of two coordinates; a NaN gives way to the other one.
pub open spec fn key_max(a: u64, b: u64) -> u64 {
    if a == NAN_KEY {
        b
    } else if b == NAN_KEY {
        a
    } else if a >= b {
        a
    } else {
        b
    }
}

pub open spec fn point_min(a: KeyPoint, b: KeyPoint) -> KeyPoint {
    KeyPoint { x: key_min(a.x, b.x), y: key_min(a.y, b.y), z: key_min(a.z, b.z) }
}

pub open spec fn point_max(a: KeyPoint, b: KeyPoint) -> KeyPoint {
    KeyPoint { x: key_max(a.x, b.x), y: key_max(a.y, b.y), z: key_max(a.z, b.z) }
}

/// `b` grown to take in the point `p`.
pub open spec fn with_point(b: Bounds, p: KeyPoint) -> Bounds {
    Bounds { min: point_min(b.min, p), max: point_max(b.max, p) }
}

/// The smallest box around `a` and `b`: the lesser least corner and the
/// greater greatest corner, axis by axis.
pub open spec fn merged(a: Bounds, b: Bounds) -> Bounds {
    Bounds { min: point_min(a.min, b.min), max: point_max(a.max, b.max) }
}

/// `b` grown to take in every point of `ps`, in order.
pub open spec fn with_points(b: Bounds, ps: Seq<KeyPoint>) -> Bounds
    decreases ps.len(),
{
    if ps.len() == 0 {
        b
    } else {
        with_point(with_points(b, ps.drop_last()), ps.last())
    }
}

pub open spec fn empty_spec() -> Bounds {
    Bounds {
        min: KeyPoint { x: POS_INFINITY_KEY, y: POS_INFINITY_KEY, z: POS_INFINITY_KEY },
        max: KeyPoint { x: NEG_INFINITY_KEY, y: NEG_INFINITY_KEY, z: NEG_INFINITY_KEY },
    }
}

pub open spec fn infinite_spec() -> Bounds {
    Bounds {
        min: KeyPoint { x: NEG_INFINITY_KEY, y: NEG_INFINITY_KEY, z: NEG_INFINITY_KEY },
        max: KeyPoint { x: POS_INFINITY_KEY, y: POS_INFINITY_KEY, z: POS_INFINITY_KEY },
    }
}

pub open spec fn is_infinite_key(k: u64) -> bool {
    k == POS_INFINITY_KEY || k == NEG_INFINITY_KEY
}

/// Whether some coordinate of either corner is infinite.
pub open spec fn unbounded(b: Bounds) -> bool {
    is_infinite_key(b.min.x) || is_infinite_key(b.min.y) || is_infinite_key(b.min.z)
        || is_infinite_key(b.max.x) || is_infinite_key(b.max.y) || is_infinite_key(b.max.z)
}

/// A box whose coordinates are all numbers (no NaN) and whose least corner lies below its greatest
/// corner on every axis.
pub open spec fn proper(b: Bounds) -> bool {
    &&& is_number_key(b.min.x) && is_number_key(b.min.y) && is_number_key(b.min.z)
    &&& is_number_key(b.max.x) && is_number_key(b.max.y) && is_number_key(b.max.z)
    &&& b.min.x <= b.max.x && b.min.y <= b.max.y && b.min.z <= b.max.z
}

fn min_key(a: u64, b: u64) -> (r: u64)
    ensures
        r == key_min(a, b),
{
    if a <= b {
        a
    } else {
        b
    }
}

fn max_key(a: u64, b: u64) -> (r: u64)
    ensures
        r == key_max(a, b),
{
    if a == NAN_KEY {
        b
    } else if b == NAN_KEY {
        a
    } else if a >= b {
        a
    } else {
        b
    }
}

impl KeyPoint {
    pub fn new(x: u64, y: u64, z: u64) -> (r: KeyPoint)
        ensures
            r == (KeyPoint { x, y, z }),
    {
        KeyPoint { x, y, z }
    }
}

impl Bounds {
    pub fn new(min: KeyPoint, max: KeyPoint) -> (r: Bounds)
        ensures
            r == (Bounds { min, max }),
    {
        Bounds { min, max }
    }

    /// The box that holds nothing: its least corner at positive infinity and
    /// its greatest at negative infinity, so that adding a point yields that
    /// point.
    pub fn empty() -> (r: Bounds)
        ensures
            r == empty_spec(),
    {
        Bounds {
            min: KeyPoint { x: POS_INFINITY_KEY, y: POS_INFINITY_KEY, z: POS_INFINITY_KEY },
            max: KeyPoint { x: NEG_INFINITY_KEY, y: NEG_INFINITY_KEY, z: NEG_INFINITY_KEY },
        }
    }

    /// The box that holds all space.
    pub fn infinite() -> (r: Bounds)
        ensures
            r == infinite_spec(),
            unbounded(r),
    {
        Bounds {
            min: KeyPoint { x: NEG_INFINITY_KEY, y: NEG_INFINITY_KEY, z: NEG_INFINITY_KEY },
            max: KeyPoint { x: POS_INFINITY_KEY, y: POS_INFINITY_KEY, z: POS_INFINITY_KEY },
        }
    }

    /// Grows the box to take in `point`.
    pub fn add_point(&mut self, point: KeyPoint)
        ensures
            *final(self) == with_point(*old(self), point),
    {
        self.min = KeyPoint {
            x: min_key(self.min.x, point.x),
            y: min_key(self.min.y, point.y),
            z: min_key(self.min.z, point.z),
        };
        self.max = KeyPoint {
            x: max_key(self.max.x, point.x),
            y: max_key(self.max.y, point.y),
            z: max_key(self.max.z, point.z),
        };
    }

    /// The smallest box around this one and `other`; the empty box leaves
    /// the other one unchanged.
    pub fn merge(&self, other: &Bounds) -> (r: Bounds)
        ensures
            r == merged(*self, *other),
    {
        Bounds {
            min: KeyPoint {
                x: min_key(self.min.x, other.min.x),
                y: min_key(self.min.y, other.min.y),
                z: min_key(self.min.z, other.min.z),
            },
            max: KeyPoint {
                x: max_key(self.max.x, other.max.x),
                y: max_key(self.max.y, other.max.y),
                z: max_key(self.max.z, other.max.z),
            },
        }
    }

    /// Whether some coordinate of either corner is infinite.
    pub fn is_unbounded(&self) -> (r: bool)
        ensures
            r == unbounded(*self),
    {
        is_infinite(self.min.x) || is_infinite(self.min.y) || is_infinite(self.min.z)
            || is_infinite(self.max.x) || is_infinite(self.max.y) || is_infinite(self.max.z)
    }

    /// The box around this one after it was moved by a transform, given the
    /// images of its eight corners under that transform. A box with an
    /// infinite coordinate stays the infinite box, whatever the images.
    pub fn transform_from_corners(&self, corners: &Vec<KeyPoint>) -> (r: Bounds)
        ensures
            unbounded(*self) ==> r == infinite_spec(),
            !unbounded(*self) ==> r == with_points(empty_spec(), corners@),
    {
        if self.is_unbounded() {
            return Bounds::infinite();
        }
        let mut result = Bounds::empty();
        let mut i: usize = 0;
        while i < corners.len()
            invariant
                i <= corners.len(),
                result == with_points(empty_spec(), corners@.subrange(0, i as int)),
            decreases corners.len() - i,
        {
            assert(corners@.subrange(0, i as int + 1).drop_last() == corners@.subrange(0, i as int));
            result.add_point(corners[i]);
            i = i + 1;
        }
        assert(corners@.subrange(0, corners.len() as int) == corners@);
        result
    }
}

fn is_infinite(k: u64) -> (r: bool)
    ensures
        r == is_infinite_key(k),
{
    k == POS_INFINITY_KEY || k == NEG_INFINITY_KEY
}

/// Every coordinate of the box is a number (finite or infinite), not NaN.
pub open spec fn numeric(b: Bounds) -> bool {
    &&& is_number_key(b.min.x) && is_number_key(b.min.y) && is_number_key(b.min.z)
    &&& is_number_key(b.max.x) && is_number_key(b.max.y) && is_number_key(b.max.z)
}

/// Merging does not depend on the order of the boxes: it is commutative and
/// associative, the empty box is an identity on either side for every box
/// without NaN coordinates (the empty box included), and merging proper
/// boxes gives a proper box.
pub proof fn lemma_merge_order_free(a: Bounds, b: Bounds, c: Bounds)
    ensures
        merged(a, b) == merged(b, a),
        merged(merged(a, b), c) == merged(a, merged(b, c)),
        numeric(a) ==> merged(empty_spec(), a) == a && merged(a, empty_spec()) == a,
        numeric(empty_spec()),
        proper(a) && proper(b) ==> proper(merged(a, b)),
{
}

} // verus!
