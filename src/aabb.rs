//! Axis-aligned bounding boxes. Each coordinate is held as an order key: an integer
//! that orders coordinates as the numbers themselves are ordered. Merging and
//! enclosing only compare coordinates, so they are exact on the keys.
use vstd::prelude::*;

verus! {

/// A corner of a box: one order key per axis, indexed 0, 1, 2 for x, y, z.
#[derive(Clone, Copy, PartialEq, Eq, Structural, Debug)]
pub struct Corner {
    pub x: u32,
    pub y: u32,
    pub z: u32,
}

impl Corner {
    pub open spec fn at(&self, axis: int) -> u32 {
        if axis == 0 {
            self.x
        } else if axis == 1 {
            self.y
        } else {
            self.z
        }
    }

    pub fn new(x: u32, y: u32, z: u32) -> (r: Corner)
        ensures
            r == (Corner { x, y, z }),
    {
        Corner { x, y, z }
    }

    /// The key on `axis`; only axes 0, 1 and 2 exist.
    pub fn get(&self, axis: usize) -> (r: u32)
        requires
            axis < 3,
        ensures
            r == self.at(axis as int),
    {
        if axis == 0 {
            self.x
        } else if axis == 1 {
            self.y
        } else {
            self.z
        }
    }
}

/// An axis-aligned box from corner `min` to corner `max`.
#[derive(Clone, Copy, PartialEq, Eq, Structural, Debug)]
pub struct AABB {
    pub min: Corner,
    pub max: Corner,
}

pub open spec fn min_u32(a: u32, b: u32) -> u32 {
    if a <= b {
        a
    } else {
        b
    }
}

pub open spec fn max_u32(a: u32, b: u32) -> u32 {
    if a >= b {
        a
    } else {
        b
    }
}

/// The union of two boxes: componentwise minimum of the lower corners and maximum of
/// the upper ones.
pub open spec fn spec_merge(a: AABB, b: AABB) -> AABB {
    AABB {
        min: Corner {
            x: min_u32(a.min.x, b.min.x),
            y: min_u32(a.min.y, b.min.y),
            z: min_u32(a.min.z, b.min.z),
        },
        max: Corner {
            x: max_u32(a.max.x, b.max.x),
            y: max_u32(a.max.y, b.max.y),
            z: max_u32(a.max.z, b.max.z),
        },
    }
}

/// `outer` holds `inner`: on every axis its span covers inner's.
pub open spec fn contains(outer: AABB, inner: AABB) -> bool {
    &&& outer.min.x <= inner.min.x
    &&& outer.min.y <= inner.min.y
    &&& outer.min.z <= inner.min.z
    &&& inner.max.x <= outer.max.x
    &&& inner.max.y <= outer.max.y
    &&& inner.max.z <= outer.max.z
}

fn min_key(a: u32, b: u32) -> (r: u32)
    ensures
        r == min_u32(a, b),
{
    if a <= b {
        a
    } else {
        b
    }
}

fn max_key(a: u32, b: u32) -> (r: u32)
    ensures
        r == max_u32(a, b),
{
    if a >= b {
        a
    } else {
        b
    }
}

impl AABB {
    /// The lower corner lies below the upper one on every axis.
    pub open spec fn wf(&self) -> bool {
        &&& self.min.x <= self.max.x
        &&& self.min.y <= self.max.y
        &&& self.min.z <= self.max.z
    }

    pub fn new(min: Corner, max: Corner) -> (r: AABB)
        ensures
            r == (AABB { min, max }),
    {
        AABB { min, max }
    }

    /// The smallest box holding both boxes.
    pub fn merge(box1: &AABB, box2: &AABB) -> (r: AABB)
        ensures
            r == spec_merge(*box1, *box2),
            box1.wf() && box2.wf() ==> r.wf(),
    {
        let mut aabb = *box1;
        aabb.expand(box2);
        aabb
    }

    /// Grows this box to hold the other.
    pub fn expand(&mut self, other: &AABB)
        ensures
            *final(self) == spec_merge(*old(self), *other),
            old(self).wf() && other.wf() ==> final(self).wf(),
    {
        self.min = Corner {
            x: min_key(self.min.x, other.min.x),
            y: min_key(self.min.y, other.min.y),
            z: min_key(self.min.z, other.min.z),
        };
        self.max = Corner {
            x: max_key(self.max.x, other.max.x),
            y: max_key(self.max.y, other.max.y),
            z: max_key(self.max.z, other.max.z),
        };
    }
}

/// Merging does not depend on the order of the two boxes.
pub proof fn lemma_merge_commutative(a: AABB, b: AABB)
    ensures
        spec_merge(a, b) == spec_merge(b, a),
{
}

/// The merge holds both boxes, and lies inside every box that holds both.
pub proof fn lemma_merge_least(a: AABB, b: AABB, c: AABB)
    ensures
        contains(spec_merge(a, b), a),
        contains(spec_merge(a, b), b),
        contains(c, a) && contains(c, b) ==> contains(c, spec_merge(a, b)),
{
}

} // verus!
