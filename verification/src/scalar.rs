use vstd::prelude::*;

verus! {

/// The key of positive infinity: the bit pattern `0x7FF0_0000_0000_0000`.
pub const INFINITY_KEY: i64 = 0x7FF0_0000_0000_0000;

/// The key of the double `1.0`.
pub const ONE_KEY: i64 = 0x3FF0_0000_0000_0000;

/// A coordinate: an IEEE-754 double, held as the integer that orders it.
///
/// The key of a double is its bit pattern without the sign bit, negated where the sign bit
/// is set. Both zeros have key 0, the infinities have keys `INFINITY_KEY` and
/// `-INFINITY_KEY`, and every key beyond them stands for a NaN. On numbers the keys are
/// ordered as the doubles are; a NaN compares false with everything, itself included.
#[derive(Clone, Copy, PartialEq, Eq, Structural, Debug)]
pub struct Scalar {
    pub key: i64,
}

impl Scalar {
    /// The value is a number (it may be infinite), not a NaN.
    pub open spec fn is_number(self) -> bool {
        -INFINITY_KEY <= self.key <= INFINITY_KEY
    }

    /// The value is a number and not infinite.
    pub open spec fn is_finite(self) -> bool {
        -INFINITY_KEY < self.key < INFINITY_KEY
    }

    /// `self < other` as doubles compare.
    pub open spec fn lt_spec(self, other: Scalar) -> bool {
        self.is_number() && other.is_number() && self.key < other.key
    }

    /// `self <= other` as doubles compare.
    pub open spec fn le_spec(self, other: Scalar) -> bool {
        self.is_number() && other.is_number() && self.key <= other.key
    }

    /// `self == other` as doubles compare: false where either is a NaN.
    pub open spec fn same_spec(self, other: Scalar) -> bool {
        self.is_number() && other.is_number() && self.key == other.key
    }

    /// The smaller of the two as `f64::min` gives it: a NaN yields to a number.
    pub open spec fn min_spec(self, other: Scalar) -> Scalar {
        if !other.is_number() {
            self
        } else if !self.is_number() {
            other
        } else if other.key < self.key {
            other
        } else {
            self
        }
    }

    /// The larger of the two as `f64::max` gives it: a NaN yields to a number.
    pub open spec fn max_spec(self, other: Scalar) -> Scalar {
        if !other.is_number() {
            self
        } else if !self.is_number() {
            other
        } else if other.key > self.key {
            other
        } else {
            self
        }
    }

    pub fn new(key: i64) -> (r: Scalar)
        ensures
            r.key == key,
    {
        Scalar { key }
    }

    /// The double `0.0`.
    pub fn zero() -> (r: Scalar)
        ensures
            r.key == 0,
    {
        Scalar { key: 0 }
    }

    /// The double `1.0`.
    pub fn one() -> (r: Scalar)
        ensures
            r.key == ONE_KEY,
    {
        Scalar { key: ONE_KEY }
    }

    pub fn infinity() -> (r: Scalar)
        ensures
            r.key == INFINITY_KEY,
    {
        Scalar { key: INFINITY_KEY }
    }

    pub fn neg_infinity() -> (r: Scalar)
        ensures
            r.key == -INFINITY_KEY,
    {
        Scalar { key: -INFINITY_KEY }
    }

    pub fn key(&self) -> (r: i64)
        ensures
            r == self.key,
    {
        self.key
    }

    pub fn number(&self) -> (r: bool)
        ensures
            r == self.is_number(),
    {
        -INFINITY_KEY <= self.key && self.key <= INFINITY_KEY
    }

    pub fn finite(&self) -> (r: bool)
        ensures
            r == self.is_finite(),
    {
        -INFINITY_KEY < self.key && self.key < INFINITY_KEY
    }

    pub fn lt(&self, other: &Scalar) -> (r: bool)
        ensures
            r == self.lt_spec(*other),
    {
        self.number() && other.number() && self.key < other.key
    }

    pub fn le(&self, other: &Scalar) -> (r: bool)
        ensures
            r == self.le_spec(*other),
    {
        self.number() && other.number() && self.key <= other.key
    }

    pub fn gt(&self, other: &Scalar) -> (r: bool)
        ensures
            r == other.lt_spec(*self),
    {
        other.lt(self)
    }

    pub fn ge(&self, other: &Scalar) -> (r: bool)
        ensures
            r == other.le_spec(*self),
    {
        other.le(self)
    }

    pub fn same(&self, other: &Scalar) -> (r: bool)
        ensures
            r == self.same_spec(*other),
    {
        self.number() && other.number() && self.key == other.key
    }

    pub fn min(self, other: Scalar) -> (r: Scalar)
        ensures
            r == self.min_spec(other),
    {
        if !other.number() {
            self
        } else if !self.number() {
            other
        } else if other.key < self.key {
            other
        } else {
            self
        }
    }

    pub fn max(self, other: Scalar) -> (r: Scalar)
        ensures
            r == self.max_spec(other),
    {
        if !other.number() {
            self
        } else if !self.number() {
            other
        } else if other.key > self.key {
            other
        } else {
            self
        }
    }
}

/// A point of the plane.
#[derive(Clone, Copy, PartialEq, Eq, Structural, Debug)]
pub struct Point {
    pub x: Scalar,
    pub y: Scalar,
}

impl Point {
    pub open spec fn is_finite(self) -> bool {
        self.x.is_finite() && self.y.is_finite()
    }

    pub fn new(x: Scalar, y: Scalar) -> (r: Point)
        ensures
            r == (Point { x, y }),
    {
        Point { x, y }
    }

    pub fn finite(&self) -> (r: bool)
        ensures
            r == self.is_finite(),
    {
        self.x.finite() && self.y.finite()
    }
}

/// On numbers, `<=` is a total order and `<` its strict part.
pub proof fn lemma_scalar_order(a: Scalar, b: Scalar, c: Scalar)
    requires
        a.is_number(),
        b.is_number(),
        c.is_number(),
    ensures
        a.le_spec(a),
        a.le_spec(b) || b.le_spec(a),
        a.le_spec(b) && b.le_spec(a) ==> a == b,
        a.le_spec(b) && b.le_spec(c) ==> a.le_spec(c),
        a.lt_spec(b) <==> !b.le_spec(a),
{
}

} // verus!
