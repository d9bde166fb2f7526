use vstd::prelude::*;

verus! {

/// The key of the number one.
pub const ONE_KEY: i64 = 4607182418800017408;

/// A real number, carried by an integer key that orders as the numbers do.
///
/// The key of a binary64 value is its bit pattern read as a signed integer, with
/// the low 63 bits inverted where the sign bit is set. Zero has key 0, and
/// `a < b` as numbers exactly when the key of `a` is below the key of `b`, as
/// long as negative zero is carried as zero and no key stands for a pattern
/// that is not a number.
#[derive(Clone, Copy, PartialEq, Eq, Structural, Debug)]
pub struct Scalar {
    pub key: i64,
}

impl Scalar {
    /// The scalar with the given key.
    pub fn new(key: i64) -> (s: Self)
        ensures
            s.key == key,
    {
        Scalar { key }
    }

    /// The number zero.
    pub fn zero() -> (s: Self)
        ensures
            s.key == 0,
    {
        Scalar { key: 0 }
    }

    /// The number one.
    pub fn one() -> (s: Self)
        ensures
            s.key == ONE_KEY,
    {
        Scalar { key: ONE_KEY }
    }

    /// `self < other` as numbers.
    pub fn lt(self, other: Scalar) -> (b: bool)
        ensures
            b == (self.key < other.key),
    {
        self.key < other.key
    }

    /// `self <= other` as numbers.
    pub fn le(self, other: Scalar) -> (b: bool)
        ensures
            b == (self.key <= other.key),
    {
        self.key <= other.key
    }

    /// The lesser of the two, and `self` where they are equal.
    pub open spec fn spec_min(self, other: Scalar) -> Scalar {
        if other.key < self.key {
            other
        } else {
            self
        }
    }

    /// The greater of the two, and `self` where they are equal.
    pub open spec fn spec_max(self, other: Scalar) -> Scalar {
        if self.key < other.key {
            other
        } else {
            self
        }
    }

    /// The lesser of the two.
    pub fn min(self, other: Scalar) -> (m: Scalar)
        ensures
            m == self.spec_min(other),
    {
        if other.key < self.key {
            other
        } else {
            self
        }
    }

    /// The greater of the two.
    pub fn max(self, other: Scalar) -> (m: Scalar)
        ensures
            m == self.spec_max(other),
    {
        if self.key < other.key {
            other
        } else {
            self
        }
    }
}

/// Three scalars: a free vector, a position or a colour.
#[derive(Clone, Copy, PartialEq, Eq, Structural, Debug)]
pub struct Vec3(pub Scalar, pub Scalar, pub Scalar);

pub type Point3 = Vec3;

impl Vec3 {
    /// The vector with the given components.
    pub fn new(x: Scalar, y: Scalar, z: Scalar) -> (v: Self)
        ensures
            v == Vec3(x, y, z),
    {
        Vec3(x, y, z)
    }

    /// The vector with `v` in each component.
    pub fn from_single(v: Scalar) -> (r: Self)
        ensures
            r == Vec3(v, v, v),
    {
        Vec3(v, v, v)
    }

    /// The vector of zeros.
    pub fn zero() -> (v: Self)
        ensures
            v == Vec3(Scalar { key: 0 }, Scalar { key: 0 }, Scalar { key: 0 }),
    {
        Vec3(Scalar::zero(), Scalar::zero(), Scalar::zero())
    }

    /// The vector of ones.
    pub fn one() -> (v: Self)
        ensures
            v == Vec3(Scalar { key: ONE_KEY }, Scalar { key: ONE_KEY }, Scalar { key: ONE_KEY }),
    {
        Vec3(Scalar::one(), Scalar::one(), Scalar::one())
    }

    /// The component on `index`: 0 is x, 1 is y, 2 is z.
    pub open spec fn spec_index(self, index: int) -> Scalar {
        if index == 0 {
            self.0
        } else if index == 1 {
            self.1
        } else {
            self.2
        }
    }

    /// The component on axis `index`, which is 0, 1 or 2.
    pub fn index(&self, index: usize) -> (c: Scalar)
        requires
            index < 3,
        ensures
            c == self.spec_index(index as int),
    {
        if index == 0 {
            self.0
        } else if index == 1 {
            self.1
        } else {
            self.2
        }
    }
}

/// Two scalars: a texture coordinate, or an interval `(min, max)`.
#[derive(Clone, Copy, PartialEq, Eq, Structural, Debug)]
pub struct Vec2(pub Scalar, pub Scalar);

pub type Point2 = Vec2;

impl Vec2 {
    /// The pair with the given components.
    pub fn new(x: Scalar, y: Scalar) -> (v: Self)
        ensures
            v == Vec2(x, y),
    {
        Vec2(x, y)
    }

    /// The pair with `v` in each component.
    pub fn from_single(v: Scalar) -> (r: Self)
        ensures
            r == Vec2(v, v),
    {
        Vec2(v, v)
    }

    /// The pair of zeros.
    pub fn zero() -> (v: Self)
        ensures
            v == Vec2(Scalar { key: 0 }, Scalar { key: 0 }),
    {
        Vec2(Scalar::zero(), Scalar::zero())
    }

    /// The pair of ones.
    pub fn one() -> (v: Self)
        ensures
            v == Vec2(Scalar { key: ONE_KEY }, Scalar { key: ONE_KEY }),
    {
        Vec2(Scalar::one(), Scalar::one())
    }

    /// `t` lies in the closed interval from `self.0` to `self.1`.
    pub open spec fn spec_contains(self, t: Scalar) -> bool {
        self.0.key <= t.key <= self.1.key
    }

    /// Whether `t` lies in the closed interval from `self.0` to `self.1`.
    pub fn contains(&self, t: Scalar) -> (b: bool)
        ensures
            b == self.spec_contains(t),
    {
        self.0.key <= t.key && t.key <= self.1.key
    }
}

} // verus!
