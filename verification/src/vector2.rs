use std::ops::{Add, Div, Mul, Sub};
use vstd::prelude::*;
use vstd::std_specs::convert::FromSpec;
use vstd::std_specs::ops::{AddSpec, DivSpec, MulSpec, SubSpec};

verus! {

/// A pair of coordinates, `x` then `y`.
#[derive(Copy, Clone, Debug, PartialEq, Eq, Structural)]
pub struct Vec2d<T> {
    /// x
    pub x: T,
    /// y
    pub y: T,
}

/// Vec2d<u32>
pub type Vu2d = Vec2d<u32>;

/// Vec2d<i32>
pub type Vi2d = Vec2d<i32>;

impl<T> Vec2d<T> {
    /// Converts both coordinates to another type through `From`.
    pub fn cast<U: From<T>>(self) -> (v: Vec2d<U>)
        ensures
            U::obeys_from_spec() ==> v == (Vec2d { x: U::from_spec(self.x), y: U::from_spec(self.y) }),
    {
        let x: U = U::from(self.x);
        let y: U = U::from(self.y);
        Vec2d { x, y }
    }
}

/// Whether an integer fits in an `i32`.
pub open spec fn fits_i32(v: int) -> bool {
    i32::MIN <= v <= i32::MAX
}

impl Vec2d<i32> {
    /// The square of the vector's length, `x * x + y * y`.
    pub open spec fn spec_mag2(self) -> int {
        self.x * self.x + self.y * self.y
    }

    /// The dot product `x * rhs.x + y * rhs.y`.
    pub open spec fn spec_dot(self, rhs: Self) -> int {
        self.x * rhs.x + self.y * rhs.y
    }

    /// The (z part of the) cross product `x * rhs.y - y * rhs.x`.
    pub open spec fn spec_cross(self, rhs: Self) -> int {
        self.x * rhs.y - self.y * rhs.x
    }

    /// The square of the vector's length, `x * x + y * y`, without the square root.
    pub fn mag2(&self) -> (m: i32)
        requires
            fits_i32(self.spec_mag2()),
        ensures
            m == self.spec_mag2(),
    {
        let x = self.x as i64;
        let y = self.y as i64;
        assert(x * x <= 0x4000_0000_0000_0000 && y * y <= 0x4000_0000_0000_0000) by (nonlinear_arith)
            requires
                -0x8000_0000 <= x < 0x8000_0000,
                -0x8000_0000 <= y < 0x8000_0000,
        ;
        assert(0 <= x * x && 0 <= y * y) by (nonlinear_arith);
        (x * x + y * y) as i32
    }

    /// The vector turned a quarter turn: `(-y, x)`.
    pub fn perp(&self) -> (p: Self)
        requires
            self.y != i32::MIN,
        ensures
            p.x == -self.y,
            p.y == self.x,
    {
        Vec2d { x: -self.y, y: self.x }
    }

    /// The dot product of the two vectors.
    pub fn dot(&self, rhs: &Self) -> (d: i32)
        requires
            fits_i32(self.spec_dot(*rhs)),
        ensures
            d == self.spec_dot(*rhs),
    {
        proof {
            lemma_i32_product_bound(self.x, rhs.x);
            lemma_i32_product_bound(self.y, rhs.y);
        }
        let a = (self.x as i64) * (rhs.x as i64);
        let b = (self.y as i64) * (rhs.y as i64);
        (a + b) as i32
    }

    /// The cross product of the two vectors (its `z` part).
    pub fn cross(&self, rhs: &Self) -> (c: i32)
        requires
            fits_i32(self.spec_cross(*rhs)),
        ensures
            c == self.spec_cross(*rhs),
    {
        proof {
            lemma_i32_product_bound(self.x, rhs.y);
            lemma_i32_product_bound(self.y, rhs.x);
        }
        let a = (self.x as i64) * (rhs.y as i64);
        let b = (self.y as i64) * (rhs.x as i64);
        (a - b) as i32
    }
}

/// The normal that [`Vec2d::perp`] gives is orthogonal to the vector: their dot product is
/// zero, and their cross product is the square of the vector's length.
pub proof fn lemma_perp_is_normal(v: Vi2d)
    requires
        v.y != i32::MIN,
    ensures
        v.spec_dot(Vec2d { x: (-v.y) as i32, y: v.x }) == 0,
        v.spec_cross(Vec2d { x: (-v.y) as i32, y: v.x }) == v.spec_mag2(),
{
    assert(v.x * (-v.y) + v.y * v.x == 0) by (nonlinear_arith);
    assert(v.x * v.x - v.y * (-v.y) == v.x * v.x + v.y * v.y) by (nonlinear_arith);
}

/// The square of a vector's length is its dot product with itself, and a vector's cross
/// product with itself is zero.
pub proof fn lemma_mag2_is_self_dot(v: Vi2d)
    ensures
        v.spec_mag2() == v.spec_dot(v),
        v.spec_cross(v) == 0,
{
    assert(v.x * v.y - v.y * v.x == 0) by (nonlinear_arith);
}

/// The product of two `i32` lies well within the `i64` range.
proof fn lemma_i32_product_bound(a: i32, b: i32)
    ensures
        -0x4000_0000_0000_0000 <= a * b <= 0x4000_0000_0000_0000,
{
    assert(-0x4000_0000_0000_0000 <= a * b <= 0x4000_0000_0000_0000) by (nonlinear_arith)
        requires
            -0x8000_0000 <= a < 0x8000_0000,
            -0x8000_0000 <= b < 0x8000_0000,
    ;
}

impl<T: Copy + Add<Output = T>> Add for Vec2d<T> {
    type Output = Self;

    /// Coordinate by coordinate.
    fn add(self, rhs: Self) -> (r: Self) {
        Vec2d { x: self.x + rhs.x, y: self.y + rhs.y }
    }
}

impl<T: Copy + Add<Output = T>> vstd::std_specs::ops::AddSpecImpl for Vec2d<T> {
    open spec fn obeys_add_spec() -> bool {
        T::obeys_add_spec()
    }

    open spec fn add_req(self, rhs: Self) -> bool {
        self.x.add_req(rhs.x) && self.y.add_req(rhs.y)
    }

    open spec fn add_spec(self, rhs: Self) -> Self {
        Vec2d { x: self.x.add_spec(rhs.x), y: self.y.add_spec(rhs.y) }
    }
}

impl<T: Copy + Sub<Output = T>> Sub for Vec2d<T> {
    type Output = Self;

    /// Coordinate by coordinate.
    fn sub(self, rhs: Self) -> (r: Self) {
        Vec2d { x: self.x - rhs.x, y: self.y - rhs.y }
    }
}

impl<T: Copy + Sub<Output = T>> vstd::std_specs::ops::SubSpecImpl for Vec2d<T> {
    open spec fn obeys_sub_spec() -> bool {
        T::obeys_sub_spec()
    }

    open spec fn sub_req(self, rhs: Self) -> bool {
        self.x.sub_req(rhs.x) && self.y.sub_req(rhs.y)
    }

    open spec fn sub_spec(self, rhs: Self) -> Self {
        Vec2d { x: self.x.sub_spec(rhs.x), y: self.y.sub_spec(rhs.y) }
    }
}

impl<T: Copy + Mul<Output = T>> Mul for Vec2d<T> {
    type Output = Self;

    /// Coordinate by coordinate.
    fn mul(self, rhs: Self) -> (r: Self) {
        Vec2d { x: self.x * rhs.x, y: self.y * rhs.y }
    }
}

impl<T: Copy + Mul<Output = T>> vstd::std_specs::ops::MulSpecImpl for Vec2d<T> {
    open spec fn obeys_mul_spec() -> bool {
        T::obeys_mul_spec()
    }

    open spec fn mul_req(self, rhs: Self) -> bool {
        self.x.mul_req(rhs.x) && self.y.mul_req(rhs.y)
    }

    open spec fn mul_spec(self, rhs: Self) -> Self {
        Vec2d { x: self.x.mul_spec(rhs.x), y: self.y.mul_spec(rhs.y) }
    }
}

impl<T: Copy + Div<Output = T>> Div for Vec2d<T> {
    type Output = Self;

    /// Coordinate by coordinate.
    fn div(self, rhs: Self) -> (r: Self) {
        Vec2d { x: self.x / rhs.x, y: self.y / rhs.y }
    }
}

impl<T: Copy + Div<Output = T>> vstd::std_specs::ops::DivSpecImpl for Vec2d<T> {
    open spec fn obeys_div_spec() -> bool {
        T::obeys_div_spec()
    }

    open spec fn div_req(self, rhs: Self) -> bool {
        self.x.div_req(rhs.x) && self.y.div_req(rhs.y)
    }

    open spec fn div_spec(self, rhs: Self) -> Self {
        Vec2d { x: self.x.div_spec(rhs.x), y: self.y.div_spec(rhs.y) }
    }
}

impl<T: Copy + Mul<Output = T>> Mul<T> for Vec2d<T> {
    type Output = Self;

    /// Both coordinates by the same scalar.
    fn mul(self, rhs: T) -> (r: Self) {
        Vec2d { x: self.x * rhs, y: self.y * rhs }
    }
}

impl<T: Copy + Mul<Output = T>> vstd::std_specs::ops::MulSpecImpl<T> for Vec2d<T> {
    open spec fn obeys_mul_spec() -> bool {
        T::obeys_mul_spec()
    }

    open spec fn mul_req(self, rhs: T) -> bool {
        self.x.mul_req(rhs) && self.y.mul_req(rhs)
    }

    open spec fn mul_spec(self, rhs: T) -> Self {
        Vec2d { x: self.x.mul_spec(rhs), y: self.y.mul_spec(rhs) }
    }
}

impl<T: Copy + Div<Output = T>> Div<T> for Vec2d<T> {
    type Output = Self;

    /// Both coordinates by the same scalar.
    fn div(self, rhs: T) -> (r: Self) {
        Vec2d { x: self.x / rhs, y: self.y / rhs }
    }
}

impl<T: Copy + Div<Output = T>> vstd::std_specs::ops::DivSpecImpl<T> for Vec2d<T> {
    open spec fn obeys_div_spec() -> bool {
        T::obeys_div_spec()
    }

    open spec fn div_req(self, rhs: T) -> bool {
        self.x.div_req(rhs) && self.y.div_req(rhs)
    }

    open spec fn div_spec(self, rhs: T) -> Self {
        Vec2d { x: self.x.div_spec(rhs), y: self.y.div_spec(rhs) }
    }
}

impl<T: Copy> From<(T, T)> for Vec2d<T> {
    fn from(t: (T, T)) -> (v: Vec2d<T>) {
        Vec2d { x: t.0, y: t.1 }
    }
}

impl<T: Copy> vstd::std_specs::convert::FromSpecImpl<(T, T)> for Vec2d<T> {
    open spec fn obeys_from_spec() -> bool {
        true
    }

    open spec fn from_spec(t: (T, T)) -> Vec2d<T> {
        Vec2d { x: t.0, y: t.1 }
    }
}

impl<T: Copy> From<[T; 2]> for Vec2d<T> {
    fn from(t: [T; 2]) -> (v: Vec2d<T>) {
        Vec2d { x: t[0], y: t[1] }
    }
}

impl<T: Copy> vstd::std_specs::convert::FromSpecImpl<[T; 2]> for Vec2d<T> {
    open spec fn obeys_from_spec() -> bool {
        true
    }

    open spec fn from_spec(t: [T; 2]) -> Vec2d<T> {
        Vec2d { x: t[0], y: t[1] }
    }
}

} // verus!
