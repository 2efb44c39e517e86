//! Floating-point numbers by their bits, and the arithmetic unit that computes on them.
use vstd::prelude::*;

verus! {

/// A 16-bit float, held by its bits.
#[derive(Clone, Copy, Debug, PartialEq, Eq, Structural)]
pub struct Half {
    pub bits: u16,
}

/// A 32-bit float, held by its bits.
#[derive(Clone, Copy, Debug, PartialEq, Eq, Structural)]
pub struct Single {
    pub bits: u32,
}

impl Half {
    /// Whether the value is not a number.
    pub open spec fn undefined(self) -> bool {
        self.bits as int % 0x8000 > 0x7c00
    }

    /// Whether the value is a number and not infinite.
    pub open spec fn finite(self) -> bool {
        (self.bits as int % 0x8000) < 0x7c00
    }

    /// `self` is exactly twice `other`, both finite: below the smallest exponent the bits double,
    /// above it the exponents differ by one.
    pub open spec fn is_twice(self, other: Half) -> bool {
        let magnitude = other.bits as int % 0x8000;
        &&& (self.bits >= 0x8000) == (other.bits >= 0x8000)
        &&& if magnitude < 0x400 {
            self.bits as int % 0x8000 == 2 * magnitude
        } else {
            magnitude < 0x7800 && self.bits as int % 0x8000 == magnitude + 0x400
        }
    }

    /// Whether the value is one of the two zeros.
    pub open spec fn is_zero(self) -> bool {
        self == Half::zero() || self == Half::neg_zero()
    }

    /// The same value: the same bits, or two zeros.
    pub open spec fn same_value(self, other: Half) -> bool {
        self == other || (self.is_zero() && other.is_zero())
    }

    /// Negative zero.
    pub open spec fn neg_zero() -> Half {
        Half { bits: 0x8000 }
    }

    /// Positive zero.
    pub open spec fn spec_zero() -> Half {
        Half { bits: 0 }
    }

    /// Positive zero.
    #[verifier::when_used_as_spec(spec_zero)]
    pub fn zero() -> (r: Half)
        ensures
            r == Half::spec_zero(),
    {
        Half { bits: 0 }
    }
}

impl Single {
    pub open spec fn spec_zero() -> Single {
        Single { bits: 0 }
    }

    pub open spec fn spec_one() -> Single {
        Single { bits: 0x3f80_0000 }
    }

    pub open spec fn spec_two_pi() -> Single {
        Single { bits: 0x40c9_0fdb }
    }

    pub open spec fn spec_neg_infinity() -> Single {
        Single { bits: 0xff80_0000 }
    }

    /// Positive zero.
    #[verifier::when_used_as_spec(spec_zero)]
    pub fn zero() -> (r: Single)
        ensures
            r == Single::spec_zero(),
    {
        Single { bits: 0 }
    }

    /// One.
    #[verifier::when_used_as_spec(spec_one)]
    pub fn one() -> (r: Single)
        ensures
            r == Single::spec_one(),
    {
        Single { bits: 0x3f80_0000 }
    }

    /// The nearest value to pi, doubled.
    #[verifier::when_used_as_spec(spec_two_pi)]
    pub fn two_pi() -> (r: Single)
        ensures
            r == Single::spec_two_pi(),
    {
        Single { bits: 0x40c9_0fdb }
    }

    /// Negative infinity.
    #[verifier::when_used_as_spec(spec_neg_infinity)]
    pub fn neg_infinity() -> (r: Single)
        ensures
            r == Single::spec_neg_infinity(),
    {
        Single { bits: 0xff80_0000 }
    }

    /// The bits below the sign, as a number: it grows with the absolute value.
    pub open spec fn magnitude(self) -> int {
        self.bits as int % 0x8000_0000
    }

    /// Whether the value is not a number.
    pub open spec fn undefined(self) -> bool {
        self.magnitude() > 0x7f80_0000
    }

    /// Whether the value is a number and not infinite.
    pub open spec fn finite(self) -> bool {
        self.magnitude() < 0x7f80_0000
    }

    /// The place of a value that is a number in the numeric order. The two zeros share one.
    pub open spec fn rank(self) -> int {
        if self.bits >= 0x8000_0000 {
            -self.magnitude()
        } else {
            self.magnitude()
        }
    }

    /// `self < other` as floats: false as soon as one of the two is not a number.
    pub open spec fn less(self, other: Single) -> bool {
        !self.undefined() && !other.undefined() && self.rank() < other.rank()
    }

    /// `self <= other` as floats: false as soon as one of the two is not a number.
    pub open spec fn at_most(self, other: Single) -> bool {
        !self.undefined() && !other.undefined() && self.rank() <= other.rank()
    }

    /// The greater of two values, or the one that is a number. Of two zeros, the first.
    pub open spec fn spec_max(self, other: Single) -> Single {
        if self.undefined() || self.less(other) {
            other
        } else {
            self
        }
    }

    /// The same value: the same bits, or two zeros.
    pub open spec fn same_value(self, other: Single) -> bool {
        self == other || (self.rank() == 0 && other.rank() == 0)
    }

    /// Whether the value is not a number.
    pub fn is_nan(self) -> (r: bool)
        ensures
            r == self.undefined(),
    {
        self.bits % 0x8000_0000 > 0x7f80_0000
    }

    fn order_key(self) -> (r: i64)
        ensures
            r == self.rank(),
    {
        let magnitude: i64 = (self.bits % 0x8000_0000) as i64;
        if self.bits >= 0x8000_0000 {
            -magnitude
        } else {
            magnitude
        }
    }

    /// `self < other` as floats.
    pub fn lt(self, other: Single) -> (r: bool)
        ensures
            r == self.less(other),
    {
        !self.is_nan() && !other.is_nan() && self.order_key() < other.order_key()
    }

    /// `self <= other` as floats.
    pub fn le(self, other: Single) -> (r: bool)
        ensures
            r == self.at_most(other),
    {
        !self.is_nan() && !other.is_nan() && self.order_key() <= other.order_key()
    }

    /// The greater of two values, or the one that is a number.
    #[verifier::when_used_as_spec(spec_max)]
    pub fn max(self, other: Single) -> (r: Single)
        ensures
            r == self.spec_max(other),
    {
        if self.is_nan() || self.lt(other) {
            other
        } else {
            self
        }
    }
}

/// Floating-point arithmetic. The library only calls these operations: it assumes nothing of
/// what they return, not even that two calls on the same operands agree.
pub trait FloatUnit {
    /// A 16-bit value as a 32-bit one.
    fn widen(x: Half) -> Single;

    /// A 32-bit value rounded to a 16-bit one.
    fn narrow(x: Single) -> Half;

    /// An integer rounded to a 32-bit value.
    fn from_usize(n: usize) -> Single;

    /// A value cut to an integer, held to the range of `usize`.
    fn to_usize(x: Single) -> usize;

    /// `a + b`.
    fn plus(a: Single, b: Single) -> Single;

    /// `a - b`.
    fn minus(a: Single, b: Single) -> Single;

    /// `a * b`.
    fn times(a: Single, b: Single) -> Single;

    /// `a / b`.
    fn over(a: Single, b: Single) -> Single;

    /// `a` raised to `b`.
    fn power(a: Single, b: Single) -> Single;

    /// The square root.
    fn root(x: Single) -> Single;

    /// The exponential function.
    fn exponential(x: Single) -> Single;

    /// The cosine.
    fn cosine(x: Single) -> Single;

    /// The sine.
    fn sine(x: Single) -> Single;
}

/// What the operations of a unit may return.
impl Single {
    /// `U::widen(x)` may return `r`.
    pub open spec fn widens<U: FloatUnit>(x: Half, r: Single) -> bool {
        call_ensures(U::widen, (x,), r)
    }

    /// `U::narrow(x)` may return `r`.
    pub open spec fn narrows<U: FloatUnit>(x: Single, r: Half) -> bool {
        call_ensures(U::narrow, (x,), r)
    }

    /// `U::from_usize(n)` may return `r`.
    pub open spec fn converts<U: FloatUnit>(n: usize, r: Single) -> bool {
        call_ensures(U::from_usize, (n,), r)
    }

    /// `U::to_usize(x)` may return `n`.
    pub open spec fn cuts<U: FloatUnit>(x: Single, n: usize) -> bool {
        call_ensures(U::to_usize, (x,), n)
    }

    /// `U::plus(a, b)` may return `r`.
    pub open spec fn adds<U: FloatUnit>(a: Single, b: Single, r: Single) -> bool {
        call_ensures(U::plus, (a, b), r)
    }

    /// `U::minus(a, b)` may return `r`.
    pub open spec fn subtracts<U: FloatUnit>(a: Single, b: Single, r: Single) -> bool {
        call_ensures(U::minus, (a, b), r)
    }

    /// `U::times(a, b)` may return `r`.
    pub open spec fn multiplies<U: FloatUnit>(a: Single, b: Single, r: Single) -> bool {
        call_ensures(U::times, (a, b), r)
    }

    /// `U::over(a, b)` may return `r`.
    pub open spec fn divides<U: FloatUnit>(a: Single, b: Single, r: Single) -> bool {
        call_ensures(U::over, (a, b), r)
    }

    /// `U::power(a, b)` may return `r`.
    pub open spec fn raises<U: FloatUnit>(a: Single, b: Single, r: Single) -> bool {
        call_ensures(U::power, (a, b), r)
    }

    /// `U::root(x)` may return `r`.
    pub open spec fn roots<U: FloatUnit>(x: Single, r: Single) -> bool {
        call_ensures(U::root, (x,), r)
    }

    /// `U::exponential(x)` may return `r`.
    pub open spec fn exponentiates<U: FloatUnit>(x: Single, r: Single) -> bool {
        call_ensures(U::exponential, (x,), r)
    }

    /// `U::cosine(x)` may return `r`.
    pub open spec fn has_cosine<U: FloatUnit>(x: Single, r: Single) -> bool {
        call_ensures(U::cosine, (x,), r)
    }

    /// `U::sine(x)` may return `r`.
    pub open spec fn has_sine<U: FloatUnit>(x: Single, r: Single) -> bool {
        call_ensures(U::sine, (x,), r)
    }
}

/// What any binary floating-point arithmetic computes without rounding: differences of equal
/// values, `exp(0)`, sums with zero, products and quotients with one, and the way from a 16-bit
/// value and back.
pub open spec fn exact_identities<U: FloatUnit>() -> bool {
    &&& forall|x: Single, r: Single|
        x.finite() && #[trigger] Single::subtracts::<U>(x, x, r) ==> r == Single::zero()
    &&& forall|r: Single| #[trigger]
        Single::exponentiates::<U>(Single::zero(), r) ==> r == Single::one()
    &&& forall|x: Single, r: Single|
        !x.undefined() && #[trigger] Single::adds::<U>(Single::zero(), x, r) ==> r == (if x.rank()
            == 0 {
            Single::zero()
        } else {
            x
        })
    &&& forall|x: Single, r: Single|
        !x.undefined() && #[trigger] Single::multiplies::<U>(Single::one(), x, r) ==> r == x
    &&& forall|r: Single| #[trigger]
        Single::divides::<U>(Single::one(), Single::one(), r) ==> r == Single::one()
    &&& forall|h: Half, x: Single|
        !h.undefined() && #[trigger] Single::widens::<U>(h, x) ==> !x.undefined()
    &&& forall|h: Half, x: Single|
        #[trigger] Single::widens::<U>(h, x) ==> (x.rank() == 0 <==> h.is_zero())
    &&& forall|h: Half, x: Single, r: Half|
        !h.undefined() && #[trigger] Single::widens::<U>(h, x) && #[trigger] Single::narrows::<U>(
            x,
            r,
        ) ==> r == h
    &&& forall|r: Half| #[trigger] Single::narrows::<U>(Single::zero(), r) ==> r == Half::zero()
}

/// What any binary floating-point arithmetic computes without rounding at the angle zero: the
/// integer zero and products with it, the cosine and sine of zero, products with one, and sums and
/// differences with zero.
pub open spec fn exact_at_zero<U: FloatUnit>() -> bool {
    &&& forall|r: Single| #[trigger] Single::converts::<U>(0, r) ==> r.rank() == 0 && r.finite()
    &&& forall|a: Single, b: Single, r: Single| #[trigger]
        Single::multiplies::<U>(a, b, r) && a.finite() && b.finite() && (a.rank() == 0 || b.rank()
            == 0) ==> r.rank() == 0 && r.finite()
    &&& forall|x: Single, r: Single|
        !x.undefined() && #[trigger] Single::multiplies::<U>(x, Single::one(), r) ==> r == x
    &&& forall|x: Single, r: Single|
        x.rank() == 0 && x.finite() && #[trigger] Single::has_cosine::<U>(x, r) ==> r
            == Single::one()
    &&& forall|x: Single, r: Single|
        x.rank() == 0 && x.finite() && #[trigger] Single::has_sine::<U>(x, r) ==> r.rank() == 0
            && r.finite()
    &&& forall|x: Single, z: Single, r: Single|
        x.finite() && z.finite() && z.rank() == 0 && #[trigger] Single::subtracts::<U>(x, z, r)
            ==> r == x || (x.rank() == 0 && r.rank() == 0 && r.finite())
    &&& forall|x: Single, z: Single, r: Single|
        x.finite() && z.finite() && z.rank() == 0 && #[trigger] Single::adds::<U>(z, x, r) ==> r
            == x || (x.rank() == 0 && r.rank() == 0 && r.finite())
    &&& forall|h: Half, x: Single| h.finite() && #[trigger] Single::widens::<U>(h, x) ==> x.finite()
    &&& forall|h: Half, x: Single| #[trigger]
        Single::widens::<U>(h, x) ==> (x.rank() == 0 <==> h.is_zero())
    &&& forall|h: Half, x: Single, r: Half|
        h.finite() && #[trigger] Single::widens::<U>(h, x) && #[trigger] Single::narrows::<U>(x, r)
            ==> r == h
    &&& forall|x: Single, r: Half|
        x.rank() == 0 && #[trigger] Single::narrows::<U>(x, r) ==> r.is_zero()
}

/// An operation has one result per operands.
pub open spec fn one_result<U: FloatUnit>() -> bool {
    &&& forall|x: Half, r: Single, s: Single| #[trigger]
        Single::widens::<U>(x, r) && #[trigger] Single::widens::<U>(x, s) ==> r == s
    &&& forall|x: Single, r: Half, s: Half| #[trigger]
        Single::narrows::<U>(x, r) && #[trigger] Single::narrows::<U>(x, s) ==> r == s
    &&& forall|x: usize, r: Single, s: Single| #[trigger]
        Single::converts::<U>(x, r) && #[trigger] Single::converts::<U>(x, s) ==> r == s
    &&& forall|x: Single, r: usize, s: usize| #[trigger]
        Single::cuts::<U>(x, r) && #[trigger] Single::cuts::<U>(x, s) ==> r == s
    &&& forall|x: Single, r: Single, s: Single| #[trigger]
        Single::roots::<U>(x, r) && #[trigger] Single::roots::<U>(x, s) ==> r == s
    &&& forall|x: Single, r: Single, s: Single| #[trigger]
        Single::exponentiates::<U>(x, r) && #[trigger] Single::exponentiates::<U>(x, s) ==> r == s
    &&& forall|x: Single, r: Single, s: Single| #[trigger]
        Single::has_cosine::<U>(x, r) && #[trigger] Single::has_cosine::<U>(x, s) ==> r == s
    &&& forall|x: Single, r: Single, s: Single| #[trigger]
        Single::has_sine::<U>(x, r) && #[trigger] Single::has_sine::<U>(x, s) ==> r == s
    &&& forall|a: Single, b: Single, r: Single, s: Single| #[trigger]
        Single::adds::<U>(a, b, r) && #[trigger] Single::adds::<U>(a, b, s) ==> r == s
    &&& forall|a: Single, b: Single, r: Single, s: Single| #[trigger]
        Single::subtracts::<U>(a, b, r) && #[trigger] Single::subtracts::<U>(a, b, s) ==> r == s
    &&& forall|a: Single, b: Single, r: Single, s: Single| #[trigger]
        Single::multiplies::<U>(a, b, r) && #[trigger] Single::multiplies::<U>(a, b, s) ==> r == s
    &&& forall|a: Single, b: Single, r: Single, s: Single| #[trigger]
        Single::divides::<U>(a, b, r) && #[trigger] Single::divides::<U>(a, b, s) ==> r == s
    &&& forall|a: Single, b: Single, r: Single, s: Single| #[trigger]
        Single::raises::<U>(a, b, r) && #[trigger] Single::raises::<U>(a, b, s) ==> r == s
}

impl Single {
    /// The exponent field.
    pub open spec fn exponent(self) -> int {
        self.magnitude() / 0x80_0000
    }

    /// A value so far from the ends of the number range that rounding does not tell it from its
    /// double.
    pub open spec fn mid_range(self) -> bool {
        2 <= self.exponent() < 254
    }

    /// A zero, or of a size that a 16-bit float can have.
    pub open spec fn half_range(self) -> bool {
        self.rank() == 0 || 103 <= self.exponent() <= 142
    }

    /// Whether the sign bit is set.
    pub open spec fn negative(self) -> bool {
        self.bits >= 0x8000_0000
    }

    /// `self` is exactly twice `other`, both finite: below the smallest exponent the bits double,
    /// above it the exponents differ by one.
    pub open spec fn is_twice(self, other: Single) -> bool {
        &&& self.negative() == other.negative()
        &&& if other.exponent() == 0 {
            self.magnitude() == 2 * other.magnitude()
        } else {
            other.exponent() < 254 && self.magnitude() == other.magnitude() + 0x80_0000
        }
    }
}

/// What any binary floating-point arithmetic computes of doubled operands: an integer doubles, a
/// quotient does not change where both operands double, and doubles where the dividend does and it
/// is in mid range, and a difference of values of one sign doubles where both operands do.
pub open spec fn doubling_is_exact<U: FloatUnit>() -> bool {
    &&& forall|n: usize, m: usize, a: Single, b: Single|
        m == 2 * n && #[trigger] Single::converts::<U>(n, a) && #[trigger] Single::converts::<U>(
            m,
            b,
        ) ==> b.is_twice(a)
    &&& forall|a: Single, b: Single, c: Single, d: Single, r: Single, s: Single|
        c.is_twice(a) && d.is_twice(b) && #[trigger] Single::divides::<U>(a, b, r)
            && #[trigger] Single::divides::<U>(c, d, s) ==> s == r
    &&& forall|a: Single, b: Single, c: Single, r: Single, s: Single|
        c.is_twice(a) && r.mid_range() && #[trigger] Single::divides::<U>(a, b, r)
            && #[trigger] Single::divides::<U>(c, b, s) ==> s.is_twice(r)
    &&& forall|a: Single, b: Single, c: Single, d: Single, r: Single, s: Single|
        c.is_twice(a) && d.is_twice(b) && a.negative() == b.negative()
            && #[trigger] Single::subtracts::<U>(a, b, r) && #[trigger] Single::subtracts::<U>(
            c,
            d,
            s,
        ) ==> s.is_twice(r)
}

/// What any binary floating-point arithmetic computes without rounding of a head of one component,
/// and of one of four that holds the same component doubled and three zeros: the square roots of
/// the two head sizes, sums and products with zero, and products of doubled 16-bit values.
pub open spec fn padding_is_exact<U: FloatUnit>() -> bool {
    let two = Single { bits: 0x4000_0000 };
    let four = Single { bits: 0x4080_0000 };
    let one_half = Single { bits: 0x3f00_0000 };
    &&& forall|r: Single| #[trigger] Single::converts::<U>(1, r) ==> r == Single::one()
    &&& forall|r: Single| #[trigger] Single::converts::<U>(4, r) ==> r == four
    &&& forall|r: Single| #[trigger] Single::roots::<U>(Single::one(), r) ==> r == Single::one()
    &&& forall|r: Single| #[trigger] Single::roots::<U>(four, r) ==> r == two
    &&& forall|r: Single| #[trigger] Single::divides::<U>(Single::one(), two, r) ==> r == one_half
    &&& forall|x: Single| #[trigger] Single::widens::<U>(Half::zero(), x) ==> x == Single::zero()
    &&& forall|h: Half, x: Single|
        h.finite() && #[trigger] Single::widens::<U>(h, x) ==> x.half_range()
    &&& forall|g: Half, h: Half, x: Single, y: Single|
        g.is_twice(h) && #[trigger] Single::widens::<U>(h, x) && #[trigger] Single::widens::<U>(
            g,
            y,
        ) ==> y.is_twice(x)
    &&& forall|a: Single, b: Single, c: Single, r: Single, s: Single|
        c.is_twice(a) && a.half_range() && b.half_range() && #[trigger] Single::multiplies::<U>(
            a,
            b,
            r,
        ) && #[trigger] Single::multiplies::<U>(c, b, s) ==> s.is_twice(r)
    &&& forall|x: Single, y: Single, r: Single|
        y.is_twice(x) && #[trigger] Single::multiplies::<U>(y, one_half, r) && #[trigger] x.finite()
            ==> r == x
    &&& forall|r: Single| #[trigger]
        Single::multiplies::<U>(Single::zero(), Single::zero(), r) ==> r == Single::zero()
    &&& forall|x: Single, r: Single|
        !x.undefined() && #[trigger] Single::adds::<U>(x, Single::zero(), r) ==> r == (if x.rank()
            == 0 {
            Single::zero()
        } else {
            x
        })
}

/// What any binary floating-point arithmetic computes of a finite value and a zero: their sum is the
/// value, in either order, and a product with a finite value is a zero. Signs of zeros are left
/// open.
pub open spec fn zeros_add_nothing<U: FloatUnit>() -> bool {
    &&& forall|x: Single, z: Single, r: Single|
        x.finite() && z.rank() == 0 && #[trigger] Single::adds::<U>(x, z, r) ==> r.finite()
            && r.same_value(x)
    &&& forall|z: Single, x: Single, r: Single|
        z.rank() == 0 && x.finite() && #[trigger] Single::adds::<U>(z, x, r) ==> r.finite()
            && r.same_value(x)
    &&& forall|x: Single, z: Single, r: Single|
        x.finite() && z.rank() == 0 && #[trigger] Single::multiplies::<U>(x, z, r) ==> r.rank() == 0
    &&& forall|h: Half, z: Single| h.is_zero() && #[trigger] Single::widens::<U>(h, z) ==> z.rank() == 0
}

/// What powers are without rounding: anything to the zero is one, one to anything is one, and the power
/// of a positive number to one half is its square root. With them the quotients that lead there: zero by a number, a
/// number by its double, and one by one.
pub open spec fn powers_are_plain<U: FloatUnit>() -> bool {
    let one_half = Single { bits: 0x3f00_0000 };
    &&& forall|x: Single, r: Single| #[trigger]
        Single::raises::<U>(x, Single::zero(), r) ==> r == Single::one()
    &&& forall|e: Single, r: Single| #[trigger]
        Single::raises::<U>(Single::one(), e, r) ==> r == Single::one()
    &&& forall|x: Single, r: Single|
        Single::zero().less(x) && #[trigger] Single::raises::<U>(x, one_half, r)
            ==> Single::roots::<U>(x, r)
    &&& forall|r: Single| #[trigger] Single::converts::<U>(0, r) ==> r == Single::zero()
    &&& forall|n: usize, d: Single, r: Single|
        n > 0 && #[trigger] Single::converts::<U>(n, d) && #[trigger] Single::divides::<U>(
            Single::zero(),
            d,
            r,
        ) ==> r == Single::zero()
    &&& forall|n: usize, m: usize, a: Single, b: Single, r: Single|
        #![trigger Single::converts::<U>(n, a), Single::converts::<U>(m, b), Single::divides::<U>(a, b, r)]
        n > 0 && m == 2 * n && Single::converts::<U>(n, a) && Single::converts::<U>(m, b)
            && Single::divides::<U>(a, b, r) ==> r == one_half
    &&& forall|r: Single| #[trigger]
        Single::divides::<U>(Single::one(), Single::one(), r) ==> r == Single::one()
}

/// What the ends of a blend come to without rounding: differences of equal values and with zero,
/// products with zero and one, zero divided by a number, a number divided by itself, and sums with
/// zero. Values are finite; signs of zeros are left open.
pub open spec fn blends_are_plain<U: FloatUnit>() -> bool {
    &&& forall|x: Single, r: Single|
        x.finite() && #[trigger] Single::subtracts::<U>(x, x, r) ==> r == Single::zero()
    &&& forall|x: Single, r: Single|
        x.finite() && #[trigger] Single::subtracts::<U>(x, Single::zero(), r) ==> r == x
    &&& forall|d: Single, r: Single|
        d.finite() && d.rank() != 0 && #[trigger] Single::divides::<U>(Single::zero(), d, r)
            ==> r.rank() == 0
    &&& forall|z: Single, d: Single, r: Single|
        z.rank() == 0 && d.finite() && d.rank() != 0 && #[trigger] Single::divides::<U>(z, d, r)
            ==> r.rank() == 0
    &&& forall|x: Single, r: Single|
        x.finite() && x.rank() != 0 && #[trigger] Single::divides::<U>(x, x, r) ==> r
            == Single::one()
    &&& forall|z: Single, r: Single|
        z.rank() == 0 && #[trigger] Single::subtracts::<U>(Single::one(), z, r) ==> r
            == Single::one()
    &&& forall|x: Single, r: Single|
        x.finite() && #[trigger] Single::multiplies::<U>(Single::one(), x, r) ==> r == x
    &&& forall|z: Single, x: Single, r: Single|
        z.rank() == 0 && x.finite() && #[trigger] Single::multiplies::<U>(z, x, r) ==> r.rank() == 0
    &&& forall|x: Single, z: Single, r: Single|
        x.finite() && z.rank() == 0 && #[trigger] Single::adds::<U>(x, z, r) ==> r.same_value(x)
    &&& forall|z: Single, x: Single, r: Single|
        z.rank() == 0 && x.finite() && #[trigger] Single::adds::<U>(z, x, r) ==> r.same_value(x)
}

/// The order is that of the numbers: positive values order as their bits do, negative ones the other
/// way round, a negative value lies below a positive one, the two zeros are equal, and what is not
/// a number is below nothing and above nothing.
pub proof fn law_order_is_numeric(a: Single, b: Single)
    ensures
        a.undefined() || b.undefined() ==> !a.less(b) && !a.at_most(b),
        !a.undefined() && !b.undefined() ==> {
            &&& a.at_most(b) == !b.less(a)
            &&& a.bits < 0x8000_0000 && b.bits < 0x8000_0000 ==> a.less(b) == (a.bits < b.bits)
            &&& a.bits >= 0x8000_0000 && b.bits >= 0x8000_0000 ==> a.less(b) == (a.bits > b.bits)
            &&& a.bits >= 0x8000_0000 && b.bits < 0x8000_0000 ==> a.less(b) == !(a.bits == 0x8000_0000
                && b.bits == 0)
            &&& a.bits < 0x8000_0000 && b.bits >= 0x8000_0000 ==> !a.less(b)
        },
        a.undefined() == (a.bits as int % 0x8000_0000 > 0x7f80_0000),
{
}

/// The greater of two values is one of them, and at least each that is a number.
pub proof fn law_max_is_an_upper_bound(a: Single, b: Single)
    ensures
        a.max(b) == a || a.max(b) == b,
        !a.undefined() ==> a.at_most(a.max(b)),
        !b.undefined() ==> b.at_most(a.max(b)),
        a.undefined() ==> a.max(b) == b,
{
}

} // verus!
