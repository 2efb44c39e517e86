//! Floats read as real numbers, for runs in which no operation rounds.
//!
//! Under such a reading the laws of the library say what its functions compute, as equations
//! between their arguments and their results.
use crate::float::{FloatUnit, Half, Single};
use vstd::prelude::*;

verus! {

/// A reading of floats as real numbers, and the functions that exponential, cosine and sine are
/// taken for.
pub struct Reading {
    pub single: spec_fn(Single) -> real,
    pub half: spec_fn(Half) -> real,
    pub exp: spec_fn(real) -> real,
    pub cos: spec_fn(real) -> real,
    pub sin: spec_fn(real) -> real,
}

/// A natural number as a real one.
pub open spec fn whole(n: nat) -> real {
    n as real
}

/// The sum of `f(0)`, `f(1)`, up to `f(n - 1)`.
pub open spec fn total(f: spec_fn(int) -> real, n: nat) -> real
    decreases n,
{
    if n == 0 {
        0real
    } else {
        total(f, (n - 1) as nat) + f(n - 1)
    }
}

/// `x` multiplied by itself `n` times.
pub open spec fn power(x: real, n: nat) -> real
    decreases n,
{
    if n == 0 {
        1real
    } else {
        power(x, (n - 1) as nat) * x
    }
}

impl Reading {
    /// The number that a 32-bit float is read as.
    pub open spec fn of(self, x: Single) -> real {
        (self.single)(x)
    }

    /// The number that a 16-bit float is read as.
    pub open spec fn of_half(self, x: Half) -> real {
        (self.half)(x)
    }

    /// The exponential function is positive and turns sums into products.
    pub open spec fn exponential(self) -> bool {
        &&& forall|a: real| #[trigger] (self.exp)(a) > 0real
        &&& forall|a: real, b: real| #[trigger]
            (self.exp)(a + b) == (self.exp)(a) * (self.exp)(b)
    }

    /// Zero and one are read as such, and finite values in their order.
    pub open spec fn reads_in_order(self) -> bool {
        &&& self.of(Single::zero()) == 0real
        &&& self.of(Single::one()) == 1real
        &&& forall|a: Single, b: Single|
            a.finite() && b.finite() ==> (#[trigger] a.less(b) <==> self.of(a) < self.of(b))
    }

    /// The sums, differences, products and quotients that a unit returns are exact.
    pub open spec fn field_is_exact<U: FloatUnit>(self) -> bool {
        &&& forall|a: Single, b: Single, r: Single| #[trigger]
            call_ensures(U::plus, (a, b), r) ==> r.finite() && self.of(r) == self.of(a) + self.of(b)
        &&& forall|a: Single, b: Single, r: Single| #[trigger]
            call_ensures(U::minus, (a, b), r) ==> r.finite() && self.of(r) == self.of(a) - self.of(b)
        &&& forall|a: Single, b: Single, r: Single| #[trigger]
            call_ensures(U::times, (a, b), r) ==> r.finite() && self.of(r) == self.of(a) * self.of(b)
        &&& forall|a: Single, b: Single, r: Single| #[trigger]
            call_ensures(U::over, (a, b), r) ==> r.finite() && self.of(b) != 0real && self.of(r)
                * self.of(b) == self.of(a)
    }

    /// The conversions that a unit returns are exact. Cutting rounds a positive number down.
    pub open spec fn conversions_are_exact<U: FloatUnit>(self) -> bool {
        &&& forall|h: Half, x: Single| #[trigger]
            call_ensures(U::widen, (h,), x) ==> x.finite() && self.of(x) == self.of_half(h)
        &&& forall|x: Single, h: Half| #[trigger]
            call_ensures(U::narrow, (x,), h) ==> self.of_half(h) == self.of(x)
        &&& forall|n: usize, x: Single| #[trigger]
            call_ensures(U::from_usize, (n,), x) ==> x.finite() && self.of(x) == whole(n as nat)
        &&& forall|x: Single, n: usize| #[trigger]
            call_ensures(U::to_usize, (x,), n) && self.of(x) >= 0real ==> whole(n as nat) <= self.of(x)
                && self.of(x) < whole(n as nat + 1)
    }

    /// The roots, powers, exponentials, cosines and sines that a unit returns are exact. A power
    /// is told by its whole multiples: where `e * m` is the whole number `n`, the `m`-th power of
    /// `t` to the `e` is the `n`-th power of `t`.
    pub open spec fn functions_are_exact<U: FloatUnit>(self) -> bool {
        &&& forall|x: Single, r: Single| #[trigger]
            call_ensures(U::root, (x,), r) ==> r.finite() && self.of(r) >= 0real && self.of(r) * self.of(
                r,
            ) == self.of(x)
        &&& forall|t: Single, e: Single, p: Single| #[trigger]
            call_ensures(U::power, (t, e), p) ==> p.finite() && (self.of(t) > 0real ==> self.of(p)
                > 0real)
        &&& forall|t: Single, e: Single, p: Single, m: nat, n: nat|
            #![trigger call_ensures(U::power, (t, e), p), power(self.of(p), m), power(self.of(t), n)]
            call_ensures(U::power, (t, e), p) && self.of(e) * whole(m) == whole(n) ==> power(
                self.of(p),
                m,
            ) == power(self.of(t), n)
        &&& forall|x: Single, r: Single| #[trigger]
            call_ensures(U::exponential, (x,), r) ==> r.finite() && self.of(r) == (self.exp)(self.of(x))
        &&& forall|x: Single, r: Single| #[trigger]
            call_ensures(U::cosine, (x,), r) ==> self.of(r) == (self.cos)(self.of(x))
        &&& forall|x: Single, r: Single| #[trigger]
            call_ensures(U::sine, (x,), r) ==> self.of(r) == (self.sin)(self.of(x))
    }

    /// No operation of the unit rounds: whatever one returns is exact under this reading.
    pub open spec fn never_rounds<U: FloatUnit>(self) -> bool {
        &&& self.reads_in_order()
        &&& self.field_is_exact::<U>()
        &&& self.conversions_are_exact::<U>()
        &&& self.functions_are_exact::<U>()
    }
}

/// Sums of equal terms are equal.
pub proof fn lemma_total_agrees(f: spec_fn(int) -> real, g: spec_fn(int) -> real, n: nat)
    requires
        forall|i: int| 0 <= i < n ==> #[trigger] f(i) == g(i),
    ensures
        total(f, n) == total(g, n),
    decreases n,
{
    if n > 0 {
        lemma_total_agrees(f, g, (n - 1) as nat);
        assert(f(n - 1) == g(n - 1));
    }
}

/// A common factor comes out of a sum.
pub proof fn lemma_total_scales(
    f: spec_fn(int) -> real,
    g: spec_fn(int) -> real,
    c: real,
    n: nat,
)
    requires
        forall|i: int| 0 <= i < n ==> #[trigger] f(i) == c * g(i),
    ensures
        total(f, n) == c * total(g, n),
    decreases n,
{
    if n > 0 {
        lemma_total_scales(f, g, c, (n - 1) as nat);
        assert(f(n - 1) == c * g(n - 1));
        let t = total(g, (n - 1) as nat);
        let x = g(n - 1);
        assert(c * (t + x) == c * t + c * x) by (nonlinear_arith);
    } else {
        assert(c * 0real == 0real) by (nonlinear_arith);
    }
}

/// A sum of positive terms is positive.
pub proof fn lemma_total_positive(f: spec_fn(int) -> real, n: nat)
    requires
        n > 0,
        forall|i: int| 0 <= i < n ==> #[trigger] f(i) > 0real,
    ensures
        total(f, n) > 0real,
    decreases n,
{
    assert(f(n - 1) > 0real);
    if n > 1 {
        lemma_total_positive(f, (n - 1) as nat);
    } else {
        assert(total(f, 0) == 0real);
    }
}

/// A sum with a single term that is not zero is that term.
pub proof fn lemma_total_of_one_term(f: spec_fn(int) -> real, j: int, n: nat)
    requires
        0 <= j,
        forall|i: int| 0 <= i < n && i != j ==> #[trigger] f(i) == 0real,
    ensures
        total(f, n) == (if j < n {
            f(j)
        } else {
            0real
        }),
    decreases n,
{
    if n > 0 {
        lemma_total_of_one_term(f, j, (n - 1) as nat);
        if j != n - 1 {
            assert(f(n - 1) == 0real);
        }
    }
}

/// Powers of numbers that multiply to one multiply to one.
pub proof fn lemma_inverse_powers(x: real, y: real, n: nat)
    requires
        x * y == 1real,
    ensures
        power(x, n) * power(y, n) == 1real,
    decreases n,
{
    if n > 0 {
        lemma_inverse_powers(x, y, (n - 1) as nat);
        let a = power(x, (n - 1) as nat);
        let b = power(y, (n - 1) as nat);
        assert((a * x) * (b * y) == 1real) by (nonlinear_arith)
            requires
                a * b == 1real,
                x * y == 1real,
        ;
    } else {
        assert(1real * 1real == 1real) by (nonlinear_arith);
    }
}

/// An inequality keeps when both sides are multiplied by a positive number.
pub proof fn lemma_less_scales(a: real, b: real, c: real)
    requires
        c > 0real,
    ensures
        (a < b) == (a * c < b * c),
{
    let d = b - a;
    assert(d * c == b * c - a * c) by (nonlinear_arith)
        requires
            d == b - a,
    ;
    if d > 0real {
        assert(d * c > 0real) by (nonlinear_arith)
            requires
                d > 0real,
                c > 0real,
        ;
    } else {
        assert(d * c <= 0real) by (nonlinear_arith)
            requires
                d <= 0real,
                c > 0real,
        ;
    }
}

/// A factor that is not zero cancels.
pub proof fn lemma_cancels(a: real, b: real, c: real)
    requires
        c != 0real,
        a * c == b * c,
    ensures
        a == b,
{
    let d = a - b;
    assert(d * c == a * c - b * c) by (nonlinear_arith)
        requires
            d == a - b,
    ;
    if d != 0real {
        assert(d * c != 0real) by (nonlinear_arith)
            requires
                d != 0real,
                c != 0real,
        ;
    }
}

/// Factors may be taken in any order.
pub proof fn lemma_reorders(a: real, b: real, c: real)
    ensures
        a * (b * c) == (a * b) * c,
        a * (b * c) == (a * c) * b,
        (a * b) * c == (a * c) * b,
        a * b == b * a,
{
    assert(a * (b * c) == (a * b) * c) by (nonlinear_arith);
    assert(a * (b * c) == (a * c) * b) by (nonlinear_arith);
    assert(a * b == b * a) by (nonlinear_arith);
}

/// A factor multiplies each part of a sum or difference.
pub proof fn lemma_distributes(a: real, b: real, c: real)
    ensures
        (a + b) * c == a * c + b * c,
        (a - b) * c == a * c - b * c,
        c * (a + b) == c * a + c * b,
        c * (a - b) == c * a - c * b,
{
    assert((a + b) * c == a * c + b * c) by (nonlinear_arith);
    assert((a - b) * c == a * c - b * c) by (nonlinear_arith);
    assert(c * (a + b) == c * a + c * b) by (nonlinear_arith);
    assert(c * (a - b) == c * a - c * b) by (nonlinear_arith);
}

/// The factors of two products may be paired anew.
pub proof fn lemma_pairs_anew(a: real, b: real, c: real, d: real)
    ensures
        (a * b) * (c * d) == (a * c) * (b * d),
{
    lemma_reorders(a * b, c, d);
    lemma_reorders(a, b, c);
    lemma_reorders(a * c, b, d);
}

} // verus!
