//! The five-dimensional resource vector carried by every ingredient.

use vstd::prelude::*;

verus! {

use vstd::arithmetic::div_mod::lemma_fundamental_div_mod;

/// A non-negative resource vector with one component per resource kind,
/// conventionally labelled `a` through `e`.
#[derive(Clone, Copy, Debug, PartialEq, Eq, Structural)]
pub struct Magimins {
    pub a: usize,
    pub b: usize,
    pub c: usize,
    pub d: usize,
    pub e: usize,
}

impl Magimins {
    /// Mathematical sum of the five components.
    pub open spec fn spec_total(&self) -> int {
        self.a + self.b + self.c + self.d + self.e
    }

    /// The sum of the components fits in a machine word, so that
    /// `total` can be computed without overflow.
    pub open spec fn total_fits(&self) -> bool {
        self.spec_total() <= usize::MAX as int
    }

    pub fn new(a: usize, b: usize, c: usize, d: usize, e: usize) -> (r: Magimins)
        ensures
            r == (Magimins { a, b, c, d, e }),
    {
        Magimins { a, b, c, d, e }
    }

    pub fn total(&self) -> (r: usize)
        requires
            self.total_fits(),
        ensures
            r as int == self.spec_total(),
    {
        self.a + self.b + self.c + self.d + self.e
    }

    pub fn as_array(&self) -> (r: [usize; 5])
        ensures
            r[0] == self.a,
            r[1] == self.b,
            r[2] == self.c,
            r[3] == self.d,
            r[4] == self.e,
    {
        [self.a, self.b, self.c, self.d, self.e]
    }

    pub fn from_array(magimins: [usize; 5]) -> (r: Magimins)
        ensures
            r == (Magimins {
                a: magimins[0],
                b: magimins[1],
                c: magimins[2],
                d: magimins[3],
                e: magimins[4],
            }),
    {
        Magimins::new(magimins[0], magimins[1], magimins[2], magimins[3], magimins[4])
    }

    /// Componentwise sum of two vectors.
    pub open spec fn spec_plus(self, rhs: Magimins) -> Magimins {
        Magimins {
            a: (self.a + rhs.a) as usize,
            b: (self.b + rhs.b) as usize,
            c: (self.c + rhs.c) as usize,
            d: (self.d + rhs.d) as usize,
            e: (self.e + rhs.e) as usize,
        }
    }

    pub fn plus(&self, rhs: &Magimins) -> (r: Magimins)
        requires
            self.spec_total() + rhs.spec_total() <= usize::MAX as int,
        ensures
            r == self.spec_plus(*rhs),
            r.spec_total() == self.spec_total() + rhs.spec_total(),
    {
        Magimins::new(
            self.a + rhs.a,
            self.b + rhs.b,
            self.c + rhs.c,
            self.d + rhs.d,
            self.e + rhs.e,
        )
    }

    /// Projects the amount `k` onto the proportions of this vector:
    /// each component of the result is `k * self[i] / total(self)`,
    /// rounded down.  A vector with no resources yields the zero vector.
    pub fn scale_div(k: usize, rhs: &Magimins) -> (r: Magimins)
        requires
            rhs.total_fits(),
            k as int * rhs.spec_total() <= usize::MAX as int,
        ensures
            rhs.spec_total() == 0 ==> r == (Magimins { a: 0usize, b: 0usize, c: 0usize, d: 0usize, e: 0usize }),
            rhs.spec_total() > 0 ==> {
                &&& r.a as int == (k as int * rhs.a as int) / rhs.spec_total()
                &&& r.b as int == (k as int * rhs.b as int) / rhs.spec_total()
                &&& r.c as int == (k as int * rhs.c as int) / rhs.spec_total()
                &&& r.d as int == (k as int * rhs.d as int) / rhs.spec_total()
                &&& r.e as int == (k as int * rhs.e as int) / rhs.spec_total()
            },
            r.spec_total() <= k as int,
            k == 0 ==> r.spec_total() == 0,
    {
        let total = rhs.total();
        if total == 0 {
            return Magimins::new(0, 0, 0, 0, 0);
        }
        proof {
            let t = rhs.spec_total();
            let ki = k as int;
            assert(ki * rhs.a as int <= ki * t && ki * rhs.b as int <= ki * t
                && ki * rhs.c as int <= ki * t && ki * rhs.d as int <= ki * t
                && ki * rhs.e as int <= ki * t) by (nonlinear_arith)
                requires
                    rhs.a as int <= t,
                    rhs.b as int <= t,
                    rhs.c as int <= t,
                    rhs.d as int <= t,
                    rhs.e as int <= t,
                    ki >= 0,
            ;
        }
        let r = Magimins::new(
            k * rhs.a / total,
            k * rhs.b / total,
            k * rhs.c / total,
            k * rhs.d / total,
            k * rhs.e / total,
        );
        proof {
            lemma_scale_div_total_le(k as int, rhs.a as int, rhs.b as int, rhs.c as int,
                rhs.d as int, rhs.e as int);
        }
        r
    }
}

/// The scaled projection never exceeds the amount being projected:
/// the five rounded-down shares `k*x/(x+..+w)` sum to at most `k`.
pub proof fn lemma_scale_div_total_le(k: int, a: int, b: int, c: int, d: int, e: int)
    requires
        k >= 0,
        a >= 0,
        b >= 0,
        c >= 0,
        d >= 0,
        e >= 0,
        a + b + c + d + e > 0,
    ensures
        (k * a) / (a + b + c + d + e)
            + (k * b) / (a + b + c + d + e)
            + (k * c) / (a + b + c + d + e)
            + (k * d) / (a + b + c + d + e)
            + (k * e) / (a + b + c + d + e) <= k,
{
    let t = a + b + c + d + e;
    lemma_fundamental_div_mod(k * a, t);
    lemma_fundamental_div_mod(k * b, t);
    lemma_fundamental_div_mod(k * c, t);
    lemma_fundamental_div_mod(k * d, t);
    lemma_fundamental_div_mod(k * e, t);
    let s = (k * a) / t + (k * b) / t + (k * c) / t + (k * d) / t + (k * e) / t;
    assert(k * a + k * b + k * c + k * d + k * e == k * t) by (nonlinear_arith)
        requires
            t == a + b + c + d + e,
    ;
    assert(t * s <= k * t) by (nonlinear_arith)
        requires
            k * a == t * ((k * a) / t) + (k * a) % t,
            k * b == t * ((k * b) / t) + (k * b) % t,
            k * c == t * ((k * c) / t) + (k * c) % t,
            k * d == t * ((k * d) / t) + (k * d) % t,
            k * e == t * ((k * e) / t) + (k * e) % t,
            (k * a) % t >= 0,
            (k * b) % t >= 0,
            (k * c) % t >= 0,
            (k * d) % t >= 0,
            (k * e) % t >= 0,
            k * a + k * b + k * c + k * d + k * e == k * t,
            s == (k * a) / t + (k * b) / t + (k * c) / t + (k * d) / t + (k * e) / t,
    ;
    assert(s <= k) by (nonlinear_arith)
        requires
            t * s <= k * t,
            t > 0,
    ;
}

} // verus!
