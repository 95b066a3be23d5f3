//! Target profiles and running candidate totals, and the exact-ratio test.

use vstd::prelude::*;
use crate::magimins::Magimins;
use crate::ingredient::Ingredient;

verus! {

use vstd::arithmetic::div_mod::{
    lemma_fundamental_div_mod,
    lemma_div_multiples_vanish,
    lemma_mod_multiples_basic,
};

/// Clamp a sensory total to its sign.
pub open spec fn spec_clamp_sense(s: int) -> int {
    if s < 0 {
        -1
    } else if s > 0 {
        1
    } else {
        0
    }
}

/// Some resource is present in `s` where `t` has none: no scaling of
/// `t` can ever reach `s`.
pub open spec fn blocked_by_zero(s: Magimins, t: Magimins) -> bool {
    ||| (s.a > 0 && t.a == 0)
    ||| (s.b > 0 && t.b == 0)
    ||| (s.c > 0 && t.c == 0)
    ||| (s.d > 0 && t.d == 0)
    ||| (s.e > 0 && t.e == 0)
}

/// `s` is exactly `q` copies of `t`, componentwise.
pub open spec fn is_multiple(s: Magimins, t: Magimins, q: int) -> bool {
    &&& s.a == q * t.a
    &&& s.b == q * t.b
    &&& s.c == q * t.c
    &&& s.d == q * t.d
    &&& s.e == q * t.e
}

/// The tri-state ratio test on bare vectors: `None` when some resource
/// of `s` has no counterpart in `t`; `Some(q)` with `q >= 1` when `s`
/// is exactly `q` copies of `t`; `Some(0)` otherwise (a proportional
/// mismatch, or an all-zero `s`).
pub fn magimin_ratio(s: &Magimins, t: &Magimins) -> (r: Option<usize>)
    ensures
        r is None <==> blocked_by_zero(*s, *t),
        (match r {
            Some(q) => q > 0 ==> is_multiple(*s, *t, q as int) && s.spec_total() > 0,
            None => true,
        }),
        r == Some(0usize) ==> s.spec_total() == 0 || !(exists|m: int|
            m >= 1 && is_multiple(*s, *t, m)),
        forall|m: int|
            m >= 1 && is_multiple(*s, *t, m) && s.spec_total() > 0 ==> r == Some(m as usize),
{
    if (s.a > 0 && t.a == 0) || (s.b > 0 && t.b == 0) || (s.c > 0 && t.c == 0)
        || (s.d > 0 && t.d == 0) || (s.e > 0 && t.e == 0) {
        proof {
            assert forall|m: int| !(m >= 1 && is_multiple(*s, *t, m)) by {
                if m >= 1 && is_multiple(*s, *t, m) {
                    assert(false) by (nonlinear_arith)
                        requires
                            m >= 1,
                            is_multiple(*s, *t, m),
                            blocked_by_zero(*s, *t),
                    ;
                }
            }
        }
        return None;
    }
    let q: usize = if t.a > 0 {
        s.a / t.a
    } else if t.b > 0 {
        s.b / t.b
    } else if t.c > 0 {
        s.c / t.c
    } else if t.d > 0 {
        s.d / t.d
    } else if t.e > 0 {
        s.e / t.e
    } else {
        0
    };
    let ok = (if t.a > 0 { s.a % t.a == 0 && s.a / t.a == q } else { s.a == 0 })
        && (if t.b > 0 { s.b % t.b == 0 && s.b / t.b == q } else { s.b == 0 })
        && (if t.c > 0 { s.c % t.c == 0 && s.c / t.c == q } else { s.c == 0 })
        && (if t.d > 0 { s.d % t.d == 0 && s.d / t.d == q } else { s.d == 0 })
        && (if t.e > 0 { s.e % t.e == 0 && s.e / t.e == q } else { s.e == 0 });
    if q >= 1 && ok {
        proof {
            lemma_ratio_pieces(*s, *t, q as int);
            assert forall|m: int|
                m >= 1 && is_multiple(*s, *t, m) && s.spec_total() > 0 implies q as int == m by {
                lemma_multiple_forces_quotients(*s, *t, m);
                if t.a == 0 && t.b == 0 && t.c == 0 && t.d == 0 && t.e == 0 {
                    assert(s.spec_total() == 0);
                }
            }
        }
        Some(q)
    } else {
        proof {
            if s.spec_total() > 0 && exists|m: int| m >= 1 && is_multiple(*s, *t, m) {
                let m = choose|m: int| m >= 1 && is_multiple(*s, *t, m);
                lemma_multiple_forces_quotients(*s, *t, m);
                assert(false);
            }
        }
        Some(0)
    }
}

/// If every component with a non-zero target divides out to `q` with no
/// remainder, and the rest are zero, then `s` is `q` copies of `t`.
proof fn lemma_ratio_pieces(s: Magimins, t: Magimins, q: int)
    requires
        q >= 0,
        t.a > 0 ==> s.a as int % (t.a as int) == 0 && s.a as int / (t.a as int) == q,
        t.a == 0 ==> s.a == 0,
        t.b > 0 ==> s.b as int % (t.b as int) == 0 && s.b as int / (t.b as int) == q,
        t.b == 0 ==> s.b == 0,
        t.c > 0 ==> s.c as int % (t.c as int) == 0 && s.c as int / (t.c as int) == q,
        t.c == 0 ==> s.c == 0,
        t.d > 0 ==> s.d as int % (t.d as int) == 0 && s.d as int / (t.d as int) == q,
        t.d == 0 ==> s.d == 0,
        t.e > 0 ==> s.e as int % (t.e as int) == 0 && s.e as int / (t.e as int) == q,
        t.e == 0 ==> s.e == 0,
    ensures
        is_multiple(s, t, q),
{
    lemma_exact_component(s.a as int, t.a as int, q);
    lemma_exact_component(s.b as int, t.b as int, q);
    lemma_exact_component(s.c as int, t.c as int, q);
    lemma_exact_component(s.d as int, t.d as int, q);
    lemma_exact_component(s.e as int, t.e as int, q);
}

proof fn lemma_exact_component(x: int, d: int, q: int)
    requires
        x >= 0,
        d >= 0,
        d > 0 ==> x % d == 0 && x / d == q,
        d == 0 ==> x == 0,
    ensures
        x == q * d,
{
    if d > 0 {
        lemma_fundamental_div_mod(x, d);
        assert(x == d * (x / d) + x % d);
        assert(x == d * q);
        assert(d * q == q * d) by (nonlinear_arith);
    } else {
        assert(q * 0 == 0) by (nonlinear_arith);
    }
}

/// If `s == m * t` then every component with a non-zero target divides
/// out to exactly `m` with no remainder.
proof fn lemma_multiple_forces_quotients(s: Magimins, t: Magimins, m: int)
    requires
        m >= 1,
        is_multiple(s, t, m),
    ensures
        t.a > 0 ==> s.a as int % (t.a as int) == 0 && s.a as int / (t.a as int) == m,
        t.a == 0 ==> s.a == 0,
        t.b > 0 ==> s.b as int % (t.b as int) == 0 && s.b as int / (t.b as int) == m,
        t.b == 0 ==> s.b == 0,
        t.c > 0 ==> s.c as int % (t.c as int) == 0 && s.c as int / (t.c as int) == m,
        t.c == 0 ==> s.c == 0,
        t.d > 0 ==> s.d as int % (t.d as int) == 0 && s.d as int / (t.d as int) == m,
        t.d == 0 ==> s.d == 0,
        t.e > 0 ==> s.e as int % (t.e as int) == 0 && s.e as int / (t.e as int) == m,
        t.e == 0 ==> s.e == 0,
{
    lemma_quotient_component(s.a as int, t.a as int, m);
    lemma_quotient_component(s.b as int, t.b as int, m);
    lemma_quotient_component(s.c as int, t.c as int, m);
    lemma_quotient_component(s.d as int, t.d as int, m);
    lemma_quotient_component(s.e as int, t.e as int, m);
}

proof fn lemma_quotient_component(x: int, d: int, m: int)
    requires
        m >= 1,
        d >= 0,
        x == m * d,
    ensures
        d > 0 ==> x % d == 0 && x / d == m,
        d == 0 ==> x == 0,
{
    if d > 0 {
        lemma_div_multiples_vanish(m, d);
        assert((d * m) / d == m);
        assert(d * m == m * d) by (nonlinear_arith);
        lemma_mod_multiples_basic(m, d);
        assert((m * d) % d == 0);
    } else {
        assert(m * 0 == 0) by (nonlinear_arith);
    }
}

/// A target profile, and, in the depth-first solver, a running
/// candidate total.  As a target: `magimins` is the ratio (or, in
/// approximate mode, the ratio scaled to `max`), the five sensory
/// fields are required-sign flags, `count` bounds the number of
/// ingredients, `min` and `max` bound the combined total, and `price`,
/// when non-zero, bounds the cost.  As a running total: `count`, `max`
/// and `price` accumulate the ingredient count, combined potency and
/// cost of the selection so far.
#[derive(Clone, Copy, Debug, PartialEq, Eq, Structural)]
pub struct IngredientRatio {
    pub magimins: Magimins,
    pub taste: isize,
    pub feel: isize,
    pub sight: isize,
    pub smell: isize,
    pub sound: isize,
    pub count: usize,
    pub min: usize,
    pub max: usize,
    pub price: usize,
}

impl IngredientRatio {
    pub open spec fn spec_sense_score(&self) -> int {
        spec_clamp_sense(self.taste as int) + spec_clamp_sense(self.feel as int)
            + spec_clamp_sense(self.sight as int) + spec_clamp_sense(self.smell as int)
            + spec_clamp_sense(self.sound as int)
    }

    fn clamp_sense(s: isize) -> (r: isize)
        ensures
            r as int == spec_clamp_sense(s as int),
    {
        if s < 0 {
            -1
        } else if s > 0 {
            1
        } else {
            0
        }
    }

    /// Sum of the clamped sensory totals, so repeated contributions to
    /// one sense never count more than once.
    pub fn sense_score(&self) -> (r: isize)
        ensures
            r as int == self.spec_sense_score(),
    {
        IngredientRatio::clamp_sense(self.taste) + IngredientRatio::clamp_sense(self.feel)
            + IngredientRatio::clamp_sense(self.sight) + IngredientRatio::clamp_sense(self.smell)
            + IngredientRatio::clamp_sense(self.sound)
    }

    /// No candidate sense carries the sign opposite to what the target
    /// requires: a required-positive sense fails only on a negative
    /// total, a required-negative sense only on a positive one, and a
    /// zero candidate total never fails.
    pub open spec fn spec_senses_satisfied(&self, t: &IngredientRatio) -> bool {
        &&& !(t.taste > 0 && self.taste < 0) && !(t.taste < 0 && self.taste > 0)
        &&& !(t.sight > 0 && self.sight < 0) && !(t.sight < 0 && self.sight > 0)
        &&& !(t.feel > 0 && self.feel < 0) && !(t.feel < 0 && self.feel > 0)
        &&& !(t.smell > 0 && self.smell < 0) && !(t.smell < 0 && self.smell > 0)
        &&& !(t.sound > 0 && self.sound < 0) && !(t.sound < 0 && self.sound > 0)
    }

    pub fn senses_satisfied(&self, t: &IngredientRatio) -> (r: bool)
        ensures
            r == self.spec_senses_satisfied(t),
    {
        if (t.taste > 0 && self.taste < 0) || (t.taste < 0 && self.taste > 0) {
            return false;
        }
        if (t.sight > 0 && self.sight < 0) || (t.sight < 0 && self.sight > 0) {
            return false;
        }
        if (t.feel > 0 && self.feel < 0) || (t.feel < 0 && self.feel > 0) {
            return false;
        }
        if (t.smell > 0 && self.smell < 0) || (t.smell < 0 && self.smell > 0) {
            return false;
        }
        if (t.sound > 0 && self.sound < 0) || (t.sound < 0 && self.sound > 0) {
            return false;
        }
        true
    }

    /// The ingredient brings no resource that this target rules out.
    pub open spec fn spec_possible_ingredient(&self, i: &Ingredient) -> bool {
        !blocked_by_zero(i.magimins, self.magimins)
    }

    pub fn is_possible_ingredient(&self, i: &Ingredient) -> (r: bool)
        ensures
            r == self.spec_possible_ingredient(i),
    {
        let tm = &self.magimins;
        let im = &i.magimins;
        !((im.a > 0 && tm.a == 0) || (im.b > 0 && tm.b == 0) || (im.c > 0 && tm.c == 0)
            || (im.d > 0 && tm.d == 0) || (im.e > 0 && tm.e == 0))
    }

    /// Tri-state ratio test of this running total against a target; an
    /// empty candidate (`count == 0`) trivially matches at scale 0.
    pub fn satisfying_ratio(&self, target: &IngredientRatio) -> (r: Option<usize>)
        ensures
            self.count == 0 ==> r == Some(0usize),
            self.count > 0 ==> {
                &&& (r is None <==> blocked_by_zero(self.magimins, target.magimins))
                &&& (match r {
                    Some(q) => q > 0 ==> is_multiple(self.magimins, target.magimins, q as int)
                        && self.magimins.spec_total() > 0,
                    None => true,
                })
                &&& (r == Some(0usize) ==> self.magimins.spec_total() == 0 || !(exists|m: int|
                    m >= 1 && is_multiple(self.magimins, target.magimins, m)))
                &&& (forall|m: int|
                    m >= 1 && is_multiple(self.magimins, target.magimins, m)
                        && self.magimins.spec_total() > 0 ==> r == Some(m as usize))
            },
    {
        if self.count == 0 {
            return Some(0);
        }
        magimin_ratio(&self.magimins, &target.magimins)
    }

    /// Extend a running total by one ingredient.
    pub fn add_ingredient(&self, i: &Ingredient) -> (r: IngredientRatio)
        requires
            i.wf(),
            self.magimins.spec_total() + i.magimins.spec_total() <= usize::MAX as int,
            isize::MIN as int <= self.taste + i.taste <= isize::MAX as int,
            isize::MIN as int <= self.feel + i.feel <= isize::MAX as int,
            isize::MIN as int <= self.sight + i.sight <= isize::MAX as int,
            isize::MIN as int <= self.smell + i.smell <= isize::MAX as int,
            isize::MIN as int <= self.sound + i.sound <= isize::MAX as int,
            self.count < usize::MAX,
            self.max + i.mutamin <= usize::MAX as int,
            self.price + i.price <= usize::MAX as int,
        ensures
            r.magimins == self.magimins.spec_plus(i.magimins),
            r.taste as int == self.taste + i.taste,
            r.feel as int == self.feel + i.feel,
            r.sight as int == self.sight + i.sight,
            r.smell as int == self.smell + i.smell,
            r.sound as int == self.sound + i.sound,
            r.count == self.count + 1,
            r.min == self.min,
            r.max as int == self.max + i.mutamin,
            r.price as int == self.price + i.price,
    {
        IngredientRatio {
            magimins: self.magimins.plus(&i.magimins),
            taste: self.taste + i.taste,
            feel: self.feel + i.feel,
            sight: self.sight + i.sight,
            smell: self.smell + i.smell,
            sound: self.sound + i.sound,
            count: self.count + 1,
            min: self.min,
            max: self.max + i.mutamin,
            price: self.price + i.price,
        }
    }

    /// The same target with its ratio projected onto the absolute scale
    /// `max`, as the approximate solver expects it.
    pub fn scaled_to_max(&self) -> (r: IngredientRatio)
        requires
            self.magimins.total_fits(),
            self.max as int * self.magimins.spec_total() <= usize::MAX as int,
        ensures
            self.magimins.spec_total() == 0 ==> r.magimins == (Magimins {
                a: 0usize, b: 0usize, c: 0usize, d: 0usize, e: 0usize,
            }),
            self.magimins.spec_total() > 0 ==> {
                &&& r.magimins.a as int == (self.max as int * self.magimins.a as int)
                    / self.magimins.spec_total()
                &&& r.magimins.b as int == (self.max as int * self.magimins.b as int)
                    / self.magimins.spec_total()
                &&& r.magimins.c as int == (self.max as int * self.magimins.c as int)
                    / self.magimins.spec_total()
                &&& r.magimins.d as int == (self.max as int * self.magimins.d as int)
                    / self.magimins.spec_total()
                &&& r.magimins.e as int == (self.max as int * self.magimins.e as int)
                    / self.magimins.spec_total()
            },
            r.magimins.spec_total() <= self.max as int,
            r.taste == self.taste,
            r.feel == self.feel,
            r.sight == self.sight,
            r.smell == self.smell,
            r.sound == self.sound,
            r.count == self.count,
            r.min == self.min,
            r.max == self.max,
            r.price == self.price,
    {
        IngredientRatio {
            magimins: Magimins::scale_div(self.max, &self.magimins),
            taste: self.taste,
            feel: self.feel,
            sight: self.sight,
            smell: self.smell,
            sound: self.sound,
            count: self.count,
            min: self.min,
            max: self.max,
            price: self.price,
        }
    }
}

} // verus!
