//! The APPROXIMATE-mode solver: minimise the squared distance between
//! a candidate's resource vector (total included) and the target
//! scaled to its maximum magnitude, pruning by an optimistic
//! projection of the remaining budget.
//!
//! Distances are compared as exact integer sums of squares; taking the
//! square root preserves their order, so display code may do so freely.

use vstd::prelude::*;
use crate::magimins::Magimins;
use crate::attributes::PotionAttributes;
use crate::engine::{
    BranchSink, CatalogEntry, JudgementLog, copy_indices, enumerate, lemma_empty_caps,
    lemma_nondec_range, lemma_sum_sel_fits, lemma_sum_sel_scaled, lemma_sum_split,
    lemma_whole_is_extension, log_cut, log_has, pool_ok, pursued, sel_in_range,
    sel_nondecreasing, sel_within_caps, selection_price, sum_price, sum_sel, valid_extension,
};
use crate::catalog::{catalog_le, catalog_sorted};
use crate::exact::target_ok;
use crate::ratio::IngredientRatio;
use crate::results::{PotionRecipe, recipe_consistent};

verus! {

pub open spec fn sq(x: int) -> int {
    x * x
}

/// Every component small enough that squared distances stay inside a
/// `u128`.
pub open spec fn score_bounded(m: Magimins) -> bool {
    &&& m.a as int <= 0x1000_0000_0000_0000
    &&& m.b as int <= 0x1000_0000_0000_0000
    &&& m.c as int <= 0x1000_0000_0000_0000
    &&& m.d as int <= 0x1000_0000_0000_0000
    &&& m.e as int <= 0x1000_0000_0000_0000
}

/// The squared distance the approximate solver minimises: the five
/// componentwise differences, plus the mismatch between the expected
/// and actual totals as one more squared term.
pub open spec fn spec_rms_sq(e: Magimins, et: int, a: Magimins) -> int {
    sq(e.a - a.a) + sq(e.b - a.b) + sq(e.c - a.c) + sq(e.d - a.d) + sq(e.e - a.e) + sq(
        et - a.spec_total(),
    )
}

/// `|x - y|` squared, exactly, inside `u128`.
fn diff_sq(x: u128, y: u128) -> (r: u128)
    requires
        x as int <= 0x8000_0000_0000_0000,
        y as int <= 0x8000_0000_0000_0000,
    ensures
        r as int == sq(x as int - y as int),
        r as int <= 0x4000_0000_0000_0000_0000_0000_0000_0000,
{
    let d = if x >= y {
        x - y
    } else {
        y - x
    };
    proof {
        assert(d as int * d as int == sq(x as int - y as int)
            && d as int * d as int <= 0x4000_0000_0000_0000_0000_0000_0000_0000)
            by (nonlinear_arith)
            requires
                0 <= d as int <= 0x8000_0000_0000_0000,
                d as int == if x as int >= y as int {
                    x as int - y as int
                } else {
                    y as int - x as int
                },
        ;
    }
    d * d
}

/// The distance score of `actual` against the scaled target `expected`
/// with expected total `expected_total`, as an exact integer: the sum
/// of the squared differences, total mismatch included.
pub fn rms_sq(expected: &Magimins, expected_total: usize, actual: &Magimins) -> (r: u128)
    requires
        score_bounded(*expected),
        score_bounded(*actual),
        expected_total as int <= 0x1000_0000_0000_0000,
    ensures
        r as int == spec_rms_sq(*expected, expected_total as int, *actual),
{
    let t1 = diff_sq(expected.a as u128, actual.a as u128);
    let t2 = diff_sq(expected.b as u128, actual.b as u128);
    let t3 = diff_sq(expected.c as u128, actual.c as u128);
    let t4 = diff_sq(expected.d as u128, actual.d as u128);
    let t5 = diff_sq(expected.e as u128, actual.e as u128);
    let actual_total = actual.a as u128 + actual.b as u128 + actual.c as u128 + actual.d as u128
        + actual.e as u128;
    let t6 = diff_sq(expected_total as u128, actual_total);
    proof {
        let l: int = 0x1000_0000_0000_0000;
        assert(t1 as int <= l * l && t2 as int <= l * l && t3 as int <= l * l && t4 as int <= l
            * l && t5 as int <= l * l) by (nonlinear_arith)
            requires
                t1 as int == sq(expected.a as int - actual.a as int),
                t2 as int == sq(expected.b as int - actual.b as int),
                t3 as int == sq(expected.c as int - actual.c as int),
                t4 as int == sq(expected.d as int - actual.d as int),
                t5 as int == sq(expected.e as int - actual.e as int),
                l == 0x1000_0000_0000_0000,
                0 <= expected.a as int <= l,
                0 <= expected.b as int <= l,
                0 <= expected.c as int <= l,
                0 <= expected.d as int <= l,
                0 <= expected.e as int <= l,
                0 <= actual.a as int <= l,
                0 <= actual.b as int <= l,
                0 <= actual.c as int <= l,
                0 <= actual.d as int <= l,
                0 <= actual.e as int <= l,
        ;
        assert(t6 as int <= 25 * (l * l)) by (nonlinear_arith)
            requires
                t6 as int == sq(expected_total as int - actual_total as int),
                l == 0x1000_0000_0000_0000,
                0 <= expected_total as int <= l,
                0 <= actual_total as int <= 5 * l,
        ;
    }
    t1 + t2 + t3 + t4 + t5 + t6
}

/// How far `a` falls short of `e`, and zero once it does not.
pub open spec fn pos_diff(x: int, y: int) -> int {
    if x > y {
        x - y
    } else {
        0
    }
}

/// The combined shortfall of `a` against `e` over all five components.
pub open spec fn spec_deficit(e: Magimins, a: Magimins) -> int {
    pos_diff(e.a as int, a.a as int) + pos_diff(e.b as int, a.b as int) + pos_diff(
        e.c as int,
        a.c as int,
    ) + pos_diff(e.d as int, a.d as int) + pos_diff(e.e as int, a.e as int)
}

pub open spec fn spec_min(x: int, y: int) -> int {
    if x < y {
        x
    } else {
        y
    }
}

/// The greedy pouring discipline: budget goes to the components with
/// the largest remaining shortfall first, so any component that
/// received budget ends within one unit of the largest shortfall left
/// anywhere.
#[verifier::opaque]
pub open spec fn poured_leads(e: Magimins, a0: Magimins, r: Magimins) -> bool {
    let da = pos_diff(e.a as int, r.a as int);
    let db = pos_diff(e.b as int, r.b as int);
    let dc = pos_diff(e.c as int, r.c as int);
    let dd = pos_diff(e.d as int, r.d as int);
    let de = pos_diff(e.e as int, r.e as int);
    &&& (r.a > a0.a ==> db <= da + 1 && dc <= da + 1 && dd <= da + 1 && de <= da + 1)
    &&& (r.b > a0.b ==> da <= db + 1 && dc <= db + 1 && dd <= db + 1 && de <= db + 1)
    &&& (r.c > a0.c ==> da <= dc + 1 && db <= dc + 1 && dd <= dc + 1 && de <= dc + 1)
    &&& (r.d > a0.d ==> da <= dd + 1 && db <= dd + 1 && dc <= dd + 1 && de <= dd + 1)
    &&& (r.e > a0.e ==> da <= de + 1 && db <= de + 1 && dc <= de + 1 && dd <= de + 1)
}

/// Pouring one unit onto a component whose shortfall is maximal keeps
/// the greedy discipline.  One lemma per component.
proof fn lemma_pour_step_a(e: Magimins, a0: Magimins, prev: Magimins, next: Magimins)
    requires
        poured_leads(e, a0, prev),
        prev.a >= a0.a,
        prev.b >= a0.b,
        prev.c >= a0.c,
        prev.d >= a0.d,
        prev.e >= a0.e,
        next == (Magimins { a: (prev.a + 1) as usize, ..prev }),
        pos_diff(e.a as int, prev.a as int) >= pos_diff(e.b as int, prev.b as int),
        pos_diff(e.a as int, prev.a as int) >= pos_diff(e.c as int, prev.c as int),
        pos_diff(e.a as int, prev.a as int) >= pos_diff(e.d as int, prev.d as int),
        pos_diff(e.a as int, prev.a as int) >= pos_diff(e.e as int, prev.e as int),
        pos_diff(e.a as int, prev.a as int) >= 1,
    ensures
        poured_leads(e, a0, next),
{
    reveal(poured_leads);
}

proof fn lemma_pour_step_b(e: Magimins, a0: Magimins, prev: Magimins, next: Magimins)
    requires
        poured_leads(e, a0, prev),
        prev.a >= a0.a,
        prev.b >= a0.b,
        prev.c >= a0.c,
        prev.d >= a0.d,
        prev.e >= a0.e,
        next == (Magimins { b: (prev.b + 1) as usize, ..prev }),
        pos_diff(e.b as int, prev.b as int) >= pos_diff(e.a as int, prev.a as int),
        pos_diff(e.b as int, prev.b as int) >= pos_diff(e.c as int, prev.c as int),
        pos_diff(e.b as int, prev.b as int) >= pos_diff(e.d as int, prev.d as int),
        pos_diff(e.b as int, prev.b as int) >= pos_diff(e.e as int, prev.e as int),
        pos_diff(e.b as int, prev.b as int) >= 1,
    ensures
        poured_leads(e, a0, next),
{
    reveal(poured_leads);
}

proof fn lemma_pour_step_c(e: Magimins, a0: Magimins, prev: Magimins, next: Magimins)
    requires
        poured_leads(e, a0, prev),
        prev.a >= a0.a,
        prev.b >= a0.b,
        prev.c >= a0.c,
        prev.d >= a0.d,
        prev.e >= a0.e,
        next == (Magimins { c: (prev.c + 1) as usize, ..prev }),
        pos_diff(e.c as int, prev.c as int) >= pos_diff(e.a as int, prev.a as int),
        pos_diff(e.c as int, prev.c as int) >= pos_diff(e.b as int, prev.b as int),
        pos_diff(e.c as int, prev.c as int) >= pos_diff(e.d as int, prev.d as int),
        pos_diff(e.c as int, prev.c as int) >= pos_diff(e.e as int, prev.e as int),
        pos_diff(e.c as int, prev.c as int) >= 1,
    ensures
        poured_leads(e, a0, next),
{
    reveal(poured_leads);
}

proof fn lemma_pour_step_d(e: Magimins, a0: Magimins, prev: Magimins, next: Magimins)
    requires
        poured_leads(e, a0, prev),
        prev.a >= a0.a,
        prev.b >= a0.b,
        prev.c >= a0.c,
        prev.d >= a0.d,
        prev.e >= a0.e,
        next == (Magimins { d: (prev.d + 1) as usize, ..prev }),
        pos_diff(e.d as int, prev.d as int) >= pos_diff(e.a as int, prev.a as int),
        pos_diff(e.d as int, prev.d as int) >= pos_diff(e.b as int, prev.b as int),
        pos_diff(e.d as int, prev.d as int) >= pos_diff(e.c as int, prev.c as int),
        pos_diff(e.d as int, prev.d as int) >= pos_diff(e.e as int, prev.e as int),
        pos_diff(e.d as int, prev.d as int) >= 1,
    ensures
        poured_leads(e, a0, next),
{
    reveal(poured_leads);
}

proof fn lemma_pour_step_e(e: Magimins, a0: Magimins, prev: Magimins, next: Magimins)
    requires
        poured_leads(e, a0, prev),
        prev.a >= a0.a,
        prev.b >= a0.b,
        prev.c >= a0.c,
        prev.d >= a0.d,
        prev.e >= a0.e,
        next == (Magimins { e: (prev.e + 1) as usize, ..prev }),
        pos_diff(e.e as int, prev.e as int) >= pos_diff(e.a as int, prev.a as int),
        pos_diff(e.e as int, prev.e as int) >= pos_diff(e.b as int, prev.b as int),
        pos_diff(e.e as int, prev.e as int) >= pos_diff(e.c as int, prev.c as int),
        pos_diff(e.e as int, prev.e as int) >= pos_diff(e.d as int, prev.d as int),
        pos_diff(e.e as int, prev.e as int) >= 1,
    ensures
        poured_leads(e, a0, next),
{
    reveal(poured_leads);
}

/// The shortfall-maximal component: which of the five components of
/// `cur` falls furthest short of `e`, and by how much.
fn pick_pour(e: &Magimins, cur: &Magimins) -> (r: (usize, usize))
    ensures
        ({
            let da = pos_diff(e.a as int, cur.a as int);
            let db = pos_diff(e.b as int, cur.b as int);
            let dc = pos_diff(e.c as int, cur.c as int);
            let dd = pos_diff(e.d as int, cur.d as int);
            let de = pos_diff(e.e as int, cur.e as int);
            &&& r.1 as int >= da && r.1 as int >= db && r.1 as int >= dc && r.1 as int >= dd
                && r.1 as int >= de
            &&& (r.0 == 0 ==> r.1 as int == da)
            &&& (r.0 == 1 ==> r.1 as int == db)
            &&& (r.0 == 2 ==> r.1 as int == dc)
            &&& (r.0 == 3 ==> r.1 as int == dd)
            &&& (r.0 == 4 ==> r.1 as int == de)
            &&& r.0 <= 4
        }),
{
    let da: usize = if e.a > cur.a {
        e.a - cur.a
    } else {
        0
    };
    let db: usize = if e.b > cur.b {
        e.b - cur.b
    } else {
        0
    };
    let dc: usize = if e.c > cur.c {
        e.c - cur.c
    } else {
        0
    };
    let dd: usize = if e.d > cur.d {
        e.d - cur.d
    } else {
        0
    };
    let de: usize = if e.e > cur.e {
        e.e - cur.e
    } else {
        0
    };
    let mut best = da;
    let mut which: usize = 0;
    if db > best {
        best = db;
        which = 1;
    }
    if dc > best {
        best = dc;
        which = 2;
    }
    if dd > best {
        best = dd;
        which = 3;
    }
    if de > best {
        best = de;
        which = 4;
    }
    (which, best)
}

/// The optimistic projection: pour the remaining budget onto the
/// components with the largest shortfall against the target, one unit
/// at a time, until the budget or every shortfall is exhausted.  No
/// component moves past its target, none shrinks, the total grows by
/// exactly the smaller of the budget and the combined shortfall, and
/// the greedy discipline of `poured_leads` holds of the result.
#[verifier::rlimit(100)]
pub fn project(expected: &Magimins, actual: &Magimins, budget: usize) -> (r: Magimins)
    requires
        expected.total_fits(),
        actual.spec_total() + budget <= usize::MAX as int,
    ensures
        r.a >= actual.a,
        r.b >= actual.b,
        r.c >= actual.c,
        r.d >= actual.d,
        r.e >= actual.e,
        expected.a > actual.a ==> r.a <= expected.a,
        expected.b > actual.b ==> r.b <= expected.b,
        expected.c > actual.c ==> r.c <= expected.c,
        expected.d > actual.d ==> r.d <= expected.d,
        expected.e > actual.e ==> r.e <= expected.e,
        expected.a <= actual.a ==> r.a == actual.a,
        expected.b <= actual.b ==> r.b == actual.b,
        expected.c <= actual.c ==> r.c == actual.c,
        expected.d <= actual.d ==> r.d == actual.d,
        expected.e <= actual.e ==> r.e == actual.e,
        r.spec_total() == actual.spec_total() + spec_min(
            budget as int,
            spec_deficit(*expected, *actual),
        ),
        poured_leads(*expected, *actual, r),
{
    let mut cur = *actual;
    let mut left = budget;
    proof {
        assert(poured_leads(*expected, *actual, cur)) by {
            reveal(poured_leads);
        }
    }
    loop
        invariant_except_break
            left <= budget,
            cur.a >= actual.a,
            cur.b >= actual.b,
            cur.c >= actual.c,
            cur.d >= actual.d,
            cur.e >= actual.e,
            expected.a > actual.a ==> cur.a <= expected.a,
            expected.b > actual.b ==> cur.b <= expected.b,
            expected.c > actual.c ==> cur.c <= expected.c,
            expected.d > actual.d ==> cur.d <= expected.d,
            expected.e > actual.e ==> cur.e <= expected.e,
            expected.a <= actual.a ==> cur.a == actual.a,
            expected.b <= actual.b ==> cur.b == actual.b,
            expected.c <= actual.c ==> cur.c == actual.c,
            expected.d <= actual.d ==> cur.d == actual.d,
            expected.e <= actual.e ==> cur.e == actual.e,
            cur.spec_total() == actual.spec_total() + (budget - left),
            spec_deficit(*expected, cur) == spec_deficit(*expected, *actual) - (budget - left),
            poured_leads(*expected, *actual, cur),
        ensures
            cur.a >= actual.a,
            cur.b >= actual.b,
            cur.c >= actual.c,
            cur.d >= actual.d,
            cur.e >= actual.e,
            expected.a > actual.a ==> cur.a <= expected.a,
            expected.b > actual.b ==> cur.b <= expected.b,
            expected.c > actual.c ==> cur.c <= expected.c,
            expected.d > actual.d ==> cur.d <= expected.d,
            expected.e > actual.e ==> cur.e <= expected.e,
            expected.a <= actual.a ==> cur.a == actual.a,
            expected.b <= actual.b ==> cur.b == actual.b,
            expected.c <= actual.c ==> cur.c == actual.c,
            expected.d <= actual.d ==> cur.d == actual.d,
            expected.e <= actual.e ==> cur.e == actual.e,
            cur.spec_total() == actual.spec_total() + spec_min(
                budget as int,
                spec_deficit(*expected, *actual),
            ),
            poured_leads(*expected, *actual, cur),
        decreases left,
    {
        if left == 0 {
            break;
        }
        let picked = pick_pour(expected, &cur);
        let which = picked.0;
        let best = picked.1;
        if best == 0 {
            break;
        }
        let ghost prev = cur;
        if which == 0 {
            cur.a = cur.a + 1;
            proof {
                lemma_pour_step_a(*expected, *actual, prev, cur);
            }
        } else if which == 1 {
            cur.b = cur.b + 1;
            proof {
                lemma_pour_step_b(*expected, *actual, prev, cur);
            }
        } else if which == 2 {
            cur.c = cur.c + 1;
            proof {
                lemma_pour_step_c(*expected, *actual, prev, cur);
            }
        } else if which == 3 {
            cur.d = cur.d + 1;
            proof {
                lemma_pour_step_d(*expected, *actual, prev, cur);
            }
        } else {
            cur.e = cur.e + 1;
            proof {
                lemma_pour_step_e(*expected, *actual, prev, cur);
            }
        }
        left = left - 1;
    }
    cur
}

/// Install a freshly computed score into a best-score cell: the cell
/// takes the smaller of the two, and an empty cell takes the score.
pub open spec fn spec_offer(cur: Option<u128>, x: u128) -> Option<u128> {
    match cur {
        None => Some(x),
        Some(b) => if x < b {
            Some(x)
        } else {
            Some(b)
        },
    }
}

/// `a` is at least as good (small) as `b`; an empty cell is worst.
pub open spec fn score_le(a: Option<u128>, b: Option<u128>) -> bool {
    match b {
        None => true,
        Some(bv) => match a {
            Some(av) => av <= bv,
            None => false,
        },
    }
}

pub fn offer_score(cur: Option<u128>, x: u128) -> (r: Option<u128>)
    ensures
        r == spec_offer(cur, x),
{
    match cur {
        None => Some(x),
        Some(b) => if x < b {
            Some(x)
        } else {
            Some(b)
        },
    }
}

/// The cell after a whole sequence of offers, in order.
pub open spec fn run_offers(init: Option<u128>, xs: Seq<u128>) -> Option<u128>
    decreases xs.len(),
{
    if xs.len() == 0 {
        init
    } else {
        spec_offer(run_offers(init, xs.drop_last()), xs.last())
    }
}

/// One offer never worsens the cell.
pub proof fn lemma_offer_improves(cur: Option<u128>, x: u128)
    ensures
        score_le(spec_offer(cur, x), cur),
{
}

/// Law: however the offers are interleaved, the best-score cell is
/// monotone — after more offers it is never worse than after fewer, so
/// no reader ever observes the score regress.
pub proof fn lemma_best_monotone(init: Option<u128>, xs: Seq<u128>, i: int, j: int)
    requires
        0 <= i <= j <= xs.len(),
    ensures
        score_le(run_offers(init, xs.take(j)), run_offers(init, xs.take(i))),
    decreases j - i,
{
    if i == j {
    } else {
        lemma_best_monotone(init, xs, i, j - 1);
        assert(xs.take(j).drop_last() =~= xs.take(j - 1));
        lemma_offer_improves(run_offers(init, xs.take(j - 1)), xs.take(j).last());
    }
}

/// What the approximate search asks of its (already scaled) target.
pub open spec fn approx_target_ok(t: IngredientRatio) -> bool {
    &&& target_ok(t)
    &&& score_bounded(t.magimins)
    &&& t.max as int <= 0x1000_0000_0000_0000
}

/// What the approximate solver promises of every recipe it records: a
/// consistent snapshot whose total lies within the target's bounds.
pub open spec fn approx_accepted(
    pool: Seq<CatalogEntry>,
    t: IngredientRatio,
    r: PotionRecipe,
) -> bool {
    &&& recipe_consistent(pool, r)
    &&& r.ingredients@.len() <= t.count
    &&& t.min <= r.attributes.magimins.spec_total() <= t.max
}

/// A selection whose combined total lies inside the target band: once
/// such a candidate exists, the approximate search records something.
pub open spec fn in_band(pool: Seq<CatalogEntry>, t: IngredientRatio, s: Seq<usize>) -> bool {
    t.min <= sum_sel(pool, s).mag_total() <= t.max
}

/// The strategy the engine drives in APPROXIMATE mode.  Records a
/// candidate when its score is no worse than the best seen; otherwise
/// keeps exploring only while the optimistic projection of the
/// remaining budget could still beat that best.
pub struct ApproxSolver {
    pub target: IngredientRatio,
    pub results: Vec<PotionRecipe>,
    pub best_sq: Option<u128>,
    pub gpool: Ghost<Seq<CatalogEntry>>,
    pub gseed: Ghost<Option<u128>>,
    pub glog: Ghost<JudgementLog>,
}

impl BranchSink for ApproxSolver {
    open spec fn inv(&self) -> bool {
        &&& (forall|k: int| 0 <= k < self.results@.len() ==> approx_accepted(
            self.gpool@,
            self.target,
            #[trigger] self.results@[k],
        ))
        &&& (forall|k: int| 0 <= k < self.results@.len() - 1 ==> (#[trigger] self.results@[
            k
        ]).ingredients@.len() <= self.results@[k + 1].ingredients@.len())
        &&& score_le(self.best_sq, self.gseed@)
        &&& (forall|i: int|
            0 <= i < self.glog@.len() && in_band(
                self.gpool@,
                self.target,
                (#[trigger] self.glog@[i]).0,
            ) ==> self.results@.len() >= 1)
        &&& (forall|i: int| 0 <= i < self.glog@.len() && (#[trigger] self.glog@[i]).1 == false
            ==> (sum_sel(self.gpool@, self.glog@[i].0).mag_total() > self.target.max || sum_sel(
                self.gpool@,
                self.glog@[i].0,
            ).mag_total() + self.gpool@[self.glog@[i].0.last() as int].0.magimins.spec_total() * (
            self.target.count - self.glog@[i].0.len()) < self.target.min
                || self.results@.len() >= 1))
    }

    open spec fn limit(&self) -> int {
        self.target.count as int
    }

    open spec fn log(&self) -> JudgementLog {
        self.glog@
    }

    open spec fn config(&self) -> (IngredientRatio, Seq<CatalogEntry>, Option<u128>) {
        (self.target, self.gpool@, self.gseed@)
    }

    open spec fn pool_inv(&self, pool: Seq<CatalogEntry>) -> bool {
        &&& pool == self.gpool@
        &&& pool_ok(pool, self.target.count as int)
        &&& approx_target_ok(self.target)
    }

    fn continue_branch(
        &mut self,
        pool: &Vec<CatalogEntry>,
        sel: &Vec<usize>,
        acc: &PotionAttributes,
    ) -> (cont: bool) {
        let count = self.target.count;
        proof {
            lemma_sum_sel_fits(pool@, sel@, count as int);
            lemma_sum_sel_scaled(pool@, sel@, count as int);
        }
        let total = acc.magimins.total();
        if total > self.target.max {
            self.glog = Ghost(self.glog@.push((sel@, false)));
            return false;
        }
        let last_idx = sel[sel.len() - 1];
        let last_mut = pool[last_idx].0.mutamin;
        let remaining = count - sel.len();
        proof {
            let b = pool@[last_idx as int].0.magimins.spec_total();
            assert(b * remaining <= b * count && b >= 0) by (nonlinear_arith)
                requires
                    remaining <= count,
                    b >= 0,
            ;
            let s = sum_sel(pool@, sel@);
            assert(total + last_mut as int * remaining <= usize::MAX as int) by (nonlinear_arith)
                requires
                    total as int == s.mag_total(),
                    s.mag_total() * count <= sel@.len() * (usize::MAX as int),
                    last_mut as int == b,
                    b * count <= usize::MAX as int,
                    remaining == count - sel@.len(),
                    1 <= sel@.len() <= count,
                    s.mag_total() >= 0,
                    b >= 0,
            ;
        }
        if total + last_mut * remaining < self.target.min {
            self.glog = Ghost(self.glog@.push((sel@, false)));
            return false;
        }
        if total < self.target.min {
            self.glog = Ghost(self.glog@.push((sel@, true)));
            return true;
        }
        if self.results.len() == 0 {
            let price = selection_price(pool, sel, count);
            let indices = copy_indices(sel);
            let recipe = PotionRecipe { attributes: *acc, ingredients: indices, cost: price };
            self.results.push(recipe);
            self.glog = Ghost(self.glog@.push((sel@, true)));
            return true;
        }
        let last_count = self.results[self.results.len() - 1].ingredients.len();
        if last_count <= sel.len() {
            let new_sq = rms_sq(&self.target.magimins, self.target.max, &acc.magimins);
            if let Some(current) = self.best_sq {
                if new_sq > current {
                    let budget = self.target.max - total;
                    let proj = project(&self.target.magimins, &acc.magimins, budget);
                    let p_sq = rms_sq(&self.target.magimins, self.target.max, &proj);
                    let verdict = p_sq < current;
                    self.glog = Ghost(self.glog@.push((sel@, verdict)));
                    return verdict;
                }
            }
            let price = selection_price(pool, sel, count);
            let indices = copy_indices(sel);
            let recipe = PotionRecipe { attributes: *acc, ingredients: indices, cost: price };
            self.results.push(recipe);
            proof {
                lemma_offer_improves(self.best_sq, new_sq);
            }
            self.best_sq = offer_score(self.best_sq, new_sq);
        }
        self.glog = Ghost(self.glog@.push((sel@, true)));
        true
    }
}

/// Over a catalog in search order, if any owed extension lands inside
/// the total band, the worker records at least one candidate: every
/// cut before an in-band candidate is justified by a bound that the
/// extension itself would break, or happens after a first record.
proof fn lemma_approx_liveness(
    pool: Seq<CatalogEntry>,
    t: IngredientRatio,
    log: JudgementLog,
    results_len: int,
    offset: usize,
    ext: Seq<usize>,
)
    requires
        catalog_sorted(pool),
        pool_ok(pool, t.count as int),
        valid_extension(pool, Seq::empty(), ext, offset as int, t.count as int),
        in_band(pool, t, ext),
        pursued(log, Seq::empty(), ext),
        forall|i: int| 0 <= i < log.len() && in_band(pool, t, (#[trigger] log[i]).0)
            ==> results_len >= 1,
        forall|i: int| 0 <= i < log.len() && (#[trigger] log[i]).1 == false ==> (sum_sel(
            pool,
            log[i].0,
        ).mag_total() > t.max || sum_sel(pool, log[i].0).mag_total() + pool[log[i].0.last()
            as int].0.magimins.spec_total() * (t.count - log[i].0.len()) < t.min
            || results_len >= 1),
    ensures
        results_len >= 1,
{
    reveal(pursued);
    reveal(log_has);
    reveal(log_cut);
    reveal(valid_extension);
    assert(Seq::empty() + ext =~= ext);
    if log_has(log, Seq::empty() + ext) {
        let i = choose|i: int| 0 <= i < log.len() && (#[trigger] log[i]).0 == Seq::empty() + ext;
        assert(in_band(pool, t, log[i].0));
    } else {
        let j = choose|j: int|
            1 <= j < ext.len() && log_cut(log, Seq::empty() + #[trigger] ext.take(j));
        let p = ext.take(j);
        assert(Seq::empty() + ext.take(j) =~= p);
        let i = choose|i: int| 0 <= i < log.len() && (#[trigger] log[i]) == (p, false);
        if results_len >= 1 {
        } else {
            let suf = ext.skip(j);
            assert(p + suf =~= ext);
            lemma_sum_split(pool, p, suf);
            assert(forall|k: int| 0 <= k < suf.len() ==> suf[k] == ext[j + k]);
            assert forall|k: int| 0 <= k < suf.len() implies (#[trigger] suf[k]) < pool.len() by {
                assert(suf[k] == ext[j + k]);
            }
            lemma_sum_sel_scaled(pool, suf, t.count as int);
            let tot_p = sum_sel(pool, p).mag_total();
            let tot_s = sum_sel(pool, suf).mag_total();
            if tot_p > t.max {
                assert(false);
            } else {
                let last = p[j - 1];
                assert(last == ext[j - 1]);
                let pot = pool[last as int].0.magimins.spec_total();
                assert(tot_p + pot * (t.count - j) < t.min);
                assert forall|k: int| 0 <= k < suf.len() implies pool[(#[trigger] suf[k]) as int]
                    .0.magimins.spec_total() <= pot by {
                    assert(suf[k] == ext[j + k]);
                    lemma_nondec_range(ext, j - 1, j + k);
                    assert(catalog_le(pool[last as int], pool[suf[k] as int]));
                }
                assert(pot >= 0);
                crate::engine::lemma_sum_mag_bounded(pool, suf, pot);
                assert(suf.len() <= t.count - j);
                assert(suf.len() * pot <= (t.count - j) * pot) by (nonlinear_arith)
                    requires
                        suf.len() <= t.count - j,
                        pot >= 0,
                ;
                assert(pot * (t.count - j) == (t.count - j) * pot) by (nonlinear_arith);
                assert(false);
            }
        }
    }
}

/// What one worker's approximate search hands back: its accepted
/// recipes (non-decreasing in ingredient count, the last being its
/// best) and its view of the best score after the run.
pub struct ApproxOutcome {
    pub results: Vec<PotionRecipe>,
    pub best_sq: Option<u128>,
}

/// One worker's share of the approximate search, seeded with the best
/// score known so far; the returned score is never worse than the
/// seed.
pub fn search_approx_from(
    pool: &Vec<CatalogEntry>,
    target: &IngredientRatio,
    offset: usize,
    seed: Option<u128>,
) -> (out: ApproxOutcome)
    requires
        offset <= pool@.len(),
        approx_target_ok(*target),
        catalog_sorted(pool@),
        pool_ok(pool@, target.count as int),
    ensures
        forall|k: int| 0 <= k < out.results@.len() ==> approx_accepted(
            pool@,
            *target,
            #[trigger] out.results@[k],
        ),
        forall|k: int| 0 <= k < out.results@.len() - 1 ==> (#[trigger] out.results@[
            k
        ]).ingredients@.len() <= out.results@[k + 1].ingredients@.len(),
        score_le(out.best_sq, seed),
        (exists|ext: Seq<usize>| #[trigger] valid_extension(
            pool@,
            Seq::empty(),
            ext,
            offset as int,
            target.count as int,
        ) && in_band(pool@, *target, ext)) ==> out.results@.len() >= 1,
{
    let mut sink = ApproxSolver {
        target: *target,
        results: Vec::new(),
        best_sq: seed,
        gpool: Ghost(pool@),
        gseed: Ghost(seed),
        glog: Ghost(Seq::empty()),
    };
    if target.count == 0 {
        proof {
            if exists|ext: Seq<usize>| #[trigger] valid_extension(
                pool@,
                Seq::empty(),
                ext,
                offset as int,
                target.count as int,
            ) && in_band(pool@, *target, ext) {
                let ext = choose|ext: Seq<usize>|
                    #[trigger] valid_extension(
                        pool@,
                        Seq::empty(),
                        ext,
                        offset as int,
                        target.count as int,
                    ) && in_band(pool@, *target, ext);
                reveal(valid_extension);
                assert(false);
            }
        }
        return ApproxOutcome { results: sink.results, best_sq: sink.best_sq };
    }
    let mut sel: Vec<usize> = Vec::new();
    let acc = PotionAttributes::empty();
    proof {
        lemma_empty_caps(pool@, sel@);
    }
    enumerate(pool, offset, target.count, &mut sel, acc, &mut sink);
    proof {
        if exists|ext: Seq<usize>| #[trigger] valid_extension(
            pool@,
            Seq::empty(),
            ext,
            offset as int,
            target.count as int,
        ) && in_band(pool@, *target, ext) {
            let ext = choose|ext: Seq<usize>|
                #[trigger] valid_extension(
                    pool@,
                    Seq::empty(),
                    ext,
                    offset as int,
                    target.count as int,
                ) && in_band(pool@, *target, ext);
            lemma_approx_liveness(
                pool@,
                *target,
                sink.glog@,
                sink.results@.len() as int,
                offset,
                ext,
            );
        }
    }
    ApproxOutcome { results: sink.results, best_sq: sink.best_sq }
}

/// The whole approximate search: one enumeration per starting offset,
/// each seeded with the best score of the runs before it.
pub fn search_approx(pool: &Vec<CatalogEntry>, target: &IngredientRatio) -> (out: ApproxOutcome)
    requires
        approx_target_ok(*target),
        catalog_sorted(pool@),
        pool_ok(pool@, target.count as int),
    ensures
        forall|k: int| 0 <= k < out.results@.len() ==> approx_accepted(
            pool@,
            *target,
            #[trigger] out.results@[k],
        ),
        (exists|s: Seq<usize>|
            1 <= s.len() <= target.count && sel_in_range(pool@, s) && sel_nondecreasing(s)
                && #[trigger] sel_within_caps(pool@, s) && in_band(pool@, *target, s))
            ==> out.results@.len() >= 1,
{
    let mut results: Vec<PotionRecipe> = Vec::new();
    let mut best: Option<u128> = None;
    let mut offset: usize = 0;
    while offset < pool.len()
        invariant
            offset <= pool@.len(),
            approx_target_ok(*target),
            catalog_sorted(pool@),
            pool_ok(pool@, target.count as int),
            forall|k: int| 0 <= k < results@.len() ==> approx_accepted(
                pool@,
                *target,
                #[trigger] results@[k],
            ),
            (exists|s: Seq<usize>|
                1 <= s.len() <= target.count && sel_in_range(pool@, s) && sel_nondecreasing(s)
                    && #[trigger] sel_within_caps(pool@, s) && in_band(pool@, *target, s)
                    && (s[0] as int) < offset) ==> results@.len() >= 1,
        decreases pool@.len() - offset,
    {
        let mut part = search_approx_from(pool, target, offset, best);
        let ghost partn = part.results@.len();
        results.append(&mut part.results);
        best = part.best_sq;
        proof {
            if exists|s: Seq<usize>|
                1 <= s.len() <= target.count && sel_in_range(pool@, s) && sel_nondecreasing(s)
                    && #[trigger] sel_within_caps(pool@, s) && in_band(pool@, *target, s) && (
            s[0] as int) < offset + 1 {
                let s = choose|s: Seq<usize>|
                    1 <= s.len() <= target.count && sel_in_range(pool@, s) && sel_nondecreasing(
                        s,
                    ) && #[trigger] sel_within_caps(pool@, s) && in_band(pool@, *target, s) && (
                s[0] as int) < offset + 1;
                if (s[0] as int) == offset as int {
                    lemma_whole_is_extension(pool@, s, offset, target.count as int);
                    assert(partn >= 1);
                }
                assert(results@.len() >= 1);
            }
        }
        offset = offset + 1;
    }
    proof {
        if exists|s: Seq<usize>|
            1 <= s.len() <= target.count && sel_in_range(pool@, s) && sel_nondecreasing(s)
                && #[trigger] sel_within_caps(pool@, s) && in_band(pool@, *target, s) {
            let s = choose|s: Seq<usize>|
                1 <= s.len() <= target.count && sel_in_range(pool@, s) && sel_nondecreasing(s)
                    && #[trigger] sel_within_caps(pool@, s) && in_band(pool@, *target, s);
            assert((s[0] as int) < pool@.len());
        }
    }
    ApproxOutcome { results, best_sq: best }
}

} // verus!
