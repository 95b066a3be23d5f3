//! The enumeration engine: recursive generation of every admissible
//! multiset drawn from a catalog suffix, driven by a pruning callback.

use vstd::prelude::*;
use crate::ingredient::Ingredient;
use crate::attributes::PotionAttributes;
use crate::ratio::IngredientRatio;

verus! {

use vstd::multiset::Multiset;

/// One catalog entry: the ingredient and its optional availability cap.
pub type CatalogEntry = (Ingredient, Option<usize>);

/// Mathematical running totals of a selection: resources and senses,
/// free of machine-word bounds.
pub struct AttrTotals {
    pub a: int,
    pub b: int,
    pub c: int,
    pub d: int,
    pub e: int,
    pub taste: int,
    pub feel: int,
    pub sight: int,
    pub smell: int,
    pub sound: int,
}

impl AttrTotals {
    pub open spec fn mag_total(&self) -> int {
        self.a + self.b + self.c + self.d + self.e
    }
}

pub open spec fn totals_zero() -> AttrTotals {
    AttrTotals { a: 0, b: 0, c: 0, d: 0, e: 0, taste: 0, feel: 0, sight: 0, smell: 0, sound: 0 }
}

pub open spec fn totals_plus(x: AttrTotals, y: AttrTotals) -> AttrTotals {
    AttrTotals {
        a: x.a + y.a,
        b: x.b + y.b,
        c: x.c + y.c,
        d: x.d + y.d,
        e: x.e + y.e,
        taste: x.taste + y.taste,
        feel: x.feel + y.feel,
        sight: x.sight + y.sight,
        smell: x.smell + y.smell,
        sound: x.sound + y.sound,
    }
}

pub open spec fn ing_totals(i: Ingredient) -> AttrTotals {
    AttrTotals {
        a: i.magimins.a as int,
        b: i.magimins.b as int,
        c: i.magimins.c as int,
        d: i.magimins.d as int,
        e: i.magimins.e as int,
        taste: i.taste as int,
        feel: i.feel as int,
        sight: i.sight as int,
        smell: i.smell as int,
        sound: i.sound as int,
    }
}

pub open spec fn attr_totals(p: PotionAttributes) -> AttrTotals {
    AttrTotals {
        a: p.magimins.a as int,
        b: p.magimins.b as int,
        c: p.magimins.c as int,
        d: p.magimins.d as int,
        e: p.magimins.e as int,
        taste: p.taste as int,
        feel: p.feel as int,
        sight: p.sight as int,
        smell: p.smell as int,
        sound: p.sound as int,
    }
}

/// Every index of the selection points into the pool.
pub open spec fn sel_in_range(pool: Seq<CatalogEntry>, sel: Seq<usize>) -> bool {
    forall|k: int| 0 <= k < sel.len() ==> (#[trigger] sel[k]) < pool.len()
}

/// The selection's indices never decrease: the canonical form that
/// makes each multiset appear exactly once.
pub open spec fn sel_nondecreasing(sel: Seq<usize>) -> bool {
    forall|k: int| 0 <= k < sel.len() - 1 ==> (#[trigger] sel[k]) <= sel[k + 1]
}

/// Within a non-decreasing selection, earlier entries never exceed
/// later ones.
pub proof fn lemma_nondec_range(s: Seq<usize>, i: int, j: int)
    requires
        sel_nondecreasing(s),
        0 <= i <= j < s.len(),
    ensures
        s[i] <= s[j],
    decreases j - i,
{
    if i < j {
        lemma_nondec_range(s, i, j - 1);
    }
}

/// Each availability cap bounds how often its entry occurs in the
/// selection.
#[verifier::opaque]
pub open spec fn sel_within_caps(pool: Seq<CatalogEntry>, sel: Seq<usize>) -> bool {
    forall|i: usize| i < pool.len() ==> ((#[trigger] pool[i as int]).1 matches Some(c)
        ==> sel.to_multiset().count(i) <= c)
}

/// The judgement log: every selection submitted to the sink so far,
/// with the verdict the sink returned on it.
pub type JudgementLog = Seq<(Seq<usize>, bool)>;

#[verifier::opaque]
pub open spec fn log_has(log: JudgementLog, s: Seq<usize>) -> bool {
    exists|i: int| 0 <= i < log.len() && (#[trigger] log[i]).0 == s
}

#[verifier::opaque]
pub open spec fn log_cut(log: JudgementLog, s: Seq<usize>) -> bool {
    exists|i: int| 0 <= i < log.len() && (#[trigger] log[i]) == (s, false)
}

/// An extension the engine owes the sink from `start`: the mandatory
/// entry first, then only equal-or-later entries, non-decreasing,
/// within the size bound and every availability cap.
#[verifier::opaque]
pub open spec fn valid_extension(
    pool: Seq<CatalogEntry>,
    base: Seq<usize>,
    ext: Seq<usize>,
    start: int,
    max: int,
) -> bool {
    &&& 1 <= ext.len()
    &&& base.len() + ext.len() <= max
    &&& ext[0] as int == start
    &&& (forall|k: int| 0 <= k < ext.len() ==> start <= (#[trigger] ext[k]) as int
        && (ext[k] as int) < pool.len())
    &&& sel_nondecreasing(ext)
    &&& sel_within_caps(pool, ext)
}

/// The engine follows every owed extension to its end, unless the
/// sink cut the line at one of the extension's proper prefixes.
#[verifier::opaque]
pub open spec fn pursued(log: JudgementLog, base: Seq<usize>, ext: Seq<usize>) -> bool {
    ||| log_has(log, base + ext)
    ||| exists|j: int| 1 <= j < ext.len() && log_cut(log, base + #[trigger] ext.take(j))
}

pub proof fn lemma_log_index(l1: JudgementLog, l2: JudgementLog)
    requires
        l1.is_prefix_of(l2),
    ensures
        forall|i: int| 0 <= i < l1.len() ==> l2[i] == l1[i],
{
    assert forall|i: int| 0 <= i < l1.len() implies l2[i] == l1[i] by {
        assert(l1[i] == l2.subrange(0, l1.len() as int)[i]);
    }
}

pub proof fn lemma_log_has_grows(l1: JudgementLog, l2: JudgementLog, s: Seq<usize>)
    requires
        l1.is_prefix_of(l2),
        log_has(l1, s),
    ensures
        log_has(l2, s),
{
    reveal(log_has);
    lemma_log_index(l1, l2);
    let i = choose|i: int| 0 <= i < l1.len() && (#[trigger] l1[i]).0 == s;
    assert(l2[i].0 == s);
}

pub proof fn lemma_pursued_grows(l1: JudgementLog, l2: JudgementLog, base: Seq<usize>, ext: Seq<usize>)
    requires
        l1.is_prefix_of(l2),
        pursued(l1, base, ext),
    ensures
        pursued(l2, base, ext),
{
    reveal(pursued);
    reveal(log_cut);
    lemma_log_index(l1, l2);
    if log_has(l1, base + ext) {
        lemma_log_has_grows(l1, l2, base + ext);
    } else {
        let j = choose|j: int| 1 <= j < ext.len() && log_cut(l1, base + #[trigger] ext.take(j));
        let i = choose|i: int| 0 <= i < l1.len() && (#[trigger] l1[i]) == (base + ext.take(j), false);
        assert(l2[i] == (base + ext.take(j), false));
        assert(log_cut(l2, base + ext.take(j)));
    }
}

/// Pursuit from the middle of an extension is pursuit of the whole.
pub proof fn lemma_pursued_lift(
    log: JudgementLog,
    base: Seq<usize>,
    mid: Seq<usize>,
    ext: Seq<usize>,
    c: int,
)
    requires
        1 <= c < ext.len(),
        mid == base + ext.take(c),
        pursued(log, mid, ext.skip(c)),
    ensures
        pursued(log, base, ext),
{
    reveal(pursued);
    reveal(log_has);
    reveal(log_cut);
    let tail = ext.skip(c);
    assert(mid + tail =~= base + ext);
    if log_has(log, mid + tail) {
        assert(log_has(log, base + ext));
    } else {
        let j = choose|j: int| 1 <= j < tail.len() && log_cut(log, mid + #[trigger] tail.take(j));
        assert(mid + tail.take(j) =~= base + ext.take(c + j));
        assert(log_cut(log, base + ext.take(c + j)));
        assert(1 <= c + j < ext.len());
    }
}

/// The length of the leading run of `x` at the front of a selection.
pub open spec fn lead_len(ext: Seq<usize>, x: usize) -> int
    decreases ext.len(),
{
    if ext.len() == 0 || ext[0] != x {
        0
    } else {
        1 + lead_len(ext.drop_first(), x)
    }
}

pub proof fn lemma_lead_len(ext: Seq<usize>, x: usize)
    ensures
        0 <= lead_len(ext, x) <= ext.len(),
        forall|k: int| 0 <= k < lead_len(ext, x) ==> ext[k] == x,
        lead_len(ext, x) < ext.len() ==> ext[lead_len(ext, x)] != x,
    decreases ext.len(),
{
    if ext.len() > 0 && ext[0] == x {
        lemma_lead_len(ext.drop_first(), x);
        assert(forall|k: int| 1 <= k < ext.len() ==> ext[k] == ext.drop_first()[k - 1]);
    }
}

/// The leading run never exceeds the occurrence count.
pub proof fn lemma_lead_le_count(ext: Seq<usize>, x: usize)
    ensures
        lead_len(ext, x) <= ext.to_multiset().count(x),
    decreases ext.len(),
{
    broadcast use vstd::seq_lib::group_to_multiset_ensures;
    broadcast use vstd::multiset::group_multiset_axioms;

    if ext.len() > 0 && ext[0] == x {
        lemma_lead_le_count(ext.drop_first(), x);
        assert(ext.drop_first().push(x).to_multiset() =~= ext.drop_first().to_multiset().insert(
            x,
        ));
        vstd::seq_lib::lemma_multiset_commutative(seq![ext[0]], ext.drop_first());
        assert(ext =~= seq![ext[0]] + ext.drop_first());
        assert(seq![x].to_multiset() =~= Multiset::empty().insert(x)) by {
            assert(seq![x].drop_first() =~= Seq::<usize>::empty());
        }
        assert(ext.to_multiset().count(x) == 1 + ext.drop_first().to_multiset().count(x));
    }
}

/// Everything strictly below `x` contributes nothing to its count.
pub proof fn lemma_count_zero_below(s: Seq<usize>, x: usize)
    requires
        forall|k: int| 0 <= k < s.len() ==> (#[trigger] s[k]) < x,
    ensures
        s.to_multiset().count(x) == 0,
{
    broadcast use vstd::seq_lib::group_to_multiset_ensures;

    if s.to_multiset().count(x) > 0 {
        assert(s.contains(x));
        let k = choose|k: int| 0 <= k < s.len() && s[k] == x;
        assert(false);
    }
}

/// The empty selection is within every cap.
pub proof fn lemma_empty_caps(pool: Seq<CatalogEntry>, s: Seq<usize>)
    requires
        s.len() == 0,
    ensures
        sel_within_caps(pool, s),
{
    reveal(sel_within_caps);
    assert forall|i: usize| i < pool.len() implies ((#[trigger] pool[i as int]).1 matches Some(c)
        ==> s.to_multiset().count(i) <= c) by {
        lemma_count_zero_below(s, i);
    }
}

/// Counts after a push: the pushed entry gains one, others keep theirs.
pub proof fn lemma_count_push(s: Seq<usize>, x: usize)
    ensures
        s.push(x).to_multiset().count(x) == s.to_multiset().count(x) + 1,
        forall|y: usize| y != x ==> s.push(x).to_multiset().count(y) == s.to_multiset().count(y),
{
    broadcast use vstd::seq_lib::group_to_multiset_ensures;
    broadcast use vstd::multiset::group_multiset_axioms;

    assert(s.push(x).to_multiset() =~= s.to_multiset().insert(x));
}

/// Combined totals of the ingredients a selection picks.
pub open spec fn sum_sel(pool: Seq<CatalogEntry>, sel: Seq<usize>) -> AttrTotals
    decreases sel.len(),
{
    if sel.len() == 0 {
        totals_zero()
    } else {
        totals_plus(sum_sel(pool, sel.drop_last()), ing_totals(pool[sel.last() as int].0))
    }
}

/// Combined price of the ingredients a selection picks.
pub open spec fn sum_price(pool: Seq<CatalogEntry>, sel: Seq<usize>) -> int
    decreases sel.len(),
{
    if sel.len() == 0 {
        0
    } else {
        sum_price(pool, sel.drop_last()) + pool[sel.last() as int].0.price
    }
}

/// Sums split over concatenation.
pub proof fn lemma_sum_split(pool: Seq<CatalogEntry>, a: Seq<usize>, b: Seq<usize>)
    ensures
        sum_sel(pool, a + b) == totals_plus(sum_sel(pool, a), sum_sel(pool, b)),
        sum_price(pool, a + b) == sum_price(pool, a) + sum_price(pool, b),
    decreases b.len(),
{
    if b.len() == 0 {
        assert(a + b =~= a);
        assert(totals_plus(sum_sel(pool, a), sum_sel(pool, b)) == sum_sel(pool, a));
    } else {
        lemma_sum_split(pool, a, b.drop_last());
        assert((a + b).drop_last() =~= a + b.drop_last());
        assert((a + b).last() == b.last());
    }
}

/// A per-entry potency bound scales to the whole selection.
pub proof fn lemma_sum_mag_bounded(pool: Seq<CatalogEntry>, s: Seq<usize>, bound: int)
    requires
        sel_in_range(pool, s),
        forall|k: int| 0 <= k < s.len() ==> pool[(#[trigger] s[k]) as int].0.magimins.spec_total()
            <= bound,
        bound >= 0,
    ensures
        sum_sel(pool, s).mag_total() <= s.len() * bound,
    decreases s.len(),
{
    if s.len() == 0 {
        assert(0 * bound == 0) by (nonlinear_arith);
    } else {
        let p = s.drop_last();
        assert(p =~= s.subrange(0, s.len() - 1));
        lemma_subrange_in_range(pool, s, s.len() - 1);
        assert(forall|k: int| 0 <= k < p.len() ==> p[k] == s[k]);
        lemma_sum_mag_bounded(pool, p, bound);
        assert((s.len() - 1) * bound + bound == s.len() * bound) by (nonlinear_arith);
    }
}

/// What the engine asks of a catalog searched up to `max` ingredients:
/// well-formed entries, room to add `max` copies of any entry without
/// overflowing a machine word, and no zero availability cap.
pub open spec fn pool_ok(pool: Seq<CatalogEntry>, max: int) -> bool {
    forall|i: int| 0 <= i < pool.len() ==> {
        &&& (#[trigger] pool[i]).0.wf()
        &&& pool[i].0.magimins.spec_total() * max <= usize::MAX as int
        &&& pool[i].0.price * max <= usize::MAX as int
        &&& (pool[i].1 matches Some(c) ==> c >= 1)
    }
}

/// Totals of a selection of `n` entries, each bounded as `pool_ok`
/// demands, stay within `n` machine words, and each sensory total
/// within `n`.
pub proof fn lemma_sum_sel_scaled(pool: Seq<CatalogEntry>, sel: Seq<usize>, max: int)
    requires
        sel_in_range(pool, sel),
        pool_ok(pool, max),
        max >= 0,
    ensures
        0 <= sum_sel(pool, sel).a,
        0 <= sum_sel(pool, sel).b,
        0 <= sum_sel(pool, sel).c,
        0 <= sum_sel(pool, sel).d,
        0 <= sum_sel(pool, sel).e,
        sum_sel(pool, sel).mag_total() * max <= sel.len() * (usize::MAX as int),
        -(sel.len() as int) <= sum_sel(pool, sel).taste <= sel.len() as int,
        -(sel.len() as int) <= sum_sel(pool, sel).feel <= sel.len() as int,
        -(sel.len() as int) <= sum_sel(pool, sel).sight <= sel.len() as int,
        -(sel.len() as int) <= sum_sel(pool, sel).smell <= sel.len() as int,
        -(sel.len() as int) <= sum_sel(pool, sel).sound <= sel.len() as int,
        0 <= sum_price(pool, sel),
        sum_price(pool, sel) * max <= sel.len() * (usize::MAX as int),
    decreases sel.len(),
{
    if sel.len() > 0 {
        lemma_sum_sel_scaled(pool, sel.drop_last(), max);
        let prev = sum_sel(pool, sel.drop_last());
        let ing = pool[sel.last() as int].0;
        let n1 = sel.len() - 1;
        assert(sel.drop_last().len() == n1);
        assert(ing.wf() && ing.magimins.spec_total() * max <= usize::MAX as int
            && ing.price * max <= usize::MAX as int);
        assert((prev.mag_total() + ing_totals(ing).mag_total()) * max
            <= (n1 + 1) * (usize::MAX as int)) by (nonlinear_arith)
            requires
                prev.mag_total() * max <= n1 * (usize::MAX as int),
                ing_totals(ing).mag_total() * max <= usize::MAX as int,
                max >= 0,
                n1 >= 0,
        ;
        assert((sum_price(pool, sel.drop_last()) + ing.price) * max
            <= (n1 + 1) * (usize::MAX as int)) by (nonlinear_arith)
            requires
                sum_price(pool, sel.drop_last()) * max <= n1 * (usize::MAX as int),
                ing.price * max <= usize::MAX as int,
                max >= 0,
                n1 >= 0,
        ;
        assert(sum_sel(pool, sel) == totals_plus(prev, ing_totals(ing)));
        assert(sel.len() as int == n1 + 1);
    } else {
        assert(sum_sel(pool, sel).mag_total() == 0);
        assert(sum_price(pool, sel) == 0);
        assert(0 * max == 0 && 0 * (usize::MAX as int) == 0) by (nonlinear_arith);
        assert(sel.len() * (usize::MAX as int) == 0) by (nonlinear_arith)
            requires
                sel.len() == 0,
        ;
    }
}

/// From the scaled bound: once the selection holds at most `max`
/// entries, its combined resource total and price each fit a word.
pub proof fn lemma_sum_sel_fits(pool: Seq<CatalogEntry>, sel: Seq<usize>, max: int)
    requires
        sel_in_range(pool, sel),
        pool_ok(pool, max),
        max >= 1,
        sel.len() <= max,
    ensures
        0 <= sum_sel(pool, sel).mag_total() <= usize::MAX as int,
        0 <= sum_sel(pool, sel).a <= usize::MAX as int,
        0 <= sum_sel(pool, sel).b <= usize::MAX as int,
        0 <= sum_sel(pool, sel).c <= usize::MAX as int,
        0 <= sum_sel(pool, sel).d <= usize::MAX as int,
        0 <= sum_sel(pool, sel).e <= usize::MAX as int,
        -(max as int) <= sum_sel(pool, sel).taste <= max as int,
        -(max as int) <= sum_sel(pool, sel).feel <= max as int,
        -(max as int) <= sum_sel(pool, sel).sight <= max as int,
        -(max as int) <= sum_sel(pool, sel).smell <= max as int,
        -(max as int) <= sum_sel(pool, sel).sound <= max as int,
        0 <= sum_price(pool, sel) <= usize::MAX as int,
{
    lemma_sum_sel_scaled(pool, sel, max);
    let s = sum_sel(pool, sel);
    let m = usize::MAX as int;
    assert(s.mag_total() <= m) by (nonlinear_arith)
        requires
            s.mag_total() * max <= sel.len() * m,
            sel.len() <= max,
            max >= 1,
            m >= 0,
    ;
    assert(sum_price(pool, sel) <= m) by (nonlinear_arith)
        requires
            sum_price(pool, sel) * max <= sel.len() * m,
            sel.len() <= max,
            max >= 1,
            m >= 0,
            sum_price(pool, sel) >= 0,
    ;
}

/// The per-branch judgement a solver strategy supplies to the engine.
///
/// The engine hands the callback every selection it forms, together
/// with totals that are guaranteed to be the sums over the selection;
/// the callback answers whether the current line is worth extending.
pub trait BranchSink: Sized {
    /// The strategy's own invariant over its accumulated state.
    spec fn inv(&self) -> bool;

    /// The judgement log: every selection this strategy was asked to
    /// judge, with the verdict it returned, in order.
    spec fn log(&self) -> JudgementLog;

    /// The size bound the strategy was built for.
    spec fn limit(&self) -> int;

    /// The strategy's fixed configuration — the target profile, the
    /// catalog it judges against, and the score it was seeded with —
    /// which every callback leaves as it found it.
    spec fn config(&self) -> (IngredientRatio, Seq<CatalogEntry>, Option<u128>);

    /// What the strategy assumes of the catalog it searches.
    spec fn pool_inv(&self, pool: Seq<CatalogEntry>) -> bool;

    /// Judge the selection `sel` (never empty, within the size bound,
    /// with `acc` equal to its combined totals).  Returning `false`
    /// abandons the current line; siblings still proceed.
    fn continue_branch(
        &mut self,
        pool: &Vec<CatalogEntry>,
        sel: &Vec<usize>,
        acc: &PotionAttributes,
    ) -> (cont: bool)
        requires
            old(self).inv(),
            old(self).pool_inv(pool@),
            0 < sel@.len() <= old(self).limit(),
            sel_in_range(pool@, sel@),
            sel_nondecreasing(sel@),
            sel_within_caps(pool@, sel@),
            attr_totals(*acc) == sum_sel(pool@, sel@),
        ensures
            final(self).inv(),
            final(self).limit() == old(self).limit(),
            final(self).config() == old(self).config(),
            final(self).pool_inv(pool@) == old(self).pool_inv(pool@),
            final(self).log() == old(self).log().push((sel@, cont)),
    ;
}

/// An exact copy of a selection, element for element.
pub fn copy_indices(sel: &Vec<usize>) -> (out: Vec<usize>)
    ensures
        out@ == sel@,
{
    let mut out: Vec<usize> = Vec::new();
    let mut i: usize = 0;
    while i < sel.len()
        invariant
            i <= sel@.len(),
            out@ == sel@.subrange(0, i as int),
        decreases sel@.len() - i,
    {
        out.push(sel[i]);
        proof {
            assert(out@ =~= sel@.subrange(0, i + 1));
        }
        i = i + 1;
    }
    proof {
        assert(out@ =~= sel@);
    }
    out
}

/// The combined price of the ingredients a selection picks.
pub fn selection_price(pool: &Vec<CatalogEntry>, sel: &Vec<usize>, max: usize) -> (r: usize)
    requires
        pool_ok(pool@, max as int),
        sel_in_range(pool@, sel@),
        sel@.len() <= max,
        max >= 1,
    ensures
        r as int == sum_price(pool@, sel@),
{
    let mut total: usize = 0;
    let mut i: usize = 0;
    while i < sel.len()
        invariant
            i <= sel@.len(),
            sel@.len() <= max,
            max >= 1,
            pool_ok(pool@, max as int),
            sel_in_range(pool@, sel@),
            total as int == sum_price(pool@, sel@.subrange(0, i as int)),
        decreases sel@.len() - i,
    {
        proof {
            assert(sel@.subrange(0, i + 1).drop_last() =~= sel@.subrange(0, i as int));
            assert(sel@.subrange(0, i + 1).len() == i + 1);
            lemma_subrange_in_range(pool@, sel@, i + 1);
            lemma_sum_sel_fits(pool@, sel@.subrange(0, i + 1), max as int);
        }
        total = total + pool[sel[i]].0.price;
        i = i + 1;
    }
    proof {
        assert(sel@.subrange(0, sel@.len() as int) =~= sel@);
    }
    total
}

/// A prefix of an in-range selection is in range.
pub proof fn lemma_subrange_in_range(pool: Seq<CatalogEntry>, sel: Seq<usize>, n: int)
    requires
        sel_in_range(pool, sel),
        0 <= n <= sel.len(),
    ensures
        sel_in_range(pool, sel.subrange(0, n)),
{
    assert forall|k: int| 0 <= k < n implies (#[trigger] sel.subrange(0, n)[k]) < pool.len() by {
        assert(sel.subrange(0, n)[k] == sel[k]);
    }
}

/// Pushing one more copy of `x` stays within the caps while its count
/// stays below its cap.
proof fn lemma_caps_push(pool: Seq<CatalogEntry>, s: Seq<usize>, x: usize, n: int)
    requires
        sel_within_caps(pool, s),
        s.to_multiset().count(x) == n,
        (x as int) < pool.len(),
        pool[x as int].1 matches Some(c) ==> n + 1 <= c,
    ensures
        sel_within_caps(pool, s.push(x)),
        s.push(x).to_multiset().count(x) == n + 1,
{
    reveal(sel_within_caps);
    lemma_count_push(s, x);
    assert forall|i: usize| i < pool.len() implies ((#[trigger] pool[i as int]).1 matches Some(c)
        ==> s.push(x).to_multiset().count(i) <= c) by {
        match pool[i as int].1 {
            Some(c) => {
                if i == x {
                    assert(s.push(x).to_multiset().count(i) == n + 1);
                } else {
                    assert(s.push(x).to_multiset().count(i) == s.to_multiset().count(i));
                }
            },
            None => {},
        }
    }
}

/// One more mandatory copy: the pushed selection keeps every
/// structural invariant of the run.
proof fn lemma_run_step(
    pool: Seq<CatalogEntry>,
    base: Seq<usize>,
    cur: Seq<usize>,
    start: usize,
    copies: int,
)
    requires
        (start as int) < pool.len(),
        copies >= 0,
        cur.len() == base.len() + copies,
        cur.subrange(0, base.len() as int) == base,
        forall|k: int| base.len() <= k < cur.len() ==> cur[k] == start,
        sel_in_range(pool, cur),
        sel_nondecreasing(cur),
        cur.len() > 0 ==> cur.last() <= start,
    ensures
        sel_nondecreasing(cur.push(start)),
        sel_in_range(pool, cur.push(start)),
        cur.push(start).subrange(0, base.len() as int) == base,
        forall|k: int| base.len() <= k < cur.push(start).len() ==> cur.push(start)[k] == start,
        cur.push(start).last() == start,
        cur.push(start).drop_last() == cur,
{
    let p = cur.push(start);
    assert(p.drop_last() =~= cur);
    assert forall|k: int| 0 <= k < p.len() - 1 implies (#[trigger] p[k]) <= p[k + 1] by {
        if k < cur.len() - 1 {
            assert(cur[k] <= cur[k + 1]);
        } else {
            assert(p[k] == cur.last() && p[k + 1] == start);
        }
    }
    assert(p.subrange(0, base.len() as int) =~= base);
}

/// The shape of the engine's working selection at a return point: the
/// caller's base plus a run of mandatory copies.
pub open spec fn run_shape(base: Seq<usize>, cur: Seq<usize>, start: usize, copies: int) -> bool {
    &&& 1 <= copies
    &&& cur.len() == base.len() + copies
    &&& cur.subrange(0, base.len() as int) == base
    &&& (forall|k: int| base.len() <= k < cur.len() ==> cur[k] == start)
}

pub proof fn lemma_prefix_trans(l1: JudgementLog, l2: JudgementLog, l3: JudgementLog)
    requires
        l1.is_prefix_of(l2),
        l2.is_prefix_of(l3),
    ensures
        l1.is_prefix_of(l3),
{
    lemma_log_index(l1, l2);
    lemma_log_index(l2, l3);
    assert(l1 =~= l3.subrange(0, l1.len() as int));
}

/// A pursued-family survives log growth.
proof fn lemma_family_grows(
    pool: Seq<CatalogEntry>,
    base: Seq<usize>,
    start: usize,
    max: int,
    bound: int,
    l1: JudgementLog,
    l2: JudgementLog,
)
    requires
        l1.is_prefix_of(l2),
        forall|ext: Seq<usize>| #[trigger] valid_extension(pool, base, ext, start as int, max)
            && lead_len(ext, start) <= bound ==> pursued(l1, base, ext),
    ensures
        forall|ext: Seq<usize>| #[trigger] valid_extension(pool, base, ext, start as int, max)
            && lead_len(ext, start) <= bound ==> pursued(l2, base, ext),
{
    assert forall|ext: Seq<usize>|
        #[trigger] valid_extension(pool, base, ext, start as int, max) && lead_len(ext, start)
            <= bound implies pursued(l2, base, ext) by {
        lemma_pursued_grows(l1, l2, base, ext);
    }
}

/// The suffix family survives log growth.
proof fn lemma_family2_grows(
    pool: Seq<CatalogEntry>,
    base: Seq<usize>,
    start: usize,
    max: int,
    copies: int,
    s2: int,
    l1: JudgementLog,
    l2: JudgementLog,
)
    requires
        l1.is_prefix_of(l2),
        forall|ext: Seq<usize>| #[trigger] valid_extension(pool, base, ext, start as int, max)
            && lead_len(ext, start) == copies && ext.len() > copies
            && ext[copies] as int > s2 ==> pursued(l1, base, ext),
    ensures
        forall|ext: Seq<usize>| #[trigger] valid_extension(pool, base, ext, start as int, max)
            && lead_len(ext, start) == copies && ext.len() > copies
            && ext[copies] as int > s2 ==> pursued(l2, base, ext),
{
    assert forall|ext: Seq<usize>|
        #[trigger] valid_extension(pool, base, ext, start as int, max) && lead_len(ext, start)
            == copies && ext.len() > copies && ext[copies] as int > s2 implies pursued(
        l2,
        base,
        ext,
    ) by {
        lemma_pursued_grows(l1, l2, base, ext);
    }
}

/// When the sink cuts the line at the current run, every owed
/// extension is pursued: shorter leads were covered before, and any
/// longer one was cut at this very prefix.
proof fn lemma_cover_after_cut(
    pool: Seq<CatalogEntry>,
    base: Seq<usize>,
    start: usize,
    max: int,
    copies: int,
    log: JudgementLog,
    cur: Seq<usize>,
)
    requires
        run_shape(base, cur, start, copies),
        log_has(log, cur),
        log_cut(log, cur),
        forall|ext: Seq<usize>| #[trigger] valid_extension(pool, base, ext, start as int, max)
            && lead_len(ext, start) <= copies - 1 ==> pursued(log, base, ext),
    ensures
        forall|ext: Seq<usize>| #[trigger] valid_extension(pool, base, ext, start as int, max)
            ==> pursued(log, base, ext),
{
    assert forall|ext: Seq<usize>|
        #[trigger] valid_extension(pool, base, ext, start as int, max) implies pursued(
        log,
        base,
        ext,
    ) by {
        reveal(valid_extension);
        reveal(pursued);
        reveal(log_has);
        reveal(log_cut);
        lemma_lead_len(ext, start);
        let ld = lead_len(ext, start);
        if ld > copies - 1 {
            assert(base + ext.take(copies) =~= cur);
            if ext.len() == copies {
                assert(ext.take(copies) =~= ext);
                assert(log_has(log, base + ext));
            } else {
                assert(1 <= copies < ext.len());
            }
        }
    }
}

/// When the run has filled the size bound, every owed extension is
/// pursued: nothing longer than the run itself is owed.
proof fn lemma_cover_at_max(
    pool: Seq<CatalogEntry>,
    base: Seq<usize>,
    start: usize,
    max: int,
    copies: int,
    log: JudgementLog,
    cur: Seq<usize>,
)
    requires
        run_shape(base, cur, start, copies),
        base.len() + copies == max,
        log_has(log, cur),
        forall|ext: Seq<usize>| #[trigger] valid_extension(pool, base, ext, start as int, max)
            && lead_len(ext, start) <= copies - 1 ==> pursued(log, base, ext),
    ensures
        forall|ext: Seq<usize>| #[trigger] valid_extension(pool, base, ext, start as int, max)
            ==> pursued(log, base, ext),
{
    assert forall|ext: Seq<usize>|
        #[trigger] valid_extension(pool, base, ext, start as int, max) implies pursued(
        log,
        base,
        ext,
    ) by {
        reveal(valid_extension);
        reveal(pursued);
        reveal(log_has);
        lemma_lead_len(ext, start);
        let ld = lead_len(ext, start);
        if ld > copies - 1 {
            assert(ext.len() <= copies);
            assert(ld == copies && ext.len() == copies);
            assert(base + ext.take(copies) =~= cur);
            assert(ext.take(copies) =~= ext);
            assert(log_has(log, base + ext));
        }
    }
}

/// A sub-call that handled every extension of the run from `s2`
/// covers, from the caller's viewpoint, the owed extensions whose
/// entry after the run is exactly `s2`.
proof fn lemma_cover_suffix(
    pool: Seq<CatalogEntry>,
    base: Seq<usize>,
    start: usize,
    max: int,
    copies: int,
    s2: usize,
    log: JudgementLog,
    cur: Seq<usize>,
)
    requires
        run_shape(base, cur, start, copies),
        start < s2,
        forall|ext2: Seq<usize>| #[trigger] valid_extension(pool, cur, ext2, s2 as int, max)
            ==> pursued(log, cur, ext2),
    ensures
        forall|ext: Seq<usize>| #[trigger] valid_extension(pool, base, ext, start as int, max)
            && lead_len(ext, start) == copies && ext.len() > copies
            && ext[copies] as int == s2 as int ==> pursued(log, base, ext),
{
    assert forall|ext: Seq<usize>|
        #[trigger] valid_extension(pool, base, ext, start as int, max) && lead_len(ext, start)
            == copies && ext.len() > copies && ext[copies] as int == s2 as int implies pursued(
        log,
        base,
        ext,
    ) by {
        reveal(valid_extension);
        lemma_lead_len(ext, start);
        let e2 = ext.skip(copies);
        assert(e2.len() == ext.len() - copies);
        assert(forall|k: int| 0 <= k < e2.len() ==> e2[k] == ext[copies + k]);
        assert(e2[0] == ext[copies]);
        assert forall|k: int| 0 <= k < e2.len() implies s2 as int <= (#[trigger] e2[k]) as int
            && (e2[k] as int) < pool.len() by {
            lemma_nondec_range(ext, copies, copies + k);
        }
        assert(sel_nondecreasing(e2)) by {
            assert forall|k: int| 0 <= k < e2.len() - 1 implies (#[trigger] e2[k]) <= e2[k + 1] by {
                assert(e2[k] == ext[copies + k] && e2[k + 1] == ext[copies + k + 1]);
            }
        }
        assert(sel_within_caps(pool, e2)) by {
            reveal(sel_within_caps);
            vstd::seq_lib::lemma_multiset_commutative(ext.take(copies), e2);
            assert(ext.take(copies) + e2 =~= ext);
            broadcast use vstd::multiset::group_multiset_axioms;

            assert forall|i: usize| i < pool.len() implies ((#[trigger] pool[i as int]).1
                matches Some(c) ==> e2.to_multiset().count(i) <= c) by {
                assert(ext.to_multiset().count(i) == ext.take(copies).to_multiset().count(i)
                    + e2.to_multiset().count(i));
            }
        }
        assert(valid_extension(pool, cur, e2, s2 as int, max));
        assert(cur =~= base + ext.take(copies));
        lemma_pursued_lift(log, base, cur, ext, copies);
    }
}

/// After the run and all its suffix sub-calls, every owed extension
/// with a lead of at most `copies` is pursued.
proof fn lemma_cover_next(
    pool: Seq<CatalogEntry>,
    base: Seq<usize>,
    start: usize,
    max: int,
    copies: int,
    log: JudgementLog,
    cur: Seq<usize>,
)
    requires
        run_shape(base, cur, start, copies),
        log_has(log, cur),
        forall|ext: Seq<usize>| #[trigger] valid_extension(pool, base, ext, start as int, max)
            && lead_len(ext, start) <= copies - 1 ==> pursued(log, base, ext),
        forall|ext: Seq<usize>| #[trigger] valid_extension(pool, base, ext, start as int, max)
            && lead_len(ext, start) == copies && ext.len() > copies
            && ext[copies] as int > start as int ==> pursued(log, base, ext),
    ensures
        forall|ext: Seq<usize>| #[trigger] valid_extension(pool, base, ext, start as int, max)
            && lead_len(ext, start) <= copies ==> pursued(log, base, ext),
{
    assert forall|ext: Seq<usize>|
        #[trigger] valid_extension(pool, base, ext, start as int, max) && lead_len(ext, start)
            <= copies implies pursued(log, base, ext) by {
        reveal(valid_extension);
        reveal(pursued);
        reveal(log_has);
        lemma_lead_len(ext, start);
        let ld = lead_len(ext, start);
        if ld == copies {
            if ext.len() == copies {
                assert(base + ext.take(copies) =~= cur);
                assert(ext.take(copies) =~= ext);
                assert(log_has(log, base + ext));
            } else {
                assert(ext[copies] != start);
                assert(ext[copies] as int >= start as int);
            }
        }
    }
}

/// Enumerates every admissible extension of `sel` that uses at least
/// one copy of the mandatory entry at `start`, up to `max_ingredients`
/// in total, calling the sink after every single append.  Recursing
/// over every suffix of the pool after the mandatory copies is the
/// deduplication scheme: it is designed to form each distinct multiset
/// over the catalog suffix once, in canonical order.
#[verifier::rlimit(100)]
#[verifier::spinoff_prover]
pub fn enumerate<S: BranchSink>(
    pool: &Vec<CatalogEntry>,
    start: usize,
    max_ingredients: usize,
    sel: &mut Vec<usize>,
    acc: PotionAttributes,
    sink: &mut S,
)
    requires
        start <= pool@.len(),
        pool_ok(pool@, max_ingredients as int),
        max_ingredients as int <= isize::MAX as int,
        old(sel)@.len() < max_ingredients,
        max_ingredients as int <= old(sink).limit(),
        sel_in_range(pool@, old(sel)@),
        sel_nondecreasing(old(sel)@),
        sel_within_caps(pool@, old(sel)@),
        old(sel)@.len() > 0 ==> old(sel)@.last() < start,
        attr_totals(acc) == sum_sel(pool@, old(sel)@),
        old(sink).inv(),
        old(sink).pool_inv(pool@),
    ensures
        final(sink).inv(),
        final(sink).pool_inv(pool@),
        final(sink).limit() == old(sink).limit(),
        final(sink).config() == old(sink).config(),
        final(sel)@.len() >= old(sel)@.len(),
        final(sel)@.subrange(0, old(sel)@.len() as int) == old(sel)@,
        sel_in_range(pool@, final(sel)@),
        sel_nondecreasing(final(sel)@),
        old(sink).log().is_prefix_of(final(sink).log()),
        forall|ext: Seq<usize>| #[trigger] valid_extension(
            pool@,
            old(sel)@,
            ext,
            start as int,
            max_ingredients as int,
        ) ==> pursued(final(sink).log(), old(sel)@, ext),
    decreases max_ingredients - old(sel)@.len(),
{
    proof {
        assert(sink.log().is_prefix_of(sink.log())) by {
            assert(sink.log() =~= sink.log().subrange(0, sink.log().len() as int));
        }
    }
    if start >= pool.len() {
        proof {
            assert forall|ext: Seq<usize>|
                #[trigger] valid_extension(
                    pool@,
                    old(sel)@,
                    ext,
                    start as int,
                    max_ingredients as int,
                ) implies pursued(sink.log(), old(sel)@, ext) by {
                reveal(valid_extension);
                assert((ext[0] as int) < pool@.len());
            }
        }
        return;
    }
    let ghost entry_len = sel@.len();
    let mut acc = acc;
    let budget = max_ingredients - sel.len();
    let cap_opt = pool[start].1;
    let max_copies = match cap_opt {
        Some(c) => if c < budget {
            c
        } else {
            budget
        },
        None => budget,
    };
    assert(max_copies >= 1);
    proof {
        if sel@.len() > 0 {
            assert forall|k: int| 0 <= k < sel@.len() implies (#[trigger] sel@[k]) < start by {
                lemma_nondec_range(sel@, k, sel@.len() - 1);
            }
        }
        lemma_count_zero_below(sel@, start);
        assert forall|ext: Seq<usize>|
            #[trigger] valid_extension(
                pool@,
                old(sel)@,
                ext,
                start as int,
                max_ingredients as int,
            ) && lead_len(ext, start) <= 0 implies pursued(sink.log(), old(sel)@, ext) by {
            reveal(valid_extension);
            assert(ext[0] == start);
            assert(lead_len(ext, start) == 1 + lead_len(ext.drop_first(), start));
            lemma_lead_len(ext.drop_first(), start);
        }
    }
    let mut copies: usize = 0;
    while copies < max_copies
        invariant
            start < pool@.len(),
            pool_ok(pool@, max_ingredients as int),
            max_ingredients as int <= isize::MAX as int,
            max_ingredients as int <= sink.limit(),
            sink.limit() == old(sink).limit(),
            sink.config() == old(sink).config(),
            copies <= max_copies,
            max_copies <= max_ingredients - entry_len,
            entry_len < max_ingredients,
            entry_len == old(sel)@.len(),
            pool@[start as int].1 matches Some(c) ==> max_copies <= c,
            sel@.len() == entry_len + copies,
            sel@.subrange(0, entry_len as int) == old(sel)@,
            forall|k: int| entry_len <= k < sel@.len() ==> sel@[k] == start,
            sel@.to_multiset().count(start) == copies,
            sel_in_range(pool@, sel@),
            sel_nondecreasing(sel@),
            sel_within_caps(pool@, sel@),
            sel@.len() > 0 ==> sel@.last() <= start,
            attr_totals(acc) == sum_sel(pool@, sel@),
            sink.inv(),
            sink.pool_inv(pool@),
            old(sink).log().is_prefix_of(sink.log()),
            forall|ext: Seq<usize>| #[trigger] valid_extension(
                pool@,
                old(sel)@,
                ext,
                start as int,
                max_ingredients as int,
            ) && lead_len(ext, start) <= copies ==> pursued(sink.log(), old(sel)@, ext),
        decreases max_copies - copies,
    {
        let ghost log0 = sink.log();
        proof {
            lemma_sum_sel_fits(pool@, sel@, max_ingredients as int);
            lemma_sum_sel_fits(pool@, sel@.push(start), max_ingredients as int);
            lemma_run_step(pool@, old(sel)@, sel@, start, copies as int);
            lemma_caps_push(pool@, sel@, start, copies as int);
        }
        sel.push(start);
        acc = acc.add_ingredient(&pool[start].0);
        copies = copies + 1;
        let cont = sink.continue_branch(pool, sel, &acc);
        proof {
            assert(log0.is_prefix_of(sink.log())) by {
                assert(log0 =~= sink.log().subrange(0, log0.len() as int));
            }
            lemma_prefix_trans(old(sink).log(), log0, sink.log());
            assert(sink.log()[sink.log().len() - 1] == (sel@, cont));
            assert(log_has(sink.log(), sel@)) by {
                reveal(log_has);
            }
            assert(run_shape(old(sel)@, sel@, start, copies as int));
            lemma_family_grows(
                pool@,
                old(sel)@,
                start,
                max_ingredients as int,
                copies - 1,
                log0,
                sink.log(),
            );
        }
        if !cont {
            proof {
                assert(log_cut(sink.log(), sel@)) by {
                    reveal(log_cut);
                    assert(sink.log()[sink.log().len() - 1] == (sel@, false));
                }
                lemma_cover_after_cut(
                    pool@,
                    old(sel)@,
                    start,
                    max_ingredients as int,
                    copies as int,
                    sink.log(),
                    sel@,
                );
            }
            return;
        }
        if sel.len() >= max_ingredients {
            proof {
                lemma_cover_at_max(
                    pool@,
                    old(sel)@,
                    start,
                    max_ingredients as int,
                    copies as int,
                    sink.log(),
                    sel@,
                );
            }
            return;
        }
        let base_len = sel.len();
        let ghost base_view = sel@;
        let mut s2 = pool.len();
        proof {
            assert forall|ext: Seq<usize>|
                #[trigger] valid_extension(
                    pool@,
                    old(sel)@,
                    ext,
                    start as int,
                    max_ingredients as int,
                ) && lead_len(ext, start) == copies && ext.len() > copies
                && ext[copies as int] as int > s2 as int implies pursued(
                sink.log(),
                old(sel)@,
                ext,
            ) by {
                reveal(valid_extension);
                assert((ext[copies as int] as int) < pool@.len());
            }
        }
        while s2 > start
            invariant
                start < pool@.len(),
                start <= s2 <= pool@.len(),
                pool_ok(pool@, max_ingredients as int),
                max_ingredients as int <= isize::MAX as int,
                max_ingredients as int <= sink.limit(),
                sink.limit() == old(sink).limit(),
                sink.config() == old(sink).config(),
                base_len < max_ingredients,
                base_len == base_view.len(),
                base_len > old(sel)@.len(),
                base_view.subrange(0, old(sel)@.len() as int) == old(sel)@,
                run_shape(old(sel)@, base_view, start, copies as int),
                copies >= 1,
                sel@ == base_view,
                sel_in_range(pool@, sel@),
                sel_nondecreasing(sel@),
                sel_within_caps(pool@, sel@),
                sel@.to_multiset().count(start) == copies,
                sel@.last() == start,
                attr_totals(acc) == sum_sel(pool@, sel@),
                sink.inv(),
                sink.pool_inv(pool@),
                old(sink).log().is_prefix_of(sink.log()),
                log_has(sink.log(), base_view),
                forall|ext: Seq<usize>| #[trigger] valid_extension(
                    pool@,
                    old(sel)@,
                    ext,
                    start as int,
                    max_ingredients as int,
                ) && lead_len(ext, start) <= copies - 1 ==> pursued(sink.log(), old(sel)@, ext),
                forall|ext: Seq<usize>| #[trigger] valid_extension(
                    pool@,
                    old(sel)@,
                    ext,
                    start as int,
                    max_ingredients as int,
                ) && lead_len(ext, start) == copies && ext.len() > copies
                    && ext[copies as int] as int > s2 as int ==> pursued(
                    sink.log(),
                    old(sel)@,
                    ext,
                ),
            decreases s2,
        {
            let ghost ilog = sink.log();
            enumerate(pool, s2, max_ingredients, sel, acc, sink);
            sel.truncate(base_len);
            proof {
                assert(sel@ =~= base_view);
                lemma_prefix_trans(old(sink).log(), ilog, sink.log());
                lemma_log_has_grows(ilog, sink.log(), base_view);
                lemma_family_grows(
                    pool@,
                    old(sel)@,
                    start,
                    max_ingredients as int,
                    copies - 1,
                    ilog,
                    sink.log(),
                );
                lemma_family2_grows(
                    pool@,
                    old(sel)@,
                    start,
                    max_ingredients as int,
                    copies as int,
                    s2 as int,
                    ilog,
                    sink.log(),
                );
                lemma_cover_suffix(
                    pool@,
                    old(sel)@,
                    start,
                    max_ingredients as int,
                    copies as int,
                    s2,
                    sink.log(),
                    base_view,
                );
                assert forall|ext: Seq<usize>|
                    #[trigger] valid_extension(
                        pool@,
                        old(sel)@,
                        ext,
                        start as int,
                        max_ingredients as int,
                    ) && lead_len(ext, start) == copies && ext.len() > copies
                    && ext[copies as int] as int > s2 as int - 1 implies pursued(
                    sink.log(),
                    old(sel)@,
                    ext,
                ) by {
                    if ext[copies as int] as int == s2 as int {
                    } else {
                        assert(ext[copies as int] as int > s2 as int);
                    }
                }
            }
            s2 = s2 - 1;
        }
        proof {
            lemma_cover_next(
                pool@,
                old(sel)@,
                start,
                max_ingredients as int,
                copies as int,
                sink.log(),
                base_view,
            );
        }
    }
    proof {
        assert forall|ext: Seq<usize>|
            #[trigger] valid_extension(
                pool@,
                old(sel)@,
                ext,
                start as int,
                max_ingredients as int,
            ) implies pursued(sink.log(), old(sel)@, ext) by {
            reveal(valid_extension);
            reveal(sel_within_caps);
            lemma_lead_len(ext, start);
            lemma_lead_le_count(ext, start);
            match pool@[start as int].1 {
                Some(c) => {
                    assert(ext.to_multiset().count(start) <= c);
                },
                None => {},
            }
            assert(lead_len(ext, start) <= max_copies);
        }
    }
}

/// A strategy that records every selection the engine forms and never
/// abandons a line: raw enumeration.
pub struct SelectionCollector {
    pub selections: Vec<Vec<usize>>,
    pub bound: usize,
    pub gpool: Ghost<Seq<CatalogEntry>>,
}

/// A collector judges everything worth continuing, so its log is its
/// selections, every verdict `true`.
pub open spec fn collector_log(selections: Seq<Vec<usize>>) -> JudgementLog {
    selections.map_values(|v: Vec<usize>| (v@, true))
}

impl BranchSink for SelectionCollector {
    open spec fn inv(&self) -> bool {
        forall|k: int| 0 <= k < self.selections@.len() ==> {
            &&& 1 <= (#[trigger] self.selections@[k])@.len() <= self.bound
            &&& sel_in_range(self.gpool@, self.selections@[k]@)
            &&& sel_nondecreasing(self.selections@[k]@)
        }
    }

    open spec fn log(&self) -> JudgementLog {
        collector_log(self.selections@)
    }

    open spec fn limit(&self) -> int {
        self.bound as int
    }

    open spec fn config(&self) -> (IngredientRatio, Seq<CatalogEntry>, Option<u128>) {
        (
            IngredientRatio {
                magimins: crate::magimins::Magimins { a: 0, b: 0, c: 0, d: 0, e: 0 },
                taste: 0,
                feel: 0,
                sight: 0,
                smell: 0,
                sound: 0,
                count: self.bound,
                min: 0,
                max: 0,
                price: 0,
            },
            self.gpool@,
            None,
        )
    }

    open spec fn pool_inv(&self, pool: Seq<CatalogEntry>) -> bool {
        pool == self.gpool@
    }

    fn continue_branch(
        &mut self,
        _pool: &Vec<CatalogEntry>,
        sel: &Vec<usize>,
        _acc: &PotionAttributes,
    ) -> (cont: bool) {
        let copy = copy_indices(sel);
        self.selections.push(copy);
        proof {
            assert(collector_log(self.selections@) =~= collector_log(
                old(self).selections@,
            ).push((sel@, true)));
        }
        true
    }
}

/// A whole canonical selection is an owed extension of the empty base
/// from its own first entry.
pub proof fn lemma_whole_is_extension(pool: Seq<CatalogEntry>, s: Seq<usize>, offset: usize, max: int)
    requires
        1 <= s.len() <= max,
        sel_in_range(pool, s),
        sel_nondecreasing(s),
        sel_within_caps(pool, s),
        s[0] == offset,
    ensures
        valid_extension(pool, Seq::empty(), s, offset as int, max),
{
    reveal(valid_extension);
    assert forall|k: int| 0 <= k < s.len() implies offset as int <= (#[trigger] s[k]) as int && (
    s[k] as int) < pool.len() by {
        lemma_nondec_range(s, 0, k);
    }
}

/// A collector cuts nothing, so a pursued selection is in its log.
proof fn lemma_collector_covers(selections: Seq<Vec<usize>>, s: Seq<usize>)
    requires
        s.len() >= 1,
        pursued(collector_log(selections), Seq::empty(), s),
    ensures
        exists|k: int| 0 <= k < selections.len() && (#[trigger] selections[k])@ == s,
{
    reveal(pursued);
    reveal(log_has);
    reveal(log_cut);
    let log = collector_log(selections);
    assert(forall|i: int| 0 <= i < log.len() ==> (#[trigger] log[i]).1 == true);
    if log_has(log, Seq::empty() + s) {
        let i = choose|i: int| 0 <= i < log.len() && (#[trigger] log[i]).0 == Seq::empty() + s;
        assert(Seq::empty() + s =~= s);
        assert(selections[i]@ == s);
    } else {
        let j = choose|j: int|
            1 <= j < s.len() && log_cut(log, Seq::empty() + #[trigger] s.take(j));
        let i = choose|i: int|
            0 <= i < log.len() && (#[trigger] log[i]) == (Seq::empty() + s.take(j), false);
        assert(false);
    }
}

/// Every non-empty multiset of at most `max_ingredients` entries that
/// the engine forms over the whole catalog, one run per starting
/// offset, in the order the engine visits them.
pub fn enumerate_all(pool: &Vec<CatalogEntry>, max_ingredients: usize) -> (out: Vec<Vec<usize>>)
    requires
        pool_ok(pool@, max_ingredients as int),
        max_ingredients as int <= isize::MAX as int,
    ensures
        forall|k: int| 0 <= k < out@.len() ==> {
            &&& 1 <= (#[trigger] out@[k])@.len() <= max_ingredients
            &&& sel_in_range(pool@, out@[k]@)
            &&& sel_nondecreasing(out@[k]@)
        },
        forall|s: Seq<usize>|
            1 <= s.len() <= max_ingredients && sel_in_range(pool@, s) && sel_nondecreasing(s)
                && #[trigger] sel_within_caps(pool@, s) ==> (exists|k: int|
                0 <= k < out@.len() && (#[trigger] out@[k])@ == s),
{
    let mut sink = SelectionCollector {
        selections: Vec::new(),
        bound: max_ingredients,
        gpool: Ghost(pool@),
    };
    if max_ingredients == 0 {
        return sink.selections;
    }
    let mut offset: usize = 0;
    while offset < pool.len()
        invariant
            offset <= pool@.len(),
            max_ingredients >= 1,
            pool_ok(pool@, max_ingredients as int),
            max_ingredients as int <= isize::MAX as int,
            sink.bound == max_ingredients,
            sink.gpool@ == pool@,
            sink.inv(),
            forall|s: Seq<usize>|
                1 <= s.len() <= max_ingredients && sel_in_range(pool@, s) && sel_nondecreasing(s)
                    && #[trigger] sel_within_caps(pool@, s) && (s[0] as int) < offset ==> (
                exists|k: int|
                    0 <= k < sink.selections@.len() && (#[trigger] sink.selections@[k])@ == s),
        decreases pool@.len() - offset,
    {
        let mut sel: Vec<usize> = Vec::new();
        let acc = PotionAttributes::empty();
        proof {
            lemma_empty_caps(pool@, sel@);
        }
        let ghost pre = sink.selections@;
        enumerate(pool, offset, max_ingredients, &mut sel, acc, &mut sink);
        proof {
            lemma_log_index(collector_log(pre), collector_log(sink.selections@));
            assert(collector_log(pre).len() == pre.len());
            assert(pre.len() <= sink.selections@.len());
            assert forall|k: int| 0 <= k < pre.len() implies (#[trigger] sink.selections@[k])@
                == pre[k]@ by {
                assert(collector_log(sink.selections@)[k] == collector_log(pre)[k]);
                assert(collector_log(sink.selections@)[k].0 == sink.selections@[k]@);
                assert(collector_log(pre)[k].0 == pre[k]@);
            }
            assert forall|s: Seq<usize>|
                1 <= s.len() <= max_ingredients && sel_in_range(pool@, s) && sel_nondecreasing(s)
                    && #[trigger] sel_within_caps(pool@, s) && (s[0] as int) < offset
                    + 1 implies (exists|k: int|
                0 <= k < sink.selections@.len() && (#[trigger] sink.selections@[k])@ == s) by {
                if (s[0] as int) < offset {
                    let k = choose|k: int| 0 <= k < pre.len() && (#[trigger] pre[k])@ == s;
                    assert(sink.selections@[k]@ == s);
                } else {
                    lemma_whole_is_extension(pool@, s, offset, max_ingredients as int);
                    lemma_collector_covers(sink.selections@, s);
                }
            }
        }
        offset = offset + 1;
    }
    proof {
        assert forall|s: Seq<usize>|
            1 <= s.len() <= max_ingredients && sel_in_range(pool@, s) && sel_nondecreasing(s)
                && #[trigger] sel_within_caps(pool@, s) implies (exists|k: int|
            0 <= k < sink.selections@.len() && (#[trigger] sink.selections@[k])@ == s) by {
            assert((s[0] as int) < pool@.len());
        }
    }
    sink.selections
}

} // verus!
