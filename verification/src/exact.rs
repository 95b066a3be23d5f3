//! The EXACT-mode solver: accept a candidate only when its resource
//! vector is a positive integer multiple of the target ratio.

use vstd::prelude::*;
use crate::attributes::PotionAttributes;
use crate::catalog::{catalog_le, catalog_sorted};
use crate::engine::{
    AttrTotals, BranchSink, CatalogEntry, JudgementLog, attr_totals, copy_indices, enumerate,
    lemma_empty_caps, lemma_nondec_range, lemma_sum_mag_bounded, lemma_sum_sel_fits,
    lemma_sum_sel_scaled, lemma_sum_split, lemma_whole_is_extension, log_cut, log_has, pool_ok,
    pursued, sel_in_range, sel_nondecreasing, sel_within_caps, selection_price, sum_price,
    sum_sel, valid_extension,
};
use crate::ratio::{IngredientRatio, is_multiple};
use crate::results::{PotionRecipe, recipe_consistent};

verus! {

/// What every search entry point asks of the target.
pub open spec fn target_ok(t: IngredientRatio) -> bool {
    &&& t.magimins.total_fits()
    &&& t.count as int <= isize::MAX as int
}

/// What the exact solver promises of every recipe it records: a
/// consistent snapshot whose total lies within the target's bounds,
/// whose senses match the required signs, whose cost respects a
/// non-zero budget, and whose vector is a positive multiple of the
/// target ratio.
pub open spec fn exact_accepted(
    pool: Seq<CatalogEntry>,
    t: IngredientRatio,
    r: PotionRecipe,
) -> bool {
    &&& recipe_consistent(pool, r)
    &&& r.ingredients@.len() <= t.count
    &&& t.min <= r.attributes.magimins.spec_total() <= t.max
    &&& r.attributes.spec_senses_satisfied(&t)
    &&& (exists|q: int| q >= 1 && is_multiple(r.attributes.magimins, t.magimins, q))
    &&& (t.price > 0 ==> r.cost <= t.price)
}

/// A selection whose combined totals pass every test of the exact
/// search: in the total band, within a non-zero budget, senses not
/// opposite to the required signs, and a positive multiple of the
/// target ratio.
/// The combined totals are exactly `q` copies of the ratio vector.
pub open spec fn totals_multiple(tot: AttrTotals, m: crate::magimins::Magimins, q: int) -> bool {
    &&& tot.a == q * m.a
    &&& tot.b == q * m.b
    &&& tot.c == q * m.c
    &&& tot.d == q * m.d
    &&& tot.e == q * m.e
}

pub open spec fn exact_qualifies(pool: Seq<CatalogEntry>, t: IngredientRatio, s: Seq<usize>) -> bool {
    let tot = sum_sel(pool, s);
    &&& tot.mag_total() > 0
    &&& t.min <= tot.mag_total() <= t.max
    &&& (t.price > 0 ==> sum_price(pool, s) <= t.price)
    &&& !(t.taste > 0 && tot.taste < 0) && !(t.taste < 0 && tot.taste > 0)
    &&& !(t.sight > 0 && tot.sight < 0) && !(t.sight < 0 && tot.sight > 0)
    &&& !(t.feel > 0 && tot.feel < 0) && !(t.feel < 0 && tot.feel > 0)
    &&& !(t.smell > 0 && tot.smell < 0) && !(t.smell < 0 && tot.smell > 0)
    &&& !(t.sound > 0 && tot.sound < 0) && !(t.sound < 0 && tot.sound > 0)
    &&& (exists|q: int| q >= 1 && #[trigger] totals_multiple(tot, t.magimins, q))
}

/// The three conditions under which the exact solver abandons a line:
/// the budget is blown, the total band is overshot, or even filling
/// the remaining slots with the last potency cannot reach the minimum.
pub open spec fn exact_pruned(pool: Seq<CatalogEntry>, t: IngredientRatio, s: Seq<usize>) -> bool {
    ||| (t.price > 0 && sum_price(pool, s) > t.price)
    ||| sum_sel(pool, s).mag_total() > t.max
    ||| (s.len() >= 1 && sum_sel(pool, s).mag_total() + pool[s.last() as int].0.magimins.spec_total()
        * (t.count - s.len()) < t.min)
}

/// A qualifying selection forces the ratio test to answer with its
/// positive scale.
proof fn lemma_qualifying_multiple(
    pool: Seq<CatalogEntry>,
    t: IngredientRatio,
    s: Seq<usize>,
    acc: PotionAttributes,
)
    requires
        attr_totals(acc) == sum_sel(pool, s),
        exact_qualifies(pool, t, s),
    ensures
        exists|q: int| q >= 1 && is_multiple(acc.magimins, t.magimins, q),
        acc.magimins.spec_total() > 0,
        acc.spec_senses_satisfied(&t),
{
    let tot = sum_sel(pool, s);
    let q = choose|q: int| q >= 1 && #[trigger] totals_multiple(tot, t.magimins, q);
    assert(is_multiple(acc.magimins, t.magimins, q));
}

/// Logging a judged-but-unrecorded selection keeps the solver's
/// bookkeeping: it must not qualify, and a cut must be justified.
proof fn lemma_log_push_no_record(
    pool: Seq<CatalogEntry>,
    t: IngredientRatio,
    results: Seq<PotionRecipe>,
    oldlog: JudgementLog,
    entry: (Seq<usize>, bool),
)
    requires
        !exact_qualifies(pool, t, entry.0),
        entry.1 == false ==> exact_pruned(pool, t, entry.0),
        forall|i: int| 0 <= i < oldlog.len() && (#[trigger] oldlog[i]).1 == false ==> exact_pruned(
            pool,
            t,
            oldlog[i].0,
        ),
        forall|i: int| 0 <= i < oldlog.len() && exact_qualifies(
            pool,
            t,
            (#[trigger] oldlog[i]).0,
        ) ==> (exists|k: int|
            0 <= k < results.len() && (#[trigger] results[k]).ingredients@ == oldlog[i].0),
    ensures
        forall|i: int|
            0 <= i < oldlog.push(entry).len() && (#[trigger] oldlog.push(entry)[i]).1 == false
                ==> exact_pruned(pool, t, oldlog.push(entry)[i].0),
        forall|i: int|
            0 <= i < oldlog.push(entry).len() && exact_qualifies(
                pool,
                t,
                (#[trigger] oldlog.push(entry)[i]).0,
            ) ==> (exists|k: int|
                0 <= k < results.len() && (#[trigger] results[k]).ingredients@ == oldlog.push(
                    entry,
                )[i].0),
{
    assert forall|i: int|
        0 <= i < oldlog.push(entry).len() && (#[trigger] oldlog.push(entry)[i]).1
            == false implies exact_pruned(pool, t, oldlog.push(entry)[i].0) by {
        if i < oldlog.len() {
            assert(oldlog.push(entry)[i] == oldlog[i]);
        } else {
            assert(oldlog.push(entry)[i] == entry);
        }
    }
    assert forall|i: int|
        0 <= i < oldlog.push(entry).len() && exact_qualifies(
            pool,
            t,
            (#[trigger] oldlog.push(entry)[i]).0,
        ) implies (exists|k: int|
        0 <= k < results.len() && (#[trigger] results[k]).ingredients@ == oldlog.push(
            entry,
        )[i].0) by {
        if i < oldlog.len() {
            assert(oldlog.push(entry)[i] == oldlog[i]);
        } else {
            assert(oldlog.push(entry)[i] == entry);
        }
    }
}

/// The strategy the engine drives in EXACT mode.  Prunes a line when
/// the price or total can no longer work out; records a recipe when
/// the ratio, sense and bound tests all pass.
pub struct ExactSolver {
    pub target: IngredientRatio,
    pub results: Vec<PotionRecipe>,
    pub gpool: Ghost<Seq<CatalogEntry>>,
    pub glog: Ghost<JudgementLog>,
}

impl BranchSink for ExactSolver {
    open spec fn inv(&self) -> bool {
        &&& (forall|k: int| 0 <= k < self.results@.len() ==> exact_accepted(
            self.gpool@,
            self.target,
            #[trigger] self.results@[k],
        ))
        &&& (forall|i: int| 0 <= i < self.glog@.len() && (#[trigger] self.glog@[i]).1 == false
            ==> exact_pruned(self.gpool@, self.target, self.glog@[i].0))
        &&& (forall|i: int| 0 <= i < self.glog@.len() && exact_qualifies(
            self.gpool@,
            self.target,
            (#[trigger] self.glog@[i]).0,
        ) ==> (exists|k: int|
            0 <= k < self.results@.len() && (#[trigger] self.results@[k]).ingredients@
                == self.glog@[i].0))
    }

    open spec fn limit(&self) -> int {
        self.target.count as int
    }

    open spec fn log(&self) -> JudgementLog {
        self.glog@
    }

    open spec fn config(&self) -> (IngredientRatio, Seq<CatalogEntry>, Option<u128>) {
        (self.target, self.gpool@, None)
    }

    open spec fn pool_inv(&self, pool: Seq<CatalogEntry>) -> bool {
        &&& pool == self.gpool@
        &&& pool_ok(pool, self.target.count as int)
        &&& target_ok(self.target)
    }

    #[verifier::rlimit(100)]
    fn continue_branch(
        &mut self,
        pool: &Vec<CatalogEntry>,
        sel: &Vec<usize>,
        acc: &PotionAttributes,
    ) -> (cont: bool) {
        let count = self.target.count;
        proof {
            lemma_sum_sel_fits(pool@, sel@, count as int);
            lemma_sum_sel_scaled(pool@, sel@, count as int);
        }
        let total = acc.magimins.total();
        let price = selection_price(pool, sel, count);
        if self.target.price > 0 && price > self.target.price {
            proof {
                assert(exact_pruned(self.gpool@, self.target, sel@));
                assert(!exact_qualifies(self.gpool@, self.target, sel@));
                lemma_log_push_no_record(
                    self.gpool@,
                    self.target,
                    self.results@,
                    self.glog@,
                    (sel@, false),
                );
            }
            self.glog = Ghost(self.glog@.push((sel@, false)));
            return false;
        }
        if total > self.target.max {
            proof {
                assert(exact_pruned(self.gpool@, self.target, sel@));
                assert(!exact_qualifies(self.gpool@, self.target, sel@));
                lemma_log_push_no_record(
                    self.gpool@,
                    self.target,
                    self.results@,
                    self.glog@,
                    (sel@, false),
                );
            }
            self.glog = Ghost(self.glog@.push((sel@, false)));
            return false;
        }
        let last_idx = sel[sel.len() - 1];
        let last_mut = pool[last_idx].0.mutamin;
        let remaining = count - sel.len();
        proof {
            let b = pool@[last_idx as int].0.magimins.spec_total();
            assert(b * remaining <= b * count && b >= 0) by (nonlinear_arith)
                requires
                    remaining <= count,
                    b >= 0,
            ;
            let s = sum_sel(pool@, sel@);
            assert(total + last_mut as int * remaining <= usize::MAX as int) by (nonlinear_arith)
                requires
                    total as int == s.mag_total(),
                    s.mag_total() * count <= sel@.len() * (usize::MAX as int),
                    last_mut as int == b,
                    b * count <= usize::MAX as int,
                    remaining == count - sel@.len(),
                    1 <= sel@.len() <= count,
                    s.mag_total() >= 0,
                    b >= 0,
            ;
        }
        if total + last_mut * remaining < self.target.min {
            proof {
                assert(sel@.last() == last_idx);
                assert(exact_pruned(self.gpool@, self.target, sel@));
                let pot = pool@[last_idx as int].0.magimins.spec_total();
                assert(pot * remaining >= 0) by (nonlinear_arith)
                    requires
                        pot >= 0,
                        remaining >= 0,
                ;
                assert(!exact_qualifies(self.gpool@, self.target, sel@));
                lemma_log_push_no_record(
                    self.gpool@,
                    self.target,
                    self.results@,
                    self.glog@,
                    (sel@, false),
                );
            }
            self.glog = Ghost(self.glog@.push((sel@, false)));
            return false;
        }
        if total < self.target.min {
            proof {
                assert(!exact_qualifies(self.gpool@, self.target, sel@));
                lemma_log_push_no_record(
                    self.gpool@,
                    self.target,
                    self.results@,
                    self.glog@,
                    (sel@, true),
                );
            }
            self.glog = Ghost(self.glog@.push((sel@, true)));
            return true;
        }
        let ratio = acc.satisfying_ratio(&self.target);
        let scale = match ratio {
            None => {
                proof {
                    if exact_qualifies(self.gpool@, self.target, sel@) {
                        lemma_qualifying_multiple(pool@, self.target, sel@, *acc);
                        assert(false);
                    }
                    lemma_log_push_no_record(
                        self.gpool@,
                        self.target,
                        self.results@,
                        self.glog@,
                        (sel@, true),
                    );
                }
                self.glog = Ghost(self.glog@.push((sel@, true)));
                return true;
            },
            Some(q) => q,
        };
        if scale == 0 {
            proof {
                if exact_qualifies(self.gpool@, self.target, sel@) {
                    lemma_qualifying_multiple(pool@, self.target, sel@, *acc);
                    assert(false);
                }
                lemma_log_push_no_record(
                    self.gpool@,
                    self.target,
                    self.results@,
                    self.glog@,
                    (sel@, true),
                );
            }
            self.glog = Ghost(self.glog@.push((sel@, true)));
            return true;
        }
        if !acc.senses_satisfied(&self.target) {
            proof {
                if exact_qualifies(self.gpool@, self.target, sel@) {
                    let tot = sum_sel(self.gpool@, sel@);
                    assert(attr_totals(*acc) == tot);
                    assert(acc.taste as int == tot.taste && acc.sight as int == tot.sight
                        && acc.feel as int == tot.feel && acc.smell as int == tot.smell
                        && acc.sound as int == tot.sound);
                    assert(acc.spec_senses_satisfied(&self.target));
                    assert(false);
                }
                assert(!exact_qualifies(self.gpool@, self.target, sel@));
                lemma_log_push_no_record(
                    self.gpool@,
                    self.target,
                    self.results@,
                    self.glog@,
                    (sel@, true),
                );
            }
            self.glog = Ghost(self.glog@.push((sel@, true)));
            proof {
                assert(forall|k: int| 0 <= k < self.results@.len() ==> exact_accepted(
                    self.gpool@,
                    self.target,
                    #[trigger] self.results@[k],
                ));
                assert(forall|i: int|
                    0 <= i < self.glog@.len() && (#[trigger] self.glog@[i]).1 == false
                        ==> exact_pruned(self.gpool@, self.target, self.glog@[i].0));
                assert(forall|i: int|
                    0 <= i < self.glog@.len() && exact_qualifies(
                        self.gpool@,
                        self.target,
                        (#[trigger] self.glog@[i]).0,
                    ) ==> (exists|k: int|
                        0 <= k < self.results@.len() && (#[trigger] self.results@[k]).ingredients@
                            == self.glog@[i].0));
                assert(self.inv());
            }
            return true;
        }
        let indices = copy_indices(sel);
        let recipe = PotionRecipe { attributes: *acc, ingredients: indices, cost: price };
        proof {
            assert(acc.magimins.spec_total() == sum_sel(pool@, sel@).mag_total());
            assert(is_multiple(acc.magimins, self.target.magimins, scale as int));
            assert(exact_accepted(self.gpool@, self.target, recipe));
        }
        self.results.push(recipe);
        self.glog = Ghost(self.glog@.push((sel@, true)));
        proof {
            assert(self.results@.last().ingredients@ == sel@);
            assert forall|i: int|
                0 <= i < self.glog@.len() && exact_qualifies(
                    self.gpool@,
                    self.target,
                    (#[trigger] self.glog@[i]).0,
                ) implies (exists|k: int|
                0 <= k < self.results@.len() && (#[trigger] self.results@[k]).ingredients@
                    == self.glog@[i].0) by {
                if i < self.glog@.len() - 1 {
                    let k = choose|k: int|
                        0 <= k < old(self).results@.len() && (#[trigger] old(
                            self,
                        ).results@[k]).ingredients@ == self.glog@[i].0;
                    assert(self.results@[k].ingredients@ == self.glog@[i].0);
                } else {
                    assert(self.results@[self.results@.len() - 1].ingredients@ == sel@);
                }
            }
        }
        true
    }
}

/// Over a catalog in search order, a pursued qualifying extension is
/// recorded: each possible cut is refuted, because every prune
/// condition carries over from a prefix to the whole selection.
proof fn lemma_exact_search_covers(
    pool: Seq<CatalogEntry>,
    t: IngredientRatio,
    log: JudgementLog,
    results: Seq<PotionRecipe>,
    offset: usize,
    ext: Seq<usize>,
)
    requires
        catalog_sorted(pool),
        pool_ok(pool, t.count as int),
        valid_extension(pool, Seq::empty(), ext, offset as int, t.count as int),
        exact_qualifies(pool, t, ext),
        pursued(log, Seq::empty(), ext),
        forall|i: int| 0 <= i < log.len() && (#[trigger] log[i]).1 == false ==> exact_pruned(
            pool,
            t,
            log[i].0,
        ),
        forall|i: int| 0 <= i < log.len() && exact_qualifies(pool, t, (#[trigger] log[i]).0)
            ==> (exists|k: int|
            0 <= k < results.len() && (#[trigger] results[k]).ingredients@ == log[i].0),
    ensures
        exists|k: int| 0 <= k < results.len() && (#[trigger] results[k]).ingredients@ == ext,
{
    reveal(pursued);
    reveal(log_has);
    reveal(log_cut);
    reveal(valid_extension);
    assert(Seq::empty() + ext =~= ext);
    if log_has(log, Seq::empty() + ext) {
        let i = choose|i: int| 0 <= i < log.len() && (#[trigger] log[i]).0 == Seq::empty() + ext;
        assert(log[i].0 == ext);
    } else {
        let j = choose|j: int|
            1 <= j < ext.len() && log_cut(log, Seq::empty() + #[trigger] ext.take(j));
        let p = ext.take(j);
        assert(Seq::empty() + ext.take(j) =~= p);
        let i = choose|i: int| 0 <= i < log.len() && (#[trigger] log[i]) == (p, false);
        assert(exact_pruned(pool, t, p));
        let suf = ext.skip(j);
        assert(p + suf =~= ext);
        lemma_sum_split(pool, p, suf);
        assert(forall|k: int| 0 <= k < suf.len() ==> suf[k] == ext[j + k]);
        assert forall|k: int| 0 <= k < suf.len() implies (#[trigger] suf[k]) < pool.len() by {
            assert(suf[k] == ext[j + k]);
        }
        lemma_sum_sel_scaled(pool, suf, t.count as int);
        let tot_p = sum_sel(pool, p).mag_total();
        let tot_s = sum_sel(pool, suf).mag_total();
        let tot_e = sum_sel(pool, ext).mag_total();
        assert(tot_e == tot_p + tot_s);
        assert(tot_s >= 0);
        assert(sum_price(pool, suf) >= 0);
        if t.price > 0 && sum_price(pool, p) > t.price {
            assert(sum_price(pool, ext) > t.price);
            assert(false);
        } else if tot_p > t.max {
            assert(false);
        } else {
            let last = p[j - 1];
            assert(last == ext[j - 1]);
            let pot = pool[last as int].0.magimins.spec_total();
            assert(tot_p + pot * (t.count - j) < t.min);
            assert forall|k: int| 0 <= k < suf.len() implies pool[(#[trigger] suf[k]) as int]
                .0.magimins.spec_total() <= pot by {
                assert(suf[k] == ext[j + k]);
                lemma_nondec_range(ext, j - 1, j + k);
                assert(catalog_le(pool[last as int], pool[suf[k] as int]));
            }
            assert(pot >= 0);
            lemma_sum_mag_bounded(pool, suf, pot);
            assert(suf.len() <= t.count - j);
            assert(suf.len() * pot <= (t.count - j) * pot) by (nonlinear_arith)
                requires
                    suf.len() <= t.count - j,
                    pot >= 0,
            ;
            assert(pot * (t.count - j) == (t.count - j) * pot) by (nonlinear_arith);
            assert(tot_e < t.min);
            assert(false);
        }
    }
}

/// One worker's share of the exact search: every recipe whose first
/// chosen entry is the catalog item at `offset`.
pub fn search_exact_from(
    pool: &Vec<CatalogEntry>,
    target: &IngredientRatio,
    offset: usize,
) -> (out: Vec<PotionRecipe>)
    requires
        offset <= pool@.len(),
        target_ok(*target),
        catalog_sorted(pool@),
        pool_ok(pool@, target.count as int),
    ensures
        forall|k: int| 0 <= k < out@.len() ==> exact_accepted(pool@, *target, #[trigger] out@[k]),
        forall|ext: Seq<usize>| #[trigger] valid_extension(
            pool@,
            Seq::empty(),
            ext,
            offset as int,
            target.count as int,
        ) && exact_qualifies(pool@, *target, ext) ==> (exists|k: int|
            0 <= k < out@.len() && (#[trigger] out@[k]).ingredients@ == ext),
{
    let mut sink = ExactSolver {
        target: *target,
        results: Vec::new(),
        gpool: Ghost(pool@),
        glog: Ghost(Seq::empty()),
    };
    if target.count == 0 {
        proof {
            assert forall|ext: Seq<usize>|
                #[trigger] valid_extension(
                    pool@,
                    Seq::empty(),
                    ext,
                    offset as int,
                    target.count as int,
                ) && exact_qualifies(pool@, *target, ext) implies (exists|k: int|
                0 <= k < sink.results@.len() && (#[trigger] sink.results@[k]).ingredients@
                    == ext) by {
                reveal(valid_extension);
            }
        }
        return sink.results;
    }
    let mut sel: Vec<usize> = Vec::new();
    let acc = PotionAttributes::empty();
    proof {
        crate::engine::lemma_empty_caps(pool@, sel@);
    }
    enumerate(pool, offset, target.count, &mut sel, acc, &mut sink);
    proof {
        assert forall|ext: Seq<usize>|
            #[trigger] valid_extension(
                pool@,
                Seq::empty(),
                ext,
                offset as int,
                target.count as int,
            ) && exact_qualifies(pool@, *target, ext) implies (exists|k: int|
            0 <= k < sink.results@.len() && (#[trigger] sink.results@[k]).ingredients@ == ext) by {
            lemma_exact_search_covers(pool@, *target, sink.glog@, sink.results@, offset, ext);
        }
    }
    sink.results
}

/// The whole exact search: one enumeration per starting offset, their
/// accepted recipes concatenated.
pub fn search_exact(pool: &Vec<CatalogEntry>, target: &IngredientRatio) -> (out: Vec<PotionRecipe>)
    requires
        target_ok(*target),
        catalog_sorted(pool@),
        pool_ok(pool@, target.count as int),
    ensures
        forall|k: int| 0 <= k < out@.len() ==> exact_accepted(pool@, *target, #[trigger] out@[k]),
        forall|s: Seq<usize>|
            1 <= s.len() <= target.count && sel_in_range(pool@, s) && sel_nondecreasing(s)
                && #[trigger] sel_within_caps(pool@, s) && exact_qualifies(pool@, *target, s)
                ==> (exists|k: int|
                0 <= k < out@.len() && (#[trigger] out@[k]).ingredients@ == s),
{
    let mut out: Vec<PotionRecipe> = Vec::new();
    let mut offset: usize = 0;
    while offset < pool.len()
        invariant
            offset <= pool@.len(),
            target_ok(*target),
            catalog_sorted(pool@),
            pool_ok(pool@, target.count as int),
            forall|k: int| 0 <= k < out@.len() ==> exact_accepted(
                pool@,
                *target,
                #[trigger] out@[k],
            ),
            forall|s: Seq<usize>|
                1 <= s.len() <= target.count && sel_in_range(pool@, s) && sel_nondecreasing(s)
                    && #[trigger] sel_within_caps(pool@, s) && exact_qualifies(pool@, *target, s)
                    && (s[0] as int) < offset ==> (exists|k: int|
                    0 <= k < out@.len() && (#[trigger] out@[k]).ingredients@ == s),
        decreases pool@.len() - offset,
    {
        let ghost pre = out@;
        let mut part = search_exact_from(pool, target, offset);
        let ghost partv = part@;
        out.append(&mut part);
        proof {
            assert(out@ == pre + partv);
            assert forall|s: Seq<usize>|
                1 <= s.len() <= target.count && sel_in_range(pool@, s) && sel_nondecreasing(s)
                    && #[trigger] sel_within_caps(pool@, s) && exact_qualifies(pool@, *target, s)
                    && (s[0] as int) < offset + 1 implies (exists|k: int|
                0 <= k < out@.len() && (#[trigger] out@[k]).ingredients@ == s) by {
                if (s[0] as int) < offset {
                    let k = choose|k: int|
                        0 <= k < pre.len() && (#[trigger] pre[k]).ingredients@ == s;
                    assert(out@[k].ingredients@ == s);
                } else {
                    lemma_whole_is_extension(pool@, s, offset, target.count as int);
                    let k = choose|k: int|
                        0 <= k < partv.len() && (#[trigger] partv[k]).ingredients@ == s;
                    assert(out@[pre.len() + k].ingredients@ == s);
                }
            }
        }
        offset = offset + 1;
    }
    proof {
        assert forall|s: Seq<usize>|
            1 <= s.len() <= target.count && sel_in_range(pool@, s) && sel_nondecreasing(s)
                && #[trigger] sel_within_caps(pool@, s) && exact_qualifies(pool@, *target, s)
                implies (exists|k: int|
            0 <= k < out@.len() && (#[trigger] out@[k]).ingredients@ == s) by {
            assert((s[0] as int) < pool@.len());
        }
    }
    out
}

} // verus!
