//! A depth-first solver over the catalog: at every entry, either skip
//! it or take another copy, and hand complete candidates that meet the
//! target's bounds to an acceptance callback.

use vstd::prelude::*;
use crate::attributes::PotionAttributes;
use crate::engine::{
    CatalogEntry, copy_indices, lemma_nondec_range, lemma_sum_sel_fits, lemma_sum_sel_scaled,
    lemma_sum_split, pool_ok, sel_in_range, sel_nondecreasing, sum_price, sum_sel,
};
use vstd::multiset::Multiset;
use crate::magimins::Magimins;
use crate::ratio::IngredientRatio;

verus! {

/// The running candidate mirrors its selection: vector, senses and
/// count are the sums over the chosen entries, `max` the combined
/// potency, `price` the combined cost.
pub open spec fn candidate_tracks(
    pool: Seq<CatalogEntry>,
    sel: Seq<usize>,
    c: IngredientRatio,
) -> bool {
    let s = sum_sel(pool, sel);
    &&& c.magimins.a as int == s.a
    &&& c.magimins.b as int == s.b
    &&& c.magimins.c as int == s.c
    &&& c.magimins.d as int == s.d
    &&& c.magimins.e as int == s.e
    &&& c.taste as int == s.taste
    &&& c.feel as int == s.feel
    &&& c.sight as int == s.sight
    &&& c.smell as int == s.smell
    &&& c.sound as int == s.sound
    &&& c.count == sel.len()
    &&& c.max as int == s.mag_total()
    &&& c.price as int == sum_price(pool, sel)
}

/// The conditions under which the depth-first solver accepts a
/// complete candidate.
pub open spec fn solve_accepted(
    pool: Seq<CatalogEntry>,
    t: IngredientRatio,
    sel: Seq<usize>,
    c: IngredientRatio,
) -> bool {
    &&& sel_in_range(pool, sel)
    &&& sel_nondecreasing(sel)
    &&& candidate_tracks(pool, sel, c)
    &&& c.count <= t.count
    &&& c.max <= t.max
    &&& c.max >= t.min
    &&& c.spec_senses_satisfied(&t)
    &&& (t.price > 0 ==> c.price <= t.price)
}

/// The totals of a complete selection pass every bound of the target:
/// the budget, the count, the total band and the required sense signs.
pub open spec fn sel_qualifies(pool: Seq<CatalogEntry>, t: IngredientRatio, s: Seq<usize>) -> bool {
    let tot = sum_sel(pool, s);
    &&& (t.price > 0 ==> sum_price(pool, s) <= t.price)
    &&& s.len() <= t.count
    &&& t.min <= tot.mag_total() <= t.max
    &&& !(t.taste > 0 && tot.taste < 0) && !(t.taste < 0 && tot.taste > 0)
    &&& !(t.sight > 0 && tot.sight < 0) && !(t.sight < 0 && tot.sight > 0)
    &&& !(t.feel > 0 && tot.feel < 0) && !(t.feel < 0 && tot.feel > 0)
    &&& !(t.smell > 0 && tot.smell < 0) && !(t.smell < 0 && tot.smell > 0)
    &&& !(t.sound > 0 && tot.sound < 0) && !(t.sound < 0 && tot.sound > 0)
}

/// An extension the depth-first solver still owes from `start`: only
/// equal-or-later entries, non-decreasing, within each availability
/// cap, with the running allowance for `start` itself respected.
pub open spec fn solve_extension(
    pool: Seq<CatalogEntry>,
    ext: Seq<usize>,
    start: int,
    avail: Option<usize>,
) -> bool {
    &&& (forall|k: int| 0 <= k < ext.len() ==> start <= (#[trigger] ext[k]) as int
        && (ext[k] as int) < pool.len())
    &&& sel_nondecreasing(ext)
    &&& (forall|i: usize| (i as int) < pool.len() && (i as int) > start ==> ((#[trigger] pool[
        i as int]).1 matches Some(c) ==> ext.to_multiset().count(i) <= c))
    &&& (0 <= start < pool.len() ==> (match avail {
        Some(x) => ext.to_multiset().count(start as usize) <= x,
        None => (pool[start].1 matches Some(c) ==> ext.to_multiset().count(start as usize) <= c),
    }))
}

/// A recorded selection: the solver's accept log.
pub open spec fn found_log(found: Seq<(Vec<usize>, IngredientRatio)>, s: Seq<usize>) -> bool {
    exists|k: int| 0 <= k < found.len() && (#[trigger] found[k]).0@ == s
}

/// How many more entries the candidate may still take.
pub open spec fn count_budget(t: IngredientRatio, c: IngredientRatio) -> int {
    if c.count <= t.count {
        t.count + 1 - c.count
    } else {
        0
    }
}

/// An owed extension that never uses the current entry is owed from
/// the next entry onward, with no allowance left behind.
proof fn lemma_skip_extension(pool: Seq<CatalogEntry>, ext: Seq<usize>, start: int, avail: Option<usize>)
    requires
        0 <= start < pool.len(),
        solve_extension(pool, ext, start, avail),
        ext.to_multiset().count(start as usize) == 0,
    ensures
        solve_extension(pool, ext, start + 1, None),
{
    broadcast use vstd::seq_lib::group_to_multiset_ensures;

    assert forall|k: int| 0 <= k < ext.len() implies start + 1 <= (#[trigger] ext[k]) as int by {
        if ext[k] as int == start {
            assert(ext.contains(ext[k]));
            assert(ext.to_multiset().count(ext[k]) > 0);
        }
    }
    assert forall|i: usize| (i as int) < pool.len() && (i as int) > start + 1 implies ((
    #[trigger] pool[i as int]).1 matches Some(c) ==> ext.to_multiset().count(i) <= c) by {}
    if 0 <= start + 1 < pool.len() {
        match pool[start + 1].1 {
            Some(c) => {
                assert(ext.to_multiset().count((start + 1) as usize) <= c);
            },
            None => {},
        }
    }
}

/// An owed extension that uses the current entry starts with it, and
/// what follows is owed with one unit of the allowance spent.
proof fn lemma_take_extension(
    pool: Seq<CatalogEntry>,
    ext: Seq<usize>,
    start: int,
    avail: Option<usize>,
    avail2: Option<usize>,
)
    requires
        0 <= start < pool.len(),
        solve_extension(pool, ext, start, avail),
        ext.to_multiset().count(start as usize) >= 1,
        (match avail {
            Some(x) => x >= 1 && avail2 == Some((x - 1) as usize),
            None => (match pool[start].1 {
                Some(c) => c >= 1 && avail2 == Some((c - 1) as usize),
                None => avail2 == None::<usize>,
            }),
        }),
    ensures
        ext.len() >= 1,
        ext[0] as int == start,
        solve_extension(pool, ext.drop_first(), start, avail2),
        ext =~= seq![ext[0]] + ext.drop_first(),
{
    broadcast use vstd::seq_lib::group_to_multiset_ensures;
    broadcast use vstd::multiset::group_multiset_axioms;

    assert(ext.to_multiset().count(start as usize) > 0);
    assert(ext.contains(start as usize));
    let w = choose|k: int| 0 <= k < ext.len() && ext[k] == start as usize;
    lemma_nondec_range(ext, 0, w);
    assert(ext[0] as int == start);
    let rest = ext.drop_first();
    assert(ext =~= seq![ext[0]] + rest);
    vstd::seq_lib::lemma_multiset_commutative(seq![ext[0]], rest);
    assert(seq![ext[0]].to_multiset() =~= Multiset::empty().insert(ext[0])) by {
        assert(seq![ext[0]].drop_first() =~= Seq::<usize>::empty());
    }
    assert forall|i: usize| ext.to_multiset().count(i) == seq![ext[0]].to_multiset().count(i)
        + rest.to_multiset().count(i) by {}
    assert(rest.to_multiset().count(start as usize) == ext.to_multiset().count(start as usize)
        - 1);
    assert(forall|k: int| 0 <= k < rest.len() ==> (#[trigger] rest[k]) == ext[k + 1]);
    assert forall|k: int| 0 <= k < rest.len() implies start <= (#[trigger] rest[k]) as int && (
    rest[k] as int) < pool.len() by {
        assert(rest[k] == ext[k + 1]);
    }
    assert(sel_nondecreasing(rest)) by {
        assert forall|k: int| 0 <= k < rest.len() - 1 implies (#[trigger] rest[k]) <= rest[k
            + 1] by {
            assert(rest[k] == ext[k + 1] && rest[k + 1] == ext[k + 2]);
        }
    }
    assert forall|i: usize| (i as int) < pool.len() && (i as int) > start implies ((
    #[trigger] pool[i as int]).1 matches Some(c) ==> rest.to_multiset().count(i) <= c) by {
        assert(rest.to_multiset().count(i) <= ext.to_multiset().count(i));
    }
}

proof fn lemma_record_prefix_trans(l1: Seq<Seq<usize>>, l2: Seq<Seq<usize>>, l3: Seq<Seq<usize>>)
    requires
        l1.is_prefix_of(l2),
        l2.is_prefix_of(l3),
    ensures
        l1.is_prefix_of(l3),
{
    assert forall|i: int| 0 <= i < l1.len() implies l3[i] == l1[i] by {
        assert(l1[i] == l2.subrange(0, l1.len() as int)[i]);
        assert(l2[i] == l3.subrange(0, l2.len() as int)[i]);
    }
    assert(l1 =~= l3.subrange(0, l1.len() as int));
}

/// Recorded selections survive when the record grows at the end.
proof fn lemma_contains_grows(l1: Seq<Seq<usize>>, l2: Seq<Seq<usize>>, s: Seq<usize>)
    requires
        l1.is_prefix_of(l2),
        l1.contains(s),
    ensures
        l2.contains(s),
{
    let i = choose|i: int| 0 <= i < l1.len() && l1[i] == s;
    assert(l1[i] == l2.subrange(0, l1.len() as int)[i]);
    assert(l2[i] == s);
}

/// The acceptance callback of the depth-first solver.
pub trait SolveSink: Sized {
    /// The strategy's own invariant over its accumulated state.
    spec fn inv(&self) -> bool;

    /// The record: every selection this sink accepted, in order.
    spec fn log(&self) -> Seq<Seq<usize>>;

    /// The fixed target and catalog the strategy judges against.
    spec fn config(&self) -> (IngredientRatio, Seq<CatalogEntry>);

    /// Record a complete candidate that met every bound of the target.
    fn accept(&mut self, pool: &Vec<CatalogEntry>, chosen: &Vec<usize>, cand: &IngredientRatio)
        requires
            old(self).inv(),
            old(self).config().1 == pool@,
            solve_accepted(pool@, old(self).config().0, chosen@, *cand),
        ensures
            final(self).inv(),
            final(self).config() == old(self).config(),
            final(self).log() == old(self).log().push(chosen@),
    ;
}

/// Walk the catalog from `start`: first explore every candidate that
/// skips the current entry, then every one that takes another copy of
/// it (bounded by its availability), accepting complete candidates
/// that satisfy the target's price, count, total and sense bounds.
pub fn solve<S: SolveSink>(
    pool: &Vec<CatalogEntry>,
    start: usize,
    num_available: Option<usize>,
    chosen: &mut Vec<usize>,
    cand: &IngredientRatio,
    target: &IngredientRatio,
    sink: &mut S,
)
    requires
        start <= pool@.len(),
        pool_ok(pool@, target.count as int + 1),
        target.count as int + 1 <= isize::MAX as int,
        sel_in_range(pool@, old(chosen)@),
        sel_nondecreasing(old(chosen)@),
        old(chosen)@.len() > 0 ==> old(chosen)@.last() <= start,
        candidate_tracks(pool@, old(chosen)@, *cand),
        old(sink).inv(),
        old(sink).config() == (*target, pool@),
    ensures
        final(sink).inv(),
        final(sink).config() == old(sink).config(),
        final(chosen)@ == old(chosen)@,
        old(sink).log().is_prefix_of(final(sink).log()),
        forall|ext: Seq<usize>| #[trigger] solve_extension(pool@, ext, start as int, num_available)
            && sel_qualifies(pool@, *target, old(chosen)@ + ext) ==> final(sink).log().contains(
            old(chosen)@ + ext,
        ),
    decreases pool@.len() - start, count_budget(*target, *cand),
{
    proof {
        assert(sink.log().is_prefix_of(sink.log())) by {
            assert(sink.log() =~= sink.log().subrange(0, sink.log().len() as int));
        }
    }
    if (target.price > 0 && cand.price > target.price) || cand.count > target.count
        || cand.max > target.max {
        proof {
            assert forall|ext: Seq<usize>|
                #[trigger] solve_extension(pool@, ext, start as int, num_available)
                    && sel_qualifies(pool@, *target, old(chosen)@ + ext) implies sink.log(
            ).contains(old(chosen)@ + ext) by {
                lemma_sum_split(pool@, old(chosen)@, ext);
                lemma_sum_sel_scaled(pool@, ext, target.count as int + 1);
                assert(false);
            }
        }
        return;
    }
    if start >= pool.len() {
        let fits = cand.max >= target.min && cand.senses_satisfied(target);
        if fits {
            sink.accept(pool, chosen, cand);
        }
        proof {
            assert forall|ext: Seq<usize>|
                #[trigger] solve_extension(pool@, ext, start as int, num_available)
                    && sel_qualifies(pool@, *target, old(chosen)@ + ext) implies sink.log(
            ).contains(old(chosen)@ + ext) by {
                if ext.len() > 0 {
                    assert((ext[0] as int) < pool@.len());
                    assert(false);
                }
                assert(old(chosen)@ + ext =~= old(chosen)@);
                assert(fits);
                assert(sink.log().last() == old(chosen)@);
            }
            if fits {
                assert(old(sink).log().is_prefix_of(sink.log())) by {
                    assert(old(sink).log() =~= sink.log().subrange(
                        0,
                        old(sink).log().len() as int,
                    ));
                }
            }
        }
        return;
    }
    solve(pool, start + 1, None, chosen, cand, target, sink);
    let ghost log1 = sink.log();
    let avail = match num_available {
        None => pool[start].1,
        Some(x) => Some(x),
    };
    let avail = match avail {
        Some(0) => {
            proof {
                assert forall|ext: Seq<usize>|
                    #[trigger] solve_extension(pool@, ext, start as int, num_available)
                        && sel_qualifies(pool@, *target, old(chosen)@ + ext) implies sink.log(
                ).contains(old(chosen)@ + ext) by {
                    if ext.to_multiset().count(start) == 0 {
                        lemma_skip_extension(pool@, ext, start as int, num_available);
                    } else {
                        assert(num_available == Some(0usize));
                        assert(false);
                    }
                }
            }
            return;
        },
        Some(x) => Some(x - 1),
        None => None,
    };
    proof {
        assert(chosen@.push(start).drop_last() =~= chosen@);
        lemma_sum_sel_fits(pool@, chosen@, target.count as int + 1);
        lemma_sum_sel_fits(pool@, chosen@.push(start), target.count as int + 1);
        assert(sel_nondecreasing(chosen@.push(start))) by {
            let p = chosen@.push(start);
            assert forall|k: int| 0 <= k < p.len() - 1 implies (#[trigger] p[k]) <= p[k + 1] by {
                if k < chosen@.len() - 1 {
                    assert(chosen@[k] <= chosen@[k + 1]);
                } else {
                    assert(p[k] == chosen@.last() && p[k + 1] == start);
                }
            }
        }
    }
    let new_ratio = cand.add_ingredient(&pool[start].0);
    chosen.push(start);
    solve(pool, start, avail, chosen, &new_ratio, target, sink);
    chosen.pop();
    proof {
        assert(chosen@ =~= old(chosen)@);
        lemma_record_prefix_trans(old(sink).log(), log1, sink.log());
        assert forall|ext: Seq<usize>|
            #[trigger] solve_extension(pool@, ext, start as int, num_available)
                && sel_qualifies(pool@, *target, old(chosen)@ + ext) implies sink.log().contains(
            old(chosen)@ + ext,
        ) by {
            if ext.to_multiset().count(start) == 0 {
                lemma_skip_extension(pool@, ext, start as int, num_available);
                lemma_contains_grows(log1, sink.log(), old(chosen)@ + ext);
            } else {
                lemma_take_extension(pool@, ext, start as int, num_available, avail);
                let rest = ext.drop_first();
                assert(old(chosen)@.push(start) + rest =~= old(chosen)@ + ext);
                assert(sink.log().contains(old(chosen)@.push(start) + rest));
            }
        }
    }
}

/// A sink that simply records every accepted candidate.
pub struct SolveCollector {
    pub found: Vec<(Vec<usize>, IngredientRatio)>,
    pub target: IngredientRatio,
    pub gpool: Ghost<Seq<CatalogEntry>>,
}

/// The collector's record is the selections it stored, in order.
pub open spec fn collector_record(found: Seq<(Vec<usize>, IngredientRatio)>) -> Seq<Seq<usize>> {
    found.map_values(|p: (Vec<usize>, IngredientRatio)| p.0@)
}

impl SolveSink for SolveCollector {
    open spec fn inv(&self) -> bool {
        forall|k: int| 0 <= k < self.found@.len() ==> solve_accepted(
            self.gpool@,
            self.target,
            (#[trigger] self.found@[k]).0@,
            self.found@[k].1,
        )
    }

    open spec fn log(&self) -> Seq<Seq<usize>> {
        collector_record(self.found@)
    }

    open spec fn config(&self) -> (IngredientRatio, Seq<CatalogEntry>) {
        (self.target, self.gpool@)
    }

    fn accept(&mut self, _pool: &Vec<CatalogEntry>, chosen: &Vec<usize>, cand: &IngredientRatio) {
        let copy = copy_indices(chosen);
        self.found.push((copy, *cand));
        proof {
            assert(collector_record(self.found@) =~= collector_record(old(self).found@).push(
                chosen@,
            ));
        }
    }
}

/// The whole depth-first search from an empty candidate, every
/// accepted candidate collected.
pub fn solve_all(pool: &Vec<CatalogEntry>, target: &IngredientRatio) -> (out: Vec<
    (Vec<usize>, IngredientRatio),
>)
    requires
        pool_ok(pool@, target.count as int + 1),
        target.count as int + 1 <= isize::MAX as int,
    ensures
        forall|k: int| 0 <= k < out@.len() ==> solve_accepted(
            pool@,
            *target,
            (#[trigger] out@[k]).0@,
            out@[k].1,
        ),
        forall|s: Seq<usize>| #[trigger] solve_extension(pool@, s, 0, None) && sel_qualifies(
            pool@,
            *target,
            s,
        ) ==> (exists|k: int| 0 <= k < out@.len() && (#[trigger] out@[k]).0@ == s),
{
    let mut sink = SolveCollector { found: Vec::new(), target: *target, gpool: Ghost(pool@) };
    let mut chosen: Vec<usize> = Vec::new();
    let cand = IngredientRatio {
        magimins: Magimins::new(0, 0, 0, 0, 0),
        taste: 0,
        feel: 0,
        sight: 0,
        smell: 0,
        sound: 0,
        count: 0,
        min: 0,
        max: 0,
        price: 0,
    };
    solve(pool, 0, None, &mut chosen, &cand, target, &mut sink);
    proof {
        assert forall|s: Seq<usize>|
            #[trigger] solve_extension(pool@, s, 0, None) && sel_qualifies(
                pool@,
                *target,
                s,
            ) implies (exists|k: int| 0 <= k < sink.found@.len() && (#[trigger] sink.found@[
        k]).0@ == s) by {
            assert(Seq::<usize>::empty() + s =~= s);
            assert(sink.log().contains(s));
            let i = choose|i: int| 0 <= i < sink.log().len() && sink.log()[i] == s;
            assert(sink.found@[i].0@ == s);
        }
    }
    sink.found
}

} // verus!
