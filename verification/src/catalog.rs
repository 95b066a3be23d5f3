//! Catalog preparation: dropping impossible ingredients and sorting by
//! descending potency.

use vstd::prelude::*;
use crate::engine::CatalogEntry;
use crate::ratio::{IngredientRatio, blocked_by_zero};
use crate::recipe::SolveAlgorithm;

verus! {

use vstd::seq_lib::{to_multiset_insert, to_multiset_remove, group_to_multiset_ensures};
use vstd::multiset::group_multiset_axioms;

/// The search order of the catalog: higher potency first, ties broken
/// by lower raw sense score first.
pub open spec fn catalog_le(x: CatalogEntry, y: CatalogEntry) -> bool {
    ||| x.0.mutamin > y.0.mutamin
    ||| (x.0.mutamin == y.0.mutamin && x.0.spec_sense_score() <= y.0.spec_sense_score())
}

pub open spec fn catalog_sorted(pool: Seq<CatalogEntry>) -> bool {
    forall|i: int, j: int| 0 <= i <= j < pool.len() ==> catalog_le(
        #[trigger] pool[i],
        #[trigger] pool[j],
    )
}

/// The search order, executably.
fn entry_precedes(x: &CatalogEntry, y: &CatalogEntry) -> (r: bool)
    requires
        x.0.wf(),
        y.0.wf(),
    ensures
        r == catalog_le(*x, *y),
{
    if x.0.mutamin > y.0.mutamin {
        true
    } else if x.0.mutamin == y.0.mutamin {
        x.0.sense_score() <= y.0.sense_score()
    } else {
        false
    }
}

/// Sort the catalog into search order (insertion sort): the result is
/// a permutation of the input, ordered by descending potency with
/// ties by ascending sense score.
pub fn sort_catalog(pool: &mut Vec<CatalogEntry>)
    requires
        forall|i: int| 0 <= i < old(pool)@.len() ==> (#[trigger] old(pool)@[i]).0.wf(),
    ensures
        final(pool)@.len() == old(pool)@.len(),
        final(pool)@.to_multiset() == old(pool)@.to_multiset(),
        catalog_sorted(final(pool)@),
        forall|i: int| 0 <= i < final(pool)@.len() ==> (#[trigger] final(pool)@[i]).0.wf(),
{
    let mut i: usize = 0;
    while i < pool.len()
        invariant
            i <= pool@.len(),
            pool@.len() == old(pool)@.len(),
            pool@.to_multiset() == old(pool)@.to_multiset(),
            forall|k: int| 0 <= k < pool@.len() ==> (#[trigger] pool@[k]).0.wf(),
            forall|p: int, q: int| 0 <= p <= q < i ==> catalog_le(
                #[trigger] pool@[p],
                #[trigger] pool@[q],
            ),
        decreases pool@.len() - i,
    {
        let mut j: usize = i;
        while j > 0 && !entry_precedes(&pool[j - 1], &pool[i])
            invariant
                j <= i,
                i < pool@.len(),
                forall|k: int| 0 <= k < pool@.len() ==> (#[trigger] pool@[k]).0.wf(),
                forall|p: int, q: int| 0 <= p <= q < i ==> catalog_le(
                    #[trigger] pool@[p],
                    #[trigger] pool@[q],
                ),
                forall|k: int| j <= k < i ==> catalog_le(pool@[i as int], #[trigger] pool@[k]),
            decreases j,
        {
            j = j - 1;
        }
        if j < i {
            let ghost v0 = pool@;
            let x = pool.remove(i);
            let ghost v1 = pool@;
            pool.insert(j, x);
            proof {
                broadcast use group_multiset_axioms;

                to_multiset_remove(v0, i as int);
                to_multiset_insert(v1, j as int, x);
                assert(v0.to_multiset().count(x) > 0) by {
                    broadcast use group_to_multiset_ensures;

                    assert(v0.contains(x)) by {
                        assert(v0[i as int] == x);
                    }
                }
                assert(pool@.to_multiset() =~= v0.to_multiset());
                assert forall|p: int, q: int| 0 <= p <= q < i + 1 implies catalog_le(
                    #[trigger] pool@[p],
                    #[trigger] pool@[q],
                ) by {
                    assert(forall|k: int| 0 <= k < j ==> pool@[k] == v0[k]);
                    assert(pool@[j as int] == x);
                    assert(forall|k: int| j < k <= i ==> pool@[k] == v0[k - 1]);
                    if q <= i {
                        if p < j && q < j {
                        } else if p < j && q == j {
                            assert(catalog_le(v0[p], v0[j - 1]));
                            assert(catalog_le(v0[j - 1], x));
                        } else if p == j && q == j {
                        } else if p == j && q > j {
                            assert(catalog_le(x, v0[q - 1]));
                        } else if p > j {
                            assert(catalog_le(v0[p - 1], v0[q - 1]));
                        } else {
                            assert(p < j && q > j);
                            assert(catalog_le(v0[p], v0[j - 1]));
                            assert(catalog_le(v0[j - 1], x));
                            assert(catalog_le(x, v0[q - 1]));
                        }
                    }
                }
            }
        } else {
            proof {
                assert forall|p: int, q: int| 0 <= p <= q < i + 1 implies catalog_le(
                    #[trigger] pool@[p],
                    #[trigger] pool@[q],
                ) by {
                    if q == i && p < i {
                        assert(catalog_le(pool@[p], pool@[i - 1]));
                        assert(catalog_le(pool@[i - 1], pool@[i as int]));
                    }
                }
            }
        }
        i = i + 1;
    }
}

/// The target admits every resource the entry brings.
pub open spec fn entry_possible(t: IngredientRatio, e: CatalogEntry) -> bool {
    !blocked_by_zero(e.0.magimins, t.magimins)
}

/// The sub-sequence of entries the target admits, in order.
pub open spec fn spec_filter_possible(t: IngredientRatio, pool: Seq<CatalogEntry>) -> Seq<
    CatalogEntry,
>
    decreases pool.len(),
{
    if pool.len() == 0 {
        Seq::empty()
    } else {
        let rest = spec_filter_possible(t, pool.drop_last());
        if entry_possible(t, pool.last()) {
            rest.push(pool.last())
        } else {
            rest
        }
    }
}

/// In EXACT mode, keep only the ingredients whose resources the target
/// admits; in APPROXIMATE mode, keep everything.
pub fn filter_catalog(
    pool: Vec<CatalogEntry>,
    target: &IngredientRatio,
    mode: SolveAlgorithm,
) -> (out: Vec<CatalogEntry>)
    ensures
        mode == SolveAlgorithm::APPROXIMATE ==> out@ == pool@,
        mode == SolveAlgorithm::EXACT ==> out@ == spec_filter_possible(*target, pool@),
{
    match mode {
        SolveAlgorithm::APPROXIMATE => pool,
        SolveAlgorithm::EXACT => {
            let ghost orig = pool@;
            let mut rest = pool;
            let mut out: Vec<CatalogEntry> = Vec::new();
            let ghost mut k: int = 0;
            proof {
                assert(orig.subrange(0, 0) =~= Seq::<CatalogEntry>::empty());
            }
            while rest.len() > 0
                invariant
                    0 <= k <= orig.len(),
                    rest@ == orig.subrange(k, orig.len() as int),
                    out@ == spec_filter_possible(*target, orig.subrange(0, k)),
                decreases rest@.len(),
            {
                let e = rest.remove(0);
                proof {
                    assert(orig.subrange(k, orig.len() as int)[0] == orig[k]);
                    assert(rest@ =~= orig.subrange(k + 1, orig.len() as int));
                    assert(orig.subrange(0, k + 1).drop_last() =~= orig.subrange(0, k));
                    assert(orig.subrange(0, k + 1).last() == orig[k]);
                }
                if target.is_possible_ingredient(&e.0) {
                    out.push(e);
                }
                proof {
                    k = k + 1;
                }
            }
            proof {
                assert(orig.subrange(k, orig.len() as int).len() == 0);
                assert(orig.subrange(0, k) =~= orig);
            }
            out
        },
    }
}

} // verus!
