//! Accepted recipes and the count-compacted form used for display.

use vstd::prelude::*;
use crate::attributes::PotionAttributes;
use crate::engine::{
    CatalogEntry, attr_totals, sel_in_range, sel_nondecreasing, sel_within_caps, sum_price,
    sum_sel,
};

verus! {

/// An accepted recipe: the catalog indices chosen (in selection
/// order), the final running totals, and the combined price.
#[derive(Debug)]
pub struct PotionRecipe {
    pub attributes: PotionAttributes,
    pub ingredients: Vec<usize>,
    pub cost: usize,
}

/// The recipe's snapshot really is the sum over its selection.
pub open spec fn recipe_consistent(pool: Seq<CatalogEntry>, r: PotionRecipe) -> bool {
    &&& sel_in_range(pool, r.ingredients@)
    &&& sel_nondecreasing(r.ingredients@)
    &&& sel_within_caps(pool, r.ingredients@)
    &&& 1 <= r.ingredients@.len()
    &&& attr_totals(r.attributes) == sum_sel(pool, r.ingredients@)
    &&& r.cost as int == sum_price(pool, r.ingredients@)
}

/// `n` copies of `x`.
pub open spec fn repeat_item(x: usize, n: int) -> Seq<usize> {
    Seq::new(n as nat, |i: int| x)
}

/// What a run-length compacted sequence of `(item, count)` groups
/// stands for.
pub open spec fn expand_groups(gs: Seq<(usize, usize)>) -> Seq<usize>
    decreases gs.len(),
{
    if gs.len() == 0 {
        Seq::empty()
    } else {
        expand_groups(gs.drop_last()) + repeat_item(gs.last().0, gs.last().1 as int)
    }
}

/// Run-length compaction of a non-empty selection: adjacent equal
/// items fold into one `(item, count)` group.
pub fn compact_counts(items: &Vec<usize>) -> (out: Vec<(usize, usize)>)
    requires
        items@.len() >= 1,
    ensures
        expand_groups(out@) == items@,
        out@.len() >= 1,
        forall|k: int| 0 <= k < out@.len() ==> (#[trigger] out@[k]).1 >= 1,
        forall|k: int| 0 <= k < out@.len() - 1 ==> (#[trigger] out@[k]).0 != out@[k + 1].0,
{
    let mut out: Vec<(usize, usize)> = Vec::new();
    let mut cur: usize = items[0];
    let mut count: usize = 1;
    let mut i: usize = 1;
    proof {
        assert(expand_groups(out@) + repeat_item(cur, count as int) =~= items@.subrange(0, 1));
    }
    while i < items.len()
        invariant
            1 <= i <= items@.len(),
            1 <= count <= i,
            expand_groups(out@) + repeat_item(cur, count as int) == items@.subrange(0, i as int),
            forall|k: int| 0 <= k < out@.len() ==> (#[trigger] out@[k]).1 >= 1,
            forall|k: int| 0 <= k < out@.len() - 1 ==> (#[trigger] out@[k]).0 != out@[k + 1].0,
            out@.len() >= 1 ==> out@.last().0 != cur,
        decreases items@.len() - i,
    {
        if items[i] == cur {
            proof {
                assert(repeat_item(cur, count + 1) =~= repeat_item(cur, count as int).push(cur));
                assert(items@.subrange(0, i + 1) =~= items@.subrange(0, i as int).push(items@[i as int]));
                assert(expand_groups(out@) + repeat_item(cur, count + 1)
                    =~= (expand_groups(out@) + repeat_item(cur, count as int)).push(cur));
            }
            count = count + 1;
        } else {
            proof {
                let pushed = out@.push((cur, count));
                assert(pushed.drop_last() =~= out@);
                assert(expand_groups(pushed) == expand_groups(out@) + repeat_item(cur, count as int));
                assert(repeat_item(items@[i as int], 1) =~= seq![items@[i as int]]);
                assert(items@.subrange(0, i + 1) =~= items@.subrange(0, i as int).push(items@[i as int]));
                assert(expand_groups(pushed) + repeat_item(items@[i as int], 1)
                    =~= (expand_groups(out@) + repeat_item(cur, count as int)).push(items@[i as int]));
            }
            out.push((cur, count));
            cur = items[i];
            count = 1;
        }
        i = i + 1;
    }
    proof {
        let pushed = out@.push((cur, count));
        assert(pushed.drop_last() =~= out@);
        assert(expand_groups(pushed) == expand_groups(out@) + repeat_item(cur, count as int));
        assert(items@.subrange(0, items@.len() as int) =~= items@);
    }
    out.push((cur, count));
    out
}

} // verus!
