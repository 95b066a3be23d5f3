//! Running totals of a partial recipe: resources plus sensory sums.

use vstd::prelude::*;
use crate::magimins::Magimins;
use crate::ingredient::Ingredient;
use crate::ratio::{IngredientRatio, blocked_by_zero, is_multiple, magimin_ratio, spec_clamp_sense};

verus! {

/// The combined resource vector and raw sensory totals of the
/// ingredients chosen so far.
#[derive(Clone, Copy, Debug, PartialEq, Eq, Structural)]
pub struct PotionAttributes {
    pub magimins: Magimins,
    pub taste: isize,
    pub feel: isize,
    pub sight: isize,
    pub smell: isize,
    pub sound: isize,
}

impl PotionAttributes {
    /// The totals of an empty selection.
    pub fn empty() -> (r: PotionAttributes)
        ensures
            r == PotionAttributes::spec_empty(),
    {
        PotionAttributes {
            magimins: Magimins::new(0, 0, 0, 0, 0),
            taste: 0,
            feel: 0,
            sight: 0,
            smell: 0,
            sound: 0,
        }
    }

    pub open spec fn spec_empty() -> PotionAttributes {
        PotionAttributes {
            magimins: Magimins { a: 0, b: 0, c: 0, d: 0, e: 0 },
            taste: 0,
            feel: 0,
            sight: 0,
            smell: 0,
            sound: 0,
        }
    }

    /// Extend the totals by one ingredient.
    pub fn add_ingredient(&self, i: &Ingredient) -> (r: PotionAttributes)
        requires
            i.wf(),
            self.magimins.spec_total() + i.magimins.spec_total() <= usize::MAX as int,
            isize::MIN as int <= self.taste + i.taste <= isize::MAX as int,
            isize::MIN as int <= self.feel + i.feel <= isize::MAX as int,
            isize::MIN as int <= self.sight + i.sight <= isize::MAX as int,
            isize::MIN as int <= self.smell + i.smell <= isize::MAX as int,
            isize::MIN as int <= self.sound + i.sound <= isize::MAX as int,
        ensures
            r.magimins == self.magimins.spec_plus(i.magimins),
            r.magimins.spec_total() == self.magimins.spec_total() + i.magimins.spec_total(),
            r.taste as int == self.taste + i.taste,
            r.feel as int == self.feel + i.feel,
            r.sight as int == self.sight + i.sight,
            r.smell as int == self.smell + i.smell,
            r.sound as int == self.sound + i.sound,
    {
        PotionAttributes {
            magimins: self.magimins.plus(&i.magimins),
            taste: self.taste + i.taste,
            feel: self.feel + i.feel,
            sight: self.sight + i.sight,
            smell: self.smell + i.smell,
            sound: self.sound + i.sound,
        }
    }

    pub open spec fn spec_sense_score(&self) -> int {
        spec_clamp_sense(self.taste as int) + spec_clamp_sense(self.feel as int)
            + spec_clamp_sense(self.sight as int) + spec_clamp_sense(self.smell as int)
            + spec_clamp_sense(self.sound as int)
    }

    fn clamp_sense(s: isize) -> (r: isize)
        ensures
            r as int == spec_clamp_sense(s as int),
    {
        if s < 0 {
            -1
        } else if s > 0 {
            1
        } else {
            0
        }
    }

    /// Sum of the clamped sensory totals: each sense counts at most
    /// once, however many ingredients pushed it.
    pub fn sense_score(&self) -> (r: isize)
        ensures
            r as int == self.spec_sense_score(),
    {
        PotionAttributes::clamp_sense(self.taste) + PotionAttributes::clamp_sense(self.feel)
            + PotionAttributes::clamp_sense(self.sight) + PotionAttributes::clamp_sense(self.smell)
            + PotionAttributes::clamp_sense(self.sound)
    }

    /// No candidate sense carries the sign opposite to what the target
    /// requires: a required-positive sense fails only on a negative
    /// total, a required-negative sense only on a positive one, and a
    /// zero candidate total never fails.
    pub open spec fn spec_senses_satisfied(&self, t: &IngredientRatio) -> bool {
        &&& !(t.taste > 0 && self.taste < 0) && !(t.taste < 0 && self.taste > 0)
        &&& !(t.sight > 0 && self.sight < 0) && !(t.sight < 0 && self.sight > 0)
        &&& !(t.feel > 0 && self.feel < 0) && !(t.feel < 0 && self.feel > 0)
        &&& !(t.smell > 0 && self.smell < 0) && !(t.smell < 0 && self.smell > 0)
        &&& !(t.sound > 0 && self.sound < 0) && !(t.sound < 0 && self.sound > 0)
    }

    pub fn senses_satisfied(&self, t: &IngredientRatio) -> (r: bool)
        ensures
            r == self.spec_senses_satisfied(t),
    {
        if (t.taste > 0 && self.taste < 0) || (t.taste < 0 && self.taste > 0) {
            return false;
        }
        if (t.sight > 0 && self.sight < 0) || (t.sight < 0 && self.sight > 0) {
            return false;
        }
        if (t.feel > 0 && self.feel < 0) || (t.feel < 0 && self.feel > 0) {
            return false;
        }
        if (t.smell > 0 && self.smell < 0) || (t.smell < 0 && self.smell > 0) {
            return false;
        }
        if (t.sound > 0 && self.sound < 0) || (t.sound < 0 && self.sound > 0) {
            return false;
        }
        true
    }

    /// Tri-state ratio test of these totals against a target; an
    /// all-zero resource vector trivially matches at scale 0.
    pub fn satisfying_ratio(&self, target: &IngredientRatio) -> (r: Option<usize>)
        requires
            self.magimins.total_fits(),
        ensures
            self.magimins.spec_total() == 0 ==> r == Some(0usize),
            self.magimins.spec_total() > 0 ==> {
                &&& (r is None <==> blocked_by_zero(self.magimins, target.magimins))
                &&& (match r {
                    Some(q) => q > 0 ==> is_multiple(self.magimins, target.magimins, q as int),
                    None => true,
                })
                &&& (r == Some(0usize) ==> !(exists|m: int|
                    m >= 1 && is_multiple(self.magimins, target.magimins, m)))
                &&& (forall|m: int|
                    m >= 1 && is_multiple(self.magimins, target.magimins, m) ==> r == Some(
                        m as usize,
                    ))
            },
    {
        if self.magimins.total() == 0 {
            return Some(0);
        }
        magimin_ratio(&self.magimins, &target.magimins)
    }

    /// The band of the total resource magnitude.
    pub fn tier(&self) -> (r: &'static str)
        requires
            self.magimins.total_fits(),
        ensures
            r@ == spec_tier(self.magimins.spec_total()),
    {
        let total = self.magimins.total();
        if total < 60 {
            return "Minor";
        }
        if total < 150 {
            return "Common";
        }
        if total < 290 {
            return "Greater";
        }
        if total < 470 {
            return "Grand";
        }
        if total < 720 {
            return "Superior";
        }
        "Masterwork"
    }
}

/// The six ordered bands of total resource magnitude.
pub open spec fn spec_tier(total: int) -> Seq<char> {
    if total < 60 {
        "Minor"@
    } else if total < 150 {
        "Common"@
    } else if total < 290 {
        "Greater"@
    } else if total < 470 {
        "Grand"@
    } else if total < 720 {
        "Superior"@
    } else {
        "Masterwork"@
    }
}

} // verus!
