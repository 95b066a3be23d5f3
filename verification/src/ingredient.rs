//! Catalog items: immutable ingredients with resources, senses and a price.

use vstd::prelude::*;
use crate::magimins::Magimins;

verus! {

/// One catalog item.  `mutamin` caches the total of `magimins` (the
/// ingredient's potency); the five sensory deltas are each -1, 0 or +1.
#[derive(Debug)]
pub struct Ingredient {
    pub name: String,
    pub magimins: Magimins,
    pub mutamin: usize,
    pub taste: isize,
    pub feel: isize,
    pub sight: isize,
    pub smell: isize,
    pub sound: isize,
    pub price: usize,
}

impl Ingredient {
    /// Structural invariant: the cached potency is the vector total and
    /// every sensory delta is a sign.
    pub open spec fn wf(&self) -> bool {
        &&& self.magimins.total_fits()
        &&& self.mutamin as int == self.magimins.spec_total()
        &&& -1 <= self.taste <= 1
        &&& -1 <= self.feel <= 1
        &&& -1 <= self.sight <= 1
        &&& -1 <= self.smell <= 1
        &&& -1 <= self.sound <= 1
    }

    /// Raw sum of the five sensory deltas.
    pub open spec fn spec_sense_score(&self) -> int {
        self.taste + self.feel + self.sight + self.smell + self.sound
    }

    pub fn new(
        name: String,
        magimins: Magimins,
        taste: isize,
        feel: isize,
        sight: isize,
        smell: isize,
        sound: isize,
        price: usize,
    ) -> (r: Ingredient)
        requires
            magimins.total_fits(),
            -1 <= taste <= 1,
            -1 <= feel <= 1,
            -1 <= sight <= 1,
            -1 <= smell <= 1,
            -1 <= sound <= 1,
        ensures
            r.wf(),
            r.name == name,
            r.magimins == magimins,
            r.taste == taste,
            r.feel == feel,
            r.sight == sight,
            r.smell == smell,
            r.sound == sound,
            r.price == price,
    {
        let mutamin = magimins.total();
        Ingredient { name, magimins, mutamin, taste, feel, sight, smell, sound, price }
    }

    pub fn sense_score(&self) -> (r: isize)
        requires
            self.wf(),
        ensures
            r as int == self.spec_sense_score(),
    {
        self.taste + self.feel + self.sight + self.smell + self.sound
    }
}

} // verus!
