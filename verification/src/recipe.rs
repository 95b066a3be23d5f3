//! Named target recipes and the choice of search objective.

use vstd::prelude::*;
use crate::magimins::Magimins;

verus! {

/// Which acceptance test drives the search.
#[allow(non_camel_case_types)]
#[derive(Clone, Copy, Debug, PartialEq, Eq, Structural)]
pub enum SolveAlgorithm {
    EXACT,
    APPROXIMATE,
}

/// The named potions and their fixed resource-ratio targets.
#[allow(non_camel_case_types)]
#[derive(Clone, Copy, Debug, PartialEq, Eq, Structural)]
pub enum Recipe {
    HEALTH,
    MANA,
    STAMINA,
    SPEED,
    FIRE,
    ICE,
    LIGHTNING,
    SHADOW,
    ALERT,
    SIGHT,
    INSIGHT,
    DOWSING,
    POISON,
    DROWSY,
    PETRI,
    SILENCE,
}

/// The ratio vector attached to each named recipe.
pub open spec fn spec_recipe_magimins(r: Recipe) -> Magimins {
    match r {
        Recipe::HEALTH => Magimins { a: 1, b: 1, c: 0, d: 0, e: 0 },
        Recipe::MANA => Magimins { a: 0, b: 1, c: 1, d: 0, e: 0 },
        Recipe::STAMINA => Magimins { a: 1, b: 0, c: 0, d: 0, e: 1 },
        Recipe::SPEED => Magimins { a: 0, b: 0, c: 1, d: 1, e: 0 },
        Recipe::FIRE => Magimins { a: 1, b: 0, c: 1, d: 0, e: 0 },
        Recipe::ICE => Magimins { a: 1, b: 0, c: 0, d: 1, e: 0 },
        Recipe::LIGHTNING => Magimins { a: 0, b: 1, c: 0, d: 1, e: 0 },
        Recipe::SHADOW => Magimins { a: 0, b: 1, c: 0, d: 0, e: 1 },
        Recipe::ALERT => Magimins { a: 0, b: 3, c: 4, d: 3, e: 0 },
        Recipe::SIGHT => Magimins { a: 3, b: 4, c: 3, d: 0, e: 0 },
        Recipe::INSIGHT => Magimins { a: 4, b: 3, c: 0, d: 0, e: 3 },
        Recipe::DOWSING => Magimins { a: 3, b: 0, c: 0, d: 3, e: 4 },
        Recipe::POISON => Magimins { a: 2, b: 0, c: 1, d: 1, e: 0 },
        Recipe::DROWSY => Magimins { a: 1, b: 1, c: 0, d: 2, e: 0 },
        Recipe::PETRI => Magimins { a: 1, b: 0, c: 2, d: 1, e: 0 },
        Recipe::SILENCE => Magimins { a: 0, b: 2, c: 1, d: 0, e: 1 },
    }
}

impl Recipe {
    /// The target ratio of this named recipe.
    pub fn to_magimins(&self) -> (r: Magimins)
        ensures
            r == spec_recipe_magimins(*self),
    {
        let mut a: usize = 0;
        let mut b: usize = 0;
        let mut c: usize = 0;
        let mut d: usize = 0;
        let mut e: usize = 0;
        match self {
            Recipe::HEALTH => {
                a = 1;
                b = 1;
            }
            Recipe::MANA => {
                b = 1;
                c = 1;
            }
            Recipe::STAMINA => {
                a = 1;
                e = 1;
            }
            Recipe::SPEED => {
                c = 1;
                d = 1;
            }
            Recipe::FIRE => {
                a = 1;
                c = 1;
            }
            Recipe::ICE => {
                a = 1;
                d = 1;
            }
            Recipe::LIGHTNING => {
                b = 1;
                d = 1;
            }
            Recipe::SHADOW => {
                b = 1;
                e = 1;
            }
            Recipe::ALERT => {
                b = 3;
                c = 4;
                d = 3;
            }
            Recipe::SIGHT => {
                a = 3;
                b = 4;
                c = 3;
            }
            Recipe::INSIGHT => {
                a = 4;
                b = 3;
                e = 3;
            }
            Recipe::DOWSING => {
                a = 3;
                d = 3;
                e = 4;
            }
            Recipe::POISON => {
                a = 2;
                c = 1;
                d = 1;
            }
            Recipe::DROWSY => {
                a = 1;
                b = 1;
                d = 2;
            }
            Recipe::PETRI => {
                a = 1;
                c = 2;
                d = 1;
            }
            Recipe::SILENCE => {
                b = 2;
                c = 1;
                e = 1;
            }
        }
        Magimins { a, b, c, d, e }
    }
}

} // verus!
