use potions::{Ingredient, IngredientRatio, Magimins, PotionAttributes, Recipe};

fn target_with(m: Magimins) -> IngredientRatio {
    IngredientRatio {
        magimins: m,
        taste: 0,
        feel: 0,
        sight: 0,
        smell: 0,
        sound: 0,
        count: 10,
        min: 0,
        max: 1000,
        price: 0,
    }
}

fn attrs(m: Magimins) -> PotionAttributes {
    PotionAttributes { magimins: m, taste: 0, feel: 0, sight: 0, smell: 0, sound: 0 }
}

#[test]
fn exact_ratio_match_returns_scale() {
    let target = target_with(Magimins::new(2, 0, 1, 1, 0));
    let cand = attrs(Magimins::new(4, 0, 2, 2, 0));
    assert_eq!(cand.satisfying_ratio(&target), Some(2));
}

#[test]
fn exact_ratio_mismatch_returns_zero() {
    let target = target_with(Magimins::new(2, 0, 1, 1, 0));
    let cand = attrs(Magimins::new(4, 0, 2, 3, 0));
    assert_eq!(cand.satisfying_ratio(&target), Some(0));
}

#[test]
fn exact_ratio_blocked_component_returns_none() {
    let target = target_with(Magimins::new(2, 0, 1, 1, 0));
    let cand = attrs(Magimins::new(4, 1, 2, 2, 0));
    assert_eq!(cand.satisfying_ratio(&target), None);
}

#[test]
fn exact_ratio_empty_candidate_is_trivial() {
    let target = target_with(Magimins::new(2, 0, 1, 1, 0));
    let cand = attrs(Magimins::new(0, 0, 0, 0, 0));
    assert_eq!(cand.satisfying_ratio(&target), Some(0));
}

#[test]
fn ratio_candidate_tri_state_on_running_totals() {
    let target = target_with(Magimins::new(1, 1, 0, 0, 0));
    let mut cand = target_with(Magimins::new(6, 6, 0, 0, 0));
    cand.count = 2;
    assert_eq!(cand.satisfying_ratio(&target), Some(6));
    cand.count = 0;
    assert_eq!(cand.satisfying_ratio(&target), Some(0));
}

#[test]
fn senses_satisfied_forbids_opposite_signs() {
    let mut cand = target_with(Magimins::new(0, 0, 0, 0, 0));
    let mut t = target_with(Magimins::new(0, 0, 0, 0, 0));
    assert!(cand.senses_satisfied(&t));
    // A zero candidate total is never opposite to a required sign.
    t.taste = 1;
    assert!(cand.senses_satisfied(&t));
    // A negative total against a required-positive sense fails.
    cand.taste = -1;
    assert!(!cand.senses_satisfied(&t));
    cand.taste = 2;
    assert!(cand.senses_satisfied(&t));
    // A positive total against a required-negative sense fails.
    t.sound = -1;
    cand.sound = 1;
    assert!(!cand.senses_satisfied(&t));
    cand.sound = 0;
    assert!(cand.senses_satisfied(&t));
    cand.sound = -2;
    assert!(cand.senses_satisfied(&t));
}

#[test]
fn possible_ingredient_respects_zero_components() {
    let t = target_with(Magimins::new(1, 1, 0, 0, 0));
    let fey = Ingredient::new(
        "Feyberry".to_string(),
        Magimins::new(6, 0, 0, 0, 0),
        0,
        0,
        0,
        0,
        0,
        4,
    );
    let sage = Ingredient::new(
        "Sage".to_string(),
        Magimins::new(0, 0, 3, 0, 0),
        0,
        0,
        0,
        0,
        0,
        2,
    );
    assert!(t.is_possible_ingredient(&fey));
    assert!(!t.is_possible_ingredient(&sage));
}

#[test]
fn ratio_sense_score_clamps() {
    let mut t = target_with(Magimins::new(0, 0, 0, 0, 0));
    t.taste = 4;
    t.feel = -3;
    t.smell = 1;
    assert_eq!(t.sense_score(), 1);
}

#[test]
fn named_recipes_map_to_their_ratios() {
    assert_eq!(Recipe::HEALTH.to_magimins().as_array(), [1, 1, 0, 0, 0]);
    assert_eq!(Recipe::MANA.to_magimins().as_array(), [0, 1, 1, 0, 0]);
    assert_eq!(Recipe::STAMINA.to_magimins().as_array(), [1, 0, 0, 0, 1]);
    assert_eq!(Recipe::SPEED.to_magimins().as_array(), [0, 0, 1, 1, 0]);
    assert_eq!(Recipe::FIRE.to_magimins().as_array(), [1, 0, 1, 0, 0]);
    assert_eq!(Recipe::ICE.to_magimins().as_array(), [1, 0, 0, 1, 0]);
    assert_eq!(Recipe::LIGHTNING.to_magimins().as_array(), [0, 1, 0, 1, 0]);
    assert_eq!(Recipe::SHADOW.to_magimins().as_array(), [0, 1, 0, 0, 1]);
    assert_eq!(Recipe::ALERT.to_magimins().as_array(), [0, 3, 4, 3, 0]);
    assert_eq!(Recipe::SIGHT.to_magimins().as_array(), [3, 4, 3, 0, 0]);
    assert_eq!(Recipe::INSIGHT.to_magimins().as_array(), [4, 3, 0, 0, 3]);
    assert_eq!(Recipe::DOWSING.to_magimins().as_array(), [3, 0, 0, 3, 4]);
    assert_eq!(Recipe::POISON.to_magimins().as_array(), [2, 0, 1, 1, 0]);
    assert_eq!(Recipe::DROWSY.to_magimins().as_array(), [1, 1, 0, 2, 0]);
    assert_eq!(Recipe::PETRI.to_magimins().as_array(), [1, 0, 2, 1, 0]);
    assert_eq!(Recipe::SILENCE.to_magimins().as_array(), [0, 2, 1, 0, 1]);
}

#[test]
fn scaled_target_projects_ratio_onto_max() {
    let mut t = target_with(Magimins::new(1, 1, 0, 0, 0));
    t.max = 575;
    let s = t.scaled_to_max();
    assert_eq!(s.magimins.as_array(), [287, 287, 0, 0, 0]);
    assert_eq!(s.max, 575);
    assert!(s.magimins.total() <= 575);
}

#[test]
fn ingredient_sense_score_is_raw_sum() {
    let i = Ingredient::new(
        "Lavender".to_string(),
        Magimins::new(1, 1, 0, 0, 0),
        1,
        -1,
        1,
        0,
        1,
        3,
    );
    assert_eq!(i.sense_score(), 2);
}
