use potions::{
    CatalogEntry, Ingredient, IngredientRatio, Magimins, rms_sq, search_approx, search_exact,
    solve_all,
};
use potions::approx::{offer_score, project};

fn plain(name: &str, m: Magimins, price: usize) -> Ingredient {
    Ingredient::new(name.to_string(), m, 0, 0, 0, 0, 0, price)
}

fn target(m: Magimins, count: usize, min: usize, max: usize) -> IngredientRatio {
    IngredientRatio {
        magimins: m,
        taste: 0,
        feel: 0,
        sight: 0,
        smell: 0,
        sound: 0,
        count,
        min,
        max,
        price: 0,
    }
}

#[test]
fn squared_distance_folds_in_total_mismatch() {
    // Component difference 2 and total difference 2: 2*2 + 2*2 = 8,
    // so the distance itself is sqrt(8).
    let expected = Magimins::new(10, 0, 0, 0, 0);
    let actual = Magimins::new(8, 0, 0, 0, 0);
    let s = rms_sq(&expected, 10, &actual);
    assert_eq!(s, 8);
    let distance = (s as f64).sqrt();
    assert!((distance - 8f64.sqrt()).abs() < 1e-12);
}

#[test]
fn squared_distance_is_zero_on_a_perfect_hit() {
    let expected = Magimins::new(4, 3, 0, 0, 5);
    let actual = Magimins::new(4, 3, 0, 0, 5);
    assert_eq!(rms_sq(&expected, 12, &actual), 0);
}

#[test]
fn best_score_cell_never_regresses() {
    let offers: [u128; 5] = [5, 9, 3, 7, 3];
    let mut cell: Option<u128> = None;
    let mut observed: Vec<Option<u128>> = vec![cell];
    for x in offers {
        cell = offer_score(cell, x);
        observed.push(cell);
    }
    assert_eq!(observed.last().copied().unwrap(), Some(3));
    // Once a value is present it only ever improves.
    for pair in observed.windows(2) {
        match (pair[0], pair[1]) {
            (None, _) => {}
            (Some(_), None) => panic!("the best score was lost"),
            (Some(a), Some(b)) => assert!(b <= a, "the best score regressed"),
        }
    }
}

#[test]
fn projection_pours_budget_onto_largest_shortfall() {
    let expected = Magimins::new(10, 4, 0, 0, 0);
    let actual = Magimins::new(2, 1, 0, 0, 0);
    // Shortfalls are 8 and 3; five units all go to the first kind.
    let p = project(&expected, &actual, 5);
    assert_eq!(p.as_array(), [7, 1, 0, 0, 0]);
    // A budget beyond the combined shortfall stops at the target.
    let q = project(&expected, &actual, 20);
    assert_eq!(q.as_array(), [10, 4, 0, 0, 0]);
    // Ties are spread within one unit of each other.
    let r = project(&Magimins::new(5, 5, 0, 0, 0), &Magimins::new(0, 0, 0, 0, 0), 3);
    assert_eq!(r.as_array(), [2, 1, 0, 0, 0]);
    // A component already past its target never moves.
    let s = project(&Magimins::new(3, 0, 0, 0, 0), &Magimins::new(1, 9, 0, 0, 0), 4);
    assert_eq!(s.as_array(), [3, 9, 0, 0, 0]);
}

#[test]
fn exact_ratio_identity_scale_is_one() {
    let pool = feyberry_catalog();
    let t = target(Magimins::new(6, 6, 0, 0, 0), 2, 10, 12);
    let found = search_exact(&pool, &t);
    assert_eq!(found.len(), 1);
    assert_eq!(found[0].attributes.satisfying_ratio(&t), Some(1));
}

fn feyberry_catalog() -> Vec<CatalogEntry> {
    vec![
        (plain("Feyberry", Magimins::new(6, 0, 0, 0, 0), 4), None),
        (plain("MandrakeRoot", Magimins::new(0, 6, 0, 0, 0), 5), None),
    ]
}

#[test]
fn exact_search_end_to_end() {
    let pool = feyberry_catalog();
    let t = target(Magimins::new(1, 1, 0, 0, 0), 2, 10, 12);
    let found = search_exact(&pool, &t);
    assert_eq!(found.len(), 1, "exactly one recipe matches");
    let recipe = &found[0];
    // One Feyberry and one MandrakeRoot.
    let mut counts = [0usize; 2];
    for &i in recipe.ingredients.iter() {
        counts[i] += 1;
    }
    assert_eq!(counts, [1, 1]);
    assert_eq!(recipe.attributes.magimins.total(), 12);
    assert_eq!(recipe.cost, 9);
    assert_eq!(recipe.attributes.satisfying_ratio(&t), Some(6));
}

#[test]
fn exact_search_respects_price_budget() {
    let pool = feyberry_catalog();
    let mut t = target(Magimins::new(1, 1, 0, 0, 0), 2, 10, 12);
    t.price = 8;
    let found = search_exact(&pool, &t);
    assert!(found.is_empty(), "the only match costs 9, over the budget of 8");
    t.price = 9;
    let found = search_exact(&pool, &t);
    assert_eq!(found.len(), 1);
}

#[test]
fn exact_search_respects_sense_flags() {
    // Both berries pull taste down, against a required-positive taste.
    let sour = |name: &str, m: Magimins, price: usize| {
        Ingredient::new(name.to_string(), m, -1, 0, 0, 0, 0, price)
    };
    let pool: Vec<CatalogEntry> = vec![
        (sour("Feyberry", Magimins::new(6, 0, 0, 0, 0), 4), None),
        (sour("MandrakeRoot", Magimins::new(0, 6, 0, 0, 0), 5), None),
    ];
    let mut t = target(Magimins::new(1, 1, 0, 0, 0), 2, 10, 12);
    t.taste = 1;
    let found = search_exact(&pool, &t);
    assert!(found.is_empty(), "a negative taste is opposite to the required sign");
    // A zero taste total against the same flag is not opposite, so the
    // plain catalog still matches.
    let plain_pool = feyberry_catalog();
    let found = search_exact(&plain_pool, &t);
    assert_eq!(found.len(), 1);
    // And a positive total against a required-negative flag fails.
    t.taste = -1;
    let sweet_pool: Vec<CatalogEntry> = vec![
        (
            Ingredient::new(
                "Feyberry".to_string(),
                Magimins::new(6, 0, 0, 0, 0),
                1,
                0,
                0,
                0,
                0,
                4,
            ),
            None,
        ),
        (
            Ingredient::new(
                "MandrakeRoot".to_string(),
                Magimins::new(0, 6, 0, 0, 0),
                1,
                0,
                0,
                0,
                0,
                5,
            ),
            None,
        ),
    ];
    let found = search_exact(&sweet_pool, &t);
    assert!(found.is_empty(), "a positive taste is opposite to the required negative");
}

#[test]
fn exact_search_prunes_unreachable_minimums() {
    // Sorted catalog, descending potency.  A line of Small ingredients
    // can never climb back over the minimum, and is cut short; both
    // recipes that reach the band are still found.
    let pool: Vec<CatalogEntry> = vec![
        (plain("Big", Magimins::new(10, 0, 0, 0, 0), 1), None),
        (plain("Small", Magimins::new(1, 0, 0, 0, 0), 1), None),
    ];
    let t = target(Magimins::new(1, 0, 0, 0, 0), 2, 11, 20);
    let found = search_exact(&pool, &t);
    let mut totals: Vec<usize> = found
        .iter()
        .map(|r| r.attributes.magimins.total())
        .collect();
    totals.sort();
    assert_eq!(totals, vec![11, 20]);
}

#[test]
fn approximate_search_records_improving_candidates() {
    let pool: Vec<CatalogEntry> = vec![
        (plain("Feyberry", Magimins::new(6, 0, 0, 0, 0), 4), None),
    ];
    // Already-scaled target: all twelve resources on the first kind.
    let t = target(Magimins::new(12, 0, 0, 0, 0), 2, 6, 12);
    let out = search_approx(&pool, &t);
    assert_eq!(out.results.len(), 2);
    assert_eq!(out.results[0].attributes.magimins.total(), 6);
    assert_eq!(out.results[1].attributes.magimins.total(), 12);
    // The double Feyberry hits the scaled target exactly.
    assert_eq!(out.best_sq, Some(0));
}

#[test]
fn approximate_search_prunes_with_optimistic_projection() {
    // Two kinds of berry; the target wants only the first kind, and
    // the solver must still terminate and keep its best.
    let pool: Vec<CatalogEntry> = vec![
        (plain("Feyberry", Magimins::new(6, 0, 0, 0, 0), 4), None),
        (plain("MandrakeRoot", Magimins::new(0, 6, 0, 0, 0), 5), None),
    ];
    let t = target(Magimins::new(12, 0, 0, 0, 0), 2, 6, 12);
    let out = search_approx(&pool, &t);
    assert_eq!(out.best_sq, Some(0));
    for r in &out.results {
        let total = r.attributes.magimins.total();
        assert!((6..=12).contains(&total));
        assert!(r.ingredients.len() <= 2);
    }
}

#[test]
fn depth_first_solver_collects_bounded_candidates() {
    let pool = feyberry_catalog();
    let t = target(Magimins::new(1, 1, 0, 0, 0), 2, 10, 12);
    let found = solve_all(&pool, &t);
    // {Fey,Fey}, {Fey,Mandrake}, {Mandrake,Mandrake} all total 12;
    // the depth-first solver checks bounds and senses, not the ratio.
    assert_eq!(found.len(), 3);
    for (sel, cand) in &found {
        assert_eq!(sel.len(), 2);
        assert_eq!(cand.max, 12);
        assert_eq!(cand.count, 2);
    }
}

#[test]
fn depth_first_solver_respects_price_and_count() {
    let pool = feyberry_catalog();
    let mut t = target(Magimins::new(1, 1, 0, 0, 0), 2, 10, 12);
    t.price = 8;
    let found = solve_all(&pool, &t);
    // Only the double Feyberry costs 8 or less.
    assert_eq!(found.len(), 1);
    assert_eq!(found[0].1.price, 8);
}
