use std::collections::HashSet;

use potions::{
    CatalogEntry, Ingredient, IngredientRatio, Magimins, SolveAlgorithm, filter_catalog,
    sort_catalog,
};
use potions::engine::enumerate_all;
use potions::results::compact_counts;

fn plain(name: &str, m: Magimins, price: usize) -> Ingredient {
    Ingredient::new(name.to_string(), m, 0, 0, 0, 0, 0, price)
}

fn entry(name: &str, m: Magimins, price: usize, cap: Option<usize>) -> CatalogEntry {
    (plain(name, m, price), cap)
}

/// Count the distinct multisets among the selections by canonicalising
/// each as a sorted index list.
fn distinct_multisets(selections: &[Vec<usize>]) -> HashSet<Vec<usize>> {
    let mut set = HashSet::new();
    for sel in selections {
        let mut canon = sel.clone();
        canon.sort();
        set.insert(canon);
    }
    set
}

#[test]
fn enumeration_generates_every_multiset_exactly_once() {
    let pool: Vec<CatalogEntry> = vec![
        entry("One", Magimins::new(1, 0, 0, 0, 0), 1, None),
        entry("Two", Magimins::new(0, 1, 0, 0, 0), 1, None),
        entry("Three", Magimins::new(0, 0, 1, 0, 0), 1, None),
    ];
    let selections = enumerate_all(&pool, 3);
    // Every non-empty multiset of size <= 3 drawn from 3 items:
    // C(3+3,3) - 1 = 19.
    let distinct = distinct_multisets(&selections);
    assert_eq!(distinct.len(), 19);
    assert_eq!(selections.len(), 19, "each multiset must appear exactly once");
    for sel in &selections {
        assert!(!sel.is_empty());
        assert!(sel.len() <= 3);
        assert!(sel.iter().all(|&i| i < 3));
        // Canonical form: indices never decrease along a selection.
        assert!(sel.windows(2).all(|w| w[0] <= w[1]));
    }
}

#[test]
fn enumeration_for_two_items_size_two() {
    let pool: Vec<CatalogEntry> = vec![
        entry("One", Magimins::new(1, 0, 0, 0, 0), 1, None),
        entry("Two", Magimins::new(0, 1, 0, 0, 0), 1, None),
    ];
    let selections = enumerate_all(&pool, 2);
    // {1}, {2}, {1,1}, {1,2}, {2,2}: C(2+2,2) - 1 = 5.
    let distinct = distinct_multisets(&selections);
    assert_eq!(distinct.len(), 5);
    assert_eq!(selections.len(), 5);
}

#[test]
fn enumeration_respects_availability_caps() {
    let pool: Vec<CatalogEntry> = vec![
        entry("Scarce", Magimins::new(1, 0, 0, 0, 0), 1, Some(2)),
    ];
    let selections = enumerate_all(&pool, 5);
    // Only {x} and {x,x}: the cap stops the third copy.
    assert_eq!(selections.len(), 2);
    assert!(selections.iter().all(|s| s.len() <= 2));
}

#[test]
fn compaction_folds_adjacent_runs() {
    let items = vec![0usize, 0, 1, 0];
    let groups = compact_counts(&items);
    assert_eq!(groups, vec![(0, 2), (1, 1), (0, 1)]);

    let single = vec![7usize];
    assert_eq!(compact_counts(&single), vec![(7, 1)]);

    let run = vec![4usize, 4, 4, 4];
    assert_eq!(compact_counts(&run), vec![(4, 4)]);
}

#[test]
fn sorting_orders_by_potency_then_sense_score() {
    let loud = Ingredient::new(
        "Loud".to_string(),
        Magimins::new(6, 0, 0, 0, 0),
        1,
        1,
        1,
        0,
        0,
        1,
    );
    let quiet = Ingredient::new(
        "Quiet".to_string(),
        Magimins::new(0, 6, 0, 0, 0),
        -1,
        0,
        0,
        0,
        0,
        1,
    );
    let strong = plain("Strong", Magimins::new(5, 5, 0, 0, 0), 1);
    let mut pool: Vec<CatalogEntry> = vec![
        (loud, None),
        (strong, None),
        (quiet, None),
    ];
    sort_catalog(&mut pool);
    let names: Vec<&str> = pool.iter().map(|e| e.0.name.as_str()).collect();
    // Highest potency first; among the two of potency 6, the lower
    // sense score first.
    assert_eq!(names, vec!["Strong", "Quiet", "Loud"]);
}

#[test]
fn filtering_drops_blocked_ingredients_in_exact_mode() {
    let target = IngredientRatio {
        magimins: Magimins::new(1, 1, 0, 0, 0),
        taste: 0,
        feel: 0,
        sight: 0,
        smell: 0,
        sound: 0,
        count: 10,
        min: 0,
        max: 100,
        price: 0,
    };
    let pool: Vec<CatalogEntry> = vec![
        entry("Keep", Magimins::new(2, 1, 0, 0, 0), 1, None),
        entry("Drop", Magimins::new(0, 0, 3, 0, 0), 1, None),
        entry("AlsoKeep", Magimins::new(0, 4, 0, 0, 0), 1, None),
    ];
    let kept = filter_catalog(pool, &target, SolveAlgorithm::EXACT);
    let names: Vec<&str> = kept.iter().map(|e| e.0.name.as_str()).collect();
    assert_eq!(names, vec!["Keep", "AlsoKeep"]);
}

#[test]
fn filtering_keeps_everything_in_approximate_mode() {
    let target = IngredientRatio {
        magimins: Magimins::new(1, 1, 0, 0, 0),
        taste: 0,
        feel: 0,
        sight: 0,
        smell: 0,
        sound: 0,
        count: 10,
        min: 0,
        max: 100,
        price: 0,
    };
    let pool: Vec<CatalogEntry> = vec![
        entry("Keep", Magimins::new(2, 1, 0, 0, 0), 1, None),
        entry("Drop", Magimins::new(0, 0, 3, 0, 0), 1, None),
    ];
    let kept = filter_catalog(pool, &target, SolveAlgorithm::APPROXIMATE);
    assert_eq!(kept.len(), 2);
}
