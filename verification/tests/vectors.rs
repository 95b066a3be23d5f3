use potions::{parse_decimal, Magimins, PotionAttributes};

#[test]
fn total_and_accessors() {
    let m = Magimins::new(1, 2, 3, 4, 5);
    assert_eq!(m.total(), 15);
    assert_eq!(m.as_array(), [1, 2, 3, 4, 5]);
    let n = Magimins::from_array([9, 8, 7, 6, 5]);
    assert_eq!(n.total(), 35);
    assert_eq!(n.as_array(), [9, 8, 7, 6, 5]);
}

#[test]
fn plus_is_componentwise() {
    let m = Magimins::new(1, 0, 2, 0, 3);
    let n = Magimins::new(4, 5, 0, 1, 0);
    assert_eq!(m.plus(&n).as_array(), [5, 5, 2, 1, 3]);
}

#[test]
fn scale_div_zero_amount_gives_zero_vector() {
    let v = Magimins::new(3, 1, 0, 0, 2);
    assert_eq!(Magimins::scale_div(0, &v).as_array(), [0, 0, 0, 0, 0]);
}

#[test]
fn scale_div_zero_vector_gives_zero_vector() {
    let z = Magimins::new(0, 0, 0, 0, 0);
    assert_eq!(Magimins::scale_div(575, &z).as_array(), [0, 0, 0, 0, 0]);
}

#[test]
fn scale_div_components_and_total_bound() {
    let v = Magimins::new(1, 1, 0, 0, 0);
    let s = Magimins::scale_div(575, &v);
    assert_eq!(s.as_array(), [287, 287, 0, 0, 0]);
    assert!(s.total() <= 575);

    let w = Magimins::new(3, 2, 5, 0, 0);
    let t = Magimins::scale_div(10, &w);
    assert_eq!(t.as_array(), [3, 2, 5, 0, 0]);
    assert_eq!(t.total(), 10);

    let u = Magimins::new(1, 1, 1, 0, 0);
    let r = Magimins::scale_div(10, &u);
    assert_eq!(r.as_array(), [3, 3, 3, 0, 0]);
    assert!(r.total() <= 10);
}

fn attrs(m: Magimins) -> PotionAttributes {
    PotionAttributes { magimins: m, taste: 0, feel: 0, sight: 0, smell: 0, sound: 0 }
}

#[test]
fn tier_bands() {
    assert_eq!(attrs(Magimins::new(0, 0, 0, 0, 0)).tier(), "Minor");
    assert_eq!(attrs(Magimins::new(59, 0, 0, 0, 0)).tier(), "Minor");
    assert_eq!(attrs(Magimins::new(60, 0, 0, 0, 0)).tier(), "Common");
    assert_eq!(attrs(Magimins::new(149, 0, 0, 0, 0)).tier(), "Common");
    assert_eq!(attrs(Magimins::new(150, 0, 0, 0, 0)).tier(), "Greater");
    assert_eq!(attrs(Magimins::new(289, 0, 0, 0, 0)).tier(), "Greater");
    assert_eq!(attrs(Magimins::new(290, 0, 0, 0, 0)).tier(), "Grand");
    assert_eq!(attrs(Magimins::new(469, 0, 0, 0, 0)).tier(), "Grand");
    assert_eq!(attrs(Magimins::new(470, 0, 0, 0, 0)).tier(), "Superior");
    assert_eq!(attrs(Magimins::new(719, 0, 0, 0, 0)).tier(), "Superior");
    assert_eq!(attrs(Magimins::new(720, 0, 0, 0, 0)).tier(), "Masterwork");
}

#[test]
fn sense_score_clamps_each_sense() {
    let p = PotionAttributes {
        magimins: Magimins::new(0, 0, 0, 0, 0),
        taste: 3,
        feel: -2,
        sight: 0,
        smell: 1,
        sound: -1,
    };
    // 1 - 1 + 0 + 1 - 1
    assert_eq!(p.sense_score(), 0);
    let q = PotionAttributes {
        magimins: Magimins::new(0, 0, 0, 0, 0),
        taste: 5,
        feel: 4,
        sight: 3,
        smell: 2,
        sound: 1,
    };
    assert_eq!(q.sense_score(), 5);
}

#[test]
fn decimal_parsing_is_exact() {
    assert_eq!(parse_decimal("0"), Some(0));
    assert_eq!(parse_decimal("123"), Some(123));
    assert_eq!(parse_decimal("007"), Some(7));
    assert_eq!(parse_decimal(""), None);
    assert_eq!(parse_decimal("12a"), None);
    assert_eq!(parse_decimal("-3"), None);
    assert_eq!(
        parse_decimal("99999999999999999999999999999999"),
        None,
        "a value past the machine word is rejected"
    );
}
