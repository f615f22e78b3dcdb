use land_odds::math::{chance_of_split, chance_of_splits, mult_range, mult_range_down_by,
    n_choose_k, Fraction};

/// Floating-point value of a fraction: the one place precision is lost.
fn eval(f: &Fraction) -> f64 {
    f.numerator() as f64 / f.denominator() as f64
}

#[test]
fn mult_range_small_ranges() {
    assert_eq!(mult_range(2, 5), 120);
    assert_eq!(mult_range(7, 7), 7);
    assert_eq!(mult_range(1, 6), 720);
}

#[test]
fn mult_range_empty_range_is_one() {
    assert_eq!(mult_range(1, 0), 1);
    assert_eq!(mult_range(5, 3), 1);
}

#[test]
fn mult_range_down_by_documented_example() {
    // 5 * 4 * 3, the quotient 5! / 2!
    assert_eq!(mult_range_down_by(5, 3), 60);
}

#[test]
fn mult_range_down_by_zero_is_one() {
    // The empty-product convention holds regardless of `begin`.
    assert_eq!(mult_range_down_by(5, 0), 1);
    assert_eq!(mult_range_down_by(0, 0), 1);
}

#[test]
fn mult_range_down_by_past_zero_is_zero() {
    // 3 * 2 * 1 * 0
    assert_eq!(mult_range_down_by(3, 4), 0);
}

#[test]
fn n_choose_k_values() {
    assert_eq!(n_choose_k(6, 2), 15);
    assert_eq!(n_choose_k(5, 0), 1);
    assert_eq!(n_choose_k(5, 5), 1);
    assert_eq!(n_choose_k(60, 6), 50_063_860);
    assert_eq!(n_choose_k(40, 4), 91_390);
}

#[test]
fn fraction_holds_its_parts() {
    let f = Fraction::new(3, 4);
    assert_eq!(f.numerator(), 3);
    assert_eq!(f.denominator(), 4);
}

#[test]
fn two_lands_in_six_cards_from_sixty() {
    // 20 lands in a 60-card deck, hand of 6, exactly 2 lands.
    let f = chance_of_split(6, 2, 20, 60);
    // C(6,2) * (20*19) * (40*39*38*37) over 60*59*58*57*56*55.
    assert_eq!(f.numerator(), 15 * 380 * 2_193_360);
    assert_eq!(f.denominator(), 36_045_979_200);
    // The same probability in lowest combinatorial terms:
    // C(20,2) * C(40,4) / C(60,6). Both quotients of exactly
    // representable integers, so the divisions round identically.
    assert_eq!(eval(&f), 17_364_100.0f64 / 50_063_860.0f64);
}

#[test]
fn two_or_three_lands_in_six_cards_from_sixty() {
    let fs = chance_of_splits(6, &[2, 3], 20, 60);
    assert_eq!(fs.len(), 2);
    let p2 = eval(&fs[0]);
    let p3 = eval(&fs[1]);
    assert_eq!(p2, 17_364_100.0f64 / 50_063_860.0f64);
    assert_eq!(p3, 11_263_200.0f64 / 50_063_860.0f64);
    let both = p2 + p3;
    assert!((both - 28_627_300.0f64 / 50_063_860.0f64).abs() < 1e-12);
    assert!((both - 0.5718).abs() < 1e-4);
}

#[test]
fn no_lands_boundary() {
    // Zero lands drawn: C(40,6) / C(60,6), cross-multiplied exactly.
    let f = chance_of_split(6, 0, 20, 60);
    assert_eq!(f.numerator(), 2_763_633_600); // 40*39*38*37*36*35
    assert_eq!(f.numerator() * 50_063_860, 3_838_380 * f.denominator());
}

#[test]
fn all_lands_boundary() {
    // Six lands drawn: C(20,6) / C(60,6), cross-multiplied exactly.
    let f = chance_of_split(6, 6, 20, 60);
    assert_eq!(f.numerator(), 27_907_200); // 20*19*18*17*16*15
    assert_eq!(f.numerator() * 50_063_860, 38_760 * f.denominator());
}

#[test]
fn splits_partition_all_hands() {
    // Over every count 0..=6 the numerators add up to the denominator
    // exactly, so the probabilities add up to 1.
    let fs = chance_of_splits(6, &[0, 1, 2, 3, 4, 5, 6], 20, 60);
    assert_eq!(fs.len(), 7);
    let total: u128 = fs.iter().map(|f| f.numerator()).sum();
    assert_eq!(total, fs[0].denominator());
    let as_float: f64 = fs.iter().map(eval).sum();
    assert!((as_float - 1.0).abs() < 1e-12);
}

#[test]
fn swapping_type_and_other_gives_identical_fraction() {
    // 2 of 20 lands in 6 cards versus 4 of the 40 non-lands.
    let a = chance_of_split(6, 2, 20, 60);
    let b = chance_of_split(6, 4, 40, 60);
    assert_eq!(a.numerator(), b.numerator());
    assert_eq!(a.denominator(), b.denominator());
}

#[test]
fn evaluation_is_idempotent() {
    let f = chance_of_split(6, 3, 20, 60);
    let first = eval(&f);
    let second = eval(&f);
    assert_eq!(first.to_bits(), second.to_bits());
}

#[test]
fn batch_preserves_input_order() {
    let fs = chance_of_splits(6, &[3, 1, 2], 20, 60);
    assert_eq!(fs.len(), 3);
    let one_by_one = [
        chance_of_split(6, 3, 20, 60),
        chance_of_split(6, 1, 20, 60),
        chance_of_split(6, 2, 20, 60),
    ];
    for (got, want) in fs.iter().zip(one_by_one.iter()) {
        assert_eq!(got.numerator(), want.numerator());
        assert_eq!(got.denominator(), want.denominator());
    }
}

#[test]
fn batch_of_no_counts_is_empty() {
    let fs = chance_of_splits(6, &[], 20, 60);
    assert!(fs.is_empty());
}

#[test]
fn hand_is_whole_deck() {
    // Drawing the whole deck leaves no uncertainty.
    let f = chance_of_split(3, 2, 2, 3);
    assert_eq!(f.numerator(), f.denominator());
    assert_eq!(eval(&f), 1.0);
}

#[test]
fn more_lands_wanted_than_the_deck_holds() {
    // One land in the deck cannot put two in the hand.
    let f = chance_of_split(3, 2, 1, 60);
    assert_eq!(f.numerator(), 0);
    assert_eq!(eval(&f), 0.0);
}

#[test]
fn deck_size_is_a_parameter() {
    // The same query against a 100-card deck.
    let f = chance_of_split(7, 3, 40, 100);
    // C(7,3) * (40*39*38) * (60*59*58*57) over 100*99*...*94.
    let num: u128 = 35 * (40 * 39 * 38) * (60 * 59 * 58 * 57);
    let denom: u128 = 100 * 99 * 98 * 97 * 96 * 95 * 94;
    assert_eq!(f.numerator(), num);
    assert_eq!(f.denominator(), denom);
}
