//! Scenario checks for the word-composition and ordinal-suffix rules.
use number_names::languages::en_us::ordinalize;
use number_names::{cardinal, ordinal};

#[test]
fn zero_is_named_directly() {
    assert_eq!(cardinal(0), "zero");
    assert_eq!(ordinal(0), "zeroth");
}

#[test]
fn single_word_table_is_exact() {
    let words = [
        "zero", "one", "two", "three", "four", "five", "six", "seven", "eight", "nine", "ten",
        "eleven", "twelve", "thirteen", "fourteen", "fifteen", "sixteen", "seventeen", "eighteen",
        "nineteen",
    ];
    for (n, word) in words.iter().enumerate() {
        assert_eq!(cardinal(n as u64), *word);
    }
}

#[test]
fn tens_compose_with_a_dash_only_for_a_nonzero_ones_digit() {
    assert_eq!(cardinal(20), "twenty");
    assert_eq!(cardinal(34), "thirty-four");
    assert_eq!(cardinal(90), "ninety");
    assert!(!cardinal(40).contains('-'));
    assert!(cardinal(41).contains('-'));
}

#[test]
fn hundred_appears_only_with_a_nonzero_hundreds_digit() {
    assert_eq!(cardinal(100), "one hundred");
    assert_eq!(cardinal(567), "five hundred sixty-seven");
    assert_eq!(cardinal(99), "ninety-nine");
    assert!(!cardinal(1_000_099).contains("hundred"));
}

#[test]
fn zero_groups_are_skipped() {
    assert_eq!(cardinal(1_000_000_000), "one billion");
    assert_eq!(cardinal(1_000_000), "one million");
    assert_eq!(cardinal(1_000_001), "one million one");
    assert_eq!(cardinal(2_000_000_000_001), "two trillion one");
}

#[test]
fn irregular_ordinals_are_exact() {
    assert_eq!(ordinal(1), "first");
    assert_eq!(ordinal(2), "second");
    assert_eq!(ordinal(3), "third");
    assert_eq!(ordinal(5), "fifth");
    assert_eq!(ordinal(8), "eighth");
    assert_eq!(ordinal(9), "ninth");
    assert_eq!(ordinal(12), "twelfth");
    assert_eq!(ordinal(20), "twentieth");
    assert_eq!(ordinal(100), "one hundredth");
}

#[test]
fn regular_ordinals_take_the_th_suffix() {
    assert_eq!(ordinal(4), "fourth");
    assert_eq!(ordinal(10), "tenth");
    assert_eq!(ordinal(1_000), "one thousandth");
    assert_eq!(ordinal(1_000_000_000), "one billionth");
}

#[test]
fn largest_value_round_trip() {
    assert_eq!(
        cardinal(u64::MAX),
        "eighteen quintillion four hundred forty-six quadrillion seven hundred forty-four \
         trillion seventy-three billion seven hundred nine million five hundred fifty-one \
         thousand six hundred fifteen"
    );
    assert!(ordinal(u64::MAX).ends_with("six hundred fifteenth"));
}

#[test]
fn ordinal_changes_only_the_final_word() {
    for n in [21u64, 100, 345, 1_000_567, u64::MAX] {
        let c = cardinal(n);
        let o = ordinal(n);
        let break_pos = c.rfind([' ', '-']).map_or(0, |p| p + 1);
        assert_eq!(o[..break_pos], c[..break_pos], "Failed on {}", n);
    }
}

#[test]
fn ordinalize_rewrites_the_trailing_sub_token() {
    assert_eq!(ordinalize("twenty-three".to_string()), "twenty-third");
    assert_eq!(ordinalize("one hundred".to_string()), "one hundredth");
    assert_eq!(ordinalize("five".to_string()), "fifth");
    assert_eq!(ordinalize("ninety".to_string()), "ninetieth");
}
