//! Checks of the formatting options and the language fallback.
use number_names::format::Format;
use number_names::languages::en_us::{cardinal_with_format, ordinal_with_format};
use number_names::languages::Language;
use number_names::{cardinal, cardinal_with_fmt, ordinal, ordinal_with_fmt};

#[test]
fn default_format_is_american_english_spaces_and_dashes() {
    let fmt = Format::default();
    assert!(matches!(fmt.language, Language::EnUs));
    assert!(!fmt.use_commas);
    assert!(fmt.use_dashes);
    assert_eq!(cardinal_with_fmt(42, fmt), cardinal(42));
    assert_eq!(ordinal_with_fmt(42, fmt), ordinal(42));
}

#[test]
fn commas_replace_the_group_separator_only() {
    let fmt = Format { language: Language::EnUs, use_commas: true, use_dashes: true };
    assert_eq!(cardinal_with_fmt(1_234, fmt), "one thousand,two hundred thirty-four");
    assert_eq!(cardinal_with_fmt(1_000_001, fmt), "one million,one");
    assert_eq!(ordinal_with_fmt(1_000_001, fmt), "one million,first");
}

#[test]
fn disabling_dashes_replaces_the_dash_with_a_space() {
    let fmt = Format { language: Language::EnUs, use_commas: false, use_dashes: false };
    assert_eq!(cardinal_with_fmt(34, fmt), "thirty four");
    assert_eq!(ordinal_with_fmt(21, fmt), "twenty first");
}

#[test]
fn toggles_change_only_punctuation() {
    let words =
        |s: &str| -> Vec<String> { s.split([' ', '-', ',']).map(|w| w.to_string()).collect() };
    for n in [0u64, 7, 34, 567, 1_234, 1_000_001, u64::MAX] {
        let base = words(&cardinal(n));
        for commas in [false, true] {
            for dashes in [false, true] {
                let fmt =
                    Format { language: Language::EnUs, use_commas: commas, use_dashes: dashes };
                assert_eq!(words(&cardinal_with_fmt(n, fmt)), base, "Failed on {}", n);
            }
        }
    }
}

#[test]
fn unlisted_language_falls_back_to_american_english() {
    let fmt = Format { language: Language::En, use_commas: false, use_dashes: true };
    assert_eq!(cardinal_with_fmt(123, fmt), cardinal(123));
    assert_eq!(ordinal_with_fmt(123, fmt), ordinal(123));
}

#[test]
fn en_us_entry_points_match_the_top_level_ones() {
    let fmt = Format::default();
    assert_eq!(cardinal_with_format(77, fmt), cardinal(77));
    assert_eq!(ordinal_with_format(77, fmt), ordinal(77));
}
