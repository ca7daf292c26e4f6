use std::borrow::Cow;

use stringer::to_snakecase_ascii;

fn is_borrowed(c: &Cow<'_, str>) -> bool {
    matches!(c, Cow::Borrowed(_))
}

#[test]
fn ascii_empty() {
    let results = to_snakecase_ascii("");
    assert_eq!(results, "");
    assert_eq!(is_borrowed(&results), true);
}

#[test]
fn ascii_equal() {
    let results = to_snakecase_ascii("sample_text");
    assert_eq!(results, "sample_text");
    assert_eq!(is_borrowed(&results), true);
}

#[test]
fn ascii_space() {
    let results = to_snakecase_ascii("sample text");
    assert_eq!(results, "sample_text");
    assert_eq!(is_borrowed(&results), false);
}

#[test]
fn ascii_dash() {
    let results = to_snakecase_ascii("sample-text");
    assert_eq!(results, "sample_text");
    assert_eq!(is_borrowed(&results), false);
}

#[test]
fn ascii_multi_underscore() {
    let results = to_snakecase_ascii("sample___text");
    assert_eq!(results, "sample_text");
    assert_eq!(is_borrowed(&results), false);
}

#[test]
fn ascii_ending_underscore() {
    let results = to_snakecase_ascii("sample_text_");
    assert_eq!(results, "sample_text");
    assert_eq!(is_borrowed(&results), false);
}

#[test]
fn ascii_ending_multi_underscore() {
    let results = to_snakecase_ascii("sample_text__");
    assert_eq!(results, "sample_text");
    assert_eq!(is_borrowed(&results), false);
}

#[test]
fn ascii_uppercase_sep() {
    let results = to_snakecase_ascii("sampleText");
    assert_eq!(results, "sample_text");
    assert_eq!(is_borrowed(&results), false);
}

#[test]
fn ascii_multi_uppercase() {
    let results = to_snakecase_ascii("inviteYourCustomersAddInvites");
    assert_eq!(results, "invite_your_customers_add_invites");
    assert_eq!(is_borrowed(&results), false);
}

#[test]
fn ascii_space_with_uppercase() {
    let results = to_snakecase_ascii("sample 2 Text");
    assert_eq!(results, "sample_2_text");
    assert_eq!(is_borrowed(&results), false);
}

#[test]
fn ascii_special_chars() {
    let results = to_snakecase_ascii("FOO:BAR$BAZ");
    assert_eq!(results, "foo_bar_baz");
    assert_eq!(is_borrowed(&results), false);
}

#[test]
fn ascii_caps() {
    let results = to_snakecase_ascii("samPLE text");
    assert_eq!(results, "sam_ple_text");
    assert_eq!(is_borrowed(&results), false);
}

#[test]
fn ascii_multi_spaces() {
    let results = to_snakecase_ascii("   sample   2    Text   ");
    assert_eq!(results, "sample_2_text");
    assert_eq!(is_borrowed(&results), false);
}

#[test]
fn ascii_special_with_spaces() {
    let results = to_snakecase_ascii("   $#$sample   2    Text   ");
    assert_eq!(results, "sample_2_text");
    assert_eq!(is_borrowed(&results), false);
}

#[test]
fn ascii_caps_with_space_sep() {
    let results = to_snakecase_ascii("SAMPLE 2 TEXT");
    assert_eq!(results, "sample_2_text");
    assert_eq!(is_borrowed(&results), false);
}

#[test]
fn ascii_leading_underscore_special() {
    let results = to_snakecase_ascii("___$$Base64Encode");
    assert_eq!(results, "base64_encode");
    assert_eq!(is_borrowed(&results), false);
}

#[test]
fn ascii_caps_hash_sep() {
    let results = to_snakecase_ascii("FOO#BAR#BAZ");
    assert_eq!(results, "foo_bar_baz");
    assert_eq!(is_borrowed(&results), false);
}

#[test]
fn ascii_domain() {
    let results = to_snakecase_ascii("something.com");
    assert_eq!(results, "something_com");
    assert_eq!(is_borrowed(&results), false);
}

#[test]
fn ascii_special_leading_and_trailing() {
    let results = to_snakecase_ascii("$something%");
    assert_eq!(results, "something");
    assert_eq!(is_borrowed(&results), false);
}

#[test]
fn ascii_camel_case() {
    let results = to_snakecase_ascii("CStringRef");
    assert_eq!(results, "cstring_ref");
    assert_eq!(is_borrowed(&results), false);
}

#[test]
fn ascii_unicode_mixed() {
    let results = to_snakecase_ascii("ẞ•¶§ƒ˚foo˙∆˚¬");
    assert_eq!(results, "foo");
    assert_eq!(is_borrowed(&results), false);
}

#[test]
fn ascii_unicode_uppercase() {
    let results = to_snakecase_ascii("ẞ");
    assert_eq!(results, "");
    assert_eq!(is_borrowed(&results), false);
}

#[test]
fn ascii_special_chars_long() {
    let results = to_snakecase_ascii("FOO:BAR$BAZ__Sample    Text___");
    assert_eq!(results, "foo_bar_baz_sample_text");
    assert_eq!(is_borrowed(&results), false);
}

#[test]
fn ascii_digit_underscore() {
    let results = to_snakecase_ascii("5test");
    assert_eq!(results, "5test");
    assert_eq!(is_borrowed(&results), true);
}

#[test]
fn ascii_character_digit() {
    let results = to_snakecase_ascii("test5");
    assert_eq!(results, "test5");
    assert_eq!(is_borrowed(&results), true);
}

#[test]
fn ascii_uppercase_digit() {
    let results = to_snakecase_ascii("THE5r");
    assert_eq!(results, "the5r");
    assert_eq!(is_borrowed(&results), false);
}

#[test]
fn ascii_digit_uppercase() {
    let results = to_snakecase_ascii("5TEst");
    assert_eq!(results, "5test");
    assert_eq!(is_borrowed(&results), false);
}

#[test]
fn ascii_unicode_borrowed_input() {
    let results = to_snakecase_ascii("ß_ƒ_foo");
    assert_eq!(results, "foo");
    assert_eq!(is_borrowed(&results), false);
}

#[test]
fn ascii_digit_regrouped_after_word() {
    let results = to_snakecase_ascii("ab5Xy");
    assert_eq!(results, "ab_5xy");
    assert_eq!(is_borrowed(&results), false);
}

#[test]
fn ascii_digit_regrouped_after_underscore() {
    let results = to_snakecase_ascii("a_5X");
    assert_eq!(results, "a_5x");
    assert_eq!(is_borrowed(&results), false);
}

#[test]
fn ascii_only_last_digit_regrouped() {
    let results = to_snakecase_ascii("x_55X");
    assert_eq!(results, "x_5_5x");
    assert_eq!(is_borrowed(&results), false);
}

#[test]
fn ascii_digit_kept_before_separator() {
    let results = to_snakecase_ascii("test5 x");
    assert_eq!(results, "test5_x");
    assert_eq!(is_borrowed(&results), false);
}

#[test]
fn ascii_digits_stay_with_caps() {
    let results = to_snakecase_ascii("AB5");
    assert_eq!(results, "ab5");
    assert_eq!(is_borrowed(&results), false);
}

#[test]
fn ascii_leading_underscore() {
    let results = to_snakecase_ascii("_sample");
    assert_eq!(results, "sample");
    assert_eq!(is_borrowed(&results), false);
}

#[test]
fn ascii_only_underscore() {
    let results = to_snakecase_ascii("_");
    assert_eq!(results, "");
    assert_eq!(is_borrowed(&results), false);
}

#[test]
fn ascii_only_separators() {
    let results = to_snakecase_ascii("$%^ _-");
    assert_eq!(results, "");
    assert_eq!(is_borrowed(&results), false);
}

#[test]
fn ascii_lower_to_upper_split() {
    let results = to_snakecase_ascii("aBcD");
    assert_eq!(results, "a_bc_d");
    assert_eq!(is_borrowed(&results), false);
}

#[test]
fn ascii_idempotent_on_scenarios() {
    for s in [
        "sample text",
        "inviteYourCustomersAddInvites",
        "FOO:BAR$BAZ__Sample    Text___",
        "ẞ•¶§ƒ˚foo˙∆˚¬",
        "5TEst",
        "a_5X",
        "ab5Xy",
    ] {
        let once = to_snakecase_ascii(s);
        let twice = to_snakecase_ascii(&once);
        assert_eq!(twice, once);
        assert!(is_borrowed(&twice));
    }
}

#[test]
fn ascii_borrowed_result_is_the_input() {
    let s = String::from("snake_case_9");
    let r = to_snakecase_ascii(&s);
    match r {
        Cow::Borrowed(b) => assert_eq!(b.as_ptr(), s.as_ptr()),
        Cow::Owned(_) => panic!("expected a borrowed result"),
    }
}

#[test]
fn ascii_canonical_shape_of_output() {
    for s in ["__a__B__c__", "  Hello, World!  ", "x--Y--z", "ẞ ẞ ẞ", "A_B_C_", "é9É_Z"] {
        let r = to_snakecase_ascii(s);
        assert!(!r.starts_with('_'));
        assert!(!r.ends_with('_'));
        assert!(!r.contains("__"));
        assert!(r.bytes().all(|b| b == b'_' || b.is_ascii_lowercase() || b.is_ascii_digit()));
    }
}

#[test]
fn ascii_segment_count_matches_words() {
    let r = to_snakecase_ascii("one Two THREE4 fiveSix");
    assert_eq!(r, "one_two_three4_five_six");
    assert_eq!(r.split('_').count(), 5);
}
