use grex::config::RegExpConfig;
use grex::regexp::RegExp;

fn cases(xs: &[&str]) -> Vec<String> {
    xs.iter().map(|x| x.to_string()).collect()
}

#[test]
fn default_two_examples() {
    let mut tc = cases(&["a", "ab"]);
    let config = RegExpConfig::new();
    let re = RegExp::from(&mut tc, &config);
    assert_eq!(tc, cases(&["a", "ab"]));
    assert_eq!(re.to_regexp_string(), "^(?:a|ab)$");
}

#[test]
fn single_example_no_group() {
    let mut tc = cases(&["abc"]);
    let config = RegExpConfig::new();
    let re = RegExp::from(&mut tc, &config);
    assert_eq!(re.to_regexp_string(), "^abc$");
}

#[test]
fn case_insensitive_lowercases_and_flags() {
    let mut tc = cases(&["B", "a"]);
    let mut config = RegExpConfig::new();
    config.is_case_insensitive_matching = true;
    let re = RegExp::from(&mut tc, &config);
    assert_eq!(tc, cases(&["a", "b"]));
    assert_eq!(re.to_regexp_string(), "(?i)^(?:a|b)$");
}

#[test]
fn sort_orders_by_length_then_lexicographic() {
    let mut tc = cases(&["ccc", "a", "bb", "ab", "b"]);
    RegExp::sort(&mut tc);
    assert_eq!(tc, cases(&["a", "b", "ab", "bb", "ccc"]));
}

#[test]
fn sort_removes_duplicates() {
    let mut tc = cases(&["bb", "a", "bb", "a", "bb"]);
    RegExp::sort(&mut tc);
    assert_eq!(tc, cases(&["a", "bb"]));
}

#[test]
fn sort_orders_by_byte_length_not_character_count() {
    // "\u{e9}" is one character but two UTF-8 bytes, so it ties with "ab"
    // on length and the code-unit tie-break puts "ab" first.
    let mut tc = cases(&["\u{e9}", "ab"]);
    RegExp::sort(&mut tc);
    assert_eq!(tc, cases(&["ab", "\u{e9}"]));

    let mut tc2 = cases(&["\u{e9}\u{e9}", "abc", "a"]);
    RegExp::sort(&mut tc2);
    assert_eq!(tc2, cases(&["a", "abc", "\u{e9}\u{e9}"]));
}

#[test]
fn from_orders_branches_by_byte_length() {
    let mut tc = cases(&["\u{e9}", "ab"]);
    let config = RegExpConfig::new();
    let re = RegExp::from(&mut tc, &config);
    assert_eq!(tc, cases(&["ab", "\u{e9}"]));
    assert_eq!(re.to_regexp_string(), "^(?:ab|\u{e9})$");
}

#[test]
fn sort_is_idempotent() {
    let mut once = cases(&["zz", "b", "yy", "a", "b"]);
    RegExp::sort(&mut once);
    let mut twice = once.clone();
    RegExp::sort(&mut twice);
    assert_eq!(once, twice);
}

#[test]
fn lowercase_pass_rewrites_each_example() {
    let mut tc = cases(&["AbC", "XY"]);
    RegExp::convert_to_lowercase(&mut tc);
    assert_eq!(tc, cases(&["abc", "xy"]));
}

#[test]
fn metacharacters_are_escaped() {
    let mut tc = cases(&["a(b"]);
    let config = RegExpConfig::new();
    let re = RegExp::from(&mut tc, &config);
    assert_eq!(re.to_regexp_string(), "^a\\(b$");
}

#[test]
fn vertical_tab_is_escaped_in_postprocessing() {
    let mut tc = cases(&["a\u{b}b"]);
    let config = RegExpConfig::new();
    let re = RegExp::from(&mut tc, &config);
    assert_eq!(re.to_regexp_string(), "^a\\vb$");
}

#[test]
fn repetition_folding_counts_runs() {
    let mut tc = cases(&["aaa"]);
    let mut config = RegExpConfig::new();
    config.is_repetition_converted = true;
    let re = RegExp::from(&mut tc, &config);
    assert_eq!(re.to_regexp_string(), "^a{3}$");
}

#[test]
fn repetition_folding_keeps_singletons() {
    let mut tc = cases(&["aab"]);
    let mut config = RegExpConfig::new();
    config.is_repetition_converted = true;
    let re = RegExp::from(&mut tc, &config);
    assert_eq!(re.to_regexp_string(), "^a{2}b$");
}

#[test]
fn char_class_folding_narrows_to_digit_and_word() {
    let mut tc = cases(&["a1"]);
    let mut config = RegExpConfig::new();
    config.is_char_class_feature_enabled = true;
    let re = RegExp::from(&mut tc, &config);
    assert_eq!(re.to_regexp_string(), "^\\w\\d$");
}

#[test]
fn char_classes_fold_before_repetitions() {
    let mut tc = cases(&["12"]);
    let mut config = RegExpConfig::new();
    config.is_char_class_feature_enabled = true;
    config.is_repetition_converted = true;
    let re = RegExp::from(&mut tc, &config);
    assert_eq!(re.to_regexp_string(), "^\\d{2}$");
}

#[test]
fn capturing_group_style() {
    let mut tc = cases(&["a", "b"]);
    let mut config = RegExpConfig::new();
    config.is_capturing_group_enabled = true;
    let re = RegExp::from(&mut tc, &config);
    assert_eq!(re.to_regexp_string(), "^(a|b)$");
}

#[test]
fn colorized_decorations_carry_escapes() {
    let mut tc = cases(&["a"]);
    let mut config = RegExpConfig::new();
    config.is_output_colorized = true;
    let re = RegExp::from(&mut tc, &config);
    assert_eq!(
        re.to_regexp_string(),
        "\u{1b}[1;33m^\u{1b}[0ma\u{1b}[1;33m$\u{1b}[0m"
    );
}

#[test]
fn verbose_single_example_zero_indentation() {
    let mut tc = cases(&["abc"]);
    let mut config = RegExpConfig::new();
    config.is_verbose_mode_enabled = true;
    let re = RegExp::from(&mut tc, &config);
    assert_eq!(re.to_regexp_string(), "(?x)\n^\nabc\n$");
}

#[test]
fn verbose_escaped_parenthesis_keeps_level() {
    let mut tc = cases(&["a(b"]);
    let mut config = RegExpConfig::new();
    config.is_verbose_mode_enabled = true;
    let re = RegExp::from(&mut tc, &config);
    assert_eq!(re.to_regexp_string(), "(?x)\n^\na\n\\(\nb\n$");
}

#[test]
fn verbose_alternation_indents_group_body() {
    let mut tc = cases(&["a", "ab"]);
    let mut config = RegExpConfig::new();
    config.is_verbose_mode_enabled = true;
    let re = RegExp::from(&mut tc, &config);
    assert_eq!(
        re.to_regexp_string(),
        "(?x)\n^\n(?:\n  a\n  |\n  ab\n)\n$"
    );
}

#[test]
fn verbose_space_is_escaped() {
    let mut tc = cases(&["a b"]);
    let mut config = RegExpConfig::new();
    config.is_verbose_mode_enabled = true;
    let re = RegExp::from(&mut tc, &config);
    assert_eq!(re.to_regexp_string(), "(?x)\n^\na\\ b\n$");
}

#[test]
fn grapheme_segmentation_keeps_combining_marks_together() {
    let mut tc = cases(&["e\u{301}e\u{301}"]);
    let mut config = RegExpConfig::new();
    config.is_repetition_converted = true;
    let re = RegExp::from(&mut tc, &config);
    assert_eq!(re.to_regexp_string(), "^(?:e\u{301}){2}$");
}

#[test]
fn empty_example_set_matches_nothing() {
    let mut tc: Vec<String> = Vec::new();
    let config = RegExpConfig::new();
    let re = RegExp::from(&mut tc, &config);
    assert_eq!(re.to_regexp_string(), "^[]$");
}

#[test]
fn empty_example_is_kept() {
    let mut tc = cases(&["", "a"]);
    let config = RegExpConfig::new();
    let re = RegExp::from(&mut tc, &config);
    assert_eq!(tc, cases(&["", "a"]));
    assert_eq!(re.to_regexp_string(), "^(?:|a)$");
}
