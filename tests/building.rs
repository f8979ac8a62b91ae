use grex::builder::RegExpBuilder;
use grex::ingest::{case_precedes, ordered_cases};
use grex::feature::{shorthand_for, CharKind, Feature, Features, Shorthand};

fn cases(v: &[&str]) -> Vec<String> {
    v.iter().map(|s| s.to_string()).collect()
}

#[test]
fn two_words_become_an_alternation() {
    assert_eq!(RegExpBuilder::from(&cases(&["hello", "world"])).build(), "hello|world");
}

#[test]
fn duplicates_and_order_do_not_change_the_output() {
    let once = RegExpBuilder::from(&cases(&["abc", "abd"])).build();
    let twice = RegExpBuilder::from(&cases(&["abd", "abc", "abc", "abd"])).build();
    assert_eq!(once, twice);
    assert_eq!(once, "ab[cd]");
}

#[test]
fn shared_prefix_is_factored_out() {
    assert_eq!(RegExpBuilder::from(&cases(&["abc", "abd"])).build(), "ab[cd]");
}

#[test]
fn shared_prefix_and_suffix_are_factored_out() {
    assert_eq!(RegExpBuilder::from(&cases(&["abc", "axc"])).build(), "a[bx]c");
    assert_eq!(RegExpBuilder::from(&cases(&["xaby", "xcy"])).build(), "x(ab|c)y");
}

#[test]
fn longer_cases_come_first() {
    assert_eq!(RegExpBuilder::from(&cases(&["a", "aa", "aaa"])).build(), "a(aa|a|)");
    assert_eq!(RegExpBuilder::from(&cases(&["b", "", "ab"])).build(), "ab|b|");
}

#[test]
fn single_code_points_become_a_class() {
    assert_eq!(RegExpBuilder::from(&cases(&["c", "a", "b", "x"])).build(), "[a-cx]");
    assert_eq!(RegExpBuilder::from(&cases(&["d", "c"])).build(), "[cd]");
    assert_eq!(RegExpBuilder::from(&cases(&["-", "a"])).build(), "[\\-a]");
}

#[test]
fn empty_input_gives_the_empty_pattern() {
    assert_eq!(RegExpBuilder::from(&vec![]).build(), "");
    assert_eq!(RegExpBuilder::from(&cases(&[""])).build(), "");
}

#[test]
fn escaping_non_ascii() {
    let mut b = RegExpBuilder::from(&cases(&["My ♥"]));
    b.with_escaping_of_non_ascii_chars(false);
    assert_eq!(b.build(), "My \\u{2665}");
}

#[test]
fn escaping_astral_with_surrogates() {
    let mut b = RegExpBuilder::from(&cases(&["𝄞"]));
    b.with_escaping_of_non_ascii_chars(true);
    assert_eq!(b.build(), "\\u{D834}\\u{DD1E}");
}

#[test]
fn grapheme_clusters_stay_together() {
    let b = RegExpBuilder::from(&cases(&["e\u{301}x", "y"]));
    let e = b.build_expression();
    match e {
        grex::ast::Expression::Alternation(opts) => match &opts[0] {
            grex::ast::Expression::Literal(gs) => {
                assert_eq!(gs.len(), 2);
                assert_eq!(gs[0].chars, vec!['e', '\u{301}']);
            }
            _ => panic!("expected a literal"),
        },
        _ => panic!("expected an alternation"),
    }
}

#[test]
fn highlighting_keeps_the_text() {
    let mut b = RegExpBuilder::from(&cases(&["ab", "cd"]));
    b.with_syntax_highlighting();
    let r = b.build();
    assert!(r == "ab|cd" || r == "ab\u{1b}[1;31m|\u{1b}[0mcd");
}

#[test]
fn features_from_list() {
    let f = Features::from_list(&vec![Feature::Word, Feature::Digit, Feature::Word]);
    assert!(f.digit && f.word);
    assert!(!f.space && !f.non_digit && !f.non_space && !f.non_word && !f.repetition);
}

#[test]
fn digit_wins_over_word() {
    let f = Features::from_list(&vec![Feature::Digit, Feature::Word]);
    let digit = CharKind { is_digit: true, is_space: false, is_word: true };
    let letter = CharKind { is_digit: false, is_space: false, is_word: true };
    assert_eq!(shorthand_for(digit, f), Some(Shorthand::Digit));
    assert_eq!(shorthand_for(letter, f), Some(Shorthand::Word));
}

#[test]
fn priority_pairs() {
    let all = Features::from_list(&vec![
        Feature::NonSpace,
        Feature::NonWord,
        Feature::NonDigit,
        Feature::Word,
        Feature::Space,
        Feature::Digit,
    ]);
    let space = CharKind { is_digit: false, is_space: true, is_word: false };
    let punct = CharKind { is_digit: false, is_space: false, is_word: false };
    let letter = CharKind { is_digit: false, is_space: false, is_word: true };
    assert_eq!(shorthand_for(space, all), Some(Shorthand::Space));
    assert_eq!(shorthand_for(punct, all), Some(Shorthand::NonDigit));
    assert_eq!(shorthand_for(letter, all), Some(Shorthand::Word));
    let f = Features::from_list(&vec![Feature::NonWord, Feature::NonSpace]);
    assert_eq!(shorthand_for(punct, f), Some(Shorthand::NonWord));
    let none = Features::from_list(&vec![Feature::Repetition]);
    assert_eq!(shorthand_for(punct, none), None);
}

#[test]
fn repetitions_become_bounds() {
    let mut b = RegExpBuilder::from(&cases(&["aaabbb"]));
    b.with_conversion_of(&vec![Feature::Repetition]);
    assert_eq!(b.build(), "a{3}b{3}");
    let mut b = RegExpBuilder::from(&cases(&["a", "aa", "xyz"]));
    b.with_conversion_of(&vec![Feature::Repetition]);
    assert_eq!(b.build(), "xyz|a{2}|a");
}

#[test]
fn repetitions_off_keep_clusters() {
    assert_eq!(RegExpBuilder::from(&cases(&["aaabbb"])).build(), "aaabbb");
}

#[test]
fn collapse_runs_counts_each_run() {
    let clusters = vec![vec!['a'], vec!['a'], vec!['b'], vec!['a'], vec!['a'], vec!['a']];
    let gs = grex::repetition::collapse_runs(&clusters);
    assert_eq!(gs.len(), 3);
    assert_eq!((gs[0].min, gs[0].max, gs[0].chars.clone()), (2, 2, vec!['a']));
    assert_eq!((gs[1].min, gs[1].max, gs[1].chars.clone()), (1, 1, vec!['b']));
    assert_eq!((gs[2].min, gs[2].max, gs[2].chars.clone()), (3, 3, vec!['a']));
}

#[test]
fn case_order_longer_first_then_code_points() {
    assert!(case_precedes(&vec!['b', 'b'], &vec!['a']));
    assert!(case_precedes(&vec!['a', 'z'], &vec!['b', 'a']));
    assert!(!case_precedes(&vec!['a'], &vec!['a']));
    let ordered = ordered_cases(vec![vec!['b'], vec!['a', 'a'], vec!['b'], vec!['a']]);
    assert_eq!(ordered, vec![vec!['a', 'a'], vec!['a'], vec!['b']]);
}

#[test]
fn digit_prints_as_digit_class_over_word() {
    let mut b = RegExpBuilder::from(&cases(&["1"]));
    b.with_conversion_of(&vec![Feature::Digit, Feature::Word]);
    assert_eq!(b.build(), "\\d");
    let mut b = RegExpBuilder::from(&cases(&["a1"]));
    b.with_conversion_of(&vec![Feature::Word, Feature::Digit]);
    assert_eq!(b.build(), "\\w\\d");
}

#[test]
fn space_and_non_space_classes() {
    let mut b = RegExpBuilder::from(&cases(&["a b"]));
    b.with_conversion_of(&vec![Feature::NonSpace, Feature::Space]);
    assert_eq!(b.build(), "\\S\\s\\S");
    let mut b = RegExpBuilder::from(&cases(&["a-"]));
    b.with_conversion_of(&vec![Feature::NonSpace, Feature::NonWord]);
    assert_eq!(b.build(), "\\S\\W");
}

#[test]
fn unicode_digits_are_digits() {
    let mut b = RegExpBuilder::from(&cases(&["\u{0663}x"]));
    b.with_conversion_of(&vec![Feature::Digit]);
    assert_eq!(b.build(), "\\dx");
}

#[test]
fn char_kind_follows_unicode() {
    let k = grex::feature::char_kind('7');
    assert!(k.is_digit && k.is_word && !k.is_space);
    let k = grex::feature::char_kind('\u{2003}');
    assert!(!k.is_digit && !k.is_word && k.is_space);
    let k = grex::feature::char_kind('_');
    assert!(!k.is_digit && k.is_word && !k.is_space);
}

#[test]
fn digit_cases_collapse_to_one_pattern() {
    let mut b = RegExpBuilder::from(&cases(&["12", "34", "56"]));
    b.with_conversion_of(&vec![Feature::Digit]);
    assert_eq!(b.build(), "\\d\\d");
    let mut b = RegExpBuilder::from(&cases(&["1", "2"]));
    b.with_conversion_of(&vec![Feature::Digit]);
    assert_eq!(b.build(), "\\d");
    let mut b = RegExpBuilder::from(&cases(&["a1", "b22"]));
    b.with_conversion_of(&vec![Feature::Digit]);
    assert_eq!(b.build(), "b\\d\\d|a\\d");
}

#[test]
fn digit_runs_with_repetition() {
    let mut b = RegExpBuilder::from(&cases(&["11"]));
    b.with_conversion_of(&vec![Feature::Digit, Feature::Repetition]);
    assert_eq!(b.build(), "\\d{2}");
}
