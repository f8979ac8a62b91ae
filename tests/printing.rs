use grex::ast::{Expression, Grapheme, Quantifier};
use grex::fmt::{
    format_alternation, format_character_class, format_concatenation, format_literal,
    format_repetition, Style,
};
use grex::palette::Palette;

fn plain() -> Style {
    Style { escape_non_ascii: false, surrogates: false, palette: Palette::plain() }
}

fn escaping(surrogates: bool) -> Style {
    Style { escape_non_ascii: true, surrogates, palette: Palette::plain() }
}

fn lit(s: &str) -> Expression {
    Expression::Literal(s.chars().map(|c| Grapheme::new(vec![c])).collect())
}

#[test]
fn literal_escapes_metacharacters() {
    let gs: Vec<Grapheme> = "a.b*(c)".chars().map(|c| Grapheme::new(vec![c])).collect();
    assert_eq!(format_literal(&gs, &plain()), "a\\.b\\*\\(c\\)");
}

#[test]
fn literal_escapes_non_ascii() {
    let gs: Vec<Grapheme> = "My ♥".chars().map(|c| Grapheme::new(vec![c])).collect();
    assert_eq!(format_literal(&gs, &escaping(false)), "My \\u{2665}");
    assert_eq!(format_literal(&gs, &plain()), "My ♥");
}

#[test]
fn literal_astral_as_surrogate_pair() {
    let gs = vec![Grapheme::new(vec!['𝄞'])];
    assert_eq!(format_literal(&gs, &escaping(true)), "\\u{D834}\\u{DD1E}");
    assert_eq!(format_literal(&gs, &escaping(false)), "\\u{1D11E}");
}

#[test]
fn literal_with_repeated_graphemes() {
    let gs = vec![Grapheme::repeated(vec!['a'], 3, 3), Grapheme::repeated(vec!['b'], 3, 3)];
    assert_eq!(format_literal(&gs, &plain()), "a{3}b{3}");
    let gs = vec![Grapheme::repeated(vec!['a', 'b'], 2, 12)];
    assert_eq!(format_literal(&gs, &plain()), "(ab){2,12}");
}

#[test]
fn character_class_ranges() {
    assert_eq!(format_character_class(&vec!['c', 'd'], &plain()), "[cd]");
    assert_eq!(format_character_class(&vec!['a', 'b', 'c', 'd', 'x'], &plain()), "[a-dx]");
    assert_eq!(format_character_class(&vec!['1', '2', '4', '5', '6'], &plain()), "[124-6]");
}

#[test]
fn character_class_escapes() {
    assert_eq!(format_character_class(&vec!['\t', '\n', '-', ']'], &plain()), "[\\t\\n\\-\\]]");
    assert_eq!(format_character_class(&vec!['a', '♥'], &escaping(false)), "[a\\u{2665}]");
}

#[test]
fn character_class_of_one_member_is_bare() {
    assert_eq!(format_character_class(&vec!['.'], &plain()), "\\.");
}

#[test]
fn character_class_range_skips_surrogates() {
    let cs = vec!['\u{D7FF}', '\u{E000}', '\u{E001}'];
    assert_eq!(format_character_class(&cs, &escaping(false)), "[\\u{D7FF}-\\u{E001}]");
}

#[test]
fn concatenation_groups_alternation_only() {
    let alt = Expression::Alternation(vec![lit("b"), lit("xy")]);
    assert_eq!(format_concatenation(&lit("a"), &alt, &plain()), "a(b|xy)");
    let class = Expression::CharacterClass(vec!['c', 'd']);
    assert_eq!(format_concatenation(&lit("ab"), &class, &plain()), "ab[cd]");
}

#[test]
fn alternation_joins_with_pipes() {
    let opts = vec![lit("hello"), lit("world")];
    assert_eq!(format_alternation(&opts, &plain()), "hello|world");
    assert_eq!(format_alternation(&vec![], &plain()), "");
}

#[test]
fn repetition_groups_by_precedence() {
    assert_eq!(format_repetition(&lit("a"), &Quantifier::QuestionMark, &plain()), "a?");
    assert_eq!(format_repetition(&lit("ab"), &Quantifier::KleeneStar, &plain()), "(ab)*");
    let inner = Expression::Concatenation(
        Box::new(lit("a")),
        Box::new(Expression::Repetition(Box::new(lit("a")), Quantifier::QuestionMark)),
    );
    assert_eq!(format_repetition(&inner, &Quantifier::QuestionMark, &plain()), "(aa?)?");
}

#[test]
fn nested_expression_prints_with_precedence() {
    let tail = Expression::Repetition(
        Box::new(Expression::Concatenation(
            Box::new(lit("a")),
            Box::new(Expression::Repetition(Box::new(lit("a")), Quantifier::QuestionMark)),
        )),
        Quantifier::QuestionMark,
    );
    let e = Expression::Concatenation(Box::new(lit("a")), Box::new(tail));
    assert_eq!(e.to_regex(&plain()), "a(aa?)?");
}

#[test]
fn highlighted_tokens_are_plain_or_bold_colours() {
    let p = Palette::highlighted();
    let paren: String = p.left_paren.iter().collect();
    assert!(paren == "(" || paren == "\u{1b}[1;32m(\u{1b}[0m");
    let pipe: String = p.pipe.iter().collect();
    assert!(pipe == "|" || pipe == "\u{1b}[1;31m|\u{1b}[0m");
    let hyphen: String = p.hyphen.iter().collect();
    assert!(hyphen == "-" || hyphen == "\u{1b}[1;36m-\u{1b}[0m");
    let star: String = p.star.iter().collect();
    assert!(star == "*" || star == "\u{1b}[1;35m*\u{1b}[0m");
}
