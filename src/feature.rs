//! Shorthand classes (`\d`, `\s`, `\w` and their complements) and the order
//! in which requested ones claim a code point.

use regex::Regex;
use vstd::prelude::*;

verus! {

/// The conversions that can be requested.
#[derive(Clone, Copy, Debug, PartialEq, Eq, Structural)]
pub enum Feature {
    Digit,
    NonDigit,
    Space,
    NonSpace,
    Word,
    NonWord,
    Repetition,
}

/// The shorthand classes.
#[derive(Clone, Copy, Debug, PartialEq, Eq, Structural)]
pub enum Shorthand {
    Digit,
    NonDigit,
    Space,
    NonSpace,
    Word,
    NonWord,
}

/// Which conversions are on.
#[derive(Clone, Copy, Debug, PartialEq, Eq, Structural)]
pub struct Features {
    pub digit: bool,
    pub non_digit: bool,
    pub space: bool,
    pub non_space: bool,
    pub word: bool,
    pub non_word: bool,
    pub repetition: bool,
}

/// The Unicode properties of one code point that the shorthands test:
/// decimal digit, white space, word character.
#[derive(Clone, Copy, Debug, PartialEq, Eq, Structural)]
pub struct CharKind {
    pub is_digit: bool,
    pub is_space: bool,
    pub is_word: bool,
}

/// Whether a code point is a decimal digit (Unicode `Nd`).
pub uninterp spec fn decimal_digit(c: char) -> bool;

/// Whether a code point has the Unicode `White_Space` property.
pub uninterp spec fn white_space(c: char) -> bool;

/// Whether a code point is a Unicode word character.
pub uninterp spec fn word_char(c: char) -> bool;

/// Relies on regex's `Regex::is_match` with the Unicode class `\d`
/// (`\p{Nd}`): whether the code point is a decimal digit.
#[verifier::external_body]
fn is_decimal_digit(c: char) -> (r: bool)
    ensures
        r == decimal_digit(c),
{
    Regex::new(r"^\d$").unwrap().is_match(&c.to_string())
}

/// Relies on regex's `Regex::is_match` with the Unicode class `\s`
/// (`\p{White_Space}`): whether the code point is white space.
#[verifier::external_body]
fn is_white_space(c: char) -> (r: bool)
    ensures
        r == white_space(c),
{
    Regex::new(r"^\s$").unwrap().is_match(&c.to_string())
}

/// Relies on regex's `Regex::is_match` with the Unicode class `\w`
/// (Alphabetic, marks, `Nd`, `Pc`, `Join_Control`): whether the code point
/// is a word character.
#[verifier::external_body]
fn is_word_char(c: char) -> (r: bool)
    ensures
        r == word_char(c),
{
    Regex::new(r"^\w$").unwrap().is_match(&c.to_string())
}

/// The kind of a code point.
pub open spec fn kind_of(c: char) -> CharKind {
    CharKind { is_digit: decimal_digit(c), is_space: white_space(c), is_word: word_char(c) }
}

/// The kind of a code point, as the shorthand classes see it.
pub fn char_kind(c: char) -> (r: CharKind)
    ensures
        r == kind_of(c),
{
    CharKind { is_digit: is_decimal_digit(c), is_space: is_white_space(c), is_word: is_word_char(c) }
}

/// Whether a shorthand class holds a code point.
pub open spec fn in_class(s: Shorthand, c: char) -> bool {
    match s {
        Shorthand::Digit => decimal_digit(c),
        Shorthand::NonDigit => !decimal_digit(c),
        Shorthand::Space => white_space(c),
        Shorthand::NonSpace => !white_space(c),
        Shorthand::Word => word_char(c),
        Shorthand::NonWord => !word_char(c),
    }
}

/// The printed token of a shorthand class.
pub open spec fn shorthand_text(s: Shorthand) -> Seq<char> {
    match s {
        Shorthand::Digit => seq!['\\', 'd'],
        Shorthand::NonDigit => seq!['\\', 'D'],
        Shorthand::Space => seq!['\\', 's'],
        Shorthand::NonSpace => seq!['\\', 'S'],
        Shorthand::Word => seq!['\\', 'w'],
        Shorthand::NonWord => seq!['\\', 'W'],
    }
}

/// No shorthand conversion is on.
pub open spec fn no_shorthands(f: Features) -> bool {
    !f.digit && !f.non_digit && !f.space && !f.non_space && !f.word && !f.non_word
}

/// A chosen shorthand holds the code point it was chosen for; with no
/// shorthand conversion on, none is chosen.
pub proof fn lemma_chosen_holds(c: char, f: Features)
    ensures
        chosen_shorthand(kind_of(c), f) matches Some(s) ==> in_class(s, c),
        no_shorthands(f) ==> chosen_shorthand(kind_of(c), f) is None,
{
}

/// Whether `list` requests `f`.
pub open spec fn requested(list: Seq<Feature>, f: Feature) -> bool {
    exists|i: int| 0 <= i < list.len() && list[i] == f
}

fn contains_feature(list: &Vec<Feature>, f: Feature) -> (r: bool)
    ensures
        r == requested(list@, f),
{
    let mut i: usize = 0;
    while i < list.len()
        invariant
            0 <= i <= list@.len(),
            forall|k: int| 0 <= k < i ==> list@[k] != f,
        decreases list@.len() - i,
    {
        if list[i] == f {
            return true;
        }
        i = i + 1;
    }
    false
}

/// The set of conversions named in `list`.
pub open spec fn features_of(list: Seq<Feature>) -> Features {
    Features {
        digit: requested(list, Feature::Digit),
        non_digit: requested(list, Feature::NonDigit),
        space: requested(list, Feature::Space),
        non_space: requested(list, Feature::NonSpace),
        word: requested(list, Feature::Word),
        non_word: requested(list, Feature::NonWord),
        repetition: requested(list, Feature::Repetition),
    }
}

impl Features {
    /// The set of conversions named in `list`; repeats and order do not matter.
    pub fn from_list(list: &Vec<Feature>) -> (r: Features)
        ensures
            r == features_of(list@),
    {
        Features {
            digit: contains_feature(list, Feature::Digit),
            non_digit: contains_feature(list, Feature::NonDigit),
            space: contains_feature(list, Feature::Space),
            non_space: contains_feature(list, Feature::NonSpace),
            word: contains_feature(list, Feature::Word),
            non_word: contains_feature(list, Feature::NonWord),
            repetition: contains_feature(list, Feature::Repetition),
        }
    }
}

/// Whether shorthand `s` is requested and covers a code point of kind `k`.
pub open spec fn applies(s: Shorthand, k: CharKind, f: Features) -> bool {
    match s {
        Shorthand::Digit => f.digit && k.is_digit,
        Shorthand::NonDigit => f.non_digit && !k.is_digit,
        Shorthand::Space => f.space && k.is_space,
        Shorthand::NonSpace => f.non_space && !k.is_space,
        Shorthand::Word => f.word && k.is_word,
        Shorthand::NonWord => f.non_word && !k.is_word,
    }
}

/// The first shorthand that applies, in the order digit, space, word,
/// non-digit, non-word, non-space; none where no requested one applies.
pub open spec fn chosen_shorthand(k: CharKind, f: Features) -> Option<Shorthand> {
    if applies(Shorthand::Digit, k, f) {
        Some(Shorthand::Digit)
    } else if applies(Shorthand::Space, k, f) {
        Some(Shorthand::Space)
    } else if applies(Shorthand::Word, k, f) {
        Some(Shorthand::Word)
    } else if applies(Shorthand::NonDigit, k, f) {
        Some(Shorthand::NonDigit)
    } else if applies(Shorthand::NonWord, k, f) {
        Some(Shorthand::NonWord)
    } else if applies(Shorthand::NonSpace, k, f) {
        Some(Shorthand::NonSpace)
    } else {
        None
    }
}

/// The shorthand that a code point of kind `k` is printed as.
pub fn shorthand_for(k: CharKind, f: Features) -> (r: Option<Shorthand>)
    ensures
        r == chosen_shorthand(k, f),
{
    if f.digit && k.is_digit {
        Some(Shorthand::Digit)
    } else if f.space && k.is_space {
        Some(Shorthand::Space)
    } else if f.word && k.is_word {
        Some(Shorthand::Word)
    } else if f.non_digit && !k.is_digit {
        Some(Shorthand::NonDigit)
    } else if f.non_word && !k.is_word {
        Some(Shorthand::NonWord)
    } else if f.non_space && !k.is_space {
        Some(Shorthand::NonSpace)
    } else {
        None
    }
}

/// Whether `a` takes precedence over `b` on the code points both cover.
pub open spec fn dominates(a: Shorthand, b: Shorthand) -> bool {
    match (a, b) {
        (Shorthand::Digit, Shorthand::Word) => true,
        (Shorthand::Digit, Shorthand::NonSpace) => true,
        (Shorthand::NonDigit, Shorthand::NonWord) => true,
        (Shorthand::NonDigit, Shorthand::NonSpace) => true,
        (Shorthand::Space, Shorthand::NonDigit) => true,
        (Shorthand::Space, Shorthand::NonWord) => true,
        (Shorthand::Word, Shorthand::NonDigit) => true,
        (Shorthand::Word, Shorthand::NonSpace) => true,
        (Shorthand::NonWord, Shorthand::NonSpace) => true,
        _ => false,
    }
}

/// Where a requested shorthand applies to a code point, no shorthand that it
/// dominates is chosen for it, and some requested shorthand always is.
pub proof fn lemma_priority(k: CharKind, f: Features, a: Shorthand, b: Shorthand)
    requires
        dominates(a, b),
        applies(a, k, f),
    ensures
        chosen_shorthand(k, f) != Some(b),
        chosen_shorthand(k, f) is Some,
        applies(chosen_shorthand(k, f)->Some_0, k, f),
{
}

} // verus!
