//! The expression tree of a synthesized regular expression.

use crate::feature::Shorthand;
use vstd::prelude::*;

verus! {

/// The postfix operators of a repetition.
#[derive(Clone, Copy, Debug, PartialEq, Eq)]
pub enum Quantifier {
    KleeneStar,
    QuestionMark,
}

/// One grapheme cluster, or a run of `min..=max` copies of it; where
/// `class` is set, the cluster is one code point that stands for its whole
/// shorthand class.
#[derive(Clone, Debug, PartialEq, Eq)]
pub struct Grapheme {
    pub chars: Vec<char>,
    pub min: u32,
    pub max: u32,
    pub class: Option<Shorthand>,
}

impl Grapheme {
    /// A single occurrence of a cluster.
    pub fn new(chars: Vec<char>) -> (r: Grapheme)
        ensures
            r.chars@ == chars@,
            r.min == 1,
            r.max == 1,
            r.class is None,
    {
        Grapheme { chars, min: 1, max: 1, class: None }
    }

    /// A cluster repeated between `min` and `max` times.
    pub fn repeated(chars: Vec<char>, min: u32, max: u32) -> (r: Grapheme)
        ensures
            r.chars@ == chars@,
            r.min == min,
            r.max == max,
            r.class is None,
    {
        Grapheme { chars, min, max, class: None }
    }

    pub open spec fn spec_has_repetitions(&self) -> bool {
        !(self.min == 1 && self.max == 1)
    }

    /// Whether the cluster stands for a run rather than one occurrence.
    #[verifier::when_used_as_spec(spec_has_repetitions)]
    pub fn has_repetitions(&self) -> (r: bool)
        ensures
            r == self.spec_has_repetitions(),
    {
        !(self.min == 1 && self.max == 1)
    }
}

/// A regular expression over grapheme clusters.
#[derive(Debug, PartialEq, Eq)]
pub enum Expression {
    /// Any one of the options, in order.
    Alternation(Vec<Expression>),
    /// Any one of the code points, kept in ascending order.
    CharacterClass(Vec<char>),
    /// The left expression followed by the right one.
    Concatenation(Box<Expression>, Box<Expression>),
    /// A sequence of clusters matched verbatim.
    Literal(Vec<Grapheme>),
    /// The inner expression under a quantifier.
    Repetition(Box<Expression>, Quantifier),
}

impl Expression {
    pub open spec fn spec_is_single_codepoint(&self) -> bool {
        match self {
            Expression::CharacterClass(cs) => cs@.len() == 1,
            Expression::Literal(gs) => gs@.len() == 1 && gs@[0].chars@.len() == 1
                && !gs@[0].spec_has_repetitions(),
            _ => false,
        }
    }

    /// Whether the expression matches exactly one code point, once.
    #[verifier::when_used_as_spec(spec_is_single_codepoint)]
    pub fn is_single_codepoint(&self) -> (r: bool)
        ensures
            r == self.spec_is_single_codepoint(),
    {
        match self {
            Expression::CharacterClass(cs) => cs.len() == 1,
            Expression::Literal(gs) => gs.len() == 1 && gs[0].chars.len() == 1
                && !gs[0].has_repetitions(),
            _ => false,
        }
    }

    pub open spec fn spec_precedence(&self) -> u8 {
        match self {
            Expression::Alternation(_) => 1,
            Expression::Concatenation(_, _) => 2,
            Expression::Repetition(_, _) => 3,
            Expression::CharacterClass(_) => 4,
            Expression::Literal(_) => if self.spec_is_single_codepoint() {
                4
            } else {
                2
            },
        }
    }

    /// How tightly the expression binds: higher binds tighter.
    #[verifier::when_used_as_spec(spec_precedence)]
    pub fn precedence(&self) -> (r: u8)
        ensures
            r == self.spec_precedence(),
    {
        match self {
            Expression::Alternation(_) => 1,
            Expression::Concatenation(_, _) => 2,
            Expression::Repetition(_, _) => 3,
            Expression::CharacterClass(_) => 4,
            Expression::Literal(_) => if self.is_single_codepoint() {
                4
            } else {
                2
            },
        }
    }
}

} // verus!
