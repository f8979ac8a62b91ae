//! The punctuation of an emitted expression, plain or highlighted with ANSI
//! escape sequences.

use colored::Colorize;
use vstd::prelude::*;

verus! {

/// A one-character token rendered bold in the foreground colour `code`,
/// followed by a reset.
pub open spec fn ansi_bold(code: Seq<char>, c: char) -> Seq<char> {
    seq!['\u{1b}', '[', '1', ';'] + code + seq!['m', c, '\u{1b}', '[', '0', 'm']
}

/// What a token highlighted in colour `code` may print as: itself where the
/// terminal settings turn colours off, else its bold coloured form.
pub open spec fn painted(r: Seq<char>, code: Seq<char>, c: char) -> bool {
    r == seq![c] || r == ansi_bold(code, c)
}

/// Relies on colored's `Colorize::green` and `Colorize::bold` and the
/// `Display` of `ColoredString`: the bold green form, or the text alone when
/// colours are switched off.
#[verifier::external_body]
fn green_bold(c: char) -> (r: Vec<char>)
    ensures
        painted(r@, seq!['3', '2'], c),
{
    c.to_string().green().bold().to_string().chars().collect()
}

/// Relies on colored's `Colorize::red` and `Colorize::bold` and the `Display`
/// of `ColoredString`: the bold red form, or the text alone.
#[verifier::external_body]
fn red_bold(c: char) -> (r: Vec<char>)
    ensures
        painted(r@, seq!['3', '1'], c),
{
    c.to_string().red().bold().to_string().chars().collect()
}

/// Relies on colored's `Colorize::cyan` and `Colorize::bold` and the `Display`
/// of `ColoredString`: the bold cyan form, or the text alone.
#[verifier::external_body]
fn cyan_bold(c: char) -> (r: Vec<char>)
    ensures
        painted(r@, seq!['3', '6'], c),
{
    c.to_string().cyan().bold().to_string().chars().collect()
}

/// Relies on colored's `Colorize::purple` and `Colorize::bold` and the
/// `Display` of `ColoredString`: the bold magenta form, or the text alone.
#[verifier::external_body]
fn purple_bold(c: char) -> (r: Vec<char>)
    ensures
        painted(r@, seq!['3', '5'], c),
{
    c.to_string().purple().bold().to_string().chars().collect()
}

/// The printed form of each punctuation token.
pub struct Palette {
    pub left_paren: Vec<char>,
    pub right_paren: Vec<char>,
    pub pipe: Vec<char>,
    pub left_bracket: Vec<char>,
    pub right_bracket: Vec<char>,
    pub hyphen: Vec<char>,
    pub star: Vec<char>,
    pub question: Vec<char>,
}

impl Palette {
    /// Every token printed as itself.
    pub open spec fn is_plain(&self) -> bool {
        &&& self.left_paren@ == seq!['(']
        &&& self.right_paren@ == seq![')']
        &&& self.pipe@ == seq!['|']
        &&& self.left_bracket@ == seq!['[']
        &&& self.right_bracket@ == seq![']']
        &&& self.hyphen@ == seq!['-']
        &&& self.star@ == seq!['*']
        &&& self.question@ == seq!['?']
    }

    /// Parentheses green, the pipe red, brackets and hyphen cyan, quantifiers
    /// purple, all bold, each where the terminal settings allow colours.
    pub open spec fn is_highlighted(&self) -> bool {
        &&& painted(self.left_paren@, seq!['3', '2'], '(')
        &&& painted(self.right_paren@, seq!['3', '2'], ')')
        &&& painted(self.pipe@, seq!['3', '1'], '|')
        &&& painted(self.left_bracket@, seq!['3', '6'], '[')
        &&& painted(self.right_bracket@, seq!['3', '6'], ']')
        &&& painted(self.hyphen@, seq!['3', '6'], '-')
        &&& painted(self.star@, seq!['3', '5'], '*')
        &&& painted(self.question@, seq!['3', '5'], '?')
    }

    pub fn plain() -> (r: Palette)
        ensures
            r.is_plain(),
    {
        let r = Palette {
            left_paren: vec!['('],
            right_paren: vec![')'],
            pipe: vec!['|'],
            left_bracket: vec!['['],
            right_bracket: vec![']'],
            hyphen: vec!['-'],
            star: vec!['*'],
            question: vec!['?'],
        };
        assert(r.left_paren@ =~= seq!['(']);
        assert(r.right_paren@ =~= seq![')']);
        assert(r.pipe@ =~= seq!['|']);
        assert(r.left_bracket@ =~= seq!['[']);
        assert(r.right_bracket@ =~= seq![']']);
        assert(r.hyphen@ =~= seq!['-']);
        assert(r.star@ =~= seq!['*']);
        assert(r.question@ =~= seq!['?']);
        r
    }

    pub fn highlighted() -> (r: Palette)
        ensures
            r.is_highlighted(),
    {
        Palette {
            left_paren: green_bold('('),
            right_paren: green_bold(')'),
            pipe: red_bold('|'),
            left_bracket: cyan_bold('['),
            right_bracket: cyan_bold(']'),
            hyphen: cyan_bold('-'),
            star: purple_bold('*'),
            question: purple_bold('?'),
        }
    }
}

} // verus!
