//! The printer: an expression tree to the text of a regular expression, with
//! parentheses only where precedence asks for them.

use crate::ast::{Expression, Grapheme, Quantifier};
use crate::feature::{shorthand_text, Shorthand};
use crate::escape::{class_char_text, literal_char_text, push_class_char, push_literal_char};
use crate::palette::Palette;
use vstd::prelude::*;

verus! {

broadcast use vstd::std_specs::vec::axiom_vec_index_decreases;

/// How an expression is printed; none of it changes what the expression matches.
pub struct Style {
    pub escape_non_ascii: bool,
    pub surrogates: bool,
    pub palette: Palette,
}

/// The decimal digit for a value below ten.
pub open spec fn dec_digit(d: nat) -> char {
    (48 + d) as u8 as char
}

/// Decimal notation of `n` without leading zeros.
pub open spec fn dec_text(n: nat) -> Seq<char>
    decreases n,
{
    if n < 10 {
        seq![dec_digit(n)]
    } else {
        dec_text(n / 10) + seq![dec_digit(n % 10)]
    }
}

fn push_decimal(out: &mut Vec<char>, n: u32)
    ensures
        final(out)@ == old(out)@ + dec_text(n as nat),
    decreases n,
{
    if n >= 10 {
        push_decimal(out, n / 10);
    }
    out.push((48u8 + (n % 10) as u8) as char);
}

/// The code points of a cluster, each escaped for use outside a class.
pub open spec fn chars_text(cs: Seq<char>, st: Style) -> Seq<char>
    decreases cs.len(),
{
    if cs.len() == 0 {
        seq![]
    } else {
        chars_text(cs.drop_last(), st) + literal_char_text(
            cs.last(),
            st.escape_non_ascii,
            st.surrogates,
        )
    }
}

/// The bounds `{m}` or `{m,n}` of a repeated cluster.
pub open spec fn bounds_text(min: u32, max: u32) -> Seq<char> {
    seq!['{'] + dec_text(min as nat) + (if min == max {
        seq![]
    } else {
        seq![','] + dec_text(max as nat)
    }) + seq!['}']
}

/// A cluster, or the token of its shorthand class; a repeated one is
/// followed by its bounds, and grouped first when it has more than one code
/// point.
pub open spec fn grapheme_text(g: Grapheme, st: Style) -> Seq<char> {
    let body = match g.class {
        Some(s) => shorthand_text(s),
        None => chars_text(g.chars@, st),
    };
    if !g.spec_has_repetitions() {
        body
    } else if g.class is None && g.chars@.len() > 1 {
        seq!['('] + body + seq![')'] + bounds_text(g.min, g.max)
    } else {
        body + bounds_text(g.min, g.max)
    }
}

/// The clusters of a literal, one after the other.
pub open spec fn literal_text(gs: Seq<Grapheme>, st: Style) -> Seq<char>
    decreases gs.len(),
{
    if gs.len() == 0 {
        seq![]
    } else {
        literal_text(gs.drop_last(), st) + grapheme_text(gs.last(), st)
    }
}

/// The position of a code point in the sequence of all Unicode scalar values,
/// which leaves out the surrogate range.
pub open spec fn scalar_index(c: char) -> int {
    if (c as u32) < 0xD800 {
        c as u32 as int
    } else {
        c as u32 - 0x800
    }
}

/// `b` directly follows `a` among the Unicode scalar values.
pub open spec fn consecutive(a: char, b: char) -> bool {
    scalar_index(b) == scalar_index(a) + 1
}

/// One past the end of the run of consecutive code points that starts at `i`.
pub open spec fn run_end(cs: Seq<char>, i: int) -> int
    decreases cs.len() - i,
{
    if 0 <= i && i + 1 < cs.len() && consecutive(cs[i], cs[i + 1]) {
        run_end(cs, i + 1)
    } else {
        i + 1
    }
}

/// A run `cs[i..j]`: as `first-last` when it has three or more members, else
/// member by member.
pub open spec fn run_text(cs: Seq<char>, i: int, j: int, st: Style) -> Seq<char> {
    let first = class_char_text(cs[i], st.escape_non_ascii, st.surrogates);
    if j - i >= 3 {
        first + st.palette.hyphen@ + class_char_text(
            cs[j - 1],
            st.escape_non_ascii,
            st.surrogates,
        )
    } else if j - i == 2 {
        first + class_char_text(cs[i + 1], st.escape_non_ascii, st.surrogates)
    } else {
        first
    }
}

/// The runs of `cs` from position `i` on.
pub open spec fn runs_text(cs: Seq<char>, i: int, st: Style) -> Seq<char>
    decreases cs.len() - i,
{
    if 0 <= i < cs.len() {
        let j = run_end(cs, i);
        if i < j <= cs.len() {
            run_text(cs, i, j, st) + runs_text(cs, j, st)
        } else {
            seq![]
        }
    } else {
        seq![]
    }
}

/// A character class: one member alone is printed bare, as a literal.
pub open spec fn class_text(cs: Seq<char>, st: Style) -> Seq<char> {
    if cs.len() == 1 {
        literal_char_text(cs[0], st.escape_non_ascii, st.surrogates)
    } else {
        st.palette.left_bracket@ + runs_text(cs, 0, st) + st.palette.right_bracket@
    }
}

pub open spec fn quantifier_text(q: Quantifier, st: Style) -> Seq<char> {
    match q {
        Quantifier::KleeneStar => st.palette.star@,
        Quantifier::QuestionMark => st.palette.question@,
    }
}

/// A child of a node of precedence `parent`: in parentheses iff it binds less
/// tightly and is not a single code point.
pub open spec fn wrapped_text(e: Expression, parent: u8, st: Style) -> Seq<char>
    decreases e, 1nat,
{
    if e.spec_precedence() < parent && !e.spec_is_single_codepoint() {
        st.palette.left_paren@ + text(e, st) + st.palette.right_paren@
    } else {
        text(e, st)
    }
}

/// The first `n` options of an alternation, separated by pipes.
pub open spec fn options_text(opts: Seq<Expression>, n: int, st: Style) -> Seq<char>
    decreases opts, n,
{
    if n <= 0 || n > opts.len() {
        seq![]
    } else if n == 1 {
        wrapped_text(opts[0], 1, st)
    } else {
        options_text(opts, n - 1, st) + st.palette.pipe@ + wrapped_text(opts[n - 1], 1, st)
    }
}

/// The printed form of an expression.
pub open spec fn text(e: Expression, st: Style) -> Seq<char>
    decreases e, 0nat,
{
    match e {
        Expression::Alternation(opts) => options_text(opts@, opts@.len() as int, st),
        Expression::CharacterClass(cs) => class_text(cs@, st),
        Expression::Concatenation(l, r) => wrapped_text(*l, 2, st) + wrapped_text(*r, 2, st),
        Expression::Literal(gs) => literal_text(gs@, st),
        Expression::Repetition(inner, q) => wrapped_text(*inner, 3, st) + quantifier_text(
            q,
            st,
        ),
    }
}

/// Relies on `String`'s `FromIterator<char>`: the characters, in order.
#[verifier::external_body]
pub(crate) fn string_from_chars(v: &Vec<char>) -> (r: String)
    ensures
        r@ == v@,
{
    v.iter().collect()
}

fn push_all(out: &mut Vec<char>, s: &Vec<char>)
    ensures
        final(out)@ == old(out)@ + s@,
{
    let mut i: usize = 0;
    while i < s.len()
        invariant
            0 <= i <= s@.len(),
            out@ == old(out)@ + s@.subrange(0, i as int),
        decreases s@.len() - i,
    {
        out.push(s[i]);
        i = i + 1;
        assert(out@ =~= old(out)@ + s@.subrange(0, i as int));
    }
    assert(s@.subrange(0, s@.len() as int) =~= s@);
}

fn push_chars(out: &mut Vec<char>, cs: &Vec<char>, st: &Style)
    ensures
        final(out)@ == old(out)@ + chars_text(cs@, *st),
{
    let mut i: usize = 0;
    while i < cs.len()
        invariant
            0 <= i <= cs@.len(),
            out@ == old(out)@ + chars_text(cs@.subrange(0, i as int), *st),
        decreases cs@.len() - i,
    {
        push_literal_char(out, cs[i], st.escape_non_ascii, st.surrogates);
        i = i + 1;
        assert(cs@.subrange(0, i as int).drop_last() =~= cs@.subrange(0, i - 1));
        assert(out@ =~= old(out)@ + chars_text(cs@.subrange(0, i as int), *st));
    }
    assert(cs@.subrange(0, cs@.len() as int) =~= cs@);
}

fn push_token(out: &mut Vec<char>, g: &Grapheme, st: &Style)
    ensures
        final(out)@ == old(out)@ + match g.class {
            Some(s) => shorthand_text(s),
            None => chars_text(g.chars@, *st),
        },
{
    match g.class {
        Some(s) => {
            out.push('\\');
            out.push(
                match s {
                    Shorthand::Digit => 'd',
                    Shorthand::NonDigit => 'D',
                    Shorthand::Space => 's',
                    Shorthand::NonSpace => 'S',
                    Shorthand::Word => 'w',
                    Shorthand::NonWord => 'W',
                },
            );
            assert(final(out)@ =~= old(out)@ + shorthand_text(s));
        },
        None => push_chars(out, &g.chars, st),
    }
}

fn push_grapheme(out: &mut Vec<char>, g: &Grapheme, st: &Style)
    ensures
        final(out)@ == old(out)@ + grapheme_text(*g, *st),
{
    if !g.has_repetitions() {
        push_token(out, g, st);
    } else {
        let grouped = g.class.is_none() && g.chars.len() > 1;
        if grouped {
            out.push('(');
        }
        push_token(out, g, st);
        if grouped {
            out.push(')');
        }
        out.push('{');
        push_decimal(out, g.min);
        if g.min != g.max {
            out.push(',');
            push_decimal(out, g.max);
        }
        out.push('}');
        assert(out@ =~= old(out)@ + grapheme_text(*g, *st));
    }
}

fn push_literal(out: &mut Vec<char>, gs: &Vec<Grapheme>, st: &Style)
    ensures
        final(out)@ == old(out)@ + literal_text(gs@, *st),
{
    let mut i: usize = 0;
    while i < gs.len()
        invariant
            0 <= i <= gs@.len(),
            out@ == old(out)@ + literal_text(gs@.subrange(0, i as int), *st),
        decreases gs@.len() - i,
    {
        push_grapheme(out, &gs[i], st);
        i = i + 1;
        assert(gs@.subrange(0, i as int).drop_last() =~= gs@.subrange(0, i - 1));
        assert(out@ =~= old(out)@ + literal_text(gs@.subrange(0, i as int), *st));
    }
    assert(gs@.subrange(0, gs@.len() as int) =~= gs@);
}

fn scalar_index_of(c: char) -> (r: u32)
    ensures
        r == scalar_index(c),
{
    let v = c as u32;
    if v < 0xD800 {
        v
    } else {
        v - 0x800
    }
}

proof fn lemma_run_end_bounds(cs: Seq<char>, i: int)
    requires
        0 <= i < cs.len(),
    ensures
        i < run_end(cs, i) <= cs.len(),
    decreases cs.len() - i,
{
    if i + 1 < cs.len() && consecutive(cs[i], cs[i + 1]) {
        lemma_run_end_bounds(cs, i + 1);
    }
}

fn push_runs(out: &mut Vec<char>, cs: &Vec<char>, st: &Style)
    ensures
        final(out)@ == old(out)@ + runs_text(cs@, 0, *st),
{
    let n = cs.len();
    let mut i: usize = 0;
    while i < n
        invariant
            n == cs@.len(),
            0 <= i <= n,
            old(out)@ + runs_text(cs@, 0, *st) == out@ + runs_text(cs@, i as int, *st),
        decreases n - i,
    {
        let mut j: usize = i + 1;
        while j < n && scalar_index_of(cs[j]) as u64 == scalar_index_of(cs[j - 1]) as u64 + 1
            invariant
                n == cs@.len(),
                i < j <= n,
                run_end(cs@, i as int) == run_end(cs@, j - 1),
            decreases n - j,
        {
            j = j + 1;
        }
        assert(run_end(cs@, j - 1) == j);
        let ghost before = out@;
        push_class_char(out, cs[i], st.escape_non_ascii, st.surrogates);
        if j - i >= 3 {
            push_all(out, &st.palette.hyphen);
            push_class_char(out, cs[j - 1], st.escape_non_ascii, st.surrogates);
        } else if j - i == 2 {
            push_class_char(out, cs[i + 1], st.escape_non_ascii, st.surrogates);
        }
        assert(out@ =~= before + run_text(cs@, i as int, j as int, *st));
        assert(runs_text(cs@, i as int, *st) == run_text(cs@, i as int, j as int, *st)
            + runs_text(cs@, j as int, *st));
        assert(before + runs_text(cs@, i as int, *st) =~= out@ + runs_text(cs@, j as int, *st));
        i = j;
    }
    assert(runs_text(cs@, n as int, *st) == Seq::<char>::empty());
    assert(out@ =~= old(out)@ + runs_text(cs@, 0, *st));
}

fn push_class(out: &mut Vec<char>, cs: &Vec<char>, st: &Style)
    ensures
        final(out)@ == old(out)@ + class_text(cs@, *st),
{
    if cs.len() == 1 {
        push_literal_char(out, cs[0], st.escape_non_ascii, st.surrogates);
    } else {
        push_all(out, &st.palette.left_bracket);
        push_runs(out, cs, st);
        push_all(out, &st.palette.right_bracket);
        assert(out@ =~= old(out)@ + class_text(cs@, *st));
    }
}

fn push_quantifier(out: &mut Vec<char>, q: &Quantifier, st: &Style)
    ensures
        final(out)@ == old(out)@ + quantifier_text(*q, *st),
{
    match q {
        Quantifier::KleeneStar => push_all(out, &st.palette.star),
        Quantifier::QuestionMark => push_all(out, &st.palette.question),
    }
}

fn push_wrapped(out: &mut Vec<char>, e: &Expression, parent: u8, st: &Style)
    ensures
        final(out)@ == old(out)@ + wrapped_text(*e, parent, *st),
    decreases e, 1nat, 0nat,
{
    if e.precedence() < parent && !e.is_single_codepoint() {
        push_all(out, &st.palette.left_paren);
        push_expression(out, e, st);
        push_all(out, &st.palette.right_paren);
        assert(out@ =~= old(out)@ + wrapped_text(*e, parent, *st));
    } else {
        push_expression(out, e, st);
    }
}

fn push_expression(out: &mut Vec<char>, e: &Expression, st: &Style)
    ensures
        final(out)@ == old(out)@ + text(*e, *st),
    decreases e, 0nat, 0nat,
{
    match e {
        Expression::Alternation(opts) => {
            let mut i: usize = 0;
            while i < opts.len()
                invariant
                    *e == Expression::Alternation(*opts),
                    0 <= i <= opts@.len(),
                    out@ == old(out)@ + options_text(opts@, i as int, *st),
                decreases opts@.len() - i,
            {
                if i > 0 {
                    push_all(out, &st.palette.pipe);
                }
                assert(decreases_to!(*e => e->Alternation_0));
                assert(decreases_to!(*e => e->Alternation_0[i as int]));
                assert(e->Alternation_0[i as int] == opts[i as int]);
                push_wrapped(out, &opts[i], 1, st);
                i = i + 1;
                assert(out@ =~= old(out)@ + options_text(opts@, i as int, *st));
            }
        },
        Expression::CharacterClass(cs) => push_class(out, cs, st),
        Expression::Concatenation(l, r) => {
            push_wrapped(out, l, 2, st);
            push_wrapped(out, r, 2, st);
            assert(out@ =~= old(out)@ + text(*e, *st));
        },
        Expression::Literal(gs) => push_literal(out, gs, st),
        Expression::Repetition(inner, q) => {
            push_wrapped(out, inner, 3, st);
            push_quantifier(out, q, st);
            assert(out@ =~= old(out)@ + text(*e, *st));
        },
    }
}

/// Prints the options of an alternation, separated by pipes.
pub fn format_alternation(options: &Vec<Expression>, style: &Style) -> (r: String)
    ensures
        r@ == options_text(options@, options@.len() as int, *style),
{
    let mut out: Vec<char> = Vec::new();
    let mut i: usize = 0;
    while i < options.len()
        invariant
            0 <= i <= options@.len(),
            out@ == options_text(options@, i as int, *style),
        decreases options@.len() - i,
    {
        if i > 0 {
            push_all(&mut out, &style.palette.pipe);
        }
        push_wrapped(&mut out, &options[i], 1, style);
        i = i + 1;
        assert(out@ =~= options_text(options@, i as int, *style));
    }
    string_from_chars(&out)
}

/// Prints a character class of members in ascending order: runs of three or
/// more consecutive code points as ranges, a single member bare.
pub fn format_character_class(chars: &Vec<char>, style: &Style) -> (r: String)
    requires
        chars@.len() > 0,
        forall|i: int, j: int|
            0 <= i < j < chars@.len() ==> (chars@[i] as u32) < (chars@[j] as u32),
    ensures
        r@ == class_text(chars@, *style),
{
    let mut out: Vec<char> = Vec::new();
    push_class(&mut out, chars, style);
    assert(out@ =~= class_text(chars@, *style));
    string_from_chars(&out)
}

/// Prints two expressions one after the other, each grouped where it binds
/// less tightly than a concatenation.
pub fn format_concatenation(left: &Expression, right: &Expression, style: &Style) -> (r: String)
    ensures
        r@ == wrapped_text(*left, 2, *style) + wrapped_text(*right, 2, *style),
{
    let mut out: Vec<char> = Vec::new();
    push_wrapped(&mut out, left, 2, style);
    push_wrapped(&mut out, right, 2, style);
    assert(out@ =~= wrapped_text(*left, 2, *style) + wrapped_text(*right, 2, *style));
    string_from_chars(&out)
}

/// Prints the clusters of a literal, escaped.
pub fn format_literal(graphemes: &Vec<Grapheme>, style: &Style) -> (r: String)
    ensures
        r@ == literal_text(graphemes@, *style),
{
    let mut out: Vec<char> = Vec::new();
    push_literal(&mut out, graphemes, style);
    assert(out@ =~= literal_text(graphemes@, *style));
    string_from_chars(&out)
}

/// Prints an expression under a quantifier, grouped where it binds less
/// tightly than a repetition.
pub fn format_repetition(inner: &Expression, quantifier: &Quantifier, style: &Style) -> (r: String)
    ensures
        r@ == wrapped_text(*inner, 3, *style) + quantifier_text(*quantifier, *style),
{
    let mut out: Vec<char> = Vec::new();
    push_wrapped(&mut out, inner, 3, style);
    push_quantifier(&mut out, quantifier, style);
    assert(out@ =~= wrapped_text(*inner, 3, *style) + quantifier_text(*quantifier, *style));
    string_from_chars(&out)
}

impl Expression {
    /// The text of the regular expression.
    pub fn to_regex(&self, style: &Style) -> (r: String)
        ensures
            r@ == text(*self, *style),
    {
        let mut out: Vec<char> = Vec::new();
        push_expression(&mut out, self, style);
        assert(out@ =~= text(*self, *style));
        string_from_chars(&out)
    }
}

} // verus!
