//! How single code points are written in an emitted regular expression.

use vstd::prelude::*;

verus! {

/// The hexadecimal digit (upper case) for a value below sixteen.
pub open spec fn hex_digit(d: nat) -> char {
    if d < 10 {
        (48 + d) as u8 as char
    } else {
        (55 + d) as u8 as char
    }
}

/// Hexadecimal notation of `n` without leading zeros.
pub open spec fn hex_text(n: nat) -> Seq<char>
    decreases n,
{
    if n < 16 {
        seq![hex_digit(n)]
    } else {
        hex_text(n / 16) + seq![hex_digit(n % 16)]
    }
}

fn hex_digit_of(d: u32) -> (c: char)
    requires
        d < 16,
    ensures
        c == hex_digit(d as nat),
{
    if d < 10 {
        (48u8 + d as u8) as char
    } else {
        (55u8 + d as u8) as char
    }
}

/// Appends the hexadecimal notation of `n`.
pub fn push_hex(out: &mut Vec<char>, n: u32)
    ensures
        final(out)@ == old(out)@ + hex_text(n as nat),
    decreases n,
{
    if n >= 16 {
        push_hex(out, n / 16);
    }
    out.push(hex_digit_of(n % 16));
}

/// `\u{H}` with `H` the hexadecimal notation of `n`.
pub open spec fn unicode_escape(n: nat) -> Seq<char> {
    seq!['\\', 'u', '{'] + hex_text(n) + seq!['}']
}

/// A code point outside the basic multilingual plane.
pub open spec fn is_astral(c: char) -> bool {
    c as u32 >= 0x10000
}

/// The UTF-16 high surrogate of an astral code point.
pub open spec fn high_surrogate(c: char) -> nat {
    (0xD800 + (c as u32 - 0x10000) / 1024) as nat
}

/// The UTF-16 low surrogate of an astral code point.
pub open spec fn low_surrogate(c: char) -> nat {
    (0xDC00 + (c as u32 - 0x10000) % 1024) as nat
}

/// The escaped form of a code point above the ASCII range.
pub open spec fn non_ascii_text(c: char, surrogates: bool) -> Seq<char> {
    if surrogates && is_astral(c) {
        unicode_escape(high_surrogate(c)) + unicode_escape(low_surrogate(c))
    } else {
        unicode_escape(c as nat)
    }
}

/// Characters that stand for themselves only after a backslash outside a class.
pub open spec fn is_meta(c: char) -> bool {
    c == '\\' || c == '(' || c == ')' || c == '[' || c == ']' || c == '{' || c == '}'
        || c == '|' || c == '?' || c == '*' || c == '+' || c == '.' || c == '^' || c == '$'
}

/// Characters that need a backslash inside a character class.
pub open spec fn is_class_meta(c: char) -> bool {
    c == '[' || c == ']' || c == '\\' || c == '-' || c == '^'
}

/// A code point as written in a literal outside a character class.
pub open spec fn literal_char_text(c: char, non_ascii: bool, surrogates: bool) -> Seq<char> {
    if non_ascii && c as u32 > 0x7F {
        non_ascii_text(c, surrogates)
    } else if is_meta(c) {
        seq!['\\', c]
    } else {
        seq![c]
    }
}

/// A code point as written inside a character class.
pub open spec fn class_char_text(c: char, non_ascii: bool, surrogates: bool) -> Seq<char> {
    if non_ascii && c as u32 > 0x7F {
        non_ascii_text(c, surrogates)
    } else if is_class_meta(c) {
        seq!['\\', c]
    } else if c == '\n' {
        seq!['\\', 'n']
    } else if c == '\r' {
        seq!['\\', 'r']
    } else if c == '\t' {
        seq!['\\', 't']
    } else {
        seq![c]
    }
}

/// Under surrogate conversion an escaped code point becomes a high surrogate
/// in `[D800, DBFF]` followed by a low surrogate in `[DC00, DFFF]` exactly when
/// it is astral, and the pair decodes back to the code point; any other code
/// point is written as itself, which is never a surrogate.
pub proof fn lemma_surrogate_escape(c: char)
    ensures
        is_astral(c) ==> {
            &&& non_ascii_text(c, true) == unicode_escape(high_surrogate(c)) + unicode_escape(
                low_surrogate(c),
            )
            &&& 0xD800 <= high_surrogate(c) <= 0xDBFF
            &&& 0xDC00 <= low_surrogate(c) <= 0xDFFF
            &&& (high_surrogate(c) - 0xD800) * 1024 + (low_surrogate(c) - 0xDC00) + 0x10000
                == c as u32
        },
        !is_astral(c) ==> {
            &&& non_ascii_text(c, true) == unicode_escape(c as nat)
            &&& !(0xD800 <= c as u32 <= 0xDFFF)
        },
{
    broadcast use vstd::utf8::char_is_scalar;
    let v = c as u32;
    assert(vstd::utf8::is_scalar(v));
    if is_astral(c) {
        assert(v <= 0x10FFFF);
        let d = (v - 0x10000) as int;
        assert(d / 1024 <= 0x3FF) by (nonlinear_arith)
            requires
                0 <= d <= 0xFFFFF,
        ;
        assert((d / 1024) * 1024 + d % 1024 == d) by (nonlinear_arith)
            requires
                0 <= d,
        ;
    }
}

fn push_unicode_escape(out: &mut Vec<char>, n: u32)
    ensures
        final(out)@ == old(out)@ + unicode_escape(n as nat),
{
    out.push('\\');
    out.push('u');
    out.push('{');
    push_hex(out, n);
    out.push('}');
    assert(final(out)@ =~= old(out)@ + unicode_escape(n as nat));
}

fn push_non_ascii(out: &mut Vec<char>, c: char, surrogates: bool)
    ensures
        final(out)@ == old(out)@ + non_ascii_text(c, surrogates),
{
    let v = c as u32;
    if surrogates && v >= 0x10000 {
        push_unicode_escape(out, 0xD800 + (v - 0x10000) / 1024);
        push_unicode_escape(out, 0xDC00 + (v - 0x10000) % 1024);
        assert(final(out)@ =~= old(out)@ + non_ascii_text(c, surrogates));
    } else {
        push_unicode_escape(out, v);
    }
}

/// Appends a code point as written in a literal outside a character class.
pub fn push_literal_char(out: &mut Vec<char>, c: char, non_ascii: bool, surrogates: bool)
    ensures
        final(out)@ == old(out)@ + literal_char_text(c, non_ascii, surrogates),
{
    if non_ascii && c as u32 > 0x7F {
        push_non_ascii(out, c, surrogates);
    } else if c == '\\' || c == '(' || c == ')' || c == '[' || c == ']' || c == '{' || c == '}'
        || c == '|' || c == '?' || c == '*' || c == '+' || c == '.' || c == '^' || c == '$' {
        out.push('\\');
        out.push(c);
        assert(final(out)@ =~= old(out)@ + literal_char_text(c, non_ascii, surrogates));
    } else {
        out.push(c);
        assert(final(out)@ =~= old(out)@ + literal_char_text(c, non_ascii, surrogates));
    }
}

/// Appends a code point as written inside a character class.
pub fn push_class_char(out: &mut Vec<char>, c: char, non_ascii: bool, surrogates: bool)
    ensures
        final(out)@ == old(out)@ + class_char_text(c, non_ascii, surrogates),
{
    if non_ascii && c as u32 > 0x7F {
        push_non_ascii(out, c, surrogates);
    } else if c == '[' || c == ']' || c == '\\' || c == '-' || c == '^' {
        out.push('\\');
        out.push(c);
        assert(final(out)@ =~= old(out)@ + class_char_text(c, non_ascii, surrogates));
    } else if c == '\n' || c == '\r' || c == '\t' {
        out.push('\\');
        out.push(if c == '\n' { 'n' } else if c == '\r' { 'r' } else { 't' });
        assert(final(out)@ =~= old(out)@ + class_char_text(c, non_ascii, surrogates));
    } else {
        out.push(c);
        assert(final(out)@ =~= old(out)@ + class_char_text(c, non_ascii, surrogates));
    }
}

} // verus!
