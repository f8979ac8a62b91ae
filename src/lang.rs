//! What an expression matches: its language as a set of code-point strings.

use crate::ast::{Expression, Grapheme, Quantifier};
use crate::feature::in_class;
use vstd::prelude::*;

verus! {

/// `n` copies of `s`, one after the other.
pub open spec fn repeat(s: Seq<char>, n: nat) -> Seq<char>
    decreases n,
{
    if n == 0 {
        seq![]
    } else {
        repeat(s, (n - 1) as nat) + s
    }
}

/// A cluster matches between `min` and `max` copies of its code points; one
/// with a shorthand class, between `min` and `max` code points of the class.
pub open spec fn grapheme_matches(g: Grapheme, w: Seq<char>) -> bool {
    match g.class {
        Some(s) => g.min <= w.len() <= g.max && forall|i: int|
            0 <= i < w.len() ==> in_class(s, #[trigger] w[i]),
        None => exists|n: nat| g.min <= n <= g.max && w == repeat(g.chars@, n),
    }
}

/// The clusters of a literal match consecutive pieces of `w`.
pub open spec fn literal_matches(gs: Seq<Grapheme>, w: Seq<char>) -> bool
    decreases gs.len(),
{
    if gs.len() == 0 {
        w.len() == 0
    } else {
        exists|k: int|
            0 <= k <= w.len() && literal_matches(gs.drop_last(), w.subrange(0, k))
                && grapheme_matches(gs.last(), w.subrange(k, w.len() as int))
    }
}

/// `w` splits into zero or more pieces, each matched by `x`.
pub open spec fn star_matches(x: Expression, w: Seq<char>) -> bool
    decreases x, 1nat, w.len(),
{
    w.len() == 0 || exists|k: int|
        0 < k <= w.len() && accepts(x, w.subrange(0, k)) && star_matches(
            x,
            w.subrange(k, w.len() as int),
        )
}

/// Whether the expression matches the whole of `w`.
pub open spec fn accepts(e: Expression, w: Seq<char>) -> bool
    decreases e, 0nat, w.len(),
{
    match e {
        Expression::Alternation(opts) => exists|i: int|
            0 <= i < opts@.len() && accepts(opts@[i], w),
        Expression::CharacterClass(cs) => w.len() == 1 && cs@.contains(w[0]),
        Expression::Concatenation(l, r) => exists|k: int|
            0 <= k <= w.len() && accepts(*l, w.subrange(0, k)) && accepts(
                *r,
                w.subrange(k, w.len() as int),
            ),
        Expression::Literal(gs) => literal_matches(gs@, w),
        Expression::Repetition(x, q) => match q {
            Quantifier::KleeneStar => star_matches(*x, w),
            Quantifier::QuestionMark => w.len() == 0 || accepts(*x, w),
        },
    }
}

/// The code points of each cluster, in order.
pub open spec fn cluster_chars(gs: Seq<Grapheme>) -> Seq<Seq<char>> {
    gs.map_values(|g: Grapheme| g.chars@)
}

/// No cluster stands for a shorthand class.
pub open spec fn unclassed(gs: Seq<Grapheme>) -> bool {
    forall|i: int| 0 <= i < gs.len() ==> #[trigger] gs[i].class is None
}

/// Every cluster with a shorthand class is one code point of that class.
pub open spec fn classes_hold(gs: Seq<Grapheme>) -> bool {
    forall|i: int|
        0 <= i < gs.len() ==> (#[trigger] gs[i].class matches Some(s) ==> gs[i].chars@.len() == 1
            && in_class(s, gs[i].chars@[0]))
}

/// `n` copies of one code point.
pub proof fn lemma_repeat_one(c: char, n: nat)
    ensures
        repeat(seq![c], n).len() == n,
        forall|i: int| 0 <= i < n ==> #[trigger] repeat(seq![c], n)[i] == c,
    decreases n,
{
    if n > 0 {
        lemma_repeat_one(c, (n - 1) as nat);
    }
}

/// A literal whose clusters have fixed counts, and whose classed clusters are
/// code points of their class, matches its expansion.
pub proof fn lemma_literal_sound(gs: Seq<Grapheme>)
    requires
        fixed_counts(gs),
        classes_hold(gs),
    ensures
        literal_matches(gs, expanded(gs)),
    decreases gs.len(),
{
    if gs.len() > 0 {
        let init = gs.drop_last();
        let g = gs.last();
        assert(fixed_counts(init)) by {
            assert forall|i: int| 0 <= i < init.len() implies #[trigger] init[i].min
                == init[i].max by {
                assert(init[i] == gs[i]);
            }
        }
        assert(classes_hold(init)) by {
            assert forall|i: int| 0 <= i < init.len() implies (#[trigger] init[i].class matches Some(
                s,
            ) ==> init[i].chars@.len() == 1 && in_class(s, init[i].chars@[0])) by {
                assert(init[i] == gs[i]);
            }
        }
        lemma_literal_sound(init);
        let w = expanded(gs);
        let k = expanded(init).len() as int;
        assert(w.subrange(0, k) =~= expanded(init));
        let tail = w.subrange(k, w.len() as int);
        assert(tail =~= repeat(g.chars@, g.min as nat));
        assert(g.min == g.max);
        if let Some(s) = g.class {
            assert(g.chars@.len() == 1 && in_class(s, g.chars@[0]));
            assert(g.chars@ =~= seq![g.chars@[0]]);
            lemma_repeat_one(g.chars@[0], g.min as nat);
        }
        assert(grapheme_matches(g, tail));
    }
}

/// Every cluster has one fixed count.
pub open spec fn fixed_counts(gs: Seq<Grapheme>) -> bool {
    forall|i: int| 0 <= i < gs.len() ==> #[trigger] gs[i].min == gs[i].max
}

/// The code points of a literal whose clusters have fixed counts.
pub open spec fn expanded(gs: Seq<Grapheme>) -> Seq<char>
    decreases gs.len(),
{
    if gs.len() == 0 {
        seq![]
    } else {
        expanded(gs.drop_last()) + repeat(gs.last().chars@, gs.last().min as nat)
    }
}

/// A literal whose clusters have fixed counts and no shorthand class matches
/// exactly its expansion.
pub proof fn lemma_literal_language(gs: Seq<Grapheme>, w: Seq<char>)
    requires
        fixed_counts(gs),
        unclassed(gs),
    ensures
        literal_matches(gs, w) <==> w == expanded(gs),
    decreases gs.len(),
{
    if gs.len() == 0 {
        if w.len() == 0 {
            assert(w =~= Seq::<char>::empty());
        }
    } else {
        let init = gs.drop_last();
        let g = gs.last();
        let f = expanded(init);
        assert(g.min == g.max);
        assert(fixed_counts(init)) by {
            assert forall|i: int| 0 <= i < init.len() implies #[trigger] init[i].min
                == init[i].max by {
                assert(init[i] == gs[i]);
            }
        }
        assert(unclassed(init)) by {
            assert forall|i: int| 0 <= i < init.len() implies #[trigger] init[i].class is None by {
                assert(init[i] == gs[i]);
            }
        }
        assert(g.class is None);
        if literal_matches(gs, w) {
            let k = choose|k: int|
                0 <= k <= w.len() && literal_matches(init, w.subrange(0, k)) && grapheme_matches(
                    g,
                    w.subrange(k, w.len() as int),
                );
            lemma_literal_language(init, w.subrange(0, k));
            let n = choose|n: nat|
                g.min <= n <= g.max && w.subrange(k, w.len() as int) == repeat(g.chars@, n);
            assert(w =~= w.subrange(0, k) + w.subrange(k, w.len() as int));
        }
        if w == expanded(gs) {
            let k = f.len() as int;
            lemma_literal_language(init, w.subrange(0, k));
            assert(w.subrange(0, k) =~= f);
            assert(w.subrange(k, w.len() as int) =~= repeat(g.chars@, g.min as nat));
            assert(grapheme_matches(g, w.subrange(k, w.len() as int)));
        }
    }
}

/// Clusters that occur once expand to their code points, one after the other.
pub proof fn lemma_expanded_once(gs: Seq<Grapheme>)
    requires
        forall|i: int| 0 <= i < gs.len() ==> #[trigger] gs[i].min == 1 && gs[i].max == 1,
    ensures
        fixed_counts(gs),
        expanded(gs) == cluster_chars(gs).flatten_alt(),
    decreases gs.len(),
{
    if gs.len() > 0 {
        let init = gs.drop_last();
        assert forall|i: int| 0 <= i < init.len() implies #[trigger] init[i].min == 1
            && init[i].max == 1 by {
            assert(init[i] == gs[i]);
        }
        lemma_expanded_once(init);
        assert(cluster_chars(gs).drop_last() =~= cluster_chars(init));
        let x = gs.last().chars@;
        assert(repeat(x, 1) =~= x) by {
            assert(repeat(x, 0) =~= Seq::<char>::empty());
        }
        assert(cluster_chars(gs).last() == x);
    }
}

/// Two clusters that print and match alike: equal counts and class, and,
/// without a class, equal code points.
pub open spec fn same_token(a: Grapheme, b: Grapheme) -> bool {
    &&& a.min == b.min
    &&& a.max == b.max
    &&& a.class == b.class
    &&& a.chars@.len() == b.chars@.len()
    &&& (a.class is Some || a.chars@ == b.chars@)
}

/// Two cluster lists that agree token by token.
pub open spec fn same_tokens(a: Seq<Grapheme>, b: Seq<Grapheme>) -> bool {
    &&& a.len() == b.len()
    &&& forall|i: int| 0 <= i < a.len() ==> same_token(#[trigger] a[i], b[i])
}

/// Two literals that agree token by token.
pub open spec fn token_equal(e1: Expression, e2: Expression) -> bool {
    match (e1, e2) {
        (Expression::Literal(a), Expression::Literal(b)) => same_tokens(a@, b@),
        _ => false,
    }
}

/// Literals that agree token by token match the same strings.
pub proof fn lemma_same_tokens_language(a: Seq<Grapheme>, b: Seq<Grapheme>)
    requires
        same_tokens(a, b),
    ensures
        forall|w: Seq<char>| literal_matches(a, w) == literal_matches(b, w),
    decreases a.len(),
{
    if a.len() > 0 {
        assert(same_tokens(a.drop_last(), b.drop_last())) by {
            assert forall|i: int| 0 <= i < a.len() - 1 implies same_token(
                #[trigger] a.drop_last()[i],
                b.drop_last()[i],
            ) by {
                assert(same_token(a[i], b[i]));
            }
        }
        lemma_same_tokens_language(a.drop_last(), b.drop_last());
        assert(same_token(a.last(), b.last()));
        assert forall|x: Seq<char>| grapheme_matches(a.last(), x) == grapheme_matches(
            b.last(),
            x,
        ) by {}
        assert forall|w: Seq<char>| literal_matches(a, w) == literal_matches(b, w) by {
            if literal_matches(a, w) {
                let k = choose|k: int|
                    0 <= k <= w.len() && literal_matches(a.drop_last(), w.subrange(0, k))
                        && grapheme_matches(a.last(), w.subrange(k, w.len() as int));
                assert(literal_matches(b.drop_last(), w.subrange(0, k)));
                assert(grapheme_matches(b.last(), w.subrange(k, w.len() as int)));
            }
            if literal_matches(b, w) {
                let k = choose|k: int|
                    0 <= k <= w.len() && literal_matches(b.drop_last(), w.subrange(0, k))
                        && grapheme_matches(b.last(), w.subrange(k, w.len() as int));
                assert(literal_matches(a.drop_last(), w.subrange(0, k)));
                assert(grapheme_matches(a.last(), w.subrange(k, w.len() as int)));
            }
        }
    }
}

} // verus!
