//! Building a regular expression from test cases.

use crate::ast::{Expression, Grapheme};
use crate::feature::{
    in_class, char_kind, chosen_shorthand, features_of, kind_of, lemma_chosen_holds, no_shorthands,
    shorthand_for, Feature, Features, Shorthand,
};
use crate::fmt::{
    grapheme_text, literal_text, options_text, string_from_chars, text, wrapped_text, Style,
};
use crate::ingest::{ingested, orders, ordered_cases, same_chars, views_of};
use crate::lang::{
    lemma_same_tokens_language, same_token, same_tokens, token_equal, lemma_literal_sound, accepts, cluster_chars, expanded, lemma_expanded_once, lemma_literal_language,
};
use crate::repetition::{
    collapse_runs, copy_chars, holds_runs, lemma_holds_runs_expanded, lemma_runs_spell, runs_of,
};
use crate::palette::Palette;
use unicode_segmentation::UnicodeSegmentation;
use vstd::prelude::*;

verus! {

/// The extended grapheme clusters of a string, in order.
pub uninterp spec fn grapheme_clusters(s: Seq<char>) -> Seq<Seq<char>>;

/// Relies on unicode-segmentation's `UnicodeSegmentation::graphemes` with
/// extended clusters: the clusters of the string in order, each non-empty,
/// which together spell the string.
#[verifier::external_body]
fn split_graphemes(s: &str) -> (r: Vec<Vec<char>>)
    ensures
        r@.map_values(|v: Vec<char>| v@) == grapheme_clusters(s@),
        r@.map_values(|v: Vec<char>| v@).flatten() == s@,
        forall|i: int| 0 <= i < r@.len() ==> r@[i]@.len() > 0,
{
    s.graphemes(true).map(|g| g.chars().collect()).collect()
}

/// The shorthand class that a cluster prints as, if any: only a cluster of
/// one code point has one, chosen by the priority rules.
pub open spec fn class_of(c: Seq<char>, f: Features) -> Option<Shorthand> {
    if c.len() == 1 {
        chosen_shorthand(kind_of(c[0]), f)
    } else {
        None
    }
}

/// Each cluster carries the shorthand class of its code points.
pub open spec fn classified(gs: Seq<Grapheme>, f: Features) -> bool {
    forall|i: int| 0 <= i < gs.len() ==> #[trigger] gs[i].class == class_of(gs[i].chars@, f)
}

/// `gs` holds the clusters of `s`, each once.
pub open spec fn spells(gs: Seq<Grapheme>, s: Seq<char>) -> bool {
    let cl = grapheme_clusters(s);
    &&& cl.flatten() == s
    &&& gs.len() == cl.len()
    &&& forall|i: int|
        0 <= i < gs.len() ==> gs[i].chars@ == cl[i] && gs[i].min == 1 && gs[i].max == 1
}

/// `gs` holds the runs of equal clusters of `s`, each as one bounded cluster.
pub open spec fn spells_runs(gs: Seq<Grapheme>, s: Seq<char>) -> bool {
    &&& grapheme_clusters(s).flatten() == s
    &&& holds_runs(gs, runs_of(grapheme_clusters(s)))
}

/// `e` is the literal of the clusters of `s`: with the repetition
/// conversion, runs of a repeated cluster collapsed; with a shorthand
/// conversion, each single code point that one applies to printed as the
/// class the priority rules choose.
pub open spec fn is_literal_of(e: Expression, s: Seq<char>, f: Features) -> bool {
    match e {
        Expression::Literal(gs) => {
            &&& classified(gs@, f)
            &&& if f.repetition {
                spells_runs(gs@, s)
            } else {
                spells(gs@, s)
            }
        },
        _ => false,
    }
}

/// Every test case is one code point.
pub open spec fn all_single_chars(cases: Seq<Seq<char>>) -> bool {
    forall|i: int| 0 <= i < cases.len() ==> cases[i].len() == 1
}

/// No case has a shorthand class.
pub open spec fn unconverted(cases: Seq<Seq<char>>, f: Features) -> bool {
    forall|i: int| 0 <= i < cases.len() ==> #[trigger] class_of(cases[i], f) is None
}

/// The literal at `i` agrees token by token with an earlier one.
pub open spec fn has_equal_before(lits: Seq<Expression>, i: int) -> bool {
    exists|j: int| 0 <= j < i && token_equal(lits[j], lits[i])
}

/// The literals with those that agree token by token with an earlier one
/// left out.
pub open spec fn distinct_options(lits: Seq<Expression>) -> Seq<Expression>
    decreases lits.len(),
{
    if lits.len() == 0 {
        seq![]
    } else {
        let r = distinct_options(lits.drop_last());
        if has_equal_before(lits, lits.len() - 1) {
            r
        } else {
            r.push(lits.last())
        }
    }
}

/// A choice among several strings: a character class where each is one
/// code point without a shorthand class, else an alternation of their
/// literals in order, each printed once.
pub open spec fn choice_of(e: Expression, cases: Seq<Seq<char>>, f: Features) -> bool {
    if all_single_chars(cases) && unconverted(cases, f) {
        e is CharacterClass && e->CharacterClass_0@ == cases.map_values(|c: Seq<char>| c[0])
    } else {
        match e {
            Expression::Alternation(opts) => exists|lits: Seq<Expression>|
                {
                    &&& lits.len() == cases.len()
                    &&& forall|i: int| 0 <= i < cases.len() ==> is_literal_of(lits[i], cases[i], f)
                    &&& opts@ == #[trigger] distinct_options(lits)
                },
            _ => false,
        }
    }
}

/// Every case is longer than `k` and agrees with the first at position `k`.
pub open spec fn agree_at(cases: Seq<Seq<char>>, k: int) -> bool {
    forall|i: int| 0 <= i < cases.len() ==> k < #[trigger] cases[i].len() && cases[i][k] == cases[0][k]
}

/// The length of the longest common prefix of the cases, searched from `k` on.
pub open spec fn prefix_len_from(cases: Seq<Seq<char>>, k: int) -> int
    decreases cases[0].len() - k,
{
    if cases.len() > 0 && 0 <= k < cases[0].len() && agree_at(cases, k) {
        prefix_len_from(cases, k + 1)
    } else {
        k
    }
}

/// Every case is longer than `p + k` and agrees with the first at position
/// `k` counted from its end.
pub open spec fn agree_from_end(cases: Seq<Seq<char>>, p: int, k: int) -> bool {
    forall|i: int|
        0 <= i < cases.len() ==> p + k < #[trigger] cases[i].len() && cases[i][cases[i].len() - 1
            - k] == cases[0][cases[0].len() - 1 - k]
}

/// The length of the longest common suffix that leaves the first `p` code
/// points of every case alone, searched from `k` on.
pub open spec fn suffix_len_from(cases: Seq<Seq<char>>, p: int, k: int) -> int
    decreases cases[0].len() - k,
{
    if cases.len() > 0 && 0 <= k < cases[0].len() && agree_from_end(cases, p, k) {
        suffix_len_from(cases, p, k + 1)
    } else {
        k
    }
}

pub open spec fn prefix_len(cases: Seq<Seq<char>>) -> int {
    prefix_len_from(cases, 0)
}

pub open spec fn suffix_len(cases: Seq<Seq<char>>) -> int {
    suffix_len_from(cases, prefix_len(cases), 0)
}

/// What is left of each case between the common prefix and suffix.
pub open spec fn middles(cases: Seq<Seq<char>>, p: int, q: int) -> Seq<Seq<char>> {
    cases.map_values(|c: Seq<char>| c.subrange(p, c.len() - q))
}

/// The expression built from the distinct ordered test cases `cases`: the
/// empty literal for none, the literal of the one case; for several, the
/// choice among them, or, where they share a prefix or suffix, the literal
/// of the prefix, the choice among what lies between, and the literal of the
/// suffix.
pub open spec fn built_from(e: Expression, cases: Seq<Seq<char>>, f: Features) -> bool {
    if cases.len() == 0 {
        e is Literal && e->Literal_0@.len() == 0
    } else if cases.len() == 1 {
        is_literal_of(e, cases[0], f)
    } else if prefix_len(cases) + suffix_len(cases) == 0 {
        choice_of(e, cases, f)
    } else {
        let p = prefix_len(cases);
        let q = suffix_len(cases);
        let c0 = cases[0];
        match e {
            Expression::Concatenation(l, r) => {
                &&& is_literal_of(*l, c0.subrange(0, p), f)
                &&& match *r {
                    Expression::Concatenation(m, t) => {
                        &&& choice_of(*m, middles(cases, p, q), f)
                        &&& is_literal_of(*t, c0.subrange(c0.len() - q, c0.len() as int), f)
                    },
                    _ => false,
                }
            },
            _ => false,
        }
    }
}

fn literal_of(chars: &Vec<char>, f: Features) -> (e: Expression)
    ensures
        is_literal_of(e, chars@, f),
{
    let text = string_from_chars(chars);
    let s = text.as_str();
    let clusters = split_graphemes(s);
    let ghost cl = clusters@.map_values(|v: Vec<char>| v@);
    if f.repetition {
        return Expression::Literal(classify(collapse_runs(&clusters), f));
    }
    let mut gs: Vec<Grapheme> = Vec::new();
    let mut i: usize = 0;
    while i < clusters.len()
        invariant
            0 <= i <= clusters@.len(),
            cl == clusters@.map_values(|v: Vec<char>| v@),
            cl == grapheme_clusters(s@),
            cl.flatten() == s@,
            gs@.len() == i,
            forall|k: int|
                0 <= k < i ==> gs@[k].chars@ == cl[k] && gs@[k].min == 1 && gs@[k].max == 1,
        decreases clusters@.len() - i,
    {
        gs.push(Grapheme::new(copy_chars(&clusters[i])));
        i = i + 1;
    }
    Expression::Literal(classify(gs, f))
}

/// The shorthand class of a cluster.
fn class_for(chars: &Vec<char>, f: Features) -> (r: Option<Shorthand>)
    ensures
        r == class_of(chars@, f),
{
    if chars.len() == 1 {
        shorthand_for(char_kind(chars[0]), f)
    } else {
        None
    }
}

/// Gives each cluster its shorthand class.
fn classify(gs: Vec<Grapheme>, f: Features) -> (r: Vec<Grapheme>)
    ensures
        r@.len() == gs@.len(),
        classified(r@, f),
        forall|i: int|
            0 <= i < gs@.len() ==> #[trigger] r@[i].chars@ == gs@[i].chars@ && r@[i].min
                == gs@[i].min && r@[i].max == gs@[i].max,
{
    let mut r: Vec<Grapheme> = Vec::new();
    let mut i: usize = 0;
    while i < gs.len()
        invariant
            0 <= i <= gs@.len(),
            r@.len() == i,
            classified(r@, f),
            forall|k: int|
                0 <= k < i ==> #[trigger] r@[k].chars@ == gs@[k].chars@ && r@[k].min == gs@[k].min
                    && r@[k].max == gs@[k].max,
        decreases gs@.len() - i,
    {
        let chars = copy_chars(&gs[i].chars);
        let class = class_for(&chars, f);
        r.push(Grapheme { chars, min: gs[i].min, max: gs[i].max, class });
        i = i + 1;
    }
    r
}

proof fn lemma_prefix_len(cases: Seq<Seq<char>>, k: int)
    requires
        cases.len() > 0,
        0 <= k <= cases[0].len(),
        forall|i: int| 0 <= i < cases.len() ==> k <= #[trigger] cases[i].len(),
        forall|i: int, j: int|
            0 <= i < cases.len() && 0 <= j < k ==> #[trigger] cases[i][j] == cases[0][j],
    ensures
        k <= prefix_len_from(cases, k) <= cases[0].len(),
        forall|i: int| 0 <= i < cases.len() ==> prefix_len_from(cases, k) <= #[trigger] cases[i].len(),
        forall|i: int, j: int|
            0 <= i < cases.len() && 0 <= j < prefix_len_from(cases, k) ==> #[trigger] cases[i][j]
                == cases[0][j],
    decreases cases[0].len() - k,
{
    if k < cases[0].len() && agree_at(cases, k) {
        assert forall|i: int| 0 <= i < cases.len() implies k + 1 <= #[trigger] cases[i].len() by {
            assert(k < cases[i].len() && cases[i][k] == cases[0][k]);
        }
        assert forall|i: int, j: int|
            0 <= i < cases.len() && 0 <= j < k + 1 implies #[trigger] cases[i][j] == cases[0][j] by {
            if j == k {
                assert(k < cases[i].len() && cases[i][k] == cases[0][k]);
            }
        }
        lemma_prefix_len(cases, k + 1);
    }
}

proof fn lemma_suffix_len(cases: Seq<Seq<char>>, p: int, k: int)
    requires
        cases.len() > 0,
        0 <= p,
        0 <= k,
        forall|i: int| 0 <= i < cases.len() ==> p + k <= #[trigger] cases[i].len(),
        forall|i: int, j: int|
            0 <= i < cases.len() && 0 <= j < k ==> #[trigger] cases[i][cases[i].len() - 1 - j]
                == cases[0][cases[0].len() - 1 - j],
    ensures
        k <= suffix_len_from(cases, p, k),
        forall|i: int|
            0 <= i < cases.len() ==> p + suffix_len_from(cases, p, k) <= #[trigger] cases[i].len(),
        forall|i: int, j: int|
            0 <= i < cases.len() && 0 <= j < suffix_len_from(cases, p, k) ==> #[trigger] cases[i][cases[i].len()
                - 1 - j] == cases[0][cases[0].len() - 1 - j],
    decreases cases[0].len() - k,
{
    if 0 <= k < cases[0].len() && agree_from_end(cases, p, k) {
        assert forall|i: int| 0 <= i < cases.len() implies p + k + 1 <= #[trigger] cases[i].len() by {
            assert(p + k < cases[i].len());
        }
        assert forall|i: int, j: int|
            0 <= i < cases.len() && 0 <= j < k + 1 implies #[trigger] cases[i][cases[i].len() - 1
                - j] == cases[0][cases[0].len() - 1 - j] by {
            if j == k {
                assert(p + k < cases[i].len());
            }
        }
        lemma_suffix_len(cases, p, k + 1);
    }
}

/// Each case is the common prefix, its middle and the common suffix.
proof fn lemma_factored(cases: Seq<Seq<char>>)
    requires
        cases.len() > 0,
    ensures
        ({
            let p = prefix_len(cases);
            let q = suffix_len(cases);
            let c0 = cases[0];
            &&& 0 <= p
            &&& 0 <= q
            &&& forall|i: int| 0 <= i < cases.len() ==> p + q <= #[trigger] cases[i].len()
            &&& forall|i: int|
                0 <= i < cases.len() ==> #[trigger] cases[i] == c0.subrange(0, p) + middles(
                    cases,
                    p,
                    q,
                )[i] + c0.subrange(c0.len() - q, c0.len() as int)
        }),
{
    lemma_prefix_len(cases, 0);
    let p = prefix_len(cases);
    lemma_suffix_len(cases, p, 0);
    let q = suffix_len(cases);
    let c0 = cases[0];
    assert forall|i: int| 0 <= i < cases.len() implies #[trigger] cases[i] == c0.subrange(0, p)
        + middles(cases, p, q)[i] + c0.subrange(c0.len() - q, c0.len() as int) by {
        let c = cases[i];
        assert(p + q <= c.len());
        let rhs = c0.subrange(0, p) + c.subrange(p, c.len() - q) + c0.subrange(
            c0.len() - q,
            c0.len() as int,
        );
        assert forall|j: int| 0 <= j < c.len() implies c[j] == rhs[j] by {
            if j >= c.len() - q {
                let t = c.len() - 1 - j;
                assert(cases[i][cases[i].len() - 1 - t] == cases[0][cases[0].len() - 1 - t]);
            } else if j < p {
                assert(cases[i][j] == cases[0][j]);
            }
        }
        assert(c =~= rhs);
    }
}

fn agrees_at(cases: &Vec<Vec<char>>, k: usize) -> (r: bool)
    requires
        cases@.len() > 0,
    ensures
        r == agree_at(views_of(cases@), k as int),
{
    let ghost v = views_of(cases@);
    assert(v[0] == cases@[0]@);
    if k >= cases[0].len() {
        return false;
    }
    let c = cases[0][k];
    let mut i: usize = 0;
    while i < cases.len()
        invariant
            v == views_of(cases@),
            cases@.len() > 0,
            k < v[0].len(),
            c == v[0][k as int],
            0 <= i <= cases@.len(),
            forall|m: int| 0 <= m < i ==> k < #[trigger] v[m].len() && v[m][k as int] == v[0][k as int],
        decreases cases@.len() - i,
    {
        assert(v[i as int] == cases@[i as int]@);
        if k >= cases[i].len() || cases[i][k] != c {
            return false;
        }
        i = i + 1;
    }
    true
}

fn agrees_from_end(cases: &Vec<Vec<char>>, p: usize, k: usize) -> (r: bool)
    requires
        cases@.len() > 0,
        k < cases@[0]@.len(),
    ensures
        r == agree_from_end(views_of(cases@), p as int, k as int),
{
    let ghost v = views_of(cases@);
    assert(v[0] == cases@[0]@);
    let c = cases[0][cases[0].len() - 1 - k];
    let mut i: usize = 0;
    while i < cases.len()
        invariant
            v == views_of(cases@),
            cases@.len() > 0,
            k < v[0].len(),
            c == v[0][v[0].len() - 1 - k],
            0 <= i <= cases@.len(),
            forall|m: int|
                0 <= m < i ==> p + k < #[trigger] v[m].len() && v[m][v[m].len() - 1 - k]
                    == v[0][v[0].len() - 1 - k],
        decreases cases@.len() - i,
    {
        assert(v[i as int] == cases@[i as int]@);
        let len = cases[i].len();
        if k >= len || p >= len - k || cases[i][len - 1 - k] != c {
            return false;
        }
        i = i + 1;
    }
    true
}

fn common_prefix_len(cases: &Vec<Vec<char>>) -> (r: usize)
    requires
        cases@.len() > 0,
    ensures
        r == prefix_len(views_of(cases@)),
{
    let ghost v = views_of(cases@);
    let mut k: usize = 0;
    while k < cases[0].len() && agrees_at(cases, k)
        invariant
            v == views_of(cases@),
            cases@.len() > 0,
            0 <= k <= v[0].len(),
            prefix_len_from(v, 0) == prefix_len_from(v, k as int),
        decreases v[0].len() - k,
    {
        k = k + 1;
    }
    k
}

fn common_suffix_len(cases: &Vec<Vec<char>>, p: usize) -> (r: usize)
    requires
        cases@.len() > 0,
    ensures
        r == suffix_len_from(views_of(cases@), p as int, 0),
{
    let ghost v = views_of(cases@);
    let mut k: usize = 0;
    while k < cases[0].len() && agrees_from_end(cases, p, k)
        invariant
            v == views_of(cases@),
            cases@.len() > 0,
            0 <= k <= v[0].len(),
            suffix_len_from(v, p as int, 0) == suffix_len_from(v, p as int, k as int),
        decreases v[0].len() - k,
    {
        k = k + 1;
    }
    k
}

fn slice_chars(v: &Vec<char>, from: usize, to: usize) -> (r: Vec<char>)
    requires
        from <= to <= v@.len(),
    ensures
        r@ == v@.subrange(from as int, to as int),
{
    let mut r: Vec<char> = Vec::new();
    let mut i: usize = from;
    while i < to
        invariant
            from <= i <= to <= v@.len(),
            r@ == v@.subrange(from as int, i as int),
        decreases to - i,
    {
        r.push(v[i]);
        i = i + 1;
        assert(r@ =~= v@.subrange(from as int, i as int));
    }
    r
}

/// The choice among several strings.
fn choice_expr(cases: &Vec<Vec<char>>, f: Features) -> (e: Expression)
    ensures
        choice_of(e, views_of(cases@), f),
{
    let ghost v = views_of(cases@);
    let n = cases.len();
    let mut single = true;
    let mut k: usize = 0;
    while k < n
        invariant
            n == cases@.len(),
            v == views_of(cases@),
            0 <= k <= n,
            single <==> forall|m: int|
                0 <= m < k ==> (#[trigger] v[m]).len() == 1 && class_of(v[m], f) is None,
        decreases n - k,
    {
        assert(v[k as int] == cases@[k as int]@);
        if cases[k].len() != 1 || class_for(&cases[k], f).is_some() {
            single = false;
        }
        k = k + 1;
    }
    if single {
        assert(all_single_chars(v));
        assert(unconverted(v, f));
        let mut cs: Vec<char> = Vec::new();
        let mut k: usize = 0;
        while k < n
            invariant
                n == cases@.len(),
                v == views_of(cases@),
                all_single_chars(v),
                unconverted(v, f),
                0 <= k <= n,
                cs@ == v.subrange(0, k as int).map_values(|c: Seq<char>| c[0]),
            decreases n - k,
        {
            assert(v[k as int].len() == 1);
            cs.push(cases[k][0]);
            k = k + 1;
            assert(cs@ =~= v.subrange(0, k as int).map_values(|c: Seq<char>| c[0]));
        }
        assert(v.subrange(0, n as int) =~= v);
        return Expression::CharacterClass(cs);
    }
    let mut all: Vec<Expression> = Vec::new();
    let mut k: usize = 0;
    while k < n
        invariant
            n == cases@.len(),
            v == views_of(cases@),
            0 <= k <= n,
            all@.len() == k,
            forall|m: int| 0 <= m < k ==> is_literal_of(all@[m], v[m], f),
        decreases n - k,
    {
        all.push(literal_of(&cases[k], f));
        k = k + 1;
    }
    let ghost lits = all@;
    let mut keep: Vec<bool> = Vec::new();
    let mut k: usize = 0;
    while k < n
        invariant
            all@ == lits,
            lits.len() == n,
            0 <= k <= n,
            keep@.len() == k,
            forall|m: int| 0 <= m < k ==> #[trigger] keep@[m] == !has_equal_before(lits, m),
        decreases n - k,
    {
        let mut seen = false;
        let mut j: usize = 0;
        while j < k
            invariant
                all@ == lits,
                lits.len() == n,
                0 <= j <= k < n,
                seen <==> exists|i: int| 0 <= i < j && token_equal(lits[i], lits[k as int]),
            decreases k - j,
        {
            if tokens_agree(&all[j], &all[k]) {
                seen = true;
            }
            j = j + 1;
        }
        keep.push(!seen);
        k = k + 1;
    }
    let mut opts: Vec<Expression> = Vec::new();
    let mut k: usize = 0;
    while k < n
        invariant
            lits.len() == n,
            keep@.len() == n,
            forall|m: int| 0 <= m < n ==> #[trigger] keep@[m] == !has_equal_before(lits, m),
            0 <= k <= n,
            all@ == lits.subrange(k as int, n as int),
            opts@ == distinct_options(lits.subrange(0, k as int)),
        decreases n - k,
    {
        let x = all.remove(0);
        proof {
            let pre = lits.subrange(0, k + 1);
            assert(pre.drop_last() =~= lits.subrange(0, k as int));
            assert(has_equal_before(pre, k as int) == has_equal_before(lits, k as int)) by {
                if has_equal_before(lits, k as int) {
                    let j = choose|j: int| 0 <= j < k && token_equal(lits[j], lits[k as int]);
                    assert(pre[j] == lits[j]);
                }
                if has_equal_before(pre, k as int) {
                    let j = choose|j: int| 0 <= j < k && token_equal(pre[j], pre[k as int]);
                    assert(pre[j] == lits[j]);
                }
            }
        }
        if keep[k] {
            opts.push(x);
        }
        k = k + 1;
        assert(all@ =~= lits.subrange(k as int, n as int));
    }
    assert(lits.subrange(0, n as int) =~= lits);
    Expression::Alternation(opts)
}

fn same_class(a: Option<Shorthand>, b: Option<Shorthand>) -> (r: bool)
    ensures
        r == (a == b),
{
    match (a, b) {
        (None, None) => true,
        (Some(x), Some(y)) => x == y,
        _ => false,
    }
}

/// Whether two literals agree token by token.
fn tokens_agree(e1: &Expression, e2: &Expression) -> (r: bool)
    ensures
        r == token_equal(*e1, *e2),
{
    match e1 {
        Expression::Literal(a) => match e2 {
            Expression::Literal(b) => {
                if a.len() != b.len() {
                    assert(!same_tokens(a@, b@));
                    return false;
                }
                let mut i: usize = 0;
                assert(token_equal(*e1, *e2) == same_tokens(a@, b@));
                while i < a.len()
                    invariant
                        token_equal(*e1, *e2) == same_tokens(a@, b@),
                        a@.len() == b@.len(),
                        0 <= i <= a@.len(),
                        forall|m: int| 0 <= m < i ==> same_token(#[trigger] a@[m], b@[m]),
                    decreases a@.len() - i,
                {
                    let ga = &a[i];
                    let gb = &b[i];
                    if ga.min != gb.min || ga.max != gb.max || !same_class(ga.class, gb.class)
                        || ga.chars.len() != gb.chars.len() {
                        assert(!same_token(a@[i as int], b@[i as int]));
                        assert(!same_tokens(a@, b@));
                        return false;
                    }
                    if ga.class.is_none() && !same_chars(&ga.chars, &gb.chars) {
                        assert(!same_token(a@[i as int], b@[i as int]));
                        assert(!same_tokens(a@, b@));
                        return false;
                    }
                    i = i + 1;
                }
                assert(same_tokens(a@, b@));
                true
            },
            _ => false,
        },
        _ => false,
    }
}

fn string_copy(s: &String) -> (r: String)
    ensures
        r@ == s@,
{
    s.clone()
}

/// Relies on `str::chars`, collected: the characters of the string in order.
#[verifier::external_body]
fn chars_of(s: &String) -> (r: Vec<char>)
    ensures
        r@ == s@,
{
    s.chars().collect()
}

/// A test case list and the options under which it becomes a regular expression.
pub struct RegExpBuilder {
    pub test_cases: Vec<String>,
    pub features: Features,
    pub escape_non_ascii: bool,
    pub surrogates: bool,
    pub colorize: bool,
}

/// The views of a list of strings.
pub open spec fn views(v: Seq<String>) -> Seq<Seq<char>> {
    v.map_values(|s: String| s@)
}

impl RegExpBuilder {
    /// A builder for the test cases, with every option off.
    pub fn from(test_cases: &Vec<String>) -> (r: RegExpBuilder)
        ensures
            views(r.test_cases@) == views(test_cases@),
            r.features == (Features {
                digit: false,
                non_digit: false,
                space: false,
                non_space: false,
                word: false,
                non_word: false,
                repetition: false,
            }),
            !r.escape_non_ascii,
            !r.surrogates,
            !r.colorize,
    {
        let mut cases: Vec<String> = Vec::new();
        let mut i: usize = 0;
        while i < test_cases.len()
            invariant
                0 <= i <= test_cases@.len(),
                cases@.len() == i,
                forall|k: int| 0 <= k < i ==> cases@[k]@ == test_cases@[k]@,
            decreases test_cases@.len() - i,
        {
            cases.push(string_copy(&test_cases[i]));
            i = i + 1;
        }
        assert(views(cases@) =~= views(test_cases@));
        RegExpBuilder {
            test_cases: cases,
            features: Features {
                digit: false,
                non_digit: false,
                space: false,
                non_space: false,
                word: false,
                non_word: false,
                repetition: false,
            },
            escape_non_ascii: false,
            surrogates: false,
            colorize: false,
        }
    }

    /// Records the conversions in `features`; of them, the repetition one
    /// collapses f of a repeated cluster into `{m}` in the result.
    pub fn with_conversion_of(&mut self, features: &Vec<Feature>)
        ensures
            final(self).features == features_of(features@),
            views(final(self).test_cases@) == views(old(self).test_cases@),
            final(self).escape_non_ascii == old(self).escape_non_ascii,
            final(self).surrogates == old(self).surrogates,
            final(self).colorize == old(self).colorize,
    {
        self.features = Features::from_list(features);
    }

    /// Escapes code points above ASCII, astral ones as surrogate pairs when
    /// `use_surrogate_pairs` is set.
    pub fn with_escaping_of_non_ascii_chars(&mut self, use_surrogate_pairs: bool)
        ensures
            final(self).escape_non_ascii,
            final(self).surrogates == use_surrogate_pairs,
            views(final(self).test_cases@) == views(old(self).test_cases@),
            final(self).features == old(self).features,
            final(self).colorize == old(self).colorize,
    {
        self.escape_non_ascii = true;
        self.surrogates = use_surrogate_pairs;
    }

    /// Highlights the punctuation of the result.
    pub fn with_syntax_highlighting(&mut self)
        ensures
            final(self).colorize,
            views(final(self).test_cases@) == views(old(self).test_cases@),
            final(self).features == old(self).features,
            final(self).escape_non_ascii == old(self).escape_non_ascii,
            final(self).surrogates == old(self).surrogates,
    {
        self.colorize = true;
    }

    /// The expression of the distinct test cases, in the order of test
    /// cases: whatever their order or repeats in the list.
    pub fn build_expression(&self) -> (e: Expression)
        ensures
            built_from(e, ingested(views(self.test_cases@)), self.features),
            forall|w: Seq<char>| views(self.test_cases@).contains(w) ==> accepts(e, w),
            views(self.test_cases@).len() > 0 && no_shorthands(self.features) ==> forall|
                w: Seq<char>,
            | accepts(e, w) ==> views(self.test_cases@).contains(w),
            views(self.test_cases@).len() == 0 ==> forall|w: Seq<char>|
                accepts(e, w) <==> w.len() == 0,
    {
        let e = self.build_ingested();
        proof {
            let all = views(self.test_cases@);
            let cases = ingested(all);
            if cases.len() > 0 {
                assert(cases.contains(cases[0]));
                lemma_built_language(e, cases, self.features);
                assert forall|w: Seq<char>| all.contains(w) implies accepts(e, w) by {
                    assert(cases.contains(w));
                }
            } else {
                assert forall|w: Seq<char>| accepts(e, w) <==> w.len() == 0 by {
                    lemma_literal_language(e->Literal_0@, w);
                    assert(expanded(e->Literal_0@) =~= Seq::<char>::empty());
                }
                if all.len() > 0 {
                    assert(all.contains(all[0]));
                    assert(cases.contains(all[0]));
                }
            }
        }
        e
    }

    fn build_ingested(&self) -> (e: Expression)
        ensures
            built_from(e, ingested(views(self.test_cases@)), self.features),
            orders(ingested(views(self.test_cases@)), views(self.test_cases@)),
    {
        let mut all: Vec<Vec<char>> = Vec::new();
        let mut i: usize = 0;
        while i < self.test_cases.len()
            invariant
                0 <= i <= self.test_cases@.len(),
                all@.len() == i,
                forall|k: int| 0 <= k < i ==> all@[k]@ == self.test_cases@[k]@,
            decreases self.test_cases@.len() - i,
        {
            all.push(chars_of(&self.test_cases[i]));
            i = i + 1;
        }
        assert(views_of(all@) =~= views(self.test_cases@));
        let ordered = ordered_cases(all);
        let ghost cases = views_of(ordered@);
        let n = ordered.len();
        if n == 0 {
            return Expression::Literal(Vec::new());
        }
        if n == 1 {
            return literal_of(&ordered[0], self.features);
        }
        let p = common_prefix_len(&ordered);
        let q = common_suffix_len(&ordered, p);
        proof {
            lemma_factored(cases);
        }
        if p == 0 && q == 0 {
            return choice_expr(&ordered, self.features);
        }
        let len0 = ordered[0].len();
        let mut mids: Vec<Vec<char>> = Vec::new();
        let mut k: usize = 0;
        while k < n
            invariant
                n == ordered@.len(),
                cases == views_of(ordered@),
                n > 0,
                p == prefix_len(cases),
                q == suffix_len(cases),
                forall|i: int| 0 <= i < cases.len() ==> p + q <= #[trigger] cases[i].len(),
                0 <= k <= n,
                mids@.len() == k,
                forall|m: int|
                    0 <= m < k ==> #[trigger] mids@[m]@ == middles(cases, p as int, q as int)[m],
            decreases n - k,
        {
            assert(cases[k as int] == ordered@[k as int]@);
            let len = ordered[k].len();
            mids.push(slice_chars(&ordered[k], p, len - q));
            k = k + 1;
        }
        assert(views_of(mids@) =~= middles(cases, p as int, q as int));
        assert(cases[0] == ordered@[0]@);
        let prefix = slice_chars(&ordered[0], 0, p);
        let suffix = slice_chars(&ordered[0], len0 - q, len0);
        let m = choice_expr(&mids, self.features);
        let l = literal_of(&prefix, self.features);
        let t = literal_of(&suffix, self.features);
        Expression::Concatenation(Box::new(l), Box::new(Expression::Concatenation(Box::new(m), Box::new(t))))
    }

    /// The style that the options ask for, with the punctuation tokens given.
    pub open spec fn style_with(&self, palette: Palette) -> Style {
        Style { escape_non_ascii: self.escape_non_ascii, surrogates: self.surrogates, palette }
    }

    /// The regular expression for the test cases: the text of
    /// `build_expression`, printed plain or highlighted as the options ask.
    /// Under a shorthand conversion, every cluster of one code point `c`
    /// prints as the token of `chosen_shorthand(kind_of(c), features)` where
    /// that is some class, and as `c` otherwise (see `is_literal_of`).
    pub fn build(&self) -> (r: String)
        ensures
            exists|e: Expression, p: Palette|
                {
                    &&& built_from(e, ingested(views(self.test_cases@)), self.features)
                    &&& if self.colorize {
                        p.is_highlighted()
                    } else {
                        p.is_plain()
                    }
                    &&& r@ == text(e, self.style_with(p))
                },
    {
        let palette = if self.colorize {
            Palette::highlighted()
        } else {
            Palette::plain()
        };
        let style = Style {
            escape_non_ascii: self.escape_non_ascii,
            surrogates: self.surrogates,
            palette,
        };
        let e = self.build_expression();
        let r = e.to_regex(&style);
        assert(style == self.style_with(style.palette));
        r
    }
}

/// Two cluster lists that agree cluster by cluster.
pub open spec fn same_clusters(a: Seq<Grapheme>, b: Seq<Grapheme>) -> bool {
    &&& a.len() == b.len()
    &&& forall|i: int|
        0 <= i < a.len() ==> a[i].chars@ == b[i].chars@ && a[i].min == b[i].min && a[i].max
            == b[i].max && a[i].class == b[i].class
}

proof fn lemma_same_literal_text(a: Seq<Grapheme>, b: Seq<Grapheme>, st: Style)
    requires
        same_tokens(a, b),
    ensures
        literal_text(a, st) == literal_text(b, st),
    decreases a.len(),
{
    if a.len() > 0 {
        assert(same_tokens(a.drop_last(), b.drop_last())) by {
            assert forall|i: int| 0 <= i < a.len() - 1 implies same_token(
                #[trigger] a.drop_last()[i],
                b.drop_last()[i],
            ) by {
                assert(same_token(a[i], b[i]));
            }
        }
        lemma_same_literal_text(a.drop_last(), b.drop_last(), st);
        assert(same_token(a.last(), b.last()));
        assert(grapheme_text(a.last(), st) == grapheme_text(b.last(), st));
    }
}

/// Literals that agree token by token print alike.
proof fn lemma_token_text(e1: Expression, e2: Expression, parent: u8, st: Style)
    requires
        token_equal(e1, e2),
    ensures
        text(e1, st) == text(e2, st),
        wrapped_text(e1, parent, st) == wrapped_text(e2, parent, st),
{
    let g1 = e1->Literal_0@;
    let g2 = e2->Literal_0@;
    lemma_same_literal_text(g1, g2, st);
    if g1.len() == 1 {
        assert(same_token(g1[0], g2[0]));
    }
    assert(e1.spec_is_single_codepoint() == e2.spec_is_single_codepoint());
    assert(e1.spec_precedence() == e2.spec_precedence());
}

/// Dropping repeats keeps agreement position by position.
proof fn lemma_distinct_agree(l1: Seq<Expression>, l2: Seq<Expression>)
    requires
        l1.len() == l2.len(),
        forall|i: int| 0 <= i < l1.len() ==> token_equal(#[trigger] l1[i], l2[i]),
    ensures
        distinct_options(l1).len() == distinct_options(l2).len(),
        forall|i: int|
            0 <= i < distinct_options(l1).len() ==> token_equal(
                #[trigger] distinct_options(l1)[i],
                distinct_options(l2)[i],
            ),
    decreases l1.len(),
{
    if l1.len() > 0 {
        let n = l1.len() - 1;
        assert forall|i: int| 0 <= i < n implies token_equal(
            #[trigger] l1.drop_last()[i],
            l2.drop_last()[i],
        ) by {
            assert(token_equal(l1[i], l2[i]));
        }
        lemma_distinct_agree(l1.drop_last(), l2.drop_last());
        assert(token_equal(l1[n], l2[n]));
        assert(has_equal_before(l1, n) == has_equal_before(l2, n)) by {
            if has_equal_before(l1, n) {
                let j = choose|j: int| 0 <= j < n && token_equal(l1[j], l1[n]);
                assert(token_equal(l1[j], l2[j]));
                let a = l1[j]->Literal_0@;
                let b = l2[j]->Literal_0@;
                let c = l1[n]->Literal_0@;
                let d = l2[n]->Literal_0@;
                assert forall|i: int| 0 <= i < b.len() implies same_token(#[trigger] b[i], d[i]) by {
                    assert(same_token(a[i], b[i]));
                    assert(same_token(a[i], c[i]));
                    assert(same_token(c[i], d[i]));
                }
                assert(token_equal(l2[j], l2[n]));
            }
            if has_equal_before(l2, n) {
                let j = choose|j: int| 0 <= j < n && token_equal(l2[j], l2[n]);
                assert(token_equal(l1[j], l2[j]));
                let a = l1[j]->Literal_0@;
                let b = l2[j]->Literal_0@;
                let c = l1[n]->Literal_0@;
                let d = l2[n]->Literal_0@;
                assert forall|i: int| 0 <= i < a.len() implies same_token(#[trigger] a[i], c[i]) by {
                    assert(same_token(a[i], b[i]));
                    assert(same_token(b[i], d[i]));
                    assert(same_token(c[i], d[i]));
                }
                assert(token_equal(l1[j], l1[n]));
            }
        }
    }
}

/// Each literal agrees with a kept one.
#[verifier::rlimit(60)]
proof fn lemma_distinct_covers(lits: Seq<Expression>)
    requires
        forall|i: int| 0 <= i < lits.len() ==> #[trigger] lits[i] is Literal,
    ensures
        forall|i: int|
            0 <= i < lits.len() ==> exists|m: int|
                0 <= m < distinct_options(lits).len() && token_equal(
                    #[trigger] lits[i],
                    distinct_options(lits)[m],
                ),
    decreases lits.len(),
{
    if lits.len() > 0 {
        let init = lits.drop_last();
        let n = lits.len() - 1;
        assert forall|i: int| 0 <= i < init.len() implies #[trigger] init[i] is Literal by {
            assert(lits[i] is Literal);
        }
        lemma_distinct_covers(init);
        let r = distinct_options(init);
        let d = distinct_options(lits);
        assert forall|i: int| 0 <= i < lits.len() implies exists|m: int|
            0 <= m < d.len() && token_equal(#[trigger] lits[i], d[m]) by {
            if i < n {
                assert(lits[i] == init[i]);
                let m = choose|m: int| 0 <= m < r.len() && token_equal(init[i], r[m]);
                assert(d[m] == r[m]);
            } else if has_equal_before(lits, n) {
                let j = choose|j: int| 0 <= j < n && token_equal(lits[j], lits[n]);
                assert(lits[j] == init[j]);
                let m = choose|m: int| 0 <= m < r.len() && token_equal(init[j], r[m]);
                assert(d[m] == r[m]);
                let a = lits[n]->Literal_0@;
                let b = lits[j]->Literal_0@;
                let c = r[m]->Literal_0@;
                assert forall|k: int| 0 <= k < a.len() implies same_token(#[trigger] a[k], c[k]) by {
                    assert(same_token(b[k], a[k]));
                    assert(same_token(b[k], c[k]));
                }
                assert(token_equal(lits[i], d[m]));
            } else {
                let a = lits[n]->Literal_0@;
                assert forall|k: int| 0 <= k < a.len() implies same_token(#[trigger] a[k], a[k]) by {}
                assert(d[r.len() as int] == lits[n]);
                assert(token_equal(lits[i], d[r.len() as int]));
            }
        }
    }
}

/// Each kept literal is one of the literals.
proof fn lemma_distinct_members(lits: Seq<Expression>)
    ensures
        forall|m: int|
            0 <= m < distinct_options(lits).len() ==> exists|i: int|
                0 <= i < lits.len() && #[trigger] distinct_options(lits)[m] == lits[i],
    decreases lits.len(),
{
    if lits.len() > 0 {
        let init = lits.drop_last();
        let n = lits.len() - 1;
        lemma_distinct_members(init);
        let r = distinct_options(init);
        let d = distinct_options(lits);
        assert forall|m: int| 0 <= m < d.len() implies exists|i: int|
            0 <= i < lits.len() && #[trigger] d[m] == lits[i] by {
            if m < r.len() {
                let i = choose|i: int| 0 <= i < init.len() && r[m] == init[i];
                assert(d[m] == lits[i]);
            } else {
                assert(d[m] == lits[n]);
            }
        }
    }
}

proof fn lemma_same_literal(
    e1: Expression,
    e2: Expression,
    s: Seq<char>,
    f: Features,
    parent: u8,
    st: Style,
)
    requires
        is_literal_of(e1, s, f),
        is_literal_of(e2, s, f),
    ensures
        text(e1, st) == text(e2, st),
        wrapped_text(e1, parent, st) == wrapped_text(e2, parent, st),
        token_equal(e1, e2),
{
    assert(e1 is Literal && e2 is Literal);
    let g1 = e1->Literal_0@;
    let g2 = e2->Literal_0@;
    if f.repetition {
        let r = runs_of(grapheme_clusters(s));
        assert forall|i: int| 0 <= i < g1.len() implies g1[i].chars@ == g2[i].chars@ && g1[i].min
            == g2[i].min && g1[i].max == g2[i].max && g1[i].class == g2[i].class by {
            assert(g1[i].chars@ == r[i].0);
            assert(g2[i].chars@ == r[i].0);
            assert(g1[i].class == class_of(g1[i].chars@, f));
            assert(g2[i].class == class_of(g2[i].chars@, f));
        }
    } else {
        assert(spells(g1, s) && spells(g2, s));
        assert forall|i: int| 0 <= i < g1.len() implies g1[i].chars@ == g2[i].chars@ && g1[i].min
            == g2[i].min && g1[i].max == g2[i].max && g1[i].class == g2[i].class by {
            assert(g1[i].chars@ == grapheme_clusters(s)[i]);
            assert(g2[i].chars@ == grapheme_clusters(s)[i]);
            assert(g1[i].class == class_of(g1[i].chars@, f));
            assert(g2[i].class == class_of(g2[i].chars@, f));
        }
    }
    assert(same_clusters(g1, g2));
    assert forall|i: int| 0 <= i < g1.len() implies same_token(#[trigger] g1[i], g2[i]) by {}
    lemma_token_text(e1, e2, parent, st);
}

proof fn lemma_same_options(o1: Seq<Expression>, o2: Seq<Expression>, n: int, st: Style)
    requires
        o1.len() == o2.len(),
        0 <= n <= o1.len(),
        forall|i: int| 0 <= i < o1.len() ==> token_equal(#[trigger] o1[i], o2[i]),
    ensures
        options_text(o1, n, st) == options_text(o2, n, st),
    decreases n,
{
    if n > 0 {
        lemma_same_options(o1, o2, n - 1, st);
        lemma_token_text(o1[n - 1], o2[n - 1], 1, st);
        lemma_token_text(o1[0], o2[0], 1, st);
    }
}

proof fn lemma_choice_text(
    e1: Expression,
    e2: Expression,
    cases: Seq<Seq<char>>,
    f: Features,
    parent: u8,
    st: Style,
)
    requires
        choice_of(e1, cases, f),
        choice_of(e2, cases, f),
    ensures
        text(e1, st) == text(e2, st),
        wrapped_text(e1, parent, st) == wrapped_text(e2, parent, st),
{
    if all_single_chars(cases) && unconverted(cases, f) {
        assert(e1->CharacterClass_0@ == e2->CharacterClass_0@);
    } else {
        let o1 = e1->Alternation_0@;
        let o2 = e2->Alternation_0@;
        let l1 = choose|lits: Seq<Expression>|
            {
                &&& lits.len() == cases.len()
                &&& forall|i: int| 0 <= i < cases.len() ==> is_literal_of(lits[i], cases[i], f)
                &&& o1 == #[trigger] distinct_options(lits)
            };
        let l2 = choose|lits: Seq<Expression>|
            {
                &&& lits.len() == cases.len()
                &&& forall|i: int| 0 <= i < cases.len() ==> is_literal_of(lits[i], cases[i], f)
                &&& o2 == #[trigger] distinct_options(lits)
            };
        assert forall|i: int| 0 <= i < l1.len() implies token_equal(#[trigger] l1[i], l2[i]) by {
            lemma_same_literal(l1[i], l2[i], cases[i], f, 1, st);
        }
        lemma_distinct_agree(l1, l2);
        lemma_same_options(o1, o2, o1.len() as int, st);
    }
}

/// Two expressions built from the same ordered test cases print alike.
proof fn lemma_built_text_unique(
    e1: Expression,
    e2: Expression,
    cases: Seq<Seq<char>>,
    f: Features,
    st: Style,
)
    requires
        built_from(e1, cases, f),
        built_from(e2, cases, f),
    ensures
        text(e1, st) == text(e2, st),
{
    if cases.len() == 0 {
        assert(e1->Literal_0@ =~= e2->Literal_0@);
    } else if cases.len() == 1 {
        lemma_same_literal(e1, e2, cases[0], f, 1, st);
    } else if prefix_len(cases) + suffix_len(cases) == 0 {
        lemma_choice_text(e1, e2, cases, f, 1, st);
    } else {
        let p = prefix_len(cases);
        let q = suffix_len(cases);
        let c0 = cases[0];
        let l1 = *e1->Concatenation_0;
        let r1 = *e1->Concatenation_1;
        let l2 = *e2->Concatenation_0;
        let r2 = *e2->Concatenation_1;
        lemma_same_literal(l1, l2, c0.subrange(0, p), f, 2, st);
        lemma_choice_text(*r1->Concatenation_0, *r2->Concatenation_0, middles(cases, p, q), f, 2, st);
        lemma_same_literal(
            *r1->Concatenation_1,
            *r2->Concatenation_1,
            c0.subrange(c0.len() - q, c0.len() as int),
            f,
            2,
            st,
        );
        assert(text(r1, st) == text(r2, st));
    }
}

/// Ingestion ignores order and repeats: two lists of test cases with the same
/// members give expressions that print identically under any one style.
pub proof fn lemma_order_and_repeats_ignored(
    a: Seq<Seq<char>>,
    b: Seq<Seq<char>>,
    f: Features,
    e1: Expression,
    e2: Expression,
    st: Style,
)
    requires
        forall|x: Seq<char>| a.contains(x) <==> b.contains(x),
        built_from(e1, ingested(a), f),
        built_from(e2, ingested(b), f),
    ensures
        text(e1, st) == text(e2, st),
{
    assert(a.to_set() =~= b.to_set());
    lemma_built_text_unique(e1, e2, ingested(a), f, st);
}

proof fn lemma_literal_of_language(e: Expression, s: Seq<char>, f: Features)
    requires
        is_literal_of(e, s, f),
    ensures
        accepts(e, s),
        no_shorthands(f) ==> forall|w: Seq<char>| accepts(e, w) <==> w == s,
{
    assert(e is Literal);
    let gs = e->Literal_0@;
    let cl = grapheme_clusters(s);
    cl.lemma_flatten_and_flatten_alt_are_equivalent();
    if f.repetition {
        lemma_holds_runs_expanded(gs, runs_of(cl));
        lemma_runs_spell(cl);
    } else {
        assert(spells(gs, s));
        assert forall|i: int| 0 <= i < gs.len() implies #[trigger] gs[i].min == 1 && gs[i].max
            == 1 by {
            assert(gs[i].chars@ == cl[i]);
        }
        lemma_expanded_once(gs);
        assert(cluster_chars(gs) =~= cl);
    }
    assert(expanded(gs) == s);
    assert forall|i: int|
        0 <= i < gs.len() implies (#[trigger] gs[i].class matches Some(k) ==> gs[i].chars@.len()
        == 1 && in_class(k, gs[i].chars@[0])) by {
        assert(gs[i].class == class_of(gs[i].chars@, f));
        if gs[i].chars@.len() == 1 {
            lemma_chosen_holds(gs[i].chars@[0], f);
        }
    }
    lemma_literal_sound(gs);
    if no_shorthands(f) {
        assert forall|i: int| 0 <= i < gs.len() implies #[trigger] gs[i].class is None by {
            assert(gs[i].class == class_of(gs[i].chars@, f));
            if gs[i].chars@.len() == 1 {
                lemma_chosen_holds(gs[i].chars@[0], f);
            }
        }
        assert forall|w: Seq<char>| accepts(e, w) <==> w == s by {
            lemma_literal_language(gs, w);
        }
    }
}

/// A choice among strings matches each of them, and, with no shorthand
/// conversion, nothing else.
proof fn lemma_choice_language(e: Expression, cases: Seq<Seq<char>>, f: Features)
    requires
        choice_of(e, cases, f),
    ensures
        forall|w: Seq<char>| cases.contains(w) ==> accepts(e, w),
        no_shorthands(f) ==> forall|w: Seq<char>| accepts(e, w) ==> cases.contains(w),
{
    if all_single_chars(cases) && unconverted(cases, f) {
        let cs = e->CharacterClass_0@;
        assert forall|w: Seq<char>| accepts(e, w) <==> cases.contains(w) by {
            if cases.contains(w) {
                let i = choose|i: int| 0 <= i < cases.len() && cases[i] == w;
                assert(cases[i].len() == 1);
                assert(cs[i] == w[0]);
            }
            if accepts(e, w) {
                let i = choose|i: int| 0 <= i < cs.len() && cs[i] == w[0];
                assert(cases[i].len() == 1);
                assert(cases[i] =~= w);
            }
        }
    } else {
        lemma_alternation_language(e, cases, f);
    }
}

/// The alternation of distinct literals of strings matches each of them,
/// and, with no shorthand conversion, nothing else.
#[verifier::rlimit(60)]
proof fn lemma_alternation_language(e: Expression, cases: Seq<Seq<char>>, f: Features)
    requires
        choice_of(e, cases, f),
        !(all_single_chars(cases) && unconverted(cases, f)),
    ensures
        forall|w: Seq<char>| cases.contains(w) ==> accepts(e, w),
        no_shorthands(f) ==> forall|w: Seq<char>| accepts(e, w) ==> cases.contains(w),
{
    {
        assert(e is Alternation);
        let opts = e->Alternation_0@;
        let lits = choose|lits: Seq<Expression>|
            {
                &&& lits.len() == cases.len()
                &&& forall|i: int| 0 <= i < cases.len() ==> is_literal_of(lits[i], cases[i], f)
                &&& opts == #[trigger] distinct_options(lits)
            };
        assert forall|i: int| 0 <= i < lits.len() implies #[trigger] lits[i] is Literal by {
            assert(is_literal_of(lits[i], cases[i], f));
        }
        lemma_distinct_covers(lits);
        lemma_distinct_members(lits);
        assert forall|w: Seq<char>| cases.contains(w) implies accepts(e, w) by {
            let i = choose|i: int| 0 <= i < cases.len() && cases[i] == w;
            lemma_literal_of_language(lits[i], cases[i], f);
            let m = choose|m: int| 0 <= m < opts.len() && token_equal(lits[i], opts[m]);
            lemma_same_tokens_language(lits[i]->Literal_0@, opts[m]->Literal_0@);
            assert(accepts(opts[m], w));
        }
        if no_shorthands(f) {
            assert forall|w: Seq<char>| accepts(e, w) implies cases.contains(w) by {
                let m = choose|m: int| 0 <= m < opts.len() && accepts(opts[m], w);
                let i = choose|i: int| 0 <= i < lits.len() && opts[m] == lits[i];
                lemma_literal_of_language(lits[i], cases[i], f);
                assert(cases[i] == w);
            }
        }
    }
}

/// An expression built from non-empty ordered test cases matches each of
/// them, and, with no shorthand conversion, nothing else.
proof fn lemma_built_language(e: Expression, cases: Seq<Seq<char>>, f: Features)
    requires
        built_from(e, cases, f),
        cases.len() > 0,
    ensures
        forall|w: Seq<char>| cases.contains(w) ==> accepts(e, w),
        no_shorthands(f) ==> forall|w: Seq<char>| accepts(e, w) ==> cases.contains(w),
{
    if cases.len() == 1 {
        lemma_literal_of_language(e, cases[0], f);
        assert forall|w: Seq<char>| cases.contains(w) implies accepts(e, w) by {
            assert(w == cases[0]);
        }
        if no_shorthands(f) {
            assert forall|w: Seq<char>| accepts(e, w) implies cases.contains(w) by {
                assert(cases.contains(cases[0]));
            }
        }
    } else if prefix_len(cases) + suffix_len(cases) == 0 {
        lemma_choice_language(e, cases, f);
    } else {
        let p = prefix_len(cases);
        let q = suffix_len(cases);
        let c0 = cases[0];
        let pre = c0.subrange(0, p);
        let suf = c0.subrange(c0.len() - q, c0.len() as int);
        let mids = middles(cases, p, q);
        lemma_factored(cases);
        let l = *e->Concatenation_0;
        let r = *e->Concatenation_1;
        let m = *r->Concatenation_0;
        let t = *r->Concatenation_1;
        lemma_literal_of_language(l, pre, f);
        lemma_literal_of_language(t, suf, f);
        lemma_choice_language(m, mids, f);
        assert forall|w: Seq<char>| cases.contains(w) implies accepts(e, w) by {
            let i = choose|i: int| 0 <= i < cases.len() && cases[i] == w;
            assert(w == pre + mids[i] + suf);
            let rest = w.subrange(p, w.len() as int);
            assert(w.subrange(0, p) =~= pre);
            assert(rest =~= mids[i] + suf);
            let k = mids[i].len() as int;
            assert(rest.subrange(0, k) =~= mids[i]);
            assert(rest.subrange(k, rest.len() as int) =~= suf);
            assert(mids.contains(mids[i]));
            assert(accepts(m, rest.subrange(0, k)));
            assert(accepts(t, rest.subrange(k, rest.len() as int)));
            assert(accepts(r, rest));
            assert(accepts(l, w.subrange(0, p)));
        }
        if no_shorthands(f) {
            assert forall|w: Seq<char>| accepts(e, w) implies cases.contains(w) by {
                let k1 = choose|k1: int|
                    0 <= k1 <= w.len() && accepts(l, w.subrange(0, k1)) && accepts(
                        r,
                        w.subrange(k1, w.len() as int),
                    );
                let rest = w.subrange(k1, w.len() as int);
                let k2 = choose|k2: int|
                    0 <= k2 <= rest.len() && accepts(m, rest.subrange(0, k2)) && accepts(
                        t,
                        rest.subrange(k2, rest.len() as int),
                    );
                let i = choose|i: int| 0 <= i < mids.len() && mids[i] == rest.subrange(0, k2);
                assert(w =~= w.subrange(0, k1) + rest.subrange(0, k2) + rest.subrange(
                    k2,
                    rest.len() as int,
                ));
                assert(cases[i] == w);
                assert(cases.contains(w));
            }
        }
    }
}

} // verus!
