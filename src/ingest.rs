//! Ingestion of test cases: duplicates dropped, the rest put in a fixed order
//! (longer first, then by code points), so that the input order and repeats
//! cannot change the result.

use vstd::prelude::*;

verus! {

/// `a` is below `b` in code-point order at the first position where they
/// differ (used on strings of equal length).
pub open spec fn lex_before(a: Seq<char>, b: Seq<char>) -> bool
    decreases a.len(),
{
    if a.len() == 0 || b.len() == 0 {
        false
    } else if a[0] != b[0] {
        (a[0] as u32) < (b[0] as u32)
    } else {
        lex_before(a.drop_first(), b.drop_first())
    }
}

/// The order of test cases: longer first, equal lengths by code points.
pub open spec fn case_before(a: Seq<char>, b: Seq<char>) -> bool {
    a.len() > b.len() || (a.len() == b.len() && lex_before(a, b))
}

/// Strictly ascending in the order of test cases, hence free of repeats.
pub open spec fn strictly_ordered(s: Seq<Seq<char>>) -> bool {
    forall|i: int, j: int| 0 <= i < j < s.len() ==> case_before(s[i], s[j])
}

/// `s` holds the distinct test cases of `cases` in the order of test cases.
pub open spec fn orders(s: Seq<Seq<char>>, cases: Seq<Seq<char>>) -> bool {
    &&& strictly_ordered(s)
    &&& forall|x: Seq<char>| s.contains(x) <==> cases.contains(x)
}

pub proof fn lemma_lex_irreflexive(a: Seq<char>)
    ensures
        !lex_before(a, a),
    decreases a.len(),
{
    if a.len() > 0 {
        lemma_lex_irreflexive(a.drop_first());
    }
}

pub proof fn lemma_lex_transitive(a: Seq<char>, b: Seq<char>, c: Seq<char>)
    requires
        lex_before(a, b),
        lex_before(b, c),
    ensures
        lex_before(a, c),
    decreases a.len(),
{
    if a[0] == b[0] && b[0] == c[0] {
        lemma_lex_transitive(a.drop_first(), b.drop_first(), c.drop_first());
    }
}

pub proof fn lemma_lex_total(a: Seq<char>, b: Seq<char>)
    requires
        a.len() == b.len(),
        a != b,
    ensures
        lex_before(a, b) || lex_before(b, a),
    decreases a.len(),
{
    if a.len() == 0 {
        assert(a =~= b);
    } else if a[0] == b[0] {
        if a.drop_first() == b.drop_first() {
            assert(a =~= seq![a[0]] + a.drop_first());
            assert(b =~= seq![b[0]] + b.drop_first());
        }
        lemma_lex_total(a.drop_first(), b.drop_first());
    } else {
        let x = a[0] as u32;
        let y = b[0] as u32;
        if x == y {
            vstd::utf8::char_u32_cast(a[0], x);
            vstd::utf8::char_u32_cast(b[0], y);
        }
    }
}

proof fn lemma_case_order(a: Seq<char>, b: Seq<char>, c: Seq<char>)
    ensures
        !case_before(a, a),
        case_before(a, b) && case_before(b, c) ==> case_before(a, c),
        a != b ==> case_before(a, b) || case_before(b, a),
{
    lemma_lex_irreflexive(a);
    if case_before(a, b) && case_before(b, c) && a.len() == b.len() && b.len() == c.len() {
        lemma_lex_transitive(a, b, c);
    }
    if a != b && a.len() == b.len() {
        lemma_lex_total(a, b);
    }
}

/// There is one strictly ordered sequence of given members: the order of
/// test cases alone fixes where each goes.
pub proof fn lemma_orders_unique(s: Seq<Seq<char>>, t: Seq<Seq<char>>)
    requires
        strictly_ordered(s),
        strictly_ordered(t),
        forall|x: Seq<char>| s.contains(x) <==> t.contains(x),
    ensures
        s == t,
    decreases s.len(),
{
    if s.len() == 0 {
        if t.len() > 0 {
            assert(t.contains(t[0]));
        }
        assert(s =~= t);
    } else {
        assert(s.contains(s[0]));
        assert(t.len() > 0);
        assert(t.contains(t[0]));
        let j = choose|j: int| 0 <= j < t.len() && t[j] == s[0];
        let i = choose|i: int| 0 <= i < s.len() && s[i] == t[0];
        lemma_case_order(s[0], s[0], s[0]);
        if j > 0 {
            assert(case_before(t[0], t[j]));
            if i > 0 {
                assert(case_before(s[0], s[i]));
                lemma_case_order(t[0], s[0], t[0]);
            }
        }
        assert(s[0] == t[0]);
        let s1 = s.drop_first();
        let t1 = t.drop_first();
        assert forall|x: Seq<char>| s1.contains(x) <==> t1.contains(x) by {
            if s1.contains(x) {
                let k = choose|k: int| 0 <= k < s1.len() && s1[k] == x;
                assert(s.contains(x));
                assert(case_before(s[0], s[k + 1]));
                let m = choose|m: int| 0 <= m < t.len() && t[m] == x;
                if m == 0 {
                    lemma_case_order(x, x, x);
                }
                assert(t1[m - 1] == x);
            }
            if t1.contains(x) {
                let k = choose|k: int| 0 <= k < t1.len() && t1[k] == x;
                assert(t.contains(x));
                assert(case_before(t[0], t[k + 1]));
                let m = choose|m: int| 0 <= m < s.len() && s[m] == x;
                if m == 0 {
                    lemma_case_order(x, x, x);
                }
                assert(s1[m - 1] == x);
            }
        }
        lemma_orders_unique(s1, t1);
        assert(s =~= seq![s[0]] + s1);
        assert(t =~= seq![t[0]] + t1);
    }
}

/// The views of a list of character vectors.
pub open spec fn views_of(v: Seq<Vec<char>>) -> Seq<Seq<char>> {
    v.map_values(|x: Vec<char>| x@)
}

/// The one strictly ordered sequence whose members are `members`.
pub open spec fn ordered_members(members: Set<Seq<char>>) -> Seq<Seq<char>> {
    choose|s: Seq<Seq<char>>| strictly_ordered(s) && s.to_set() == members
}

/// The one strictly ordered sequence of the distinct test cases of `cases`.
pub open spec fn ingested(cases: Seq<Seq<char>>) -> Seq<Seq<char>> {
    ordered_members(cases.to_set())
}

fn lex_less(a: &Vec<char>, b: &Vec<char>) -> (r: bool)
    ensures
        r == lex_before(a@, b@),
{
    let mut i: usize = 0;
    assert(a@.skip(0) =~= a@);
    assert(b@.skip(0) =~= b@);
    while i < a.len() && i < b.len() && a[i] == b[i]
        invariant
            0 <= i <= a@.len(),
            i <= b@.len(),
            lex_before(a@, b@) == lex_before(a@.skip(i as int), b@.skip(i as int)),
        decreases a@.len() - i,
    {
        assert(a@.skip(i as int).drop_first() =~= a@.skip(i + 1));
        assert(b@.skip(i as int).drop_first() =~= b@.skip(i + 1));
        i = i + 1;
    }
    if i < a.len() && i < b.len() {
        (a[i] as u32) < (b[i] as u32)
    } else {
        false
    }
}

/// Whether test case `a` goes before `b`: longer first, equal lengths by
/// code points.
pub fn case_precedes(a: &Vec<char>, b: &Vec<char>) -> (r: bool)
    ensures
        r == case_before(a@, b@),
{
    a.len() > b.len() || (a.len() == b.len() && lex_less(a, b))
}

pub(crate) fn same_chars(a: &Vec<char>, b: &Vec<char>) -> (r: bool)
    ensures
        r == (a@ == b@),
{
    if a.len() != b.len() {
        return false;
    }
    let mut i: usize = 0;
    while i < a.len()
        invariant
            a@.len() == b@.len(),
            0 <= i <= a@.len(),
            forall|k: int| 0 <= k < i ==> a@[k] == b@[k],
        decreases a@.len() - i,
    {
        if a[i] != b[i] {
            return false;
        }
        i = i + 1;
    }
    assert(a@ =~= b@);
    true
}

/// Adds a test case to a strictly ordered list, unless it is there already.
pub fn insert_case(ordered: &mut Vec<Vec<char>>, x: Vec<char>)
    requires
        strictly_ordered(views_of(old(ordered)@)),
    ensures
        strictly_ordered(views_of(final(ordered)@)),
        forall|y: Seq<char>|
            views_of(final(ordered)@).contains(y) <==> (views_of(old(ordered)@).contains(y) || y
                == x@),
{
    let ghost old_views = views_of(ordered@);
    let mut p: usize = 0;
    while p < ordered.len() && case_precedes(&ordered[p], &x)
        invariant
            old_views == views_of(ordered@),
            0 <= p <= ordered@.len(),
            forall|k: int| 0 <= k < p ==> case_before(old_views[k], x@),
        decreases ordered@.len() - p,
    {
        p = p + 1;
    }
    if p < ordered.len() && same_chars(&ordered[p], &x) {
        assert(old_views[p as int] == x@);
        return;
    }
    assert forall|k: int| p <= k < old_views.len() implies case_before(x@, old_views[k]) by {
        lemma_case_order(old_views[p as int], x@, x@);
        lemma_case_order(x@, old_views[p as int], old_views[k]);
    }
    ordered.insert(p, x);
    let ghost new_views = views_of(ordered@);
    assert(new_views =~= old_views.insert(p as int, x@));
    assert forall|i: int, j: int|
        0 <= i < j < new_views.len() implies case_before(new_views[i], new_views[j]) by {
        if i < p && j == p {
        } else if i < p && j > p {
            lemma_case_order(new_views[i], x@, new_views[j]);
        }
    }
    assert forall|y: Seq<char>|
        new_views.contains(y) <==> (old_views.contains(y) || y == x@) by {
        if new_views.contains(y) {
            let k = choose|k: int| 0 <= k < new_views.len() && new_views[k] == y;
            if k < p {
                assert(old_views[k] == y);
            } else if k > p {
                assert(old_views[k - 1] == y);
            }
        }
        if old_views.contains(y) {
            let k = choose|k: int| 0 <= k < old_views.len() && old_views[k] == y;
            if k < p {
                assert(new_views[k] == y);
            } else {
                assert(new_views[k + 1] == y);
            }
        }
        if y == x@ {
            assert(new_views[p as int] == y);
        }
    }
}

/// The distinct test cases in the order of test cases.
pub fn ordered_cases(cases: Vec<Vec<char>>) -> (r: Vec<Vec<char>>)
    ensures
        orders(views_of(r@), views_of(cases@)),
        views_of(r@) == ingested(views_of(cases@)),
{
    let ghost all = views_of(cases@);
    let mut rest = cases;
    let mut ordered: Vec<Vec<char>> = Vec::new();
    assert(views_of(ordered@) =~= Seq::<Seq<char>>::empty());
    while rest.len() > 0
        invariant
            strictly_ordered(views_of(ordered@)),
            forall|y: Seq<char>|
                (views_of(ordered@).contains(y) || views_of(rest@).contains(y))
                    <==> all.contains(y),
        decreases rest@.len(),
    {
        let ghost before = views_of(rest@);
        let x = rest.pop().unwrap();
        assert(before =~= views_of(rest@).push(x@));
        assert forall|y: Seq<char>| before.contains(y) <==> (views_of(rest@).contains(y) || y == x@) by {
            if before.contains(y) {
                let k = choose|k: int| 0 <= k < before.len() && before[k] == y;
                if k < before.len() - 1 {
                    assert(views_of(rest@)[k] == y);
                }
            }
            if views_of(rest@).contains(y) {
                let k = choose|k: int| 0 <= k < views_of(rest@).len() && views_of(rest@)[k] == y;
                assert(before[k] == y);
            }
            if y == x@ {
                assert(before[before.len() - 1] == y);
            }
        }
        insert_case(&mut ordered, x);
    }
    assert forall|y: Seq<char>| views_of(ordered@).contains(y) <==> all.contains(y) by {
        if views_of(rest@).contains(y) {
            let k = choose|k: int| 0 <= k < views_of(rest@).len() && views_of(rest@)[k] == y;
        }
    }
    proof {
        let r = views_of(ordered@);
        assert(r.to_set() =~= all.to_set());
        let s = ingested(all);
        assert(strictly_ordered(s) && s.to_set() == all.to_set());
        assert forall|x: Seq<char>| s.contains(x) <==> r.contains(x) by {
            assert(s.to_set().contains(x) == s.contains(x));
            assert(r.to_set().contains(x) == r.contains(x));
        }
        lemma_orders_unique(s, r);
    }
    ordered
}

} // verus!
