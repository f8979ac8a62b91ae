//! Runs of one repeated cluster, collapsed into a single cluster with the
//! bound `{m}`.

use crate::ast::Grapheme;
use crate::ingest::same_chars;
use crate::lang::{expanded, fixed_counts, repeat};
use vstd::prelude::*;

verus! {

/// The runs of equal consecutive clusters in `c`, each as the cluster and
/// how often it occurs (a run stops growing at the largest `u32`).
pub open spec fn runs_of(c: Seq<Seq<char>>) -> Seq<(Seq<char>, nat)>
    decreases c.len(),
{
    if c.len() == 0 {
        seq![]
    } else {
        let r = runs_of(c.drop_last());
        if r.len() > 0 && r.last().0 == c.last() && r.last().1 < 0xFFFF_FFFF {
            r.update(r.len() - 1, (c.last(), r.last().1 + 1))
        } else {
            r.push((c.last(), 1nat))
        }
    }
}

/// The code points that a list of runs stands for, run after run.
pub open spec fn runs_expansion(r: Seq<(Seq<char>, nat)>) -> Seq<char>
    decreases r.len(),
{
    if r.len() == 0 {
        seq![]
    } else {
        runs_expansion(r.drop_last()) + repeat(r.last().0, r.last().1)
    }
}

/// The runs spell the clusters they were taken from.
pub proof fn lemma_runs_spell(c: Seq<Seq<char>>)
    ensures
        runs_expansion(runs_of(c)) == c.flatten_alt(),
        forall|i: int| 0 <= i < runs_of(c).len() ==> 1 <= #[trigger] runs_of(c)[i].1 <= 0xFFFF_FFFF,
    decreases c.len(),
{
    if c.len() > 0 {
        lemma_runs_spell(c.drop_last());
        let r = runs_of(c.drop_last());
        let x = c.last();
        assert(repeat(x, 1) =~= x) by {
            assert(repeat(x, 0) =~= Seq::<char>::empty());
        }
        if r.len() > 0 && r.last().0 == x && r.last().1 < 0xFFFF_FFFF {
            let r2 = r.update(r.len() - 1, (x, r.last().1 + 1));
            assert(r2.drop_last() =~= r.drop_last());
            assert(repeat(x, r.last().1 + 1) == repeat(x, r.last().1) + x);
            assert(runs_expansion(r2) =~= runs_expansion(r) + x);
        } else {
            assert(r.push((x, 1nat)).drop_last() =~= r);
        }
    }
}

/// `gs` holds the runs, each as one cluster bounded by its length.
pub open spec fn holds_runs(gs: Seq<Grapheme>, runs: Seq<(Seq<char>, nat)>) -> bool {
    &&& gs.len() == runs.len()
    &&& forall|i: int|
        0 <= i < gs.len() ==> #[trigger] gs[i].chars@ == runs[i].0 && gs[i].min == runs[i].1
            && gs[i].max == runs[i].1
}

/// Clusters holding runs expand to what the runs stand for.
pub proof fn lemma_holds_runs_expanded(gs: Seq<Grapheme>, runs: Seq<(Seq<char>, nat)>)
    requires
        holds_runs(gs, runs),
    ensures
        fixed_counts(gs),
        expanded(gs) == runs_expansion(runs),
    decreases gs.len(),
{
    if gs.len() > 0 {
        let init = gs.drop_last();
        assert(holds_runs(init, runs.drop_last())) by {
            assert forall|i: int| 0 <= i < init.len() implies #[trigger] init[i].chars@
                == runs.drop_last()[i].0 && init[i].min == runs.drop_last()[i].1 && init[i].max
                == runs.drop_last()[i].1 by {
                assert(init[i] == gs[i]);
            }
        }
        lemma_holds_runs_expanded(init, runs.drop_last());
        assert(gs.last().chars@ == runs.last().0);
    }
    assert forall|i: int| 0 <= i < gs.len() implies #[trigger] gs[i].min == gs[i].max by {
        assert(gs[i].chars@ == runs[i].0);
    }
}

/// Collapses each run of two or more equal clusters into one cluster with
/// the bound `{m}`, where `m` is the length of the run.
pub fn collapse_runs(clusters: &Vec<Vec<char>>) -> (r: Vec<Grapheme>)
    ensures
        holds_runs(r@, runs_of(clusters@.map_values(|v: Vec<char>| v@))),
{
    let ghost c = clusters@.map_values(|v: Vec<char>| v@);
    let mut out: Vec<Grapheme> = Vec::new();
    let mut i: usize = 0;
    while i < clusters.len()
        invariant
            0 <= i <= clusters@.len(),
            c == clusters@.map_values(|v: Vec<char>| v@),
            holds_runs(out@, runs_of(c.subrange(0, i as int))),
        decreases clusters@.len() - i,
    {
        let ghost prev = runs_of(c.subrange(0, i as int));
        proof {
            lemma_runs_spell(c.subrange(0, i as int));
            assert(c.subrange(0, i + 1).drop_last() =~= c.subrange(0, i as int));
            assert(c.subrange(0, i + 1).last() == clusters@[i as int]@);
        }
        let n = out.len();
        let ghost old_out = out@;
        let mut merged = false;
        if n > 0 {
            let last_min = out[n - 1].min;
            if last_min < 0xFFFF_FFFF && same_chars(&out[n - 1].chars, &clusters[i]) {
                let chars = copy_chars(&clusters[i]);
                out.set(n - 1, Grapheme::repeated(chars, last_min + 1, last_min + 1));
                merged = true;
            }
        }
        if !merged {
            let chars = copy_chars(&clusters[i]);
            out.push(Grapheme::new(chars));
        }
        proof {
            let x = clusters@[i as int]@;
            let next = runs_of(c.subrange(0, i + 1));
            if n > 0 {
                assert(out@[n - 1].chars@ == next[n - 1].0);
            }
            assert forall|k: int| 0 <= k < out@.len() implies #[trigger] out@[k].chars@
                == next[k].0 && out@[k].min == next[k].1 && out@[k].max == next[k].1 by {
                if k < n - 1 || (k == n - 1 && !merged) {
                    assert(out@[k] == old_out[k]);
                    assert(old_out[k].chars@ == prev[k].0);
                }
            }
        }
        i = i + 1;
    }
    assert(c.subrange(0, clusters@.len() as int) =~= c);
    out
}

pub(crate) fn copy_chars(a: &Vec<char>) -> (r: Vec<char>)
    ensures
        r@ == a@,
{
    let mut r: Vec<char> = Vec::new();
    let mut i: usize = 0;
    while i < a.len()
        invariant
            0 <= i <= a@.len(),
            r@ == a@.subrange(0, i as int),
        decreases a@.len() - i,
    {
        r.push(a[i]);
        i = i + 1;
        assert(r@ =~= a@.subrange(0, i as int));
    }
    assert(a@.subrange(0, a@.len() as int) =~= a@);
    r
}

} // verus!
