//! The batch step of a sync run: folding per-candidate fetch outcomes back
//! into the local manifest.
//!
//! Each candidate owns a distinct path, so the resulting manifest depends
//! only on which candidates succeeded, never on completion order; the
//! contracts here state the result as a map. A failure is reported in the
//! returned index list and leaves the manifest untouched for its path.
use vstd::prelude::*;

use crate::fetch::FetchError;
use crate::manifest::Lockfile;
use crate::manifest::WebsiteTreeEntry;
use crate::manifest::tree_model;
use crate::planner::is_candidate;

verus! {

/// The terminal state of one candidate's fetch within a run.
#[derive(Clone, Copy, Debug, PartialEq, Eq, Structural)]
pub enum FetchOutcome {
    /// The content was retrieved and the output file written.
    Success,
    /// The fetch failed; the error says why.
    Failure(FetchError),
}

/// The manifest map after the outcomes are applied: each successful
/// candidate is inserted under its path, each failed one is ignored.
pub open spec fn apply_model(
    m: Map<Seq<char>, Option<u64>>,
    cands: Seq<(Seq<char>, Option<u64>)>,
    outs: Seq<FetchOutcome>,
) -> Map<Seq<char>, Option<u64>>
    decreases cands.len(),
{
    if cands.len() == 0 || cands.len() != outs.len() {
        m
    } else {
        let prev = apply_model(m, cands.drop_last(), outs.drop_last());
        if outs.last() is Success {
            prev.insert(cands.last().0, cands.last().1)
        } else {
            prev
        }
    }
}

/// The positions of the failed outcomes, in increasing order.
pub open spec fn failed_model(outs: Seq<FetchOutcome>) -> Seq<int>
    decreases outs.len(),
{
    if outs.len() == 0 {
        Seq::empty()
    } else {
        failed_model(outs.drop_last()) + (if outs.last() is Failure {
            seq![outs.len() - 1]
        } else {
            Seq::<int>::empty()
        })
    }
}

/// `failed_model` holds exactly the failing positions, in increasing order.
pub proof fn lemma_failed_model_props(outs: Seq<FetchOutcome>)
    ensures
        forall|i: int|
            #[trigger] failed_model(outs).contains(i) <==> 0 <= i < outs.len() && outs[i] is Failure,
        forall|a: int, b: int|
            0 <= a < b < failed_model(outs).len() ==> failed_model(outs)[a] < failed_model(outs)[b],
    decreases outs.len(),
{
    if outs.len() > 0 {
        lemma_failed_model_props(outs.drop_last());
        let f = failed_model(outs);
        let q = failed_model(outs.drop_last());
        assert forall|i: int| #[trigger] f.contains(i) implies 0 <= i < outs.len()
            && outs[i] is Failure by {
            let j = choose|j: int| 0 <= j < f.len() && f[j] == i;
            if j < q.len() {
                assert(q.contains(i));
                assert(outs.drop_last()[i] == outs[i]);
            }
        }
        assert forall|i: int| 0 <= i < outs.len() && outs[i] is Failure implies #[trigger] f.contains(
            i,
        ) by {
            if i < outs.len() - 1 {
                assert(outs.drop_last()[i] == outs[i]);
                assert(q.contains(i));
                let j = choose|j: int| 0 <= j < q.len() && q[j] == i;
                assert(f[j] == i);
            } else {
                assert(f[f.len() - 1] == i);
            }
        }
        assert forall|a: int, b: int| 0 <= a < b < f.len() implies f[a] < f[b] by {
            if b < q.len() {
            } else {
                assert(f[b] == outs.len() - 1);
                assert(q.contains(f[a]));
            }
        }
    }
}

/// Applies the outcomes of a batch to the local manifest: inserts every
/// successful candidate under its path, leaves the manifest untouched for
/// every failed one, and returns the failing positions in increasing order.
/// One failure never prevents the other outcomes from being applied.
pub fn apply_fetch_results(
    local: &mut Lockfile,
    candidates: &Vec<WebsiteTreeEntry>,
    outcomes: &Vec<FetchOutcome>,
) -> (failed: Vec<usize>)
    requires
        old(local).wf(),
        candidates@.len() == outcomes@.len(),
    ensures
        final(local).wf(),
        final(local).spec_version() == old(local).spec_version(),
        final(local).as_map() == apply_model(
            old(local).as_map(),
            tree_model(candidates@),
            outcomes@,
        ),
        failed@.map_values(|u: usize| u as int) == failed_model(outcomes@),
{
    let mut failed: Vec<usize> = Vec::new();
    let n = candidates.len();
    let mut i: usize = 0;
    proof {
        assert(tree_model(candidates@).subrange(0, 0)
            =~= Seq::<(Seq<char>, Option<u64>)>::empty());
        assert(failed@.map_values(|u: usize| u as int) =~= failed_model(outcomes@.subrange(0, 0)));
    }
    while i < n
        invariant
            i <= n,
            n == candidates@.len(),
            outcomes@.len() == n,
            local.wf(),
            local.spec_version() == old(local).spec_version(),
            local.as_map() == apply_model(
                old(local).as_map(),
                tree_model(candidates@).subrange(0, i as int),
                outcomes@.subrange(0, i as int),
            ),
            failed@.map_values(|u: usize| u as int) == failed_model(outcomes@.subrange(0, i as int)),
        decreases n - i,
    {
        let ghost pc = tree_model(candidates@).subrange(0, i as int);
        let ghost po = outcomes@.subrange(0, i as int);
        let ghost nc = tree_model(candidates@).subrange(0, i + 1 as int);
        let ghost no = outcomes@.subrange(0, i + 1 as int);
        proof {
            assert(nc.drop_last() =~= pc);
            assert(no.drop_last() =~= po);
            assert(nc.last() == candidates@[i as int].model());
            assert(no.last() == outcomes@[i as int]);
        }
        match outcomes[i] {
            FetchOutcome::Success => {
                local.update_entry(candidates[i].clone());
                proof {
                    assert(failed@.map_values(|u: usize| u as int) =~= failed_model(no));
                }
            },
            FetchOutcome::Failure(_) => {
                let ghost prev = failed@;
                failed.push(i);
                proof {
                    assert(failed@.map_values(|u: usize| u as int) =~= prev.map_values(
                        |u: usize| u as int,
                    ) + seq![i as int]);
                    assert(failed@.map_values(|u: usize| u as int) =~= failed_model(no));
                }
            },
        }
        i += 1;
    }
    proof {
        assert(tree_model(candidates@).subrange(0, n as int) =~= tree_model(candidates@));
        assert(outcomes@.subrange(0, n as int) =~= outcomes@);
    }
    failed
}

/// Applying outcomes never touches a path that no successful candidate
/// carries: presence and recorded size at such a path are unchanged.
pub proof fn lemma_apply_untouched(
    m: Map<Seq<char>, Option<u64>>,
    cands: Seq<(Seq<char>, Option<u64>)>,
    outs: Seq<FetchOutcome>,
    p: Seq<char>,
)
    requires
        forall|j: int| 0 <= j < cands.len() && outs[j] is Success ==> (#[trigger] cands[j]).0 != p,
    ensures
        apply_model(m, cands, outs).contains_key(p) == m.contains_key(p),
        m.contains_key(p) ==> apply_model(m, cands, outs)[p] == m[p],
    decreases cands.len(),
{
    if cands.len() != 0 && cands.len() == outs.len() {
        assert forall|j: int|
            0 <= j < cands.drop_last().len() && outs.drop_last()[j] is Success implies (
        #[trigger] cands.drop_last()[j]).0 != p by {
            assert(cands.drop_last()[j] == cands[j]);
            assert(outs.drop_last()[j] == outs[j]);
        }
        lemma_apply_untouched(m, cands.drop_last(), outs.drop_last(), p);
        if outs.last() is Success {
            assert(cands[cands.len() - 1].0 != p);
        }
    }
}

/// Law: a successful single-candidate fetch records exactly that entry's
/// path and size; the entry — with its output file present — is no longer
/// a candidate against the updated manifest, so replanning the same remote
/// state yields nothing.
pub proof fn lemma_success_then_skip(m: Map<Seq<char>, Option<u64>>, e: (Seq<char>, Option<u64>))
    ensures
        apply_model(m, seq![e], seq![FetchOutcome::Success]).contains_key(e.0),
        apply_model(m, seq![e], seq![FetchOutcome::Success])[e.0] == e.1,
        !is_candidate(e, true, apply_model(m, seq![e], seq![FetchOutcome::Success])),
        crate::planner::plan_model(
            seq![e],
            seq![true],
            apply_model(m, seq![e], seq![FetchOutcome::Success]),
        ).len() == 0,
{
    let cands = seq![e];
    let outs = seq![FetchOutcome::Success];
    assert(cands.drop_last() =~= Seq::<(Seq<char>, Option<u64>)>::empty());
    assert(outs.drop_last() =~= Seq::<FetchOutcome>::empty());
    assert(apply_model(m, cands.drop_last(), outs.drop_last()) == m);
    assert(apply_model(m, cands, outs) == m.insert(e.0, e.1));
    let m2 = apply_model(m, cands, outs);
    crate::planner::lemma_plan_skips_current(seq![e], seq![true], m2);
}

/// Law: a failed candidate is never recorded. If no successful candidate
/// in the batch shares its path, the manifest is unchanged at that path,
/// and the failure stands in the report.
pub proof fn lemma_failure_not_recorded(
    m: Map<Seq<char>, Option<u64>>,
    cands: Seq<(Seq<char>, Option<u64>)>,
    outs: Seq<FetchOutcome>,
    i: int,
)
    requires
        cands.len() == outs.len(),
        0 <= i < cands.len(),
        outs[i] is Failure,
        forall|j: int| 0 <= j < cands.len() && outs[j] is Success ==> (#[trigger] cands[j]).0
            != cands[i].0,
    ensures
        apply_model(m, cands, outs).contains_key(cands[i].0) == m.contains_key(cands[i].0),
        m.contains_key(cands[i].0) ==> apply_model(m, cands, outs)[cands[i].0] == m[cands[i].0],
        failed_model(outs).contains(i),
{
    lemma_apply_untouched(m, cands, outs, cands[i].0);
    lemma_failed_model_props(outs);
}

} // verus!
