//! The sync planner: which remote entries are tracked handouts, and which
//! of those need a fetch this run.
//!
//! An entry is tracked when its path lies directly inside the handouts
//! folder and carries the handout extension, both by exact match. A tracked
//! entry is a candidate unless the local manifest records the same path
//! with the same size and the output file is already present.
use vstd::prelude::*;

use crate::manifest::Lockfile;
use crate::manifest::WebsiteTree;
use crate::manifest::WebsiteTreeEntry;
use crate::manifest::lemma_map_of_props;
use crate::manifest::tree_model;

verus! {

/// The folder, with its trailing separator, that tracked entries live in.
pub open spec fn folder_prefix() -> Seq<char> {
    "handouts/"@
}

/// The extension, with its dot, that tracked entries carry.
pub open spec fn pdf_suffix() -> Seq<char> {
    ".pdf"@
}

/// A path passes the folder and extension filter: the folder prefix, then
/// a file name with no further separator, ending in the extension. The
/// identifier between the two may still be empty.
pub open spec fn matches_filter(p: Seq<char>) -> bool {
    &&& folder_prefix().is_prefix_of(p)
    &&& pdf_suffix().is_suffix_of(p)
    &&& p.len() >= folder_prefix().len() + pdf_suffix().len()
    &&& forall|i: int| folder_prefix().len() <= i < p.len() ==> p[i] != '/'
}

/// A path is tracked when it passes the filter and an identifier can be
/// derived: the part between folder and extension is nonempty.
pub open spec fn is_tracked_path(p: Seq<char>) -> bool {
    matches_filter(p) && p.len() > folder_prefix().len() + pdf_suffix().len()
}

/// The identifier of a tracked path: the file name with the folder and the
/// extension stripped.
pub open spec fn identifier_of(p: Seq<char>) -> Seq<char> {
    p.subrange(folder_prefix().len() as int, p.len() - pdf_suffix().len())
}

/// A tracked entry is a candidate unless the local manifest records the
/// same path with the same size and the output file already exists.
pub open spec fn is_candidate(
    e: (Seq<char>, Option<u64>),
    output_exists: bool,
    local: Map<Seq<char>, Option<u64>>,
) -> bool {
    &&& is_tracked_path(e.0)
    &&& !(local.contains_key(e.0) && local[e.0] == e.1 && output_exists)
}

/// The planned candidates, in remote order: the subsequence of remote
/// entries that are candidates, each paired positionally with whether its
/// output file exists.
pub open spec fn plan_model(
    rem: Seq<(Seq<char>, Option<u64>)>,
    ex: Seq<bool>,
    local: Map<Seq<char>, Option<u64>>,
) -> Seq<(Seq<char>, Option<u64>)>
    decreases rem.len(),
{
    if rem.len() == 0 || rem.len() != ex.len() {
        Seq::empty()
    } else {
        plan_model(rem.drop_last(), ex.drop_last(), local) + (if is_candidate(
            rem.last(),
            ex.last(),
            local,
        ) {
            seq![rem.last()]
        } else {
            Seq::<(Seq<char>, Option<u64>)>::empty()
        })
    }
}

/// Returns whether `s` has `pre` as a prefix.
fn starts_with(s: &str, pre: &str) -> (r: bool)
    ensures
        r == pre@.is_prefix_of(s@),
{
    let n = pre.unicode_len();
    if s.unicode_len() < n {
        return false;
    }
    let mut i: usize = 0;
    while i < n
        invariant
            i <= n,
            n == pre@.len(),
            s@.len() >= n,
            forall|j: int| 0 <= j < i ==> s@[j] == pre@[j],
        decreases n - i,
    {
        if s.get_char(i) != pre.get_char(i) {
            proof {
                assert(s@.subrange(0, n as int)[i as int] != pre@[i as int]);
            }
            return false;
        }
        i += 1;
    }
    proof {
        assert(pre@ =~= s@.subrange(0, n as int));
    }
    true
}

/// Returns whether `s` has `suf` as a suffix.
fn ends_with(s: &str, suf: &str) -> (r: bool)
    ensures
        r == suf@.is_suffix_of(s@),
{
    let n = suf.unicode_len();
    let len = s.unicode_len();
    if len < n {
        return false;
    }
    let off = len - n;
    let mut i: usize = 0;
    while i < n
        invariant
            i <= n,
            n == suf@.len(),
            s@.len() == len,
            off == len - n,
            forall|j: int| 0 <= j < i ==> s@[off + j] == suf@[j],
        decreases n - i,
    {
        if s.get_char(off + i) != suf.get_char(i) {
            proof {
                assert(s@.subrange(off as int, len as int)[i as int] != suf@[i as int]);
            }
            return false;
        }
        i += 1;
    }
    proof {
        assert(suf@ =~= s@.subrange(off as int, len as int));
    }
    true
}

/// Returns whether a tracked path's name region is free of separators:
/// no `'/'` at or after position `from`.
fn no_separator_from(s: &str, from: usize) -> (r: bool)
    requires
        from <= s@.len(),
    ensures
        r == forall|i: int| from <= i < s@.len() ==> s@[i] != '/',
{
    let len = s.unicode_len();
    let mut i: usize = from;
    while i < len
        invariant
            from <= i <= len,
            s@.len() == len,
            forall|j: int| from <= j < i ==> s@[j] != '/',
        decreases len - i,
    {
        if s.get_char(i) == '/' {
            return false;
        }
        i += 1;
    }
    true
}

/// Returns whether `path` passes the folder and extension filter alone.
/// An entry that passes the filter but is not tracked has no derivable
/// identifier and is dropped from the plan; a caller may warn about it.
pub fn filter_matches(path: &str) -> (r: bool)
    ensures
        r == matches_filter(path@),
{
    proof {
        reveal_strlit("handouts/");
        reveal_strlit(".pdf");
    }
    if !starts_with(path, "handouts/") {
        return false;
    }
    if !ends_with(path, ".pdf") {
        return false;
    }
    if path.unicode_len() < 13 {
        return false;
    }
    no_separator_from(path, 9)
}

/// Returns whether `path` is a tracked handout path: directly inside the
/// handouts folder, with the handout extension and a nonempty identifier.
pub fn is_tracked(path: &str) -> (r: bool)
    ensures
        r == is_tracked_path(path@),
{
    proof {
        reveal_strlit("handouts/");
        reveal_strlit(".pdf");
    }
    filter_matches(path) && path.unicode_len() > 13
}

/// Returns the identifier of a tracked path, and `None` for a path that is
/// not tracked.
pub fn handout_identifier(path: &str) -> (r: Option<String>)
    ensures
        match r {
            Some(s) => is_tracked_path(path@) && s@ == identifier_of(path@),
            None => !is_tracked_path(path@),
        },
{
    proof {
        reveal_strlit("handouts/");
        reveal_strlit(".pdf");
    }
    if !is_tracked(path) {
        return None;
    }
    let len = path.unicode_len();
    let id = path.substring_char(9, len - 4);
    Some(id.to_owned())
}

/// Returns whether `entry` needs a fetch this run, given whether its output
/// file already exists locally.
pub fn needs_fetch(local: &Lockfile, entry: &WebsiteTreeEntry, output_exists: bool) -> (r: bool)
    requires
        local.wf(),
    ensures
        r == is_candidate(entry.model(), output_exists, local.as_map()),
{
    proof {
        lemma_map_of_props(local.model());
    }
    if !is_tracked(entry.path.as_str()) {
        return false;
    }
    let recorded = local.check_exists(entry);
    proof {
        if recorded {
            let i = choose|i: int|
                0 <= i < local.model().len() && local.model()[i] == entry.model();
            assert(local.as_map()[local.model()[i].0] == local.model()[i].1);
        }
        if local.as_map().contains_key(entry.path@) && local.as_map()[entry.path@] == entry.size {
            let i = choose|i: int| 0 <= i < local.model().len() && local.model()[i].0 == entry.path@;
            assert(local.as_map()[local.model()[i].0] == local.model()[i].1);
            assert(local.model()[i] == entry.model());
        }
    }
    !(recorded && output_exists)
}

/// Plans the fetches for a run: the tracked remote entries that are stale,
/// in remote order. `output_exists[i]` says whether the output file of
/// `remote.tree[i]` is already present locally.
pub fn plan(remote: &WebsiteTree, local: &Lockfile, output_exists: &Vec<bool>) -> (r: Vec<
    WebsiteTreeEntry,
>)
    requires
        local.wf(),
        output_exists@.len() == remote.tree@.len(),
    ensures
        tree_model(r@) == plan_model(tree_model(remote.tree@), output_exists@, local.as_map()),
{
    let mut r: Vec<WebsiteTreeEntry> = Vec::new();
    let n = remote.tree.len();
    let mut i: usize = 0;
    proof {
        assert(tree_model(r@) =~= plan_model(
            tree_model(remote.tree@).subrange(0, 0),
            output_exists@.subrange(0, 0),
            local.as_map(),
        ));
    }
    while i < n
        invariant
            i <= n,
            n == remote.tree@.len(),
            output_exists@.len() == n,
            local.wf(),
            tree_model(r@) == plan_model(
                tree_model(remote.tree@).subrange(0, i as int),
                output_exists@.subrange(0, i as int),
                local.as_map(),
            ),
        decreases n - i,
    {
        let ghost prem = tree_model(remote.tree@).subrange(0, i as int);
        let ghost pex = output_exists@.subrange(0, i as int);
        let ghost nrem = tree_model(remote.tree@).subrange(0, i + 1 as int);
        let ghost nex = output_exists@.subrange(0, i + 1 as int);
        proof {
            assert(nrem.drop_last() =~= prem);
            assert(nex.drop_last() =~= pex);
            assert(nrem.last() == remote.tree@[i as int].model());
        }
        if needs_fetch(local, &remote.tree[i], output_exists[i]) {
            r.push(remote.tree[i].clone());
            proof {
                assert(tree_model(r@) =~= plan_model(nrem, nex, local.as_map()));
            }
        } else {
            proof {
                assert(tree_model(r@) =~= plan_model(nrem, nex, local.as_map()));
            }
        }
        i += 1;
    }
    proof {
        assert(tree_model(remote.tree@).subrange(0, n as int) =~= tree_model(remote.tree@));
        assert(output_exists@.subrange(0, n as int) =~= output_exists@);
    }
    r
}

/// Law: every entry the planner produces is tracked — an entry outside the
/// handouts folder or without the handout extension is never planned.
pub proof fn lemma_plan_only_tracked(
    rem: Seq<(Seq<char>, Option<u64>)>,
    ex: Seq<bool>,
    local: Map<Seq<char>, Option<u64>>,
)
    ensures
        forall|j: int|
            0 <= j < plan_model(rem, ex, local).len() ==> is_tracked_path(
                #[trigger] plan_model(rem, ex, local)[j].0,
            ),
    decreases rem.len(),
{
    if rem.len() != 0 && rem.len() == ex.len() {
        lemma_plan_only_tracked(rem.drop_last(), ex.drop_last(), local);
        let p = plan_model(rem, ex, local);
        let q = plan_model(rem.drop_last(), ex.drop_last(), local);
        assert forall|j: int| 0 <= j < p.len() implies is_tracked_path(#[trigger] p[j].0) by {
            if j < q.len() {
                assert(p[j] == q[j]);
            } else {
                assert(p[j] == rem.last());
            }
        }
    }
}

/// Law: when every remote entry is recorded in the local manifest with its
/// size and its output file exists, the planner produces nothing — a second
/// sync run with no remote changes fetches nothing.
pub proof fn lemma_plan_skips_current(
    rem: Seq<(Seq<char>, Option<u64>)>,
    ex: Seq<bool>,
    local: Map<Seq<char>, Option<u64>>,
)
    requires
        forall|i: int|
            0 <= i < rem.len() ==> local.contains_key(#[trigger] rem[i].0) && local[rem[i].0]
                == rem[i].1,
        forall|i: int| 0 <= i < ex.len() ==> ex[i],
    ensures
        plan_model(rem, ex, local).len() == 0,
    decreases rem.len(),
{
    if rem.len() != 0 && rem.len() == ex.len() {
        lemma_plan_skips_current(rem.drop_last(), ex.drop_last(), local);
    }
}

} // verus!
