//! The data model: remote tree listings and the persisted local manifest.
//!
//! A [`Lockfile`] records which remote entries have already been synced.
//! Its contracts speak of two views: the ordered sequence of
//! `(path, size)` pairs ([`Lockfile::model`]) and the map from path to
//! size ([`Lockfile::as_map`]), under the invariant that each path occurs
//! at most once ([`Lockfile::wf`]).
use vstd::prelude::*;

verus! {

/// One file in a remote tree listing: a slash-separated relative path and,
/// where the listing reports one, the file's size in bytes.
pub struct WebsiteTreeEntry {
    pub path: String,
    pub size: Option<u64>,
}

/// A remote tree listing: the revision it describes, the resource it came
/// from, and the entries of the tree.
pub struct WebsiteTree {
    pub sha: String,
    pub url: String,
    pub tree: Vec<WebsiteTreeEntry>,
}

impl WebsiteTreeEntry {
    /// The entry as the pair the contracts speak of: path characters and size.
    pub open spec fn model(&self) -> (Seq<char>, Option<u64>) {
        (self.path@, self.size)
    }
}

impl Clone for WebsiteTreeEntry {
    fn clone(&self) -> (r: Self)
        ensures
            r.model() == self.model(),
    {
        WebsiteTreeEntry { path: self.path.clone(), size: self.size }
    }
}

/// The sequence of `(path, size)` pairs of a sequence of entries.
pub open spec fn tree_model(t: Seq<WebsiteTreeEntry>) -> Seq<(Seq<char>, Option<u64>)> {
    t.map_values(|e: WebsiteTreeEntry| e.model())
}

/// The path-to-size map of a sequence of pairs; a later pair overrides an
/// earlier one with the same path (last write wins).
pub open spec fn map_of(t: Seq<(Seq<char>, Option<u64>)>) -> Map<Seq<char>, Option<u64>>
    decreases t.len(),
{
    if t.len() == 0 {
        Map::empty()
    } else {
        map_of(t.drop_last()).insert(t.last().0, t.last().1)
    }
}

/// Each path occurs at most once in the sequence.
pub open spec fn distinct_paths(t: Seq<(Seq<char>, Option<u64>)>) -> bool {
    forall|i: int, j: int| 0 <= i < j < t.len() ==> t[i].0 != t[j].0
}

/// The domain of `map_of(t)` is exactly the set of paths of `t`, and under
/// `distinct_paths` the map sends each path to its entry's size.
pub proof fn lemma_map_of_props(t: Seq<(Seq<char>, Option<u64>)>)
    ensures
        forall|p: Seq<char>|
            #[trigger] map_of(t).contains_key(p) <==> exists|i: int| 0 <= i < t.len() && t[i].0 == p,
        distinct_paths(t) ==> forall|i: int|
            0 <= i < t.len() ==> #[trigger] map_of(t)[t[i].0] == t[i].1,
    decreases t.len(),
{
    if t.len() > 0 {
        lemma_map_of_props(t.drop_last());
        assert forall|p: Seq<char>| #[trigger] map_of(t).contains_key(p) implies exists|i: int|
            0 <= i < t.len() && t[i].0 == p by {
            if p == t.last().0 {
                assert(t[t.len() - 1].0 == p);
            } else {
                assert(map_of(t) == map_of(t.drop_last()).insert(t.last().0, t.last().1));
                assert(map_of(t.drop_last()).contains_key(p));
                let i = choose|i: int| 0 <= i < t.drop_last().len() && t.drop_last()[i].0 == p;
                assert(t.drop_last()[i] == t[i]);
                assert(t[i].0 == p);
            }
        }
        assert forall|p: Seq<char>| (exists|i: int| 0 <= i < t.len() && t[i].0 == p) implies #[trigger] map_of(
            t,
        ).contains_key(p) by {
            let i = choose|i: int| 0 <= i < t.len() && t[i].0 == p;
            if i < t.len() - 1 {
                assert(t.drop_last()[i].0 == p);
            }
        }
        if distinct_paths(t) {
            assert(distinct_paths(t.drop_last()));
            assert forall|i: int| 0 <= i < t.len() implies #[trigger] map_of(t)[t[i].0] == t[i].1 by {
                if i < t.len() - 1 {
                    assert(t.drop_last()[i] == t[i]);
                    assert(t[i].0 != t.last().0);
                }
            }
        }
    }
}

/// The persisted record of which remote entries have been synced: a schema
/// version and the entries, keyed by path with at most one entry per path.
pub struct Lockfile {
    version: u8,
    tree: Vec<WebsiteTreeEntry>,
}

impl Lockfile {
    /// The ordered `(path, size)` pairs recorded in the manifest.
    pub closed spec fn model(&self) -> Seq<(Seq<char>, Option<u64>)> {
        tree_model(self.tree@)
    }

    /// The schema version of the manifest.
    pub closed spec fn spec_version(&self) -> u8 {
        self.version
    }

    /// The manifest as a map from path to recorded size.
    pub open spec fn as_map(&self) -> Map<Seq<char>, Option<u64>> {
        map_of(self.model())
    }

    /// Well-formedness: at most one entry per path.
    pub open spec fn wf(&self) -> bool {
        distinct_paths(self.model())
    }

    /// The number of entries recorded.
    pub fn entry_count(&self) -> (n: usize)
        ensures
            n == self.model().len(),
    {
        self.tree.len()
    }

    /// The schema version.
    pub fn schema_version(&self) -> (v: u8)
        ensures
            v == self.spec_version(),
    {
        self.version
    }

    /// Builds a manifest from parts; used by the codec and by constructors.
    pub(crate) fn from_parts(version: u8, tree: Vec<WebsiteTreeEntry>) -> (r: Self)
        ensures
            r.model() == tree_model(tree@),
            r.spec_version() == version,
    {
        Lockfile { version, tree }
    }

    /// A read-only view of the recorded entries.
    pub fn entries(&self) -> (r: &Vec<WebsiteTreeEntry>)
        ensures
            tree_model(r@) == self.model(),
    {
        &self.tree
    }

    /// Inserts `entry`, replacing the entry with the same path if one is
    /// recorded and appending otherwise (last write wins on a path).
    pub fn update_entry(&mut self, entry: WebsiteTreeEntry)
        requires
            old(self).wf(),
        ensures
            final(self).wf(),
            final(self).spec_version() == old(self).spec_version(),
            final(self).as_map() == old(self).as_map().insert(entry.path@, entry.size),
            !old(self).as_map().contains_key(entry.path@)
                ==> final(self).model() == old(self).model().push(entry.model()),
            old(self).as_map().contains_key(entry.path@) ==> exists|i: int|
                0 <= i < old(self).model().len() && old(self).model()[i].0 == entry.path@
                    && final(self).model() == old(self).model().update(i, entry.model()),
    {
        proof {
            lemma_map_of_props(old(self).model());
        }
        let n = self.tree.len();
        let mut i: usize = 0;
        while i < n
            invariant
                n == self.tree.len(),
                i <= n,
                old(self).wf(),
                self.tree@ == old(self).tree@,
                self.version == old(self).version,
                forall|j: int| 0 <= j < i ==> old(self).model()[j].0 != entry.path@,
            decreases n - i,
        {
            if string_eq(&self.tree[i].path, &entry.path) {
                proof {
                    lemma_map_of_props(old(self).model());
                    assert(old(self).model()[i as int].0 == entry.path@);
                    assert(old(self).as_map().contains_key(entry.path@));
                }
                self.tree.set(i, entry);
                proof {
                    assert(self.model() =~= old(self).model().update(i as int, entry.model()));
                    lemma_update_keeps_map(old(self).model(), i as int, entry.model());
                    assert(0 <= i < old(self).model().len() && old(self).model()[i as int].0
                        == entry.path@ && self.model() == old(self).model().update(
                        i as int,
                        entry.model(),
                    ));
                }
                return ;
            }
            proof {
                assert(old(self).model()[i as int].0 == old(self).tree@[i as int].path@);
            }
            i += 1;
        }
        proof {
            assert(!old(self).as_map().contains_key(entry.path@));
        }
        self.tree.push(entry);
        proof {
            assert(self.model() =~= old(self).model().push(entry.model()));
            assert(self.model().drop_last() =~= old(self).model());
            assert(self.model().last() == entry.model());
            assert forall|a: int, b: int| 0 <= a < b < self.model().len() implies self.model()[a].0
                != self.model()[b].0 by {
                if b == self.model().len() - 1 {
                    assert(old(self).model()[a].0 != entry.path@);
                }
            }
            assert(self.as_map() =~= old(self).as_map().insert(entry.path@, entry.size));
        }
    }

    /// Returns whether an entry equal to `entry` (same path and same size)
    /// is recorded in the manifest.
    pub fn check_exists(&self, entry: &WebsiteTreeEntry) -> (r: bool)
        ensures
            r == exists|i: int| 0 <= i < self.model().len() && self.model()[i] == entry.model(),
    {
        let n = self.tree.len();
        let mut i: usize = 0;
        while i < n
            invariant
                n == self.tree.len(),
                i <= n,
                forall|j: int| 0 <= j < i ==> self.model()[j] != entry.model(),
            decreases n - i,
        {
            if string_eq(&self.tree[i].path, &entry.path) && size_eq(&self.tree[i].size, &entry.size) {
                assert(self.model()[i as int] == entry.model());
                return true;
            }
            assert(self.model()[i as int] != entry.model());
            i += 1;
        }
        false
    }

    /// Builds a manifest from a remote tree listing by inserting every entry
    /// in order; a later entry with a repeated path wins.
    pub fn from_tree(tree: &WebsiteTree) -> (r: Self)
        ensures
            r.wf(),
            r.spec_version() == 1,
            r.as_map() == map_of(tree_model(tree.tree@)),
    {
        let mut lock = Lockfile { version: 1, tree: Vec::new() };
        let n = tree.tree.len();
        let mut i: usize = 0;
        proof {
            assert(tree_model(lock.tree@) =~= Seq::<(Seq<char>, Option<u64>)>::empty());
            assert(tree_model(tree.tree@.subrange(0, 0)) =~= Seq::<(Seq<char>, Option<u64>)>::empty());
            assert(lock.as_map() =~= map_of(tree_model(tree.tree@.subrange(0, 0))));
        }
        while i < n
            invariant
                n == tree.tree.len(),
                i <= n,
                lock.wf(),
                lock.spec_version() == 1,
                lock.as_map() == map_of(tree_model(tree.tree@.subrange(0, i as int))),
            decreases n - i,
        {
            let e = tree.tree[i].clone();
            let ghost prefix = tree_model(tree.tree@.subrange(0, i as int));
            lock.update_entry(e);
            proof {
                let longer = tree_model(tree.tree@.subrange(0, i + 1 as int));
                assert(longer.drop_last() =~= prefix);
                assert(longer.last() == tree.tree@[i as int].model());
            }
            i += 1;
        }
        proof {
            assert(tree.tree@.subrange(0, n as int) =~= tree.tree@);
        }
        lock
    }
}

impl Default for Lockfile {
    /// An empty manifest at schema version 1.
    fn default() -> (r: Self)
        ensures
            r.model() == Seq::<(Seq<char>, Option<u64>)>::empty(),
            r.spec_version() == 1,
            r.wf(),
    {
        let r = Lockfile { version: 1, tree: Vec::new() };
        proof {
            assert(r.model() =~= Seq::<(Seq<char>, Option<u64>)>::empty());
        }
        r
    }
}

/// Replacing the entry at a position whose path already stands there leaves
/// the path-to-size map equal to a plain insert of the new pair.
proof fn lemma_update_keeps_map(t: Seq<(Seq<char>, Option<u64>)>, i: int, e: (Seq<char>, Option<u64>))
    requires
        0 <= i < t.len(),
        t[i].0 == e.0,
        distinct_paths(t),
    ensures
        distinct_paths(t.update(i, e)),
        map_of(t.update(i, e)) == map_of(t).insert(e.0, e.1),
    decreases t.len(),
{
    let u = t.update(i, e);
    if i == t.len() - 1 {
        assert(u.drop_last() =~= t.drop_last());
        assert(map_of(u) =~= map_of(t).insert(e.0, e.1));
    } else {
        assert(t.drop_last()[i] == t[i]);
        assert(distinct_paths(t.drop_last()));
        lemma_update_keeps_map(t.drop_last(), i, e);
        assert(u.drop_last() =~= t.drop_last().update(i, e));
        assert(u.last() == t.last());
        assert(t.last().0 != e.0);
        assert(map_of(u) =~= map_of(t).insert(e.0, e.1));
    }
}

/// Compares two strings by their characters.
pub(crate) fn string_eq(a: &String, b: &String) -> (r: bool)
    ensures
        r == (a@ == b@),
{
    *a == *b
}

/// Compares two optional sizes.
pub(crate) fn size_eq(a: &Option<u64>, b: &Option<u64>) -> (r: bool)
    ensures
        r == (a == b),
{
    match (a, b) {
        (None, None) => true,
        (Some(x), Some(y)) => *x == *y,
        _ => false,
    }
}

} // verus!
