//! Trees: full snapshots of a project's tracked contents, as a mapping
//! from file path to file content.

use vstd::prelude::*;
use crate::ops::copy_bytes;

verus! {

/// One tracked file: its project-relative path and its full content.
pub struct TreeEntry {
    pub path: Vec<u8>,
    pub content: Vec<u8>,
}

/// A full snapshot of tracked contents. While a session runs, a file
/// deleted on disk keeps its entry with empty content, so that the delta
/// log alone carries one tree into the next; the tree a snapshot commits
/// is pruned of those entries (see [`prune_empty`]), so a deleted file is
/// absent from it.
pub struct Tree {
    pub entries: Vec<TreeEntry>,
}

/// The mapping that a sequence of entries denotes; were a path repeated,
/// the later entry would win, but well-formed trees never repeat one.
pub open spec fn entries_map(s: Seq<TreeEntry>) -> Map<Seq<u8>, Seq<u8>>
    decreases s.len(),
{
    if s.len() == 0 {
        Map::<Seq<u8>, Seq<u8>>::empty()
    } else {
        entries_map(s.drop_last()).insert(s.last().path@, s.last().content@)
    }
}

/// No two entries share a path.
pub open spec fn entries_unique(s: Seq<TreeEntry>) -> bool {
    forall|i: int, j: int| 0 <= i < j < s.len() ==> s[i].path@ != s[j].path@
}

/// A well-formed entry sequence maps the path of its `i`-th entry to that
/// entry's content.
proof fn lemma_entries_map_index(s: Seq<TreeEntry>, i: int)
    requires
        entries_unique(s),
        0 <= i < s.len(),
    ensures
        entries_map(s).contains_key(s[i].path@),
        entries_map(s)[s[i].path@] == s[i].content@,
    decreases s.len(),
{
    if i < s.len() - 1 {
        assert(entries_unique(s.drop_last()));
        lemma_entries_map_index(s.drop_last(), i);
        assert(s.drop_last()[i] == s[i]);
        assert(s.last().path@ != s[i].path@);
    }
}

/// Every key of the map comes from some entry.
proof fn lemma_entries_map_dom(s: Seq<TreeEntry>, k: Seq<u8>)
    requires
        entries_map(s).contains_key(k),
    ensures
        exists|i: int| 0 <= i < s.len() && #[trigger] s[i].path@ == k,
    decreases s.len(),
{
    if s.len() > 0 {
        if s.last().path@ == k {
            assert(s[s.len() - 1].path@ == k);
        } else {
            lemma_entries_map_dom(s.drop_last(), k);
            let i = choose|i: int| 0 <= i < s.drop_last().len() && #[trigger] s.drop_last()[i].path@
                == k;
            assert(s[i].path@ == k);
        }
    }
}

/// Replacing the entry of a path updates exactly that path's image.
proof fn lemma_entries_map_update(s: Seq<TreeEntry>, i: int, e: TreeEntry)
    requires
        entries_unique(s),
        0 <= i < s.len(),
        e.path@ == s[i].path@,
    ensures
        entries_map(s.update(i, e)) == entries_map(s).insert(e.path@, e.content@),
    decreases s.len(),
{
    let u = s.update(i, e);
    if i == s.len() - 1 {
        assert(u.drop_last() =~= s.drop_last());
        assert(u.last() == e);
        assert(entries_map(s.drop_last()).insert(s.last().path@, s.last().content@).insert(
            e.path@,
            e.content@,
        ) =~= entries_map(s.drop_last()).insert(e.path@, e.content@));
    } else {
        assert(entries_unique(s.drop_last()));
        assert(s.drop_last()[i] == s[i]);
        lemma_entries_map_update(s.drop_last(), i, e);
        assert(u.drop_last() =~= s.drop_last().update(i, e));
        assert(u.last() == s.last());
        assert(s.last().path@ != e.path@);
        assert(entries_map(s.drop_last()).insert(e.path@, e.content@).insert(
            s.last().path@,
            s.last().content@,
        ) =~= entries_map(s.drop_last()).insert(s.last().path@, s.last().content@).insert(
            e.path@,
            e.content@,
        ));
    }
}

/// Entry sequences equal path-by-path and content-by-content denote the
/// same mapping.
proof fn lemma_entries_map_congruent(a: Seq<TreeEntry>, b: Seq<TreeEntry>)
    requires
        a.len() == b.len(),
        forall|i: int|
            0 <= i < a.len() ==> #[trigger] b[i].path@ == a[i].path@ && b[i].content@ == a[
                i
            ].content@,
    ensures
        entries_map(a) == entries_map(b),
    decreases a.len(),
{
    if a.len() > 0 {
        assert(forall|i: int|
            0 <= i < a.drop_last().len() ==> #[trigger] b.drop_last()[i] == b[i]
                && a.drop_last()[i] == a[i]);
        lemma_entries_map_congruent(a.drop_last(), b.drop_last());
        assert(b[a.len() - 1].path@ == a[a.len() - 1].path@);
        assert(b[a.len() - 1].content@ == a[a.len() - 1].content@);
    }
}

/// The mapping restricted to files that still have content. A snapshot
/// commits a tree in this form: a deleted file, tracked as empty content
/// while the session runs, is absent from the committed tree.
pub open spec fn prune_empty(m: Map<Seq<u8>, Seq<u8>>) -> Map<Seq<u8>, Seq<u8>> {
    Map::<Seq<u8>, Seq<u8>>::new(
        |p: Seq<u8>| m.contains_key(p) && m[p].len() > 0,
        |p: Seq<u8>| m[p],
    )
}

/// Compares two byte strings.
pub fn bytes_equal(a: &Vec<u8>, b: &Vec<u8>) -> (r: bool)
    ensures
        r <==> a@ == b@,
{
    if a.len() != b.len() {
        return false;
    }
    let mut i: usize = 0;
    while i < a.len()
        invariant
            a@.len() == b@.len(),
            i <= a@.len(),
            forall|j: int| 0 <= j < i ==> a@[j] == b@[j],
        decreases a@.len() - i,
    {
        if a[i] != b[i] {
            return false;
        }
        i += 1;
    }
    assert(a@ =~= b@);
    true
}

impl Tree {
    /// The mapping from path to content.
    pub open spec fn as_map(self) -> Map<Seq<u8>, Seq<u8>> {
        entries_map(self.entries@)
    }

    /// No two entries share a path.
    pub open spec fn wf(self) -> bool {
        entries_unique(self.entries@)
    }

    /// The empty tree.
    pub fn new() -> (t: Tree)
        ensures
            t.wf(),
            t.as_map() == Map::<Seq<u8>, Seq<u8>>::empty(),
    {
        Tree { entries: Vec::new() }
    }

    /// The content recorded for `path`, if any.
    pub fn get(&self, path: &Vec<u8>) -> (r: Option<&Vec<u8>>)
        requires
            self.wf(),
        ensures
            match r {
                Some(c) => self.as_map().contains_key(path@) && c@ == self.as_map()[path@],
                None => !self.as_map().contains_key(path@),
            },
    {
        let mut i: usize = 0;
        while i < self.entries.len()
            invariant
                i <= self.entries@.len(),
                self.wf(),
                forall|j: int| 0 <= j < i ==> self.entries@[j].path@ != path@,
            decreases self.entries@.len() - i,
        {
            if bytes_equal(&self.entries[i].path, path) {
                proof {
                    lemma_entries_map_index(self.entries@, i as int);
                }
                return Some(&self.entries[i].content);
            }
            i += 1;
        }
        proof {
            if self.as_map().contains_key(path@) {
                lemma_entries_map_dom(self.entries@, path@);
            }
        }
        None
    }

    /// Records `content` for `path`, replacing what was there.
    pub fn set(&mut self, path: Vec<u8>, content: Vec<u8>)
        requires
            old(self).wf(),
        ensures
            final(self).wf(),
            final(self).as_map() == old(self).as_map().insert(path@, content@),
    {
        let ghost orig = self.entries@;
        let mut i: usize = 0;
        while i < self.entries.len()
            invariant
                i <= self.entries@.len(),
                self.entries@ == orig,
                orig == old(self).entries@,
                entries_unique(orig),
                forall|j: int| 0 <= j < i ==> orig[j].path@ != path@,
            decreases self.entries@.len() - i,
        {
            if bytes_equal(&self.entries[i].path, &path) {
                let entry = vstd::std_specs::vec::vec_index_mut(&mut self.entries, i);
                *entry = TreeEntry { path, content };
                proof {
                    lemma_entries_map_update(orig, i as int, self.entries@[i as int]);
                    assert(entries_unique(self.entries@));
                }
                return;
            }
            i += 1;
        }
        self.entries.push(TreeEntry { path, content });
        proof {
            assert(self.entries@.drop_last() =~= orig);
            assert(self.entries@.last().path@ == path@);
            assert(entries_unique(self.entries@));
        }
    }

    /// An independent copy without the entries whose content is empty:
    /// the form of this tree that a snapshot commits, where a deleted
    /// file is absent rather than empty.
    pub fn pruned(&self) -> (t: Tree)
        requires
            self.wf(),
        ensures
            t.wf(),
            t.as_map() == prune_empty(self.as_map()),
    {
        let mut entries: Vec<TreeEntry> = Vec::new();
        let mut i: usize = 0;
        while i < self.entries.len()
            invariant
                i <= self.entries@.len(),
                self.wf(),
                entries_unique(entries@),
                entries_map(entries@) == prune_empty(
                    entries_map(self.entries@.subrange(0, i as int)),
                ),
                forall|j: int|
                    0 <= j < entries@.len() ==> exists|k: int|
                        0 <= k < i && #[trigger] entries@[j].path@ == self.entries@[k].path@,
            decreases self.entries@.len() - i,
        {
            let ghost prefix = self.entries@.subrange(0, i as int);
            let ghost prefix1 = self.entries@.subrange(0, (i + 1) as int);
            let ghost p = self.entries@[i as int].path@;
            proof {
                assert(prefix1.drop_last() =~= prefix);
                assert(prefix1.last() == self.entries@[i as int]);
                assert(!entries_map(prefix).contains_key(p)) by {
                    if entries_map(prefix).contains_key(p) {
                        lemma_entries_map_dom(prefix, p);
                        let k = choose|k: int|
                            0 <= k < prefix.len() && #[trigger] prefix[k].path@ == p;
                        assert(self.entries@[k].path@ == p);
                    }
                }
            }
            if self.entries[i].content.len() > 0 {
                let path = copy_bytes(&self.entries[i].path);
                let content = copy_bytes(&self.entries[i].content);
                let ghost before = entries@;
                entries.push(TreeEntry { path, content });
                proof {
                    assert(entries@.drop_last() =~= before);
                    assert(entries@.last().path@ == p);
                    assert(entries_unique(entries@)) by {
                        assert(forall|j: int|
                            0 <= j < before.len() ==> #[trigger] entries@[j] == before[j]);
                    }
                    assert(entries_map(entries@) =~= prune_empty(entries_map(prefix1))) by {
                        assert(entries_map(entries@) == entries_map(before).insert(
                            p,
                            self.entries@[i as int].content@,
                        ));
                        assert(entries_map(prefix1) == entries_map(prefix).insert(
                            p,
                            self.entries@[i as int].content@,
                        ));
                    }
                    assert(forall|j: int|
                        0 <= j < before.len() ==> #[trigger] entries@[j] == before[j]);
                }
            } else {
                proof {
                    assert(entries_map(prefix1) == entries_map(prefix).insert(
                        p,
                        self.entries@[i as int].content@,
                    ));
                    assert(entries_map(entries@) =~= prune_empty(entries_map(prefix1)));
                }
            }
            i += 1;
        }
        let t = Tree { entries };
        proof {
            assert(self.entries@.subrange(0, self.entries@.len() as int) =~= self.entries@);
        }
        t
    }

    /// An independent copy denoting the same mapping.
    pub fn duplicate(&self) -> (t: Tree)
        requires
            self.wf(),
        ensures
            t.wf(),
            t.as_map() == self.as_map(),
    {
        let mut entries: Vec<TreeEntry> = Vec::new();
        let mut i: usize = 0;
        while i < self.entries.len()
            invariant
                i <= self.entries@.len(),
                entries@.len() == i,
                self.wf(),
                forall|j: int|
                    0 <= j < i ==> #[trigger] entries@[j].path@ == self.entries@[j].path@
                        && entries@[j].content@ == self.entries@[j].content@,
            decreases self.entries@.len() - i,
        {
            let path = copy_bytes(&self.entries[i].path);
            let content = copy_bytes(&self.entries[i].content);
            let ghost before = entries@;
            entries.push(TreeEntry { path, content });
            proof {
                assert(entries@[i as int].path@ == self.entries@[i as int].path@);
                assert(entries@[i as int].content@ == self.entries@[i as int].content@);
                assert(forall|j: int|
                    0 <= j < i ==> #[trigger] entries@[j].path@ == self.entries@[j].path@
                        && entries@[j].content@ == self.entries@[j].content@) by {
                    assert(forall|j: int| 0 <= j < i ==> #[trigger] entries@[j] == before[j]);
                }
            }
            i += 1;
        }
        let t = Tree { entries };
        proof {
            lemma_entries_map_congruent(self.entries@, t.entries@);
        }
        t
    }
}

} // verus!
