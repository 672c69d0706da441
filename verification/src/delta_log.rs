//! Delta logs: the per-session record of fine-grained edits, as a mapping
//! from file path to the ordered deltas observed for that file.

use vstd::prelude::*;
use crate::ops::Delta;
use crate::ops::DeltaView;
use crate::ops::Operation;
use crate::ops::copy_bytes;
use crate::ops::deltas_view;
use crate::ops::ops_view;
use crate::tree::bytes_equal;

verus! {

/// The deltas recorded for one file, oldest first.
pub struct FileDeltas {
    pub path: Vec<u8>,
    pub deltas: Vec<Delta>,
}

/// One session's record of edits, keyed by file path.
pub struct DeltaLog {
    pub files: Vec<FileDeltas>,
}

/// The mapping that a sequence of per-file records denotes; were a path
/// repeated, the later record would win, but well-formed logs never
/// repeat one.
pub open spec fn files_map(s: Seq<FileDeltas>) -> Map<Seq<u8>, Seq<DeltaView>>
    decreases s.len(),
{
    if s.len() == 0 {
        Map::<Seq<u8>, Seq<DeltaView>>::empty()
    } else {
        files_map(s.drop_last()).insert(s.last().path@, deltas_view(s.last().deltas@))
    }
}

/// No two records share a path.
pub open spec fn files_unique(s: Seq<FileDeltas>) -> bool {
    forall|i: int, j: int| 0 <= i < j < s.len() ==> s[i].path@ != s[j].path@
}

/// How many deltas a sequence of per-file records holds in all.
pub open spec fn total_deltas(s: Seq<FileDeltas>) -> nat
    decreases s.len(),
{
    if s.len() == 0 {
        0
    } else {
        total_deltas(s.drop_last()) + s.last().deltas@.len()
    }
}

/// A prefix never holds more deltas than the whole.
proof fn lemma_total_deltas_prefix(s: Seq<FileDeltas>, k: int)
    requires
        0 <= k <= s.len(),
    ensures
        total_deltas(s.subrange(0, k)) <= total_deltas(s),
    decreases s.len(),
{
    if k == s.len() {
        assert(s.subrange(0, k) =~= s);
    } else {
        assert(s.drop_last().subrange(0, k) =~= s.subrange(0, k));
        lemma_total_deltas_prefix(s.drop_last(), k);
    }
}

/// A well-formed record sequence maps the path of its `i`-th record to
/// that record's deltas.
pub(crate) proof fn lemma_files_map_index(s: Seq<FileDeltas>, i: int)
    requires
        files_unique(s),
        0 <= i < s.len(),
    ensures
        files_map(s).contains_key(s[i].path@),
        files_map(s)[s[i].path@] == deltas_view(s[i].deltas@),
    decreases s.len(),
{
    if i < s.len() - 1 {
        assert(files_unique(s.drop_last()));
        lemma_files_map_index(s.drop_last(), i);
        assert(s.drop_last()[i] == s[i]);
        assert(s.last().path@ != s[i].path@);
    }
}

/// Every key of the map comes from some record.
pub(crate) proof fn lemma_files_map_dom(s: Seq<FileDeltas>, k: Seq<u8>)
    requires
        files_map(s).contains_key(k),
    ensures
        exists|i: int| 0 <= i < s.len() && #[trigger] s[i].path@ == k,
    decreases s.len(),
{
    if s.len() > 0 {
        if s.last().path@ == k {
            assert(s[s.len() - 1].path@ == k);
        } else {
            lemma_files_map_dom(s.drop_last(), k);
            let i = choose|i: int|
                0 <= i < s.drop_last().len() && #[trigger] s.drop_last()[i].path@ == k;
            assert(s[i].path@ == k);
        }
    }
}

/// Replacing the record of a path updates exactly that path's image.
proof fn lemma_files_map_update(s: Seq<FileDeltas>, i: int, e: FileDeltas)
    requires
        files_unique(s),
        0 <= i < s.len(),
        e.path@ == s[i].path@,
    ensures
        files_map(s.update(i, e)) == files_map(s).insert(e.path@, deltas_view(e.deltas@)),
    decreases s.len(),
{
    let u = s.update(i, e);
    if i == s.len() - 1 {
        assert(u.drop_last() =~= s.drop_last());
        assert(u.last() == e);
        assert(files_map(s.drop_last()).insert(s.last().path@, deltas_view(s.last().deltas@))
            .insert(e.path@, deltas_view(e.deltas@)) =~= files_map(s.drop_last()).insert(
            e.path@,
            deltas_view(e.deltas@),
        ));
    } else {
        assert(files_unique(s.drop_last()));
        assert(s.drop_last()[i] == s[i]);
        lemma_files_map_update(s.drop_last(), i, e);
        assert(u.drop_last() =~= s.drop_last().update(i, e));
        assert(u.last() == s.last());
        assert(s.last().path@ != e.path@);
        assert(files_map(s.drop_last()).insert(e.path@, deltas_view(e.deltas@)).insert(
            s.last().path@,
            deltas_view(s.last().deltas@),
        ) =~= files_map(s.drop_last()).insert(s.last().path@, deltas_view(s.last().deltas@))
            .insert(e.path@, deltas_view(e.deltas@)));
    }
}

/// Record sequences equal path-by-path and delta-by-delta denote the same
/// mapping.
proof fn lemma_files_map_congruent(a: Seq<FileDeltas>, b: Seq<FileDeltas>)
    requires
        a.len() == b.len(),
        forall|i: int|
            0 <= i < a.len() ==> #[trigger] b[i].path@ == a[i].path@ && deltas_view(b[i].deltas@)
                == deltas_view(a[i].deltas@),
    ensures
        files_map(a) == files_map(b),
    decreases a.len(),
{
    if a.len() > 0 {
        assert(forall|i: int|
            0 <= i < a.drop_last().len() ==> #[trigger] b.drop_last()[i] == b[i]
                && a.drop_last()[i] == a[i]);
        lemma_files_map_congruent(a.drop_last(), b.drop_last());
        assert(b[a.len() - 1].path@ == a[a.len() - 1].path@);
        assert(deltas_view(b[a.len() - 1].deltas@) == deltas_view(a[a.len() - 1].deltas@));
    }
}

/// Copies one operation.
pub fn copy_operation(op: &Operation) -> (r: Operation)
    ensures
        r@ == op@,
{
    match op {
        Operation::Insert { offset, text } => Operation::Insert {
            offset: *offset,
            text: copy_bytes(text),
        },
        Operation::Delete { offset, length } => Operation::Delete {
            offset: *offset,
            length: *length,
        },
    }
}

/// Copies one delta.
pub fn copy_delta(d: &Delta) -> (r: Delta)
    ensures
        r@ == d@,
{
    let mut operations: Vec<Operation> = Vec::new();
    let mut i: usize = 0;
    while i < d.operations.len()
        invariant
            i <= d.operations@.len(),
            operations@.len() == i,
            forall|j: int| 0 <= j < i ==> #[trigger] operations@[j]@ == d.operations@[j]@,
        decreases d.operations@.len() - i,
    {
        let op = copy_operation(&d.operations[i]);
        operations.push(op);
        i += 1;
    }
    let r = Delta { timestamp: d.timestamp, operations };
    proof {
        assert(ops_view(r.operations@) =~= ops_view(d.operations@));
    }
    r
}

/// Copies a file's deltas.
pub fn copy_deltas(ds: &Vec<Delta>) -> (r: Vec<Delta>)
    ensures
        deltas_view(r@) == deltas_view(ds@),
{
    let mut r: Vec<Delta> = Vec::new();
    let mut i: usize = 0;
    while i < ds.len()
        invariant
            i <= ds@.len(),
            r@.len() == i,
            forall|j: int| 0 <= j < i ==> #[trigger] r@[j]@ == ds@[j]@,
        decreases ds@.len() - i,
    {
        let d = copy_delta(&ds[i]);
        r.push(d);
        i += 1;
    }
    proof {
        assert(deltas_view(r@) =~= deltas_view(ds@));
    }
    r
}

impl DeltaLog {
    /// The mapping from path to that file's deltas, oldest first.
    pub open spec fn as_map(self) -> Map<Seq<u8>, Seq<DeltaView>> {
        files_map(self.files@)
    }

    /// No two records share a path.
    pub open spec fn wf(self) -> bool {
        files_unique(self.files@)
    }

    /// The deltas already recorded for `path` in `log`, or none yet.
    pub open spec fn spec_deltas_for(self, path: Seq<u8>) -> Seq<DeltaView> {
        if self.as_map().contains_key(path) {
            self.as_map()[path]
        } else {
            Seq::<DeltaView>::empty()
        }
    }

    /// The empty log.
    pub fn new() -> (log: DeltaLog)
        ensures
            log.wf(),
            log.as_map() == Map::<Seq<u8>, Seq<DeltaView>>::empty(),
    {
        DeltaLog { files: Vec::new() }
    }

    /// Whether at least `bound` deltas are recorded in all, over every
    /// file together.
    pub fn count_at_least(&self, bound: usize) -> (r: bool)
        ensures
            r <==> total_deltas(self.files@) >= bound,
    {
        if bound == 0 {
            return true;
        }
        let mut acc: usize = 0;
        let mut i: usize = 0;
        while i < self.files.len()
            invariant
                i <= self.files@.len(),
                acc == total_deltas(self.files@.subrange(0, i as int)),
                acc < bound,
            decreases self.files@.len() - i,
        {
            proof {
                assert(self.files@.subrange(0, (i + 1) as int).drop_last() =~= self.files@
                    .subrange(0, i as int));
                assert(self.files@.subrange(0, (i + 1) as int).last() == self.files@[i as int]);
            }
            let n = self.files[i].deltas.len();
            if n >= bound - acc {
                proof {
                    lemma_total_deltas_prefix(self.files@, (i + 1) as int);
                }
                return true;
            }
            acc = acc + n;
            i += 1;
        }
        proof {
            assert(self.files@.subrange(0, self.files@.len() as int) =~= self.files@);
        }
        false
    }

    /// Whether no file has recorded deltas.
    pub fn is_empty(&self) -> (r: bool)
        ensures
            r <==> self.as_map().dom() =~= Set::<Seq<u8>>::empty(),
    {
        proof {
            if self.files@.len() > 0 {
                assert(self.as_map().contains_key(self.files@.last().path@));
            }
        }
        self.files.len() == 0
    }

    /// Appends `delta` to the deltas recorded for `path`, starting the
    /// file's record if it is the first.
    pub fn append(&mut self, path: Vec<u8>, delta: Delta)
        requires
            old(self).wf(),
        ensures
            final(self).wf(),
            final(self).as_map() == old(self).as_map().insert(
                path@,
                old(self).spec_deltas_for(path@).push(delta@),
            ),
    {
        let ghost orig = self.files@;
        let mut i: usize = 0;
        while i < self.files.len()
            invariant
                i <= self.files@.len(),
                self.files@ == orig,
                orig == old(self).files@,
                files_unique(orig),
                forall|j: int| 0 <= j < i ==> orig[j].path@ != path@,
            decreases self.files@.len() - i,
        {
            if bytes_equal(&self.files[i].path, &path) {
                proof {
                    lemma_files_map_index(orig, i as int);
                }
                let entry = vstd::std_specs::vec::vec_index_mut(&mut self.files, i);
                entry.deltas.push(delta);
                proof {
                    assert(deltas_view(self.files@[i as int].deltas@) =~= deltas_view(
                        orig[i as int].deltas@,
                    ).push(delta@));
                    lemma_files_map_update(orig, i as int, self.files@[i as int]);
                    assert(files_unique(self.files@));
                }
                return;
            }
            i += 1;
        }
        proof {
            if old(self).as_map().contains_key(path@) {
                lemma_files_map_dom(orig, path@);
            }
        }
        let mut deltas: Vec<Delta> = Vec::new();
        deltas.push(delta);
        self.files.push(FileDeltas { path, deltas });
        proof {
            assert(self.files@.drop_last() =~= orig);
            assert(deltas_view(self.files@.last().deltas@) =~= Seq::<DeltaView>::empty().push(
                delta@,
            ));
            assert(files_unique(self.files@));
        }
    }

    /// An independent copy denoting the same mapping.
    pub fn duplicate(&self) -> (log: DeltaLog)
        requires
            self.wf(),
        ensures
            log.wf(),
            log.as_map() == self.as_map(),
    {
        let mut files: Vec<FileDeltas> = Vec::new();
        let mut i: usize = 0;
        while i < self.files.len()
            invariant
                i <= self.files@.len(),
                files@.len() == i,
                self.wf(),
                forall|j: int|
                    0 <= j < i ==> #[trigger] files@[j].path@ == self.files@[j].path@
                        && deltas_view(files@[j].deltas@) == deltas_view(self.files@[j].deltas@),
            decreases self.files@.len() - i,
        {
            let path = copy_bytes(&self.files[i].path);
            let deltas = copy_deltas(&self.files[i].deltas);
            let ghost before = files@;
            files.push(FileDeltas { path, deltas });
            proof {
                assert(forall|j: int| 0 <= j < i ==> #[trigger] files@[j] == before[j]);
                assert(files@[i as int].path@ == self.files@[i as int].path@);
                assert(deltas_view(files@[i as int].deltas@) == deltas_view(
                    self.files@[i as int].deltas@,
                ));
            }
            i += 1;
        }
        let log = DeltaLog { files };
        proof {
            lemma_files_map_congruent(self.files@, log.files@);
        }
        log
    }
}

} // verus!
