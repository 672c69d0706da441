//! The change-capture engine: one entry per known project, each holding a
//! strictly linear snapshot chain and, while the project is watched, the
//! last-observed contents and the open session.
//!
//! Settled file events enter through [`Engine::record_change`]; sessions
//! close through [`Engine::maybe_flush`], [`Engine::flush_now`] or
//! [`Engine::unwatch`]; the read path serves the latest snapshot and the
//! current delta log.

use vstd::prelude::*;
use crate::delta_log::DeltaLog;
use crate::diff::diff;
use crate::diff::is_diff_script;
use crate::ops::Delta;
use crate::ops::DeltaView;
use crate::ops::copy_bytes;
use crate::ops::deltas_monotonic;
use crate::ops::deltas_view;
use crate::ops::replay_deltas;
use crate::ops::lemma_replay_file_push;
use crate::ops::replay_file;
use crate::tree::Tree;
use crate::tree::prune_empty;

verus! {

/// Why an engine call could not do its work.
#[derive(Debug, PartialEq, Eq, Structural)]
pub enum ErrorKind {
    /// The path could not be read or traversed when the watch started.
    ProjectUnreadable,
    /// The project id is not known to the engine.
    ProjectNotFound,
    /// A store read or write failed after bounded retries.
    TransientIo,
    /// The project's ref moved concurrently and retries ran out.
    RefConflict,
    /// A stored delta log could not be decoded.
    MalformedDeltaLog,
    /// The recorded timestamps have reached the largest representable one.
    TimestampsExhausted,
}

/// When an open session closes on its own: after a quiet spell without new
/// deltas, or once the session has been open too long. An explicit flush
/// and `unwatch` close it regardless.
pub struct FlushPolicy {
    pub inactivity_ms: u64,
    pub max_session_ms: u64,
    pub max_deltas: usize,
}

impl FlushPolicy {
    /// The default policy: close after five seconds of quiet, an hour of
    /// session life, or a thousand recorded deltas, whichever comes
    /// first.
    pub fn standard() -> (p: FlushPolicy)
        ensures
            p.inactivity_ms == 5000,
            p.max_session_ms == 3600000,
            p.max_deltas == 1000,
    {
        FlushPolicy { inactivity_ms: 5000, max_session_ms: 3600000, max_deltas: 1000 }
    }
}

/// The open, not yet persisted accumulation of deltas for one project.
pub struct Session {
    pub started_at: u64,
    pub last_delta_at: u64,
    pub parent: Option<usize>,
    pub log: DeltaLog,
}

/// One durable snapshot: the full tree at session close, the delta log of
/// the session it closes, and the parent link of the chain.
pub struct Commit {
    pub parent: Option<usize>,
    pub tree: Tree,
    pub log: DeltaLog,
}

/// Per-project running state while watched: the last-observed contents
/// and the open session, exclusively owned by the project's watcher.
pub struct WatchHandle {
    pub current: Tree,
    pub session: Option<Session>,
}

/// A file's content in `base`, or empty if the file is new there.
pub open spec fn base_content(base: Map<Seq<u8>, Seq<u8>>, p: Seq<u8>) -> Seq<u8> {
    if base.contains_key(p) {
        base[p]
    } else {
        Seq::<u8>::empty()
    }
}

/// `cur` is exactly `base` carried forward by `log`: every file with
/// recorded deltas replays from its base content to its current content,
/// and every other file is unchanged.
pub open spec fn log_replays(
    base: Map<Seq<u8>, Seq<u8>>,
    log: Map<Seq<u8>, Seq<DeltaView>>,
    cur: Map<Seq<u8>, Seq<u8>>,
) -> bool {
    &&& cur.dom() == base.dom().union(log.dom())
    &&& forall|p: Seq<u8>|
        #[trigger] log.contains_key(p) ==> replay_file(base_content(base, p), log[p]) == Some(
            cur[p],
        )
    &&& forall|p: Seq<u8>|
        #[trigger] cur.contains_key(p) && !log.contains_key(p) ==> cur[p] == base[p]
}

/// Timestamps in `log` are strictly increasing per file, none after `hi`
/// and none before `lo`.
pub open spec fn log_times_bounded(log: Map<Seq<u8>, Seq<DeltaView>>, lo: u64, hi: u64) -> bool {
    forall|p: Seq<u8>| #[trigger] log.contains_key(p) ==> {
        &&& deltas_monotonic(log[p])
        &&& log[p].len() > 0
        &&& forall|k: int|
            0 <= k < log[p].len() ==> lo <= (#[trigger] log[p][k]).timestamp <= hi
    }
}

impl WatchHandle {
    /// The handle's contents track `base` through the open session, and
    /// the session's timestamps are ordered.
    pub open spec fn wf(self, base: Map<Seq<u8>, Seq<u8>>, tip: Option<usize>) -> bool {
        &&& self.current.wf()
        &&& match self.session {
            Some(s) => {
                &&& s.log.wf()
                &&& log_replays(base, s.log.as_map(), self.current.as_map())
                &&& log_times_bounded(s.log.as_map(), s.started_at, s.last_delta_at)
                &&& s.started_at <= s.last_delta_at
                &&& s.parent == tip
            },
            None => self.current.as_map() == base,
        }
    }
}

/// The last-observed contents of a watched entry, or empty if unwatched.
pub open spec fn watch_current_map(e: ProjectEntry) -> Map<Seq<u8>, Seq<u8>> {
    match e.watch {
        Some(h) => h.current.as_map(),
        None => Map::<Seq<u8>, Seq<u8>>::empty(),
    }
}

/// The open session's delta log, or empty if there is none.
pub open spec fn session_log_map(e: ProjectEntry) -> Map<Seq<u8>, Seq<DeltaView>> {
    match e.watch {
        Some(h) => match h.session {
            Some(s) => s.log.as_map(),
            None => Map::<Seq<u8>, Seq<DeltaView>>::empty(),
        },
        None => Map::<Seq<u8>, Seq<DeltaView>>::empty(),
    }
}

/// The open session of a watched entry, if any.
pub open spec fn session_of(e: ProjectEntry) -> Option<Session> {
    match e.watch {
        Some(h) => h.session,
        None => None,
    }
}

/// The deltas `log` holds for `p`, or none yet.
pub open spec fn log_deltas_for(log: Map<Seq<u8>, Seq<DeltaView>>, p: Seq<u8>) -> Seq<DeltaView> {
    if log.contains_key(p) {
        log[p]
    } else {
        Seq::<DeltaView>::empty()
    }
}

/// Whether an open session has recorded at least one delta.
pub open spec fn session_has_deltas(e: ProjectEntry) -> bool {
    match e.watch {
        Some(h) => match h.session {
            Some(s) => !(s.log.as_map().dom() =~= Set::<Seq<u8>>::empty()),
            None => false,
        },
        None => false,
    }
}

/// `c2` is the snapshot chain of `e` after its session closes: unchanged
/// when the session recorded nothing, and otherwise extended by exactly
/// one commit, parented on the old tip, whose log is the session's and
/// whose tree is the last-observed contents with deleted files dropped:
/// replaying the committed log against the old tip's tree reproduces the
/// observed contents, and pruning their empty entries gives exactly the
/// committed tree, so a fully deleted file is absent from it.
pub open spec fn commits_after_flush(e: ProjectEntry, c2: Seq<Commit>) -> bool {
    if !session_has_deltas(e) {
        c2 == e.commits@
    } else {
        &&& c2.len() == e.commits@.len() + 1
        &&& c2.subrange(0, e.commits@.len() as int) == e.commits@
        &&& c2.last().parent == e.tip()
        &&& c2.last().tree.as_map() == prune_empty(watch_current_map(e))
        &&& c2.last().log.as_map() == session_log_map(e)
        &&& log_replays(e.base_map(), c2.last().log.as_map(), watch_current_map(e))
    }
}

/// One project known to the engine.
pub struct ProjectEntry {
    pub id: u64,
    pub commits: Vec<Commit>,
    pub watch: Option<WatchHandle>,
}

impl ProjectEntry {
    /// The tree of the latest snapshot, or empty before the first one.
    pub open spec fn base_map(self) -> Map<Seq<u8>, Seq<u8>> {
        if self.commits@.len() == 0 {
            Map::<Seq<u8>, Seq<u8>>::empty()
        } else {
            self.commits@.last().tree.as_map()
        }
    }

    /// The chain tip: the index of the latest commit, if any.
    pub open spec fn tip(self) -> Option<usize> {
        if self.commits@.len() == 0 {
            None
        } else {
            Some((self.commits@.len() - 1) as usize)
        }
    }

    /// Commits form a strictly linear chain, each parented on the one
    /// before it, and every stored delta log keeps its per-file
    /// timestamps strictly increasing.
    pub open spec fn chain_wf(self) -> bool {
        forall|i: int|
            0 <= i < self.commits@.len() ==> {
                &&& (#[trigger] self.commits@[i]).tree.wf()
                &&& self.commits@[i].log.wf()
                &&& self.commits@[i].parent == if i == 0 {
                    None::<usize>
                } else {
                    Some((i - 1) as usize)
                }
                &&& forall|q: Seq<u8>|
                    #[trigger] self.commits@[i].log.as_map().contains_key(q)
                        ==> deltas_monotonic(self.commits@[i].log.as_map()[q])
            }
    }

    pub open spec fn wf(self) -> bool {
        &&& self.chain_wf()
        &&& match self.watch {
            Some(h) => h.wf(self.base_map(), self.tip()),
            None => true,
        }
    }

    /// The delta log a reader sees: the open session's, or the one stored
    /// by the latest snapshot, or empty.
    pub open spec fn current_log(self) -> Map<Seq<u8>, Seq<DeltaView>> {
        match self.watch {
            Some(h) => match h.session {
                Some(s) => s.log.as_map(),
                None => self.stored_log(),
            },
            None => self.stored_log(),
        }
    }

    /// The delta log of the latest snapshot, or empty before the first.
    pub open spec fn stored_log(self) -> Map<Seq<u8>, Seq<DeltaView>> {
        if self.commits@.len() == 0 {
            Map::<Seq<u8>, Seq<DeltaView>>::empty()
        } else {
            self.commits@.last().log.as_map()
        }
    }
}

/// The engine: every project it has been asked to watch, keyed by id.
pub struct Engine {
    pub policy: FlushPolicy,
    pub projects: Vec<ProjectEntry>,
}

impl Engine {
    /// Whether some entry carries `id`.
    pub open spec fn knows(self, id: u64) -> bool {
        exists|i: int| 0 <= i < self.projects@.len() && (#[trigger] self.projects@[i]).id == id
    }

    /// The index of the entry carrying `id`.
    pub open spec fn idx_of(self, id: u64) -> int {
        choose|i: int| 0 <= i < self.projects@.len() && (#[trigger] self.projects@[i]).id == id
    }

    /// The entry carrying `id`.
    pub open spec fn proj(self, id: u64) -> ProjectEntry {
        self.projects@[self.idx_of(id)]
    }

    pub open spec fn wf(self) -> bool {
        &&& forall|i: int| 0 <= i < self.projects@.len() ==> (#[trigger] self.projects@[i]).wf()
        &&& forall|i: int, j: int|
            0 <= i < j < self.projects@.len() ==> self.projects@[i].id != self.projects@[j].id
    }

    /// An entry found at `i` is the entry `proj` speaks of.
    proof fn lemma_entry_is_proj(self, id: u64, i: int)
        requires
            self.wf(),
            0 <= i < self.projects@.len(),
            self.projects@[i].id == id,
        ensures
            self.knows(id),
            self.idx_of(id) == i,
            self.proj(id) == self.projects@[i],
    {
        assert(self.knows(id));
        let j = self.idx_of(id);
        if i != j {
            assert(self.projects@[i].id != self.projects@[j].id);
        }
    }

    /// A fresh engine watching nothing.
    pub fn new(policy: FlushPolicy) -> (e: Engine)
        ensures
            e.wf(),
            e.projects@.len() == 0,
            e.policy == policy,
    {
        Engine { policy, projects: Vec::new() }
    }

    /// The index of the entry carrying `id`, if any.
    fn find_index(&self, id: u64) -> (r: Option<usize>)
        requires
            self.wf(),
        ensures
            match r {
                Some(i) => i < self.projects@.len() && self.projects@[i as int].id == id
                    && self.knows(id) && self.idx_of(id) == i,
                None => !self.knows(id),
            },
    {
        let mut i: usize = 0;
        while i < self.projects.len()
            invariant
                i <= self.projects@.len(),
                self.wf(),
                forall|j: int| 0 <= j < i ==> (#[trigger] self.projects@[j]).id != id,
            decreases self.projects@.len() - i,
        {
            if self.projects[i].id == id {
                proof {
                    self.lemma_entry_is_proj(id, i as int);
                }
                return Some(i);
            }
            i += 1;
        }
        proof {
            if self.knows(id) {
                let j = self.idx_of(id);
                assert(self.projects@[j].id == id);
            }
        }
        None
    }

    /// Starts watching `id`. Idempotent: watching an already-watched
    /// project changes nothing and succeeds. A project new to the engine
    /// gets an empty chain; the last-observed contents are seeded from the
    /// latest snapshot tree, so the first session replays from it.
    pub fn watch(&mut self, id: u64)
        requires
            old(self).wf(),
        ensures
            final(self).wf(),
            final(self).policy == old(self).policy,
            final(self).knows(id),
            final(self).proj(id).watch is Some,
            final(self).proj(id).commits@ == if old(self).knows(id) {
                old(self).proj(id).commits@
            } else {
                Seq::<Commit>::empty()
            },
            old(self).knows(id) && old(self).proj(id).watch is Some ==> *final(self) == *old(
                self,
            ),
            old(self).knows(id) ==> final(self).projects@ =~= old(self).projects@.update(
                old(self).idx_of(id),
                final(self).proj(id),
            ),
            !old(self).knows(id) ==> final(self).projects@ =~= old(self).projects@.push(
                final(self).proj(id),
            ),
            old(self).knows(id) && old(self).proj(id).watch is None ==> (final(self).proj(
                id,
            ).watch matches Some(h) && h.session is None && h.current.as_map() == old(self).proj(
                id,
            ).base_map()),
            !old(self).knows(id) ==> (final(self).proj(id).watch matches Some(h) && h.session
                is None && h.current.as_map() == Map::<Seq<u8>, Seq<u8>>::empty()),
    {
        match self.find_index(id) {
            Some(i) => {
                if self.projects[i].watch.is_some() {
                    return ;
                }
                let ghost orig = self.projects@;
                let mut entry = self.projects.remove(i);
                let tree = if entry.commits.len() == 0 {
                    Tree::new()
                } else {
                    entry.commits[entry.commits.len() - 1].tree.duplicate()
                };
                entry.watch = Some(WatchHandle { current: tree, session: None });
                self.projects.insert(i, entry);
                proof {
                    assert(self.projects@ =~= orig.update(i as int, self.projects@[i as int]));
                    assert(self.wf());
                    self.lemma_entry_is_proj(id, i as int);
                }
            },
            None => {
                let ghost orig = self.projects@;
                let entry = ProjectEntry {
                    id,
                    commits: Vec::new(),
                    watch: Some(WatchHandle { current: Tree::new(), session: None }),
                };
                self.projects.push(entry);
                proof {
                    assert(forall|j: int|
                        0 <= j < orig.len() ==> #[trigger] self.projects@[j] == orig[j]);
                    assert(self.projects@.last().id == id);
                    assert(self.wf());
                    self.lemma_entry_is_proj(id, orig.len() as int);
                }
            },
        }
    }

    /// Adopts a previously persisted snapshot as the starting point for a
    /// project the engine does not yet know: the chain begins at a
    /// synthetic commit holding that tree — in committed form, so an
    /// empty-content entry reads as absent — and an empty delta log. A
    /// later watch seeds the last-observed contents from it and the first
    /// session parents onto it. A project already known is left unchanged.
    pub fn restore(&mut self, id: u64, tree: Tree) -> (r: bool)
        requires
            old(self).wf(),
            tree.wf(),
        ensures
            final(self).wf(),
            final(self).policy == old(self).policy,
            r <==> !old(self).knows(id),
            !r ==> *final(self) == *old(self),
            r ==> {
                &&& final(self).knows(id)
                &&& final(self).projects@ =~= old(self).projects@.push(final(self).proj(id))
                &&& final(self).proj(id).id == id
                &&& final(self).proj(id).watch is None
                &&& final(self).proj(id).commits@.len() == 1
                &&& final(self).proj(id).commits@[0].parent is None
                &&& final(self).proj(id).base_map() == prune_empty(tree.as_map())
                &&& final(self).proj(id).stored_log().dom() =~= Set::<Seq<u8>>::empty()
            },
    {
        match self.find_index(id) {
            Some(_) => false,
            None => {
                let ghost orig = self.projects@;
                let ghost treemap = tree.as_map();
                let kept = tree.pruned();
                let mut commits: Vec<Commit> = Vec::new();
                commits.push(Commit { parent: None, tree: kept, log: DeltaLog::new() });
                let entry = ProjectEntry { id, commits, watch: None };
                self.projects.push(entry);
                proof {
                    assert(forall|j: int|
                        0 <= j < orig.len() ==> #[trigger] self.projects@[j] == orig[j]);
                    assert(self.projects@.last().id == id);
                    assert(self.projects@.last().wf());
                    assert(self.wf());
                    self.lemma_entry_is_proj(id, orig.len() as int);
                    assert(self.proj(id).base_map() == prune_empty(treemap));
                }
                true
            },
        }
    }

    /// Closes the open session of the entry, committing a snapshot when
    /// the session recorded anything. The committed tree is exactly the
    /// last-observed contents, and replaying the committed delta log
    /// against the previous snapshot's tree reproduces it.
    fn flush_entry(entry: &mut ProjectEntry)
        requires
            old(entry).wf(),
        ensures
            final(entry).wf(),
            final(entry).id == old(entry).id,
            final(entry).watch is Some <==> old(entry).watch is Some,
            !session_has_deltas(*old(entry)) ==> *final(entry) == *old(entry),
            commits_after_flush(*old(entry), final(entry).commits@),
            session_has_deltas(*old(entry)) ==> watch_current_map(*final(entry)) == prune_empty(
                watch_current_map(*old(entry)),
            ),
            // a real flush leaves a freshly opened, empty session behind,
            // parented on the new tip, so the open delta log reads empty
            session_has_deltas(*old(entry)) ==> (final(entry).watch matches Some(h2) && h2.session
                matches Some(s2) && s2.log.as_map().dom() =~= Set::<Seq<u8>>::empty() && s2.parent
                == final(entry).tip() && s2.started_at == s2.last_delta_at),
    {
        let w = take_watch(entry);
        match w {
            None => {
                entry.watch = None;
                assert(*entry == *old(entry));
            },
            Some(mut h) => {
                let s = take_session(&mut h);
                match s {
                    None => {
                        h.session = None;
                        entry.watch = Some(h);
                        assert(*entry == *old(entry));
                    },
                    Some(sess) => {
                        if sess.log.is_empty() {
                            h.session = Some(sess);
                            entry.watch = Some(h);
                            assert(*entry == *old(entry));
                        } else {
                            let tree = h.current.pruned();
                            let cache = h.current.pruned();
                            let parent = if entry.commits.len() == 0 {
                                None
                            } else {
                                Some(entry.commits.len() - 1)
                            };
                            let last_at = sess.last_delta_at;
                            let ghost oldcommits = entry.commits@;
                            let commit = Commit { parent, tree, log: sess.log };
                            entry.commits.push(commit);
                            let newtip = entry.commits.len() - 1;
                            h.current = cache;
                            h.session = Some(
                                Session {
                                    started_at: last_at,
                                    last_delta_at: last_at,
                                    parent: Some(newtip),
                                    log: DeltaLog::new(),
                                },
                            );
                            entry.watch = Some(h);
                            proof {
                                assert(forall|j: int|
                                    0 <= j < oldcommits.len() ==> #[trigger] entry.commits@[j]
                                        == oldcommits[j]);
                                assert(entry.commits@.subrange(0, oldcommits.len() as int)
                                    =~= oldcommits);
                                assert(entry.chain_wf());
                                assert(entry.base_map() == entry.commits@.last().tree.as_map());
                                assert(entry.base_map() =~= watch_current_map(*entry));
                                assert(session_log_map(*entry).dom() =~= Set::<Seq<u8>>::empty());
                                assert(log_replays(
                                    entry.base_map(),
                                    session_log_map(*entry),
                                    watch_current_map(*entry),
                                )) by {
                                    assert(watch_current_map(*entry).dom() =~= entry.base_map()
                                        .dom().union(session_log_map(*entry).dom()));
                                }
                            }
                        }
                    },
                }
            },
        }
    }

    /// Stops watching `id`: closes and flushes the open session, then
    /// drops the handle. Unwatching a project that is not watched, or not
    /// known at all, succeeds and changes nothing.
    pub fn unwatch(&mut self, id: u64)
        requires
            old(self).wf(),
        ensures
            final(self).wf(),
            final(self).policy == old(self).policy,
            !old(self).knows(id) ==> *final(self) == *old(self),
            old(self).knows(id) && old(self).proj(id).watch is None ==> *final(self) == *old(
                self,
            ),
            old(self).knows(id) ==> {
                &&& final(self).knows(id)
                &&& final(self).projects@ =~= old(self).projects@.update(
                    old(self).idx_of(id),
                    final(self).proj(id),
                )
                &&& final(self).proj(id).watch is None
                &&& final(self).proj(id).id == id
                &&& commits_after_flush(old(self).proj(id), final(self).proj(id).commits@)
            },
    {
        match self.find_index(id) {
            None => {},
            Some(i) => {
                if self.projects[i].watch.is_none() {
                    proof {
                        assert(self.projects@ =~= self.projects@.update(
                            i as int,
                            self.projects@[i as int],
                        ));
                    }
                    return ;
                }
                let ghost orig = self.projects@;
                let mut entry = self.projects.remove(i);
                Self::flush_entry(&mut entry);
                entry.watch = None;
                self.projects.insert(i, entry);
                proof {
                    assert(self.projects@ =~= orig.update(i as int, self.projects@[i as int]));
                    assert(self.wf());
                    self.lemma_entry_is_proj(id, i as int);
                }
            },
        }
    }

    /// Closes the open session of `id` now, regardless of timers,
    /// committing a snapshot when it recorded anything. Returns whether a
    /// snapshot was committed.
    pub fn flush_now(&mut self, id: u64) -> (r: Result<bool, ErrorKind>)
        requires
            old(self).wf(),
        ensures
            final(self).wf(),
            final(self).policy == old(self).policy,
            match r {
                Err(k) => k == ErrorKind::ProjectNotFound && !old(self).knows(id) && *final(self)
                    == *old(self),
                Ok(b) => {
                    &&& old(self).knows(id)
                    &&& b == session_has_deltas(old(self).proj(id))
                    &&& !b ==> *final(self) == *old(self)
                    &&& final(self).knows(id)
                    &&& final(self).projects@ =~= old(self).projects@.update(
                        old(self).idx_of(id),
                        final(self).proj(id),
                    )
                    &&& final(self).proj(id).id == id
                    &&& final(self).proj(id).watch is Some <==> old(self).proj(id).watch is Some
                    &&& commits_after_flush(old(self).proj(id), final(self).proj(id).commits@)
                    &&& b ==> watch_current_map(final(self).proj(id)) == prune_empty(
                        watch_current_map(old(self).proj(id)),
                    )
                    &&& b ==> (session_of(final(self).proj(id)) matches Some(s2)
                        && s2.log.as_map().dom() =~= Set::<Seq<u8>>::empty() && s2.parent
                        == final(self).proj(id).tip())
                },
            },
    {
        match self.find_index(id) {
            None => Err(ErrorKind::ProjectNotFound),
            Some(i) => {
                let ghost orig = self.projects@;
                let ghost olde = self.projects@[i as int];
                let had = match &self.projects[i].watch {
                    Some(h) => match &h.session {
                        Some(s) => !s.log.is_empty(),
                        None => false,
                    },
                    None => false,
                };
                if !had {
                    proof {
                        assert(!session_has_deltas(olde));
                    }
                    return Ok(false);
                }
                let mut entry = self.projects.remove(i);
                Self::flush_entry(&mut entry);
                self.projects.insert(i, entry);
                proof {
                    assert(self.projects@ =~= orig.update(i as int, self.projects@[i as int]));
                    assert(self.wf());
                    self.lemma_entry_is_proj(id, i as int);
                }
                Ok(true)
            },
        }
    }

    /// Whether a session open under `policy` is due to close at `now`:
    /// quiet for the inactivity window, alive past the session ceiling,
    /// or grown past the delta-count ceiling.
    pub open spec fn session_due(s: Session, policy: FlushPolicy, now: u64) -> bool {
        ||| (now >= s.last_delta_at && now - s.last_delta_at >= policy.inactivity_ms)
        ||| (now >= s.started_at && now - s.started_at >= policy.max_session_ms)
        ||| crate::delta_log::total_deltas(s.log.files@) >= policy.max_deltas
    }

    /// Closes the open session of `id` if one of the policy's close
    /// conditions holds at `now`. Returns whether a snapshot was
    /// committed.
    pub fn maybe_flush(&mut self, id: u64, now: u64) -> (r: Result<bool, ErrorKind>)
        requires
            old(self).wf(),
        ensures
            final(self).wf(),
            final(self).policy == old(self).policy,
            match r {
                Err(k) => k == ErrorKind::ProjectNotFound && !old(self).knows(id) && *final(self)
                    == *old(self),
                Ok(b) => {
                    &&& old(self).knows(id)
                    &&& (match old(self).proj(id).watch {
                        Some(h) => match h.session {
                            Some(s) => Self::session_due(s, old(self).policy, now),
                            None => false,
                        },
                        None => false,
                    }) ==> {
                        &&& b == session_has_deltas(old(self).proj(id))
                        &&& final(self).knows(id)
                        &&& final(self).projects@ =~= old(self).projects@.update(
                            old(self).idx_of(id),
                            final(self).proj(id),
                        )
                        &&& final(self).proj(id).id == id
                        &&& final(self).proj(id).watch is Some <==> old(self).proj(id).watch
                            is Some
                        &&& commits_after_flush(old(self).proj(id), final(self).proj(id).commits@)
                        &&& b ==> watch_current_map(final(self).proj(id)) == prune_empty(
                            watch_current_map(old(self).proj(id)),
                        )
                        &&& b ==> (session_of(final(self).proj(id)) matches Some(s2)
                            && s2.log.as_map().dom() =~= Set::<Seq<u8>>::empty() && s2.parent
                            == final(self).proj(id).tip())
                    }
                    &&& !(match old(self).proj(id).watch {
                        Some(h) => match h.session {
                            Some(s) => Self::session_due(s, old(self).policy, now),
                            None => false,
                        },
                        None => false,
                    }) ==> *final(self) == *old(self) && b == false
                },
            },
    {
        match self.find_index(id) {
            None => Err(ErrorKind::ProjectNotFound),
            Some(i) => {
                let due = match &self.projects[i].watch {
                    Some(h) => match &h.session {
                        Some(s) => (now >= s.last_delta_at && now - s.last_delta_at
                            >= self.policy.inactivity_ms) || (now >= s.started_at && now
                            - s.started_at >= self.policy.max_session_ms) || s.log
                            .count_at_least(self.policy.max_deltas),
                        None => false,
                    },
                    None => false,
                };
                if !due {
                    return Ok(false);
                }
                self.flush_now(id)
            },
        }
    }

    /// The timestamp the next recorded delta carries: the clock reading,
    /// bumped just past the session's last delta when the clock has not
    /// advanced, so that timestamps stay strictly increasing.
    pub open spec fn spec_next_ts(s: Option<Session>, now: u64) -> u64 {
        match s {
            Some(ss) => if now > ss.last_delta_at {
                now
            } else {
                ((ss.last_delta_at + 1) as u64)
            },
            None => now,
        }
    }

    /// Records the settled content of one file of a watched project: the
    /// canonical edit script from the last observed content (seeded from
    /// the latest snapshot) to `new_content` is appended to the open
    /// session's delta log, opening the session if none is. A file deleted
    /// on disk is recorded with empty content, which yields the single
    /// operation deleting everything. Content identical to the last
    /// observed one records nothing. Returns whether a delta was recorded.
    pub fn record_change(&mut self, id: u64, path: Vec<u8>, new_content: Vec<u8>, now: u64) -> (r:
        Result<bool, ErrorKind>)
        requires
            old(self).wf(),
        ensures
            final(self).wf(),
            final(self).policy == old(self).policy,
            match r {
                Err(k) => {
                    &&& *final(self) == *old(self)
                    &&& (k == ErrorKind::ProjectNotFound <==> !(old(self).knows(id) && old(
                        self,
                    ).proj(id).watch is Some))
                    &&& (k == ErrorKind::TimestampsExhausted <==> (old(self).knows(id) && old(
                        self,
                    ).proj(id).watch is Some && base_content(
                        watch_current_map(old(self).proj(id)),
                        path@,
                    ) != new_content@ && (session_of(old(self).proj(id)) matches Some(ss)
                        && ss.last_delta_at == u64::MAX)))
                    &&& (k == ErrorKind::ProjectNotFound || k == ErrorKind::TimestampsExhausted)
                },
                Ok(false) => {
                    &&& old(self).knows(id) && old(self).proj(id).watch is Some
                    &&& *final(self) == *old(self)
                    &&& base_content(watch_current_map(old(self).proj(id)), path@)
                        == new_content@
                },
                Ok(true) => ({
                    let e = old(self).proj(id);
                    let ts = Self::spec_next_ts(session_of(e), now);
                    &&& old(self).knows(id) && e.watch is Some
                    &&& base_content(watch_current_map(e), path@) != new_content@
                    &&& final(self).knows(id)
                    &&& final(self).projects@ =~= old(self).projects@.update(
                        old(self).idx_of(id),
                        final(self).proj(id),
                    )
                    &&& final(self).proj(id).id == id
                    &&& final(self).proj(id).commits@ == e.commits@
                    &&& (final(self).proj(id).watch matches Some(h2) && h2.session matches Some(
                        s2,
                    ) && ({
                        let dv = s2.log.as_map()[path@].last();
                        &&& h2.current.as_map() == watch_current_map(e).insert(
                            path@,
                            new_content@,
                        )
                        &&& s2.log.as_map() == session_log_map(e).insert(
                            path@,
                            log_deltas_for(session_log_map(e), path@).push(dv),
                        )
                        &&& is_diff_script(
                            base_content(watch_current_map(e), path@),
                            new_content@,
                            dv.operations,
                        )
                        &&& dv.timestamp == ts
                        &&& s2.last_delta_at == ts
                        &&& s2.started_at == (match session_of(e) {
                            Some(ss) => ss.started_at,
                            None => now,
                        })
                    }))
                }),
            },
    {
        let i = match self.find_index(id) {
            Some(i) => i,
            None => {
                return Err(ErrorKind::ProjectNotFound);
            },
        };
        proof {
            assert(self.projects@[i as int].wf());
        }
        let old_content: Vec<u8> = match &self.projects[i].watch {
            None => {
                return Err(ErrorKind::ProjectNotFound);
            },
            Some(h) => match h.current.get(&path) {
                Some(c) => copy_bytes(c),
                None => Vec::new(),
            },
        };
        let script = diff(&old_content, &new_content);
        if script.len() == 0 {
            return Ok(false);
        }
        match &self.projects[i].watch {
            Some(h) => match &h.session {
                Some(s) => {
                    if s.last_delta_at == u64::MAX && now <= s.last_delta_at {
                        return Err(ErrorKind::TimestampsExhausted);
                    }
                },
                None => {},
            },
            None => {},
        }
        let ghost orig = self.projects@;
        let ghost olde = self.projects@[i as int];
        let ghost base = olde.base_map();
        let ghost cur = watch_current_map(olde);
        let ghost logm = session_log_map(olde);
        let mut entry = self.projects.remove(i);
        let w = take_watch(&mut entry);
        match w {
            None => {
                proof {
                    assert(false);
                }
                Err(ErrorKind::ProjectNotFound)
            },
            Some(mut h) => {
                let path_for_tree = copy_bytes(&path);
                let ghost scriptv = crate::ops::ops_view(script@);
                let s_opt = take_session(&mut h);
                match s_opt {
                    Some(mut s) => {
                        let ts = if now > s.last_delta_at {
                            now
                        } else {
                            s.last_delta_at + 1
                        };
                        let ghost dvg = DeltaView { timestamp: ts, operations: scriptv };
                        s.log.append(path, Delta { timestamp: ts, operations: script });
                        s.last_delta_at = ts;
                        h.current.set(path_for_tree, new_content);
                        let ghost s2g = s;
                        h.session = Some(s);
                        let ghost h2g = h;
                        entry.watch = Some(h);
                        self.projects.insert(i, entry);
                        proof {
                            lemma_record_entry_wf(
                                olde,
                                self.projects@[i as int],
                                h2g,
                                s2g,
                                path@,
                                new_content@,
                                old_content@,
                                dvg,
                            );
                            assert(self.projects@ =~= orig.update(
                                i as int,
                                self.projects@[i as int],
                            ));
                            assert(self.wf());
                            self.lemma_entry_is_proj(id, i as int);
                            assert(s2g.log.as_map()[path@].last() == dvg);
                        }
                        Ok(true)
                    },
                    None => {
                        let parent = if entry.commits.len() == 0 {
                            None
                        } else {
                            Some(entry.commits.len() - 1)
                        };
                        let ghost dvg = DeltaView { timestamp: now, operations: scriptv };
                        let mut log = DeltaLog::new();
                        log.append(path, Delta { timestamp: now, operations: script });
                        h.current.set(path_for_tree, new_content);
                        let ghost s2g = Session { started_at: now, last_delta_at: now, parent, log };
                        h.session = Some(
                            Session { started_at: now, last_delta_at: now, parent, log },
                        );
                        let ghost h2g = h;
                        entry.watch = Some(h);
                        self.projects.insert(i, entry);
                        proof {
                            lemma_record_entry_wf(
                                olde,
                                self.projects@[i as int],
                                h2g,
                                s2g,
                                path@,
                                new_content@,
                                old_content@,
                                dvg,
                            );
                            assert(self.projects@ =~= orig.update(
                                i as int,
                                self.projects@[i as int],
                            ));
                            assert(self.wf());
                            self.lemma_entry_is_proj(id, i as int);
                            assert(s2g.log.as_map()[path@].last() == dvg);
                        }
                        Ok(true)
                    },
                }
            },
        }
    }
}

/// The paths of a listing, as values.
pub open spec fn paths_view(s: Seq<Vec<u8>>) -> Seq<Seq<u8>> {
    s.map_values(|p: Vec<u8>| p@)
}

/// Membership of a path in a tree mapping, as a predicate on paths.
pub open spec fn in_tree(m: Map<Seq<u8>, Seq<u8>>) -> spec_fn(Seq<u8>) -> bool {
    |p: Seq<u8>| m.contains_key(p)
}

impl Engine {
    /// The index of the latest snapshot of `id`, or none before the first
    /// flush. Snapshots are numbered from zero in commit order.
    pub fn head_index(&self, id: u64) -> (r: Result<Option<usize>, ErrorKind>)
        requires
            self.wf(),
        ensures
            match r {
                Ok(h) => self.knows(id) && h == self.proj(id).tip(),
                Err(k) => k == ErrorKind::ProjectNotFound && !self.knows(id),
            },
    {
        match self.find_index(id) {
            None => Err(ErrorKind::ProjectNotFound),
            Some(i) => {
                let n = self.projects[i].commits.len();
                if n == 0 {
                    Ok(None)
                } else {
                    Ok(Some(n - 1))
                }
            },
        }
    }

    /// The content of `path` in the latest snapshot tree of `id`, or none
    /// if the snapshot does not hold the path.
    pub fn read_project_file(&self, id: u64, path: &Vec<u8>) -> (r: Result<Option<Vec<u8>>, ErrorKind>)
        requires
            self.wf(),
        ensures
            match r {
                Ok(c) => {
                    &&& self.knows(id)
                    &&& match c {
                        Some(v) => self.proj(id).base_map().contains_key(path@) && v@ == self.proj(
                            id,
                        ).base_map()[path@],
                        None => !self.proj(id).base_map().contains_key(path@),
                    }
                },
                Err(k) => k == ErrorKind::ProjectNotFound && !self.knows(id),
            },
    {
        match self.find_index(id) {
            None => Err(ErrorKind::ProjectNotFound),
            Some(i) => {
                proof {
                    assert(self.projects@[i as int].wf());
                }
                let n = self.projects[i].commits.len();
                if n == 0 {
                    Ok(None)
                } else {
                    match self.projects[i].commits[n - 1].tree.get(path) {
                        Some(c) => Ok(Some(copy_bytes(c))),
                        None => Ok(None),
                    }
                }
            },
        }
    }

    /// The paths of the current directory listing that the latest
    /// snapshot tree also holds, in listing order.
    pub fn list_project_files(&self, id: u64, listing: &Vec<Vec<u8>>) -> (r: Result<
        Vec<Vec<u8>>,
        ErrorKind,
    >)
        requires
            self.wf(),
        ensures
            match r {
                Ok(v) => self.knows(id) && paths_view(v@) == paths_view(listing@).filter(
                    in_tree(self.proj(id).base_map()),
                ),
                Err(k) => k == ErrorKind::ProjectNotFound && !self.knows(id),
            },
    {
        match self.find_index(id) {
            None => Err(ErrorKind::ProjectNotFound),
            Some(i) => {
                proof {
                    assert(self.projects@[i as int].wf());
                }
                let ghost pred = in_tree(self.proj(id).base_map());
                let mut out: Vec<Vec<u8>> = Vec::new();
                let mut k: usize = 0;
                while k < listing.len()
                    invariant
                        k <= listing@.len(),
                        self.wf(),
                        self.knows(id),
                        self.idx_of(id) == i,
                        i < self.projects@.len(),
                        self.projects@[i as int].wf(),
                        pred == in_tree(self.proj(id).base_map()),
                        paths_view(out@) == paths_view(listing@.subrange(0, k as int)).filter(
                            pred,
                        ),
                    decreases listing@.len() - k,
                {
                    let ghost prefix = paths_view(listing@.subrange(0, k as int));
                    let ghost q = listing@[k as int]@;
                    proof {
                        assert(paths_view(listing@.subrange(0, (k + 1) as int)) =~= prefix.push(
                            q,
                        ));
                        assert(prefix.push(q) =~= prefix + seq![q]);
                        Seq::<Seq<u8>>::filter_distributes_over_add(prefix, seq![q], pred);
                        reveal_with_fuel(Seq::filter, 2);
                        assert(seq![q].drop_last() =~= Seq::<Seq<u8>>::empty());
                        assert(seq![q].last() == q);
                        assert(Seq::<Seq<u8>>::empty().filter(pred) == Seq::<Seq<u8>>::empty());
                        if pred(q) {
                            assert(seq![q].filter(pred) =~= seq![q]);
                        } else {
                            assert(seq![q].filter(pred) =~= Seq::<Seq<u8>>::empty());
                        }
                    }
                    let n = self.projects[i].commits.len();
                    let present: bool = if n == 0 {
                        proof {
                            assert(!pred(q));
                        }
                        false
                    } else {
                        proof {
                            assert(self.projects@[i as int].chain_wf());
                            assert(self.projects@[i as int].commits@[(n - 1) as int].tree.wf());
                        }
                        match self.projects[i].commits[n - 1].tree.get(&listing[k]) {
                            Some(_) => true,
                            None => false,
                        }
                    };
                    if present {
                        let copied = copy_bytes(&listing[k]);
                        let ghost outp = out@;
                        out.push(copied);
                        proof {
                            assert(paths_view(out@) =~= paths_view(outp).push(q));
                            assert(paths_view(out@) =~= prefix.filter(pred) + seq![q]);
                        }
                    } else {
                        proof {
                            assert(paths_view(out@) =~= prefix.filter(pred) + Seq::<
                                Seq<u8>,
                            >::empty());
                        }
                    }
                    proof {
                        assert(paths_view(out@) == paths_view(
                            listing@.subrange(0, (k + 1) as int),
                        ).filter(pred));
                    }
                    k += 1;
                }
                proof {
                    assert(listing@.subrange(0, listing@.len() as int) =~= listing@);
                }
                Ok(out)
            },
        }
    }

    /// The delta log a reader currently sees for `id`: the open session's
    /// log; with no session open, the log stored by the latest snapshot;
    /// before any snapshot, an empty log.
    pub fn list_deltas(&self, id: u64) -> (r: Result<DeltaLog, ErrorKind>)
        requires
            self.wf(),
        ensures
            match r {
                Ok(log) => self.knows(id) && log.wf() && log.as_map() == self.proj(
                    id,
                ).current_log(),
                Err(k) => k == ErrorKind::ProjectNotFound && !self.knows(id),
            },
    {
        match self.find_index(id) {
            None => Err(ErrorKind::ProjectNotFound),
            Some(i) => {
                proof {
                    assert(self.projects@[i as int].wf());
                }
                match &self.projects[i].watch {
                    Some(h) => match &h.session {
                        Some(s) => {
                            return Ok(s.log.duplicate());
                        },
                        None => {},
                    },
                    None => {},
                }
                let n = self.projects[i].commits.len();
                if n == 0 {
                    Ok(DeltaLog::new())
                } else {
                    Ok(self.projects[i].commits[n - 1].log.duplicate())
                }
            },
        }
    }
}

/// Round-trip law, open form: while a session is open, replaying its
/// delta log, file by file, against the latest snapshot's tree reproduces
/// exactly the last-observed contents — the very contents a flush would
/// commit. The flush contract (`commits_after_flush`) carries the same
/// law onto the committed tree.
pub proof fn lemma_session_round_trip(e: ProjectEntry)
    requires
        e.wf(),
        session_of(e) is Some,
    ensures
        log_replays(e.base_map(), session_log_map(e), watch_current_map(e)),
{
}

/// Timestamp law: in any well-formed engine, the deltas a reader sees for
/// any file — open session or stored log — are strictly increasing in
/// timestamp.
pub proof fn lemma_delta_timestamps_monotonic(e: Engine, id: u64, p: Seq<u8>)
    requires
        e.wf(),
        e.knows(id),
        e.proj(id).current_log().contains_key(p),
    ensures
        deltas_monotonic(e.proj(id).current_log()[p]),
{
    let i = e.idx_of(id);
    assert(e.projects@[i].wf());
}

/// Isolation law: recording a delta for one file only grows that file's
/// record; recording deltas for two different files, in either order,
/// leaves each file with exactly its own deltas, the other's untouched.
pub proof fn lemma_record_isolation(
    log0: Map<Seq<u8>, Seq<DeltaView>>,
    p1: Seq<u8>,
    d1: DeltaView,
    p2: Seq<u8>,
    d2: DeltaView,
)
    requires
        p1 != p2,
    ensures
        ({
            let log1 = log0.insert(p1, log_deltas_for(log0, p1).push(d1));
            let log2 = log1.insert(p2, log_deltas_for(log1, p2).push(d2));
            &&& log_deltas_for(log1, p2) == log_deltas_for(log0, p2)
            &&& log_deltas_for(log2, p1) == log_deltas_for(log0, p1).push(d1)
            &&& log_deltas_for(log2, p2) == log_deltas_for(log0, p2).push(d2)
        }),
{
}

/// Replays a whole delta log against a base tree, file by file: the
/// executable form of the round-trip law. Succeeds exactly when every
/// file's deltas fit the content they meet, and then produces the tree
/// that `log_replays` relates to the base — for a flushed session, the
/// committed tree itself.
pub fn replay_onto(base: &Tree, log: &DeltaLog) -> (r: Option<Tree>)
    requires
        base.wf(),
        log.wf(),
    ensures
        match r {
            Some(t) => t.wf() && log_replays(base.as_map(), log.as_map(), t.as_map()),
            None => exists|p: Seq<u8>|
                #[trigger] log.as_map().contains_key(p) && replay_file(
                    base_content(base.as_map(), p),
                    log.as_map()[p],
                ) is None,
        },
{
    let mut out = base.duplicate();
    let mut k: usize = 0;
    while k < log.files.len()
        invariant
            k <= log.files@.len(),
            base.wf(),
            log.wf(),
            out.wf(),
            forall|p: Seq<u8>|
                #[trigger] out.as_map().contains_key(p) <==> base.as_map().contains_key(p)
                    || exists|j: int| 0 <= j < k && #[trigger] log.files@[j].path@ == p,
            forall|j: int|
                0 <= j < k ==> replay_file(
                    base_content(base.as_map(), (#[trigger] log.files@[j]).path@),
                    deltas_view(log.files@[j].deltas@),
                ) == Some(out.as_map()[log.files@[j].path@]),
            forall|p: Seq<u8>|
                #[trigger] out.as_map().contains_key(p) && !(exists|j: int|
                    0 <= j < k && #[trigger] log.files@[j].path@ == p) ==> out.as_map()[p]
                    == base.as_map()[p],
        decreases log.files@.len() - k,
    {
        let basec: Vec<u8> = match base.get(&log.files[k].path) {
            Some(c) => copy_bytes(c),
            None => Vec::new(),
        };
        let ghost before = out.as_map();
        let ghost basecv = basec@;
        match replay_deltas(basec, &log.files[k].deltas) {
            Some(content) => {
                let path = copy_bytes(&log.files[k].path);
                out.set(path, content);
                proof {
                    assert(forall|j: int|
                        0 <= j < k ==> (#[trigger] log.files@[j]).path@ != log.files@[
                            k as int
                        ].path@);
                }
            },
            None => {
                proof {
                    crate::delta_log::lemma_files_map_index(log.files@, k as int);
                    let p = log.files@[k as int].path@;
                    assert(log.as_map().contains_key(p));
                    assert(log.as_map()[p] == deltas_view(log.files@[k as int].deltas@));
                    assert(basecv == base_content(base.as_map(), p));
                    assert(replay_file(base_content(base.as_map(), p), log.as_map()[p]) is None);
                }
                return None;
            },
        }
        k += 1;
    }
    proof {
        assert forall|p: Seq<u8>| #[trigger] log.as_map().contains_key(p) implies replay_file(
            base_content(base.as_map(), p),
            log.as_map()[p],
        ) == Some(out.as_map()[p]) by {
            crate::delta_log::lemma_files_map_dom(log.files@, p);
            let j = choose|j: int|
                0 <= j < log.files@.len() && #[trigger] log.files@[j].path@ == p;
            crate::delta_log::lemma_files_map_index(log.files@, j);
        }
        assert(out.as_map().dom() =~= base.as_map().dom().union(log.as_map().dom())) by {
            assert forall|p: Seq<u8>| #[trigger] out.as_map().contains_key(p) implies base.as_map()
                .contains_key(p) || log.as_map().contains_key(p) by {
                if !base.as_map().contains_key(p) {
                    let j = choose|j: int|
                        0 <= j < log.files@.len() && #[trigger] log.files@[j].path@ == p;
                    crate::delta_log::lemma_files_map_index(log.files@, j);
                }
            }
            assert forall|p: Seq<u8>| #[trigger] log.as_map().contains_key(p) implies out.as_map()
                .contains_key(p) by {
                crate::delta_log::lemma_files_map_dom(log.files@, p);
            }
        }
        assert forall|p: Seq<u8>| #[trigger] out.as_map().contains_key(p) && !log.as_map()
            .contains_key(p) implies out.as_map()[p] == base.as_map()[p] by {
            if exists|j: int|
                0 <= j < log.files@.len() && #[trigger] log.files@[j].path@ == p {
                let j = choose|j: int|
                    0 <= j < log.files@.len() && #[trigger] log.files@[j].path@ == p;
                crate::delta_log::lemma_files_map_index(log.files@, j);
            }
        }
    }
    Some(out)
}

/// Recording one delta keeps a project entry well-formed: the updated
/// contents still replay from the latest snapshot through the grown log,
/// and timestamps stay ordered.
proof fn lemma_record_entry_wf(
    eold: ProjectEntry,
    enew: ProjectEntry,
    h2: WatchHandle,
    s2: Session,
    p: Seq<u8>,
    newc: Seq<u8>,
    oldc: Seq<u8>,
    dv: DeltaView,
)
    requires
        eold.wf(),
        eold.watch is Some,
        enew.id == eold.id,
        enew.commits@ == eold.commits@,
        enew.watch == Some(h2),
        h2.session == Some(s2),
        h2.current.wf(),
        s2.log.wf(),
        h2.current.as_map() == watch_current_map(eold).insert(p, newc),
        s2.log.as_map() == session_log_map(eold).insert(
            p,
            log_deltas_for(session_log_map(eold), p).push(dv),
        ),
        s2.last_delta_at == dv.timestamp,
        s2.parent == eold.tip(),
        match session_of(eold) {
            Some(ss) => s2.started_at == ss.started_at && dv.timestamp > ss.last_delta_at,
            None => s2.started_at == dv.timestamp,
        },
        watch_current_map(eold).contains_key(p) ==> oldc == watch_current_map(eold)[p],
        !watch_current_map(eold).contains_key(p) ==> oldc == Seq::<u8>::empty(),
        crate::ops::ops_apply(oldc, dv.operations) == Some(newc),
    ensures
        enew.wf(),
{
    let base = eold.base_map();
    let cur = watch_current_map(eold);
    let logm = session_log_map(eold);
    let cur2 = h2.current.as_map();
    let log2 = s2.log.as_map();
    let olds = log_deltas_for(logm, p);

    assert(log_replays(base, logm, cur)) by {
        if session_of(eold) is None {
            assert(cur == base);
            assert(cur.dom() =~= base.dom().union(logm.dom()));
        }
    }
    assert(log_times_bounded(logm, s2.started_at, (match session_of(eold) {
        Some(ss) => ss.last_delta_at,
        None => dv.timestamp,
    })));

    assert(cur2.dom() =~= base.dom().union(log2.dom())) by {
        assert(cur.dom() == base.dom().union(logm.dom()));
        assert(forall|x: Seq<u8>| #[trigger] cur2.dom().contains(x) <==> x == p || cur.dom().contains(x));
        assert(forall|x: Seq<u8>| #[trigger] log2.dom().contains(x) <==> x == p || logm.dom().contains(x));
        assert(forall|x: Seq<u8>|
            #[trigger] base.dom().union(logm.dom()).contains(x) <==> base.dom().contains(x)
                || logm.dom().contains(x));
        assert(forall|x: Seq<u8>|
            #[trigger] base.dom().union(log2.dom()).contains(x) <==> base.dom().contains(x)
                || log2.dom().contains(x));
    }

    assert(replay_file(base_content(base, p), olds) == Some(oldc)) by {
        if logm.contains_key(p) {
            assert(replay_file(base_content(base, p), logm[p]) == Some(cur[p]));
            assert(cur.dom() == base.dom().union(logm.dom()));
            assert(cur.contains_key(p));
        } else {
            assert(olds =~= Seq::<DeltaView>::empty());
            assert(replay_file(base_content(base, p), Seq::<DeltaView>::empty()) == Some(
                base_content(base, p),
            ));
            if cur.contains_key(p) {
                assert(cur[p] == base[p]);
                assert(cur.dom() == base.dom().union(logm.dom()));
                assert(base.contains_key(p));
            } else {
                assert(cur.dom() == base.dom().union(logm.dom()));
                assert(!base.contains_key(p));
                assert(base_content(base, p) == Seq::<u8>::empty());
            }
        }
    }

    assert forall|q: Seq<u8>| #[trigger] log2.contains_key(q) implies replay_file(
        base_content(base, q),
        log2[q],
    ) == Some(cur2[q]) by {
        if q == p {
            lemma_replay_file_push(base_content(base, p), olds, dv);
            assert(log2[p] == olds.push(dv));
            assert(cur2[p] == newc);
        } else {
            assert(logm.contains_key(q));
            assert(log2[q] == logm[q]);
            assert(cur2[q] == cur[q]);
            assert(replay_file(base_content(base, q), logm[q]) == Some(cur[q]));
        }
    }

    assert forall|q: Seq<u8>| #[trigger] cur2.contains_key(q) && !log2.contains_key(q) implies cur2[q]
        == base[q] by {
        assert(q != p);
        assert(cur.contains_key(q));
        assert(!logm.contains_key(q));
    }

    assert forall|q: Seq<u8>| #[trigger] log2.contains_key(q) implies {
        &&& deltas_monotonic(log2[q])
        &&& log2[q].len() > 0
        &&& forall|k: int|
            0 <= k < log2[q].len() ==> s2.started_at <= (#[trigger] log2[q][k]).timestamp
                <= s2.last_delta_at
    } by {
        let hi = (match session_of(eold) {
            Some(ss) => ss.last_delta_at,
            None => dv.timestamp,
        });
        if q == p {
            assert(log2[p] == olds.push(dv));
            assert(forall|k: int| 0 <= k < olds.len() ==> #[trigger] olds.push(dv)[k] == olds[k]);
            assert(olds.push(dv)[olds.len() as int] == dv);
            if logm.contains_key(p) {
                assert(deltas_monotonic(logm[p]));
                assert(forall|k: int|
                    0 <= k < olds.len() ==> s2.started_at <= (#[trigger] olds[k]).timestamp <= hi);
            }
            assert(hi <= dv.timestamp);
            assert(deltas_monotonic(log2[p])) by {
                assert(forall|k: int|
                    0 <= k < olds.len() ==> (#[trigger] olds.push(dv)[k]).timestamp <= hi);
            }
            assert(s2.started_at <= dv.timestamp);
        } else {
            assert(logm.contains_key(q));
            assert(log2[q] == logm[q]);
            assert(hi <= s2.last_delta_at);
        }
    }

    assert(enew.chain_wf()) by {
        assert(forall|i: int|
            0 <= i < enew.commits@.len() ==> #[trigger] enew.commits@[i] == eold.commits@[i]);
    }
    assert(enew.base_map() == base);
    assert(enew.tip() == eold.tip());
}

/// Takes the watch handle out of an entry, leaving none.
fn take_watch(entry: &mut ProjectEntry) -> (w: Option<WatchHandle>)
    ensures
        w == old(entry).watch,
        final(entry).watch is None,
        final(entry).id == old(entry).id,
        final(entry).commits == old(entry).commits,
{
    let mut w: Option<WatchHandle> = None;
    core::mem::swap(&mut entry.watch, &mut w);
    w
}

/// Takes the session out of a handle, leaving none.
fn take_session(h: &mut WatchHandle) -> (s: Option<Session>)
    ensures
        s == old(h).session,
        final(h).session is None,
        final(h).current == old(h).current,
{
    let mut s: Option<Session> = None;
    core::mem::swap(&mut h.session, &mut s);
    s
}

} // verus!
