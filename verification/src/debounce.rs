//! Debouncing of raw file-system notifications: bursts of events for one
//! path within a short coalescing window collapse into a single settled
//! read, so that partially written files are not diffed mid-write.

use vstd::prelude::*;
use crate::ops::copy_bytes;
use crate::tree::bytes_equal;

verus! {

/// The coalescing window, in milliseconds.
pub const DEBOUNCE_WINDOW_MS: u64 = 100;

/// One path with a raw notification not yet settled, and the moment of
/// the latest notification for it.
pub struct PendingEvent {
    pub path: Vec<u8>,
    pub last_seen: u64,
}

/// The paths with unsettled notifications, each with its latest
/// notification time.
pub struct Debouncer {
    pub window_ms: u64,
    pub pending: Vec<PendingEvent>,
}

/// The mapping that a sequence of pending events denotes; were a path
/// repeated, the later entry would win, but well-formed debouncers never
/// repeat one.
pub open spec fn pending_map(s: Seq<PendingEvent>) -> Map<Seq<u8>, u64>
    decreases s.len(),
{
    if s.len() == 0 {
        Map::<Seq<u8>, u64>::empty()
    } else {
        pending_map(s.drop_last()).insert(s.last().path@, s.last().last_seen)
    }
}

/// No two pending events share a path.
pub open spec fn pending_unique(s: Seq<PendingEvent>) -> bool {
    forall|i: int, j: int| 0 <= i < j < s.len() ==> s[i].path@ != s[j].path@
}

/// A path last seen at `seen` has settled by `now`.
pub open spec fn spec_settled(seen: u64, now: u64, window_ms: u64) -> bool {
    now >= seen && now - seen >= window_ms
}

/// The paths of the settled pending events, in pending order.
pub open spec fn settled_seq(s: Seq<PendingEvent>, now: u64, window_ms: u64) -> Seq<Seq<u8>>
    decreases s.len(),
{
    if s.len() == 0 {
        Seq::<Seq<u8>>::empty()
    } else if spec_settled(s.last().last_seen, now, window_ms) {
        settled_seq(s.drop_last(), now, window_ms).push(s.last().path@)
    } else {
        settled_seq(s.drop_last(), now, window_ms)
    }
}

proof fn lemma_pending_map_index(s: Seq<PendingEvent>, i: int)
    requires
        pending_unique(s),
        0 <= i < s.len(),
    ensures
        pending_map(s).contains_key(s[i].path@),
        pending_map(s)[s[i].path@] == s[i].last_seen,
    decreases s.len(),
{
    if i < s.len() - 1 {
        assert(pending_unique(s.drop_last()));
        lemma_pending_map_index(s.drop_last(), i);
        assert(s.drop_last()[i] == s[i]);
        assert(s.last().path@ != s[i].path@);
    }
}

proof fn lemma_pending_map_dom(s: Seq<PendingEvent>, k: Seq<u8>)
    requires
        pending_map(s).contains_key(k),
    ensures
        exists|i: int| 0 <= i < s.len() && #[trigger] s[i].path@ == k,
    decreases s.len(),
{
    if s.len() > 0 {
        if s.last().path@ == k {
            assert(s[s.len() - 1].path@ == k);
        } else {
            lemma_pending_map_dom(s.drop_last(), k);
            let i = choose|i: int|
                0 <= i < s.drop_last().len() && #[trigger] s.drop_last()[i].path@ == k;
            assert(s[i].path@ == k);
        }
    }
}

proof fn lemma_pending_map_update(s: Seq<PendingEvent>, i: int, e: PendingEvent)
    requires
        pending_unique(s),
        0 <= i < s.len(),
        e.path@ == s[i].path@,
    ensures
        pending_map(s.update(i, e)) == pending_map(s).insert(e.path@, e.last_seen),
    decreases s.len(),
{
    let u = s.update(i, e);
    if i == s.len() - 1 {
        assert(u.drop_last() =~= s.drop_last());
        assert(u.last() == e);
        assert(pending_map(s.drop_last()).insert(s.last().path@, s.last().last_seen).insert(
            e.path@,
            e.last_seen,
        ) =~= pending_map(s.drop_last()).insert(e.path@, e.last_seen));
    } else {
        assert(pending_unique(s.drop_last()));
        assert(s.drop_last()[i] == s[i]);
        lemma_pending_map_update(s.drop_last(), i, e);
        assert(u.drop_last() =~= s.drop_last().update(i, e));
        assert(u.last() == s.last());
        assert(s.last().path@ != e.path@);
        assert(pending_map(s.drop_last()).insert(e.path@, e.last_seen).insert(
            s.last().path@,
            s.last().last_seen,
        ) =~= pending_map(s.drop_last()).insert(s.last().path@, s.last().last_seen).insert(
            e.path@,
            e.last_seen,
        ));
    }
}

proof fn lemma_pending_map_remove(s: Seq<PendingEvent>, i: int)
    requires
        pending_unique(s),
        0 <= i < s.len(),
    ensures
        pending_map(s.remove(i)) == pending_map(s).remove(s[i].path@),
    decreases s.len(),
{
    if i == s.len() - 1 {
        assert(s.remove(i) =~= s.drop_last());
        assert(!pending_map(s.drop_last()).contains_key(s[i].path@)) by {
            if pending_map(s.drop_last()).contains_key(s[i].path@) {
                lemma_pending_map_dom(s.drop_last(), s[i].path@);
                let j = choose|j: int|
                    0 <= j < s.drop_last().len() && #[trigger] s.drop_last()[j].path@ == s[
                        i
                    ].path@;
                assert(s[j].path@ == s[i].path@);
            }
        }
        assert(pending_map(s.drop_last()) =~= pending_map(s).remove(s[i].path@));
    } else {
        assert(pending_unique(s.drop_last()));
        assert(s.drop_last()[i] == s[i]);
        lemma_pending_map_remove(s.drop_last(), i);
        assert(s.remove(i).drop_last() =~= s.drop_last().remove(i));
        assert(s.remove(i).last() == s.last());
        assert(s.last().path@ != s[i].path@);
        assert(pending_map(s.drop_last()).remove(s[i].path@).insert(
            s.last().path@,
            s.last().last_seen,
        ) =~= pending_map(s.drop_last()).insert(s.last().path@, s.last().last_seen).remove(
            s[i].path@,
        ));
    }
}

impl Debouncer {
    /// The mapping from path to the latest notification time for it.
    pub open spec fn as_map(self) -> Map<Seq<u8>, u64> {
        pending_map(self.pending@)
    }

    pub open spec fn wf(self) -> bool {
        pending_unique(self.pending@)
    }

    /// A debouncer with the standard coalescing window and no pending
    /// notifications.
    pub fn new() -> (d: Debouncer)
        ensures
            d.wf(),
            d.as_map() == Map::<Seq<u8>, u64>::empty(),
            d.window_ms == DEBOUNCE_WINDOW_MS,
    {
        Debouncer { window_ms: DEBOUNCE_WINDOW_MS, pending: Vec::new() }
    }

    /// Notes a raw notification for `path` at `now`: the path's settle
    /// clock restarts, so bursts within the window collapse.
    pub fn note_event(&mut self, path: Vec<u8>, now: u64)
        requires
            old(self).wf(),
        ensures
            final(self).wf(),
            final(self).window_ms == old(self).window_ms,
            final(self).as_map() == old(self).as_map().insert(path@, now),
    {
        let ghost orig = self.pending@;
        let mut i: usize = 0;
        while i < self.pending.len()
            invariant
                i <= self.pending@.len(),
                self.pending@ == orig,
                orig == old(self).pending@,
                self.window_ms == old(self).window_ms,
                pending_unique(orig),
                forall|j: int| 0 <= j < i ==> orig[j].path@ != path@,
            decreases self.pending@.len() - i,
        {
            if bytes_equal(&self.pending[i].path, &path) {
                let entry = vstd::std_specs::vec::vec_index_mut(&mut self.pending, i);
                *entry = PendingEvent { path, last_seen: now };
                proof {
                    lemma_pending_map_update(orig, i as int, self.pending@[i as int]);
                    assert(pending_unique(self.pending@));
                }
                return ;
            }
            i += 1;
        }
        self.pending.push(PendingEvent { path, last_seen: now });
        proof {
            assert(self.pending@.drop_last() =~= orig);
            assert(pending_unique(self.pending@));
        }
    }

    /// Whether `path` has an unsettled notification that has now passed
    /// the coalescing window, so its content should be read and recorded.
    pub fn is_settled(&self, path: &Vec<u8>, now: u64) -> (r: bool)
        requires
            self.wf(),
        ensures
            r <==> self.as_map().contains_key(path@) && spec_settled(
                self.as_map()[path@],
                now,
                self.window_ms,
            ),
    {
        let mut i: usize = 0;
        while i < self.pending.len()
            invariant
                i <= self.pending@.len(),
                self.wf(),
                forall|j: int| 0 <= j < i ==> (#[trigger] self.pending@[j]).path@ != path@,
            decreases self.pending@.len() - i,
        {
            if bytes_equal(&self.pending[i].path, path) {
                proof {
                    lemma_pending_map_index(self.pending@, i as int);
                }
                let seen = self.pending[i].last_seen;
                return now >= seen && now - seen >= self.window_ms;
            }
            i += 1;
        }
        proof {
            if self.as_map().contains_key(path@) {
                lemma_pending_map_dom(self.pending@, path@);
            }
        }
        false
    }

    /// The paths whose latest notification has settled by `now`, in
    /// pending order, each exactly once.
    pub fn settled_paths(&self, now: u64) -> (r: Vec<Vec<u8>>)
        requires
            self.wf(),
        ensures
            crate::engine::paths_view(r@) == settled_seq(self.pending@, now, self.window_ms),
            forall|j: int|
                0 <= j < r@.len() ==> self.as_map().contains_key(#[trigger] r@[j]@)
                    && spec_settled(self.as_map()[r@[j]@], now, self.window_ms),
            forall|p: Seq<u8>|
                #[trigger] self.as_map().contains_key(p) && spec_settled(
                    self.as_map()[p],
                    now,
                    self.window_ms,
                ) ==> exists|j: int| 0 <= j < r@.len() && #[trigger] r@[j]@ == p,
            forall|j: int, k: int| 0 <= j < k < r@.len() ==> r@[j]@ != r@[k]@,
    {
        let mut out: Vec<Vec<u8>> = Vec::new();
        let mut i: usize = 0;
        while i < self.pending.len()
            invariant
                i <= self.pending@.len(),
                self.wf(),
                crate::engine::paths_view(out@) == settled_seq(
                    self.pending@.subrange(0, i as int),
                    now,
                    self.window_ms,
                ),
                forall|j: int, k: int| 0 <= j < k < out@.len() ==> out@[j]@ != out@[k]@,
                forall|j: int|
                    0 <= j < out@.len() ==> exists|k: int|
                        0 <= k < i && #[trigger] out@[j]@ == self.pending@[k].path@,
                forall|j: int|
                    0 <= j < out@.len() ==> self.as_map().contains_key(#[trigger] out@[j]@)
                        && spec_settled(self.as_map()[out@[j]@], now, self.window_ms),
                forall|k: int|
                    0 <= k < i && spec_settled(
                        (#[trigger] self.pending@[k]).last_seen,
                        now,
                        self.window_ms,
                    ) ==> exists|j: int| 0 <= j < out@.len() && #[trigger] out@[j]@ == self.pending@[k].path@,
            decreases self.pending@.len() - i,
        {
            let ghost outp = out@;
            proof {
                assert(self.pending@.subrange(0, (i + 1) as int).drop_last() =~= self.pending@
                    .subrange(0, i as int));
                assert(self.pending@.subrange(0, (i + 1) as int).last() == self.pending@[
                    i as int
                ]);
            }
            let seen = self.pending[i].last_seen;
            let pushed = now >= seen && now - seen >= self.window_ms;
            if pushed {
                out.push(copy_bytes(&self.pending[i].path));
                proof {
                    lemma_pending_map_index(self.pending@, i as int);
                    assert(out@[outp.len() as int]@ == self.pending@[i as int].path@);
                    assert(forall|j: int| 0 <= j < outp.len() ==> #[trigger] out@[j] == outp[j]);
                    assert(crate::engine::paths_view(out@) =~= crate::engine::paths_view(
                        outp,
                    ).push(self.pending@[i as int].path@));
                    assert forall|j: int| 0 <= j < outp.len() implies (#[trigger] out@[j]@)
                        != self.pending@[i as int].path@ by {
                        assert(outp[j]@ == out@[j]@);
                        let k = choose|k: int|
                            0 <= k < i && #[trigger] outp[j]@ == self.pending@[k].path@;
                        assert(self.pending@[k].path@ != self.pending@[i as int].path@);
                    }
                    assert(forall|j: int, k: int|
                        0 <= j < k < out@.len() ==> out@[j]@ != out@[k]@);
                }
            }
            proof {
                assert forall|k: int|
                    0 <= k < i + 1 && spec_settled(
                        (#[trigger] self.pending@[k]).last_seen,
                        now,
                        self.window_ms,
                    ) implies exists|j: int|
                    0 <= j < out@.len() && #[trigger] out@[j]@ == self.pending@[k].path@ by {
                    if k < i {
                        let j = choose|j: int|
                            0 <= j < outp.len() && #[trigger] outp[j]@ == self.pending@[k].path@;
                        assert(out@[j]@ == self.pending@[k].path@);
                    } else {
                        assert(pushed);
                        assert(out@[outp.len() as int]@ == self.pending@[k].path@);
                    }
                }
            }
            i += 1;
        }
        proof {
            assert(self.pending@.subrange(0, self.pending@.len() as int) =~= self.pending@);
            assert forall|p: Seq<u8>|
                #[trigger] self.as_map().contains_key(p) && spec_settled(
                    self.as_map()[p],
                    now,
                    self.window_ms,
                ) implies exists|j: int| 0 <= j < out@.len() && #[trigger] out@[j]@ == p by {
                lemma_pending_map_dom(self.pending@, p);
                let k = choose|k: int|
                    0 <= k < self.pending@.len() && #[trigger] self.pending@[k].path@ == p;
                lemma_pending_map_index(self.pending@, k);
            }
        }
        out
    }

    /// Drops the pending notification for `path`, if any: the settled
    /// event has been read and recorded.
    pub fn settle(&mut self, path: &Vec<u8>)
        requires
            old(self).wf(),
        ensures
            final(self).wf(),
            final(self).window_ms == old(self).window_ms,
            final(self).as_map() == old(self).as_map().remove(path@),
    {
        let ghost orig = self.pending@;
        let mut i: usize = 0;
        while i < self.pending.len()
            invariant
                i <= self.pending@.len(),
                self.pending@ == orig,
                orig == old(self).pending@,
                self.window_ms == old(self).window_ms,
                pending_unique(orig),
                forall|j: int| 0 <= j < i ==> orig[j].path@ != path@,
            decreases self.pending@.len() - i,
        {
            if bytes_equal(&self.pending[i].path, path) {
                self.pending.remove(i);
                proof {
                    lemma_pending_map_remove(orig, i as int);
                    assert(pending_unique(self.pending@)) by {
                        assert(forall|j: int|
                            0 <= j < self.pending@.len() ==> #[trigger] self.pending@[j] == if j
                                < i {
                                orig[j]
                            } else {
                                orig[j + 1]
                            });
                    }
                }
                return ;
            }
            i += 1;
        }
        proof {
            if old(self).as_map().contains_key(path@) {
                lemma_pending_map_dom(orig, path@);
            }
            assert(self.as_map() =~= old(self).as_map().remove(path@));
        }
    }
}

} // verus!
