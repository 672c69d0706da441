use delta_store::engine::replay_onto;
use delta_store::engine::Engine;
use delta_store::engine::ErrorKind;
use delta_store::engine::FlushPolicy;
use delta_store::ops::Operation;
use delta_store::tree::Tree;
use delta_store::tree::TreeEntry;
use delta_store::Error;

fn watched_engine(id: u64) -> Engine {
    let mut engine = Engine::new(FlushPolicy::standard());
    engine.watch(id);
    engine
}

fn deltas_for<'a>(
    log: &'a delta_store::delta_log::DeltaLog,
    path: &[u8],
) -> Option<&'a Vec<delta_store::ops::Delta>> {
    for file in log.files.iter() {
        if file.path == path {
            return Some(&file.deltas);
        }
    }
    None
}

#[test]
fn unknown_project_is_reported() {
    let engine = Engine::new(FlushPolicy::standard());
    assert_eq!(engine.head_index(7), Err(ErrorKind::ProjectNotFound));
    assert!(engine.read_project_file(7, &b"a.txt".to_vec()).is_err());
    assert!(engine.list_deltas(7).is_err());
}

#[test]
fn watch_is_idempotent() {
    let mut engine = watched_engine(1);
    let r = engine.record_change(1, b"a.txt".to_vec(), b"x".to_vec(), 10);
    assert_eq!(r, Ok(true));
    engine.watch(1);
    let log = engine.list_deltas(1).unwrap();
    assert_eq!(log.files.len(), 1);
}

#[test]
fn unwatch_of_unwatched_project_is_a_quiet_no_op() {
    let mut engine = Engine::new(FlushPolicy::standard());
    engine.unwatch(42);
    assert_eq!(engine.projects.len(), 0);

    let mut engine = watched_engine(1);
    engine.unwatch(1);
    engine.unwatch(1);
    assert_eq!(engine.head_index(1), Ok(None));
}

#[test]
fn empty_flush_writes_no_commit() {
    let mut engine = watched_engine(1);
    assert_eq!(engine.flush_now(1), Ok(false));
    assert_eq!(engine.head_index(1), Ok(None));

    assert_eq!(engine.record_change(1, b"a.txt".to_vec(), b"x".to_vec(), 10), Ok(true));
    assert_eq!(engine.flush_now(1), Ok(true));
    assert_eq!(engine.head_index(1), Ok(Some(0)));
    // the new session is empty again: flushing it moves nothing
    assert_eq!(engine.flush_now(1), Ok(false));
    assert_eq!(engine.head_index(1), Ok(Some(0)));
}

#[test]
fn unchanged_content_records_nothing() {
    let mut engine = watched_engine(1);
    assert_eq!(engine.record_change(1, b"a.txt".to_vec(), b"x".to_vec(), 10), Ok(true));
    assert_eq!(engine.record_change(1, b"a.txt".to_vec(), b"x".to_vec(), 20), Ok(false));
    let log = engine.list_deltas(1).unwrap();
    assert_eq!(deltas_for(&log, b"a.txt").unwrap().len(), 1);
}

#[test]
fn timestamps_strictly_increase_even_when_clock_stalls() {
    let mut engine = watched_engine(1);
    assert_eq!(engine.record_change(1, b"a.txt".to_vec(), b"one".to_vec(), 100), Ok(true));
    assert_eq!(engine.record_change(1, b"a.txt".to_vec(), b"two".to_vec(), 100), Ok(true));
    assert_eq!(engine.record_change(1, b"a.txt".to_vec(), b"three".to_vec(), 90), Ok(true));
    let log = engine.list_deltas(1).unwrap();
    let deltas = deltas_for(&log, b"a.txt").unwrap();
    assert_eq!(deltas.len(), 3);
    assert_eq!(deltas[0].timestamp, 100);
    assert_eq!(deltas[1].timestamp, 101);
    assert_eq!(deltas[2].timestamp, 102);
    for w in deltas.windows(2) {
        assert!(w[0].timestamp < w[1].timestamp);
    }
}

#[test]
fn timestamp_range_can_run_out() {
    let mut engine = watched_engine(1);
    assert_eq!(engine.record_change(1, b"a.txt".to_vec(), b"one".to_vec(), u64::MAX), Ok(true));
    assert_eq!(
        engine.record_change(1, b"a.txt".to_vec(), b"two".to_vec(), u64::MAX),
        Err(ErrorKind::TimestampsExhausted)
    );
}

#[test]
fn concurrent_edits_to_two_files_stay_isolated() {
    let mut engine = watched_engine(1);
    assert_eq!(engine.record_change(1, b"a.txt".to_vec(), b"alpha".to_vec(), 10), Ok(true));
    assert_eq!(engine.record_change(1, b"b.txt".to_vec(), b"beta".to_vec(), 10), Ok(true));
    let log = engine.list_deltas(1).unwrap();
    assert_eq!(log.files.len(), 2);
    let a = deltas_for(&log, b"a.txt").unwrap();
    let b = deltas_for(&log, b"b.txt").unwrap();
    assert_eq!(a.len(), 1);
    assert_eq!(b.len(), 1);
    match &a[0].operations[0] {
        Operation::Insert { offset, text } => {
            assert_eq!(*offset, 0);
            assert_eq!(text, &b"alpha".to_vec());
        }
        Operation::Delete { .. } => panic!("expected an insert"),
    }
    match &b[0].operations[0] {
        Operation::Insert { offset, text } => {
            assert_eq!(*offset, 0);
            assert_eq!(text, &b"beta".to_vec());
        }
        Operation::Delete { .. } => panic!("expected an insert"),
    }
}

#[test]
fn edit_then_flush_round_trips_to_the_read_path() {
    let mut engine = watched_engine(1);
    // first session: a.txt comes to exist as "hello" and is committed
    assert_eq!(engine.record_change(1, b"a.txt".to_vec(), b"hello".to_vec(), 10), Ok(true));
    assert_eq!(engine.flush_now(1), Ok(true));
    assert_eq!(engine.read_project_file(1, &b"a.txt".to_vec()), Ok(Some(b"hello".to_vec())));

    // second session: the watcher observes the rewrite to "hello world"
    assert_eq!(
        engine.record_change(1, b"a.txt".to_vec(), b"hello world".to_vec(), 20),
        Ok(true)
    );
    let log = engine.list_deltas(1).unwrap();
    let deltas = deltas_for(&log, b"a.txt").unwrap();
    assert_eq!(deltas.len(), 1);
    assert_eq!(deltas[0].operations.len(), 1);
    match &deltas[0].operations[0] {
        Operation::Insert { offset, text } => {
            assert_eq!(*offset, 5);
            assert_eq!(text, &b" world".to_vec());
        }
        Operation::Delete { .. } => panic!("expected an insert"),
    }

    // the session closes after the inactivity window
    assert_eq!(engine.maybe_flush(1, 20 + 4999), Ok(false));
    assert_eq!(engine.maybe_flush(1, 20 + 5000), Ok(true));
    assert_eq!(engine.read_project_file(1, &b"a.txt".to_vec()), Ok(Some(b"hello world".to_vec())));
    assert_eq!(engine.head_index(1), Ok(Some(1)));

    // the flush opened a fresh session: the open delta log reads empty
    let log = engine.list_deltas(1).unwrap();
    assert_eq!(log.files.len(), 0);
    // re-observing the same content records nothing, so it stays empty
    assert_eq!(engine.record_change(1, b"a.txt".to_vec(), b"hello world".to_vec(), 30), Ok(false));
    let log = engine.list_deltas(1).unwrap();
    assert_eq!(log.files.len(), 0);
}

#[test]
fn deleted_file_records_full_delete_and_leaves_the_listing() {
    let mut engine = watched_engine(1);
    assert_eq!(engine.record_change(1, b"b.txt".to_vec(), b"content".to_vec(), 10), Ok(true));
    assert_eq!(engine.flush_now(1), Ok(true));

    // the file vanishes from disk: absent content is recorded as empty
    assert_eq!(engine.record_change(1, b"b.txt".to_vec(), Vec::new(), 20), Ok(true));
    let log = engine.list_deltas(1).unwrap();
    let deltas = deltas_for(&log, b"b.txt").unwrap();
    assert_eq!(deltas.len(), 1);
    assert_eq!(deltas[0].operations.len(), 1);
    match &deltas[0].operations[0] {
        Operation::Delete { offset, length } => {
            assert_eq!(*offset, 0);
            assert_eq!(*length, 7);
        }
        Operation::Insert { .. } => panic!("expected a delete"),
    }

    assert_eq!(engine.flush_now(1), Ok(true));
    // the committed tree dropped the deleted file: it reads back absent
    assert_eq!(engine.read_project_file(1, &b"b.txt".to_vec()), Ok(None));
    // and it is gone from the listing intersection even if the listing
    // still names it
    let listing: Vec<Vec<u8>> = vec![b"a.txt".to_vec(), b"b.txt".to_vec()];
    let files = engine.list_project_files(1, &listing).unwrap();
    assert_eq!(files.len(), 0);
}

#[test]
fn list_files_keeps_listing_order_and_tree_membership() {
    let mut engine = watched_engine(1);
    assert_eq!(engine.record_change(1, b"a.txt".to_vec(), b"1".to_vec(), 10), Ok(true));
    assert_eq!(engine.record_change(1, b"c.txt".to_vec(), b"3".to_vec(), 11), Ok(true));
    assert_eq!(engine.flush_now(1), Ok(true));
    let listing: Vec<Vec<u8>> =
        vec![b"c.txt".to_vec(), b"untracked.txt".to_vec(), b"a.txt".to_vec()];
    let files = engine.list_project_files(1, &listing).unwrap();
    assert_eq!(files, vec![b"c.txt".to_vec(), b"a.txt".to_vec()]);
}

#[test]
fn snapshot_chain_grows_linearly() {
    let mut engine = watched_engine(1);
    assert_eq!(engine.head_index(1), Ok(None));
    assert_eq!(engine.record_change(1, b"a.txt".to_vec(), b"1".to_vec(), 10), Ok(true));
    assert_eq!(engine.flush_now(1), Ok(true));
    assert_eq!(engine.head_index(1), Ok(Some(0)));
    assert_eq!(engine.record_change(1, b"a.txt".to_vec(), b"2".to_vec(), 20), Ok(true));
    assert_eq!(engine.flush_now(1), Ok(true));
    assert_eq!(engine.head_index(1), Ok(Some(1)));
    let entry = &engine.projects[0];
    assert_eq!(entry.commits.len(), 2);
    assert_eq!(entry.commits[0].parent, None);
    assert_eq!(entry.commits[1].parent, Some(0));
}

#[test]
fn unwatch_flushes_the_open_session() {
    let mut engine = watched_engine(1);
    assert_eq!(engine.record_change(1, b"a.txt".to_vec(), b"kept".to_vec(), 10), Ok(true));
    engine.unwatch(1);
    assert_eq!(engine.head_index(1), Ok(Some(0)));
    assert_eq!(engine.read_project_file(1, &b"a.txt".to_vec()), Ok(Some(b"kept".to_vec())));
    // after unwatch the reader sees the stored log of the flushed session
    let log = engine.list_deltas(1).unwrap();
    assert_eq!(deltas_for(&log, b"a.txt").unwrap().len(), 1);
}

#[test]
fn rewatching_resumes_from_the_latest_snapshot() {
    let mut engine = watched_engine(1);
    assert_eq!(engine.record_change(1, b"a.txt".to_vec(), b"hello".to_vec(), 10), Ok(true));
    engine.unwatch(1);
    engine.watch(1);
    // the cache was reseeded from the snapshot: the next delta diffs
    // against "hello", not against empty content
    assert_eq!(
        engine.record_change(1, b"a.txt".to_vec(), b"hello world".to_vec(), 20),
        Ok(true)
    );
    let log = engine.list_deltas(1).unwrap();
    match &deltas_for(&log, b"a.txt").unwrap()[0].operations[0] {
        Operation::Insert { offset, text } => {
            assert_eq!(*offset, 5);
            assert_eq!(text, &b" world".to_vec());
        }
        Operation::Delete { .. } => panic!("expected an insert"),
    }
}

#[test]
fn record_for_unwatched_project_is_refused() {
    let mut engine = watched_engine(1);
    engine.unwatch(1);
    assert_eq!(
        engine.record_change(1, b"a.txt".to_vec(), b"x".to_vec(), 10),
        Err(ErrorKind::ProjectNotFound)
    );
}

#[test]
fn boundary_error_carries_a_message() {
    let e = Error::from_kind(&ErrorKind::ProjectNotFound);
    assert_eq!(e.message, "project not found".to_owned());
    let e = Error::from(String::from("disk on fire"));
    assert_eq!(e.message, "disk on fire".to_owned());
    assert!(Error::from_kind(&ErrorKind::MalformedDeltaLog).message.len() > 0);
    assert!(Error::from_kind(&ErrorKind::TransientIo).message.len() > 0);
    assert!(Error::from_kind(&ErrorKind::RefConflict).message.len() > 0);
    assert!(Error::from_kind(&ErrorKind::ProjectUnreadable).message.len() > 0);
}

#[test]
fn flushed_log_replays_to_the_committed_tree() {
    let mut engine = watched_engine(1);
    assert_eq!(engine.record_change(1, b"a.txt".to_vec(), b"hello".to_vec(), 10), Ok(true));
    assert_eq!(engine.record_change(1, b"b.txt".to_vec(), b"beta".to_vec(), 11), Ok(true));
    assert_eq!(engine.record_change(1, b"a.txt".to_vec(), b"hello world".to_vec(), 12), Ok(true));
    assert_eq!(engine.flush_now(1), Ok(true));
    assert_eq!(engine.record_change(1, b"b.txt".to_vec(), b"be".to_vec(), 20), Ok(true));
    assert_eq!(engine.flush_now(1), Ok(true));

    // replaying the first session's log against the empty parent tree
    // reproduces the first committed tree
    let entry = &engine.projects[0];
    let empty = Tree::new();
    let replayed = replay_onto(&empty, &entry.commits[0].log).unwrap();
    assert_eq!(replayed.get(&b"a.txt".to_vec()), Some(&b"hello world".to_vec()));
    assert_eq!(replayed.get(&b"b.txt".to_vec()), Some(&b"beta".to_vec()));
    assert_eq!(
        entry.commits[0].tree.get(&b"a.txt".to_vec()),
        Some(&b"hello world".to_vec())
    );

    // replaying the second session's log against the first snapshot's
    // tree reproduces the second committed tree
    let replayed = replay_onto(&entry.commits[0].tree, &entry.commits[1].log).unwrap();
    assert_eq!(replayed.get(&b"a.txt".to_vec()), Some(&b"hello world".to_vec()));
    assert_eq!(replayed.get(&b"b.txt".to_vec()), Some(&b"be".to_vec()));
    assert_eq!(entry.commits[1].tree.get(&b"b.txt".to_vec()), Some(&b"be".to_vec()));
}

#[test]
fn replaying_a_deletion_prunes_to_the_committed_tree() {
    let mut engine = watched_engine(1);
    assert_eq!(engine.record_change(1, b"a.txt".to_vec(), b"keep".to_vec(), 10), Ok(true));
    assert_eq!(engine.record_change(1, b"b.txt".to_vec(), b"gone".to_vec(), 11), Ok(true));
    assert_eq!(engine.flush_now(1), Ok(true));
    assert_eq!(engine.record_change(1, b"b.txt".to_vec(), Vec::new(), 20), Ok(true));
    assert_eq!(engine.flush_now(1), Ok(true));

    let entry = &engine.projects[0];
    // replaying the deletion session against the first snapshot ends
    // with b.txt at empty content ...
    let replayed = replay_onto(&entry.commits[0].tree, &entry.commits[1].log).unwrap();
    assert_eq!(replayed.get(&b"b.txt".to_vec()), Some(&Vec::new()));
    assert_eq!(replayed.get(&b"a.txt".to_vec()), Some(&b"keep".to_vec()));
    // ... and pruning that empty entry gives exactly the committed tree,
    // where the deleted file is absent
    let pruned = replayed.pruned();
    assert_eq!(pruned.get(&b"b.txt".to_vec()), None);
    assert_eq!(entry.commits[1].tree.get(&b"b.txt".to_vec()), None);
    assert_eq!(entry.commits[1].tree.get(&b"a.txt".to_vec()), Some(&b"keep".to_vec()));
}

#[test]
fn session_closes_at_the_delta_count_ceiling() {
    let policy =
        FlushPolicy { inactivity_ms: 1_000_000, max_session_ms: 1_000_000_000, max_deltas: 2 };
    let mut engine = Engine::new(policy);
    engine.watch(1);
    assert_eq!(engine.record_change(1, b"a.txt".to_vec(), b"one".to_vec(), 10), Ok(true));
    // one delta recorded: no close condition holds yet
    assert_eq!(engine.maybe_flush(1, 11), Ok(false));
    assert_eq!(engine.record_change(1, b"a.txt".to_vec(), b"two".to_vec(), 12), Ok(true));
    // two deltas reach the ceiling long before any timer
    assert_eq!(engine.maybe_flush(1, 13), Ok(true));
    assert_eq!(engine.head_index(1), Ok(Some(0)));
}


#[test]
fn restore_seeds_the_chain_from_a_given_tree() {
    let mut engine = Engine::new(FlushPolicy::standard());
    let tree = Tree {
        entries: vec![TreeEntry { path: b"a.txt".to_vec(), content: b"hello".to_vec() }],
    };
    assert!(engine.restore(1, tree));
    assert_eq!(engine.head_index(1), Ok(Some(0)));
    assert_eq!(engine.read_project_file(1, &b"a.txt".to_vec()), Ok(Some(b"hello".to_vec())));

    // watching seeds the cache from the restored snapshot, so the next
    // delta diffs against "hello", not against empty content
    engine.watch(1);
    assert_eq!(
        engine.record_change(1, b"a.txt".to_vec(), b"hello world".to_vec(), 10),
        Ok(true)
    );
    let log = engine.list_deltas(1).unwrap();
    match &deltas_for(&log, b"a.txt").unwrap()[0].operations[0] {
        Operation::Insert { offset, text } => {
            assert_eq!(*offset, 5);
            assert_eq!(text, &b" world".to_vec());
        }
        Operation::Delete { .. } => panic!("expected an insert"),
    }

    // restoring a project the engine already knows changes nothing
    let other = Tree { entries: Vec::new() };
    assert!(!engine.restore(1, other));
    assert_eq!(engine.head_index(1), Ok(Some(0)));
    assert_eq!(engine.read_project_file(1, &b"a.txt".to_vec()), Ok(Some(b"hello".to_vec())));
}
