use delta_store::debounce::Debouncer;
use delta_store::debounce::DEBOUNCE_WINDOW_MS;

#[test]
fn burst_of_events_collapses_into_one_settled_read() {
    let mut d = Debouncer::new();
    assert_eq!(DEBOUNCE_WINDOW_MS, 100);
    d.note_event(b"a.txt".to_vec(), 0);
    d.note_event(b"a.txt".to_vec(), 50);
    // the settle clock restarted at 50: not settled at 149
    assert!(!d.is_settled(&b"a.txt".to_vec(), 149));
    assert!(d.is_settled(&b"a.txt".to_vec(), 150));
    let settled = d.settled_paths(150);
    assert_eq!(settled, vec![b"a.txt".to_vec()]);
}

#[test]
fn paths_settle_independently() {
    let mut d = Debouncer::new();
    d.note_event(b"a.txt".to_vec(), 0);
    d.note_event(b"b.txt".to_vec(), 80);
    let settled = d.settled_paths(120);
    assert_eq!(settled, vec![b"a.txt".to_vec()]);
    let settled = d.settled_paths(180);
    assert_eq!(settled.len(), 2);
}

#[test]
fn settle_drops_the_pending_notification() {
    let mut d = Debouncer::new();
    d.note_event(b"a.txt".to_vec(), 0);
    assert!(d.is_settled(&b"a.txt".to_vec(), 500));
    d.settle(&b"a.txt".to_vec());
    assert!(!d.is_settled(&b"a.txt".to_vec(), 500));
    assert_eq!(d.settled_paths(500).len(), 0);
    // settling a path with nothing pending is harmless
    d.settle(&b"a.txt".to_vec());
    assert_eq!(d.pending.len(), 0);
}

#[test]
fn unknown_path_is_never_settled() {
    let d = Debouncer::new();
    assert!(!d.is_settled(&b"ghost.txt".to_vec(), 1_000_000));
}
