use delta_store::diff::diff;
use delta_store::ops::apply_operations;
use delta_store::ops::replay_deltas;
use delta_store::ops::Delta;
use delta_store::ops::Operation;

#[test]
fn diff_equal_contents_is_empty() {
    let old = b"same".to_vec();
    let new = b"same".to_vec();
    assert_eq!(diff(&old, &new).len(), 0);
    let empty_old: Vec<u8> = Vec::new();
    let empty_new: Vec<u8> = Vec::new();
    assert_eq!(diff(&empty_old, &empty_new).len(), 0);
}

#[test]
fn diff_pure_insert_at_end() {
    let old = b"hello".to_vec();
    let new = b"hello world".to_vec();
    let script = diff(&old, &new);
    assert_eq!(script.len(), 1);
    match &script[0] {
        Operation::Insert { offset, text } => {
            assert_eq!(*offset, 5);
            assert_eq!(text, &b" world".to_vec());
        }
        Operation::Delete { .. } => panic!("expected an insert"),
    }
}

#[test]
fn diff_full_deletion_is_single_delete() {
    let old = b"hello".to_vec();
    let new: Vec<u8> = Vec::new();
    let script = diff(&old, &new);
    assert_eq!(script.len(), 1);
    match &script[0] {
        Operation::Delete { offset, length } => {
            assert_eq!(*offset, 0);
            assert_eq!(*length, 5);
        }
        Operation::Insert { .. } => panic!("expected a delete"),
    }
}

#[test]
fn diff_replacement_in_middle() {
    let old = b"abcdef".to_vec();
    let new = b"abXYef".to_vec();
    let script = diff(&old, &new);
    assert_eq!(script.len(), 2);
    match &script[0] {
        Operation::Delete { offset, length } => {
            assert_eq!(*offset, 2);
            assert_eq!(*length, 2);
        }
        Operation::Insert { .. } => panic!("expected a delete first"),
    }
    match &script[1] {
        Operation::Insert { offset, text } => {
            assert_eq!(*offset, 2);
            assert_eq!(text, &b"XY".to_vec());
        }
        Operation::Delete { .. } => panic!("expected an insert second"),
    }
}

#[test]
fn diff_round_trips_through_apply() {
    let cases: Vec<(Vec<u8>, Vec<u8>)> = vec![
        (b"hello".to_vec(), b"hello world".to_vec()),
        (b"hello world".to_vec(), b"hello".to_vec()),
        (b"abcdef".to_vec(), b"abXYef".to_vec()),
        (Vec::new(), b"fresh".to_vec()),
        (b"gone".to_vec(), Vec::new()),
        (b"aaaa".to_vec(), b"aabaa".to_vec()),
    ];
    for (old, new) in cases {
        let script = diff(&old, &new);
        let replayed = apply_operations(old.clone(), &script);
        assert_eq!(replayed, Some(new));
    }
}

#[test]
fn diff_is_deterministic() {
    let old = b"the quick brown fox".to_vec();
    let new = b"the slow brown fox".to_vec();
    let a = diff(&old, &new);
    let b = diff(&old, &new);
    assert_eq!(a.len(), b.len());
    for (x, y) in a.iter().zip(b.iter()) {
        match (x, y) {
            (
                Operation::Insert { offset: o1, text: t1 },
                Operation::Insert { offset: o2, text: t2 },
            ) => {
                assert_eq!(o1, o2);
                assert_eq!(t1, t2);
            }
            (
                Operation::Delete { offset: o1, length: l1 },
                Operation::Delete { offset: o2, length: l2 },
            ) => {
                assert_eq!(o1, o2);
                assert_eq!(l1, l2);
            }
            _ => panic!("scripts disagree"),
        }
    }
}

#[test]
fn apply_rejects_out_of_range_operation() {
    let content = b"abc".to_vec();
    let script = vec![Operation::Delete { offset: 1, length: 5 }];
    assert_eq!(apply_operations(content, &script), None);
}

#[test]
fn replay_deltas_chains_scripts_in_order() {
    let base = b"hello".to_vec();
    let deltas = vec![
        Delta {
            timestamp: 1,
            operations: vec![Operation::Insert { offset: 5, text: b" world".to_vec() }],
        },
        Delta {
            timestamp: 2,
            operations: vec![Operation::Delete { offset: 0, length: 6 }],
        },
    ];
    assert_eq!(replay_deltas(base, &deltas), Some(b"world".to_vec()));
}
