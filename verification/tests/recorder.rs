//! What the recorder shows, and how it takes groups of writes.

use std::sync::Arc;

use merk::error::Error;
use merk::hash::NodeHash;
use merk::mrt::node::{MrtNode, MrtNodeInner};
use merk::mrt::{Checkpoint, Trace, TraceRecorder, TraceReplayer, Tree};
use merk::tracer::{prefix_successor, ReadOp, TraceInterface, TraceReader, WriteOp};

fn build(entries: &[(&[u8], &[u8])]) -> Checkpoint {
    let mut tree = Tree::new();
    for (key, value) in entries {
        tree.put(key.to_vec(), value.to_vec()).unwrap();
    }
    tree.checkpoint()
}

#[test]
fn recorder_reads_match_snapshot_and_record_ops() {
    let snapshot = build(&[(b"a", b"1"), (b"c", b"3"), (b"e", b"5")]);
    let mut recorder = TraceRecorder::new(&snapshot);

    assert_eq!(recorder.get(b"c").unwrap(), Some(b"3".to_vec()));
    assert_eq!(recorder.get(b"b").unwrap(), None);
    assert_eq!(
        recorder.get_range(b"a", b"f").unwrap(),
        snapshot.collect_range(b"a", Some(b"f")).unwrap()
    );
    assert_eq!(
        recorder.get_prefix(b"e").unwrap(),
        snapshot.collect_prefix(b"e").unwrap()
    );

    assert_eq!(
        recorder.reads(),
        &[
            ReadOp::Key(b"c".to_vec()),
            ReadOp::Key(b"b".to_vec()),
            ReadOp::Range {
                start: b"a".to_vec(),
                end: b"f".to_vec(),
            },
            ReadOp::Prefix(b"e".to_vec()),
        ]
    );
}

#[test]
fn recorder_trace_round_trips_through_replayer() {
    let snapshot = build(&[(b"a", b"1"), (b"c", b"3"), (b"e", b"5")]);
    let start = snapshot.root_hash();

    let mut recorder = TraceRecorder::new(&snapshot);
    recorder.get(b"c").unwrap();
    recorder.get_range(b"a", b"z").unwrap();
    let bytes = recorder.finalize_trace().unwrap();

    let mut replayer = TraceReplayer::new_verified(&bytes, start).unwrap();
    assert_eq!(replayer.get(b"c").unwrap(), Some(b"3".to_vec()));
    assert_eq!(
        replayer.get_range(b"a", b"z").unwrap(),
        vec![
            (b"a".to_vec(), b"1".to_vec()),
            (b"c".to_vec(), b"3".to_vec()),
            (b"e".to_vec(), b"5".to_vec()),
        ]
    );
    assert_eq!(replayer.root_hash().unwrap(), start);
}

#[test]
fn empty_recorder_binds_to_start_root() {
    let snapshot = build(&[(b"aaa", b"1"), (b"mmm", b"2"), (b"zzz", b"3")]);
    let start = snapshot.root_hash();

    let recorder = TraceRecorder::new(&snapshot);
    assert!(recorder.reads().is_empty());
    let bytes = recorder.finalize_trace().unwrap();
    assert!(TraceReplayer::new_verified(&bytes, start).is_ok());
}

#[test]
fn recorder_is_object_safe() {
    let snapshot = build(&[(b"a", b"1")]);
    let mut recorder = TraceRecorder::new(&snapshot);
    let reader: &mut dyn TraceReader = &mut recorder;
    assert_eq!(reader.get(b"a").unwrap(), Some(b"1".to_vec()));
}

#[test]
fn recorder_sequenced_writes_round_trip_through_replayer() {
    let snapshot = build(&[
        (b"aa", b"1"),
        (b"bb", b"2"),
        (b"cc", b"3"),
        (b"user:1", b"u1"),
        (b"user:2", b"u2"),
        (b"zz", b"z"),
    ]);
    let start = snapshot.root_hash();

    let mut expected = Tree::new();
    expected.restore(Some(snapshot.clone()));
    expected.put(b"dd".to_vec(), b"4".to_vec()).unwrap();
    expected.delete(b"aa".to_vec()).unwrap();
    expected.delete_range(b"b".to_vec(), b"d".to_vec()).unwrap();
    expected
        .delete_range(b"user:".to_vec(), prefix_successor(b"user:").unwrap())
        .unwrap();
    expected.put(b"acct:3".to_vec(), b"3".to_vec()).unwrap();
    expected
        .move_prefix(b"acct:".to_vec(), b"arch:".to_vec())
        .unwrap();

    let mut recorder = TraceRecorder::new(&snapshot);
    recorder.put(b"dd", b"4").unwrap();
    assert_eq!(recorder.get(b"dd").unwrap(), Some(b"4".to_vec()));
    recorder.delete(b"aa").unwrap();
    assert_eq!(recorder.get(b"aa").unwrap(), None);
    recorder.delete_range(b"b", b"d").unwrap();
    assert!(recorder.get_range(b"b", b"d").unwrap().is_empty());
    recorder.delete_prefix(b"user:").unwrap();
    assert!(recorder.get_prefix(b"user:").unwrap().is_empty());
    recorder.put(b"acct:3", b"3").unwrap();
    recorder.move_prefix(b"acct:", b"arch:").unwrap();
    assert_eq!(recorder.get(b"acct:3").unwrap(), None);
    assert_eq!(recorder.get(b"arch:3").unwrap(), Some(b"3".to_vec()));

    let bytes = recorder.finalize_trace().unwrap();
    let mut replayer = TraceReplayer::new_verified(&bytes, start).unwrap();
    replayer.put(b"dd", b"4").unwrap();
    assert_eq!(replayer.get(b"dd").unwrap(), Some(b"4".to_vec()));
    replayer.delete(b"aa").unwrap();
    assert_eq!(replayer.get(b"aa").unwrap(), None);
    replayer.delete_range(b"b", b"d").unwrap();
    assert!(replayer.get_range(b"b", b"d").unwrap().is_empty());
    replayer.delete_prefix(b"user:").unwrap();
    assert!(replayer.get_prefix(b"user:").unwrap().is_empty());
    replayer.put(b"acct:3", b"3").unwrap();
    replayer.move_prefix(b"acct:", b"arch:").unwrap();
    assert_eq!(replayer.get(b"acct:3").unwrap(), None);
    assert_eq!(replayer.get(b"arch:3").unwrap(), Some(b"3".to_vec()));

    assert_eq!(replayer.root_hash().unwrap(), expected.root_hash());
}

#[test]
fn recorder_delete_prefix_handles_no_successor_prefix() {
    let snapshot = build(&[
        (&[0xfe][..], b"before".as_slice()),
        (&[0xff, 0x00][..], b"first".as_slice()),
        (&[0xff, 0x10][..], b"second".as_slice()),
    ]);
    let start = snapshot.root_hash();
    let expected = build(&[(&[0xfe][..], b"before".as_slice())]).root_hash();

    let mut recorder = TraceRecorder::new(&snapshot);
    recorder.delete_prefix(&[0xff]).unwrap();
    assert!(recorder.get_prefix(&[0xff]).unwrap().is_empty());
    let bytes = recorder.finalize_trace().unwrap();

    let mut replayer = TraceReplayer::new_verified(&bytes, start).unwrap();
    replayer.delete_prefix(&[0xff]).unwrap();
    assert!(replayer.get_prefix(&[0xff]).unwrap().is_empty());
    assert_eq!(replayer.root_hash().unwrap(), expected);
}

#[test]
fn recorder_write_errors_use_expected_buckets() {
    let snapshot = build(&[(b"ab", b"1")]);
    let mut recorder = TraceRecorder::new(&snapshot);
    assert!(matches!(recorder.put(b"a", b"x"), Err(Error::Key(_))));
    let mut recorder = TraceRecorder::new(&snapshot);
    assert!(matches!(
        recorder.delete_range(b"z", b"a"),
        Err(Error::BatchKey(_))
    ));

    let bytes = TraceRecorder::new(&snapshot).finalize_trace().unwrap();
    let start = snapshot.root_hash();
    let mut replayer = TraceReplayer::new_verified(&bytes, start).unwrap();
    assert!(matches!(replayer.put(b"a", b"x"), Err(Error::Key(_))));
    let mut replayer = TraceReplayer::new_verified(&bytes, start).unwrap();
    assert!(matches!(
        replayer.delete_range(b"z", b"a"),
        Err(Error::BatchKey(_))
    ));
}

fn recorder_generic_write<T: TraceInterface>(handle: &mut T) -> Option<Vec<u8>> {
    handle.put(b"k", b"v1").unwrap();
    handle.delete(b"k").unwrap();
    handle.put(b"k", b"v2").unwrap();
    handle.get(b"k").unwrap()
}

#[test]
fn recorder_trace_interface_object_and_generic_paths_run() {
    let snapshot = build(&[]);
    let mut object_recorder = TraceRecorder::new(&snapshot);
    let handle: &mut dyn TraceInterface = &mut object_recorder;
    handle.put(b"a", b"1").unwrap();
    assert_eq!(handle.get(b"a").unwrap(), Some(b"1".to_vec()));
    handle.delete_prefix(b"a").unwrap();
    assert_eq!(handle.get(b"a").unwrap(), None);

    let mut generic_recorder = TraceRecorder::new(&snapshot);
    assert_eq!(
        recorder_generic_write(&mut generic_recorder),
        Some(b"v2".to_vec())
    );
}

fn drive_apply_and_reads(
    snapshot: &Checkpoint,
    apply_calls: &[&[WriteOp]],
    read_keys: &[&[u8]],
) -> (NodeHash, Vec<Option<Vec<u8>>>) {
    let start = snapshot.root_hash();

    let mut recorder = TraceRecorder::new(snapshot);
    for call in apply_calls {
        recorder.apply(call).unwrap();
    }
    let recorder_reads: Vec<Option<Vec<u8>>> =
        read_keys.iter().map(|k| recorder.get(k).unwrap()).collect();
    let bytes = recorder.finalize_trace().unwrap();

    let mut replayer = TraceReplayer::new_verified(&bytes, start).unwrap();
    for call in apply_calls {
        replayer.apply(call).unwrap();
    }
    let replayer_reads: Vec<Option<Vec<u8>>> =
        read_keys.iter().map(|k| replayer.get(k).unwrap()).collect();
    let root = replayer.root_hash().unwrap();

    assert_eq!(
        recorder_reads, replayer_reads,
        "recorder and replayer disagree on reads"
    );
    (root, recorder_reads)
}

fn apply_batch_then_read(
    snapshot: &Checkpoint,
    ops: &[WriteOp],
    read_keys: &[&[u8]],
) -> Vec<Option<Vec<u8>>> {
    drive_apply_and_reads(snapshot, &[ops], read_keys).1
}

fn put(key: &[u8], value: &[u8]) -> WriteOp {
    WriteOp::Put {
        key: key.to_vec(),
        value: value.to_vec(),
    }
}

#[test]
fn apply_conflict_put_put_keeps_last() {
    let snap = build(&[(b"aa", b"1"), (b"zz", b"26")]);
    let got = apply_batch_then_read(&snap, &[put(b"kk", b"a"), put(b"kk", b"b")], &[b"kk"]);
    assert_eq!(got, vec![Some(b"b".to_vec())]);
}

#[test]
fn apply_conflict_put_delete_is_absent() {
    let snap = build(&[(b"aa", b"1"), (b"zz", b"26")]);
    let got = apply_batch_then_read(
        &snap,
        &[
            put(b"kk", b"a"),
            WriteOp::Delete {
                key: b"kk".to_vec(),
            },
        ],
        &[b"kk"],
    );
    assert_eq!(got, vec![None]);
}

#[test]
fn apply_conflict_delete_range_then_put_in_range_keeps_put() {
    let snap = build(&[(b"aa", b"1"), (b"mm", b"13"), (b"zz", b"26")]);
    let ops = vec![
        WriteOp::DeleteRange {
            start: b"aa".to_vec(),
            end: b"nn".to_vec(),
        },
        put(b"mm", b"a"),
    ];
    let got = apply_batch_then_read(&snap, &ops, &[b"mm"]);
    assert_eq!(got, vec![Some(b"a".to_vec())]);
}

#[test]
fn apply_conflict_put_then_delete_range_over_it_is_absent() {
    let snap = build(&[(b"aa", b"1"), (b"zz", b"26")]);
    let ops = vec![
        put(b"mm", b"a"),
        WriteOp::DeleteRange {
            start: b"aa".to_vec(),
            end: b"nn".to_vec(),
        },
    ];
    let got = apply_batch_then_read(&snap, &ops, &[b"mm"]);
    assert_eq!(got, vec![None]);
}

#[test]
fn apply_conflict_put_then_delete_prefix_is_absent() {
    let snap = build(&[(b"aa", b"1"), (b"zz", b"26")]);
    let ops = vec![
        put(b"pre_k", b"a"),
        WriteOp::DeletePrefix {
            prefix: b"pre_".to_vec(),
        },
    ];
    let got = apply_batch_then_read(&snap, &ops, &[b"pre_k"]);
    assert_eq!(got, vec![None]);
}

#[test]
fn apply_conflict_delete_prefix_then_put_keeps_put() {
    let snap = build(&[(b"pre_a", b"1"), (b"pre_b", b"2"), (b"zz", b"26")]);
    let ops = vec![
        WriteOp::DeletePrefix {
            prefix: b"pre_".to_vec(),
        },
        put(b"pre_k", b"a"),
    ];
    let got = apply_batch_then_read(&snap, &ops, &[b"pre_k", b"pre_a"]);
    assert_eq!(got, vec![Some(b"a".to_vec()), None]);
}

#[test]
fn apply_conflict_put_under_from_is_moved() {
    let snap = build(&[(b"user:a", b"1"), (b"zz", b"26")]);
    let ops = vec![
        put(b"user:new", b"a"),
        WriteOp::MovePrefix {
            from: b"user:".to_vec(),
            to: b"acct:".to_vec(),
        },
    ];
    let got = apply_batch_then_read(&snap, &ops, &[b"acct:new", b"user:new"]);
    assert_eq!(got, vec![Some(b"a".to_vec()), None]);
}

#[test]
fn apply_move_prefix_overwrites_destination() {
    let snap = build(&[(b"user:a", b"1"), (b"zz", b"26")]);
    let mut recorder = TraceRecorder::new(&snap);
    recorder
        .apply(&[
            put(b"acct:x", b"a"),
            WriteOp::MovePrefix {
                from: b"user:".to_vec(),
                to: b"acct:".to_vec(),
            },
        ])
        .unwrap();
    assert_eq!(recorder.get(b"acct:a").unwrap(), Some(b"1".to_vec()));
    assert_eq!(recorder.get(b"acct:x").unwrap(), None);
    assert_eq!(recorder.get(b"user:a").unwrap(), None);
    assert_eq!(recorder.get(b"zz").unwrap(), Some(b"26".to_vec()));
    assert!(recorder.finalize_trace().is_ok());
}

#[test]
fn apply_delete_prefix_0xff_clears_the_whole_span() {
    let snap = build(&[
        (&[0xfe, 0x00][..], b"keep".as_slice()),
        (&[0xff, 0x00][..], b"a".as_slice()),
        (&[0xff, 0x80][..], b"b".as_slice()),
        (&[0xff, 0xff][..], b"c".as_slice()),
    ]);
    let start = snap.root_hash();
    let ops = [WriteOp::DeletePrefix { prefix: vec![0xff] }];

    let mut recorder = TraceRecorder::new(&snap);
    recorder.apply(&ops).unwrap();
    assert!(recorder.get_prefix(&[0xff]).unwrap().is_empty());
    assert_eq!(recorder.get(&[0xfe, 0x00]).unwrap(), Some(b"keep".to_vec()));
    let bytes = recorder.finalize_trace().unwrap();

    let mut replayer = TraceReplayer::new_verified(&bytes, start).unwrap();
    replayer.apply(&ops).unwrap();
    assert!(replayer.get_prefix(&[0xff]).unwrap().is_empty());
    assert_eq!(replayer.get(&[0xfe, 0x00]).unwrap(), Some(b"keep".to_vec()));

    let expected = build(&[(&[0xfe, 0x00][..], b"keep".as_slice())]).root_hash();
    assert_eq!(replayer.root_hash().unwrap(), expected);
}

#[test]
fn apply_empty_batch_is_a_noop() {
    let snap = build(&[(b"aa", b"1"), (b"cc", b"3")]);
    let start = snap.root_hash();

    let mut recorder = TraceRecorder::new(&snap);
    recorder.apply(&[]).unwrap();
    let bytes = recorder.finalize_trace().unwrap();

    let mut replayer = TraceReplayer::new_verified(&bytes, start).unwrap();
    replayer.apply(&[]).unwrap();
    assert_eq!(replayer.root_hash().unwrap(), start);
}

#[test]
fn apply_batch_equivalent_to_individual_calls() {
    let snap = build(&[
        (b"aa", b"1"),
        (b"bb", b"2"),
        (b"cc", b"3"),
        (b"user:1", b"u1"),
        (b"user:2", b"u2"),
        (b"zz", b"z"),
    ]);
    let ops = vec![
        put(b"dd", b"4"),
        WriteOp::Delete {
            key: b"aa".to_vec(),
        },
        WriteOp::DeleteRange {
            start: b"b".to_vec(),
            end: b"d".to_vec(),
        },
        WriteOp::DeletePrefix {
            prefix: b"user:".to_vec(),
        },
        put(b"acct:3", b"3"),
        WriteOp::MovePrefix {
            from: b"acct:".to_vec(),
            to: b"arch:".to_vec(),
        },
    ];
    let read_keys: &[&[u8]] = &[b"dd", b"aa", b"arch:3", b"acct:3"];

    let (batch_root, batch_reads) = drive_apply_and_reads(&snap, &[&ops], read_keys);
    let individual: Vec<&[WriteOp]> = ops.iter().map(std::slice::from_ref).collect();
    let (indiv_root, indiv_reads) = drive_apply_and_reads(&snap, &individual, read_keys);

    assert_eq!(batch_root, indiv_root);
    assert_eq!(batch_reads, indiv_reads);

    let mut oracle = Tree::new();
    oracle.restore(Some(snap.clone()));
    oracle.put(b"dd".to_vec(), b"4".to_vec()).unwrap();
    oracle.delete(b"aa".to_vec()).unwrap();
    oracle.delete_range(b"b".to_vec(), b"d".to_vec()).unwrap();
    oracle
        .delete_range(b"user:".to_vec(), prefix_successor(b"user:").unwrap())
        .unwrap();
    oracle.put(b"acct:3".to_vec(), b"3".to_vec()).unwrap();
    oracle
        .move_prefix(b"acct:".to_vec(), b"arch:".to_vec())
        .unwrap();
    assert_eq!(batch_root, oracle.root_hash());
}

#[test]
fn apply_failure_poisons_mrt_recorder() {
    let snap = build(&[(b"user:a", b"1"), (b"zz", b"26")]);
    let mut recorder = TraceRecorder::new(&snap);
    recorder.get(b"user:a").unwrap();

    let err = recorder
        .apply(&[
            put(b"acct:x", b"a"),
            WriteOp::MovePrefix {
                from: b"user:".to_vec(),
                to: b"user:".to_vec(),
            },
        ])
        .unwrap_err();
    assert!(matches!(err, Error::Key(_)));

    assert!(matches!(recorder.get(b"user:a"), Err(Error::Poisoned(_))));
    assert!(matches!(
        recorder.apply(&[put(b"xx", b"x")]),
        Err(Error::Poisoned(_))
    ));
    assert_eq!(recorder.reads(), &[ReadOp::Key(b"user:a".to_vec())]);
    assert!(matches!(recorder.finalize_trace(), Err(Error::Poisoned(_))));
}

fn revealed_below(node: &Arc<MrtNodeInner>) -> usize {
    match node.node() {
        MrtNode::PrunedHash => 0,
        MrtNode::Leaf { .. } => 1,
        MrtNode::Branch { left, right, .. } => 1 + revealed_below(left) + revealed_below(right),
    }
}

fn apply_node_visits(m: usize) -> usize {
    let mut merk = Tree::new();
    for i in 0..m {
        merk.put(format!("{i:08}").into_bytes(), b"v".to_vec())
            .unwrap();
    }
    let snapshot = merk.checkpoint();
    let ops: Vec<WriteOp> = (0..8)
        .map(|i| put(format!("{i:08}").as_bytes(), b"v2"))
        .collect();

    let mut recorder = TraceRecorder::new(&snapshot);
    recorder.apply(&ops).unwrap();
    let trace = Trace::decode_exact(&recorder.finalize_trace().unwrap()).unwrap();
    trace.0.as_ref().map_or(0, revealed_below)
}

#[test]
fn apply_visits_scale_with_path_not_tree_size() {
    let small = apply_node_visits(1000);
    let large = apply_node_visits(4000);
    assert!(
        large <= small * 2,
        "apply node visits scaled with tree size, not accessed path: \
         {} at n=1000 -> {} at n=4000 (O(n^2) regression?)",
        small,
        large
    );
    assert!(
        large < 1000,
        "expected ~path-bounded node visits, got {} for n=4000",
        large
    );
}
