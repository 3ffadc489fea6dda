//! Sessions of reads and writes, recorded and replayed, held against a map of the entries.

use std::collections::{BTreeMap, BTreeSet};
use std::ops::RangeInclusive;
use std::sync::Arc;

use merk::error::Error;
use merk::hash::{NodeHash, NULL_HASH};
use merk::mrt::node::{MrtNode, MrtNodeInner};
use merk::mrt::prefix::move_prefix;
use merk::mrt::route::MAX_KEY_LEN;
use merk::mrt::store::validate_batch_ops;
use merk::mrt::{
    verify_query as verify_mrt_query, Checkpoint, GetResult, Trace, TraceRecorder, TraceVerifier,
    Tree,
};
use merk::ops::Op;
use merk::proofs::query::{Query, QueryItem};
use merk::tracer::{BatchOp, ReadOp, TraceInterface, TraceReader, WriteOp};
use rand::rngs::SmallRng;
use rand::{Rng, RngCore, SeedableRng};

type Model = BTreeMap<Vec<u8>, Vec<u8>>;
type KeySet = Vec<Vec<u8>>;
type Entries = Vec<(Vec<u8>, Vec<u8>)>;

/// One step of a recorded session.
#[derive(Clone, Debug)]
enum Step {
    Read(Vec<ReadOp>),
    Write(Vec<BatchOp>),
    MovePrefix { from: Vec<u8>, to: Vec<u8> },
}

/// A read, and what it gave.
#[derive(Clone, Debug, PartialEq, Eq)]
struct ProvenRead {
    op: ReadOp,
    results: Vec<(Vec<u8>, Vec<u8>)>,
}

fn write_ops(ops: &[BatchOp]) -> Vec<WriteOp> {
    ops.iter()
        .map(|op| match op {
            BatchOp::Put { key, value } => WriteOp::Put {
                key: key.clone(),
                value: value.clone(),
            },
            BatchOp::Delete { key } => WriteOp::Delete { key: key.clone() },
            BatchOp::DeleteRange { start, end } => WriteOp::DeleteRange {
                start: start.clone(),
                end: end.clone(),
            },
        })
        .collect()
}

/// Records the steps on a snapshot, and gives the trace that they leave.
fn create_trace(snapshot: &Checkpoint, steps: &[Step]) -> Result<Trace, Error> {
    let mut recorder = TraceRecorder::new(snapshot);
    for step in steps {
        match step {
            Step::Read(reads) => {
                for op in reads {
                    match op {
                        ReadOp::Key(key) => {
                            recorder.get(key)?;
                        }
                        ReadOp::Range { start, end } => {
                            recorder.get_range(start, end)?;
                        }
                        ReadOp::Prefix(prefix) => {
                            recorder.get_prefix(prefix)?;
                        }
                    }
                }
            }
            Step::Write(ops) => {
                validate_batch_ops(ops)?;
                recorder.apply(&write_ops(ops))?;
            }
            Step::MovePrefix { from, to } => recorder.move_prefix(from, to)?,
        }
    }
    Trace::decode_exact(&recorder.finalize_trace()?)
}

/// The root hash after the writes among the steps.
fn root_after_writes(snapshot: &Checkpoint, steps: &[Step]) -> NodeHash {
    let mut tree = Tree::new();
    tree.restore(Some(snapshot.clone()));
    for step in steps {
        match step {
            Step::Read(_) => {}
            Step::Write(ops) => tree.apply_write_ops(&write_ops(ops)).unwrap(),
            Step::MovePrefix { from, to } => tree.move_prefix(from.clone(), to.clone()).unwrap(),
        }
    }
    tree.root_hash()
}

/// Replays the steps on a trace between two root hashes, and gives what the reads found.
fn replay_trace(
    trace: &Trace,
    start: NodeHash,
    steps: &[Step],
    end: NodeHash,
) -> Result<Vec<Vec<ProvenRead>>, Error> {
    let mut verifier = TraceVerifier::from_trace(trace);
    verifier.verify_root(start)?;
    let mut out = Vec::new();
    for step in steps {
        match step {
            Step::Read(reads) => {
                let mut found = Vec::new();
                for op in reads {
                    let results = match op {
                        ReadOp::Key(key) => verifier
                            .get(key)?
                            .map(|value| vec![(key.clone(), value)])
                            .unwrap_or_default(),
                        ReadOp::Range { start, end } => verifier.collect_range(start, Some(end))?,
                        ReadOp::Prefix(prefix) => verifier.collect_prefix(prefix)?,
                    };
                    found.push(ProvenRead { op: op.clone(), results });
                }
                out.push(found);
            }
            Step::Write(ops) => verifier.replay_batch_ops_in_place(ops)?,
            Step::MovePrefix { from, to } => verifier.move_prefix_in_place(from, to)?,
        }
    }
    verifier.verify_root(end)?;
    Ok(out)
}

fn put(key: impl Into<Vec<u8>>, value: impl Into<Vec<u8>>) -> BatchOp {
    BatchOp::Put {
        key: key.into(),
        value: value.into(),
    }
}

fn delete(key: impl Into<Vec<u8>>) -> BatchOp {
    BatchOp::Delete { key: key.into() }
}

fn delete_range(start: impl Into<Vec<u8>>, end: impl Into<Vec<u8>>) -> BatchOp {
    BatchOp::DeleteRange {
        start: start.into(),
        end: end.into(),
    }
}

fn build_mrt(entries: &[(Vec<u8>, Vec<u8>)]) -> Tree {
    let mut merk = Tree::new();
    if !entries.is_empty() {
        let batch: Vec<_> = entries
            .iter()
            .map(|(key, value)| (key.clone(), Op::Put(value.clone())))
            .collect();
        merk.apply_sorted_batch_ops(&batch).unwrap();
    }
    merk
}

#[test]
fn create_trace_then_replay_roundtrips_mixed_transcript() {
    let mrt = build_mrt(&[
        (b"aa".to_vec(), b"1".to_vec()),
        (b"ab".to_vec(), b"2".to_vec()),
        (b"zz".to_vec(), b"3".to_vec()),
    ]);
    let snapshot = mrt.checkpoint();
    let steps = vec![
        Step::Read(vec![ReadOp::Key(b"aa".to_vec())]),
        Step::Write(vec![BatchOp::Put {
            key: b"ac".to_vec(),
            value: b"9".to_vec(),
        }]),
        Step::MovePrefix {
            from: b"z".to_vec(),
            to: b"y".to_vec(),
        },
    ];
    let trace = create_trace(&snapshot, &steps).unwrap();
    let start = snapshot.root_hash();
    let end = root_after_writes(&snapshot, &steps);
    replay_trace(&trace, start, &steps, end).unwrap();
}

fn model_from_entries(entries: &[(Vec<u8>, Vec<u8>)]) -> Model {
    entries.iter().cloned().collect()
}

fn mrt_entries(snapshot: &Checkpoint) -> Vec<(Vec<u8>, Vec<u8>)> {
    snapshot.iter().collect()
}

fn assert_live_state(model: &Model, mrt: &Tree) {
    let mrt_snapshot = mrt.checkpoint();
    assert_eq!(model_entries(model), mrt_entries(&mrt_snapshot));

    for (key, value) in mrt_snapshot.iter().collect() {
        assert_eq!(model.get(&key), Some(&value), "model get({key:?})");
        assert_eq!(mrt.get(&key), Some(value), "MRT get({key:?})");
    }
}

fn apply_writes_to_live(mrt: &mut Tree, steps: &[Step]) {
    for step in steps {
        if let Step::Write(ops) = step {
            mrt.apply_write_ops(&write_ops(ops)).unwrap();
        }
    }
}

fn apply_writes_to_model(model: &mut Model, ops: &[BatchOp]) {
    for op in ops {
        match op {
            BatchOp::Put { key, value } => {
                model.insert(key.clone(), value.clone());
            }
            BatchOp::Delete { key } => {
                model.remove(key);
            }
            BatchOp::DeleteRange { start, end } => {
                let keys: Vec<_> = model
                    .range(start.clone()..end.clone())
                    .map(|(key, _)| key.clone())
                    .collect();
                for key in keys {
                    model.remove(&key);
                }
            }
        }
    }
}

fn model_read(model: &Model, op: &ReadOp) -> Vec<(Vec<u8>, Vec<u8>)> {
    match op {
        ReadOp::Key(key) => model
            .get(key)
            .map(|value| vec![(key.clone(), value.clone())])
            .unwrap_or_default(),
        ReadOp::Range { start, end } => model
            .range(start.clone()..end.clone())
            .map(|(key, value)| (key.clone(), value.clone()))
            .collect(),
        ReadOp::Prefix(prefix) => model
            .iter()
            .filter(|(key, _)| key.starts_with(prefix))
            .map(|(key, value)| (key.clone(), value.clone()))
            .collect(),
    }
}

fn apply_move_prefix_to_model(model: &mut Model, from: &[u8], to: &[u8]) {
    let moved: Vec<_> = model
        .keys()
        .filter(|key| key.starts_with(from))
        .cloned()
        .collect();
    let moved_kv: Vec<(Vec<u8>, Vec<u8>)> = moved
        .into_iter()
        .map(|key| {
            let value = model.remove(&key).expect("key just collected");
            (key, value)
        })
        .collect();
    let dst: Vec<_> = model
        .keys()
        .filter(|key| key.starts_with(to))
        .cloned()
        .collect();
    for key in dst {
        model.remove(&key);
    }
    for (key, value) in moved_kv {
        let mut new_key = to.to_vec();
        new_key.extend_from_slice(&key[from.len()..]);
        model.insert(new_key, value);
    }
}

fn model_move_prefix(model: &Model, from: &[u8], to: &[u8]) -> Option<Model> {
    if from.len() > MAX_KEY_LEN || to.len() > MAX_KEY_LEN || from == to {
        return None;
    }
    let deepest_moved_len = model
        .keys()
        .filter(|key| key.starts_with(from))
        .map(|key| to.len() + key.len() - from.len())
        .max();
    let Some(deepest_moved_len) = deepest_moved_len else {
        return None;
    };
    if deepest_moved_len > MAX_KEY_LEN {
        return None;
    }
    for key in model.keys() {
        if key.starts_with(from) {
            continue;
        }
        if to.starts_with(key.as_slice()) && key.len() < to.len() {
            return None;
        }
    }
    let mut out = model.clone();
    apply_move_prefix_to_model(&mut out, from, to);
    Some(out)
}

fn expected_reads(mut model: Model, steps: &[Step]) -> Vec<Vec<ProvenRead>> {
    let mut out = Vec::new();
    for step in steps {
        match step {
            Step::Read(reads) => {
                out.push(
                    reads
                        .iter()
                        .map(|op| ProvenRead {
                            op: op.clone(),
                            results: model_read(&model, op),
                        })
                        .collect(),
                );
            }
            Step::Write(ops) => apply_writes_to_model(&mut model, ops),
            Step::MovePrefix { from, to } => apply_move_prefix_to_model(&mut model, from, to),
        }
    }
    out
}

fn assert_tracer_transcript(entries: &[(Vec<u8>, Vec<u8>)], steps: &[Step]) {
    let start_model = model_from_entries(entries);
    let mrt = build_mrt(entries);
    let mrt_snapshot = mrt.checkpoint();

    let mrt_trace = create_trace(&mrt_snapshot, steps).unwrap();

    let mrt_start = mrt_snapshot.root_hash();
    let mrt_end = root_after_writes(&mrt_snapshot, steps);

    let mrt_reads = replay_trace(&mrt_trace, mrt_start, steps, mrt_end).unwrap();
    assert_eq!(mrt_reads, expected_reads(start_model, steps));

    let mut mrt_live = build_mrt(entries);
    apply_writes_to_live(&mut mrt_live, steps);
    assert_eq!(mrt_end, mrt_live.root_hash());
    assert_live_state(&final_model(entries, steps), &mrt_live);

    assert_mrt_trace_roundtrips(&mrt_trace, mrt_start);

    let mut bad_mrt_end = mrt_end;
    bad_mrt_end[0] ^= 0x80;
    assert!(replay_trace(&mrt_trace, mrt_start, steps, bad_mrt_end).is_err());
}

fn assert_mrt_trace_roundtrips(trace: &Trace, expected_root: NodeHash) {
    let decoded = Trace::decode_exact(&trace.encode().unwrap()).unwrap();
    decoded.verify_root(expected_root).unwrap();
}

fn revealed_below(node: &Arc<MrtNodeInner>) -> usize {
    match node.node() {
        MrtNode::PrunedHash => 0,
        MrtNode::Leaf { .. } => 1,
        MrtNode::Branch { left, right, .. } => 1 + revealed_below(left) + revealed_below(right),
    }
}

fn count_revealed_mrt(trace: &Trace) -> usize {
    trace.0.as_ref().map_or(0, revealed_below)
}

fn normalize_query_items(query: Vec<QueryItem>) -> Vec<QueryItem> {
    let mut normalized = Query::new();
    for item in query {
        normalized.insert_item(item);
    }
    normalized.into()
}

fn assert_query_proof_matches(model: &Model, mrt: &Tree, query_items: Vec<QueryItem>) {
    let query = Query::from(query_items.clone());
    let expected: Entries = model
        .iter()
        .filter(|(key, _)| query_items.iter().any(|item| item.contains(key)))
        .map(|(key, value)| (key.clone(), value.clone()))
        .collect();
    let proof = mrt.prove(query_items).unwrap();
    assert_eq!(
        verify_mrt_query(&proof, &query, mrt.root_hash()).unwrap(),
        expected
    );
}

#[test]
fn mrt_snapshot_public_read_helpers_report_results() {
    let mrt = build_mrt(&[
        (b"aa".to_vec(), b"1".to_vec()),
        (b"ab".to_vec(), b"2".to_vec()),
        (b"b".to_vec(), b"3".to_vec()),
        (b"c".to_vec(), b"4".to_vec()),
    ]);
    let snapshot = mrt.checkpoint();

    match snapshot.get_result(b"aa").unwrap() {
        GetResult::Found(value) => assert_eq!(value, b"1".to_vec()),
        other => panic!("unexpected get_result for aa: {:?}", other),
    }
    assert!(matches!(
        snapshot.get_result(b"z").unwrap(),
        GetResult::NotFound
    ));
    assert_eq!(
        snapshot.collect_range(b"a", Some(b"c")).unwrap(),
        vec![
            (b"aa".to_vec(), b"1".to_vec()),
            (b"ab".to_vec(), b"2".to_vec()),
            (b"b".to_vec(), b"3".to_vec())
        ]
    );
    assert_eq!(
        snapshot.collect_prefix(b"a").unwrap(),
        vec![
            (b"aa".to_vec(), b"1".to_vec()),
            (b"ab".to_vec(), b"2".to_vec())
        ]
    );
}

#[test]
fn non_empty_avl_and_mrt_snapshots_share_basic_read_surface() {
    let entries = [
        (b"aa".to_vec(), b"1".to_vec()),
        (b"ab".to_vec(), b"2".to_vec()),
        (b"b".to_vec(), b"3".to_vec()),
        (b"c".to_vec(), b"4".to_vec()),
    ];
    let model = model_from_entries(&entries);
    let mrt = build_mrt(&entries);
    let mrt_snapshot = mrt.checkpoint();

    assert_eq!(mrt_snapshot.root_hash(), mrt.root_hash());
    assert_eq!(
        GetResult::Found(model[b"ab".as_slice()].clone()),
        mrt_snapshot.get_result(b"ab").unwrap()
    );
    assert_eq!(
        model_read(
            &model,
            &ReadOp::Range {
                start: b"a".to_vec(),
                end: b"c".to_vec(),
            }
        ),
        mrt_snapshot.collect_range(b"a", Some(b"c")).unwrap()
    );
    assert_eq!(
        model_read(&model, &ReadOp::Prefix(b"a".to_vec())),
        mrt_snapshot.collect_prefix(b"a").unwrap()
    );

    let query_items = vec![
        QueryItem::Key(b"ab".to_vec()),
        QueryItem::Range(b"a".to_vec()..b"c".to_vec()),
    ];
    let query = Query::from(query_items.clone());
    let mrt_proof = mrt_snapshot.prove(query_items.clone()).unwrap();
    assert_eq!(
        entries[..3].to_vec(),
        verify_mrt_query(&mrt_proof, &query, mrt_snapshot.root_hash()).unwrap()
    );
    assert_query_proof_matches(&model, &mrt, query_items);
}

#[test]
fn cross_backend_public_api_and_proofs_align() {
    let mut model = Model::new();
    let mut mrt = Tree::new();
    assert_eq!(mrt.root_hash(), NULL_HASH);
    assert!(mrt.checkpoint().is_empty());

    model.insert(b"a".to_vec(), b"1".to_vec());
    mrt.put(b"a".to_vec(), b"1".to_vec()).unwrap();
    model.insert(b"c".to_vec(), b"3".to_vec());
    mrt.apply_sorted_batch_ops_owned(vec![(b"c".to_vec(), Op::Put(b"3".to_vec()))])
        .unwrap();
    assert_live_state(&model, &mrt);
    assert_ne!(mrt.root_hash(), NULL_HASH);

    let mrt_snapshot = mrt.checkpoint();
    assert_eq!(model_entries(&model), mrt_entries(&mrt_snapshot));

    model.insert(b"b".to_vec(), b"2".to_vec());
    mrt.put(b"b".to_vec(), b"2".to_vec()).unwrap();
    model.remove(b"a".as_slice());
    mrt.delete(b"a".to_vec()).unwrap();
    assert_live_state(&model, &mrt);
    assert_eq!(
        mrt_entries(&mrt_snapshot),
        vec![
            (b"a".to_vec(), b"1".to_vec()),
            (b"c".to_vec(), b"3".to_vec())
        ]
    );

    model.retain(|key, _| key.as_slice() < b"b".as_slice() || key.as_slice() >= b"d".as_slice());
    mrt.delete_range(b"b".to_vec(), b"d".to_vec()).unwrap();
    assert_live_state(&model, &mrt);
    assert!(model.is_empty());
    assert!(mrt.checkpoint().is_empty());

    let entries = [
        (b"a".to_vec(), b"1".to_vec()),
        (b"b".to_vec(), b"2".to_vec()),
        (b"c".to_vec(), b"3".to_vec()),
    ];
    let mrt = build_mrt(&entries);
    assert_query_proof_matches(
        &model_from_entries(&entries),
        &mrt,
        vec![
            QueryItem::Key(b"b".to_vec()),
            QueryItem::Key(b"z".to_vec()),
            QueryItem::Range(b"a".to_vec()..b"d".to_vec()),
        ],
    );
}

#[test]
fn tracer_scenario_regressions() {
    let large = vec![7u8; 64];
    let cases = vec![
        (
            vec![
                (b"alpha".to_vec(), b"a".to_vec()),
                (b"bravo".to_vec(), b"b".to_vec()),
            ],
            vec![
                Step::Write(vec![put(b"charlie", b"c")]),
                Step::Read(vec![ReadOp::Key(b"charlie".to_vec())]),
            ],
        ),
        (
            vec![
                (b"key1".to_vec(), b"old1".to_vec()),
                (b"key2".to_vec(), b"old2".to_vec()),
                (b"key3".to_vec(), b"old3".to_vec()),
            ],
            vec![
                Step::Read(vec![ReadOp::Key(b"key1".to_vec())]),
                Step::Write(vec![put(b"key1", b"new1")]),
                Step::Read(vec![
                    ReadOp::Key(b"key1".to_vec()),
                    ReadOp::Key(b"key2".to_vec()),
                ]),
            ],
        ),
        (
            vec![
                (b"del".to_vec(), b"val".to_vec()),
                (b"keep".to_vec(), b"val2".to_vec()),
                (b"stay".to_vec(), b"val3".to_vec()),
            ],
            vec![
                Step::Write(vec![delete(b"del")]),
                Step::Read(vec![
                    ReadOp::Key(b"del".to_vec()),
                    ReadOp::Key(b"keep".to_vec()),
                ]),
            ],
        ),
        (
            (0u8..8)
                .map(|i| (vec![i], format!("v{i}").into_bytes()))
                .collect(),
            vec![
                Step::Read(vec![ReadOp::Key(vec![2])]),
                Step::Write(vec![put(vec![2], b"two-new"), put(vec![20], b"twenty")]),
                Step::Read(vec![ReadOp::Key(vec![2]), ReadOp::Key(vec![20])]),
                Step::Write(vec![delete(vec![4])]),
                Step::Read(vec![ReadOp::Key(vec![4]), ReadOp::Key(vec![0])]),
            ],
        ),
        (
            vec![
                (b"aa".to_vec(), b"1".to_vec()),
                (b"ab".to_vec(), b"2".to_vec()),
                (b"ba".to_vec(), b"3".to_vec()),
                (b"ca".to_vec(), b"4".to_vec()),
            ],
            vec![
                Step::Write(vec![put(b"ac", b"new"), delete(b"ba")]),
                Step::Read(vec![
                    ReadOp::Range {
                        start: b"aa".to_vec(),
                        end: b"b".to_vec(),
                    },
                    ReadOp::Prefix(b"a".to_vec()),
                ]),
            ],
        ),
        (
            vec![
                (b"aa".to_vec(), b"1".to_vec()),
                (b"bb".to_vec(), b"2".to_vec()),
            ],
            vec![
                Step::Write(vec![put(b"cc", b"3")]),
                Step::Read(vec![
                    ReadOp::Range {
                        start: b"dd".to_vec(),
                        end: b"ee".to_vec(),
                    },
                    ReadOp::Prefix(b"z".to_vec()),
                ]),
            ],
        ),
        (
            (0u8..8).map(|i| (vec![i], vec![i; 2])).collect(),
            vec![
                Step::Write(vec![put(vec![10], b"ten")]),
                Step::Write(vec![delete(vec![3])]),
            ],
        ),
        (
            (0u8..6).map(|i| (vec![i], vec![i; 3])).collect(),
            vec![Step::Write(Vec::new())],
        ),
        (
            vec![(b"a".to_vec(), b"1".to_vec())],
            vec![
                Step::Write(vec![put(b"large", large)]),
                Step::Read(vec![ReadOp::Key(b"a".to_vec())]),
            ],
        ),
    ];

    for (entries, steps) in cases {
        assert_tracer_transcript(&entries, &steps);
    }
}

#[test]
fn tracer_differential_regression_cases() {
    let cases = vec![
        (
            vec![
                (b"a".to_vec(), b"va".to_vec()),
                (b"c".to_vec(), b"vc".to_vec()),
            ],
            vec![put(b"b", b"vb")],
            vec![ReadOp::Range {
                start: b"a".to_vec(),
                end: b"c".to_vec(),
            }],
        ),
        (
            vec![
                (vec![0x00], b"v00".to_vec()),
                (vec![0x40], b"v40".to_vec()),
                (vec![0x80], b"v80".to_vec()),
                (vec![0xc0], b"vc0".to_vec()),
            ],
            vec![delete(vec![0x40])],
            vec![ReadOp::Range {
                start: vec![0x00],
                end: vec![0x41],
            }],
        ),
        (
            vec![
                (b"a".to_vec(), b"va".to_vec()),
                (b"c".to_vec(), b"vc".to_vec()),
            ],
            vec![delete(b"b")],
            vec![
                ReadOp::Key(b"b".to_vec()),
                ReadOp::Range {
                    start: b"a".to_vec(),
                    end: b"c".to_vec(),
                },
            ],
        ),
        (
            vec![
                (b"aa".to_vec(), b"vaa".to_vec()),
                (b"ab".to_vec(), b"vab".to_vec()),
                (b"ba".to_vec(), b"vba".to_vec()),
                (vec![0xff], b"vff".to_vec()),
            ],
            vec![put(b"ac", b"vac")],
            vec![ReadOp::Prefix(b"a".to_vec())],
        ),
        (
            vec![
                (b"a".to_vec(), b"va".to_vec()),
                (b"b".to_vec(), b"vb".to_vec()),
                (b"c".to_vec(), b"vc".to_vec()),
                (b"d".to_vec(), b"vd".to_vec()),
            ],
            vec![delete(b"b")],
            vec![
                ReadOp::Range {
                    start: b"b".to_vec(),
                    end: b"d".to_vec(),
                },
                ReadOp::Prefix(b"c".to_vec()),
            ],
        ),
        (
            vec![
                (b"aa".to_vec(), b"vaa".to_vec()),
                (b"ab".to_vec(), b"vab".to_vec()),
                (b"b".to_vec(), b"vb".to_vec()),
            ],
            vec![put(b"ab", b"updated-ab")],
            vec![
                ReadOp::Key(b"ab".to_vec()),
                ReadOp::Range {
                    start: b"aa".to_vec(),
                    end: b"b".to_vec(),
                },
                ReadOp::Prefix(b"a".to_vec()),
            ],
        ),
    ];

    for (entries, ops, reads) in cases {
        let steps = vec![Step::Write(ops), Step::Read(reads)];
        assert_tracer_transcript(&entries, &steps);
    }
}

#[test]
fn mrt_tracer_targeted_scan_regressions() {
    let cases = vec![
        (
            vec![
                (vec![0x00u8], b"val-a".to_vec()),
                (vec![0x80u8], b"val-b".to_vec()),
            ],
            vec![
                Step::Write(vec![delete(vec![0x00u8])]),
                Step::Write(vec![put(vec![0xc0u8], b"val-c")]),
                Step::Read(vec![ReadOp::Range {
                    start: vec![0x00],
                    end: vec![0xff],
                }]),
            ],
        ),
        (
            vec![(vec![0x00u8], b"val-a".to_vec())],
            vec![
                Step::Write(vec![put(vec![0x80u8], b"val-b")]),
                Step::Read(vec![ReadOp::Key(vec![0x80])]),
                Step::Write(vec![put(vec![0xc0u8], b"val-c")]),
                Step::Read(vec![ReadOp::Key(vec![0xc0])]),
            ],
        ),
        (
            vec![
                (b"aa".to_vec(), b"va".to_vec()),
                (b"ab".to_vec(), b"vab".to_vec()),
                (b"ba".to_vec(), b"vb".to_vec()),
            ],
            vec![
                Step::Write(vec![delete_range(b"a", b"b")]),
                Step::Read(vec![ReadOp::Range {
                    start: b"a".to_vec(),
                    end: b"c".to_vec(),
                }]),
            ],
        ),
    ];

    for (entries, steps) in cases {
        let mrt = build_mrt(&entries);
        let snapshot = mrt.checkpoint();
        let trace = create_trace(&snapshot, &steps).unwrap();
        let start = snapshot.root_hash();
        let end = root_after_writes(&snapshot, &steps);
        let reads = replay_trace(&trace, start, &steps, end).unwrap();
        assert_eq!(reads, expected_reads(model_from_entries(&entries), &steps));
    }

    let mrt = build_mrt(&[
        (b"aa".to_vec(), b"1".to_vec()),
        (b"bb".to_vec(), b"2".to_vec()),
        (b"cc".to_vec(), b"3".to_vec()),
    ]);
    let query = vec![QueryItem::RangeInclusive(RangeInclusive::new(
        b"dd".to_vec(),
        b"ee".to_vec(),
    ))];
    let bytes = mrt.prove(query.clone()).unwrap();
    let query = Query::from(query);
    let result = verify_mrt_query(&bytes, &query, mrt.root_hash()).unwrap();
    assert!(result.is_empty());
}

fn random_bytes(rng: &mut SmallRng, len: usize) -> Vec<u8> {
    let mut out = vec![0u8; len];
    rng.fill_bytes(&mut out);
    out
}

fn random_key(rng: &mut SmallRng) -> Vec<u8> {
    random_bytes(rng, 3)
}

fn random_value(rng: &mut SmallRng, tag: u8) -> Vec<u8> {
    let len = match rng.gen_range(0..5) {
        0 => 0,
        1 => 1,
        2 => 8,
        3 => 32,
        _ => 80,
    };
    let mut value = vec![tag; len];
    rng.fill_bytes(&mut value);
    value
}

fn random_end_after(rng: &mut SmallRng, start: &[u8]) -> Vec<u8> {
    if rng.gen_bool(0.35) {
        let mut end = start.to_vec();
        end.push(rng.gen_range(1..=0xff));
        return end;
    }
    for _ in 0..16 {
        let candidate = random_key(rng);
        if candidate.as_slice() > start {
            return candidate;
        }
    }
    let mut end = start.to_vec();
    end.push(1);
    end
}

fn choose_probe_key(rng: &mut SmallRng, keys: &[Vec<u8>], model: &Model) -> Vec<u8> {
    if !model.is_empty() && rng.gen_bool(0.55) {
        let index = rng.gen_range(0..model.len());
        model.keys().nth(index).unwrap().clone()
    } else {
        keys[rng.gen_range(0..keys.len())].clone()
    }
}

fn random_read_op(rng: &mut SmallRng, keys: &[Vec<u8>], model: &Model) -> ReadOp {
    match rng.gen_range(0..3) {
        0 => ReadOp::Key(choose_probe_key(rng, keys, model)),
        1 => {
            let a = choose_probe_key(rng, keys, model);
            let b = choose_probe_key(rng, keys, model);
            let (start, end) = if a < b {
                (a, b)
            } else if b < a {
                (b, a)
            } else {
                let end = random_end_after(rng, &a);
                (a, end)
            };
            ReadOp::Range { start, end }
        }
        _ => {
            let key = choose_probe_key(rng, keys, model);
            let len = if key.is_empty() {
                0
            } else {
                rng.gen_range(0..=key.len())
            };
            ReadOp::Prefix(key[..len].to_vec())
        }
    }
}

fn random_write_ops(
    rng: &mut SmallRng,
    keys: &[Vec<u8>],
    model: &Model,
    max_ops: usize,
    tag: u8,
) -> Vec<BatchOp> {
    let max_unique_ops = max_ops.min(keys.len());
    if max_unique_ops == 0 {
        return Vec::new();
    }
    let op_count = rng.gen_range(1..=max_unique_ops);
    let mut used = BTreeSet::new();
    let mut ops = Vec::new();

    while ops.len() < op_count {
        let key = choose_probe_key(rng, keys, model);
        if !used.insert(key.clone()) {
            continue;
        }

        let op = match rng.gen_range(0..5) {
            0 if model.contains_key(&key) => delete(key),
            1 => delete_range(key.clone(), random_end_after(rng, &key)),
            _ => put(key, random_value(rng, tag)),
        };
        ops.push(op);
    }

    ops.sort_by(|a, b| a.key().cmp(b.key()));
    ops
}

fn random_steps(
    rng: &mut SmallRng,
    keys: &[Vec<u8>],
    start_model: &Model,
    max_batches: usize,
    max_ops_per_batch: usize,
) -> Vec<Step> {
    let step_count = rng.gen_range(1..=max_batches);
    let mut model = start_model.clone();
    let mut steps = Vec::with_capacity(step_count);

    for step in 0..step_count {
        if rng.gen_bool(0.45) {
            let read_count = rng.gen_range(1..=3);
            let reads = (0..read_count)
                .map(|_| random_read_op(rng, keys, &model))
                .collect();
            steps.push(Step::Read(reads));
        } else {
            let ops = random_write_ops(rng, keys, &model, max_ops_per_batch, step as u8);
            apply_writes_to_model(&mut model, &ops);
            steps.push(Step::Write(ops));
        }
    }

    steps
}

fn random_initial_entries(rng: &mut SmallRng) -> (KeySet, Entries) {
    let key_count = rng.gen_range(8..=64);
    let mut keys = BTreeSet::new();
    keys.insert(vec![0x00, 0x00, 0x00]);
    keys.insert(vec![0xff, 0xff, 0xff]);
    while keys.len() < key_count {
        keys.insert(random_key(rng));
    }
    let keys: Vec<_> = keys.into_iter().collect();
    let mut entries = Vec::new();
    for (index, key) in keys.iter().enumerate() {
        if rng.gen_bool(0.65) {
            entries.push((key.clone(), random_value(rng, index as u8)));
        }
    }
    (keys, entries)
}

fn model_entries(model: &Model) -> Entries {
    model.iter().map(|(k, v)| (k.clone(), v.clone())).collect()
}

fn apply_steps_to_mrt_live(mrt: &mut Tree, steps: &[Step]) {
    for step in steps {
        match step {
            Step::Write(ops) => mrt.apply_write_ops(&write_ops(ops)).unwrap(),
            Step::MovePrefix { from, to } => mrt
                .apply_write_ops(&[WriteOp::MovePrefix {
                    from: from.clone(),
                    to: to.clone(),
                }])
                .unwrap(),
            Step::Read(_) => {}
        }
    }
}

fn final_model(entries: &[(Vec<u8>, Vec<u8>)], steps: &[Step]) -> Model {
    let mut model = model_from_entries(entries);
    for step in steps {
        match step {
            Step::Write(ops) => apply_writes_to_model(&mut model, ops),
            Step::MovePrefix { from, to } => apply_move_prefix_to_model(&mut model, from, to),
            Step::Read(_) => {}
        }
    }
    model
}

fn assert_mrt_move_transcript(entries: &[(Vec<u8>, Vec<u8>)], steps: &[Step]) {
    let mut entries = entries.to_vec();
    entries.sort_by(|a, b| a.0.cmp(&b.0));
    let entries = entries.as_slice();

    let mrt = build_mrt(entries);
    let snapshot = mrt.checkpoint();

    let trace = create_trace(&snapshot, steps).unwrap();
    let start = snapshot.root_hash();
    let end = root_after_writes(&snapshot, steps);
    let reads = replay_trace(&trace, start, steps, end).unwrap();
    assert_eq!(reads, expected_reads(model_from_entries(entries), steps));

    let mut live = build_mrt(entries);
    apply_steps_to_mrt_live(&mut live, steps);
    assert_eq!(end, live.root_hash());

    let model = final_model(entries, steps);
    let expected = build_mrt(&model_entries(&model));
    assert_eq!(live.root_hash(), expected.root_hash());
    assert_eq!(mrt_entries(&live.checkpoint()), model_entries(&model));

    assert_mrt_trace_roundtrips(&trace, start);

    let mut bad_end = end;
    bad_end[0] ^= 0x80;
    assert!(replay_trace(&trace, start, steps, bad_end).is_err());
}

fn assert_move_op_matches_model(entries: &[(Vec<u8>, Vec<u8>)], from: &[u8], to: &[u8]) {
    let mut entries = entries.to_vec();
    entries.sort_by(|a, b| a.0.cmp(&b.0));
    let entries = entries.as_slice();

    let model = model_from_entries(entries);
    let mut mrt = build_mrt(entries);
    let before = mrt.root_hash();
    let result = mrt.move_prefix(from.to_vec(), to.to_vec());

    match model_move_prefix(&model, from, to) {
        Some(expected_model) => {
            result.unwrap_or_else(|err| {
                panic!("move {:?}->{:?} should succeed: {:?}", from, to, err)
            });
            let expected = build_mrt(&model_entries(&expected_model));
            assert_eq!(
                mrt.root_hash(),
                expected.root_hash(),
                "move {:?}->{:?} root mismatch vs model",
                from,
                to
            );
            assert_eq!(
                mrt_entries(&mrt.checkpoint()),
                model_entries(&expected_model)
            );

            let steps = vec![Step::MovePrefix {
                from: from.to_vec(),
                to: to.to_vec(),
            }];
            assert_mrt_move_transcript(entries, &steps);
        }
        None => {
            assert!(
                result.is_err(),
                "move {:?}->{:?} should be rejected but succeeded",
                from,
                to
            );
            assert_eq!(
                mrt.root_hash(),
                before,
                "rejected move {:?}->{:?} must not mutate the tree",
                from,
                to
            );
        }
    }
}

#[test]
fn mrt_move_prefix_model_oracle_hand_fixtures() {
    let model = model_from_entries(&[
        (b"user:alice".to_vec(), b"1".to_vec()),
        (b"user:bob".to_vec(), b"2".to_vec()),
        (b"sys:log".to_vec(), b"3".to_vec()),
    ]);

    let moved = model_move_prefix(&model, b"user:", b"acct:").expect("valid move");
    assert_eq!(
        model_entries(&moved),
        vec![
            (b"acct:alice".to_vec(), b"1".to_vec()),
            (b"acct:bob".to_vec(), b"2".to_vec()),
            (b"sys:log".to_vec(), b"3".to_vec()),
        ]
    );

    let lengthened = model_move_prefix(&model, b"user:", b"accounts:").expect("valid lengthening");
    assert_eq!(
        model_entries(&lengthened),
        vec![
            (b"accounts:alice".to_vec(), b"1".to_vec()),
            (b"accounts:bob".to_vec(), b"2".to_vec()),
            (b"sys:log".to_vec(), b"3".to_vec()),
        ]
    );
    let shortened = model_move_prefix(&model, b"user:", b"u").expect("valid shortening");
    assert_eq!(
        model_entries(&shortened),
        vec![
            (b"sys:log".to_vec(), b"3".to_vec()),
            (b"ualice".to_vec(), b"1".to_vec()),
            (b"ubob".to_vec(), b"2".to_vec()),
        ]
    );

    assert!(model_move_prefix(&model, b"user:", b"user:").is_none());
    assert!(model_move_prefix(&model, b"zzz", b"yyy").is_none());

    let mut max_key = vec![0x10; MAX_KEY_LEN];
    max_key[1] = 0x20;
    let overflow = model_from_entries(&[(max_key, b"deep".to_vec())]);
    let overflow_to = vec![0x30; MAX_KEY_LEN];
    assert!(model_move_prefix(&overflow, &[0x10], &overflow_to).is_none());

    let overwritten = model_move_prefix(&model, b"user:", b"sys:l").expect("overwrite is valid");
    assert_eq!(
        model_entries(&overwritten),
        vec![
            (b"sys:lalice".to_vec(), b"1".to_vec()),
            (b"sys:lbob".to_vec(), b"2".to_vec()),
        ]
    );

    let two = model_from_entries(&[
        (b"ab".to_vec(), b"x".to_vec()),
        (b"zz".to_vec(), b"y".to_vec()),
    ]);
    assert_eq!(
        model_entries(&model_move_prefix(&two, b"zz", b"ab").expect("overwrite")),
        vec![(b"ab".to_vec(), b"y".to_vec())],
    );
    assert!(model_move_prefix(&two, b"zz", b"ac").is_some());

    let ancestor = model_from_entries(&[
        (b"a".to_vec(), b"x".to_vec()),
        (b"zz".to_vec(), b"y".to_vec()),
    ]);
    assert!(model_move_prefix(&ancestor, b"zz", b"ab").is_none());
}

#[test]
fn mrt_move_prefix_deterministic_fixtures() {
    assert_move_op_matches_model(
        &[
            (b"abc".to_vec(), b"1".to_vec()),
            (b"z".to_vec(), b"2".to_vec()),
        ],
        b"abc",
        b"def",
    );

    assert_move_op_matches_model(
        &[
            (b"user:alice".to_vec(), b"1".to_vec()),
            (b"user:alex".to_vec(), b"2".to_vec()),
            (b"user:bob".to_vec(), b"3".to_vec()),
            (b"sys:log".to_vec(), b"4".to_vec()),
            (b"zzz".to_vec(), b"5".to_vec()),
        ],
        b"user:",
        b"acct:",
    );

    assert_move_op_matches_model(
        &[
            (b"user:alice".to_vec(), b"1".to_vec()),
            (b"user:bob".to_vec(), b"2".to_vec()),
            (b"sys:log".to_vec(), b"3".to_vec()),
        ],
        b"user:",
        b"accounts:",
    );

    assert_move_op_matches_model(
        &[
            (b"user:alice".to_vec(), b"1".to_vec()),
            (b"user:bob".to_vec(), b"2".to_vec()),
            (b"sys:log".to_vec(), b"3".to_vec()),
        ],
        b"user:",
        b"u",
    );

    assert_move_op_matches_model(&[(b"only".to_vec(), b"v".to_vec())], b"only", b"next");

    assert_move_op_matches_model(
        &[
            (b"abc".to_vec(), b"1".to_vec()),
            (b"abd".to_vec(), b"2".to_vec()),
        ],
        b"ab",
        b"xy",
    );

    assert_move_op_matches_model(
        &[
            (b"abc".to_vec(), b"1".to_vec()),
            (b"abd".to_vec(), b"2".to_vec()),
            (b"z".to_vec(), b"3".to_vec()),
        ],
        b"ab",
        b"xy",
    );

    assert_move_op_matches_model(
        &[
            (vec![0x61, 0x00], b"1".to_vec()),
            (vec![0x61, 0x80], b"2".to_vec()),
            (b"z".to_vec(), b"3".to_vec()),
        ],
        &[0x61],
        &[0x62],
    );

    assert_move_op_matches_model(
        &[
            (b"aa0".to_vec(), b"1".to_vec()),
            (b"aa1".to_vec(), b"2".to_vec()),
            (b"ac0".to_vec(), b"3".to_vec()),
            (b"ad0".to_vec(), b"4".to_vec()),
            (b"zz".to_vec(), b"5".to_vec()),
        ],
        b"aa",
        b"ab",
    );

    assert_move_op_matches_model(
        &[
            (vec![0xff, 0x00], b"1".to_vec()),
            (vec![0xff, 0x80], b"2".to_vec()),
            (vec![0x00], b"3".to_vec()),
        ],
        &[0xff],
        &[0x7f],
    );
}

#[test]
fn mrt_move_prefix_rejections() {
    let four = [
        (b"aa".to_vec(), b"1".to_vec()),
        (b"ab".to_vec(), b"2".to_vec()),
        (b"za".to_vec(), b"3".to_vec()),
        (b"zb".to_vec(), b"4".to_vec()),
    ];

    assert_move_op_matches_model(&four, b"m", b"n");
    assert_move_op_matches_model(&four, b"a", b"z");
    assert_move_op_matches_model(&four, b"aa", b"a");
    assert_move_op_matches_model(&four, b"aa", b"aa");

    let mut max_key = vec![0x10; MAX_KEY_LEN];
    max_key[1] = 0x20;
    let overflow_to = vec![0x30; MAX_KEY_LEN];
    assert_move_op_matches_model(&[(max_key, b"deep".to_vec())], &[0x10], &overflow_to);

    let mut deep_a = vec![0x40; MAX_KEY_LEN];
    deep_a[1] = 0x00;
    let mut deep_b = vec![0x40; MAX_KEY_LEN];
    deep_b[1] = 0x80;
    let hidden_overflow_to = vec![0x60; MAX_KEY_LEN - 1];
    assert_move_op_matches_model(
        &[
            (deep_a, b"a".to_vec()),
            (deep_b, b"b".to_vec()),
            (vec![0x20], b"survivor".to_vec()),
        ],
        &[0x40],
        &hidden_overflow_to,
    );

    let mut verify_key = vec![0x70; MAX_KEY_LEN];
    verify_key[1] = 0x10;
    let verify_from = vec![0x70];
    let verify_to = vec![0x90; MAX_KEY_LEN];
    let verify_mrt = build_mrt(&[(verify_key, b"deep".to_vec())]);
    let forged_trace = Trace(verify_mrt.checkpoint().root().cloned());
    let forged_steps = vec![Step::MovePrefix {
        from: verify_from,
        to: verify_to,
    }];
    let root = verify_mrt.root_hash();
    assert!(replay_trace(&forged_trace, root, &forged_steps, root).is_err());

    let prefix_free = [
        (b"m".to_vec(), b"1".to_vec()),
        (b"zz".to_vec(), b"2".to_vec()),
    ];
    assert_move_op_matches_model(&prefix_free, b"zz", b"ma");

    assert_move_op_matches_model(&[], b"a", b"b");
}

#[test]
fn mrt_move_prefix_interleaved_with_reads_and_writes() {
    let entries = vec![
        (b"user:alice".to_vec(), b"1".to_vec()),
        (b"user:bob".to_vec(), b"2".to_vec()),
        (b"sys:cfg".to_vec(), b"3".to_vec()),
        (b"zzz".to_vec(), b"4".to_vec()),
    ];
    let steps = vec![
        Step::Read(vec![ReadOp::Prefix(b"user:".to_vec())]),
        Step::Write(vec![put(b"user:carol", b"9")]),
        Step::MovePrefix {
            from: b"user:".to_vec(),
            to: b"acct:".to_vec(),
        },
        Step::Read(vec![
            ReadOp::Prefix(b"acct:".to_vec()),
            ReadOp::Key(b"user:alice".to_vec()),
        ]),
        Step::Write(vec![put(b"acct:dave", b"7")]),
        Step::MovePrefix {
            from: b"acct:".to_vec(),
            to: b"org01".to_vec(),
        },
        Step::Read(vec![ReadOp::Range {
            start: b"a".to_vec(),
            end: b"zzzz".to_vec(),
        }]),
    ];
    assert_mrt_move_transcript(&entries, &steps);
}

fn random_valid_move(rng: &mut SmallRng, model: &Model) -> Option<(Vec<u8>, Vec<u8>)> {
    if model.is_empty() {
        return None;
    }
    let keys: Vec<Vec<u8>> = model.keys().cloned().collect();
    for _ in 0..8 {
        let key = &keys[rng.gen_range(0..keys.len())];
        let from_len = rng.gen_range(1..=key.len());
        let from = key[..from_len].to_vec();
        for _ in 0..8 {
            let to = random_bytes(rng, from_len);
            if model_move_prefix(model, &from, &to).is_some() {
                return Some((from, to));
            }
        }
    }
    None
}

fn random_candidate_to_len(rng: &mut SmallRng, from_len: usize, force_overflow: bool) -> usize {
    if force_overflow {
        return rng.gen_range(MAX_KEY_LEN.saturating_sub(2)..=MAX_KEY_LEN);
    }
    match rng.gen_range(0..20) {
        0 => from_len,
        1 => rng.gen_range(0..=from_len.saturating_add(2).min(6)),
        2 => rng.gen_range(0..=3),
        3 => rng.gen_range(4..=8),
        4 => rng.gen_range(MAX_KEY_LEN.saturating_sub(2)..=MAX_KEY_LEN),
        _ => rng.gen_range(0..=from_len.saturating_add(2).min(6)),
    }
}

fn random_move_candidate(rng: &mut SmallRng, model: &Model) -> (Vec<u8>, Vec<u8>) {
    let force_overflow = rng.gen_bool(0.05);
    let from = if !model.is_empty() && rng.gen_bool(0.7) {
        let keys: Vec<Vec<u8>> = model.keys().cloned().collect();
        let key = keys[rng.gen_range(0..keys.len())].clone();
        let max_from_len = if force_overflow && key.len() > 1 {
            key.len() - 1
        } else {
            key.len()
        };
        let from_len = rng.gen_range(1..=max_from_len);
        key[..from_len].to_vec()
    } else {
        let from_len = rng.gen_range(1..=3);
        random_bytes(rng, from_len)
    };
    let to_len = random_candidate_to_len(rng, from.len(), force_overflow);
    (from, random_bytes(rng, to_len))
}

fn random_steps_with_moves(
    rng: &mut SmallRng,
    keys: &[Vec<u8>],
    start_model: &Model,
    max_batches: usize,
    max_ops_per_batch: usize,
) -> Vec<Step> {
    let step_count = rng.gen_range(1..=max_batches);
    let mut model = start_model.clone();
    let mut steps = Vec::with_capacity(step_count);

    for step in 0..step_count {
        match rng.gen_range(0..3) {
            0 => {
                let read_count = rng.gen_range(1..=3);
                let reads = (0..read_count)
                    .map(|_| random_read_op(rng, keys, &model))
                    .collect();
                steps.push(Step::Read(reads));
            }
            1 => {
                if let Some((from, to)) = random_valid_move(rng, &model) {
                    apply_move_prefix_to_model(&mut model, &from, &to);
                    steps.push(Step::MovePrefix { from, to });
                } else {
                    let ops = random_write_ops(rng, keys, &model, max_ops_per_batch, step as u8);
                    apply_writes_to_model(&mut model, &ops);
                    steps.push(Step::Write(ops));
                }
            }
            _ => {
                let ops = random_write_ops(rng, keys, &model, max_ops_per_batch, step as u8);
                apply_writes_to_model(&mut model, &ops);
                steps.push(Step::Write(ops));
            }
        }
    }

    steps
}

#[test]
fn mrt_move_prefix_differential() {
    for seed in 0..200u64 {
        let mut rng = SmallRng::seed_from_u64(seed ^ 0x4D4F_5645_5F33);
        let (keys, entries) = random_initial_entries(&mut rng);
        let model = model_from_entries(&entries);

        let steps = random_steps_with_moves(&mut rng, &keys, &model, 8, 6);
        assert_mrt_move_transcript(&entries, &steps);

        for _ in 0..12 {
            let (from, to) = random_move_candidate(&mut rng, &model);
            assert_move_op_matches_model(&entries, &from, &to);
        }
    }
}

#[test]
fn mrt_move_prefix_proof_rejects_pruned_collapse_survivor() {
    let entries = [
        (b"ma".to_vec(), b"1".to_vec()),
        (b"mb".to_vec(), b"2".to_vec()),
        (b"ya".to_vec(), b"3".to_vec()),
        (b"yb".to_vec(), b"4".to_vec()),
    ];
    let mrt = build_mrt(&entries);
    let steps = vec![Step::MovePrefix {
        from: b"ma".to_vec(),
        to: b"qz".to_vec(),
    }];
    let snapshot = mrt.checkpoint();
    let trace = create_trace(&snapshot, &steps).unwrap();
    let start = snapshot.root_hash();
    let end = root_after_writes(&snapshot, &steps);
    replay_trace(&trace, start, &steps, end).unwrap();

    let root = trace.0.as_ref().unwrap();
    let MrtNode::Branch {
        skip: root_skip,
        left,
        right,
    } = root.node()
    else {
        panic!("expected a branch root");
    };
    let MrtNode::Branch {
        skip: left_skip,
        left: ma_child,
        right: mb_child,
    } = left.node()
    else {
        panic!("expected an ma/mb branch on the left");
    };
    let tampered_left = MrtNodeInner::branch(
        left_skip.clone(),
        ma_child.clone(),
        MrtNodeInner::pruned(mb_child.hash(), mb_child.depth_below()),
    );
    let tampered_sparse = Trace(Some(MrtNodeInner::branch(
        root_skip.clone(),
        tampered_left,
        right.clone(),
    )));

    let bogus = move_prefix(tampered_sparse.0.clone(), b"ma", b"qz").unwrap();

    assert!(replay_trace(&tampered_sparse, start, &steps, bogus.hash()).is_err());
}

#[test]
fn move_prefix_proof_rejects_forged_stub_depth() {
    let entries = [
        (b"ma".to_vec(), b"1".to_vec()),
        (b"mb".to_vec(), b"2".to_vec()),
        (b"ya".to_vec(), b"3".to_vec()),
    ];
    let mrt = build_mrt(&entries);
    let honest_root = mrt.root_hash();
    let root = mrt.checkpoint().root().cloned().expect("non-empty tree");

    let MrtNode::Branch { skip, left, right } = root.node() else {
        panic!("expected a branch root");
    };
    let real_depth = right.depth_below();
    let forged_depth = if real_depth == 0 { 1 } else { 0 };
    let tampered = Trace(Some(MrtNodeInner::branch(
        skip.clone(),
        left.clone(),
        MrtNodeInner::pruned(right.hash(), forged_depth),
    )));
    assert_ne!(
        tampered.0.as_ref().unwrap().hash(),
        honest_root,
        "depth_below must be bound by the branch hash"
    );

    let no_steps: Vec<Step> = Vec::new();
    assert!(replay_trace(&tampered, honest_root, &no_steps, honest_root).is_err());
}

fn assert_move_trace_depth_bounded(from: &[u8], to: &[u8]) {
    let moved_keys = 256usize;
    let mut model = Model::new();

    for i in 0..moved_keys {
        let mut key = from.to_vec();
        key.push(i as u8);
        key.push((255 - i) as u8);
        model.insert(key, vec![i as u8]);
    }
    model.insert(vec![0x10, 0x00, 0x00, 0x00], b"lo".to_vec());
    model.insert(vec![0x40, 0x20, 0x00, 0x00], b"src-survivor".to_vec());
    model.insert(vec![0xc0, 0x00, 0x00, 0x00], b"hi".to_vec());

    let entries = model_entries(&model);
    let mrt = build_mrt(&entries);
    let steps = vec![Step::MovePrefix {
        from: from.to_vec(),
        to: to.to_vec(),
    }];

    let snapshot = mrt.checkpoint();
    let trace = create_trace(&snapshot, &steps).unwrap();
    let start = snapshot.root_hash();
    let end = root_after_writes(&snapshot, &steps);
    replay_trace(&trace, start, &steps, end).unwrap();

    let expected_model = model_move_prefix(&model, from, to).expect("valid move");
    let expected = build_mrt(&model_entries(&expected_model));
    assert_eq!(end, expected.root_hash());

    let revealed = count_revealed_mrt(&trace);
    let max_key_depth_bits = entries
        .iter()
        .map(|(key, _)| key.len() * 8)
        .max()
        .unwrap_or(0);
    let depth_bound = 3 * max_key_depth_bits;

    assert!(
        revealed < depth_bound,
        "move_prefix {:?}->{:?} revealed {} nodes for {} moved keys; \
         expected < 3 * depth ({})",
        from,
        to,
        revealed,
        moved_keys,
        depth_bound
    );
    assert!(
        revealed < moved_keys / 4,
        "move_prefix {:?}->{:?} trace should stay sublinear in subtree size: \
         revealed {} nodes for {} moved keys",
        from,
        to,
        revealed,
        moved_keys
    );
}

#[test]
fn move_prefix_trace_is_depth_bounded() {
    assert_move_trace_depth_bounded(&[0x40, 0x10], &[0x80, 0x10]);
}

#[test]
fn move_prefix_lengthening_trace_is_depth_bounded() {
    assert_move_trace_depth_bounded(&[0x40, 0x10], &[0x80, 0x10, 0x00]);
}

#[test]
fn verify_surface_is_backend_agnostic() {
    let entries = vec![
        (b"a".to_vec(), b"1".to_vec()),
        (b"c".to_vec(), b"3".to_vec()),
        (b"e".to_vec(), b"5".to_vec()),
    ];
    let steps = vec![
        Step::Read(vec![ReadOp::Key(b"c".to_vec())]),
        Step::Write(vec![put(b"c", b"updated")]),
    ];

    let mrt = build_mrt(&entries);
    let mrt_trace = create_trace(&mrt.checkpoint(), &steps).unwrap();
    let mrt_start = mrt.root_hash();

    let mut mrt_live = build_mrt(&entries);
    apply_writes_to_live(&mut mrt_live, &steps);
    let mrt_end = mrt_live.root_hash();

    let mrt_bytes = mrt_trace.encode().unwrap();
    let mut verifier = TraceVerifier::decode_trace(&mrt_bytes).unwrap();
    verifier.verify_root(mrt_start).unwrap();
    assert_eq!(verifier.get(b"c").unwrap(), Some(b"3".to_vec()));
    verifier
        .replay_batch_ops_in_place(&[put(b"c", b"updated")])
        .unwrap();
    verifier.verify_root(mrt_end).unwrap();
    assert_eq!(verifier.root_hash().unwrap(), mrt_end);
}

#[test]
fn verify_surface_exposes_in_place_replay_and_move_prefix_on_both_backends() {
    let entries = vec![
        (b"sys:root".to_vec(), b"0".to_vec()),
        (b"user:alice".to_vec(), b"1".to_vec()),
        (b"user:bob".to_vec(), b"2".to_vec()),
    ];
    let steps = vec![Step::MovePrefix {
        from: b"user:".to_vec(),
        to: b"acct:".to_vec(),
    }];
    let traced = build_mrt(&entries);
    let start_root = traced.root_hash();
    let trace = create_trace(&traced.checkpoint(), &steps).unwrap();
    let bytes = trace.encode().unwrap();

    let mut mrt = TraceVerifier::decode_trace(&bytes).unwrap();
    mrt.verify_root(start_root).unwrap();
    mrt.replay_batch_ops(&[]).unwrap();
    mrt.move_prefix(b"user:", b"acct:").unwrap();

    let mut expected = build_mrt(&entries);
    expected
        .move_prefix(b"user:".to_vec(), b"acct:".to_vec())
        .unwrap();
    assert_eq!(mrt.root_hash().unwrap(), expected.root_hash());
}
