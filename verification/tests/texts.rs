//! What errors and debug output say.

use std::ops::RangeInclusive;

use merk::error::Error;
use merk::hash::NULL_HASH;
use merk::mrt::cursor::Cursor;
use merk::mrt::prefix::{detach_prefix_subtree, splice_subtree_at};
use merk::mrt::query_proof::verify_items;
use merk::mrt::route::validate_key_len;
use merk::mrt::trace::{trace_from_wire, MrtTraceWire, RouteBitsWire};
use merk::mrt::{verify, Trace, TraceRecorder, TraceReplayer, Tree};
use merk::ops::Op;
use merk::proofs::query::{Query, QueryItem};
use merk::tracer::{TraceInterface, TraceReader, WriteOp};

fn tree_of(keys: &[&str]) -> Tree {
    let mut tree = Tree::new();
    for key in keys {
        tree.put(key.as_bytes().to_vec(), b"v".to_vec()).unwrap();
    }
    tree
}

fn key_text<T: std::fmt::Debug>(r: Result<T, Error>) -> String {
    match r {
        Err(Error::Key(text)) => text,
        other => panic!("expected a key error, got {other:?}"),
    }
}

fn batch_text<T: std::fmt::Debug>(r: Result<T, Error>) -> String {
    match r {
        Err(Error::BatchKey(text)) => text,
        other => panic!("expected a batch key error, got {other:?}"),
    }
}

fn pruned_text<T: std::fmt::Debug>(r: Result<T, Error>) -> String {
    match r {
        Err(Error::PrunedNode(text)) => text,
        other => panic!("expected a pruned node, got {other:?}"),
    }
}

fn proof_text<T: std::fmt::Debug>(r: Result<T, Error>) -> String {
    match r {
        Err(Error::Proof(text)) => text,
        other => panic!("expected a proof error, got {other:?}"),
    }
}

fn tree_text<T: std::fmt::Debug>(r: Result<T, Error>) -> String {
    match r {
        Err(Error::Tree(text)) => text,
        other => panic!("expected a tree error, got {other:?}"),
    }
}

fn ed_text<T: std::fmt::Debug>(r: Result<T, Error>) -> String {
    match r {
        Err(Error::Ed(text)) => text,
        other => panic!("expected an encoding error, got {other:?}"),
    }
}

#[test]
fn keys_that_are_refused() {
    let mut tree = tree_of(&["ab"]);
    assert_eq!(
        key_text(tree.put(b"a".to_vec(), b"v".to_vec())),
        "MRT keys must be prefix-free; key [97] is a prefix of, or extends, an existing key"
    );
    assert_eq!(
        batch_text(tree.put(vec![0; 4097], b"v".to_vec())),
        "key length 4097 exceeds maximum 4096"
    );
    assert_eq!(batch_text(tree.delete(vec![0; 5000])), "key length 5000 exceeds maximum 4096");
    assert_eq!(
        batch_text(tree.delete_range(b"a".to_vec(), vec![9; 4097])),
        "DeleteRange end key length 4097 exceeds maximum 4096"
    );
    assert_eq!(
        batch_text(tree.delete_range(b"b".to_vec(), b"a".to_vec())),
        "DeleteRange start must be less than end"
    );
    assert_eq!(
        key_text(validate_key_len(&[0; 4100], "some")),
        "MRT some key length 4100 exceeds maximum 4096"
    );
}

#[test]
fn batches_that_are_refused() {
    let mut tree = tree_of(&["ab"]);
    let put = |key: &str| (key.as_bytes().to_vec(), Op::Put(b"v".to_vec()));
    assert_eq!(
        batch_text(tree.apply_sorted_batch_ops(&[put("b"), put("a")])),
        "Batch keys must be sorted"
    );
    assert_eq!(
        batch_text(tree.apply_sorted_batch_ops(&[put("b"), put("b")])),
        "Batch keys must be unique except after DeleteRange"
    );
    assert_eq!(
        key_text(tree.apply_sorted_batch_ops(&[put("aa"), put("abc"), put("abd")])),
        "MRT keys must be prefix-free; key [97, 98, 99] is a prefix of, or extends, an existing key"
    );
    assert_eq!(
        key_text(tree.apply_write_ops(&[WriteOp::DeletePrefix { prefix: vec![1; 4097] }])),
        "MRT delete_prefix key length 4097 exceeds maximum 4096"
    );
    assert_eq!(
        key_text(tree.apply_write_ops(&[WriteOp::DeleteRange { start: b"b".to_vec(), end: b"a".to_vec() }])),
        "MRT delete_range start key [98] must be less than end key [97]"
    );
}

#[test]
fn moves_that_are_refused() {
    let mut tree = tree_of(&["ab", "c"]);
    assert_eq!(
        key_text(tree.move_prefix(b"x".to_vec(), b"y".to_vec())),
        "MRT prefix [120] is absent: no stored key has it as a byte-prefix"
    );
    assert_eq!(
        key_text(tree.move_prefix(b"x".to_vec(), b"x".to_vec())),
        "MRT move_prefix source and destination prefixes must differ"
    );
    assert_eq!(
        key_text(tree.move_prefix(vec![1; 4097], b"x".to_vec())),
        "MRT move_prefix source prefix key length 4097 exceeds maximum 4096"
    );
    assert_eq!(
        key_text(tree.move_prefix(b"x".to_vec(), vec![1; 4097])),
        "MRT move_prefix destination prefix key length 4097 exceeds maximum 4096"
    );
    assert_eq!(
        key_text(tree.move_prefix(b"a".to_vec(), vec![1; 4096])),
        "MRT move_prefix deepest moved key would be 32776 bits, exceeding maximum 32768"
    );
    assert_eq!(
        key_text(tree.move_prefix(b"a".to_vec(), b"cc".to_vec())),
        "MRT keys must be prefix-free; key [99, 99] is a prefix of, or extends, an existing key"
    );
    let root = tree.checkpoint().root().cloned();
    let (rest, captured) = detach_prefix_subtree(root, b"a").unwrap();
    assert_eq!(
        key_text(splice_subtree_at(rest, b"cc", captured)),
        "MRT keys must be prefix-free; key [99, 99] is a prefix of, or extends, an existing key"
    );
}

#[test]
fn reads_that_are_refused() {
    let tree = tree_of(&["ab", "c"]);
    let snapshot = tree.checkpoint();
    let long = vec![1; 4097];
    let root = snapshot.root().unwrap();
    assert_eq!(
        key_text(snapshot.get_result(&long)),
        "MRT snapshot get_result key length 4097 exceeds maximum 4096"
    );
    assert_eq!(
        key_text(snapshot.collect_range(&long, None)),
        "MRT mrt range start key length 4097 exceeds maximum 4096"
    );
    assert_eq!(
        key_text(snapshot.collect_range(b"", Some(&long))),
        "MRT mrt range end key length 4097 exceeds maximum 4096"
    );
    assert_eq!(
        key_text(snapshot.collect_prefix(&long)),
        "MRT mrt prefix key length 4097 exceeds maximum 4096"
    );
    for (text, context) in [
        (key_text(Cursor::seek_ge(root, &long).map(|_| ())), "cursor seek_ge"),
        (key_text(Cursor::seek_le(root, &long).map(|_| ())), "cursor seek_le"),
        (key_text(Cursor::seek_lt(root, &long).map(|_| ())), "cursor seek_lt"),
    ] {
        assert_eq!(text, format!("MRT {context} key length 4097 exceeds maximum 4096"));
    }
    let bytes = tree.prove(vec![QueryItem::Key(b"ab".to_vec())]).unwrap();
    let trace = Trace::decode_exact(&bytes).unwrap();
    assert_eq!(pruned_text(trace.get(b"c")), "MRT get descent at key [99]");
    assert_eq!(
        pruned_text(trace.collect_range(b"c", None)),
        "cursor lower-bound descent at [99]"
    );
    assert_eq!(pruned_text(trace.collect_range(b"a", None)), "cursor next descent");
}

#[test]
fn traces_that_are_refused() {
    let root = "MRT trace root must be a materialized node or empty, not a pruned stub";
    assert_eq!(ed_text(Trace::decode_exact(&[])), "failed to fill whole buffer");
    assert_eq!(ed_text(Trace::decode_exact(&[3])), root);
    assert_eq!(ed_text(Trace::decode_exact(&[9])), "Unexpected byte: 9");
    assert_eq!(
        ed_text(Trace::decode_exact(&[0, 0])),
        "MRT trace decode_exact: trailing bytes after value"
    );
    assert_eq!(
        ed_text(Trace::decode_exact(&[1, 0, 1, 0, 0])),
        "MRT trace route bit length 65536 exceeds u16"
    );
    assert_eq!(
        ed_text(Trace::decode_exact(&[1, 0, 0, 0, 1, 1])),
        "MRT trace route bits invalid: route bits have nonzero unused final-byte bits"
    );

    assert_eq!(
        proof_text(TraceReplayer::new_unverified(&[])),
        "MRT trace truncated: need 1 more byte(s), 0 remaining"
    );
    assert_eq!(
        proof_text(TraceReplayer::new_unverified(&[1, 0])),
        "MRT trace truncated: need 4 more byte(s), 1 remaining"
    );
    assert_eq!(proof_text(TraceReplayer::new_unverified(&[3])), root);
    assert_eq!(proof_text(TraceReplayer::new_unverified(&[9])), "MRT trace invalid node tag 9");
    assert_eq!(
        proof_text(TraceReplayer::new_unverified(&[0, 1, 2])),
        "MRT trace has 2 trailing byte(s)"
    );
    assert_eq!(
        proof_text(TraceReplayer::new_unverified(&[2, 0, 0, 0, 0].repeat(1026))),
        "MRT trace depth 1025 exceeds limit 1024"
    );
    assert_eq!(
        ed_text(Trace::decode_exact(&[2, 0, 0, 0, 0].repeat(1026))),
        "MRT trace decode depth 1025 exceeds limit 1024"
    );

    let leaf = |bit_len: u32, bytes: &[u8]| MrtTraceWire::Leaf {
        skip: RouteBitsWire { bit_len, bytes: bytes.to_vec() },
        value: Vec::new(),
    };
    assert_eq!(
        tree_text(trace_from_wire(leaf(70000, &[]))),
        "MRT trace route bit length 70000 exceeds u16"
    );
    assert_eq!(
        tree_text(trace_from_wire(leaf(40000, &[]))),
        "MRT trace route bits invalid: route bit length 40000 exceeds maximum 32768"
    );
    assert_eq!(
        tree_text(trace_from_wire(leaf(9, &[1]))),
        "MRT trace route bits invalid: route bit length 9 requires 2 packed bytes, got 1"
    );
}

#[test]
fn handles_that_are_poisoned() {
    let tree = tree_of(&["ab"]);
    let clash = WriteOp::Put { key: b"a".to_vec(), value: b"v".to_vec() };
    let prefix_free = "MRT keys must be prefix-free; key [97] is a prefix of, or extends, an existing key";

    let mut recorder = TraceRecorder::new(&tree.checkpoint());
    assert_eq!(key_text(recorder.apply(&[clash.clone()])), prefix_free);
    let poisoned = |r: Result<(), Error>| match r {
        Err(Error::Poisoned(text)) => text,
        other => panic!("expected a poisoned handle, got {other:?}"),
    };
    assert_eq!(
        poisoned(recorder.get(b"ab").map(|_| ())),
        "get on a poisoned MRT recorder (an earlier apply failed)"
    );
    assert_eq!(
        poisoned(recorder.get_range(b"a", b"b").map(|_| ())),
        "get_range on a poisoned MRT recorder (an earlier apply failed)"
    );
    assert_eq!(
        poisoned(recorder.apply(&[])),
        "apply on a poisoned MRT recorder (an earlier apply failed)"
    );
    assert_eq!(
        poisoned(recorder.finalize_trace().map(|_| ())),
        "finalize_trace on a poisoned MRT recorder (an earlier apply failed)"
    );

    let bytes = tree.prove(vec![QueryItem::Key(b"ab".to_vec())]).unwrap();
    let mut replayer = TraceReplayer::new_unverified(&bytes).unwrap();
    let moved = WriteOp::MovePrefix { from: b"x".to_vec(), to: b"y".to_vec() };
    assert_eq!(
        key_text(replayer.apply(&[moved.clone()])),
        "MRT verify replay move_prefix source prefix [120] is absent"
    );
    assert_eq!(
        poisoned(replayer.root_hash().map(|_| ())),
        "root_hash on a poisoned MRT replayer (an earlier apply failed)"
    );
    assert_eq!(
        poisoned(replayer.get_prefix(b"a").map(|_| ())),
        "get_prefix on a poisoned MRT replayer (an earlier apply failed)"
    );
    let mut recorder = TraceRecorder::new(&tree.checkpoint());
    assert_eq!(
        key_text(recorder.apply(&[moved])),
        "MRT prefix [120] is absent: no stored key has it as a byte-prefix"
    );
}

#[test]
fn operations_print_a_line_each() {
    assert_eq!(format!("{:?}", Op::Put(vec![1, 20, 255])), "Put([1, 20, 255])\n");
    assert_eq!(format!("{:?}", Op::Delete), "Delete\n");
    assert_eq!(format!("{:?}", Op::DeleteRange(Vec::new())), "DeleteRange([])\n");
}

fn inverted() -> QueryItem {
    QueryItem::RangeInclusive(RangeInclusive::new(b"z".to_vec(), b"a".to_vec()))
}

#[test]
fn bad_proofs_are_refused_before_the_items_are_read() {
    let tree = tree_of(&["ab", "c"]);
    let bytes = tree.prove(vec![QueryItem::Key(b"ab".to_vec())]).unwrap();
    assert!(matches!(verify(&[9], vec![inverted()], tree.root_hash()), Err(Error::Ed(_))));
    assert!(matches!(
        verify(&bytes, vec![inverted()], NULL_HASH),
        Err(Error::HashMismatch(_, _))
    ));
    let hidden = QueryItem::Key(b"c".to_vec());
    assert!(matches!(
        verify_items(&bytes, &[hidden, inverted()], tree.root_hash()),
        Err(Error::PrunedNode(_))
    ));
}

fn items(query: &Query) -> Vec<String> {
    query.iter().iter().map(|item| format!("{item:?}")).collect()
}

#[test]
fn items_the_wrong_way_round_do_not_swallow_keys() {
    let mut query = Query::new();
    query.insert_range(vec![9]..vec![1]);
    query.insert_key(vec![1]);
    assert_eq!(items(&query), ["Range([9]..[1])", "Key([1])"]);

    let mut query = Query::new();
    query.insert_range(vec![1]..vec![1]);
    query.insert_item(QueryItem::Key(vec![1]));
    assert_eq!(items(&query), ["Range([1]..[1])", "Key([1])"]);

    let mut query = Query::new();
    query.insert_range_inclusive(RangeInclusive::new(vec![9], vec![1]));
    query.insert_item(QueryItem::Key(vec![1]));
    assert_eq!(items(&query), ["RangeInclusive([1]..=[1])"]);

    let mut query = Query::new();
    query.insert_range(vec![1]..vec![5]);
    query.insert_key(vec![5]);
    assert_eq!(items(&query), ["RangeInclusive([1]..=[5])"]);
}
