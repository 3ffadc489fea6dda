//! Laws of the library on concrete values.

use merk::error::Error;
use merk::hash::NULL_HASH;
use merk::mrt::cursor::{collect_all, Cursor};
use merk::mrt::framing::{node_head, NodeHead, TraceBuffer};
use merk::mrt::node::{MrtNode, MrtNodeInner};
use merk::mrt::prefix::{detach_prefix_subtree, splice_subtree_at};
use merk::mrt::trace::{trace_from_wire, MrtTraceWire};
use merk::mrt::{verify, Checkpoint, Trace, TraceRecorder, TraceReplayer, Tree};
use merk::ops::Op;
use merk::proofs::check::{prove_resident, verify as check, verify_query};
use merk::proofs::query::{Query, QueryItem};
use merk::proofs::search_tree::TreeNode;
use merk::test_utils::{
    ascending, del_batch, del_entry, make_batch_rand, make_batch_seq, make_del_batch_rand,
    make_del_batch_seq, put_batch, put_entry, put_entry_value, seq_key,
};
use merk::tracer::{TraceInterface, TraceReader, WriteOp};
use rand::rngs::SmallRng;
use rand::{Rng, SeedableRng};

fn tree_of(entries: &[(&str, &str)]) -> Tree {
    let mut tree = Tree::new();
    for (key, value) in entries {
        tree.put(key.as_bytes().to_vec(), value.as_bytes().to_vec())
            .unwrap();
    }
    tree
}

fn entries_of(tree: &Tree) -> Vec<(Vec<u8>, Vec<u8>)> {
    tree.checkpoint().iter().collect()
}

fn rows(entries: &[(&str, &str)]) -> Vec<(Vec<u8>, Vec<u8>)> {
    entries
        .iter()
        .map(|(k, v)| (k.as_bytes().to_vec(), v.as_bytes().to_vec()))
        .collect()
}

fn key(k: &str) -> QueryItem {
    QueryItem::Key(k.as_bytes().to_vec())
}

/// The nodes that a trace shows, and the stubs in it.
fn count(node: &MrtNodeInner) -> (usize, usize) {
    match node.node() {
        MrtNode::Leaf { .. } => (1, 0),
        MrtNode::Branch { left, right, .. } => {
            let (a, b) = count(left);
            let (c, d) = count(right);
            (1 + a + c, b + d)
        }
        MrtNode::PrunedHash => (0, 1),
    }
}

#[test]
fn writes_act_on_the_contents() {
    let mut tree = tree_of(&[("apple", "1"), ("apricot", "2"), ("banana", "3"), ("cherry", "4")]);
    tree.delete(b"banana".to_vec()).unwrap();
    assert_eq!(
        entries_of(&tree),
        rows(&[("apple", "1"), ("apricot", "2"), ("cherry", "4")])
    );
    tree.move_prefix(b"ap".to_vec(), b"x".to_vec()).unwrap();
    assert_eq!(
        entries_of(&tree),
        rows(&[("cherry", "4"), ("xple", "1"), ("xricot", "2")])
    );
    tree.delete_range(b"c".to_vec(), b"xq".to_vec()).unwrap();
    assert_eq!(entries_of(&tree), rows(&[("xricot", "2")]));
    assert!(matches!(
        tree.put(b"xri".to_vec(), b"5".to_vec()),
        Err(Error::Key(_))
    ));
    assert_eq!(entries_of(&tree), rows(&[("xricot", "2")]));
}

#[test]
fn no_key_begins_with_another() {
    let mut tree = tree_of(&[("abc", "1")]);
    assert!(tree.put(b"ab".to_vec(), b"2".to_vec()).is_err());
    assert!(tree.put(b"abcd".to_vec(), b"2".to_vec()).is_err());
    tree.put(b"abd".to_vec(), b"2".to_vec()).unwrap();
    assert_eq!(entries_of(&tree), rows(&[("abc", "1"), ("abd", "2")]));
}

#[test]
fn delete_undoes_put() {
    let mut tree = tree_of(&[("a", "1"), ("ba", "2")]);
    let before = tree.root_hash();
    tree.put(b"bb".to_vec(), b"3".to_vec()).unwrap();
    assert_ne!(tree.root_hash(), before);
    tree.delete(b"bb".to_vec()).unwrap();
    assert_eq!(tree.root_hash(), before);
}

#[test]
fn put_restores_what_was_stored() {
    let mut tree = tree_of(&[("a", "1"), ("ba", "2")]);
    let before = tree.root_hash();
    tree.put(b"ba".to_vec(), b"9".to_vec()).unwrap();
    tree.put(b"ba".to_vec(), b"2".to_vec()).unwrap();
    assert_eq!(tree.root_hash(), before);
    tree.delete(b"ba".to_vec()).unwrap();
    tree.put(b"ba".to_vec(), b"2".to_vec()).unwrap();
    assert_eq!(tree.root_hash(), before);
}

#[test]
fn a_move_there_and_back_changes_nothing() {
    let mut tree = tree_of(&[("aa", "1"), ("ab", "2"), ("c", "3")]);
    let before = tree.root_hash();
    tree.move_prefix(b"a".to_vec(), b"zz".to_vec()).unwrap();
    tree.move_prefix(b"zz".to_vec(), b"a".to_vec()).unwrap();
    assert_eq!(tree.root_hash(), before);
    // What was under the new prefix is lost.
    tree.move_prefix(b"a".to_vec(), b"c".to_vec()).unwrap();
    tree.move_prefix(b"c".to_vec(), b"a".to_vec()).unwrap();
    assert_eq!(entries_of(&tree), rows(&[("aa", "1"), ("ab", "2")]));
}

#[test]
fn restoring_a_checkpoint_undoes_writes() {
    let mut tree = tree_of(&[("a", "1"), ("b", "2")]);
    let checkpoint = tree.checkpoint();
    tree.delete_range(b"a".to_vec(), b"z".to_vec()).unwrap();
    assert_eq!(entries_of(&tree), rows(&[]));
    assert_eq!(checkpoint.get(b"a"), Some(b"1".to_vec()));
    let hash = checkpoint.root_hash();
    tree.restore(Some(checkpoint));
    assert_eq!(tree.root_hash(), hash);
    tree.restore(None);
    assert_eq!(tree.root_hash(), NULL_HASH);
}

#[test]
fn contents_determine_the_root_hash() {
    let a = tree_of(&[("one", "1"), ("two", "2"), ("three", "3")]);
    let mut b = tree_of(&[("three", "3"), ("four", "4"), ("one", "0"), ("two", "2")]);
    b.delete(b"four".to_vec()).unwrap();
    assert_ne!(a.root_hash(), b.root_hash());
    b.put(b"one".to_vec(), b"1".to_vec()).unwrap();
    assert_eq!(a.root_hash(), b.root_hash());
    assert_eq!(entries_of(&a), entries_of(&b));
}

#[test]
fn empty_store_has_the_null_hash() {
    let mut tree = tree_of(&[("k", "v")]);
    assert_ne!(tree.root_hash(), NULL_HASH);
    tree.delete(b"k".to_vec()).unwrap();
    assert_eq!(tree.root_hash(), NULL_HASH);
    assert!(tree.checkpoint().is_empty());
}

#[test]
fn decoding_undoes_encoding() {
    let tree = tree_of(&[("aa", "1"), ("ab", "2"), ("b", "3")]);
    let trace = Trace(tree.checkpoint().root().cloned());
    let bytes = trace.encode().unwrap();
    let again = Trace::decode_exact(&bytes).unwrap();
    assert_eq!(again, trace);
    assert_eq!(again.encode().unwrap(), bytes);
    let mut longer = bytes.clone();
    longer.push(0);
    assert!(matches!(Trace::decode_exact(&longer), Err(Error::Ed(_))));
    assert_eq!(Trace::decode(&longer).unwrap(), (trace, bytes.len()));
    assert!(matches!(
        Trace::decode_exact(&bytes[..bytes.len() - 1]),
        Err(Error::Ed(_))
    ));
}

#[test]
fn ranges_and_prefixes_list_the_store_in_order() {
    let snapshot = tree_of(&[("a", "1"), ("ba", "2"), ("bb", "3"), ("c", "4")]).checkpoint();
    assert_eq!(
        snapshot.collect_range(b"b", Some(b"c")).unwrap(),
        rows(&[("ba", "2"), ("bb", "3")])
    );
    assert_eq!(
        snapshot.collect_prefix(b"b").unwrap(),
        rows(&[("ba", "2"), ("bb", "3")])
    );
    assert_eq!(
        snapshot.collect_range(b"bb", None).unwrap(),
        rows(&[("bb", "3"), ("c", "4")])
    );
    assert_eq!(snapshot.collect_range(b"c", Some(b"b")).unwrap(), rows(&[]));
}

#[test]
fn a_proof_verifies_and_tells_the_truth() {
    let tree = tree_of(&[("a", "1"), ("ba", "2"), ("bb", "3"), ("c", "4")]);
    let query = vec![
        key("c"),
        key("d"),
        QueryItem::RangeInclusive(b"a".to_vec()..=b"ba".to_vec()),
    ];
    let bytes = tree.prove(query.clone()).unwrap();
    assert_eq!(
        verify(&bytes, query.clone(), tree.root_hash()).unwrap(),
        rows(&[("a", "1"), ("ba", "2"), ("c", "4")])
    );
    let other = tree_of(&[("a", "1")]);
    assert!(matches!(
        verify(&bytes, query, other.root_hash()),
        Err(Error::HashMismatch(expected, actual))
            if expected == other.root_hash() && actual == tree.root_hash()
    ));
}

#[test]
fn a_proof_does_not_answer_what_it_hides() {
    let tree = tree_of(&[("a", "1"), ("ba", "2"), ("bb", "3"), ("c", "4")]);
    let bytes = tree.prove(vec![key("a")]).unwrap();
    assert!(matches!(
        verify(&bytes, vec![key("bb")], tree.root_hash()),
        Err(Error::PrunedNode(_))
    ));
}

#[test]
fn half_open_items_that_are_the_wrong_way_round_find_nothing() {
    let tree = tree_of(&[("a", "1"), ("b", "2")]);
    let bytes = tree.prove(vec![key("a")]).unwrap();
    let inverted = QueryItem::Range(b"b".to_vec()..b"a".to_vec());
    assert_eq!(
        verify(&bytes, vec![inverted], tree.root_hash()).unwrap(),
        rows(&[])
    );
}

#[test]
fn a_proof_shows_only_what_the_query_needs() {
    // The root parts "p" from the other keys; the query needs the root and the
    // leaf of "p".
    let tree = tree_of(&[("a", "1"), ("ba", "2"), ("bb", "3"), ("p", "4")]);
    let bytes = tree.prove(vec![key("p")]).unwrap();
    let trace = Trace::decode_exact(&bytes).unwrap();
    assert_eq!(count(trace.0.as_ref().unwrap()), (2, 1));
    let all = tree
        .prove(vec![QueryItem::Range(b"a".to_vec()..b"z".to_vec())])
        .unwrap();
    let trace = Trace::decode_exact(&all).unwrap();
    assert_eq!(count(trace.0.as_ref().unwrap()), (7, 0));
    // An empty query needs the root alone.
    let none = tree.prove(Vec::new()).unwrap();
    let trace = Trace::decode_exact(&none).unwrap();
    assert_eq!(count(trace.0.as_ref().unwrap()), (1, 2));
}

#[test]
fn there_is_one_proof_of_a_query() {
    let tree = tree_of(&[("a", "1"), ("ba", "2"), ("bb", "3"), ("p", "4")]);
    let one = tree.prove(vec![key("a"), key("p")]).unwrap();
    let two = tree.prove(vec![key("p"), key("a"), key("p")]).unwrap();
    assert_eq!(one, two);
}

fn recorded(snapshot: &Checkpoint) -> (Vec<u8>, Option<Vec<u8>>) {
    let mut recorder = TraceRecorder::new(snapshot);
    let value = recorder.get(b"ba").unwrap();
    recorder
        .apply(&[
            WriteOp::Delete { key: b"p".to_vec() },
            WriteOp::Put {
                key: b"q".to_vec(),
                value: b"9".to_vec(),
            },
        ])
        .unwrap();
    (recorder.finalize_trace().unwrap(), value)
}

#[test]
fn a_session_replays_on_its_trace() {
    let mut tree = tree_of(&[("a", "1"), ("ba", "2"), ("bb", "3"), ("p", "4")]);
    let snapshot = tree.checkpoint();
    let (bytes, value) = recorded(&snapshot);
    let mut replayer = TraceReplayer::new_verified(&bytes, snapshot.root_hash()).unwrap();
    assert_eq!(replayer.get(b"ba").unwrap(), value);
    let writes = [
        WriteOp::Delete { key: b"p".to_vec() },
        WriteOp::Put {
            key: b"q".to_vec(),
            value: b"9".to_vec(),
        },
    ];
    replayer.apply(&writes).unwrap();
    tree.apply_write_ops(&writes).unwrap();
    assert_eq!(replayer.root_hash().unwrap(), tree.root_hash());
}

#[test]
fn a_session_has_one_trace() {
    let a = tree_of(&[("a", "1"), ("ba", "2"), ("bb", "3"), ("p", "4")]);
    let b = tree_of(&[("p", "4"), ("bb", "3"), ("ba", "2"), ("a", "1")]);
    assert_eq!(recorded(&a.checkpoint()), recorded(&b.checkpoint()));
}

#[test]
fn plain_data_stand_for_their_trace() {
    let tree = tree_of(&[("a", "1"), ("ba", "2"), ("bb", "3")]);
    let bytes = tree.prove(vec![key("a")]).unwrap();
    let trace = Trace::decode_exact(&bytes).unwrap();
    assert_eq!(trace_from_wire(MrtTraceWire::from_trace(&trace)).unwrap(), trace);
    let empty = Trace::default();
    assert!(matches!(MrtTraceWire::from_trace(&empty), MrtTraceWire::Empty));
    assert!(trace_from_wire(MrtTraceWire::Empty).unwrap().is_empty());
}

#[test]
fn mrt_trace_serde_surface_roundtrips() {
    let tree = tree_of(&[("a", "1")]);
    let snapshot = tree.checkpoint();
    let start = snapshot.root_hash();
    let mut recorder = TraceRecorder::new(&snapshot);
    recorder.get(b"a").unwrap();
    let trace = Trace::decode_exact(&recorder.finalize_trace().unwrap()).unwrap();

    let decoded_trace = trace_from_wire(MrtTraceWire::from_trace(&trace)).unwrap();
    assert_eq!(decoded_trace, trace);
    let bytes = decoded_trace.encode().unwrap();
    let mut replayer = TraceReplayer::new_verified(&bytes, start).unwrap();
    assert_eq!(replayer.get(b"a").unwrap(), Some(b"1".to_vec()));
    assert_eq!(replayer.root_hash().unwrap(), start);
}

#[test]
fn mrt_serde_rejects_top_level_pruned_root() {
    let pruned_root = Trace(Some(MrtNodeInner::pruned([0x5c; 32], 0)));
    let wire = MrtTraceWire::from_trace(&pruned_root);
    assert!(matches!(trace_from_wire(wire), Err(Error::Tree(_))));

    let ok = Trace(tree_of(&[("a", "1")]).checkpoint().root().cloned());
    assert_eq!(trace_from_wire(MrtTraceWire::from_trace(&ok)).unwrap(), ok);
}

fn search_tree() -> TreeNode {
    TreeNode::new(vec![5], vec![50])
        .unwrap()
        .attach(true, Some(TreeNode::new(vec![3], vec![30]).unwrap()))
        .attach(false, Some(TreeNode::new(vec![7], vec![70]).unwrap()))
}

#[test]
fn every_search_proof_checks() {
    let tree = search_tree();
    for query in [
        vec![QueryItem::Key(vec![3])],
        vec![QueryItem::Key(vec![4]), QueryItem::Key(vec![9])],
        vec![QueryItem::RangeInclusive(vec![3]..=vec![7])],
        vec![],
    ] {
        let bytes = prove_resident(Some(&tree), query.clone()).unwrap();
        let mut asked = Query::new();
        for item in &query {
            asked.insert_item(item.clone());
        }
        let found = verify_query(&bytes, &asked, tree.hash()).unwrap();
        let want: Vec<(Vec<u8>, Vec<u8>)> = [(3u8, 30u8), (5, 50), (7, 70)]
            .iter()
            .filter(|(k, _)| query.iter().any(|item| item.contains(&[*k])))
            .map(|(k, v)| (vec![*k], vec![*v]))
            .collect();
        assert_eq!(found, want);
    }
}

#[test]
fn known_values_are_those_of_the_tree() {
    let tree = search_tree();
    let bytes = prove_resident(Some(&tree), vec![QueryItem::Key(vec![3])]).unwrap();
    let map = check(&bytes, tree.hash()).unwrap();
    assert_eq!(map.get(&[3]).unwrap(), Some(&[30u8][..]));
    assert_eq!(map.get(&[2]).unwrap(), None);
    assert!(matches!(map.get(&[7]), Err(Error::MissingData)));
}

#[test]
fn known_rows_are_those_of_the_tree() {
    let tree = search_tree();
    let asked = QueryItem::RangeInclusive(vec![2]..=vec![5]);
    let bytes = prove_resident(Some(&tree), vec![asked.clone()]).unwrap();
    let map = check(&bytes, tree.hash()).unwrap();
    assert_eq!(
        map.range(&asked).unwrap(),
        vec![(vec![3], vec![30]), (vec![5], vec![50])]
    );
    assert!(matches!(
        map.range(&QueryItem::Range(vec![4]..vec![9])),
        Err(Error::MissingData)
    ));
}

#[test]
fn items_compare_with_keys() {
    let item = QueryItem::Range(vec![2]..vec![5]);
    assert!(item == &[3u8][..]);
    assert!(item != &[5u8][..]);
    assert!(item < &[5u8][..]);
    assert!(item > &[1u8][..]);
}

#[test]
fn queries_keep_their_items_apart() {
    let mut query = Query::new();
    query.insert_item(QueryItem::Range(vec![1]..vec![4]));
    query.insert_key(vec![9]);
    query.insert_item(QueryItem::Range(vec![3]..vec![6]));
    let bounds: Vec<(Vec<u8>, Vec<u8>)> = query
        .iter()
        .iter()
        .map(|item| (item.lower_bound().to_vec(), item.upper_bound().0.to_vec()))
        .collect();
    assert_eq!(bounds, vec![(vec![1], vec![6]), (vec![9], vec![9])]);
}

#[test]
fn keys_follow_numbers() {
    assert_eq!(seq_key(0), vec![0; 8]);
    assert_eq!(seq_key(0x0102030405060708), vec![1, 2, 3, 4, 5, 6, 7, 8]);
    assert_eq!(seq_key(u64::MAX), vec![255; 8]);
    for (a, b) in [(0, 1), (255, 256), (65_535, 65_536), (1 << 40, (1 << 40) + 1)] {
        assert!(seq_key(a) < seq_key(b));
    }
}

#[test]
fn batches_of_ranges() {
    assert_eq!(put_entry_value(), vec![123; 60]);
    assert_eq!(put_entry(7), (seq_key(7), Op::Put(vec![123; 60])));
    assert_eq!(del_entry(7), (seq_key(7), Op::Delete));
    assert_eq!(make_batch_seq(3..5), vec![put_entry(3), put_entry(4)]);
    assert_eq!(make_del_batch_seq(3..5), vec![del_entry(3), del_entry(4)]);
    assert_eq!(make_batch_seq(4..4), vec![]);
}

#[test]
fn numbers_are_put_in_order() {
    assert_eq!(ascending(vec![5, 1, 4, 1, 3]), vec![1, 1, 3, 4, 5]);
    assert_eq!(ascending(vec![]), Vec::<u64>::new());
    assert_eq!(put_batch(vec![9, 2]), vec![put_entry(2), put_entry(9)]);
    assert_eq!(del_batch(vec![9, 2]), vec![del_entry(2), del_entry(9)]);
}

#[test]
fn random_batches_follow_the_generator() {
    let mut rng = SmallRng::seed_from_u64(42);
    let drawn: Vec<u64> = (0..20).map(|_| rng.gen::<u64>()).collect();
    assert_eq!(make_batch_rand(20, 42), put_batch(drawn.clone()));
    assert_eq!(make_del_batch_rand(20, 42), del_batch(drawn));
    assert_ne!(make_batch_rand(20, 42), make_batch_rand(20, 43));
    assert_eq!(make_batch_rand(0, 1), vec![]);
}

#[test]
fn detaching_parts_the_store() {
    let tree = tree_of(&[("apple", "1"), ("apricot", "2"), ("banana", "3")]);
    let root = tree.checkpoint().root().cloned();
    let (rest, captured) = detach_prefix_subtree(root.clone(), b"ap").unwrap();
    let rest = rest.unwrap();
    assert_eq!(collect_all(Some(&rest)).unwrap(), rows(&[("banana", "3")]));
    assert_eq!(rest.hash(), tree_of(&[("banana", "3")]).root_hash());
    let alone = splice_subtree_at(None, b"", captured).unwrap();
    assert_eq!(collect_all(Some(&alone)).unwrap(), rows(&[("ple", "1"), ("ricot", "2")]));

    let (rest, captured) = detach_prefix_subtree(root.clone(), b"").unwrap();
    assert!(rest.is_none());
    assert_eq!(captured.strip_prefix_bits, 0);
    assert!(matches!(
        detach_prefix_subtree(root, b"aq"),
        Err(Error::Key(_))
    ));
    assert!(matches!(
        detach_prefix_subtree(None, b""),
        Err(Error::Key(_))
    ));
}

#[test]
fn splicing_replaces_what_stands_there() {
    let tree = tree_of(&[("apple", "1"), ("apricot", "2"), ("banana", "3"), ("bandit", "4"), ("cherry", "5")]);
    let root = tree.checkpoint().root().cloned();
    let (rest, captured) = detach_prefix_subtree(root.clone(), b"ap").unwrap();
    let spliced = splice_subtree_at(rest.clone(), b"ban", captured).unwrap();
    let expected = [("banple", "1"), ("banricot", "2"), ("cherry", "5")];
    assert_eq!(collect_all(Some(&spliced)).unwrap(), rows(&expected));
    assert_eq!(spliced.hash(), tree_of(&expected).root_hash());

    let (rest, captured) = detach_prefix_subtree(root.clone(), b"ap").unwrap();
    assert!(matches!(
        splice_subtree_at(rest, b"bananas", captured),
        Err(Error::Key(_))
    ));
    let (rest, captured) = detach_prefix_subtree(root, b"apple").unwrap();
    let spliced = splice_subtree_at(rest, b"banana", captured).unwrap();
    let expected = [("apricot", "2"), ("banana", "1"), ("bandit", "4"), ("cherry", "5")];
    assert_eq!(collect_all(Some(&spliced)).unwrap(), rows(&expected));
}

#[test]
fn walks_list_the_store_from_a_key_on() {
    let tree = tree_of(&[("b", "1"), ("dd", "2"), ("f", "3")]);
    let snapshot = tree.checkpoint();
    let root = snapshot.root().unwrap();

    let mut walk = Cursor::seek_ge(root, b"c").unwrap();
    assert_eq!(walk.next().unwrap(), Some((b"dd".to_vec(), &b"2"[..])));
    assert_eq!(walk.next().unwrap(), Some((b"f".to_vec(), &b"3"[..])));
    assert_eq!(walk.next().unwrap(), None);
    assert_eq!(Cursor::seek_ge(root, b"g").unwrap().next().unwrap(), None);

    let mut walk = Cursor::seek_le(root, b"dd").unwrap();
    assert_eq!(walk.prev().unwrap(), Some((b"dd".to_vec(), &b"2"[..])));
    assert_eq!(walk.prev().unwrap(), Some((b"b".to_vec(), &b"1"[..])));
    assert_eq!(walk.prev().unwrap(), None);

    let mut walk = Cursor::seek_lt(root, b"dd").unwrap();
    assert_eq!(walk.prev().unwrap(), Some((b"b".to_vec(), &b"1"[..])));
    assert_eq!(walk.prev().unwrap(), None);
    assert_eq!(Cursor::seek_le(root, b"a").unwrap().prev().unwrap(), None);
    assert_eq!(Cursor::seek_lt(root, b"b").unwrap().prev().unwrap(), None);
}

#[test]
fn the_default_tree_is_empty() {
    let tree = Tree::default();
    assert_eq!(tree.root_hash(), NULL_HASH);
    assert!(tree.checkpoint().root().is_none());
    assert!(tree.checkpoint().is_empty());
}

/// Takes a trace from the front of a stream, with never a byte more than is missing.
fn taken(stream: &[u8]) -> Option<Vec<u8>> {
    let mut buffer = TraceBuffer::new();
    let mut at = 0;
    loop {
        let n = buffer.missing();
        if n == 0 {
            return Some(buffer.into_bytes());
        }
        if n > stream.len() - at {
            return None;
        }
        buffer.push(&stream[at..at + n]);
        at += n;
    }
}

#[test]
fn missing_bytes_lead_to_the_end_of_a_trace() {
    let tree = tree_of(&[("apple", "1"), ("apricot", "22"), ("banana", ""), ("cherry", "4")]);
    let proof = tree.prove(vec![key("apricot"), key("zebra")]).unwrap();
    let empty = Tree::new().prove(vec![key("a")]).unwrap();
    assert_eq!(empty, vec![0]);
    for bytes in [proof, empty] {
        let mut stream = bytes.clone();
        stream.extend_from_slice(&[1, 2, 3, 4]);
        assert_eq!(taken(&stream), Some(bytes.clone()));
        for len in 0..bytes.len() {
            assert_eq!(taken(&bytes[..len]), None);
            let mut buffer = TraceBuffer::new();
            buffer.push(&bytes[..len]);
            let n = buffer.missing();
            assert!(0 < n && n <= bytes.len() - len);
        }
    }
}

#[test]
fn what_begins_no_trace_misses_nothing() {
    for bytes in [vec![3], vec![4], vec![2, 0, 1, 0, 0], [2, 0, 0, 0, 0].repeat(1025)] {
        let mut buffer = TraceBuffer::new();
        buffer.push(&bytes);
        assert_eq!(buffer.missing(), 0);
        assert!(Trace::decode(&buffer.into_bytes()).is_err());
    }
    let mut buffer = TraceBuffer::new();
    buffer.push(&[2, 0, 0, 0, 0].repeat(1024));
    assert_eq!(buffer.missing(), 1);
}

#[test]
fn heads_of_nodes() {
    assert_eq!(node_head(&[], 0), NodeHead::Short(1));
    assert_eq!(node_head(&[9, 1, 0], 1), NodeHead::Short(3));
    assert_eq!(node_head(&[1, 0, 0, 0, 9, 0, 0], 0), NodeHead::Short(4));
    assert_eq!(node_head(&[1, 0, 0, 0, 9, 0, 0, 0, 0, 0, 5, 7], 0), NodeHead::Short(4));
    assert_eq!(node_head(&[1, 0, 0, 0, 0, 0, 0, 0, 1, 7, 8], 0), NodeHead::Whole(10, false));
    assert_eq!(node_head(&[2, 0, 0, 0, 9, 0, 0, 7], 0), NodeHead::Whole(7, true));
    assert_eq!(node_head(&[3; 40], 0), NodeHead::Whole(37, false));
    assert_eq!(node_head(&[3; 40], 10), NodeHead::Short(7));
    assert_eq!(node_head(&[0], 0), NodeHead::Broken);
}
