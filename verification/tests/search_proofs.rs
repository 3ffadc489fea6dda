//! Proofs of what queries find in a search tree.

use std::collections::HashMap;

use merk::error::Error;
use merk::hash::NodeHash;
use merk::proofs::check::{prove_resident, verify, verify_query};
use merk::proofs::op::{encode_into, Node, Op};
use merk::proofs::query::{Query, QueryItem};
use merk::proofs::search_tree::{RefWalker, TreeNode};

fn leaf(key: Vec<u8>) -> TreeNode {
    TreeNode::new(key, vec![123; 60]).unwrap()
}

/// A tree of ten numbered keys and a key of zeros.
fn make_tree_seq() -> TreeNode {
    leaf(seq_key(3))
        .attach(
            true,
            Some(
                leaf(vec![0; 20])
                    .attach(true, Some(leaf(seq_key(0))))
                    .attach(
                        false,
                        Some(leaf(seq_key(2)).attach(true, Some(leaf(seq_key(1))))),
                    ),
            ),
        )
        .attach(
            false,
            Some(
                leaf(seq_key(7))
                    .attach(
                        true,
                        Some(
                            leaf(seq_key(5))
                                .attach(true, Some(leaf(seq_key(4))))
                                .attach(false, Some(leaf(seq_key(6)))),
                        ),
                    )
                    .attach(
                        false,
                        Some(leaf(seq_key(8)).attach(false, Some(leaf(seq_key(9))))),
                    ),
            ),
        )
}

fn make_3_node_tree() -> Result<TreeNode, Error> {
    let tree = TreeNode::new(vec![5], vec![5])?
        .attach(true, Some(TreeNode::new(vec![3], vec![3])?))
        .attach(false, Some(TreeNode::new(vec![7], vec![7])?));
    Ok(tree)
}

fn assert_verified_values(
    bytes: &[u8],
    expected_hash: NodeHash,
    expected: &[(Vec<u8>, Option<Vec<u8>>)],
) -> Result<(), Error> {
    let mut query = Query::new();
    for (key, _) in expected {
        query.insert_key(key.clone());
    }

    let result = verify_query(bytes, &query, expected_hash)?;
    let mut values = HashMap::new();
    for (key, value) in result {
        assert!(values.insert(key, value).is_none());
    }

    for (key, expected_value) in expected {
        assert_eq!(values.get(key), expected_value.as_ref());
    }
    Ok(())
}

fn encode_query_proof(tree: &TreeNode, queryitems: &[QueryItem]) -> Vec<u8> {
    let walker = RefWalker::new(tree);
    let (proof, _) = walker
        .create_proof(queryitems)
        .expect("create_proof errored");
    let mut bytes = vec![];
    encode_into(&proof, &mut bytes);
    bytes
}

fn query_from_items(queryitems: &[QueryItem]) -> Query {
    let mut query = Query::new();
    for item in queryitems {
        query.insert_item(item.clone());
    }
    query
}

fn assert_verified_query_values(
    bytes: &[u8],
    expected_hash: NodeHash,
    queryitems: &[QueryItem],
    expected: Vec<(Vec<u8>, Vec<u8>)>,
) -> Result<(), Error> {
    let query = query_from_items(queryitems);
    let result = verify_query(bytes, &query, expected_hash)?;
    assert_eq!(result, expected);
    Ok(())
}

fn seq_key(key: u64) -> Vec<u8> {
    key.to_be_bytes().to_vec()
}

fn verify_keys_test(keys: Vec<Vec<u8>>, expected_result: Vec<Option<Vec<u8>>>) -> Result<(), Error> {
    let tree = make_3_node_tree()?;
    let walker = RefWalker::new(&tree);

    let (proof, _) = walker
        .create_proof(
            keys.clone()
                .into_iter()
                .map(QueryItem::Key)
                .collect::<Vec<_>>()
                .as_slice(),
        )
        .expect("failed to create proof");
    let mut bytes = vec![];
    encode_into(&proof, &mut bytes);

    let expected_hash = [
        26, 197, 74, 4, 89, 161, 76, 41, 37, 166, 197, 214, 68, 53, 6, 228, 91, 221, 131, 222,
        175, 210, 106, 172, 78, 117, 48, 59, 209, 195, 53, 80,
    ];

    let expected: Vec<_> = keys.into_iter().zip(expected_result).collect();
    assert_verified_values(bytes.as_slice(), expected_hash, &expected)
}

#[test]
fn verify_query_keys() -> Result<(), Error> {
    let tree = make_3_node_tree()?;
    let queryitems = vec![QueryItem::Key(vec![3]), QueryItem::Key(vec![7])];
    let bytes = encode_query_proof(&tree, queryitems.as_slice());
    let query = query_from_items(queryitems.as_slice());

    let result = verify_query(bytes.as_slice(), &query, tree.hash())?;

    assert_eq!(result, vec![(vec![3], vec![3]), (vec![7], vec![7])]);
    Ok(())
}

#[test]
fn verify_query_proven_absence_returns_no_value() -> Result<(), Error> {
    let tree = make_3_node_tree()?;
    let queryitems = vec![QueryItem::Key(vec![6])];
    let bytes = encode_query_proof(&tree, queryitems.as_slice());
    let query = query_from_items(queryitems.as_slice());

    let result = verify_query(bytes.as_slice(), &query, tree.hash())?;

    assert!(result.is_empty());
    Ok(())
}

#[test]
fn verify_query_range() -> Result<(), Error> {
    let tree = make_tree_seq();
    let queryitems = vec![QueryItem::Range(seq_key(5)..seq_key(7))];
    let bytes = encode_query_proof(&tree, queryitems.as_slice());
    let query = query_from_items(queryitems.as_slice());

    let result = verify_query(bytes.as_slice(), &query, tree.hash())?;

    assert_eq!(
        result,
        vec![(seq_key(5), vec![123; 60]), (seq_key(6), vec![123; 60])]
    );
    Ok(())
}

#[test]
fn verify_query_errors_when_proof_does_not_cover_query() -> Result<(), Error> {
    let tree = make_3_node_tree()?;
    let bytes = encode_query_proof(&tree, &[QueryItem::Key(vec![5])]);
    let query = query_from_items(&[QueryItem::Key(vec![7])]);

    let result = verify_query(bytes.as_slice(), &query, tree.hash());

    assert!(matches!(result, Err(Error::MissingData)));
    Ok(())
}

#[test]
fn root_verify() -> Result<(), Error> {
    verify_keys_test(vec![vec![5]], vec![Some(vec![5])])
}

#[test]
fn single_verify() -> Result<(), Error> {
    verify_keys_test(vec![vec![3]], vec![Some(vec![3])])
}

#[test]
fn double_verify() -> Result<(), Error> {
    verify_keys_test(vec![vec![3], vec![5]], vec![Some(vec![3]), Some(vec![5])])
}

#[test]
fn double_verify_2() -> Result<(), Error> {
    verify_keys_test(vec![vec![3], vec![7]], vec![Some(vec![3]), Some(vec![7])])
}

#[test]
fn triple_verify() -> Result<(), Error> {
    verify_keys_test(
        vec![vec![3], vec![5], vec![7]],
        vec![Some(vec![3]), Some(vec![5]), Some(vec![7])],
    )
}

#[test]
fn left_edge_absence_verify() -> Result<(), Error> {
    verify_keys_test(vec![vec![2]], vec![None])
}

#[test]
fn right_edge_absence_verify() -> Result<(), Error> {
    verify_keys_test(vec![vec![8]], vec![None])
}

#[test]
fn inner_absence_verify() -> Result<(), Error> {
    verify_keys_test(vec![vec![6]], vec![None])
}

#[test]
fn absent_and_present_verify() -> Result<(), Error> {
    verify_keys_test(vec![vec![5], vec![6]], vec![Some(vec![5]), None])
}

#[test]
fn empty_proof() -> Result<(), Error> {
    let tree = make_3_node_tree()?;
    let walker = RefWalker::new(&tree);

    let (proof, absence) = walker
        .create_proof(vec![].as_slice())
        .expect("create_proof errored");

    let mut iter = proof.iter();
    assert_eq!(
        iter.next(),
        Some(&Op::Push(Node::NodeHash([
            58, 114, 115, 81, 9, 53, 210, 78, 220, 23, 100, 136, 26, 152, 18, 112, 219, 217,
            48, 154, 227, 92, 100, 5, 35, 234, 194, 199, 112, 53, 188, 16
        ])))
    );
    assert_eq!(
        iter.next(),
        Some(&Op::Push(Node::KVHash([
            233, 192, 89, 232, 161, 148, 62, 69, 165, 24, 156, 25, 44, 34, 166, 17, 115, 252,
            75, 105, 14, 252, 228, 57, 78, 44, 230, 91, 45, 221, 40, 10
        ])))
    );
    assert_eq!(iter.next(), Some(&Op::Parent));
    assert_eq!(
        iter.next(),
        Some(&Op::Push(Node::NodeHash([
            164, 34, 118, 190, 242, 9, 177, 28, 85, 32, 6, 231, 131, 61, 119, 22, 48, 13, 117,
            231, 1, 18, 220, 48, 102, 122, 204, 22, 126, 24, 36, 220
        ])))
    );
    assert_eq!(iter.next(), Some(&Op::Child));
    assert!(iter.next().is_none());
    assert_eq!(absence, (false, false));

    let mut bytes = vec![];
    encode_into(&proof, &mut bytes);
    verify_query(bytes.as_slice(), &Query::new(), tree.hash()).unwrap();
    Ok(())
}

#[test]
fn root_proof() -> Result<(), Error> {
    let tree = make_3_node_tree()?;
    let walker = RefWalker::new(&tree);

    let queryitems = vec![QueryItem::Key(vec![5])];
    let (proof, absence) = walker
        .create_proof(queryitems.as_slice())
        .expect("create_proof errored");

    let mut iter = proof.iter();
    assert_eq!(
        iter.next(),
        Some(&Op::Push(Node::NodeHash([
            58, 114, 115, 81, 9, 53, 210, 78, 220, 23, 100, 136, 26, 152, 18, 112, 219, 217,
            48, 154, 227, 92, 100, 5, 35, 234, 194, 199, 112, 53, 188, 16
        ])))
    );
    assert_eq!(iter.next(), Some(&Op::Push(Node::KV(vec![5], vec![5]))));
    assert_eq!(iter.next(), Some(&Op::Parent));
    assert_eq!(
        iter.next(),
        Some(&Op::Push(Node::NodeHash([
            164, 34, 118, 190, 242, 9, 177, 28, 85, 32, 6, 231, 131, 61, 119, 22, 48, 13, 117,
            231, 1, 18, 220, 48, 102, 122, 204, 22, 126, 24, 36, 220
        ])))
    );
    assert_eq!(iter.next(), Some(&Op::Child));
    assert!(iter.next().is_none());
    assert_eq!(absence, (false, false));

    let mut bytes = vec![];
    encode_into(&proof, &mut bytes);
    assert_verified_query_values(
        bytes.as_slice(),
        tree.hash(),
        queryitems.as_slice(),
        vec![(vec![5], vec![5])],
    )?;
    assert_verified_values(bytes.as_slice(), tree.hash(), &[(vec![5], Some(vec![5]))])?;
    Ok(())
}

#[test]
fn leaf_proof() -> Result<(), Error> {
    let tree = make_3_node_tree()?;
    let walker = RefWalker::new(&tree);

    let queryitems = vec![QueryItem::Key(vec![3])];
    let (proof, absence) = walker
        .create_proof(queryitems.as_slice())
        .expect("create_proof errored");

    let mut iter = proof.iter();
    assert_eq!(iter.next(), Some(&Op::Push(Node::KV(vec![3], vec![3]))));
    assert_eq!(
        iter.next(),
        Some(&Op::Push(Node::KVHash([
            233, 192, 89, 232, 161, 148, 62, 69, 165, 24, 156, 25, 44, 34, 166, 17, 115, 252,
            75, 105, 14, 252, 228, 57, 78, 44, 230, 91, 45, 221, 40, 10
        ])))
    );
    assert_eq!(iter.next(), Some(&Op::Parent));
    assert_eq!(
        iter.next(),
        Some(&Op::Push(Node::NodeHash([
            164, 34, 118, 190, 242, 9, 177, 28, 85, 32, 6, 231, 131, 61, 119, 22, 48, 13, 117,
            231, 1, 18, 220, 48, 102, 122, 204, 22, 126, 24, 36, 220
        ])))
    );
    assert_eq!(iter.next(), Some(&Op::Child));
    assert!(iter.next().is_none());
    assert_eq!(absence, (false, false));

    let mut bytes = vec![];
    encode_into(&proof, &mut bytes);
    assert_verified_query_values(
        bytes.as_slice(),
        tree.hash(),
        queryitems.as_slice(),
        vec![(vec![3], vec![3])],
    )?;
    assert_verified_values(bytes.as_slice(), tree.hash(), &[(vec![3], Some(vec![3]))])?;
    Ok(())
}

#[test]
fn double_leaf_proof() -> Result<(), Error> {
    let tree = make_3_node_tree()?;
    let walker = RefWalker::new(&tree);

    let queryitems = vec![QueryItem::Key(vec![3]), QueryItem::Key(vec![7])];
    let (proof, absence) = walker
        .create_proof(queryitems.as_slice())
        .expect("create_proof errored");

    let mut iter = proof.iter();
    assert_eq!(iter.next(), Some(&Op::Push(Node::KV(vec![3], vec![3]))));
    assert_eq!(
        iter.next(),
        Some(&Op::Push(Node::KVHash([
            233, 192, 89, 232, 161, 148, 62, 69, 165, 24, 156, 25, 44, 34, 166, 17, 115, 252,
            75, 105, 14, 252, 228, 57, 78, 44, 230, 91, 45, 221, 40, 10
        ])))
    );
    assert_eq!(iter.next(), Some(&Op::Parent));
    assert_eq!(iter.next(), Some(&Op::Push(Node::KV(vec![7], vec![7]))));
    assert_eq!(iter.next(), Some(&Op::Child));
    assert!(iter.next().is_none());
    assert_eq!(absence, (false, false));

    let mut bytes = vec![];
    encode_into(&proof, &mut bytes);
    assert_verified_query_values(
        bytes.as_slice(),
        tree.hash(),
        queryitems.as_slice(),
        vec![(vec![3], vec![3]), (vec![7], vec![7])],
    )?;
    assert_verified_values(
        bytes.as_slice(),
        tree.hash(),
        &[(vec![3], Some(vec![3])), (vec![7], Some(vec![7]))],
    )?;
    Ok(())
}

#[test]
fn all_nodes_proof() -> Result<(), Error> {
    let tree = make_3_node_tree()?;
    let walker = RefWalker::new(&tree);

    let queryitems = vec![
        QueryItem::Key(vec![3]),
        QueryItem::Key(vec![5]),
        QueryItem::Key(vec![7]),
    ];
    let (proof, absence) = walker
        .create_proof(queryitems.as_slice())
        .expect("create_proof errored");

    let mut iter = proof.iter();
    assert_eq!(iter.next(), Some(&Op::Push(Node::KV(vec![3], vec![3]))));
    assert_eq!(iter.next(), Some(&Op::Push(Node::KV(vec![5], vec![5]))));
    assert_eq!(iter.next(), Some(&Op::Parent));
    assert_eq!(iter.next(), Some(&Op::Push(Node::KV(vec![7], vec![7]))));
    assert_eq!(iter.next(), Some(&Op::Child));
    assert!(iter.next().is_none());
    assert_eq!(absence, (false, false));

    let mut bytes = vec![];
    encode_into(&proof, &mut bytes);
    assert_verified_query_values(
        bytes.as_slice(),
        tree.hash(),
        queryitems.as_slice(),
        vec![(vec![3], vec![3]), (vec![5], vec![5]), (vec![7], vec![7])],
    )?;
    assert_verified_values(
        bytes.as_slice(),
        tree.hash(),
        &[
            (vec![3], Some(vec![3])),
            (vec![5], Some(vec![5])),
            (vec![7], Some(vec![7])),
        ],
    )?;
    Ok(())
}

#[test]
fn global_edge_absence_proof() -> Result<(), Error> {
    let tree = make_3_node_tree()?;
    let walker = RefWalker::new(&tree);

    let queryitems = vec![QueryItem::Key(vec![8])];
    let (proof, absence) = walker
        .create_proof(queryitems.as_slice())
        .expect("create_proof errored");

    let mut iter = proof.iter();
    assert_eq!(
        iter.next(),
        Some(&Op::Push(Node::NodeHash([
            58, 114, 115, 81, 9, 53, 210, 78, 220, 23, 100, 136, 26, 152, 18, 112, 219, 217,
            48, 154, 227, 92, 100, 5, 35, 234, 194, 199, 112, 53, 188, 16
        ])))
    );
    assert_eq!(
        iter.next(),
        Some(&Op::Push(Node::KVHash([
            233, 192, 89, 232, 161, 148, 62, 69, 165, 24, 156, 25, 44, 34, 166, 17, 115, 252,
            75, 105, 14, 252, 228, 57, 78, 44, 230, 91, 45, 221, 40, 10
        ])))
    );
    assert_eq!(iter.next(), Some(&Op::Parent));
    assert_eq!(iter.next(), Some(&Op::Push(Node::KV(vec![7], vec![7]))));
    assert_eq!(iter.next(), Some(&Op::Child));
    assert!(iter.next().is_none());
    assert_eq!(absence, (false, true));

    let mut bytes = vec![];
    encode_into(&proof, &mut bytes);
    assert_verified_query_values(bytes.as_slice(), tree.hash(), queryitems.as_slice(), vec![])?;
    assert_verified_values(bytes.as_slice(), tree.hash(), &[(vec![8], None)])?;
    Ok(())
}

#[test]
fn absence_proof() -> Result<(), Error> {
    let tree = make_3_node_tree()?;
    let walker = RefWalker::new(&tree);

    let queryitems = vec![QueryItem::Key(vec![6])];
    let (proof, absence) = walker
        .create_proof(queryitems.as_slice())
        .expect("create_proof errored");

    let mut iter = proof.iter();
    assert_eq!(
        iter.next(),
        Some(&Op::Push(Node::NodeHash([
            58, 114, 115, 81, 9, 53, 210, 78, 220, 23, 100, 136, 26, 152, 18, 112, 219, 217,
            48, 154, 227, 92, 100, 5, 35, 234, 194, 199, 112, 53, 188, 16
        ])))
    );
    assert_eq!(iter.next(), Some(&Op::Push(Node::KV(vec![5], vec![5]))));
    assert_eq!(iter.next(), Some(&Op::Parent));
    assert_eq!(iter.next(), Some(&Op::Push(Node::KV(vec![7], vec![7]))));
    assert_eq!(iter.next(), Some(&Op::Child));
    assert!(iter.next().is_none());
    assert_eq!(absence, (false, false));

    let mut bytes = vec![];
    encode_into(&proof, &mut bytes);
    assert_verified_query_values(bytes.as_slice(), tree.hash(), queryitems.as_slice(), vec![])?;
    assert_verified_values(bytes.as_slice(), tree.hash(), &[(vec![6], None)])?;
    Ok(())
}

#[test]
fn doc_proof() -> Result<(), Error> {
    let tree = TreeNode::new(vec![5], vec![5])?
        .attach(
            true,
            Some(
                TreeNode::new(vec![2], vec![2])?
                    .attach(true, Some(TreeNode::new(vec![1], vec![1])?))
                    .attach(
                        false,
                        Some(
                            TreeNode::new(vec![4], vec![4])?
                                .attach(true, Some(TreeNode::new(vec![3], vec![3])?)),
                        ),
                    ),
            ),
        )
        .attach(
            false,
            Some(
                TreeNode::new(vec![9], vec![9])?
                    .attach(
                        true,
                        Some(
                            TreeNode::new(vec![7], vec![7])?
                                .attach(true, Some(TreeNode::new(vec![6], vec![6])?))
                                .attach(false, Some(TreeNode::new(vec![8], vec![8])?)),
                        ),
                    )
                    .attach(
                        false,
                        Some(
                            TreeNode::new(vec![11], vec![11])?
                                .attach(true, Some(TreeNode::new(vec![10], vec![10])?)),
                        ),
                    ),
            ),
        );

    let walker = RefWalker::new(&tree);

    let queryitems = vec![
        QueryItem::Key(vec![1]),
        QueryItem::Key(vec![2]),
        QueryItem::Key(vec![3]),
        QueryItem::Key(vec![4]),
    ];
    let (proof, absence) = walker
        .create_proof(queryitems.as_slice())
        .expect("create_proof errored");

    let mut iter = proof.iter();
    assert_eq!(iter.next(), Some(&Op::Push(Node::KV(vec![1], vec![1]))));
    assert_eq!(iter.next(), Some(&Op::Push(Node::KV(vec![2], vec![2]))));
    assert_eq!(iter.next(), Some(&Op::Parent));
    assert_eq!(iter.next(), Some(&Op::Push(Node::KV(vec![3], vec![3]))));
    assert_eq!(iter.next(), Some(&Op::Push(Node::KV(vec![4], vec![4]))));
    assert_eq!(iter.next(), Some(&Op::Parent));
    assert_eq!(iter.next(), Some(&Op::Child));
    assert_eq!(
        iter.next(),
        Some(&Op::Push(Node::KVHash([
            233, 192, 89, 232, 161, 148, 62, 69, 165, 24, 156, 25, 44, 34, 166, 17, 115, 252,
            75, 105, 14, 252, 228, 57, 78, 44, 230, 91, 45, 221, 40, 10
        ])))
    );
    assert_eq!(iter.next(), Some(&Op::Parent));
    assert_eq!(
        iter.next(),
        Some(&Op::Push(Node::NodeHash([
            185, 150, 80, 49, 7, 210, 18, 118, 201, 115, 155, 49, 189, 239, 64, 11, 31, 167,
            74, 249, 84, 113, 192, 169, 137, 13, 151, 119, 106, 146, 122, 145
        ])))
    );
    assert_eq!(iter.next(), Some(&Op::Child));
    assert!(iter.next().is_none());
    assert_eq!(absence, (false, false));

    let mut bytes = vec![];
    encode_into(&proof, &mut bytes);
    assert_eq!(
        bytes,
        vec![
            3, 0, 1, 1, 0, 1, 1, 3, 0, 1, 2, 0, 1, 2, 16, 3, 0, 1, 3, 0, 1, 3, 3, 0, 1, 4, 0,
            1, 4, 16, 17, 2, 233, 192, 89, 232, 161, 148, 62, 69, 165, 24, 156, 25, 44, 34,
            166, 17, 115, 252, 75, 105, 14, 252, 228, 57, 78, 44, 230, 91, 45, 221, 40, 10, 16,
            1, 185, 150, 80, 49, 7, 210, 18, 118, 201, 115, 155, 49, 189, 239, 64, 11, 31, 167,
            74, 249, 84, 113, 192, 169, 137, 13, 151, 119, 106, 146, 122, 145, 17
        ]
    );

    let mut bytes = vec![];
    encode_into(&proof, &mut bytes);
    assert_verified_query_values(
        bytes.as_slice(),
        tree.hash(),
        queryitems.as_slice(),
        vec![
            (vec![1], vec![1]),
            (vec![2], vec![2]),
            (vec![3], vec![3]),
            (vec![4], vec![4]),
        ],
    )?;
    assert_verified_values(
        bytes.as_slice(),
        tree.hash(),
        &[
            (vec![1], Some(vec![1])),
            (vec![2], Some(vec![2])),
            (vec![3], Some(vec![3])),
            (vec![4], Some(vec![4])),
        ],
    )?;
    Ok(())
}

#[test]
fn range_proof() {
    let tree = make_tree_seq();
    let walker = RefWalker::new(&tree);

    let queryitems = vec![QueryItem::Range(
        vec![0, 0, 0, 0, 0, 0, 0, 5]..vec![0, 0, 0, 0, 0, 0, 0, 7],
    )];
    let (proof, absence) = walker
        .create_proof(queryitems.as_slice())
        .expect("create_proof errored");

    let mut iter = proof.iter();
    assert_eq!(
        iter.next(),
        Some(&Op::Push(Node::NodeHash([
            225, 152, 183, 62, 249, 37, 189, 25, 150, 135, 171, 38, 135, 131, 58, 233, 61, 89,
            243, 198, 60, 200, 234, 170, 190, 197, 90, 25, 52, 189, 2, 65
        ])))
    );
    assert_eq!(
        iter.next(),
        Some(&Op::Push(Node::KVHash([
            49, 10, 177, 169, 208, 39, 204, 220, 74, 172, 172, 196, 88, 59, 201, 97, 108, 135,
            191, 148, 214, 89, 83, 140, 208, 113, 80, 137, 151, 104, 220, 138
        ])))
    );
    assert_eq!(iter.next(), Some(&Op::Parent));
    assert_eq!(
        iter.next(),
        Some(&Op::Push(Node::NodeHash([
            218, 57, 4, 102, 52, 65, 175, 249, 60, 207, 219, 176, 186, 249, 46, 163, 9, 9, 237,
            172, 69, 141, 86, 21, 26, 3, 209, 62, 14, 211, 217, 23
        ])))
    );
    assert_eq!(
        iter.next(),
        Some(&Op::Push(Node::KV(
            vec![0, 0, 0, 0, 0, 0, 0, 5],
            vec![123; 60]
        )))
    );
    assert_eq!(iter.next(), Some(&Op::Parent));
    assert_eq!(
        iter.next(),
        Some(&Op::Push(Node::KV(
            vec![0, 0, 0, 0, 0, 0, 0, 6],
            vec![123; 60]
        )))
    );
    assert_eq!(iter.next(), Some(&Op::Child));
    assert_eq!(
        iter.next(),
        Some(&Op::Push(Node::KV(
            vec![0, 0, 0, 0, 0, 0, 0, 7],
            vec![123; 60]
        )))
    );
    assert_eq!(iter.next(), Some(&Op::Parent));
    assert_eq!(
        iter.next(),
        Some(&Op::Push(Node::NodeHash([
            114, 190, 130, 81, 143, 185, 12, 157, 71, 145, 188, 22, 103, 48, 177, 157, 19, 101,
            136, 144, 109, 124, 95, 88, 228, 213, 5, 149, 226, 7, 106, 2
        ])))
    );
    assert_eq!(iter.next(), Some(&Op::Child));
    assert_eq!(iter.next(), Some(&Op::Child));
    assert!(iter.next().is_none());
    assert_eq!(absence, (false, false));

    let mut bytes = vec![];
    encode_into(&proof, &mut bytes);
    assert_verified_query_values(
        bytes.as_slice(),
        tree.hash(),
        queryitems.as_slice(),
        vec![
            (vec![0, 0, 0, 0, 0, 0, 0, 5], vec![123; 60]),
            (vec![0, 0, 0, 0, 0, 0, 0, 6], vec![123; 60]),
        ],
    )
    .unwrap();
    assert_verified_values(
        bytes.as_slice(),
        tree.hash(),
        &[
            (vec![0, 0, 0, 0, 0, 0, 0, 5], Some(vec![123; 60])),
            (vec![0, 0, 0, 0, 0, 0, 0, 6], Some(vec![123; 60])),
        ],
    )
    .unwrap();
}

#[test]
fn range_proof_inclusive() {
    let tree = make_tree_seq();
    let walker = RefWalker::new(&tree);

    let queryitems = vec![QueryItem::RangeInclusive(
        vec![0, 0, 0, 0, 0, 0, 0, 5]..=vec![0, 0, 0, 0, 0, 0, 0, 7],
    )];
    let (proof, absence) = walker
        .create_proof(queryitems.as_slice())
        .expect("create_proof errored");

    let mut iter = proof.iter();
    assert_eq!(
        iter.next(),
        Some(&Op::Push(Node::NodeHash([
            225, 152, 183, 62, 249, 37, 189, 25, 150, 135, 171, 38, 135, 131, 58, 233, 61, 89,
            243, 198, 60, 200, 234, 170, 190, 197, 90, 25, 52, 189, 2, 65
        ])))
    );
    assert_eq!(
        iter.next(),
        Some(&Op::Push(Node::KVHash([
            49, 10, 177, 169, 208, 39, 204, 220, 74, 172, 172, 196, 88, 59, 201, 97, 108, 135,
            191, 148, 214, 89, 83, 140, 208, 113, 80, 137, 151, 104, 220, 138
        ])))
    );
    assert_eq!(iter.next(), Some(&Op::Parent));
    assert_eq!(
        iter.next(),
        Some(&Op::Push(Node::NodeHash([
            218, 57, 4, 102, 52, 65, 175, 249, 60, 207, 219, 176, 186, 249, 46, 163, 9, 9, 237,
            172, 69, 141, 86, 21, 26, 3, 209, 62, 14, 211, 217, 23
        ])))
    );
    assert_eq!(
        iter.next(),
        Some(&Op::Push(Node::KV(
            vec![0, 0, 0, 0, 0, 0, 0, 5],
            vec![123; 60]
        )))
    );
    assert_eq!(iter.next(), Some(&Op::Parent));
    assert_eq!(
        iter.next(),
        Some(&Op::Push(Node::KV(
            vec![0, 0, 0, 0, 0, 0, 0, 6],
            vec![123; 60]
        )))
    );
    assert_eq!(iter.next(), Some(&Op::Child));
    assert_eq!(
        iter.next(),
        Some(&Op::Push(Node::KV(
            vec![0, 0, 0, 0, 0, 0, 0, 7],
            vec![123; 60]
        )))
    );
    assert_eq!(iter.next(), Some(&Op::Parent));
    assert_eq!(
        iter.next(),
        Some(&Op::Push(Node::NodeHash([
            114, 190, 130, 81, 143, 185, 12, 157, 71, 145, 188, 22, 103, 48, 177, 157, 19, 101,
            136, 144, 109, 124, 95, 88, 228, 213, 5, 149, 226, 7, 106, 2
        ])))
    );
    assert_eq!(iter.next(), Some(&Op::Child));
    assert_eq!(iter.next(), Some(&Op::Child));
    assert!(iter.next().is_none());
    assert_eq!(absence, (false, false));

    let mut bytes = vec![];
    encode_into(&proof, &mut bytes);
    assert_verified_query_values(
        bytes.as_slice(),
        tree.hash(),
        queryitems.as_slice(),
        vec![
            (vec![0, 0, 0, 0, 0, 0, 0, 5], vec![123; 60]),
            (vec![0, 0, 0, 0, 0, 0, 0, 6], vec![123; 60]),
            (vec![0, 0, 0, 0, 0, 0, 0, 7], vec![123; 60]),
        ],
    )
    .unwrap();
    assert_verified_values(
        bytes.as_slice(),
        tree.hash(),
        &[
            (vec![0, 0, 0, 0, 0, 0, 0, 5], Some(vec![123; 60])),
            (vec![0, 0, 0, 0, 0, 0, 0, 6], Some(vec![123; 60])),
            (vec![0, 0, 0, 0, 0, 0, 0, 7], Some(vec![123; 60])),
        ],
    )
    .unwrap();
}

#[test]
fn range_proof_missing_upper_bound() {
    let tree = make_tree_seq();
    let walker = RefWalker::new(&tree);

    let queryitems = vec![QueryItem::Range(
        vec![0, 0, 0, 0, 0, 0, 0, 5]..vec![0, 0, 0, 0, 0, 0, 0, 6, 5],
    )];
    let (proof, absence) = walker
        .create_proof(queryitems.as_slice())
        .expect("create_proof errored");

    let mut iter = proof.iter();
    assert_eq!(
        iter.next(),
        Some(&Op::Push(Node::NodeHash([
            225, 152, 183, 62, 249, 37, 189, 25, 150, 135, 171, 38, 135, 131, 58, 233, 61, 89,
            243, 198, 60, 200, 234, 170, 190, 197, 90, 25, 52, 189, 2, 65
        ])))
    );
    assert_eq!(
        iter.next(),
        Some(&Op::Push(Node::KVHash([
            49, 10, 177, 169, 208, 39, 204, 220, 74, 172, 172, 196, 88, 59, 201, 97, 108, 135,
            191, 148, 214, 89, 83, 140, 208, 113, 80, 137, 151, 104, 220, 138
        ])))
    );
    assert_eq!(iter.next(), Some(&Op::Parent));
    assert_eq!(
        iter.next(),
        Some(&Op::Push(Node::NodeHash([
            218, 57, 4, 102, 52, 65, 175, 249, 60, 207, 219, 176, 186, 249, 46, 163, 9, 9, 237,
            172, 69, 141, 86, 21, 26, 3, 209, 62, 14, 211, 217, 23
        ])))
    );
    assert_eq!(
        iter.next(),
        Some(&Op::Push(Node::KV(
            vec![0, 0, 0, 0, 0, 0, 0, 5],
            vec![123; 60]
        )))
    );
    assert_eq!(iter.next(), Some(&Op::Parent));
    assert_eq!(
        iter.next(),
        Some(&Op::Push(Node::KV(
            vec![0, 0, 0, 0, 0, 0, 0, 6],
            vec![123; 60]
        )))
    );
    assert_eq!(iter.next(), Some(&Op::Child));
    assert_eq!(
        iter.next(),
        Some(&Op::Push(Node::KV(
            vec![0, 0, 0, 0, 0, 0, 0, 7],
            vec![123; 60]
        )))
    );
    assert_eq!(iter.next(), Some(&Op::Parent));
    assert_eq!(
        iter.next(),
        Some(&Op::Push(Node::NodeHash([
            114, 190, 130, 81, 143, 185, 12, 157, 71, 145, 188, 22, 103, 48, 177, 157, 19, 101,
            136, 144, 109, 124, 95, 88, 228, 213, 5, 149, 226, 7, 106, 2
        ])))
    );
    assert_eq!(iter.next(), Some(&Op::Child));
    assert_eq!(iter.next(), Some(&Op::Child));
    assert!(iter.next().is_none());
    assert_eq!(absence, (false, false));

    let mut bytes = vec![];
    encode_into(&proof, &mut bytes);
    assert_verified_query_values(
        bytes.as_slice(),
        tree.hash(),
        queryitems.as_slice(),
        vec![
            (vec![0, 0, 0, 0, 0, 0, 0, 5], vec![123; 60]),
            (vec![0, 0, 0, 0, 0, 0, 0, 6], vec![123; 60]),
        ],
    )
    .unwrap();
    assert_verified_values(
        bytes.as_slice(),
        tree.hash(),
        &[
            (vec![0, 0, 0, 0, 0, 0, 0, 5], Some(vec![123; 60])),
            (vec![0, 0, 0, 0, 0, 0, 0, 6], Some(vec![123; 60])),
        ],
    )
    .unwrap();
}

#[test]
fn range_proof_missing_lower_bound() {
    let tree = make_tree_seq();
    let walker = RefWalker::new(&tree);

    let queryitems = vec![
        QueryItem::Range(vec![0, 0, 0, 0, 0, 0, 0, 5, 5]..vec![0, 0, 0, 0, 0, 0, 0, 7]),
    ];
    let (proof, absence) = walker
        .create_proof(queryitems.as_slice())
        .expect("create_proof errored");

    let mut iter = proof.iter();
    assert_eq!(
        iter.next(),
        Some(&Op::Push(Node::NodeHash([
            225, 152, 183, 62, 249, 37, 189, 25, 150, 135, 171, 38, 135, 131, 58, 233, 61, 89,
            243, 198, 60, 200, 234, 170, 190, 197, 90, 25, 52, 189, 2, 65
        ])))
    );
    assert_eq!(
        iter.next(),
        Some(&Op::Push(Node::KVHash([
            49, 10, 177, 169, 208, 39, 204, 220, 74, 172, 172, 196, 88, 59, 201, 97, 108, 135,
            191, 148, 214, 89, 83, 140, 208, 113, 80, 137, 151, 104, 220, 138
        ])))
    );
    assert_eq!(iter.next(), Some(&Op::Parent));
    assert_eq!(
        iter.next(),
        Some(&Op::Push(Node::NodeHash([
            218, 57, 4, 102, 52, 65, 175, 249, 60, 207, 219, 176, 186, 249, 46, 163, 9, 9, 237,
            172, 69, 141, 86, 21, 26, 3, 209, 62, 14, 211, 217, 23
        ])))
    );
    assert_eq!(
        iter.next(),
        Some(&Op::Push(Node::KV(
            vec![0, 0, 0, 0, 0, 0, 0, 5],
            vec![123; 60]
        )))
    );
    assert_eq!(iter.next(), Some(&Op::Parent));
    assert_eq!(
        iter.next(),
        Some(&Op::Push(Node::KV(
            vec![0, 0, 0, 0, 0, 0, 0, 6],
            vec![123; 60]
        )))
    );
    assert_eq!(iter.next(), Some(&Op::Child));
    assert_eq!(
        iter.next(),
        Some(&Op::Push(Node::KV(
            vec![0, 0, 0, 0, 0, 0, 0, 7],
            vec![123; 60]
        )))
    );
    assert_eq!(iter.next(), Some(&Op::Parent));
    assert_eq!(
        iter.next(),
        Some(&Op::Push(Node::NodeHash([
            114, 190, 130, 81, 143, 185, 12, 157, 71, 145, 188, 22, 103, 48, 177, 157, 19, 101,
            136, 144, 109, 124, 95, 88, 228, 213, 5, 149, 226, 7, 106, 2
        ])))
    );
    assert_eq!(iter.next(), Some(&Op::Child));
    assert_eq!(iter.next(), Some(&Op::Child));
    assert!(iter.next().is_none());
    assert_eq!(absence, (false, false));

    let mut bytes = vec![];
    encode_into(&proof, &mut bytes);
    assert_verified_query_values(
        bytes.as_slice(),
        tree.hash(),
        queryitems.as_slice(),
        vec![(vec![0, 0, 0, 0, 0, 0, 0, 6], vec![123; 60])],
    )
    .unwrap();
    assert_verified_values(
        bytes.as_slice(),
        tree.hash(),
        &[(vec![0, 0, 0, 0, 0, 0, 0, 6], Some(vec![123; 60]))],
    )
    .unwrap();
}

#[test]
fn verify_ops() -> Result<(), Error> {
    let tree = TreeNode::new(vec![5], vec![5])?;

    let root_hash = tree.hash();
    let walker = RefWalker::new(&tree);

    let (proof, _) = walker
        .create_proof(vec![QueryItem::Key(vec![5])].as_slice())
        .expect("failed to create proof");
    let mut bytes = vec![];

    encode_into(&proof, &mut bytes);

    let map = verify(&bytes, root_hash).unwrap();
    assert_eq!(
        map.get(vec![5].as_slice()).unwrap().unwrap(),
        vec![5].as_slice()
    );
    Ok(())
}

#[test]
#[should_panic(expected = "verify failed")]
fn verify_ops_mismatched_hash() {
    let tree = TreeNode::new(vec![5], vec![5]).expect("tree construction failed");

    let walker = RefWalker::new(&tree);

    let (proof, _) = walker
        .create_proof(vec![QueryItem::Key(vec![5])].as_slice())
        .expect("failed to create proof");
    let mut bytes = vec![];

    encode_into(&proof, &mut bytes);

    let _map = verify(&bytes, [42; 32]).expect("verify failed");
}

#[test]
#[should_panic(expected = "verify failed")]
fn verify_query_mismatched_hash() {
    let tree = make_3_node_tree().expect("tree construction failed");
    let walker = RefWalker::new(&tree);
    let (proof, _) = walker
        .create_proof(
            vec![vec![5], vec![7]]
                .into_iter()
                .map(QueryItem::Key)
                .collect::<Vec<_>>()
                .as_slice(),
        )
        .expect("failed to create proof");
    let mut bytes = vec![];
    encode_into(&proof, &mut bytes);

    let query = query_from_items(&[QueryItem::Key(vec![5]), QueryItem::Key(vec![7])]);
    let _result = verify_query(bytes.as_slice(), &query, [42; 32]).expect("verify failed");
}

#[test]
#[should_panic(expected = "Tried to attach to NodeHash node")]
fn hash_attach() {
    let target = make_3_node_tree().expect("tree construction failed");

    let proof = vec![
        Op::Push(Node::KV(vec![42], vec![42])),
        Op::Push(Node::NodeHash(target.hash())),
        Op::Parent,
    ];

    let mut bytes = vec![];
    encode_into(&proof, &mut bytes);
    let query = query_from_items(&[QueryItem::Key(vec![42])]);
    let result = verify_query(&bytes, &query, target.hash()).unwrap();
    assert_eq!(result, vec![(vec![42], vec![42])])
}

#[test]
fn proof_of_an_empty_tree_is_refused() {
    assert!(matches!(
        prove_resident(None, vec![QueryItem::Key(vec![1])]),
        Err(Error::Proof(_))
    ));
}

#[test]
fn overlong_entries_have_no_place_in_a_tree() {
    assert!(matches!(
        TreeNode::new(vec![0; 65536], vec![]),
        Err(Error::Key(_))
    ));
    assert!(matches!(
        TreeNode::new(vec![], vec![0; 65536]),
        Err(Error::Key(_))
    ));
    assert!(TreeNode::new(vec![0; 65535], vec![0; 65535]).is_ok());
}

#[test]
fn checked_proof_answers_only_what_it_shows() {
    let tree = make_tree_seq();
    let bytes = prove_resident(
        Some(&tree),
        vec![QueryItem::Range(seq_key(5)..seq_key(7))],
    )
    .unwrap();
    let map = verify(&bytes, tree.hash()).unwrap();

    assert_eq!(map.get(&seq_key(6)).unwrap(), Some(vec![123; 60].as_slice()));
    assert_eq!(map.get(&[0, 0, 0, 0, 0, 0, 0, 6, 1]).unwrap(), None);
    assert!(matches!(map.get(&seq_key(4)), Err(Error::MissingData)));
    assert!(matches!(map.get(&seq_key(9)), Err(Error::MissingData)));

    assert_eq!(
        map.range(&QueryItem::RangeInclusive(seq_key(5)..=seq_key(7)))
            .unwrap()
            .into_iter()
            .map(|(key, _)| key)
            .collect::<Vec<_>>(),
        vec![seq_key(5), seq_key(6), seq_key(7)]
    );
    assert!(matches!(
        map.range(&QueryItem::Range(seq_key(5)..seq_key(8))),
        Err(Error::MissingData)
    ));
    assert!(matches!(
        map.range(&QueryItem::Range(seq_key(4)..seq_key(6))),
        Err(Error::MissingData)
    ));
}

#[test]
fn malformed_steps_are_refused() {
    let query = Query::new();
    let hash = [0; 32];
    let encoded = |ops: &[Op]| {
        let mut bytes = vec![];
        encode_into(ops, &mut bytes);
        bytes
    };
    assert!(matches!(
        verify_query(&[0x7f], &query, hash),
        Err(Error::Ed(_))
    ));
    assert!(matches!(
        verify_query(&[3, 0, 2, 1], &query, hash),
        Err(Error::Ed(_))
    ));
    assert!(matches!(
        verify_query(&encoded(&[]), &query, hash),
        Err(Error::Proof(_))
    ));
    assert!(matches!(
        verify_query(&encoded(&[Op::Parent]), &query, hash),
        Err(Error::Proof(_))
    ));
    let kv = |key: u8| Op::Push(Node::KV(vec![key], vec![key]));
    assert!(matches!(
        verify_query(&encoded(&[kv(2), kv(1), Op::Parent]), &query, hash),
        Err(Error::Proof(_))
    ));
    assert!(matches!(
        verify_query(&encoded(&[kv(1), kv(2)]), &query, hash),
        Err(Error::Proof(_))
    ));
    assert!(matches!(
        verify_query(
            &encoded(&[kv(1), kv(2), kv(3), Op::Child, Op::Parent, kv(4), Op::Child]),
            &query,
            hash
        ),
        Err(Error::Proof(_))
    ));
    let bytes = encoded(&[kv(1), kv(2), Op::Parent]);
    assert!(matches!(
        verify_query(&bytes, &query, hash),
        Err(Error::HashMismatch(_, _))
    ));
    let tree = TreeNode::new(vec![2], vec![2])
        .unwrap()
        .attach(true, Some(TreeNode::new(vec![1], vec![1]).unwrap()));
    assert!(verify_query(&bytes, &query, tree.hash()).unwrap().is_empty());
}

#[test]
fn hidden_lower_bound_is_refused() {
    let tree = make_3_node_tree().unwrap();
    let bytes = prove_resident(Some(&tree), vec![QueryItem::Key(vec![5])]).unwrap();
    let query = Query::from(vec![QueryItem::Range(vec![4]..vec![6])]);
    assert!(matches!(
        verify_query(&bytes, &query, tree.hash()),
        Err(Error::Bound(_))
    ));
}
