//! A Merkle search tree in memory, and proofs of what a query finds in it.

use vstd::prelude::*;

use crate::bits::{key_copy, key_less, key_lt};
use crate::error::{Error, Fault};
use crate::hash::{sha256, sha256_of, NodeHash, NULL_HASH};
use crate::mrt::node::append_bytes;
use crate::proofs::op::{steps, Node, Op, Shown, Step, MAX_ITEM_LEN};
use crate::proofs::query::{parts, place_of, position, QueryItem, QueryPart, Relation};
use crate::text::told;

verus! {

/// A binary search tree.
pub enum Bst {
    Empty,
    Node { key: Seq<u8>, value: Seq<u8>, left: Box<Bst>, right: Box<Bst> },
}

/// A number as four bytes, least significant first.
#[verifier::opaque]
pub open spec fn le32(n: nat) -> Seq<u8> {
    seq![(n % 256) as u8, (n / 256 % 256) as u8, (n / 65536 % 256) as u8, (n / 16777216 % 256) as u8]
}

/// What the hash of an entry covers.
pub open spec fn kv_preimage(key: Seq<u8>, value: Seq<u8>) -> Seq<u8> {
    seq![0u8] + le32(key.len()) + key + le32(value.len()) + value
}

/// What the hash of a node covers.
pub open spec fn node_preimage(left: NodeHash, kv: NodeHash, right: NodeHash) -> Seq<u8> {
    seq![1u8] + left@ + kv@ + right@
}

impl Bst {
    /// The hash: that of the root, or all zeros if there is none.
    pub open spec fn hash(self) -> NodeHash
        decreases self,
    {
        match self {
            Bst::Empty => NULL_HASH,
            Bst::Node { key, value, left, right } => sha256_of(
                node_preimage(left.hash(), sha256_of(kv_preimage(key, value)), right.hash()),
            ),
        }
    }

    /// The entries, in the order of the tree.
    pub open spec fn entries(self) -> Seq<(Seq<u8>, Seq<u8>)>
        decreases self,
    {
        match self {
            Bst::Empty => Seq::empty(),
            Bst::Node { key, value, left, right } => left.entries() + seq![(key, value)] + right.entries(),
        }
    }

    /// Whether no key or value is too long for the byte form of proofs.
    pub open spec fn fits(self) -> bool
        decreases self,
    {
        match self {
            Bst::Empty => true,
            Bst::Node { key, value, left, right } => key.len() <= MAX_ITEM_LEN && value.len() <= MAX_ITEM_LEN && left.fits()
                && right.fits(),
        }
    }
}

/// A tree has proofs just if no key or value of its entries is longer than two bytes
/// can count.
pub proof fn law_short_entries_fit(t: Bst)
    ensures
        t.fits() <==> forall|i: int| 0 <= i < t.entries().len() ==> (#[trigger] t.entries()[i]).0.len() <= u16::MAX
            && t.entries()[i].1.len() <= u16::MAX,
    decreases t,
{
    if let Bst::Node { key, value, left, right } = t {
        let (l, r, all) = (left.entries(), right.entries(), t.entries());
        let n = l.len() as int;
        law_short_entries_fit(*left);
        law_short_entries_fit(*right);
        assert(all[n] == (key, value));
        assert forall|i: int| 0 <= i < l.len() implies #[trigger] l[i] == all[i] by {}
        assert forall|i: int| 0 <= i < r.len() implies #[trigger] r[i] == all[n + 1 + i] by {}
        if t.fits() {
            assert forall|i: int| 0 <= i < all.len() implies (#[trigger] all[i]).0.len() <= u16::MAX && all[i].1.len()
                <= u16::MAX by {
                if i < n {
                    assert(l[i] == all[i]);
                } else if i > n {
                    assert(r[i - n - 1] == all[i]);
                }
            }
        }
    }
}

/// Whether keys strictly increase.
pub open spec fn ascending(rows: Seq<(Seq<u8>, Seq<u8>)>) -> bool {
    forall|i: int, j: int| 0 <= i < j < rows.len() ==> key_lt((#[trigger] rows[i]).0, (#[trigger] rows[j]).0)
}

/// The steps of a proof, and whether a key that is asked for may lie before or
/// after all that they show.
pub struct Proven {
    pub ops: Seq<Step>,
    pub left_edge: bool,
    pub right_edge: bool,
}

/// The items that concern the subtree left of a node with `key`.
pub open spec fn items_left(items: Seq<QueryPart>, key: Seq<u8>) -> Seq<QueryPart> {
    let i = place_of(items, QueryPart::Key(key));
    if meets_at(items, key) && key_lt(items[i].lower(), key) {
        items.take(i + 1)
    } else {
        items.take(i)
    }
}

/// The items that concern the subtree right of a node with `key`.
pub open spec fn items_right(items: Seq<QueryPart>, key: Seq<u8>) -> Seq<QueryPart> {
    let i = place_of(items, QueryPart::Key(key));
    if meets_at(items, key) && !key_lt(key, items[i].upper()) {
        items.skip(i + 1)
    } else {
        items.skip(i)
    }
}

/// Whether the key of a node is asked for.
pub open spec fn meets_at(items: Seq<QueryPart>, key: Seq<u8>) -> bool {
    let i = place_of(items, QueryPart::Key(key));
    0 <= i < items.len() && items[i].relation(QueryPart::Key(key)) is Meets
}

/// The steps that show a node between what is shown of its children.
pub open spec fn around(left: Seq<Step>, node: Shown, right: Seq<Step>) -> Seq<Step> {
    let head = if left.len() > 0 {
        left.push(Step::Push(node)).push(Step::Parent)
    } else {
        left.push(Step::Push(node))
    };
    if right.len() > 0 {
        (head + right).push(Step::Child)
    } else {
        head
    }
}

/// What a proof shows of the root: its entry, if it is asked for or if a key
/// next to it may be; else the hash of the entry.
pub open spec fn shown_root(items: Seq<QueryPart>, key: Seq<u8>, value: Seq<u8>, l: Proven, r: Proven) -> Shown {
    if meets_at(items, key) || l.right_edge || r.left_edge {
        Shown::KV(key, value)
    } else {
        Shown::KVHash(sha256_of(kv_preimage(key, value)))
    }
}

/// The proof of what items find in a tree that is not empty.
pub open spec fn proof_of(t: Bst, items: Seq<QueryPart>) -> Proven
    decreases t, 0int,
{
    match t {
        Bst::Empty => Proven { ops: Seq::empty(), left_edge: true, right_edge: true },
        Bst::Node { key, value, left, right } => {
            let l = child_proof(*left, items_left(items, key));
            let r = child_proof(*right, items_right(items, key));
            Proven {
                ops: around(l.ops, shown_root(items, key, value, l, r), r.ops),
                left_edge: l.left_edge,
                right_edge: r.right_edge,
            }
        },
    }
}

/// The proof of what items find in a subtree; with no items, its hash alone.
pub open spec fn child_proof(t: Bst, items: Seq<QueryPart>) -> Proven
    decreases t, 1int,
{
    if items.len() > 0 {
        proof_of(t, items)
    } else {
        Proven {
            ops: if t is Empty {
                Seq::empty()
            } else {
                seq![Step::Push(Shown::NodeHash(t.hash()))]
            },
            left_edge: false,
            right_edge: false,
        }
    }
}

/// Appends `n` to `out` as four bytes, least significant first.
fn append_le32(out: &mut Vec<u8>, n: u32)
    ensures
        final(out)@ == old(out)@ + le32(n as nat),
{
    proof {
        reveal(le32);
    }
    let ghost before = out@;
    out.push((n % 256) as u8);
    out.push((n / 256 % 256) as u8);
    out.push((n / 65536 % 256) as u8);
    out.push((n / 16777216 % 256) as u8);
    assert(out@ =~= before + le32(n as nat));
}

/// The hash of an entry: SHA-256 over a zero, and the key and the value with
/// their lengths.
pub fn kv_hash(key: &[u8], value: &[u8]) -> (hash: NodeHash)
    requires
        key@.len() <= MAX_ITEM_LEN,
        value@.len() <= MAX_ITEM_LEN,
    ensures
        hash == sha256_of(kv_preimage(key@, value@)),
{
    let mut preimage: Vec<u8> = Vec::new();
    preimage.push(0);
    append_le32(&mut preimage, key.len() as u32);
    append_bytes(&mut preimage, key);
    append_le32(&mut preimage, value.len() as u32);
    append_bytes(&mut preimage, value);
    assert(preimage@ =~= kv_preimage(key@, value@));
    sha256(preimage.as_slice())
}

/// The hash of a node: SHA-256 over a one, the hash of the left child, that of
/// the entry, and that of the right child.
pub fn node_hash(left: &NodeHash, kv: &NodeHash, right: &NodeHash) -> (hash: NodeHash)
    ensures
        hash == sha256_of(node_preimage(*left, *kv, *right)),
{
    let mut preimage: Vec<u8> = Vec::new();
    preimage.push(1);
    append_bytes(&mut preimage, left.as_slice());
    append_bytes(&mut preimage, kv.as_slice());
    append_bytes(&mut preimage, right.as_slice());
    assert(preimage@ =~= node_preimage(*left, *kv, *right));
    sha256(preimage.as_slice())
}

/// A node of the tree, with all that is below it.
#[derive(Debug)]
pub struct TreeNode {
    key: Vec<u8>,
    value: Vec<u8>,
    left: Option<Box<TreeNode>>,
    right: Option<Box<TreeNode>>,
    kv_hash: NodeHash,
    hash: NodeHash,
}

/// The tree below a child that may be missing.
pub closed spec fn child_bst(child: Option<Box<TreeNode>>) -> Bst
    decreases child,
{
    match child {
        Some(node) => node.bst(),
        None => Bst::Empty,
    }
}

impl TreeNode {
    /// The tree.
    pub closed spec fn bst(self) -> Bst
        decreases self,
    {
        Bst::Node {
            key: self.key@,
            value: self.value@,
            left: Box::new(child_bst(self.left)),
            right: Box::new(child_bst(self.right)),
        }
    }

    #[verifier::type_invariant]
    spec fn inv(self) -> bool {
        &&& self.bst().fits()
        &&& self.kv_hash == sha256_of(kv_preimage(self.key@, self.value@))
        &&& self.hash == self.bst().hash()
    }

    /// A node without children. Keys and values that the byte form of proofs
    /// has no room for are refused.
    pub fn new(key: Vec<u8>, value: Vec<u8>) -> (r: Result<TreeNode, Error>)
        ensures
            r is Ok <==> key@.len() <= MAX_ITEM_LEN && value@.len() <= MAX_ITEM_LEN,
            r matches Ok(node) ==> node.bst() == (Bst::Node {
                key: key@,
                value: value@,
                left: Box::new(Bst::Empty),
                right: Box::new(Bst::Empty),
            }),
            r matches Err(e) ==> e.fault() == Fault::Key,
    {
        if key.len() > MAX_ITEM_LEN || value.len() > MAX_ITEM_LEN {
            return Err(Error::Key(told("Key or value is too long")));
        }
        let kv_hash: NodeHash = kv_hash(key.as_slice(), value.as_slice());
        let hash: NodeHash = node_hash(&NULL_HASH, &kv_hash, &NULL_HASH);
        proof {
            reveal_with_fuel(Bst::hash, 2);
            reveal_with_fuel(Bst::fits, 2);
        }
        Ok(TreeNode { key, value, left: None, right: None, kv_hash, hash })
    }

    /// The node with a subtree as its left or right child, where it has none.
    pub fn attach(self, left: bool, maybe_child: Option<TreeNode>) -> (r: TreeNode)
        requires
            self.bst() matches Bst::Node { key, value, left: l, right: r } && (if left {
                *l is Empty
            } else {
                *r is Empty
            }),
        ensures
            self.bst() matches Bst::Node { key, value, left: l, right: rt } && r.bst() == (Bst::Node {
                key,
                value,
                left: if left {
                    Box::new(maybe_bst(maybe_child))
                } else {
                    l
                },
                right: if left {
                    rt
                } else {
                    Box::new(maybe_bst(maybe_child))
                },
            }),
    {
        let child: TreeNode = match maybe_child {
            Some(child) => child,
            None => {
                return self;
            },
        };
        proof {
            use_type_invariant(&self);
            use_type_invariant(&child);
        }
        if left {
            let right_hash: NodeHash = child_hash(&self.right);
            let hash: NodeHash = node_hash(&child.hash, &self.kv_hash, &right_hash);
            TreeNode {
                key: self.key,
                value: self.value,
                left: Some(Box::new(child)),
                right: self.right,
                kv_hash: self.kv_hash,
                hash,
            }
        } else {
            let left_hash: NodeHash = child_hash(&self.left);
            let hash: NodeHash = node_hash(&left_hash, &self.kv_hash, &child.hash);
            TreeNode {
                key: self.key,
                value: self.value,
                left: self.left,
                right: Some(Box::new(child)),
                kv_hash: self.kv_hash,
                hash,
            }
        }
    }

    /// The hash.
    pub fn hash(&self) -> (hash: NodeHash)
        ensures
            hash == self.bst().hash(),
    {
        proof {
            use_type_invariant(self);
        }
        self.hash
    }

    /// Shows the hash of this node.
    fn to_hash_node(&self) -> (node: Node)
        ensures
            node@ == Shown::NodeHash(self.bst().hash()),
    {
        Node::NodeHash(self.hash())
    }
}

/// The tree of a node that may be missing.
pub open spec fn maybe_bst(node: Option<TreeNode>) -> Bst {
    match node {
        Some(node) => node.bst(),
        None => Bst::Empty,
    }
}

/// As [`maybe_bst`], for a borrowed node.
pub open spec fn maybe_bst_ref(node: Option<&TreeNode>) -> Bst {
    match node {
        Some(node) => node.bst(),
        None => Bst::Empty,
    }
}

/// The hash of a child that may be missing.
fn child_hash(child: &Option<Box<TreeNode>>) -> (hash: NodeHash)
    ensures
        hash == child_bst(*child).hash(),
{
    match child {
        Some(node) => node.hash(),
        None => NULL_HASH,
    }
}

/// A place in a tree.
#[derive(Clone, Copy, Debug)]
pub struct RefWalker<'a> {
    tree: &'a TreeNode,
}

impl<'a> RefWalker<'a> {
    /// The tree at this place.
    pub closed spec fn bst(&self) -> Bst {
        self.tree.bst()
    }

    /// At the root of a tree.
    pub fn new(tree: &'a TreeNode) -> (r: Self)
        ensures
            r.bst() == tree.bst(),
            tree.bst().fits(),
    {
        proof {
            use_type_invariant(tree);
        }
        RefWalker { tree }
    }

    /// Shows the entry of the node at this place.
    pub fn to_kv_node(&self) -> (node: Node)
        ensures
            self.bst() matches Bst::Node { key, value, left, right } && node@ == Shown::KV(key, value),
    {
        Node::KV(key_copy(self.tree.key.as_slice()), key_copy(self.tree.value.as_slice()))
    }

    /// Shows the hash of the entry of the node at this place.
    pub fn to_kvhash_node(&self) -> (node: Node)
        ensures
            self.bst() matches Bst::Node { key, value, left, right } && node@ == Shown::KVHash(
                sha256_of(kv_preimage(key, value)),
            ),
    {
        proof {
            use_type_invariant(self.tree);
        }
        Node::KVHash(self.tree.kv_hash)
    }

    /// The steps that prove what the items find here, and whether a key that is
    /// asked for may lie before or after all that they show.
    pub fn create_proof(&self, query: &[QueryItem]) -> (r: Result<(Vec<Op>, (bool, bool)), Error>)
        ensures
            r matches Ok((ops, absence)) && steps(ops@) == proof_of(self.bst(), parts(query@)).ops && absence.0 == proof_of(
                self.bst(),
                parts(query@),
            ).left_edge && absence.1 == proof_of(self.bst(), parts(query@)).right_edge,
        decreases self.bst(), 1int,
    {
        let ghost items = parts(query@);
        let node_key = QueryItem::Key(key_copy(self.tree.key.as_slice()));
        let key: &[u8] = self.tree.key.as_slice();
        let index: usize = position(query, &node_key);
        assert(index < query@.len() ==> items[index as int] == query@[index as int]@);
        let found: bool = index < query.len() && query[index].relation(&node_key) == Relation::Meets;
        let left_end: usize = if found && key_less(query[index].lower_bound(), key) {
            index + 1
        } else {
            index
        };
        let right_start: usize = if found && !key_less(key, query[index].upper_bound().0) {
            index + 1
        } else {
            index
        };
        let left_items: &[QueryItem] = vstd::slice::slice_subrange(query, 0, left_end);
        let right_items: &[QueryItem] = vstd::slice::slice_subrange(query, right_start, query.len());
        assert(parts(left_items@) =~= items_left(items, key@));
        assert(parts(right_items@) =~= items_right(items, key@));
        let (mut proof_ops, left_absence) = match self.create_child_proof(true, left_items) {
            Ok(p) => p,
            Err(e) => {
                return Err(e);
            },
        };
        let (mut right_proof, right_absence) = match self.create_child_proof(false, right_items) {
            Ok(p) => p,
            Err(e) => {
                return Err(e);
            },
        };
        let ghost l = proof_ops@;
        let ghost r = right_proof@;
        let has_left: bool = proof_ops.len() > 0;
        let has_right: bool = right_proof.len() > 0;
        if found || left_absence.1 || right_absence.0 {
            proof_ops.push(Op::Push(self.to_kv_node()));
        } else {
            proof_ops.push(Op::Push(self.to_kvhash_node()));
        }
        let ghost node = proof_ops@.last();
        if has_left {
            proof_ops.push(Op::Parent);
        }
        if has_right {
            proof_ops.append(&mut right_proof);
            proof_ops.push(Op::Child);
        }
        proof {
            assert(steps(proof_ops@) =~= around(steps(l), node@->Push_0, steps(r)));
        }
        Ok((proof_ops, (left_absence.0, right_absence.1)))
    }

    fn create_child_proof(&self, left: bool, query: &[QueryItem]) -> (r: Result<(Vec<Op>, (bool, bool)), Error>)
        ensures
            self.bst() matches Bst::Node { key, value, left: lt, right: rt } && ({
                let p = child_proof(
                    if left {
                        *lt
                    } else {
                        *rt
                    },
                    parts(query@),
                );
                r matches Ok((ops, absence)) && steps(ops@) == p.ops && absence.0 == p.left_edge && absence.1
                    == p.right_edge
            }),
        decreases self.bst(), 0int,
    {
        let child: &Option<Box<TreeNode>> = if left {
            &self.tree.left
        } else {
            &self.tree.right
        };
        if query.len() > 0 {
            match child {
                Some(node) => RefWalker::new(&**node).create_proof(query),
                None => {
                    let ops: Vec<Op> = Vec::new();
                    assert(steps(ops@) =~= Seq::empty());
                    Ok((ops, (true, true)))
                },
            }
        } else {
            let mut ops: Vec<Op> = Vec::new();
            match child {
                Some(node) => {
                    ops.push(Op::Push(node.to_hash_node()));
                },
                None => {},
            }
            proof {
                let t = child_bst(*child);
                assert(steps(ops@) =~= child_proof(t, parts(query@)).ops);
            }
            Ok((ops, (false, false)))
        }
    }
}

} // verus!
