//! Nodes of a shared, immutable trie, each with its hash and depth at hand.

use std::sync::Arc;

use vstd::prelude::*;

use crate::error::{Error, Fault};
use crate::hash::{sha256, NodeHash};
use crate::mrt::model::{be32, branch_preimage, framed, leaf_preimage, max, Trie};
use crate::mrt::route::{route, route_bits_of, RouteBits, MAX_KEY_LEN, MAX_ROUTE_BITS};
use crate::text::{decimal, told, told_numbers};

verus! {

/// What a node holds.
#[derive(Debug, PartialEq, Eq)]
pub enum MrtNode {
    /// The end of a key's route, and the value stored under that key. The rest
    /// of the key is the way from the root to the leaf.
    Leaf { skip: RouteBits, value: Vec<u8> },
    /// The bits that all routes below share, and the children that the next bit picks.
    Branch { skip: RouteBits, left: Arc<MrtNodeInner>, right: Arc<MrtNodeInner> },
    /// Only the hash and the depth are known.
    PrunedHash,
}

/// A node with its hash and the number of bits down to its deepest leaf.
#[derive(Debug, PartialEq, Eq)]
pub struct MrtNodeInner {
    node: MrtNode,
    hash: NodeHash,
    depth_below: u16,
}

impl MrtNodeInner {
    /// The trie below this node.
    pub closed spec fn trie(&self) -> Trie
        decreases self,
    {
        match self.node {
            MrtNode::Leaf { skip, value } => Trie::Leaf { skip: skip@, value: value@ },
            MrtNode::Branch { skip, left, right } => Trie::Branch {
                skip: skip@,
                left: Box::new(left.trie()),
                right: Box::new(right.trie()),
            },
            MrtNode::PrunedHash => Trie::Pruned { hash: self.hash, depth: self.depth_below as nat },
        }
    }

    #[verifier::type_invariant]
    spec fn inv(self) -> bool {
        &&& self.hash == self.trie().hash()
        &&& self.depth_below == self.trie().depth()
        &&& self.depth_below <= MAX_ROUTE_BITS
    }
}

/// Whether `node` is the root of `t`.
pub open spec fn is_root_of(node: MrtNode, t: Trie) -> bool {
    match node {
        MrtNode::Leaf { skip, value } => t == (Trie::Leaf { skip: skip@, value: value@ }),
        MrtNode::Branch { skip, left, right } => t == (Trie::Branch {
            skip: skip@,
            left: Box::new(left.trie()),
            right: Box::new(right.trie()),
        }),
        MrtNode::PrunedHash => t is Pruned,
    }
}

/// The trie below a root that may be missing.
pub open spec fn root_trie(root: Option<Arc<MrtNodeInner>>) -> Option<Trie> {
    match root {
        Some(node) => Some(node.trie()),
        None => None,
    }
}

/// Calls `std::sync::Arc::clone`, which makes another handle to the same
/// node. The contract claims that the handle leads to an equal node.
#[verifier::external_body]
pub(crate) fn share(node: &Arc<MrtNodeInner>) -> (r: Arc<MrtNodeInner>)
    ensures
        r == *node,
{
    Arc::clone(node)
}

impl MrtNodeInner {
    /// A leaf.
    pub fn leaf(skip: RouteBits, value: Vec<u8>) -> (r: Arc<Self>)
        ensures
            r.trie() == (Trie::Leaf { skip: skip@, value: value@ }),
    {
        let hash: NodeHash = compute_leaf_hash(&skip, value.as_slice());
        let depth_below: u16 = skip.bit_len();
        Arc::new(MrtNodeInner { node: MrtNode::Leaf { skip, value }, hash, depth_below })
    }

    /// The leaf of `key` in a trie that holds nothing else.
    pub fn leaf_value(key: Vec<u8>, value: Vec<u8>) -> (r: Arc<Self>)
        requires
            key@.len() <= MAX_KEY_LEN,
        ensures
            r.trie() == (Trie::Leaf { skip: route(key@), value: value@ }),
    {
        MrtNodeInner::leaf(route_bits_of(key.as_slice()), value)
    }

    /// A branch, no deeper than a key can be long.
    pub fn branch(skip: RouteBits, left: Arc<MrtNodeInner>, right: Arc<MrtNodeInner>) -> (r: Arc<Self>)
        requires
            skip@.len() + 1 + max(left.trie().depth(), right.trie().depth()) <= MAX_ROUTE_BITS,
        ensures
            r.trie() == (Trie::Branch {
                skip: skip@,
                left: Box::new(left.trie()),
                right: Box::new(right.trie()),
            }),
    {
        proof {
            use_type_invariant(&*left);
            use_type_invariant(&*right);
        }
        let hash: NodeHash = compute_branch_hash(&left.hash, &right.hash, left.depth_below, right.depth_below, &skip);
        let depth_below: u16 = branch_depth_below(skip.bit_len(), left.depth_below, right.depth_below);
        Arc::new(MrtNodeInner { node: MrtNode::Branch { skip, left, right }, hash, depth_below })
    }

    /// A stub for a subtrie of which only the hash and the depth are known.
    pub fn pruned(hash: NodeHash, depth_below: u16) -> (r: Arc<Self>)
        requires
            depth_below <= MAX_ROUTE_BITS,
        ensures
            r.trie() == (Trie::Pruned { hash, depth: depth_below as nat }),
    {
        Arc::new(MrtNodeInner { node: MrtNode::PrunedHash, hash, depth_below })
    }

    /// What the node holds.
    pub fn node(&self) -> (node: &MrtNode)
        ensures
            is_root_of(*node, self.trie()),
            self.trie().depth() <= MAX_ROUTE_BITS,
            self.trie() matches Trie::Branch { skip, left, right } ==> left.depth() <= MAX_ROUTE_BITS && right.depth()
                <= MAX_ROUTE_BITS,
    {
        proof {
            use_type_invariant(self);
        }
        &self.node
    }

    /// The hash.
    pub fn hash(&self) -> (hash: NodeHash)
        ensures
            hash == self.trie().hash(),
    {
        proof {
            use_type_invariant(self);
        }
        self.hash
    }

    /// The number of bits down to the deepest leaf.
    pub fn depth_below(&self) -> (n: u16)
        ensures
            n == self.trie().depth(),
            n <= MAX_ROUTE_BITS,
    {
        proof {
            use_type_invariant(self);
        }
        self.depth_below
    }
}

/// Appends `tail` to `out`.
pub fn append_bytes(out: &mut Vec<u8>, tail: &[u8])
    ensures
        final(out)@ == old(out)@ + tail@,
{
    let mut i: usize = 0;
    let ghost before = out@;
    assert(before + tail@.take(0) =~= before);
    while i < tail.len()
        invariant
            i <= tail@.len(),
            out@ == before + tail@.take(i as int),
        decreases tail@.len() - i,
    {
        out.push(tail[i]);
        proof {
            assert((before + tail@.take(i as int)).push(tail@[i as int]) =~= before + tail@.take(i + 1));
        }
        i = i + 1;
    }
    assert(tail@.take(tail@.len() as int) =~= tail@);
}

/// Appends `n` to `out` as four bytes, most significant first.
pub fn append_be32(out: &mut Vec<u8>, n: u32)
    ensures
        final(out)@ == old(out)@ + be32(n as nat),
{
    proof {
        reveal(be32);
    }
    let ghost before = out@;
    out.push((n / 16777216 % 256) as u8);
    out.push((n / 65536 % 256) as u8);
    out.push((n / 256 % 256) as u8);
    out.push((n % 256) as u8);
    assert(out@ =~= before + be32(n as nat));
}

/// Appends a bit count and the packed bits to `out`.
pub fn append_framed(out: &mut Vec<u8>, skip: &RouteBits)
    ensures
        final(out)@ == old(out)@ + framed(skip@),
{
    let ghost before = out@;
    append_be32(out, skip.bit_len() as u32);
    append_bytes(out, skip.packed_bytes());
    assert(out@ =~= before + framed(skip@));
}

/// The hash of a leaf: SHA-256 over the framed skip, the value, and a one. The
/// value needs no length, as the skip has one and the digest covers the end.
pub fn compute_leaf_hash(skip: &RouteBits, value: &[u8]) -> (hash: NodeHash)
    ensures
        hash == sha256_leaf(skip@, value@),
{
    let mut preimage: Vec<u8> = Vec::new();
    append_framed(&mut preimage, skip);
    append_bytes(&mut preimage, value);
    preimage.push(1);
    assert(preimage@ =~= leaf_preimage(skip@, value@));
    sha256(preimage.as_slice())
}

/// The hash of a branch: SHA-256 over the children's hashes, their depths, the
/// framed skip, and a zero.
pub fn compute_branch_hash(
    left_hash: &NodeHash,
    right_hash: &NodeHash,
    left_depth_below: u16,
    right_depth_below: u16,
    skip: &RouteBits,
) -> (hash: NodeHash)
    ensures
        hash == crate::hash::sha256_of(
            branch_preimage(*left_hash, *right_hash, left_depth_below as nat, right_depth_below as nat, skip@),
        ),
{
    let mut preimage: Vec<u8> = Vec::new();
    append_bytes(&mut preimage, left_hash.as_slice());
    append_bytes(&mut preimage, right_hash.as_slice());
    append_be32(&mut preimage, left_depth_below as u32);
    append_be32(&mut preimage, right_depth_below as u32);
    append_framed(&mut preimage, skip);
    preimage.push(0);
    assert(preimage@ =~= branch_preimage(
        *left_hash,
        *right_hash,
        left_depth_below as nat,
        right_depth_below as nat,
        skip@,
    ));
    sha256(preimage.as_slice())
}

pub open spec fn sha256_leaf(skip: Seq<bool>, value: Seq<u8>) -> NodeHash {
    crate::hash::sha256_of(leaf_preimage(skip, value))
}

/// The depth of a branch, from the length of its skip and the depths of its children.
pub fn branch_depth_below(skip_bits: u16, left: u16, right: u16) -> (n: u16)
    ensures
        n == (if skip_bits + 1 + max(left as nat, right as nat) <= 65535 {
            (skip_bits + 1 + max(left as nat, right as nat)) as int
        } else {
            65535
        }),
{
    let deeper: u16 = if left >= right { left } else { right };
    skip_bits.saturating_add(1).saturating_add(deeper)
}

/// The depth of a branch, unless it is deeper than a key can be long.
pub fn checked_branch_depth_below(skip_bits: u16, left: u16, right: u16) -> (r: Result<u16, Error>)
    ensures
        r is Ok <==> skip_bits + 1 + max(left as nat, right as nat) <= MAX_ROUTE_BITS,
        r matches Ok(n) ==> n == skip_bits + 1 + max(left as nat, right as nat),
        r matches Err(e) ==> e.fault() == Fault::Tree,
{
    let deeper: u16 = if left >= right { left } else { right };
    match skip_bits.checked_add(1) {
        Some(n) => match n.checked_add(deeper) {
            Some(raw) => validate_depth_below(raw),
            None => Err(Error::Tree(told("MRT branch depth_below overflow"))),
        },
        None => Err(Error::Tree(told("MRT branch depth_below overflow"))),
    }
}

/// Refuses a depth that no key can reach.
pub fn validate_depth_below(depth_below: u16) -> (r: Result<u16, Error>)
    ensures
        r is Ok <==> depth_below <= MAX_ROUTE_BITS,
        r matches Ok(n) ==> n == depth_below,
        r matches Err(e) ==> e.fault() == Fault::Tree && e.text() == "MRT depth_below "@ + decimal(depth_below as nat)
            + " exceeds maximum "@ + decimal(MAX_ROUTE_BITS as nat),
{
    if depth_below > MAX_ROUTE_BITS {
        return Err(
            Error::Tree(told_numbers("MRT depth_below ", depth_below as u64, " exceeds maximum ", MAX_ROUTE_BITS as u64)),
        );
    }
    Ok(depth_below)
}

/// A branch from untrusted children, unless it is deeper than a key can be long.
pub fn decode_branch(skip: RouteBits, left: Arc<MrtNodeInner>, right: Arc<MrtNodeInner>) -> (r: Result<
    Arc<MrtNodeInner>,
    Error,
>)
    ensures
        r is Ok <==> skip@.len() + 1 + max(left.trie().depth(), right.trie().depth()) <= MAX_ROUTE_BITS,
        r matches Ok(node) ==> node.trie() == (Trie::Branch {
            skip: skip@,
            left: Box::new(left.trie()),
            right: Box::new(right.trie()),
        }),
        r matches Err(e) ==> e.fault() == Fault::Tree,
{
    match checked_branch_depth_below(skip.bit_len(), left.depth_below(), right.depth_below()) {
        Ok(_) => Ok(MrtNodeInner::branch(skip, left, right)),
        Err(e) => Err(e),
    }
}

/// A stub from untrusted parts, unless its depth is more than a key can be long.
pub fn decode_pruned(hash: NodeHash, depth_below: u16) -> (r: Result<Arc<MrtNodeInner>, Error>)
    ensures
        r is Ok <==> depth_below <= MAX_ROUTE_BITS,
        r matches Ok(node) ==> node.trie() == (Trie::Pruned { hash, depth: depth_below as nat }),
        r matches Err(e) ==> e.fault() == Fault::Tree,
{
    match validate_depth_below(depth_below) {
        Ok(n) => Ok(MrtNodeInner::pruned(hash, n)),
        Err(e) => Err(e),
    }
}

} // verus!
