//! The tree that the steps of a proof build.

use vstd::prelude::*;

use crate::bits::{key_copy, key_less, key_lt};
use crate::error::{Error, Fault};
use crate::hash::{sha256_of, NodeHash, NULL_HASH};
use crate::proofs::op::{lemma_parse_step_shrinks, parse_step, Decoder, Node, Op, Shown, Step};
use crate::proofs::search_tree::{kv_hash, kv_preimage, node_hash, node_preimage};
use crate::text::told;

verus! {

/// A part of a tree, as a proof shows it.
pub enum Partial {
    Missing,
    Node { node: Shown, left: Box<Partial>, right: Box<Partial> },
}

impl Partial {
    /// The hash: that of the root, or all zeros if there is none.
    pub open spec fn hash(self) -> NodeHash
        decreases self,
    {
        match self {
            Partial::Missing => NULL_HASH,
            Partial::Node { node, left, right } => match node {
                Shown::NodeHash(h) => h,
                Shown::KVHash(h) => sha256_of(node_preimage(left.hash(), h, right.hash())),
                Shown::KV(key, value) => sha256_of(
                    node_preimage(left.hash(), sha256_of(kv_preimage(key, value)), right.hash()),
                ),
            },
        }
    }

    /// What is shown, in the order of the tree.
    pub open spec fn walk(self) -> Seq<Shown>
        decreases self,
    {
        match self {
            Partial::Missing => Seq::empty(),
            Partial::Node { node, left, right } => left.walk() + seq![node] + right.walk(),
        }
    }

    /// The part with `child` as the left child of the root, where that has none and may have one.
    pub open spec fn attached_left(self, child: Partial) -> Option<Partial> {
        match self {
            Partial::Node { node, left, right } => if *left is Missing && !(node is NodeHash) {
                Some(Partial::Node { node, left: Box::new(child), right })
            } else {
                None
            },
            Partial::Missing => None,
        }
    }

    /// The part with `child` as the left or right child of the root.
    pub open spec fn attached(self, left: bool, child: Partial) -> Option<Partial> {
        if left {
            self.attached_left(child)
        } else {
            self.attached_right(child)
        }
    }

    /// The part with `child` as the right child of the root, where that has none and may have one.
    pub open spec fn attached_right(self, child: Partial) -> Option<Partial> {
        match self {
            Partial::Node { node, left, right } => if *right is Missing && !(node is NodeHash) {
                Some(Partial::Node { node, left, right: Box::new(child) })
            } else {
                None
            },
            Partial::Missing => None,
        }
    }
}

/// What the steps of a proof have led to: the parts on the stack, and the last key that was shown.
pub struct Machine {
    pub stack: Seq<Partial>,
    pub last_key: Option<Seq<u8>>,
}

/// Before the first step.
pub open spec fn machine_start() -> Machine {
    Machine { stack: Seq::empty(), last_key: None }
}

impl Machine {
    /// Whether a node comes after the keys shown so far.
    pub open spec fn in_order(self, node: Shown) -> bool {
        node matches Shown::KV(key, value) ==> (self.last_key matches Some(last) ==> key_lt(last, key))
    }

    /// With one more node on the stack.
    pub open spec fn push(self, node: Shown) -> Machine {
        Machine {
            stack: self.stack.push(
                Partial::Node { node, left: Box::new(Partial::Missing), right: Box::new(Partial::Missing) },
            ),
            last_key: match node {
                Shown::KV(key, value) => Some(key),
                _ => self.last_key,
            },
        }
    }

    /// With the second part of the stack as the left child of the first.
    pub open spec fn parent(self) -> Option<Machine> {
        let n = self.stack.len();
        if n < 2 {
            None
        } else {
            match self.stack[n - 1].attached_left(self.stack[n - 2]) {
                Some(t) => Some(Machine { stack: self.stack.take(n - 2).push(t), last_key: self.last_key }),
                None => None,
            }
        }
    }

    /// With one of the two top parts of the stack as a child of the other.
    pub open spec fn joined(self, left: bool) -> Option<Machine> {
        if left {
            self.parent()
        } else {
            self.child()
        }
    }

    /// With the first part of the stack as the right child of the second.
    pub open spec fn child(self) -> Option<Machine> {
        let n = self.stack.len();
        if n < 2 {
            None
        } else {
            match self.stack[n - 2].attached_right(self.stack[n - 1]) {
                Some(t) => Some(Machine { stack: self.stack.take(n - 2).push(t), last_key: self.last_key }),
                None => None,
            }
        }
    }
}

/// Something that looks at each node that a proof shows.
pub trait Visitor {
    /// What it has gathered.
    type State;

    /// What it has gathered so far.
    spec fn state(&self) -> Self::State;

    /// What it makes of one more node.
    spec fn rule(&self) -> spec_fn(Self::State, Shown) -> Result<Self::State, Fault>;

    /// Looks at a node.
    fn visit(&mut self, node: &Node) -> (r: Result<(), Error>)
        ensures
            final(self).rule() == old(self).rule(),
            match old(self).rule()(old(self).state(), node@) {
                Ok(s) => r is Ok && final(self).state() == s,
                Err(f) => r matches Err(e) && e.fault() == f,
            },
    ;
}

/// What a proof in its byte form leads to, from the given state on. Each node
/// that it shows is gathered by `rule`.
pub open spec fn executed<S>(rule: spec_fn(S, Shown) -> Result<S, Fault>, b: Seq<u8>, m: Machine, s: S) -> Result<
    (Machine, S),
    Fault,
>
    decreases b.len(),
{
    if b.len() == 0 {
        Ok((m, s))
    } else {
        proof {
            lemma_parse_step_shrinks(b);
        }
        match parse_step(b) {
            None => Err(Fault::Ed),
            Some((Step::Push(node), r)) => if !m.in_order(node) {
                Err(Fault::Proof)
            } else {
                match rule(s, node) {
                    Ok(s2) => executed(rule, r, m.push(node), s2),
                    Err(f) => Err(f),
                }
            },
            Some((Step::Parent, r)) => match m.parent() {
                Some(m2) => executed(rule, r, m2, s),
                None => Err(Fault::Proof),
            },
            Some((Step::Child, r)) => match m.child() {
                Some(m2) => executed(rule, r, m2, s),
                None => Err(Fault::Proof),
            },
        }
    }
}

/// The tree that a whole proof builds, and what was gathered.
pub open spec fn built<S>(rule: spec_fn(S, Shown) -> Result<S, Fault>, b: Seq<u8>, s: S) -> Result<(Partial, S), Fault> {
    match executed(rule, b, machine_start(), s) {
        Ok((m, s)) => if m.stack.len() == 1 {
            Ok((m.stack[0], s))
        } else {
            Err(Fault::Proof)
        },
        Err(f) => Err(f),
    }
}

/// A part of a tree of which the children are only known by their hashes.
#[derive(Debug)]
pub struct ProofNode {
    node: Node,
    left: Option<NodeHash>,
    right: Option<NodeHash>,
}

/// The hash of a child that may be missing.
pub open spec fn known_hash(h: Option<NodeHash>) -> NodeHash {
    match h {
        Some(h) => h,
        None => NULL_HASH,
    }
}

impl ProofNode {
    /// Whether this is what is kept of a part.
    pub closed spec fn is(self, t: Partial) -> bool {
        match t {
            Partial::Missing => false,
            Partial::Node { node, left, right } => {
                &&& self.node@ == node
                &&& Step::Push(node).fits()
                &&& self.left is Some <==> !(*left is Missing)
                &&& self.right is Some <==> !(*right is Missing)
                &&& known_hash(self.left) == left.hash()
                &&& known_hash(self.right) == right.hash()
            },
        }
    }

    /// The hash.
    fn hash(&self, Ghost(t): Ghost<Partial>) -> (hash: NodeHash)
        requires
            self.is(t),
        ensures
            hash == t.hash(),
    {
        let left: NodeHash = match self.left {
            Some(h) => h,
            None => NULL_HASH,
        };
        let right: NodeHash = match self.right {
            Some(h) => h,
            None => NULL_HASH,
        };
        match &self.node {
            Node::NodeHash(h) => *h,
            Node::KVHash(h) => node_hash(&left, h, &right),
            Node::KV(key, value) => {
                let kv: NodeHash = kv_hash(key.as_slice(), value.as_slice());
                node_hash(&left, &kv, &right)
            },
        }
    }

    /// Takes `child` as its left or right child.
    fn attach(self, left: bool, child: NodeHash, Ghost(t): Ghost<Partial>, Ghost(c): Ghost<Partial>) -> (r: Result<
        ProofNode,
        Error,
    >)
        requires
            self.is(t),
            !(c is Missing),
            child == c.hash(),
        ensures
            match t.attached(left, c) {
                Some(t2) => r matches Ok(node) && node.is(t2),
                None => r matches Err(e) && e.fault() == Fault::Proof,
            },
    {
        let taken: bool = if left {
            self.left.is_some()
        } else {
            self.right.is_some()
        };
        if taken {
            return Err(Error::Proof(told("Tried to attach to a child that is already there")));
        }
        match &self.node {
            Node::NodeHash(_) => {
                return Err(Error::Proof(told("Tried to attach to NodeHash node")));
            },
            _ => {},
        }
        if left {
            Ok(ProofNode { node: self.node, left: Some(child), right: self.right })
        } else {
            Ok(ProofNode { node: self.node, left: self.left, right: Some(child) })
        }
    }
}

/// Whether a stack holds what is kept of the given parts.
pub open spec fn stack_is(stack: Seq<ProofNode>, parts: Seq<Partial>) -> bool {
    stack.len() == parts.len() && forall|i: int| 0 <= i < stack.len() ==> (#[trigger] stack[i]).is(parts[i])
}

/// The key last shown, as a value.
spec fn key_view(key: Option<Vec<u8>>) -> Option<Seq<u8>> {
    match key {
        Some(k) => Some(k@),
        None => None,
    }
}

/// Attaches one of the two top parts of the stack to the other.
fn attach_top(stack: &mut Vec<ProofNode>, left: bool, Ghost(m): Ghost<Machine>) -> (r: Result<(), Error>)
    requires
        stack_is(old(stack)@, m.stack),
        forall|i: int| 0 <= i < m.stack.len() ==> !(#[trigger] m.stack[i] is Missing),
    ensures
        match m.joined(left) {
            Some(m2) => r is Ok && stack_is(final(stack)@, m2.stack) && m2.last_key == m.last_key && forall|i: int|
                0 <= i < m2.stack.len() ==> !(#[trigger] m2.stack[i] is Missing),
            None => r matches Err(e) && e.fault() == Fault::Proof,
        },
{
    let n: usize = stack.len();
    if n < 2 {
        return Err(Error::Proof(told("Stack underflow")));
    }
    let ghost before = stack@;
    let top: ProofNode = match stack.pop() {
        Some(top) => top,
        None => {
            return Err(Error::Proof(told("Stack underflow")));
        },
    };
    let next: ProofNode = match stack.pop() {
        Some(next) => next,
        None => {
            return Err(Error::Proof(told("Stack underflow")));
        },
    };
    let ghost a = m.stack[n - 1];
    let ghost b = m.stack[n - 2];
    proof {
        assert(before[n - 1].is(a));
        assert(before[n - 2].is(b));
    }
    let attached: Result<ProofNode, Error> = if left {
        let h: NodeHash = next.hash(Ghost(b));
        top.attach(true, h, Ghost(a), Ghost(b))
    } else {
        let h: NodeHash = top.hash(Ghost(a));
        next.attach(false, h, Ghost(b), Ghost(a))
    };
    match attached {
        Ok(node) => {
            stack.push(node);
            proof {
                let m2 = m.joined(left)->0;
                assert forall|i: int| 0 <= i < m2.stack.len() implies (#[trigger] stack@[i]).is(m2.stack[i]) && !(
                m2.stack[i] is Missing) by {
                    if i < n - 2 {
                        assert(stack@[i] == before[i]);
                        assert(m2.stack[i] == m.stack[i]);
                    }
                }
            }
            Ok(())
        },
        Err(e) => Err(e),
    }
}

/// Runs the steps of a proof: shows each node to the visitor, and gives the
/// hash of the tree that the steps build.
pub fn execute<V: Visitor>(bytes: &[u8], visitor: &mut V) -> (r: Result<NodeHash, Error>)
    ensures
        match built(old(visitor).rule(), bytes@, old(visitor).state()) {
            Ok((t, s)) => r == Ok::<NodeHash, Error>(t.hash()) && final(visitor).state() == s,
            Err(f) => r matches Err(e) && e.fault() == f,
        },
{
    let mut ops = Decoder::new(bytes);
    let mut stack: Vec<ProofNode> = Vec::new();
    let mut last_key: Option<Vec<u8>> = None;
    let ghost mut m = machine_start();
    let ghost rule = visitor.rule();
    let ghost start = visitor.state();
    loop
        invariant_except_break
            executed(rule, bytes@, machine_start(), start) == executed(rule, ops.rest(), m, visitor.state()),
        invariant
            rule == old(visitor).rule(),
            start == old(visitor).state(),
            visitor.rule() == rule,
            stack_is(stack@, m.stack),
            forall|i: int| 0 <= i < m.stack.len() ==> !(#[trigger] m.stack[i] is Missing),
            key_view(last_key) == m.last_key,
        ensures
            executed(rule, bytes@, machine_start(), start) == Ok::<(Machine, V::State), Fault>((m, visitor.state())),
        decreases ops.rest().len(),
    {
        let ghost b = ops.rest();
        proof {
            lemma_parse_step_shrinks(b);
        }
        let op: Op = match ops.next() {
            Ok(Some(op)) => op,
            Ok(None) => {
                break;
            },
            Err(e) => {
                return Err(e);
            },
        };
        match op {
            Op::Parent => {
                match attach_top(&mut stack, true, Ghost(m)) {
                    Ok(_) => {},
                    Err(e) => {
                        return Err(e);
                    },
                }
                proof {
                    m = m.parent()->0;
                }
            },
            Op::Child => {
                match attach_top(&mut stack, false, Ghost(m)) {
                    Ok(_) => {},
                    Err(e) => {
                        return Err(e);
                    },
                }
                proof {
                    m = m.child()->0;
                }
            },
            Op::Push(node) => {
                if let Node::KV(key, _) = &node {
                    if let Some(last) = &last_key {
                        if !key_less(last.as_slice(), key.as_slice()) {
                            return Err(Error::Proof(told("Incorrect key ordering")));
                        }
                    }
                    last_key = Some(key_copy(key.as_slice()));
                }
                match visitor.visit(&node) {
                    Ok(_) => {},
                    Err(e) => {
                        return Err(e);
                    },
                }
                let ghost shown = node@;
                let ghost before = stack@;
                let ghost pm = m;
                stack.push(ProofNode { node, left: None, right: None });
                proof {
                    m = m.push(shown);
                    assert forall|i: int| 0 <= i < m.stack.len() implies (#[trigger] stack@[i]).is(m.stack[i]) && !(
                    m.stack[i] is Missing) by {
                        if i < before.len() {
                            assert(stack@[i] == before[i]);
                            assert(m.stack[i] == pm.stack[i]);
                        }
                    }
                }
            },
        }
    }
    if stack.len() != 1 {
        return Err(Error::Proof(told("Expected proof to result in exactly one stack item")));
    }
    Ok(stack[0].hash(Ghost(m.stack[0])))
}

} // verus!
