//! A binary trie over byte keys whose nodes are hashed.

pub mod contents;
pub mod cursor;
pub mod framing;
pub mod iter;
pub mod keys;
pub mod model;
pub mod node;
pub mod order;
pub mod parts;
pub mod prefix;
pub mod prune;
pub mod query_proof;
pub mod replay_move;
pub mod replay_ops;
pub mod route;
pub mod scan;
pub mod session;
pub mod soundness;
pub mod store;
pub mod trace;
pub mod tracer;
pub mod tree;
pub mod undo;
pub mod verify_node;
pub mod verify_replay;
pub mod wire;
pub mod working;

pub use crate::mrt::iter::{Iter, ReverseIter};
pub use crate::mrt::query_proof::{verify, verify_query};
pub use crate::mrt::store::{Checkpoint, GetResult, Tree};
pub use crate::mrt::trace::Trace;
pub use crate::mrt::tracer::TraceRecorder;
pub use crate::mrt::verify_replay::{TraceReplayer, TraceVerifier};
pub use crate::tracer::WriteOp;
