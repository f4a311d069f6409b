//! Building blocks of a replicated service platform: the key layout and the
//! log storage engine behind a consensus core, the placement rules of a
//! managed ring of virtual nodes, the replicated ring and key-value services,
//! and the per-node state machines that move virtual nodes between owners.

pub mod balance;
pub mod codec;
pub mod keyspace;
pub mod kv;
pub mod migration;
pub mod mring;
pub mod placement;
pub mod storage;
pub mod vnode;
