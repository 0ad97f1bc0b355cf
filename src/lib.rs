//! A bridge between a retained tree runtime and a frame-ticked host store:
//! a registry of node ids, a scoped lease on the host, ordered structural
//! edits, and a cooperative executor drained once per tick.

use vstd::prelude::*;

pub mod access;
pub mod executor;
pub mod host;
pub mod laws;
pub mod registry;
pub mod tick;
pub mod tree;

pub use access::{AccessError, HostAccessCell};
pub use executor::{DummyWaker, ManagedExecutor, Task};
pub use host::{HostHandle, HostStore};
pub use registry::{NodeId, NodeRecord, NodeRegistry, NodeSlot, RegistryError};
pub use tick::{HostIntegration, Root, Subscription};
pub use tree::TreeMutator;

verus! {

} // verus!
