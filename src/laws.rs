use vstd::prelude::*;

use crate::host::{HostHandle, HostStore};
use crate::registry::{NodeId, NodeRecord, RegistryError};
use crate::tree::{attach_before_step, attach_step, create_step, destroy_step, detach_step, TreeMutator};

verus! {

/// After `attach(node, parent)` the recorded parent of `node` is `parent`,
/// and no other node's record changes.
pub proof fn lemma_attach_records_parent(
    t0: TreeMutator,
    h0: HostStore,
    t1: TreeMutator,
    h1: HostStore,
    node: NodeId,
    parent: NodeId,
)
    requires
        t0.wf(h0),
        t0.registry.is_live(node),
        t0.registry.is_live(parent),
        attach_step(t0, h0, t1, h1, node, parent),
    ensures
        t1.registry.is_live(node),
        t1.registry.rec(node).parent == Some(parent),
        forall|x: NodeId| x != node && #[trigger] t0.registry.allocated(x) ==> t1.registry.slot(x) == t0.registry.slot(x),
        t1.registry.slots@.len() == t0.registry.slots@.len(),
{
}

/// After a successful `attach_before(node, parent, marker)` the recorded
/// parent of `node` is `parent`, and no other node's record changes.
pub proof fn lemma_attach_before_records_parent(
    t0: TreeMutator,
    h0: HostStore,
    t1: TreeMutator,
    h1: HostStore,
    node: NodeId,
    parent: NodeId,
    marker: NodeId,
)
    requires
        t0.wf(h0),
        t0.registry.is_live(node),
        t0.registry.is_live(parent),
        attach_before_step(t0, h0, t1, h1, node, parent, marker),
    ensures
        t1.registry.is_live(node),
        t1.registry.rec(node).parent == Some(parent),
        forall|x: NodeId| x != node && #[trigger] t0.registry.allocated(x) ==> t1.registry.slot(x) == t0.registry.slot(x),
        t1.registry.slots@.len() == t0.registry.slots@.len(),
{
}

/// After `detach(node)` `node` has no recorded parent, and no other node's
/// record changes.
pub proof fn lemma_detach_clears_parent(t0: TreeMutator, h0: HostStore, t1: TreeMutator, h1: HostStore, node: NodeId)
    requires
        t0.wf(h0),
        t0.registry.is_live(node),
        detach_step(t0, h0, t1, h1, node),
    ensures
        t1.registry.is_live(node),
        t1.registry.rec(node).parent is None,
        forall|x: NodeId| x != node && #[trigger] t0.registry.allocated(x) ==> t1.registry.slot(x) == t0.registry.slot(x),
        t1.registry.slots@.len() == t0.registry.slots@.len(),
{
}

/// A node made by `create_node` has no recorded parent, and no other node's
/// record changes.
pub proof fn lemma_create_has_no_parent(t0: TreeMutator, h0: HostStore, t1: TreeMutator, h1: HostStore, id: NodeId)
    requires
        t0.wf(h0),
        create_step(t0, h0, t1, h1, id),
    ensures
        t1.registry.is_live(id),
        t1.registry.rec(id).parent is None,
        forall|x: NodeId| x != id && #[trigger] t0.registry.allocated(x) ==> t1.registry.slot(x) == t0.registry.slot(x),
{
}

/// `destroy(node)` changes the recorded parent of no surviving node: each
/// record either ends or stays as it was.
pub proof fn lemma_destroy_keeps_survivors(t0: TreeMutator, h0: HostStore, t1: TreeMutator, h1: HostStore, node: NodeId, x: NodeId)
    requires
        t0.wf(h0),
        t0.registry.is_live(node),
        destroy_step(t0, h0, t1, h1, node),
        t0.registry.is_live(x),
    ensures
        t1.registry.is_live(x) ==> t1.registry.rec(x) == t0.registry.rec(x),
        !t1.registry.is_live(x) ==> t1.registry.lookup(x) == Err::<NodeRecord, RegistryError>(RegistryError::Destroyed),
{
    assert(t0.registry.allocated(x));
}

/// Creating a node, attaching it under a live root, detaching it and
/// destroying it leaves its id terminal, its entity dead, no entity listing
/// it as a child and no record naming it as parent.
pub proof fn lemma_round_trip(
    t0: TreeMutator,
    h0: HostStore,
    t1: TreeMutator,
    h1: HostStore,
    t2: TreeMutator,
    h2: HostStore,
    t3: TreeMutator,
    h3: HostStore,
    t4: TreeMutator,
    h4: HostStore,
    n: NodeId,
    root: NodeId,
)
    requires
        t0.wf(h0),
        t0.registry.is_live(root),
        create_step(t0, h0, t1, h1, n),
        attach_step(t1, h1, t2, h2, n, root),
        detach_step(t2, h2, t3, h3, n),
        destroy_step(t3, h3, t4, h4, n),
    ensures
        t4.registry.lookup(n) == Err::<NodeRecord, RegistryError>(RegistryError::Destroyed),
        !h4.live(t1.handle(n)),
        forall|h: HostHandle| h4.live(h) ==> !(#[trigger] h4.kids(h)).contains(t1.handle(n)),
        forall|x: NodeId| #[trigger] t4.registry.is_live(x) ==> t4.registry.rec(x).parent != Some(n),
{
    let hn = t1.handle(n);
    assert(t3.registry.is_live(n));
    assert(t3.reaches(n, n, 0));
    assert(t3.descends(n, n));
    assert(t3.handle(n) == hn);
    assert forall|h: HostHandle| h4.live(h) implies !(#[trigger] h4.kids(h)).contains(hn) by {
        if h4.kids(h).contains(hn) {
            assert(h4.live(hn));
        }
    }
    assert forall|x: NodeId| #[trigger] t4.registry.is_live(x) implies t4.registry.rec(x).parent != Some(n) by {
        if t4.registry.rec(x).parent == Some(n) {
            assert(t4.registry.is_live(n));
        }
    }
}

} // verus!
