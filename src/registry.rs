use vstd::prelude::*;

use crate::host::{HostHandle, HostStore};

verus! {

/// Logical identifier of a tree node. Identifiers start at 1, grow by one with
/// each allocation and are never reused.
#[derive(Clone, Copy, Debug, PartialEq, Eq, Hash, Structural)]
pub struct NodeId(pub usize);

/// What the registry knows of one node: its host-side handle and its
/// structural parent, both as a node id and as the parent's host handle.
#[derive(Clone, Copy, Debug, PartialEq, Eq, Structural)]
pub struct NodeRecord {
    pub id: NodeId,
    pub handle: HostHandle,
    pub parent: Option<NodeId>,
    pub parent_handle: Option<HostHandle>,
}

impl NodeRecord {
    /// The parent id and the parent handle are present together.
    pub open spec fn wf(self) -> bool {
        self.parent.is_some() == self.parent_handle.is_some()
    }
}

/// The state of one allocated identifier.
#[derive(Clone, Copy, Debug, PartialEq, Eq, Structural)]
pub enum NodeSlot {
    /// Allocated, no host handle yet.
    Reserved,
    Live(NodeRecord),
    /// Terminal: the node was destroyed and its id is never handed out again.
    Destroyed,
}

#[derive(Clone, Copy, Debug, PartialEq, Eq, Structural)]
pub enum RegistryError {
    /// The id was never allocated, or has no host handle yet.
    NotFound,
    /// The node was destroyed.
    Destroyed,
}

/// Maps node ids to their records. Slot `k` holds the state of id `k + 1`.
pub struct NodeRegistry {
    pub slots: Vec<NodeSlot>,
}

impl NodeRegistry {
    /// The id that the next allocation hands out.
    pub open spec fn next_id(&self) -> nat {
        self.slots@.len() + 1
    }

    pub open spec fn slot(&self, id: NodeId) -> NodeSlot {
        self.slots@[id.0 - 1]
    }

    pub open spec fn allocated(&self, id: NodeId) -> bool {
        1 <= id.0 <= self.slots@.len()
    }

    pub open spec fn is_live(&self, id: NodeId) -> bool {
        self.allocated(id) && self.slot(id) is Live
    }

    pub open spec fn is_destroyed(&self, id: NodeId) -> bool {
        self.allocated(id) && self.slot(id) is Destroyed
    }

    pub open spec fn rec(&self, id: NodeId) -> NodeRecord {
        self.slot(id)->Live_0
    }

    /// Each live record carries its own id and a consistent parent link.
    pub open spec fn wf(&self) -> bool {
        forall|k: int|
            0 <= k < self.slots@.len() && (#[trigger] self.slots@[k]) is Live ==> {
                &&& self.slots@[k]->Live_0.id.0 == k + 1
                &&& self.slots@[k]->Live_0.wf()
            }
    }

    /// What `get` answers for `id`.
    pub open spec fn lookup(&self, id: NodeId) -> Result<NodeRecord, RegistryError> {
        if self.is_live(id) {
            Ok(self.rec(id))
        } else if self.is_destroyed(id) {
            Err(RegistryError::Destroyed)
        } else {
            Err(RegistryError::NotFound)
        }
    }

    pub fn new() -> (r: NodeRegistry)
        ensures
            r.wf(),
            r.slots@.len() == 0,
    {
        NodeRegistry { slots: Vec::new() }
    }

    /// Hands out the next id. The id is reserved: lookups on it fail with
    /// `NotFound` until a record is stored for it.
    pub fn allocate_id(&mut self) -> (id: NodeId)
        requires
            old(self).wf(),
            old(self).next_id() < usize::MAX,
        ensures
            final(self).wf(),
            id.0 == old(self).next_id(),
            final(self).slots@ == old(self).slots@.push(NodeSlot::Reserved),
    {
        self.slots.push(NodeSlot::Reserved);
        NodeId(self.slots.len())
    }

    /// Looks up the record of `id`.
    pub fn get(&self, id: NodeId) -> (r: Result<NodeRecord, RegistryError>)
        ensures
            r == self.lookup(id),
    {
        if id.0 == 0 || id.0 > self.slots.len() {
            return Err(RegistryError::NotFound);
        }
        match self.slots[id.0 - 1] {
            NodeSlot::Live(rec) => Ok(rec),
            NodeSlot::Destroyed => Err(RegistryError::Destroyed),
            NodeSlot::Reserved => Err(RegistryError::NotFound),
        }
    }

    /// Looks up several distinct nodes at once. Asking for the same id twice
    /// is a caller error; the first id that fails decides the error.
    pub fn get_many(&self, ids: &Vec<NodeId>) -> (r: Result<Vec<NodeRecord>, RegistryError>)
        requires
            forall|i: int, j: int|
                0 <= i < j < ids@.len() ==> ids@[i] != ids@[j],
        ensures
            match r {
                Ok(recs) => {
                    &&& recs@.len() == ids@.len()
                    &&& forall|i: int| 0 <= i < ids@.len() ==> self.lookup(#[trigger] ids@[i]) == Ok::<NodeRecord, RegistryError>(recs@[i])
                },
                Err(e) => exists|i: int| {
                    &&& 0 <= i < ids@.len()
                    &&& self.lookup(#[trigger] ids@[i]) == Err::<NodeRecord, RegistryError>(e)
                    &&& forall|j: int| 0 <= j < i ==> self.lookup(ids@[j]) is Ok
                },
            },
    {
        let mut recs: Vec<NodeRecord> = Vec::new();
        let mut i: usize = 0;
        while i < ids.len()
            invariant
                i <= ids@.len(),
                recs@.len() == i,
                forall|j: int| 0 <= j < i ==> self.lookup(#[trigger] ids@[j]) == Ok::<NodeRecord, RegistryError>(recs@[j]),
            decreases ids@.len() - i,
        {
            match self.get(ids[i]) {
                Ok(rec) => recs.push(rec),
                Err(e) => {
                    assert(forall|j: int| 0 <= j < i ==> self.lookup(ids@[j]) is Ok);
                    return Err(e);
                },
            }
            i = i + 1;
        }
        Ok(recs)
    }

    /// The record of a live node.
    pub fn record(&self, id: NodeId) -> (r: NodeRecord)
        requires
            self.is_live(id),
        ensures
            r == self.rec(id),
    {
        match self.slots[id.0 - 1] {
            NodeSlot::Live(rec) => rec,
            _ => {
                proof {
                    assert(false);
                }
                NodeRecord { id, handle: HostHandle(0), parent: None, parent_handle: None }
            },
        }
    }

    /// Replaces the state of an allocated id.
    pub fn set_slot(&mut self, id: NodeId, slot: NodeSlot)
        requires
            old(self).allocated(id),
        ensures
            final(self).slots@ == old(self).slots@.update(id.0 - 1, slot),
    {
        self.slots.set(id.0 - 1, slot);
    }

    /// Allocates an id, spawns a host entity tagged with it and stores a
    /// record with no parent.
    pub fn spawn_node(&mut self, host: &mut HostStore) -> (id: NodeId)
        requires
            old(self).wf(),
            old(host).wf(),
            old(self).next_id() < usize::MAX,
        ensures
            final(self).wf(),
            final(host).wf(),
            id.0 == old(self).next_id(),
            final(self).slots@ == old(self).slots@.push(NodeSlot::Live(NodeRecord {
                id,
                handle: HostHandle(old(host).alive.len()),
                parent: None,
                parent_handle: None,
            })),
            final(host).alive@ == old(host).alive@.push(true),
            final(host).tags@ == old(host).tags@.push(id),
            final(host).parents@ == old(host).parents@.push(None),
            final(host).children@.len() == old(host).children@.len() + 1,
            forall|i: int| 0 <= i < old(host).len() ==> #[trigger] final(host).children@[i] == old(host).children@[i],
            final(host).kids(HostHandle(old(host).alive.len())) == Seq::<HostHandle>::empty(),
            final(host).versions@ == old(host).versions@,
    {
        let id = self.allocate_id();
        let handle = host.spawn(id);
        self.set_slot(id, NodeSlot::Live(NodeRecord { id, handle, parent: None, parent_handle: None }));
        id
    }
}

} // verus!
