use vstd::prelude::*;

use crate::access::{AccessError, HostAccessCell};
use crate::host::{
    index_of, keep_live, lemma_first_index, lemma_insert_contains, lemma_keep_live_contains, lemma_without_absent,
    lemma_without_contains, remove_all, splice_before, without, first_index, HostHandle, HostStore,
};
use crate::registry::{NodeId, NodeRecord, NodeRegistry, NodeSlot, RegistryError};

verus! {

/// Ordered structural edits on the tree: the registry holds each node's
/// parent; the host store holds each entity's parent and ordered children.
pub struct TreeMutator {
    pub registry: NodeRegistry,
}

/// `new` is `old` with `x` taken out of every child list and given the parent
/// `target`; when there is one, its child list becomes `placed`.
pub open spec fn relinked(
    old: HostStore,
    new: HostStore,
    x: HostHandle,
    target: Option<HostHandle>,
    placed: Seq<HostHandle>,
) -> bool {
    &&& new.wf()
    &&& new.alive@ == old.alive@
    &&& new.tags@ == old.tags@
    &&& new.versions@ == old.versions@
    &&& new.parents@ == old.parents@.update(x.0 as int, target)
    &&& new.children@.len() == old.children@.len()
    &&& forall|h: HostHandle|
        h.0 < old.len() ==> #[trigger] new.kids(h) == if target == Some(h) {
            placed
        } else {
            without(old.kids(h), x)
        }
}

/// What `create_node` makes of `t0` and `h0`: `id` is the next id, its record
/// names a new entity tagged with it, and neither has a parent.
pub open spec fn create_step(t0: TreeMutator, h0: HostStore, t1: TreeMutator, h1: HostStore, id: NodeId) -> bool {
    let h = HostHandle(h0.alive.len());
    &&& id.0 == t0.registry.next_id()
    &&& t1.wf(h1)
    &&& t1.registry.slots@ == t0.registry.slots@.push(
        NodeSlot::Live(NodeRecord { id, handle: h, parent: None, parent_handle: None }),
    )
    &&& h1.alive@ == h0.alive@.push(true)
    &&& h1.tags@ == h0.tags@.push(id)
    &&& h1.parents@ == h0.parents@.push(None)
    &&& h1.kids(h) == Seq::<HostHandle>::empty()
    &&& forall|g: HostHandle| g.0 < h0.len() ==> #[trigger] h1.kids(g) == h0.kids(g)
    &&& h1.versions@ == h0.versions@
}

/// The record of `node` in `t1` is its record in `t0` with the parent `parent`.
pub open spec fn reparented(t0: TreeMutator, t1: TreeMutator, node: NodeId, parent: Option<NodeId>) -> bool {
    t1.registry.slots@ == t0.registry.slots@.update(
        node.0 - 1,
        NodeSlot::Live(NodeRecord {
            parent,
            parent_handle: match parent {
                Some(p) => Some(t0.handle(p)),
                None => None,
            },
            ..t0.registry.rec(node)
        }),
    )
}

/// What `attach` makes of `t0` and `h0`: `node` has the parent `parent` and
/// is its last child, and is no longer a child anywhere else.
pub open spec fn attach_step(
    t0: TreeMutator,
    h0: HostStore,
    t1: TreeMutator,
    h1: HostStore,
    node: NodeId,
    parent: NodeId,
) -> bool {
    let hn = t0.handle(node);
    &&& t1.wf(h1)
    &&& reparented(t0, t1, node, Some(parent))
    &&& relinked(h0, h1, hn, Some(t0.handle(parent)), without(t0.child_handles(h0, parent), hn).push(hn))
}

/// What a successful `attach_before` makes of `t0` and `h0`: `node` has the
/// parent `parent` and stands just before `marker` among its children.
pub open spec fn attach_before_step(
    t0: TreeMutator,
    h0: HostStore,
    t1: TreeMutator,
    h1: HostStore,
    node: NodeId,
    parent: NodeId,
    marker: NodeId,
) -> bool {
    let hn = t0.handle(node);
    &&& t1.wf(h1)
    &&& reparented(t0, t1, node, Some(parent))
    &&& relinked(
        h0,
        h1,
        hn,
        Some(t0.handle(parent)),
        splice_before(t0.child_handles(h0, parent), hn, t0.handle(marker)),
    )
}

/// What `detach` makes of `t0` and `h0`: `node` has no parent and is no
/// longer anyone's child; its entity stays alive.
pub open spec fn detach_step(t0: TreeMutator, h0: HostStore, t1: TreeMutator, h1: HostStore, node: NodeId) -> bool {
    &&& t1.wf(h1)
    &&& reparented(t0, t1, node, None)
    &&& relinked(h0, h1, t0.handle(node), None, Seq::empty())
}

/// What `destroy` makes of `t0` and `h0`: the ids of `node` and of its
/// descendants are terminal and their entities are dead; every other record
/// is kept, and the remaining entities keep their parents and their live
/// children in order.
pub open spec fn destroy_step(t0: TreeMutator, h0: HostStore, t1: TreeMutator, h1: HostStore, node: NodeId) -> bool {
    &&& t1.wf(h1)
    &&& t1.registry.slots@.len() == t0.registry.slots@.len()
    &&& forall|x: NodeId| #[trigger] t0.registry.allocated(x) ==>
        t1.registry.slot(x) == if t0.descends(x, node) {
            NodeSlot::Destroyed
        } else {
            t0.registry.slot(x)
        }
    &&& forall|x: NodeId| #[trigger] t0.descends(x, node) ==> {
        &&& t1.registry.lookup(x) == Err::<NodeRecord, RegistryError>(RegistryError::Destroyed)
        &&& !h1.live(t0.handle(x))
    }
    &&& h1.len() == h0.len()
    &&& h1.tags@ == h0.tags@
    &&& h1.versions@ == h0.versions@
    &&& forall|h: HostHandle| h.0 < h0.len() ==>
        (#[trigger] h1.live(h) <==> h0.live(h) && !t0.destroys(h0, node, h))
    &&& forall|h: HostHandle| #[trigger] h1.live(h) ==> {
        &&& h1.parent_of(h) == h0.parent_of(h)
        &&& h1.kids(h) == keep_live(h0.kids(h), h1.alive@)
    }
}

/// How many entries of `s` are set.
pub open spec fn count_marked(s: Seq<bool>) -> nat
    decreases s.len(),
{
    if s.len() == 0 {
        0
    } else {
        count_marked(s.drop_last()) + if s.last() {
            1nat
        } else {
            0nat
        }
    }
}

proof fn lemma_count_marked_bound(s: Seq<bool>)
    ensures
        count_marked(s) <= s.len(),
    decreases s.len(),
{
    if s.len() > 0 {
        lemma_count_marked_bound(s.drop_last());
    }
}

proof fn lemma_count_marked_set(s: Seq<bool>, i: int)
    requires
        0 <= i < s.len(),
        !s[i],
    ensures
        count_marked(s.update(i, true)) == count_marked(s) + 1,
    decreases s.len(),
{
    let u = s.update(i, true);
    if i == s.len() - 1 {
        assert(u.drop_last() == s.drop_last());
    } else {
        assert(u.drop_last() == s.drop_last().update(i, true));
        lemma_count_marked_set(s.drop_last(), i);
    }
}

impl TreeMutator {
    /// The registry and the host store agree: each live record names a live
    /// entity tagged with its id whose parent is the record's parent handle,
    /// and the parent lists it among its children; each child listed by a
    /// live entity is live and has that entity as parent; a dead entity lists
    /// no children.
    pub open spec fn wf(&self, host: HostStore) -> bool {
        &&& self.registry.wf()
        &&& host.wf()
        &&& forall|id: NodeId| #[trigger] self.registry.is_live(id) ==> {
            let r = self.registry.rec(id);
            &&& host.live(r.handle)
            &&& host.tag_of(r.handle) == id
            &&& host.parent_of(r.handle) == r.parent_handle
            &&& (r.parent matches Some(p) ==> self.registry.is_live(p)
                && self.registry.rec(p).handle == r.parent_handle->Some_0
                && host.kids(r.parent_handle->Some_0).contains(r.handle))
        }
        &&& forall|h: HostHandle, c: HostHandle|
            host.live(h) && #[trigger] host.kids(h).contains(c) ==> host.live(c)
                && host.parent_of(c) == Some(h)
        &&& forall|h: HostHandle| h.0 < host.len() && !host.live(h) ==> #[trigger] host.kids(h).len() == 0
    }

    pub open spec fn handle(&self, id: NodeId) -> HostHandle {
        self.registry.rec(id).handle
    }

    /// The child handles of node `id`, in order.
    pub open spec fn child_handles(&self, host: HostStore, id: NodeId) -> Seq<HostHandle> {
        host.kids(self.handle(id))
    }

    /// The ids of the entities in `s`, in order.
    pub open spec fn ids_of(host: HostStore, s: Seq<HostHandle>) -> Seq<NodeId> {
        s.map_values(|h: HostHandle| host.tag_of(h))
    }

    /// `m` is `n` or reaches `n` by following at most `k` parent links.
    pub open spec fn reaches(&self, m: NodeId, n: NodeId, k: nat) -> bool
        decreases k,
    {
        if !self.registry.is_live(m) {
            false
        } else if m == n {
            true
        } else if k == 0 {
            false
        } else {
            match self.registry.rec(m).parent {
                Some(p) => self.reaches(p, n, (k - 1) as nat),
                None => false,
            }
        }
    }

    /// `m` is `n` or one of its structural descendants.
    pub open spec fn descends(&self, m: NodeId, n: NodeId) -> bool {
        exists|k: nat| #[trigger] self.reaches(m, n, k)
    }

    /// `h` is the live entity of `n` or of one of its descendants.
    pub open spec fn destroys(&self, host: HostStore, n: NodeId, h: HostHandle) -> bool {
        &&& host.live(h)
        &&& self.registry.is_live(host.tag_of(h))
        &&& self.handle(host.tag_of(h)) == h
        &&& self.descends(host.tag_of(h), n)
    }

    /// A live node is listed among the children of a live node exactly when
    /// its recorded parent is that node.
    pub proof fn lemma_child_iff_parent(&self, host: HostStore, m: NodeId, p: NodeId)
        requires
            self.wf(host),
            self.registry.is_live(m),
            self.registry.is_live(p),
        ensures
            self.child_handles(host, p).contains(self.handle(m)) <==> self.registry.rec(m).parent == Some(p),
    {
        let hm = self.handle(m);
        let hp = self.handle(p);
        if host.kids(hp).contains(hm) {
            assert(host.parent_of(hm) == Some(hp));
            let q = self.registry.rec(m).parent->Some_0;
            assert(self.registry.is_live(q));
            assert(host.tag_of(hp) == p);
            assert(host.tag_of(self.handle(q)) == q);
        }
    }

    pub fn new() -> (r: TreeMutator)
        ensures
            r.registry.slots@.len() == 0,
            forall|host: HostStore| host.wf() && host.len() == 0 ==> r.wf(host),
    {
        TreeMutator { registry: NodeRegistry::new() }
    }

    /// Creates a node: a new id, a new host entity tagged with it, no parent.
    pub fn create_node(&mut self, cell: &mut HostAccessCell<HostStore>) -> (r: Result<NodeId, AccessError>)
        requires
            old(cell).is_granted() ==> old(self).wf(old(cell).held()),
            old(self).registry.next_id() < usize::MAX,
        ensures
            !old(cell).is_granted() ==> {
                &&& r == Err::<NodeId, AccessError>(AccessError::NotAvailable)
                &&& final(cell).lease() == old(cell).lease()
                &&& final(self).registry.slots@ == old(self).registry.slots@
            },
            old(cell).is_granted() ==> {
                &&& final(cell).is_granted()
                &&& r matches Ok(id) && create_step(*old(self), old(cell).held(), *final(self), final(cell).held(), id)
            },
    {
        let host = match cell.with_access() {
            Ok(h) => h,
            Err(e) => return Err(e),
        };
        let ghost h0 = *host;
        let ghost t0 = *self;
        let id = self.registry.spawn_node(host);
        proof {
            assert forall|g: HostHandle| g.0 < h0.len() implies #[trigger] host.kids(g) == h0.kids(g) by {
                assert(host.children@[g.0 as int] == h0.children@[g.0 as int]);
            }
            assert forall|x: NodeId| #[trigger] self.registry.is_live(x) implies {
                let r = self.registry.rec(x);
                &&& host.live(r.handle)
                &&& host.tag_of(r.handle) == x
                &&& host.parent_of(r.handle) == r.parent_handle
                &&& (r.parent matches Some(p) ==> self.registry.is_live(p)
                    && self.registry.rec(p).handle == r.parent_handle->Some_0
                    && host.kids(r.parent_handle->Some_0).contains(r.handle))
            } by {
                if x != id {
                    assert(self.registry.slot(x) == t0.registry.slot(x));
                    assert(t0.registry.is_live(x));
                    let r = t0.registry.rec(x);
                    assert(host.tag_of(r.handle) == h0.tag_of(r.handle));
                    if let Some(p) = r.parent {
                        assert(t0.registry.is_live(p));
                        assert(self.registry.slot(p) == t0.registry.slot(p));
                        let q = r.parent_handle->Some_0;
                        assert(host.kids(q) == h0.kids(q));
                    }
                }
            }
            assert forall|h: HostHandle, c: HostHandle|
                host.live(h) && #[trigger] host.kids(h).contains(c) implies host.live(c)
                    && host.parent_of(c) == Some(h) by {
                if h.0 < h0.len() {
                    assert(h0.kids(h).contains(c));
                }
            }
            assert forall|h: HostHandle| h.0 < host.len() && !host.live(h) implies #[trigger] host.kids(h).len() == 0 by {
                assert(h.0 < h0.len());
                assert(h0.kids(h).len() == 0);
            }
        }
        Ok(id)
    }

    /// Appends `node` as the last child of `parent`, taking it away from its
    /// previous parent if it had one.
    pub fn attach(&mut self, cell: &mut HostAccessCell<HostStore>, node: NodeId, parent: NodeId) -> (r: Result<(), AccessError>)
        requires
            old(cell).is_granted() ==> old(self).wf(old(cell).held()),
            old(self).registry.is_live(node),
            old(self).registry.is_live(parent),
            node != parent,
        ensures
            !old(cell).is_granted() ==> {
                &&& r == Err::<(), AccessError>(AccessError::NotAvailable)
                &&& final(cell).lease() == old(cell).lease()
                &&& final(self).registry.slots@ == old(self).registry.slots@
            },
            old(cell).is_granted() ==> {
                &&& r is Ok
                &&& final(cell).is_granted()
                &&& attach_step(*old(self), old(cell).held(), *final(self), final(cell).held(), node, parent)
            },
    {
        let host = match cell.with_access() {
            Ok(h) => h,
            Err(e) => return Err(e),
        };
        let hn = self.registry.record(node).handle;
        let hp = self.registry.record(parent).handle;
        let mut placed = remove_all(&host.children[hp.0], hn);
        placed.push(hn);
        proof {
            let rest = without(host.kids(hp), hn);
            assert forall|c: HostHandle| #[trigger] placed@.contains(c) <==>
                c == hn || (host.kids(hp).contains(c) && c != hn) by {
                lemma_without_contains(host.kids(hp), hn, c);
                lemma_insert_contains(rest, rest.len() as int, hn, c);
                assert(rest.insert(rest.len() as int, hn) =~= placed@);
            }
        }
        self.relink(host, node, Some(parent), placed);
        Ok(())
    }

    /// Puts `node` immediately before `marker` among the children of
    /// `parent`. Returns `false`, and changes nothing, when `marker` is not a
    /// child of `parent`.
    pub fn attach_before(
        &mut self,
        cell: &mut HostAccessCell<HostStore>,
        node: NodeId,
        parent: NodeId,
        marker: NodeId,
    ) -> (r: Result<bool, AccessError>)
        requires
            old(cell).is_granted() ==> old(self).wf(old(cell).held()),
            old(self).registry.is_live(node),
            old(self).registry.is_live(parent),
            old(self).registry.is_live(marker),
            node != parent,
            node != marker,
            parent != marker,
        ensures
            !old(cell).is_granted() ==> {
                &&& r == Err::<bool, AccessError>(AccessError::NotAvailable)
                &&& final(cell).lease() == old(cell).lease()
                &&& final(self).registry.slots@ == old(self).registry.slots@
            },
            old(cell).is_granted() ==> {
                let found = old(self).registry.rec(marker).parent == Some(parent);
                &&& r == Ok::<bool, AccessError>(found)
                &&& found == old(self).child_handles(old(cell).held(), parent).contains(old(self).handle(marker))
                &&& final(cell).is_granted()
                &&& final(self).wf(final(cell).held())
                &&& !found ==> {
                    &&& final(cell).lease() == old(cell).lease()
                    &&& final(self).registry.slots@ == old(self).registry.slots@
                }
                &&& found ==> attach_before_step(
                    *old(self),
                    old(cell).held(),
                    *final(self),
                    final(cell).held(),
                    node,
                    parent,
                    marker,
                )
            },
    {
        let host = match cell.with_access() {
            Ok(h) => h,
            Err(e) => return Err(e),
        };
        let hn = self.registry.record(node).handle;
        let hp = self.registry.record(parent).handle;
        let hm = self.registry.record(marker).handle;
        let mut placed = remove_all(&host.children[hp.0], hn);
        proof {
            self.lemma_child_iff_parent(*host, marker, parent);
            assert(hm != hn) by {
                assert(host.tag_of(hm) == marker);
                assert(host.tag_of(hn) == node);
            }
            lemma_without_contains(host.kids(hp), hn, hm);
        }
        match index_of(&placed, hm) {
            None => Ok(false),
            Some(i) => {
                let ghost rest = placed@;
                proof {
                    lemma_first_index(rest, hm);
                }
                placed.insert(i, hn);
                proof {
                    assert forall|c: HostHandle| #[trigger] placed@.contains(c) <==>
                        c == hn || (host.kids(hp).contains(c) && c != hn) by {
                        lemma_without_contains(host.kids(hp), hn, c);
                        lemma_insert_contains(rest, i as int, hn, c);
                    }
                }
                self.relink(host, node, Some(parent), placed);
                Ok(true)
            },
        }
    }

    /// Clears the parent of `node`; its entity stays alive, unparented.
    pub fn detach(&mut self, cell: &mut HostAccessCell<HostStore>, node: NodeId) -> (r: Result<(), AccessError>)
        requires
            old(cell).is_granted() ==> old(self).wf(old(cell).held()),
            old(self).registry.is_live(node),
        ensures
            !old(cell).is_granted() ==> {
                &&& r == Err::<(), AccessError>(AccessError::NotAvailable)
                &&& final(cell).lease() == old(cell).lease()
                &&& final(self).registry.slots@ == old(self).registry.slots@
            },
            old(cell).is_granted() ==> {
                &&& r is Ok
                &&& final(cell).is_granted()
                &&& detach_step(*old(self), old(cell).held(), *final(self), final(cell).held(), node)
            },
    {
        let host = match cell.with_access() {
            Ok(h) => h,
            Err(e) => return Err(e),
        };
        self.relink(host, node, None, Vec::new());
        Ok(())
    }

    /// Removes `node` and every structural descendant: their entities are
    /// despawned, their ids become terminal, and no remaining entity lists
    /// them as children.
    pub fn destroy(&mut self, cell: &mut HostAccessCell<HostStore>, node: NodeId) -> (r: Result<(), AccessError>)
        requires
            old(cell).is_granted() ==> old(self).wf(old(cell).held()),
            old(self).registry.is_live(node),
        ensures
            !old(cell).is_granted() ==> {
                &&& r == Err::<(), AccessError>(AccessError::NotAvailable)
                &&& final(cell).lease() == old(cell).lease()
                &&& final(self).registry.slots@ == old(self).registry.slots@
            },
            old(cell).is_granted() ==> {
                &&& r is Ok
                &&& final(cell).is_granted()
                &&& destroy_step(*old(self), old(cell).held(), *final(self), final(cell).held(), node)
            },
    {
        let host = match cell.with_access() {
            Ok(h) => h,
            Err(e) => return Err(e),
        };
        let ghost h0 = *host;
        let ghost t0 = *self;
        let marked = self.mark_subtree(host, node);
        let len = self.registry.slots.len();
        let mut k: usize = 0;
        while k < len
            invariant
                k <= len,
                len == t0.registry.slots@.len(),
                marked@.len() == len,
                t0.wf(h0),
                forall|x: NodeId| #[trigger] t0.registry.allocated(x) ==>
                    (marked@[x.0 - 1] <==> t0.descends(x, node)),
                host.wf(),
                host.len() == h0.len(),
                host.tags@ == h0.tags@,
                host.versions@ == h0.versions@,
                self.registry.slots@.len() == len,
                forall|j: int| 0 <= j < len ==> #[trigger] self.registry.slots@[j] == if j < k && marked@[j] {
                    NodeSlot::Destroyed
                } else {
                    t0.registry.slots@[j]
                },
                forall|h: HostHandle| h.0 < h0.len() ==> {
                    let gone = t0.destroys(h0, node, h) && h0.tag_of(h).0 - 1 < k;
                    &&& #[trigger] host.live(h) == (h0.live(h) && !gone)
                    &&& host.parent_of(h) == if gone { None } else { h0.parent_of(h) }
                    &&& host.kids(h) == if gone { Seq::<HostHandle>::empty() } else { h0.kids(h) }
                },
            decreases len - k,
        {
            if marked[k] {
                let id = NodeId(k + 1);
                proof {
                    assert(t0.registry.allocated(id));
                    let kk = choose|kk: nat| #[trigger] t0.reaches(id, node, kk);
                    assert(t0.registry.is_live(id));
                    assert(self.registry.slots@[k as int] == t0.registry.slots@[k as int]);
                }
                let hk = self.registry.record(id).handle;
                let ghost before = *host;
                host.despawn(hk);
                self.registry.set_slot(id, NodeSlot::Destroyed);
                proof {
                    assert(hk == t0.handle(id));
                    assert(h0.tag_of(hk) == id);
                    assert(t0.destroys(h0, node, hk));
                    assert(hk.0 < h0.len());
                    assert forall|h: HostHandle| h.0 < h0.len() implies {
                        let gone = t0.destroys(h0, node, h) && h0.tag_of(h).0 - 1 < k + 1;
                        &&& #[trigger] host.live(h) == (h0.live(h) && !gone)
                        &&& host.parent_of(h) == if gone { None } else { h0.parent_of(h) }
                        &&& host.kids(h) == if gone { Seq::<HostHandle>::empty() } else { h0.kids(h) }
                    } by {
                        let gone = t0.destroys(h0, node, h) && h0.tag_of(h).0 - 1 < k;
                        assert(before.live(h) == (h0.live(h) && !gone));
                        assert(before.parent_of(h) == if gone { None } else { h0.parent_of(h) });
                        assert(before.kids(h) == if gone { Seq::<HostHandle>::empty() } else { h0.kids(h) });
                        if h != hk {
                            assert(h.0 != hk.0);
                            assert(host.children@[h.0 as int] == before.children@[h.0 as int]);
                            assert(host.live(h) == before.live(h));
                            assert(host.parent_of(h) == before.parent_of(h));
                            if t0.destroys(h0, node, h) && h0.tag_of(h).0 - 1 == k {
                                assert(h0.tag_of(h) == id);
                            }
                        } else {
                            assert(!host.live(h));
                            assert(host.parent_of(h) is None);
                        }
                    }
                }
            }
            k = k + 1;
        }
        let ghost h3 = *host;
        let hl = host.alive.len();
        let mut i: usize = 0;
        while i < hl
            invariant
                i <= hl,
                hl == h3.len(),
                h3.wf(),
                host.wf(),
                host.alive@ == h3.alive@,
                host.tags@ == h3.tags@,
                host.parents@ == h3.parents@,
                host.versions@ == h3.versions@,
                host.children@.len() == h3.children@.len(),
                forall|h: HostHandle| h.0 < hl ==> #[trigger] host.kids(h) == if h.0 < i && h3.live(h) {
                    keep_live(h3.kids(h), h3.alive@)
                } else {
                    h3.kids(h)
                },
            decreases hl - i,
        {
            let ghost hb = *host;
            if host.alive[i] {
                let ks = host.live_handles(&host.children[i]);
                host.set_children(HostHandle(i), ks);
            }
            proof {
                assert forall|h: HostHandle| h.0 < hl implies #[trigger] host.kids(h) == if h.0 < i + 1 && h3.live(h) {
                    keep_live(h3.kids(h), h3.alive@)
                } else {
                    h3.kids(h)
                } by {
                    assert(hb.kids(h) == if h.0 < i && h3.live(h) {
                        keep_live(h3.kids(h), h3.alive@)
                    } else {
                        h3.kids(h)
                    });
                    if h.0 != i {
                        assert(host.children@[h.0 as int] == hb.children@[h.0 as int]);
                    } else {
                        assert(h == HostHandle(i));
                    }
                }
            }
            i = i + 1;
        }
        proof {
            assert forall|h: HostHandle| h.0 < h0.len() implies {
                let gone = t0.destroys(h0, node, h);
                &&& #[trigger] h3.live(h) == (h0.live(h) && !gone)
                &&& h3.parent_of(h) == if gone { None } else { h0.parent_of(h) }
                &&& h3.kids(h) == if gone { Seq::<HostHandle>::empty() } else { h0.kids(h) }
            } by {
                assert(h3.live(h) == host.live(h));
                if t0.destroys(h0, node, h) {
                    assert(t0.registry.allocated(h0.tag_of(h)));
                }
            }
            assert forall|j: int| 0 <= j < marked@.len() implies #[trigger] self.registry.slots@[j] == if marked@[j] {
                NodeSlot::Destroyed
            } else {
                t0.registry.slots@[j]
            } by {}
            self.lemma_destroy_wf(t0, h0, h3, *host, node, marked@);
            assert forall|x: NodeId| #[trigger] t0.registry.allocated(x) implies
                self.registry.slot(x) == if t0.descends(x, node) {
                    NodeSlot::Destroyed
                } else {
                    t0.registry.slot(x)
                } by {
                assert(self.registry.slots@[x.0 - 1] == if marked@[x.0 - 1] {
                    NodeSlot::Destroyed
                } else {
                    t0.registry.slots@[x.0 - 1]
                });
            }
            assert forall|h: HostHandle| #[trigger] host.live(h) implies {
                &&& host.parent_of(h) == h0.parent_of(h)
                &&& host.kids(h) == keep_live(h0.kids(h), host.alive@)
            } by {
                assert(h3.live(h));
                assert(h3.kids(h) == h0.kids(h));
                assert(h.0 < h3.len());
            }
            assert forall|h: HostHandle| h.0 < h0.len() implies
                (#[trigger] host.live(h) <==> h0.live(h) && !t0.destroys(h0, node, h)) by {
                assert(h3.live(h) == (h0.live(h) && !t0.destroys(h0, node, h)));
            }
        }
        Ok(())
    }

    /// The recorded parent of a live node.
    pub fn parent(&self, node: NodeId) -> (r: Option<NodeId>)
        requires
            self.registry.is_live(node),
        ensures
            r == self.registry.rec(node).parent,
    {
        self.registry.record(node).parent
    }

    /// The children of `node`, in order.
    pub fn children(&self, cell: &mut HostAccessCell<HostStore>, node: NodeId) -> (r: Result<Vec<NodeId>, AccessError>)
        requires
            old(cell).is_granted() ==> self.wf(old(cell).held()),
            self.registry.is_live(node),
        ensures
            final(cell).lease() == old(cell).lease(),
            !old(cell).is_granted() ==> r == Err::<Vec<NodeId>, AccessError>(AccessError::NotAvailable),
            old(cell).is_granted() ==> (r matches Ok(v) && v@ == Self::ids_of(
                old(cell).held(),
                self.child_handles(old(cell).held(), node),
            )),
    {
        let host = match cell.with_access() {
            Ok(h) => h,
            Err(e) => return Err(e),
        };
        let h = self.registry.record(node).handle;
        let kids = &host.children[h.0];
        let mut out: Vec<NodeId> = Vec::new();
        let mut i: usize = 0;
        while i < kids.len()
            invariant
                self.wf(*host),
                self.registry.is_live(node),
                h == self.handle(node),
                kids@ == host.kids(h),
                i <= kids@.len(),
                out@ == Self::ids_of(*host, kids@.subrange(0, i as int)),
            decreases kids@.len() - i,
        {
            let c = kids[i];
            proof {
                assert(host.kids(h).contains(c));
            }
            out.push(host.tags[c.0]);
            proof {
                assert(Self::ids_of(*host, kids@.subrange(0, i + 1)) =~= Self::ids_of(*host, kids@.subrange(0, i as int)).push(host.tag_of(c)));
            }
            i = i + 1;
        }
        proof {
            assert(kids@.subrange(0, kids@.len() as int) == kids@);
        }
        Ok(out)
    }

    /// The first child of `node`, if it has children.
    pub fn first_child(&self, cell: &mut HostAccessCell<HostStore>, node: NodeId) -> (r: Result<Option<NodeId>, AccessError>)
        requires
            old(cell).is_granted() ==> self.wf(old(cell).held()),
            self.registry.is_live(node),
        ensures
            final(cell).lease() == old(cell).lease(),
            !old(cell).is_granted() ==> r == Err::<Option<NodeId>, AccessError>(AccessError::NotAvailable),
            old(cell).is_granted() ==> {
                let host = old(cell).held();
                let kids = self.child_handles(host, node);
                r == Ok::<Option<NodeId>, AccessError>(if kids.len() == 0 {
                    None
                } else {
                    Some(host.tag_of(kids[0]))
                })
            },
    {
        let host = match cell.with_access() {
            Ok(h) => h,
            Err(e) => return Err(e),
        };
        let h = self.registry.record(node).handle;
        if host.children[h.0].len() == 0 {
            Ok(None)
        } else {
            let c = host.children[h.0][0];
            proof {
                assert(host.kids(h).contains(c));
            }
            Ok(Some(host.tags[c.0]))
        }
    }

    /// The child that follows `node` under its parent, if any.
    pub fn next_sibling(&self, cell: &mut HostAccessCell<HostStore>, node: NodeId) -> (r: Result<Option<NodeId>, AccessError>)
        requires
            old(cell).is_granted() ==> self.wf(old(cell).held()),
            self.registry.is_live(node),
        ensures
            final(cell).lease() == old(cell).lease(),
            !old(cell).is_granted() ==> r == Err::<Option<NodeId>, AccessError>(AccessError::NotAvailable),
            old(cell).is_granted() ==> {
                let host = old(cell).held();
                r == Ok::<Option<NodeId>, AccessError>(match self.registry.rec(node).parent_handle {
                    None => None,
                    Some(q) => {
                        let kids = host.kids(q);
                        let i = first_index(kids, self.handle(node));
                        if i + 1 < kids.len() {
                            Some(host.tag_of(kids[i + 1]))
                        } else {
                            None
                        }
                    },
                })
            },
    {
        let host = match cell.with_access() {
            Ok(h) => h,
            Err(e) => return Err(e),
        };
        let rec = self.registry.record(node);
        match rec.parent_handle {
            None => Ok(None),
            Some(q) => {
                proof {
                    lemma_first_index(host.kids(q), rec.handle);
                }
                let kids = &host.children[q.0];
                match index_of(kids, rec.handle) {
                    None => Ok(None),
                    Some(i) => {
                        if kids.len() - i > 1 {
                            let c = kids[i + 1];
                            proof {
                                assert(host.kids(q).contains(c));
                            }
                            Ok(Some(host.tags[c.0]))
                        } else {
                            Ok(None)
                        }
                    },
                }
            },
        }
    }

    /// Gives node `n` the parent `parent` (or none), in the registry and in
    /// the host store, and takes its handle out of every child list; the
    /// parent's child list becomes `placed`.
    fn relink(&mut self, host: &mut HostStore, n: NodeId, parent: Option<NodeId>, placed: Vec<HostHandle>)
        requires
            old(self).wf(*old(host)),
            old(self).registry.is_live(n),
            parent matches Some(p) ==> {
                &&& old(self).registry.is_live(p)
                &&& p != n
                &&& forall|c: HostHandle| #[trigger] placed@.contains(c) <==>
                    c == old(self).handle(n) || (old(host).kids(old(self).handle(p)).contains(c)
                        && c != old(self).handle(n))
            },
        ensures
            final(self).wf(*final(host)),
            relinked(
                *old(host),
                *final(host),
                old(self).handle(n),
                match parent {
                    Some(p) => Some(old(self).handle(p)),
                    None => None,
                },
                placed@,
            ),
            final(self).registry.slots@ == old(self).registry.slots@.update(
                n.0 - 1,
                NodeSlot::Live(NodeRecord {
                    parent,
                    parent_handle: match parent {
                        Some(p) => Some(old(self).handle(p)),
                        None => None,
                    },
                    ..old(self).registry.rec(n)
                }),
            ),
    {
        let ghost h0 = *host;
        let rn = self.registry.record(n);
        let hn = rn.handle;
        if let Some(q) = rn.parent_handle {
            let ks = remove_all(&host.children[q.0], hn);
            host.set_children(q, ks);
        }
        let ghost h1 = *host;
        let target = match parent {
            Some(p) => {
                let hp = self.registry.record(p).handle;
                host.set_children(hp, placed);
                Some(hp)
            },
            None => None,
        };
        host.set_parent_link(hn, target);
        self.registry.set_slot(n, NodeSlot::Live(NodeRecord { parent, parent_handle: target, ..rn }));
        proof {
            let ghost old_tree = *old(self);
            assert forall|h: HostHandle| h.0 < h0.len() implies #[trigger] host.kids(h) == if target == Some(h) {
                placed@
            } else {
                without(h0.kids(h), hn)
            } by {
                if target != Some(h) {
                    if rn.parent_handle != Some(h) {
                        assert(host.kids(h) == h0.kids(h));
                        if h0.kids(h).contains(hn) {
                            assert(h0.live(h));
                        }
                        lemma_without_absent(h0.kids(h), hn);
                    }
                }
            }
            assert forall|id: NodeId| #[trigger] self.registry.is_live(id) implies {
                let r = self.registry.rec(id);
                &&& host.live(r.handle)
                &&& host.tag_of(r.handle) == id
                &&& host.parent_of(r.handle) == r.parent_handle
                &&& (r.parent matches Some(p) ==> self.registry.is_live(p)
                    && self.registry.rec(p).handle == r.parent_handle->Some_0
                    && host.kids(r.parent_handle->Some_0).contains(r.handle))
            } by {
                assert(old_tree.registry.is_live(id));
                let r = self.registry.rec(id);
                if id != n {
                    assert(old_tree.registry.rec(id).handle != hn);
                    if let Some(q) = r.parent_handle {
                        assert(h0.kids(q).contains(r.handle));
                        assert(q.0 < h0.len());
                        lemma_without_contains(h0.kids(q), hn, r.handle);
                        if target == Some(q) {
                            assert(placed@.contains(r.handle));
                        }
                    }
                } else if let Some(q) = target {
                    assert(placed@.contains(hn));
                    assert(q.0 < h0.len());
                }
            }
            assert forall|h: HostHandle, c: HostHandle|
                host.live(h) && #[trigger] host.kids(h).contains(c) implies host.live(c)
                    && host.parent_of(c) == Some(h) by {
                lemma_without_contains(h0.kids(h), hn, c);
                if target != Some(h) {
                    assert(h0.kids(h).contains(c));
                    assert(c != hn);
                } else if c != hn {
                    assert(h0.kids(h).contains(c));
                }
            }
            assert forall|h: HostHandle| h.0 < host.len() && !host.live(h) implies #[trigger] host.kids(h).len() == 0 by {
                assert(h0.kids(h).len() == 0);
                if target == Some(h) {
                    assert(old_tree.registry.is_live(parent->Some_0));
                }
            }
        }
    }

    /// One flag per registry slot: set exactly for `n` and its descendants.
    fn mark_subtree(&self, host: &HostStore, n: NodeId) -> (marked: Vec<bool>)
        requires
            self.wf(*host),
            self.registry.is_live(n),
        ensures
            marked@.len() == self.registry.slots@.len(),
            forall|x: NodeId| #[trigger] self.registry.allocated(x) ==>
                (marked@[x.0 - 1] <==> self.descends(x, n)),
    {
        let len = self.registry.slots.len();
        let mut marked: Vec<bool> = Vec::new();
        let mut k: usize = 0;
        while k < len
            invariant
                k <= len,
                marked@.len() == k,
                forall|j: int| 0 <= j < k ==> !marked@[j],
            decreases len - k,
        {
            marked.push(false);
            k = k + 1;
        }
        proof {
            assert(self.reaches(n, n, 0));
            lemma_count_marked_set(marked@, n.0 - 1);
        }
        marked.set(n.0 - 1, true);
        proof {
            assert forall|j: int| 0 <= j < len && #[trigger] marked@[j] implies
                self.descends(NodeId((j + 1) as usize), n) by {
                assert(NodeId((j + 1) as usize) == n);
                assert(self.reaches(n, n, 0));
            }
        }
        let mut changed = true;
        while changed
            invariant
                self.wf(*host),
                self.registry.is_live(n),
                len == self.registry.slots@.len(),
                marked@.len() == len,
                marked@[n.0 - 1],
                forall|j: int| 0 <= j < len && #[trigger] marked@[j] ==>
                    self.descends(NodeId((j + 1) as usize), n),
                !changed ==> forall|j: int| 0 <= j < len ==> #[trigger] self.closed_at(marked@, j),
            decreases len - count_marked(marked@) + if changed { 1int } else { 0int },
        {
            proof {
                lemma_count_marked_bound(marked@);
            }
            let ghost start = marked@;
            changed = false;
            let mut k: usize = 0;
            while k < len
                invariant
                    self.wf(*host),
                    self.registry.is_live(n),
                    k <= len,
                    len == self.registry.slots@.len(),
                    marked@.len() == len,
                    start.len() == len,
                    marked@[n.0 - 1],
                    forall|j: int| 0 <= j < len && #[trigger] marked@[j] ==>
                        self.descends(NodeId((j + 1) as usize), n),
                    !changed ==> marked@ == start,
                    changed ==> count_marked(marked@) > count_marked(start),
                    !changed ==> forall|j: int| 0 <= j < k ==> #[trigger] self.closed_at(marked@, j),
                decreases len - k,
            {
                if !marked[k] {
                    if let NodeSlot::Live(r) = self.registry.slots[k] {
                        if let Some(p) = r.parent {
                            proof {
                                assert(self.registry.is_live(NodeId((k + 1) as usize)));
                                assert(self.registry.rec(NodeId((k + 1) as usize)) == r);
                            }
                            if marked[p.0 - 1] {
                                proof {
                                    assert(NodeId(((p.0 - 1) + 1) as usize) == p);
                                    let kk = choose|kk: nat| #[trigger] self.reaches(p, n, kk);
                                    assert(self.reaches(NodeId((k + 1) as usize), n, kk + 1));
                                    lemma_count_marked_set(marked@, k as int);
                                }
                                marked.set(k, true);
                                changed = true;
                            }
                        }
                    }
                }
                k = k + 1;
            }
            proof {
                lemma_count_marked_bound(marked@);
            }
        }
        proof {
            assert forall|x: NodeId| #[trigger] self.registry.allocated(x) implies
                (marked@[x.0 - 1] <==> self.descends(x, n)) by {
                assert(NodeId(((x.0 - 1) + 1) as usize) == x);
                if self.descends(x, n) {
                    let kk = choose|kk: nat| #[trigger] self.reaches(x, n, kk);
                    self.lemma_closed_reaches(marked@, n, x, kk);
                }
            }
        }
        marked
    }

    /// A live node whose parent is marked is marked too.
    pub open spec fn closed_at(&self, marked: Seq<bool>, j: int) -> bool {
        (self.registry.slots@[j] is Live && self.registry.slots@[j]->Live_0.parent is Some
            && marked[self.registry.slots@[j]->Live_0.parent->Some_0.0 - 1]) ==> marked[j]
    }

    proof fn lemma_closed_reaches(&self, marked: Seq<bool>, n: NodeId, x: NodeId, k: nat)
        requires
            self.registry.wf(),
            marked.len() == self.registry.slots@.len(),
            self.registry.is_live(n),
            marked[n.0 - 1],
            forall|j: int| 0 <= j < marked.len() ==> #[trigger] self.closed_at(marked, j),
            forall|y: NodeId| #[trigger] self.registry.is_live(y) && self.registry.rec(y).parent is Some
                ==> self.registry.is_live(self.registry.rec(y).parent->Some_0),
            self.reaches(x, n, k),
        ensures
            marked[x.0 - 1],
        decreases k,
    {
        if x != n {
            let p = self.registry.rec(x).parent->Some_0;
            self.lemma_closed_reaches(marked, n, p, (k - 1) as nat);
            assert(self.closed_at(marked, x.0 - 1));
        }
    }

    proof fn lemma_destroy_wf(
        &self,
        t0: TreeMutator,
        h0: HostStore,
        h3: HostStore,
        h4: HostStore,
        node: NodeId,
        marked: Seq<bool>,
    )
        requires
            t0.wf(h0),
            t0.registry.is_live(node),
            marked.len() == t0.registry.slots@.len(),
            forall|x: NodeId| #[trigger] t0.registry.allocated(x) ==>
                (marked[x.0 - 1] <==> t0.descends(x, node)),
            self.registry.slots@.len() == t0.registry.slots@.len(),
            forall|j: int| 0 <= j < marked.len() ==> #[trigger] self.registry.slots@[j] == if marked[j] {
                NodeSlot::Destroyed
            } else {
                t0.registry.slots@[j]
            },
            h3.wf(),
            h3.len() == h0.len(),
            h3.tags@ == h0.tags@,
            forall|h: HostHandle| h.0 < h0.len() ==> {
                let gone = t0.destroys(h0, node, h);
                &&& #[trigger] h3.live(h) == (h0.live(h) && !gone)
                &&& h3.parent_of(h) == if gone { None } else { h0.parent_of(h) }
                &&& h3.kids(h) == if gone { Seq::<HostHandle>::empty() } else { h0.kids(h) }
            },
            h4.wf(),
            h4.alive@ == h3.alive@,
            h4.tags@ == h3.tags@,
            h4.parents@ == h3.parents@,
            forall|h: HostHandle| h.0 < h3.len() ==> #[trigger] h4.kids(h) == if h3.live(h) {
                keep_live(h3.kids(h), h3.alive@)
            } else {
                h3.kids(h)
            },
        ensures
            self.wf(h4),
    {
        assert forall|x: NodeId| #[trigger] self.registry.is_live(x) implies {
            let r = self.registry.rec(x);
            &&& h4.live(r.handle)
            &&& h4.tag_of(r.handle) == x
            &&& h4.parent_of(r.handle) == r.parent_handle
            &&& (r.parent matches Some(p) ==> self.registry.is_live(p)
                && self.registry.rec(p).handle == r.parent_handle->Some_0
                && h4.kids(r.parent_handle->Some_0).contains(r.handle))
        } by {
            assert(t0.registry.allocated(x));
            assert(self.registry.slots@[x.0 - 1] == if marked[x.0 - 1] {
                NodeSlot::Destroyed
            } else {
                t0.registry.slots@[x.0 - 1]
            });
            assert(!marked[x.0 - 1]);
            assert(t0.registry.is_live(x));
            let r = t0.registry.rec(x);
            assert(self.registry.rec(x) == r);
            assert(!t0.descends(x, node));
            assert(!t0.destroys(h0, node, r.handle));
            assert(h0.live(r.handle));
            assert(h3.live(r.handle));
            assert(h4.live(r.handle));
            assert(h3.parent_of(r.handle) == h0.parent_of(r.handle));
            if let Some(p) = r.parent {
                assert(t0.registry.allocated(p));
                if marked[p.0 - 1] {
                    let kk = choose|kk: nat| #[trigger] t0.reaches(p, node, kk);
                    assert(t0.reaches(x, node, kk + 1));
                }
                assert(self.registry.slots@[p.0 - 1] == t0.registry.slots@[p.0 - 1]);
                let q = r.parent_handle->Some_0;
                assert(t0.registry.is_live(p));
                assert(!t0.descends(p, node));
                assert(!t0.destroys(h0, node, q));
                assert(h3.live(q));
                assert(h3.kids(q) == h0.kids(q));
                lemma_keep_live_contains(h3.kids(q), h3.alive@, r.handle);
            }
        }
        assert forall|h: HostHandle, c: HostHandle|
            h4.live(h) && #[trigger] h4.kids(h).contains(c) implies h4.live(c)
                && h4.parent_of(c) == Some(h) by {
            assert(h3.live(h));
            assert(h0.live(h));
            lemma_keep_live_contains(h3.kids(h), h3.alive@, c);
            assert(h0.kids(h).contains(c));
            assert(h0.live(c));
            assert(h3.live(c));
        }
        assert forall|x: NodeId| #[trigger] self.registry.allocated(x) && self.registry.slot(x) is Live implies {
            &&& self.registry.slot(x)->Live_0.id.0 == x.0
            &&& self.registry.slot(x)->Live_0.wf()
        } by {
            assert(t0.registry.slots@[x.0 - 1] is Live);
        }
        assert forall|k: int|
            0 <= k < self.registry.slots@.len() && (#[trigger] self.registry.slots@[k]) is Live implies {
                &&& self.registry.slots@[k]->Live_0.id.0 == k + 1
                &&& self.registry.slots@[k]->Live_0.wf()
            } by {
            assert(t0.registry.slots@[k] is Live);
        }
    }
}

} // verus!
