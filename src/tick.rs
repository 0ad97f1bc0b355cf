use vstd::prelude::*;

use crate::access::HostAccessCell;
use crate::executor::{ids, kept, ManagedExecutor};
use crate::host::{lemma_without_absent, lemma_without_contains, lemma_without_shrinks, without, HostStore};
use crate::registry::NodeId;

verus! {

/// Fire `trigger` when resource `resource` of the host changes.
#[derive(Clone, Copy, Debug, PartialEq, Eq, Structural)]
pub struct Subscription {
    pub resource: usize,
    pub trigger: u64,
}

/// One mounted subtree: its root node and its change subscriptions.
pub struct Root {
    pub node: NodeId,
    pub subscriptions: Vec<Subscription>,
}

/// Resource `r` is present in the host and its version differs from the one
/// seen at the end of the previous tick (or it was not present then). A
/// resource the host does not have counts as unchanged.
pub open spec fn changed(host: HostStore, seen: Seq<u64>, r: usize) -> bool {
    match host.version(r) {
        Some(v) => r >= seen.len() || v != seen[r as int],
        None => false,
    }
}

/// The triggers of `subs` whose resource changed, in order.
pub open spec fn fired_in(subs: Seq<Subscription>, host: HostStore, seen: Seq<u64>) -> Seq<u64>
    decreases subs.len(),
{
    if subs.len() == 0 {
        Seq::empty()
    } else if changed(host, seen, subs.last().resource) {
        fired_in(subs.drop_last(), host, seen).push(subs.last().trigger)
    } else {
        fired_in(subs.drop_last(), host, seen)
    }
}

/// The triggers to fire for `roots`, root by root.
pub open spec fn fired(roots: Seq<Root>, host: HostStore, seen: Seq<u64>) -> Seq<u64>
    decreases roots.len(),
{
    if roots.len() == 0 {
        Seq::empty()
    } else {
        fired(roots.drop_last(), host, seen) + fired_in(roots.last().subscriptions@, host, seen)
    }
}

/// Index of the entry of `roots` for `node`, or -1.
pub open spec fn root_index(roots: Seq<Root>, node: NodeId) -> int
    decreases roots.len(),
{
    if roots.len() == 0 {
        -1
    } else if roots.last().node == node {
        roots.len() - 1
    } else {
        root_index(roots.drop_last(), node)
    }
}

pub proof fn lemma_root_index(roots: Seq<Root>, node: NodeId)
    ensures
        -1 <= root_index(roots, node) < roots.len(),
        root_index(roots, node) >= 0 ==> roots[root_index(roots, node)].node == node,
        root_index(roots, node) == -1 <==> forall|i: int| 0 <= i < roots.len() ==> #[trigger] roots[i].node != node,
    decreases roots.len(),
{
    if roots.len() > 0 {
        lemma_root_index(roots.drop_last(), node);
        if roots.last().node != node {
            assert forall|i: int| 0 <= i < roots.len() - 1 implies #[trigger] roots[i].node == roots.drop_last()[i].node by {}
        }
    }
}

/// Drives one host tick: change notification, then a flush of the executor
/// while the host is leased out.
pub struct HostIntegration<S, L> {
    pub roots: Vec<Root>,
    /// The host's resource versions at the end of the previous tick.
    pub seen: Vec<u64>,
    pub cell: HostAccessCell<HostStore>,
    pub executor: ManagedExecutor<S, L>,
}

impl<S: std::future::Future<Output = ()> + Unpin, L: std::future::Future<Output = ()> + Unpin> HostIntegration<S, L> {
    /// Between ticks the host is not leased out and each root is mounted once.
    pub open spec fn wf(&self) -> bool {
        &&& !self.cell.is_granted()
        &&& forall|i: int, j: int|
            0 <= i < j < self.roots@.len() ==> #[trigger] self.roots@[i].node != #[trigger] self.roots@[j].node
    }

    pub fn new() -> (r: Self)
        ensures
            r.wf(),
            r.roots@.len() == 0,
            r.seen@.len() == 0,
            r.executor.remote@.len() == 0,
            r.executor.local@.len() == 0,
    {
        HostIntegration {
            roots: Vec::new(),
            seen: Vec::new(),
            cell: HostAccessCell::new(),
            executor: ManagedExecutor::new(),
        }
    }

    /// Position of the entry for `node`, if it is mounted.
    pub fn find_root(&self, node: NodeId) -> (r: Option<usize>)
        ensures
            r is None ==> root_index(self.roots@, node) == -1,
            r is Some ==> r->Some_0 == root_index(self.roots@, node),
    {
        proof {
            lemma_root_index(self.roots@, node);
        }
        let mut i: usize = self.roots.len();
        assert(self.roots@.subrange(0, i as int) == self.roots@);
        while i > 0
            invariant
                i <= self.roots@.len(),
                root_index(self.roots@, node) == root_index(self.roots@.subrange(0, i as int), node),
            decreases i,
        {
            let ghost pre = self.roots@.subrange(0, i as int);
            assert(pre.drop_last() == self.roots@.subrange(0, i - 1));
            if self.roots[i - 1].node == node {
                return Some(i - 1);
            }
            i = i - 1;
        }
        None
    }

    /// Registers a mounted subtree rooted at `node`, with no subscriptions.
    /// Returns `false`, changing nothing, when `node` is mounted already.
    pub fn mount_root(&mut self, node: NodeId) -> (r: bool)
        requires
            old(self).wf(),
        ensures
            final(self).wf(),
            r == (root_index(old(self).roots@, node) == -1),
            r ==> final(self).roots@.len() == old(self).roots@.len() + 1
                && final(self).roots@.drop_last() == old(self).roots@
                && final(self).roots@.last().node == node
                && final(self).roots@.last().subscriptions@.len() == 0,
            !r ==> final(self).roots@ == old(self).roots@,
            final(self).seen@ == old(self).seen@,
            final(self).cell == old(self).cell,
            final(self).executor == old(self).executor,
    {
        proof {
            lemma_root_index(self.roots@, node);
        }
        match self.find_root(node) {
            Some(_) => false,
            None => {
                self.roots.push(Root { node, subscriptions: Vec::new() });
                proof {
                    assert(self.roots@.drop_last() == old(self).roots@);
                }
                true
            },
        }
    }

    /// Removes the entry of `node` and its subscriptions. Returns `false`,
    /// changing nothing, when `node` is not mounted.
    pub fn unmount_root(&mut self, node: NodeId) -> (r: bool)
        requires
            old(self).wf(),
        ensures
            final(self).wf(),
            r == (root_index(old(self).roots@, node) != -1),
            r ==> final(self).roots@ == old(self).roots@.remove(root_index(old(self).roots@, node)),
            !r ==> final(self).roots@ == old(self).roots@,
            forall|i: int| 0 <= i < final(self).roots@.len() ==> #[trigger] final(self).roots@[i].node != node,
            final(self).seen@ == old(self).seen@,
            final(self).cell == old(self).cell,
            final(self).executor == old(self).executor,
    {
        proof {
            lemma_root_index(self.roots@, node);
        }
        match self.find_root(node) {
            None => false,
            Some(i) => {
                self.roots.remove(i);
                proof {
                    old(self).roots@.remove_ensures(i as int);
                    assert forall|a: int| 0 <= a < self.roots@.len() implies #[trigger] self.roots@[a].node != node by {
                        if a < i {
                            assert(self.roots@[a] == old(self).roots@[a]);
                        } else {
                            assert(self.roots@[a] == old(self).roots@[a + 1]);
                        }
                    }
                    assert forall|a: int, b: int|
                        0 <= a < b < self.roots@.len() implies #[trigger] self.roots@[a].node != #[trigger] self.roots@[b].node by {
                        let a1 = if a < i { a } else { a + 1 };
                        let b1 = if b < i { b } else { b + 1 };
                        assert(self.roots@[a] == old(self).roots@[a1]);
                        assert(self.roots@[b] == old(self).roots@[b1]);
                        assert(old(self).roots@[a1].node != old(self).roots@[b1].node);
                    }
                }
                true
            },
        }
    }

    /// Adds `sub` to the subscriptions of the root `node`, unless it is there
    /// already. Returns `false`, changing nothing, when `node` is not mounted.
    pub fn subscribe(&mut self, node: NodeId, sub: Subscription) -> (r: bool)
        requires
            old(self).wf(),
        ensures
            final(self).wf(),
            r == (root_index(old(self).roots@, node) != -1),
            r ==> {
                let i = root_index(old(self).roots@, node);
                let subs = old(self).roots@[i].subscriptions@;
                &&& final(self).roots@.len() == old(self).roots@.len()
                &&& final(self).roots@[i].node == node
                &&& final(self).roots@[i].subscriptions@ == if subs.contains(sub) {
                    subs
                } else {
                    subs.push(sub)
                }
                &&& forall|j: int| 0 <= j < old(self).roots@.len() && j != i ==> #[trigger] final(self).roots@[j] == old(self).roots@[j]
            },
            !r ==> final(self).roots@ == old(self).roots@,
            final(self).seen@ == old(self).seen@,
            final(self).cell == old(self).cell,
            final(self).executor == old(self).executor,
    {
        proof {
            lemma_root_index(self.roots@, node);
        }
        match self.find_root(node) {
            None => false,
            Some(i) => {
                let mut subs: Vec<Subscription> = Vec::new();
                std::mem::swap(&mut subs, &mut self.roots[i].subscriptions);
                let ghost old_subs = subs@;
                let mut k: usize = 0;
                let mut present = false;
                while k < subs.len()
                    invariant
                        subs@ == old_subs,
                        k <= subs@.len(),
                        present <==> subs@.subrange(0, k as int).contains(sub),
                    decreases subs@.len() - k,
                {
                    proof {
                        let pre = subs@.subrange(0, k as int);
                        let post = subs@.subrange(0, k + 1);
                        assert(post == pre.push(subs@[k as int]));
                        if pre.contains(sub) {
                            let w = choose|w: int| 0 <= w < pre.len() && pre[w] == sub;
                            assert(post[w] == sub);
                        }
                        if post.contains(sub) && subs@[k as int] != sub {
                            let w = choose|w: int| 0 <= w < post.len() && post[w] == sub;
                            assert(pre[w] == sub);
                        }
                        if subs@[k as int] == sub {
                            assert(post[k as int] == sub);
                        }
                    }
                    if subs[k] == sub {
                        present = true;
                    }
                    k = k + 1;
                }
                proof {
                    assert(subs@.subrange(0, k as int) == subs@);
                }
                if !present {
                    subs.push(sub);
                }
                self.roots.set(i, Root { node, subscriptions: subs });
                proof {
                    assert forall|a: int, b: int|
                        0 <= a < b < self.roots@.len() implies #[trigger] self.roots@[a].node != #[trigger] self.roots@[b].node by {
                        assert(old(self).roots@[a].node != old(self).roots@[b].node);
                    }
                }
                true
            },
        }
    }

    /// Removes `sub` from the subscriptions of the root `node`. Returns
    /// whether it was there; nothing changes when it was not, or when `node`
    /// is not mounted.
    pub fn unsubscribe(&mut self, node: NodeId, sub: Subscription) -> (r: bool)
        requires
            old(self).wf(),
        ensures
            final(self).wf(),
            r == (root_index(old(self).roots@, node) != -1
                && old(self).roots@[root_index(old(self).roots@, node)].subscriptions@.contains(sub)),
            root_index(old(self).roots@, node) != -1 ==> {
                let i = root_index(old(self).roots@, node);
                &&& final(self).roots@.len() == old(self).roots@.len()
                &&& final(self).roots@[i].node == node
                &&& final(self).roots@[i].subscriptions@ == without(old(self).roots@[i].subscriptions@, sub)
                &&& forall|j: int| 0 <= j < old(self).roots@.len() && j != i ==> #[trigger] final(self).roots@[j] == old(self).roots@[j]
            },
            root_index(old(self).roots@, node) == -1 ==> final(self).roots@ == old(self).roots@,
            final(self).seen@ == old(self).seen@,
            final(self).cell == old(self).cell,
            final(self).executor == old(self).executor,
    {
        proof {
            lemma_root_index(self.roots@, node);
        }
        match self.find_root(node) {
            None => false,
            Some(i) => {
                let mut subs: Vec<Subscription> = Vec::new();
                std::mem::swap(&mut subs, &mut self.roots[i].subscriptions);
                let mut rest: Vec<Subscription> = Vec::new();
                let mut k: usize = 0;
                while k < subs.len()
                    invariant
                        k <= subs@.len(),
                        rest@ == without(subs@.subrange(0, k as int), sub),
                    decreases subs@.len() - k,
                {
                    assert(subs@.subrange(0, k + 1).drop_last() == subs@.subrange(0, k as int));
                    if subs[k] != sub {
                        rest.push(subs[k]);
                    }
                    k = k + 1;
                }
                proof {
                    assert(subs@.subrange(0, k as int) == subs@);
                    lemma_without_contains(subs@, sub, sub);
                    if subs@.contains(sub) {
                        assert(rest@.len() < subs@.len()) by {
                            lemma_without_shrinks(subs@, sub);
                        }
                    } else {
                        lemma_without_absent(subs@, sub);
                    }
                }
                let removed = rest.len() != subs.len();
                self.roots.set(i, Root { node, subscriptions: rest });
                proof {
                    assert forall|a: int, b: int|
                        0 <= a < b < self.roots@.len() implies #[trigger] self.roots@[a].node != #[trigger] self.roots@[b].node by {
                        assert(old(self).roots@[a].node != old(self).roots@[b].node);
                    }
                }
                removed
            },
        }
    }

    /// The triggers to fire this tick: for each root in turn, each
    /// subscription whose resource changed, in the order they were added. A
    /// trigger subscribed to several changed resources fires once for each.
    pub fn changed_triggers(&self, host: &HostStore) -> (r: Vec<u64>)
        ensures
            r@ == fired(self.roots@, *host, self.seen@),
    {
        let mut out: Vec<u64> = Vec::new();
        let mut i: usize = 0;
        while i < self.roots.len()
            invariant
                i <= self.roots@.len(),
                out@ == fired(self.roots@.subrange(0, i as int), *host, self.seen@),
            decreases self.roots@.len() - i,
        {
            let subs = &self.roots[i].subscriptions;
            let ghost base = out@;
            let mut j: usize = 0;
            while j < subs.len()
                invariant
                    i < self.roots@.len(),
                    subs@ == self.roots@[i as int].subscriptions@,
                    j <= subs@.len(),
                    out@ == base + fired_in(subs@.subrange(0, j as int), *host, self.seen@),
                decreases subs@.len() - j,
            {
                let s = subs[j];
                assert(subs@.subrange(0, j + 1).drop_last() == subs@.subrange(0, j as int));
                let present = s.resource < host.versions.len();
                if present && (s.resource >= self.seen.len() || host.versions[s.resource] != self.seen[s.resource]) {
                    out.push(s.trigger);
                    assert(out@ =~= base + fired_in(subs@.subrange(0, j + 1), *host, self.seen@));
                }
                j = j + 1;
            }
            proof {
                assert(subs@.subrange(0, subs@.len() as int) == subs@);
                assert(self.roots@.subrange(0, i + 1).drop_last() == self.roots@.subrange(0, i as int));
            }
            i = i + 1;
        }
        proof {
            assert(self.roots@.subrange(0, self.roots@.len() as int) == self.roots@);
        }
        out
    }

    /// First step of a tick: the triggers to fire, as `changed_triggers`
    /// gives them, and the host's resource versions are recorded as seen.
    /// The caller fires the triggers before `flush_leased`, so that work
    /// they schedule runs in the same tick.
    pub fn notify_changes(&mut self, host: &HostStore) -> (r: Vec<u64>)
        requires
            old(self).wf(),
        ensures
            final(self).wf(),
            r@ == fired(old(self).roots@, *host, old(self).seen@),
            final(self).seen@ == host.versions@,
            final(self).roots@ == old(self).roots@,
            final(self).cell == old(self).cell,
            final(self).executor == old(self).executor,
    {
        let triggers = self.changed_triggers(host);
        let mut seen: Vec<u64> = Vec::new();
        let mut k: usize = 0;
        while k < host.versions.len()
            invariant
                k <= host.versions@.len(),
                seen@ == host.versions@.subrange(0, k as int),
            decreases host.versions@.len() - k,
        {
            seen.push(host.versions[k]);
            k = k + 1;
        }
        proof {
            assert(host.versions@.subrange(0, k as int) == host.versions@);
        }
        self.seen = seen;
        triggers
    }

    /// Rest of a tick: leases `host` out, flushes the executor and ends the
    /// lease. Returns the host and the number of polls.
    pub fn flush_leased(&mut self, host: HostStore) -> (r: (HostStore, usize))
        requires
            old(self).wf(),
            old(self).executor.remote@.len() + old(self).executor.local@.len() <= usize::MAX,
        ensures
            final(self).wf(),
            r.0 == host,
            r.1 == old(self).executor.remote@.len() + old(self).executor.local@.len(),
            final(self).seen@ == old(self).seen@,
            final(self).roots@ == old(self).roots@,
            final(self).executor.next_id == old(self).executor.next_id,
            exists|keep: Seq<bool>|
                keep.len() == old(self).executor.remote@.len()
                    && ids(final(self).executor.remote@) == #[trigger] kept(ids(old(self).executor.remote@), keep),
            exists|keep: Seq<bool>|
                keep.len() == old(self).executor.local@.len()
                    && ids(final(self).executor.local@) == #[trigger] kept(ids(old(self).executor.local@), keep),
    {
        match self.cell.enter(host) {
            Ok(()) => {},
            Err((_, h)) => {
                proof {
                    assert(false);
                }
                return (h, 0);
            },
        }
        let polls = self.executor.flush();
        match self.cell.exit() {
            Ok(h) => (h, polls),
            Err(_) => {
                proof {
                    assert(false);
                }
                (HostStore::new(), polls)
            },
        }
    }
}

} // verus!
