use vstd::prelude::*;

use crate::registry::NodeId;

verus! {

/// Handle of an entity in the host store.
#[derive(Clone, Copy, Debug, PartialEq, Eq, Hash, Structural)]
pub struct HostHandle(pub usize);

/// `s` with every occurrence of `x` taken out, the rest in order.
pub open spec fn without<A>(s: Seq<A>, x: A) -> Seq<A>
    decreases s.len(),
{
    if s.len() == 0 {
        s
    } else if s.last() == x {
        without(s.drop_last(), x)
    } else {
        without(s.drop_last(), x).push(s.last())
    }
}

/// What is left of `s` when `x` is taken out and put back just before the
/// first occurrence of `m`.
pub open spec fn splice_before(s: Seq<HostHandle>, x: HostHandle, m: HostHandle) -> Seq<HostHandle> {
    let rest = without(s, x);
    rest.insert(first_index(rest, m), x)
}

/// Index of the first occurrence of `m` in `s` (the length when absent).
pub open spec fn first_index(s: Seq<HostHandle>, m: HostHandle) -> int
    decreases s.len(),
{
    if s.len() == 0 {
        0
    } else if s[0] == m {
        0
    } else {
        1 + first_index(s.subrange(1, s.len() as int), m)
    }
}

pub proof fn lemma_without_contains<A>(s: Seq<A>, x: A, y: A)
    ensures
        without(s, x).contains(y) <==> (s.contains(y) && y != x),
    decreases s.len(),
{
    if s.len() > 0 {
        let d = s.drop_last();
        let r = without(d, x);
        lemma_without_contains(d, x, y);
        if s.contains(y) && y != x {
            let i = choose|i: int| 0 <= i < s.len() && s[i] == y;
            if i < s.len() - 1 {
                assert(d[i] == y);
                let k = choose|k: int| 0 <= k < r.len() && r[k] == y;
                if s.last() != x {
                    assert(r.push(s.last())[k] == y);
                }
            } else {
                assert(r.push(s.last())[r.len() as int] == y);
            }
        }
        if without(s, x).contains(y) {
            let w = without(s, x);
            let k = choose|k: int| 0 <= k < w.len() && w[k] == y;
            if s.last() != x && k == r.len() {
                assert(s[s.len() - 1] == y);
            } else {
                assert(r[k] == y);
                let j = choose|j: int| 0 <= j < d.len() && d[j] == y;
                assert(s[j] == y);
            }
        }
    }
}

pub proof fn lemma_without_absent<A>(s: Seq<A>, x: A)
    requires
        !s.contains(x),
    ensures
        without(s, x) == s,
    decreases s.len(),
{
    if s.len() > 0 {
        assert(!s.drop_last().contains(x)) by {
            if s.drop_last().contains(x) {
                let i = choose|i: int| 0 <= i < s.drop_last().len() && s.drop_last()[i] == x;
                assert(s[i] == x);
            }
        }
        lemma_without_absent(s.drop_last(), x);
        assert(s[s.len() - 1] != x);
        assert(s.drop_last().push(s.last()) == s);
    }
}

pub proof fn lemma_without_shrinks<A>(s: Seq<A>, x: A)
    requires
        s.contains(x),
    ensures
        without(s, x).len() < s.len(),
    decreases s.len(),
{
    lemma_without_len(s.drop_last(), x);
    if s.last() != x {
        let i = choose|i: int| 0 <= i < s.len() && s[i] == x;
        assert(s.drop_last()[i] == x);
        lemma_without_shrinks(s.drop_last(), x);
    }
}

pub proof fn lemma_without_len<A>(s: Seq<A>, x: A)
    ensures
        without(s, x).len() <= s.len(),
    decreases s.len(),
{
    if s.len() > 0 {
        lemma_without_len(s.drop_last(), x);
    }
}

pub proof fn lemma_first_index(s: Seq<HostHandle>, m: HostHandle)
    ensures
        0 <= first_index(s, m) <= s.len(),
        s.contains(m) ==> first_index(s, m) < s.len() && s[first_index(s, m)] == m,
        !s.contains(m) ==> first_index(s, m) == s.len(),
        forall|j: int| 0 <= j < first_index(s, m) ==> s[j] != m,
    decreases s.len(),
{
    if s.len() > 0 && s[0] == m {
        assert(s.contains(m));
    }
    if s.len() > 0 && s[0] != m {
        let t = s.subrange(1, s.len() as int);
        lemma_first_index(t, m);
        if t.contains(m) {
            let i = choose|i: int| 0 <= i < t.len() && t[i] == m;
            assert(s[i + 1] == m);
        }
        if s.contains(m) {
            let i = choose|i: int| 0 <= i < s.len() && s[i] == m;
            assert(t[i - 1] == m);
        }
        assert forall|j: int| 0 <= j < first_index(s, m) implies s[j] != m by {
            if j > 0 {
                assert(s[j] == t[j - 1]);
            }
        }
    }
}

/// The handles of `s` whose flag in `alive` is set, in order.
pub open spec fn keep_live(s: Seq<HostHandle>, alive: Seq<bool>) -> Seq<HostHandle>
    decreases s.len(),
{
    if s.len() == 0 {
        s
    } else if is_alive(alive, s.last()) {
        keep_live(s.drop_last(), alive).push(s.last())
    } else {
        keep_live(s.drop_last(), alive)
    }
}

pub open spec fn is_alive(alive: Seq<bool>, h: HostHandle) -> bool {
    h.0 < alive.len() && alive[h.0 as int]
}

pub proof fn lemma_keep_live_contains(s: Seq<HostHandle>, alive: Seq<bool>, y: HostHandle)
    ensures
        keep_live(s, alive).contains(y) <==> (s.contains(y) && is_alive(alive, y)),
    decreases s.len(),
{
    if s.len() > 0 {
        let d = s.drop_last();
        let r = keep_live(d, alive);
        lemma_keep_live_contains(d, alive, y);
        if s.contains(y) && is_alive(alive, y) {
            let i = choose|i: int| 0 <= i < s.len() && s[i] == y;
            if i < s.len() - 1 {
                assert(d[i] == y);
                let k = choose|k: int| 0 <= k < r.len() && r[k] == y;
                if is_alive(alive, s.last()) {
                    assert(r.push(s.last())[k] == y);
                }
            } else {
                assert(r.push(s.last())[r.len() as int] == y);
            }
        }
        if keep_live(s, alive).contains(y) {
            let w = keep_live(s, alive);
            let k = choose|k: int| 0 <= k < w.len() && w[k] == y;
            if is_alive(alive, s.last()) && k == r.len() {
                assert(s[s.len() - 1] == y);
            } else {
                assert(r[k] == y);
                let j = choose|j: int| 0 <= j < d.len() && d[j] == y;
                assert(s[j] == y);
            }
        }
    }
}

pub proof fn lemma_insert_contains(s: Seq<HostHandle>, i: int, x: HostHandle, c: HostHandle)
    requires
        0 <= i <= s.len(),
    ensures
        s.insert(i, x).contains(c) <==> (c == x || s.contains(c)),
{
    let t = s.insert(i, x);
    s.insert_ensures(i, x);
    if t.contains(c) && c != x {
        let k = choose|k: int| 0 <= k < t.len() && t[k] == c;
        if k < i {
            assert(s[k] == c);
        } else {
            assert(k > i);
            assert(s[k - 1] == c);
        }
    }
    if c == x {
        assert(t[i] == c);
    } else if s.contains(c) {
        let k = choose|k: int| 0 <= k < s.len() && s[k] == c;
        if k < i {
            assert(t[k] == c);
        } else {
            assert(t[k + 1] == c);
        }
    }
}

/// A copy of `v` without any occurrence of `x`.
pub fn remove_all(v: &Vec<HostHandle>, x: HostHandle) -> (r: Vec<HostHandle>)
    ensures
        r@ == without(v@, x),
{
    let mut r: Vec<HostHandle> = Vec::new();
    let mut i: usize = 0;
    while i < v.len()
        invariant
            i <= v@.len(),
            r@ == without(v@.subrange(0, i as int), x),
        decreases v@.len() - i,
    {
        assert(v@.subrange(0, i + 1).drop_last() == v@.subrange(0, i as int));
        if v[i] != x {
            r.push(v[i]);
        }
        i = i + 1;
    }
    assert(v@.subrange(0, v@.len() as int) == v@);
    r
}

/// Position of the first occurrence of `m` in `v`, if any.
pub fn index_of(v: &Vec<HostHandle>, m: HostHandle) -> (r: Option<usize>)
    ensures
        r is None <==> !v@.contains(m),
        r is Some ==> r->Some_0 == first_index(v@, m),
{
    proof {
        lemma_first_index(v@, m);
    }
    let mut i: usize = 0;
    while i < v.len()
        invariant
            i <= v@.len(),
            forall|j: int| 0 <= j < i ==> v@[j] != m,
            0 <= first_index(v@, m) <= v@.len(),
            v@.contains(m) ==> first_index(v@, m) < v@.len() && v@[first_index(v@, m)] == m,
            forall|j: int| 0 <= j < first_index(v@, m) ==> v@[j] != m,
        decreases v@.len() - i,
    {
        if v[i] == m {
            return Some(i);
        }
        i = i + 1;
    }
    None
}

/// The state store that the tree is mounted into. Entities are numbered in
/// spawn order and never renumbered; a despawned entity stays dead.
pub struct HostStore {
    pub alive: Vec<bool>,
    pub tags: Vec<NodeId>,
    pub parents: Vec<Option<HostHandle>>,
    pub children: Vec<Vec<HostHandle>>,
    /// Version counter of each resource, indexed by resource id.
    pub versions: Vec<u64>,
}

impl HostStore {
    pub open spec fn len(&self) -> nat {
        self.alive@.len()
    }

    pub open spec fn wf(&self) -> bool {
        &&& self.tags@.len() == self.len()
        &&& self.parents@.len() == self.len()
        &&& self.children@.len() == self.len()
    }

    pub open spec fn live(&self, h: HostHandle) -> bool {
        is_alive(self.alive@, h)
    }

    pub open spec fn kids(&self, h: HostHandle) -> Seq<HostHandle> {
        self.children@[h.0 as int]@
    }

    pub open spec fn parent_of(&self, h: HostHandle) -> Option<HostHandle> {
        self.parents@[h.0 as int]
    }

    pub open spec fn tag_of(&self, h: HostHandle) -> NodeId {
        self.tags@[h.0 as int]
    }

    /// The version of resource `r`, or `None` where the host has no such resource.
    pub open spec fn version(&self, r: usize) -> Option<u64> {
        if r < self.versions@.len() {
            Some(self.versions@[r as int])
        } else {
            None
        }
    }

    /// Everything but the children of `h` is as in `old`.
    pub open spec fn same_but_kids(&self, old: &HostStore, h: HostHandle) -> bool {
        &&& self.alive@ == old.alive@
        &&& self.tags@ == old.tags@
        &&& self.parents@ == old.parents@
        &&& self.versions@ == old.versions@
        &&& self.children@.len() == old.children@.len()
        &&& forall|i: int| 0 <= i < self.children@.len() && i != h.0 ==>
                #[trigger] self.children@[i] == old.children@[i]
    }

    pub fn new() -> (r: HostStore)
        ensures
            r.wf(),
            r.len() == 0,
            r.versions@.len() == 0,
    {
        HostStore {
            alive: Vec::new(),
            tags: Vec::new(),
            parents: Vec::new(),
            children: Vec::new(),
            versions: Vec::new(),
        }
    }

    /// Creates a live entity tagged with `tag`, with no parent and no children.
    pub fn spawn(&mut self, tag: NodeId) -> (h: HostHandle)
        requires
            old(self).wf(),
        ensures
            final(self).wf(),
            h.0 == old(self).len(),
            final(self).alive@ == old(self).alive@.push(true),
            final(self).tags@ == old(self).tags@.push(tag),
            final(self).parents@ == old(self).parents@.push(None),
            final(self).children@.len() == old(self).children@.len() + 1,
            forall|i: int| 0 <= i < old(self).len() ==> #[trigger] final(self).children@[i] == old(self).children@[i],
            final(self).kids(h) == Seq::<HostHandle>::empty(),
            final(self).versions@ == old(self).versions@,
    {
        let h = HostHandle(self.alive.len());
        self.alive.push(true);
        self.tags.push(tag);
        self.parents.push(None);
        self.children.push(Vec::new());
        h
    }

    /// Replaces the children of `h`.
    pub fn set_children(&mut self, h: HostHandle, kids: Vec<HostHandle>)
        requires
            old(self).wf(),
            h.0 < old(self).len(),
        ensures
            final(self).wf(),
            final(self).same_but_kids(old(self), h),
            final(self).kids(h) == kids@,
    {
        self.children.set(h.0, kids);
    }

    /// Sets the parent link of `h`.
    pub fn set_parent_link(&mut self, h: HostHandle, p: Option<HostHandle>)
        requires
            old(self).wf(),
            h.0 < old(self).len(),
        ensures
            final(self).wf(),
            final(self).alive@ == old(self).alive@,
            final(self).tags@ == old(self).tags@,
            final(self).children@ == old(self).children@,
            final(self).versions@ == old(self).versions@,
            final(self).parents@ == old(self).parents@.update(h.0 as int, p),
    {
        self.parents.set(h.0, p);
    }

    /// Marks `h` dead and drops its links.
    pub fn despawn(&mut self, h: HostHandle)
        requires
            old(self).wf(),
            h.0 < old(self).len(),
        ensures
            final(self).wf(),
            final(self).alive@ == old(self).alive@.update(h.0 as int, false),
            final(self).tags@ == old(self).tags@,
            final(self).parents@ == old(self).parents@.update(h.0 as int, None),
            final(self).children@.len() == old(self).children@.len(),
            forall|i: int| 0 <= i < old(self).len() && i != h.0 ==> #[trigger] final(self).children@[i] == old(self).children@[i],
            final(self).kids(h) == Seq::<HostHandle>::empty(),
            final(self).versions@ == old(self).versions@,
    {
        self.alive.set(h.0, false);
        self.parents.set(h.0, None);
        self.children.set(h.0, Vec::new());
    }

    /// A copy of `v` holding only the handles that are live here.
    pub fn live_handles(&self, v: &Vec<HostHandle>) -> (r: Vec<HostHandle>)
        requires
            self.wf(),
        ensures
            r@ == keep_live(v@, self.alive@),
    {
        let mut r: Vec<HostHandle> = Vec::new();
        let mut i: usize = 0;
        while i < v.len()
            invariant
                self.wf(),
                i <= v@.len(),
                r@ == keep_live(v@.subrange(0, i as int), self.alive@),
            decreases v@.len() - i,
        {
            assert(v@.subrange(0, i + 1).drop_last() == v@.subrange(0, i as int));
            let c = v[i];
            if c.0 < self.alive.len() && self.alive[c.0] {
                r.push(c);
            }
            i = i + 1;
        }
        assert(v@.subrange(0, v@.len() as int) == v@);
        r
    }

    /// Adds a resource at version 0 and returns its id.
    pub fn add_resource(&mut self) -> (r: usize)
        requires
            old(self).versions@.len() < usize::MAX,
        ensures
            r == old(self).versions@.len(),
            final(self).versions@ == old(self).versions@.push(0),
            final(self).alive@ == old(self).alive@,
            final(self).tags@ == old(self).tags@,
            final(self).parents@ == old(self).parents@,
            final(self).children@ == old(self).children@,
    {
        self.versions.push(0);
        self.versions.len() - 1
    }

    /// Records a change of resource `r`: its version goes up by one.
    pub fn touch_resource(&mut self, r: usize)
        requires
            r < old(self).versions@.len(),
            old(self).versions@[r as int] < u64::MAX,
        ensures
            final(self).versions@ == old(self).versions@.update(r as int, (old(self).versions@[r as int] + 1) as u64),
            final(self).alive@ == old(self).alive@,
            final(self).tags@ == old(self).tags@,
            final(self).parents@ == old(self).parents@,
            final(self).children@ == old(self).children@,
    {
        let v = self.versions[r];
        self.versions.set(r, v + 1);
    }

    /// The version of resource `r`, if the host has it.
    pub fn resource_version(&self, r: usize) -> (v: Option<u64>)
        ensures
            v == self.version(r),
    {
        if r < self.versions.len() {
            Some(self.versions[r])
        } else {
            None
        }
    }
}

} // verus!
