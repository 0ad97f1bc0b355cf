use reactive_host::{AccessError, HostAccessCell, HostStore, NodeId, RegistryError, TreeMutator};

fn setup() -> (TreeMutator, HostAccessCell<HostStore>) {
    let tree = TreeMutator::new();
    let mut cell = HostAccessCell::new();
    assert!(cell.enter(HostStore::new()).is_ok());
    (tree, cell)
}

fn make(tree: &mut TreeMutator, cell: &mut HostAccessCell<HostStore>) -> NodeId {
    tree.create_node(cell).unwrap()
}

#[test]
fn ids_start_at_one_and_increase() {
    let (mut tree, mut cell) = setup();
    let a = make(&mut tree, &mut cell);
    let b = make(&mut tree, &mut cell);
    let c = make(&mut tree, &mut cell);
    assert_eq!(a, NodeId(1));
    assert_eq!(b, NodeId(2));
    assert_eq!(c, NodeId(3));
    assert_eq!(tree.parent(a), None);
}

#[test]
fn attach_appends_in_call_order() {
    let (mut tree, mut cell) = setup();
    let p = make(&mut tree, &mut cell);
    let c = make(&mut tree, &mut cell);
    let b = make(&mut tree, &mut cell);
    let a = make(&mut tree, &mut cell);
    tree.attach(&mut cell, a, p).unwrap();
    tree.attach(&mut cell, b, p).unwrap();
    tree.attach(&mut cell, c, p).unwrap();
    assert_eq!(tree.children(&mut cell, p).unwrap(), vec![a, b, c]);
    assert_eq!(tree.parent(b), Some(p));
    assert_eq!(tree.first_child(&mut cell, p).unwrap(), Some(a));
    assert_eq!(tree.next_sibling(&mut cell, a).unwrap(), Some(b));
    assert_eq!(tree.next_sibling(&mut cell, c).unwrap(), None);
    assert_eq!(tree.next_sibling(&mut cell, p).unwrap(), None);
}

#[test]
fn attach_before_splices_in_front_of_marker() {
    let (mut tree, mut cell) = setup();
    let p = make(&mut tree, &mut cell);
    let a = make(&mut tree, &mut cell);
    let b = make(&mut tree, &mut cell);
    let c = make(&mut tree, &mut cell);
    let d = make(&mut tree, &mut cell);
    tree.attach(&mut cell, a, p).unwrap();
    tree.attach(&mut cell, b, p).unwrap();
    tree.attach(&mut cell, c, p).unwrap();
    assert_eq!(tree.attach_before(&mut cell, d, p, b), Ok(true));
    assert_eq!(tree.children(&mut cell, p).unwrap(), vec![a, d, b, c]);
    assert_eq!(tree.parent(d), Some(p));
}

#[test]
fn attach_before_moves_within_the_same_parent() {
    let (mut tree, mut cell) = setup();
    let p = make(&mut tree, &mut cell);
    let a = make(&mut tree, &mut cell);
    let b = make(&mut tree, &mut cell);
    let c = make(&mut tree, &mut cell);
    tree.attach(&mut cell, a, p).unwrap();
    tree.attach(&mut cell, b, p).unwrap();
    tree.attach(&mut cell, c, p).unwrap();
    assert_eq!(tree.attach_before(&mut cell, c, p, a), Ok(true));
    assert_eq!(tree.children(&mut cell, p).unwrap(), vec![c, a, b]);
}

#[test]
fn attach_before_with_absent_marker_changes_nothing() {
    let (mut tree, mut cell) = setup();
    let p = make(&mut tree, &mut cell);
    let q = make(&mut tree, &mut cell);
    let a = make(&mut tree, &mut cell);
    let m = make(&mut tree, &mut cell);
    let n = make(&mut tree, &mut cell);
    tree.attach(&mut cell, a, p).unwrap();
    tree.attach(&mut cell, m, q).unwrap();
    tree.attach(&mut cell, n, q).unwrap();
    let before_p = tree.children(&mut cell, p).unwrap();
    let before_q = tree.children(&mut cell, q).unwrap();
    let host = cell.exit().unwrap();
    let snapshot = (host.alive.clone(), host.tags.clone(), host.parents.clone(), host.children.clone());
    let slots = tree.registry.slots.clone();
    assert!(cell.enter(host).is_ok());
    assert_eq!(tree.attach_before(&mut cell, n, p, m), Ok(false));
    assert_eq!(tree.children(&mut cell, p).unwrap(), before_p);
    assert_eq!(tree.children(&mut cell, q).unwrap(), before_q);
    assert_eq!(tree.parent(n), Some(q));
    assert_eq!(tree.registry.get(n).unwrap().parent, Some(q));
    let host = cell.exit().unwrap();
    assert_eq!((host.alive, host.tags, host.parents, host.children), snapshot);
    assert_eq!(tree.registry.slots, slots);
}

#[test]
fn parent_follows_the_latest_attach() {
    let (mut tree, mut cell) = setup();
    let p = make(&mut tree, &mut cell);
    let q = make(&mut tree, &mut cell);
    let a = make(&mut tree, &mut cell);
    assert_eq!(tree.parent(a), None);
    tree.attach(&mut cell, a, p).unwrap();
    assert_eq!(tree.parent(a), Some(p));
    tree.attach(&mut cell, a, q).unwrap();
    assert_eq!(tree.parent(a), Some(q));
    assert_eq!(tree.children(&mut cell, p).unwrap(), Vec::<NodeId>::new());
    assert_eq!(tree.children(&mut cell, q).unwrap(), vec![a]);
    tree.detach(&mut cell, a).unwrap();
    assert_eq!(tree.parent(a), None);
    assert_eq!(tree.children(&mut cell, q).unwrap(), Vec::<NodeId>::new());
    let rec = tree.registry.get(a).unwrap();
    assert_eq!(rec.parent, None);
    assert_eq!(rec.parent_handle, None);
}

#[test]
fn detach_keeps_the_node_alive() {
    let (mut tree, mut cell) = setup();
    let p = make(&mut tree, &mut cell);
    let a = make(&mut tree, &mut cell);
    tree.attach(&mut cell, a, p).unwrap();
    tree.detach(&mut cell, a).unwrap();
    let rec = tree.registry.get(a).unwrap();
    let host = cell.exit().unwrap();
    assert!(host.alive[rec.handle.0]);
    assert_eq!(host.parents[rec.handle.0], None);
}

#[test]
fn destroy_removes_the_whole_subtree() {
    let (mut tree, mut cell) = setup();
    let root = make(&mut tree, &mut cell);
    let p = make(&mut tree, &mut cell);
    let a = make(&mut tree, &mut cell);
    let x = make(&mut tree, &mut cell);
    let sibling = make(&mut tree, &mut cell);
    tree.attach(&mut cell, p, root).unwrap();
    tree.attach(&mut cell, sibling, root).unwrap();
    tree.attach(&mut cell, a, p).unwrap();
    tree.attach(&mut cell, x, a).unwrap();
    let handles: Vec<usize> = [p, a, x].iter().map(|n| tree.registry.get(*n).unwrap().handle.0).collect();
    tree.destroy(&mut cell, p).unwrap();
    assert_eq!(tree.registry.get(p), Err(RegistryError::Destroyed));
    assert_eq!(tree.registry.get(a), Err(RegistryError::Destroyed));
    assert_eq!(tree.registry.get(x), Err(RegistryError::Destroyed));
    assert_eq!(tree.children(&mut cell, root).unwrap(), vec![sibling]);
    assert_eq!(tree.parent(sibling), Some(root));
    let host = cell.exit().unwrap();
    for h in handles {
        assert!(!host.alive[h]);
    }
}

#[test]
fn destroyed_ids_are_not_reused() {
    let (mut tree, mut cell) = setup();
    let a = make(&mut tree, &mut cell);
    tree.destroy(&mut cell, a).unwrap();
    let b = make(&mut tree, &mut cell);
    assert_eq!(b, NodeId(2));
    assert_eq!(tree.registry.get(a), Err(RegistryError::Destroyed));
    assert!(tree.registry.get(b).is_ok());
}

#[test]
fn round_trip_leaves_no_reference() {
    let (mut tree, mut cell) = setup();
    let root = make(&mut tree, &mut cell);
    let n = make(&mut tree, &mut cell);
    tree.attach(&mut cell, n, root).unwrap();
    tree.detach(&mut cell, n).unwrap();
    let hn = tree.registry.get(n).unwrap().handle;
    tree.destroy(&mut cell, n).unwrap();
    assert_eq!(tree.registry.get(n), Err(RegistryError::Destroyed));
    assert_eq!(tree.children(&mut cell, root).unwrap(), Vec::<NodeId>::new());
    assert_eq!(tree.parent(root), None);
    let host = cell.exit().unwrap();
    assert!(!host.alive[hn.0]);
    assert_eq!(host.parents[hn.0], None);
    for kids in host.children.iter() {
        assert!(!kids.contains(&hn));
    }
}

#[test]
fn edits_without_access_fail() {
    let mut tree = TreeMutator::new();
    let mut cell: HostAccessCell<HostStore> = HostAccessCell::new();
    assert_eq!(tree.create_node(&mut cell), Err(AccessError::NotAvailable));
    assert!(cell.enter(HostStore::new()).is_ok());
    let a = tree.create_node(&mut cell).unwrap();
    let b = tree.create_node(&mut cell).unwrap();
    let host = cell.exit().unwrap();
    assert_eq!(tree.attach(&mut cell, a, b), Err(AccessError::NotAvailable));
    assert_eq!(tree.attach_before(&mut cell, a, b, a), Err(AccessError::NotAvailable));
    assert_eq!(tree.detach(&mut cell, a), Err(AccessError::NotAvailable));
    assert_eq!(tree.destroy(&mut cell, a), Err(AccessError::NotAvailable));
    assert_eq!(tree.children(&mut cell, a), Err(AccessError::NotAvailable));
    assert_eq!(tree.first_child(&mut cell, a), Err(AccessError::NotAvailable));
    assert_eq!(tree.next_sibling(&mut cell, a), Err(AccessError::NotAvailable));
    assert_eq!(host.alive.len(), 2);
    assert!(tree.registry.get(a).is_ok());
}
