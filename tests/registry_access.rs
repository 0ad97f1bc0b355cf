use reactive_host::{AccessError, HostAccessCell, HostStore, NodeId, NodeRegistry, RegistryError};

#[test]
fn lookup_of_unknown_ids_fails() {
    let mut reg = NodeRegistry::new();
    let mut host = HostStore::new();
    assert_eq!(reg.get(NodeId(0)), Err(RegistryError::NotFound));
    assert_eq!(reg.get(NodeId(1)), Err(RegistryError::NotFound));
    let a = reg.spawn_node(&mut host);
    assert_eq!(a, NodeId(1));
    let rec = reg.get(a).unwrap();
    assert_eq!(rec.id, a);
    assert_eq!(rec.parent, None);
    assert_eq!(host.tags[rec.handle.0], a);
    assert_eq!(reg.get(NodeId(2)), Err(RegistryError::NotFound));
}

#[test]
fn reserved_id_is_not_found_until_stored() {
    let mut reg = NodeRegistry::new();
    let id = reg.allocate_id();
    assert_eq!(id, NodeId(1));
    assert_eq!(reg.get(id), Err(RegistryError::NotFound));
    let next = reg.allocate_id();
    assert_eq!(next, NodeId(2));
}

#[test]
fn get_many_returns_records_in_order() {
    let mut reg = NodeRegistry::new();
    let mut host = HostStore::new();
    let a = reg.spawn_node(&mut host);
    let b = reg.spawn_node(&mut host);
    let recs = reg.get_many(&vec![b, a]).unwrap();
    assert_eq!(recs.len(), 2);
    assert_eq!(recs[0].id, b);
    assert_eq!(recs[1].id, a);
    assert_eq!(reg.get_many(&vec![a, NodeId(9)]), Err(RegistryError::NotFound));
}

#[test]
fn access_outside_bracket_fails() {
    let mut cell: HostAccessCell<u32> = HostAccessCell::new();
    assert!(!cell.granted());
    assert_eq!(cell.with_access(), Err(AccessError::NotAvailable));
    assert_eq!(cell.exit(), Err(AccessError::NotAvailable));
}

#[test]
fn access_inside_bracket_reaches_the_value() {
    let mut cell: HostAccessCell<u32> = HostAccessCell::new();
    assert_eq!(cell.enter(5), Ok(()));
    assert!(cell.granted());
    *cell.with_access().unwrap() = 7;
    assert_eq!(cell.exit(), Ok(7));
    assert_eq!(cell.with_access(), Err(AccessError::NotAvailable));
}

#[test]
fn second_enter_is_rejected() {
    let mut cell: HostAccessCell<u32> = HostAccessCell::new();
    assert_eq!(cell.enter(1), Ok(()));
    assert_eq!(cell.enter(2), Err((AccessError::AlreadyEntered, 2)));
    assert_eq!(*cell.with_access().unwrap(), 1);
    assert_eq!(cell.exit(), Ok(1));
}

#[test]
fn resource_versions_count_changes() {
    let mut host = HostStore::new();
    let r = host.add_resource();
    assert_eq!(host.resource_version(r), Some(0));
    host.touch_resource(r);
    host.touch_resource(r);
    assert_eq!(host.resource_version(r), Some(2));
    assert_eq!(host.resource_version(r + 1), None);
}
