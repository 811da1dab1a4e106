use std::collections::{BTreeMap, BTreeSet};

use kernel_core::identity::{
    DenseEntityIds, DenseEntitySet, EntityId, IdentityTransport,
    IdentityTransportError,
};

fn id(raw: u128) -> EntityId {
    raw
}

#[test]
fn dense_entity_set_is_a_compact_exact_local_id_extent() {
    let entities = BTreeSet::from([id(10), id(20), id(30), id(40)]);
    let dense = DenseEntityIds::compile(&entities).unwrap();
    let mut extent = DenseEntitySet::with_capacity(dense.len());
    extent.insert(dense.local(id(10)).unwrap());
    extent.insert(dense.local(id(30)).unwrap());
    assert!(extent.contains(dense.local(id(10)).unwrap()));
    assert!(!extent.contains(dense.local(id(20)).unwrap()));
    assert!(extent.contains(dense.local(id(30)).unwrap()));
    assert_eq!(extent.len(), 2);
}

#[test]
fn dense_entity_ids_round_trip_external_identity_without_reusing_semantics() {
    let entities = BTreeSet::from([id(30), id(10), id(20)]);
    let dense = DenseEntityIds::compile(&entities).unwrap();
    assert_eq!(dense.len(), 3);
    assert_eq!(dense.local(id(10)).unwrap().index(), 0);
    assert_eq!(dense.local(id(20)).unwrap().index(), 1);
    assert_eq!(dense.external(dense.local(id(30)).unwrap()), Some(id(30)));
    assert_eq!(dense.local(id(99)), None);
}

#[test]
fn bijective_transports_form_a_groupoid_under_composition() {
    let a = BTreeSet::from([id(1), id(2)]);
    let b = BTreeSet::from([id(11), id(12)]);
    let c = BTreeSet::from([id(21), id(22)]);
    let ab = IdentityTransport::new(&a, &b, BTreeMap::from([(id(1), id(11)), (id(2), id(12))]))
        .unwrap();
    let bc = IdentityTransport::new(&b, &c, BTreeMap::from([(id(11), id(22)), (id(12), id(21))]))
        .unwrap();
    let ac = ab.then(&bc).unwrap();

    assert_eq!(ac.transport(id(1)), Some(id(22)));
    assert_eq!(ac.inverse().transport(id(22)), Some(id(1)));
}

#[test]
fn split_is_not_identity_transport() {
    let source = BTreeSet::from([id(1)]);
    let target = BTreeSet::from([id(10), id(11)]);
    let attempt = IdentityTransport::new(&source, &target, BTreeMap::from([(id(1), id(10))]));
    assert_eq!(attempt, Err(IdentityTransportError::TargetCoverageMismatch));
}

#[test]
fn merge_is_not_identity_transport() {
    let source = BTreeSet::from([id(1), id(2)]);
    let target = BTreeSet::from([id(10)]);
    let attempt = IdentityTransport::new(
        &source,
        &target,
        BTreeMap::from([(id(1), id(10)), (id(2), id(10))]),
    );
    assert_eq!(attempt, Err(IdentityTransportError::NotInjective));
}

#[test]
fn uncovered_source_is_not_identity_transport() {
    let source = BTreeSet::from([id(1), id(2)]);
    let target = BTreeSet::from([id(10)]);
    let attempt = IdentityTransport::new(&source, &target, BTreeMap::from([(id(1), id(10))]));
    assert_eq!(attempt, Err(IdentityTransportError::SourceCoverageMismatch));
}

#[test]
fn composition_requires_matching_middle_ids() {
    let a = BTreeSet::from([id(1)]);
    let b = BTreeSet::from([id(2)]);
    let c = BTreeSet::from([id(3)]);
    let ab = IdentityTransport::new(&a, &b, BTreeMap::from([(id(1), id(2))])).unwrap();
    let ca = IdentityTransport::new(&c, &a, BTreeMap::from([(id(3), id(1))])).unwrap();
    assert_eq!(ab.then(&ca), Err(IdentityTransportError::CompositionDomainMismatch));
}

#[test]
fn transport_then_inverse_is_identity_on_sources() {
    let a = BTreeSet::from([id(5), id(6), id(7)]);
    let b = BTreeSet::from([id(50), id(60), id(70)]);
    let ab = IdentityTransport::new(
        &a,
        &b,
        BTreeMap::from([(id(5), id(70)), (id(6), id(50)), (id(7), id(60))]),
    )
    .unwrap();
    let round_trip = ab.then(&ab.inverse()).unwrap();
    assert_eq!(round_trip, IdentityTransport::identity(&a));
    assert_eq!(round_trip.source_ids(), a);
    assert_eq!(ab.target_ids(), b);
    assert_eq!(ab.transport(id(8)), None);
}

#[test]
fn dense_set_remove_iter_and_emptiness() {
    let entities = BTreeSet::from([id(3), id(100), id(7)]);
    let dense = DenseEntityIds::compile(&entities).unwrap();
    let mut set = DenseEntitySet::with_capacity(0);
    assert!(set.is_empty());
    let first = dense.local(id(3)).unwrap();
    let last = dense.local(id(100)).unwrap();
    set.insert(last);
    set.insert(first);
    assert_eq!(set.iter(), vec![first, last]);
    assert!(set.remove(last));
    assert!(!set.remove(last));
    assert_eq!(set.len(), 1);
    assert!(set.remove(first));
    assert!(set.is_empty());
}

#[test]
fn dense_ids_at_positions_and_empty_compile() {
    let dense = DenseEntityIds::compile(&BTreeSet::new()).unwrap();
    assert!(dense.is_empty());
    assert_eq!(dense.external_at(0), None);
    let dense = DenseEntityIds::compile(&BTreeSet::from([id(9), id(4)])).unwrap();
    assert_eq!(dense.external_at(0), Some(id(4)));
    assert_eq!(dense.external_at(1), Some(id(9)));
    assert_eq!(dense.external_at(2), None);
}
