use std::collections::BTreeSet;
use std::mem::size_of;

use kernel_core::grounded::{
    solve, solve_bipolar_support, BipolarSupportProgram, BipolarSupportRequirement,
    GroundedAtomId, GroundedProgram, GroundedRule,
};
use kernel_core::identity::{DenseEntityIds, EntityId, LocalEntityId};

fn atom(index: usize) -> GroundedAtomId {
    GroundedAtomId::new(index)
}

#[test]
fn program_estimate_counts_seeds_rules_and_bodies() {
    let program = GroundedProgram::new(
        3,
        vec![atom(0)],
        vec![
            GroundedRule::new(vec![atom(0)], atom(1)),
            GroundedRule::new(vec![atom(0), atom(1)], atom(2)),
        ],
    )
    .unwrap();
    let floor = size_of::<GroundedProgram>()
        + size_of::<GroundedAtomId>()
        + 2 * size_of::<GroundedRule>()
        + 3 * size_of::<GroundedAtomId>();
    assert!(program.estimated_retained_bytes() >= floor);
    let (certificate, _) = solve(&program);
    let certificate_floor = 3 * size_of::<bool>()
        + 3 * size_of::<Option<usize>>()
        + 3 * size_of::<Option<kernel_core::grounded::GroundedWitness>>();
    assert!(certificate.estimated_retained_bytes() >= certificate_floor);
}

#[test]
fn support_estimate_includes_its_death_certificate() {
    let program = BipolarSupportProgram::new(
        2,
        vec![atom(0)],
        vec![BipolarSupportRequirement::new(atom(1), vec![atom(0)])],
    )
    .unwrap();
    assert!(
        program.estimated_retained_bytes()
            >= size_of::<BipolarSupportProgram>() + 2 * size_of::<GroundedAtomId>()
    );
    let (certificate, _) = solve_bipolar_support(&program).unwrap();
    assert!(
        certificate.estimated_retained_bytes()
            >= certificate.death_certificate().estimated_retained_bytes() + 2 * size_of::<bool>()
    );
}

#[test]
fn dense_ids_estimate_counts_ids_and_lookup_entries() {
    let ids: BTreeSet<EntityId> = BTreeSet::from([4, 8, 15]);
    let dense = DenseEntityIds::compile(&ids).unwrap();
    assert!(
        dense.estimated_retained_bytes()
            >= size_of::<DenseEntityIds>()
                + 3 * size_of::<EntityId>()
                + 3 * size_of::<(EntityId, LocalEntityId)>()
    );
}
