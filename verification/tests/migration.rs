use kernel_core::lens::Value;
use kernel_core::migration::{
    ArchiveProofId, ComplementCapsule, ComplementRetention, LensSpecId, MigrationChainError,
    MigrationComplementChain, SemanticManifestId,
};

fn capsule(source: u64, target: u64, payload: i64) -> ComplementCapsule {
    ComplementCapsule {
        source_schema: source,
        target_schema: target,
        lens_spec: LensSpecId(300),
        semantic_pins: SemanticManifestId(301),
        encoding_version: 1,
        complement: Value::I64(payload),
    }
}

#[test]
fn migration_chain_requires_schema_continuity() {
    let mut chain = MigrationComplementChain::default();
    chain.push(capsule(1, 2, 10), ComplementRetention::Forever).unwrap();
    assert_eq!(
        chain.push(capsule(3, 4, 20), ComplementRetention::Forever),
        Err(MigrationChainError::SchemaDiscontinuity)
    );
    chain.push(capsule(2, 3, 30), ComplementRetention::UntilRevision(9)).unwrap();
    assert_eq!(chain.steps().len(), 2);
}

#[test]
fn forget_and_external_archive_are_explicit_nonlocal_retention() {
    assert!(ComplementRetention::Forget.is_explicit_forget());
    assert!(!ComplementRetention::Forget.requires_local_storage());
    assert!(!ComplementRetention::ExternalArchive(ArchiveProofId(1)).requires_local_storage());
    assert!(ComplementRetention::Forever.requires_local_storage());
}

#[test]
fn refused_step_leaves_the_chain_unchanged() {
    let mut chain = MigrationComplementChain::default();
    assert!(chain.steps().is_empty());
    chain.push(capsule(5, 6, 1), ComplementRetention::UntilEpoch(4)).unwrap();
    assert_eq!(chain.push(capsule(7, 8, 2), ComplementRetention::Forget), Err(MigrationChainError::SchemaDiscontinuity));
    assert_eq!(chain.steps().len(), 1);
    assert_eq!(chain.steps()[0].0, capsule(5, 6, 1));
    assert_eq!(chain.steps()[0].1, ComplementRetention::UntilEpoch(4));
    assert!(ComplementRetention::UntilEpoch(4).requires_local_storage());
    assert!(!ComplementRetention::UntilEpoch(4).is_explicit_forget());
}
