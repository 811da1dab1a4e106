use kernel_core::durability::StoreFaultPoint;
use kernel_core::publication::{
    production_boundary, CrashImage, DurableEntry, ModelBoundary, Prerequisite, PublicationModel,
};

fn advance_publication_and_check(model: &mut PublicationModel, generation: u8) {
    model.begin(generation);
    assert!(model.is_crash_safe());
    for prerequisite in [
        Prerequisite::Checkpoint,
        Prerequisite::Wal,
        Prerequisite::Metadata,
    ] {
        model.sync_file(prerequisite);
        assert!(model.is_crash_safe());
    }
    model.sync_prerequisite_directory();
    assert!(model.is_crash_safe());
    model.sync_pending_manifest();
    assert!(model.is_crash_safe());
    model.rename_manifest();
    assert!(model.is_crash_safe());
    model.sync_manifest_directory();
    assert!(model.is_crash_safe());
    assert_eq!(
        model.crash_images(),
        vec![CrashImage::new(
            model.durable_components().clone(),
            model.durable_manifests().clone(),
        )]
    );
    model.finish_publication();
}

#[test]
fn publication_protocol_preserves_unique_recoverable_authority_at_every_crash_cut() {
    let mut model = PublicationModel::with_published_generation(1);
    advance_publication_and_check(&mut model, 2);
    assert_eq!(model.crash_images()[0].authority(), Some(2));
    advance_publication_and_check(&mut model, 3);
    assert_eq!(model.crash_images()[0].authority(), Some(3));
}

#[test]
fn pending_manifest_is_never_authority_and_rename_uncertainty_is_closed_by_prerequisite_sync() {
    let mut model = PublicationModel::with_published_generation(1);
    model.begin(2);
    for prerequisite in [
        Prerequisite::Checkpoint,
        Prerequisite::Wal,
        Prerequisite::Metadata,
    ] {
        model.sync_file(prerequisite);
    }
    model.sync_prerequisite_directory();
    model.sync_pending_manifest();
    assert!(model
        .crash_images()
        .iter()
        .all(|image| image.authority() == Some(1)));

    model.rename_manifest();
    let mut authorities: Vec<u8> = model
        .crash_images()
        .into_iter()
        .map(|image| {
            assert!(image.authority_is_recoverable());
            image.authority().expect("authority exists")
        })
        .collect();
    authorities.sort();
    authorities.dedup();
    assert_eq!(authorities, vec![1, 2]);
}

#[test]
fn gc_crash_projection_cannot_remove_the_published_authority() {
    let mut model = PublicationModel::with_published_generation(1);
    advance_publication_and_check(&mut model, 2);
    model.attempt_gc_remove(1, DurableEntry::Components);
    assert!(model.is_crash_safe());
    model.attempt_gc_remove(1, DurableEntry::Manifest);
    assert!(model.is_crash_safe());
    assert!(model
        .crash_images()
        .iter()
        .all(|image| image.authority() == Some(2)));
    model.sync_gc_directory();
    assert!(model.is_crash_safe());
    assert_eq!(model.durable_manifests().items(), &[2u8][..]);
    assert_eq!(model.durable_components().items(), &[2u8][..]);
}

#[test]
fn production_fault_points_cover_every_model_publication_and_gc_boundary() {
    let mapped = [
        (
            StoreFaultPoint::AfterCheckpointSync,
            ModelBoundary::CheckpointFileSynced,
        ),
        (StoreFaultPoint::AfterWalSync, ModelBoundary::WalFileSynced),
        (
            StoreFaultPoint::AfterMetadataSync,
            ModelBoundary::MetadataFileSynced,
        ),
        (
            StoreFaultPoint::AfterPrerequisiteDirectorySync,
            ModelBoundary::PrerequisiteDirectorySynced,
        ),
        (
            StoreFaultPoint::AfterPendingManifestSync,
            ModelBoundary::PendingManifestFileSynced,
        ),
        (
            StoreFaultPoint::AfterManifestRename,
            ModelBoundary::ManifestRenameUncertain,
        ),
        (
            StoreFaultPoint::AfterManifestDirectorySync,
            ModelBoundary::ManifestDirectorySynced,
        ),
        (
            StoreFaultPoint::BeforeCompactionRemove,
            ModelBoundary::BeforeGcRemove,
        ),
        (
            StoreFaultPoint::AfterCompactionRemove,
            ModelBoundary::AfterGcRemoveUncertain,
        ),
        (
            StoreFaultPoint::AfterCompactionDirectorySync,
            ModelBoundary::GcDirectorySynced,
        ),
    ];
    for (point, expected) in mapped {
        assert_eq!(production_boundary(point), expected);
    }
}

#[test]
fn crash_images_during_rename_hold_both_namespaces_in_order() {
    let mut model = PublicationModel::with_published_generation(1);
    model.begin(2);
    model.sync_file(Prerequisite::Checkpoint);
    model.sync_file(Prerequisite::Wal);
    model.sync_file(Prerequisite::Metadata);
    model.sync_prerequisite_directory();
    model.sync_pending_manifest();
    model.rename_manifest();
    let images = model.crash_images();
    assert_eq!(images.len(), 2);
    assert_eq!(images[0].manifests().items(), &[1u8][..]);
    assert_eq!(images[1].manifests().items(), &[1u8, 2][..]);
    assert_eq!(images[0].components().items(), &[1u8, 2][..]);
    assert_eq!(images[1].components().items(), &[1u8, 2][..]);
}

#[test]
fn crash_images_cover_every_subset_of_pending_removals() {
    let mut model = PublicationModel::with_published_generation(1);
    advance_publication_and_check(&mut model, 2);
    model.attempt_gc_remove(1, DurableEntry::Components);
    model.attempt_gc_remove(1, DurableEntry::Manifest);
    let images = model.crash_images();
    // Four subsets of the two removals, ordered by manifests then components.
    assert_eq!(images.len(), 4);
    assert_eq!(images[0].manifests().items(), &[1u8, 2][..]);
    assert_eq!(images[0].components().items(), &[1u8, 2][..]);
    assert_eq!(images[1].manifests().items(), &[1u8, 2][..]);
    assert_eq!(images[1].components().items(), &[2u8][..]);
    assert_eq!(images[2].manifests().items(), &[2u8][..]);
    assert_eq!(images[2].components().items(), &[1u8, 2][..]);
    assert_eq!(images[3].manifests().items(), &[2u8][..]);
    assert_eq!(images[3].components().items(), &[2u8][..]);
}

#[test]
fn removing_the_renamed_candidate_is_not_crash_safe() {
    // Removal of a generation newer than the authority breaks the post-rename image.
    let mut model = PublicationModel::with_published_generation(1);
    model.begin(2);
    model.sync_file(Prerequisite::Checkpoint);
    model.sync_file(Prerequisite::Wal);
    model.sync_file(Prerequisite::Metadata);
    model.sync_prerequisite_directory();
    model.sync_pending_manifest();
    model.rename_manifest();
    model.attempt_gc_remove(2, DurableEntry::Components);
    assert!(!model.is_crash_safe());
}

#[test]
fn empty_manifest_image_is_recoverable_without_authority() {
    let image = CrashImage::new(
        PublicationModel::with_published_generation(4).durable_components().clone(),
        kernel_core::publication::GenerationSet::new(),
    );
    assert_eq!(image.authority(), None);
    assert!(image.authority_is_recoverable());
}
