use kernel_core::durability::DurabilityError;
use kernel_core::streaming::{begin_step, finalize_step, StreamingJobState};

fn job() -> StreamingJobState {
    StreamingJobState {
        generation: 4,
        cut_revision: 9,
        payload_len: 100,
        chunk_size: 10,
        next_chunk: 10,
        checkpoint_crc32c: Some(77),
        metadata_crc32c: 5,
        capsule_crc32c: 6,
        wal_first_lsn: 20,
        mirrored_lsn: 30,
        durable_shadow_lsn: 30,
        failed: false,
    }
}

#[test]
fn begin_step_checks_in_order() {
    assert_eq!(begin_step(true, true, 0, 1, 2, 0), Err(DurabilityError::Poisoned));
    assert!(matches!(begin_step(false, true, 0, 1, 2, 0), Err(DurabilityError::Protocol { .. })));
    assert!(matches!(begin_step(false, false, 0, 2, 2, 0), Err(DurabilityError::Protocol { .. })));
    assert!(matches!(begin_step(false, false, 4, 1, 2, 0), Err(DurabilityError::Protocol { .. })));
    assert_eq!(begin_step(false, false, 4, 2, 2, 536870913), Err(DurabilityError::PayloadTooLarge));
    assert_eq!(begin_step(false, false, 4, 2, 2, 536870912), Ok(()));
}

#[test]
fn finalize_step_publishes_a_caught_up_job() {
    let manifest = finalize_step(false, Some(job()), 30, 12, 12, 31, 9, 5, 6).unwrap();
    assert_eq!(manifest.generation, 4);
    assert_eq!(manifest.base_revision, 9);
    assert_eq!(manifest.published_head, 12);
    assert_eq!(manifest.wal_first_lsn, 20);
    assert_eq!(manifest.published_tail_lsn, 30);
    assert_eq!(manifest.checkpoint_crc32c, 77);
}

#[test]
fn finalize_step_refuses_each_failure() {
    assert_eq!(finalize_step(true, Some(job()), 30, 12, 12, 31, 9, 5, 6).unwrap_err(), DurabilityError::Poisoned);
    assert!(matches!(finalize_step(false, None, 30, 12, 12, 31, 9, 5, 6), Err(DurabilityError::Protocol { .. })));
    let mut incomplete = job();
    incomplete.checkpoint_crc32c = None;
    assert!(matches!(finalize_step(false, Some(incomplete), 30, 12, 12, 31, 9, 5, 6), Err(DurabilityError::Protocol { .. })));
    assert!(matches!(finalize_step(false, Some(job()), 31, 12, 12, 31, 9, 5, 6), Err(DurabilityError::Protocol { .. })));
    assert!(matches!(finalize_step(false, Some(job()), 30, 12, 11, 31, 9, 5, 6), Err(DurabilityError::Protocol { .. })));
    assert!(matches!(finalize_step(false, Some(job()), 30, 12, 12, 30, 9, 5, 6), Err(DurabilityError::Protocol { .. })));
    assert!(matches!(finalize_step(false, Some(job()), 30, 12, 12, 31, 8, 5, 6), Err(DurabilityError::Protocol { .. })));
    assert!(matches!(finalize_step(false, Some(job()), 30, 12, 12, 31, 9, 4, 6), Err(DurabilityError::Corruption { .. })));
    assert!(matches!(finalize_step(false, Some(job()), 30, 12, 12, 31, 9, 5, 7), Err(DurabilityError::Corruption { .. })));
}
