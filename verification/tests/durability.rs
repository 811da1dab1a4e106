use kernel_core::durability::{
    DurabilityError, DurableBatchEnqueueOutcome, DurableCommitBatchPolicy, DurableCommitBatcher,
    DurableFormatComponent, DurableFormatRegistry, DurableRevisionDescriptor, PreparedCutCapsule,
    PreparedCutEntry,
};

fn descriptor(source: u64, target: u64, transaction: u64) -> DurableRevisionDescriptor {
    DurableRevisionDescriptor {
        source_revision: source,
        target_revision: target,
        transaction_id: transaction,
    }
}

#[test]
fn zero_batch_size_is_refused() {
    assert_eq!(
        DurableCommitBatchPolicy::new(0),
        Err(DurabilityError::Protocol {
            offset: 0,
            reason: "durability batch size must be nonzero",
        })
    );
    assert_eq!(DurableCommitBatchPolicy::new(3).unwrap().max_descriptors(), 3);
}

#[test]
fn batcher_queues_until_the_policy_requires_a_flush() {
    let mut batcher = DurableCommitBatcher::new(DurableCommitBatchPolicy::new(2).unwrap());
    assert!(batcher.is_empty());
    assert_eq!(
        batcher.enqueue(40, descriptor(40, 41, 2)).unwrap(),
        DurableBatchEnqueueOutcome::Queued
    );
    assert_eq!(
        batcher.enqueue(40, descriptor(41, 42, 3)).unwrap(),
        DurableBatchEnqueueOutcome::FlushRequired
    );
    assert_eq!(batcher.pending_len(), 2);
    assert_eq!(batcher.pending(), &[descriptor(40, 41, 2), descriptor(41, 42, 3)][..]);
    batcher.clear_committed();
    assert!(batcher.is_empty());
}

#[test]
fn batcher_rejects_a_broken_chain_and_keeps_its_batch() {
    let mut batcher = DurableCommitBatcher::new(DurableCommitBatchPolicy::new(4).unwrap());
    assert_eq!(
        batcher.enqueue(40, descriptor(39, 41, 2)),
        Err(DurabilityError::Protocol {
            offset: 0,
            reason: "async durability batch is not a contiguous revision chain",
        })
    );
    assert!(batcher.is_empty());
    batcher.enqueue(40, descriptor(40, 41, 2)).unwrap();
    assert_eq!(
        batcher.enqueue(40, descriptor(40, 42, 3)),
        Err(DurabilityError::Protocol {
            offset: 0,
            reason: "async durability batch is not a contiguous revision chain",
        })
    );
    assert_eq!(batcher.pending_len(), 1);
}

#[test]
fn batcher_rejects_a_repeated_transaction() {
    let mut batcher = DurableCommitBatcher::new(DurableCommitBatchPolicy::new(4).unwrap());
    batcher.enqueue(7, descriptor(7, 8, 11)).unwrap();
    assert_eq!(
        batcher.enqueue(7, descriptor(8, 9, 11)),
        Err(DurabilityError::Protocol {
            offset: 0,
            reason: "async durability batch repeats a transaction id",
        })
    );
    assert_eq!(batcher.pending(), &[descriptor(7, 8, 11)][..]);
}

#[test]
fn prepared_cut_capsule_yields_scan_seeds_in_order() {
    let capsule = PreparedCutCapsule::from_entries(vec![
        PreparedCutEntry {
            prepare_lsn: 5,
            payload_crc32c: 0xabcd,
            descriptor: descriptor(1, 2, 9),
        },
        PreparedCutEntry {
            prepare_lsn: 8,
            payload_crc32c: 0x1234,
            descriptor: descriptor(2, 3, 10),
        },
    ]);
    assert_eq!(capsule.len(), 2);
    assert!(!capsule.is_empty());
    assert_eq!(
        capsule.scan_seeds(),
        vec![
            (5, descriptor(1, 2, 9), 0xabcd),
            (8, descriptor(2, 3, 10), 0x1234)
        ]
    );
    assert!(PreparedCutCapsule::default().is_empty());
}

#[test]
fn unsupported_format_version_is_refused() {
    assert_eq!(
        DurableFormatRegistry::require_supported(DurableFormatComponent::Manifest, 2, &[1, 2]),
        Ok(())
    );
    assert_eq!(
        DurableFormatRegistry::require_supported(DurableFormatComponent::CheckpointFile, 3, &[1, 2]),
        Err(DurabilityError::UnsupportedDurableFormat {
            component: DurableFormatComponent::CheckpointFile,
            version: 3,
        })
    );
}
