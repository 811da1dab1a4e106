//! The decisions of a streaming checkpoint: when a job may begin and when a
//! finished job may be published.

use vstd::prelude::*;
use crate::durability::DurabilityError;
use crate::frames::MAX_CHECKPOINT_LEN;
use crate::manifest::ManifestRecord;

verus! {

/// What a streaming checkpoint job records between its steps.
#[derive(Debug, Clone, Copy, PartialEq, Eq, Structural)]
pub struct StreamingJobState {
    pub generation: u64,
    pub cut_revision: u64,
    pub payload_len: usize,
    pub chunk_size: usize,
    pub next_chunk: usize,
    pub checkpoint_crc32c: Option<u32>,
    pub metadata_crc32c: u32,
    pub capsule_crc32c: u32,
    pub wal_first_lsn: u64,
    pub mirrored_lsn: u64,
    pub durable_shadow_lsn: u64,
    pub failed: bool,
}

pub open spec fn protocol(reason: &'static str) -> DurabilityError {
    DurabilityError::Protocol { offset: 0, reason }
}

pub open spec fn corruption(reason: &'static str) -> DurabilityError {
    DurabilityError::Corruption { offset: 0, reason }
}

/// Whether a streaming checkpoint of `revision`, whose encoded payload has
/// `payload_len` bytes, may begin: the store is not poisoned, no job is
/// active, the chunk size is nonzero, the revision is the durable head and
/// the payload fits a checkpoint.
pub fn begin_step(poisoned: bool, active: bool, chunk_size: usize, revision: u64, durable_head: u64, payload_len: usize) -> (r: Result<(), DurabilityError>)
    ensures
        poisoned ==> r == Err::<(), DurabilityError>(DurabilityError::Poisoned),
        !poisoned && active ==> r == Err::<(), DurabilityError>(protocol("streaming checkpoint job already active")),
        !poisoned && !active && (chunk_size == 0 || revision != durable_head)
            ==> r == Err::<(), DurabilityError>(protocol("streaming checkpoint requires nonzero chunk size at durable head")),
        !poisoned && !active && chunk_size != 0 && revision == durable_head && payload_len > MAX_CHECKPOINT_LEN
            ==> r == Err::<(), DurabilityError>(DurabilityError::PayloadTooLarge),
        !poisoned && !active && chunk_size != 0 && revision == durable_head && payload_len <= MAX_CHECKPOINT_LEN ==> r is Ok,
{
    if poisoned {
        return Err(DurabilityError::Poisoned);
    }
    if active {
        return Err(DurabilityError::Protocol { offset: 0, reason: "streaming checkpoint job already active" });
    }
    if chunk_size == 0 || revision != durable_head {
        return Err(DurabilityError::Protocol { offset: 0, reason: "streaming checkpoint requires nonzero chunk size at durable head" });
    }
    if payload_len > MAX_CHECKPOINT_LEN {
        return Err(DurabilityError::PayloadTooLarge);
    }
    Ok(())
}

/// Whether a finished streaming checkpoint may be published, and the
/// manifest that publishes it. `last_lsn` is the active WAL's last LSN,
/// `scan_head` and `scan_next_lsn` what the cut plus the shadow WAL recover,
/// `cut_id` the revision the checkpoint root decodes to, and `metadata_crc`
/// and `capsule_crc` the checksums of the files as they now stand.
pub fn finalize_step(
    poisoned: bool,
    job: Option<StreamingJobState>,
    last_lsn: u64,
    durable_head: u64,
    scan_head: u64,
    scan_next_lsn: u64,
    cut_id: u64,
    metadata_crc: u32,
    capsule_crc: u32,
) -> (r: Result<ManifestRecord, DurabilityError>)
    ensures
        poisoned ==> r == Err::<ManifestRecord, DurabilityError>(DurabilityError::Poisoned),
        !poisoned && job is None ==> r == Err::<ManifestRecord, DurabilityError>(protocol("no streaming checkpoint job is active")),
        !poisoned ==> (job matches Some(j) ==> {
            if j.checkpoint_crc32c is None {
                r == Err::<ManifestRecord, DurabilityError>(protocol("streaming checkpoint chunks are not complete"))
            } else if j.failed || j.mirrored_lsn != last_lsn || j.durable_shadow_lsn != j.mirrored_lsn {
                r == Err::<ManifestRecord, DurabilityError>(protocol("shadow WAL is not durably caught up to active WAL"))
            } else if scan_head != durable_head || scan_next_lsn <= j.mirrored_lsn {
                r == Err::<ManifestRecord, DurabilityError>(protocol("checkpoint cut plus shadow WAL does not recover exact publish endpoint"))
            } else if cut_id != j.cut_revision {
                r == Err::<ManifestRecord, DurabilityError>(protocol("streaming checkpoint root does not decode to pinned cut"))
            } else if metadata_crc != j.metadata_crc32c {
                r == Err::<ManifestRecord, DurabilityError>(corruption("streaming checkpoint metadata changed before publication"))
            } else if capsule_crc != j.capsule_crc32c {
                r == Err::<ManifestRecord, DurabilityError>(corruption("prepared cut capsule changed before publication"))
            } else {
                r == Ok::<ManifestRecord, DurabilityError>(ManifestRecord {
                    generation: j.generation,
                    base_revision: j.cut_revision,
                    published_head: durable_head,
                    wal_first_lsn: j.wal_first_lsn,
                    published_tail_lsn: j.mirrored_lsn,
                    checkpoint_crc32c: j.checkpoint_crc32c->0,
                    metadata_crc32c: j.metadata_crc32c,
                    prepared_capsule_crc32c: j.capsule_crc32c,
                })
            }
        }),
{
    if poisoned {
        return Err(DurabilityError::Poisoned);
    }
    let j = match job {
        Some(j) => j,
        None => {
            return Err(DurabilityError::Protocol { offset: 0, reason: "no streaming checkpoint job is active" });
        },
    };
    let checkpoint_crc32c = match j.checkpoint_crc32c {
        Some(crc) => crc,
        None => {
            return Err(DurabilityError::Protocol { offset: 0, reason: "streaming checkpoint chunks are not complete" });
        },
    };
    if j.failed || j.mirrored_lsn != last_lsn || j.durable_shadow_lsn != j.mirrored_lsn {
        return Err(DurabilityError::Protocol { offset: 0, reason: "shadow WAL is not durably caught up to active WAL" });
    }
    if scan_head != durable_head || scan_next_lsn <= j.mirrored_lsn {
        return Err(DurabilityError::Protocol { offset: 0, reason: "checkpoint cut plus shadow WAL does not recover exact publish endpoint" });
    }
    if cut_id != j.cut_revision {
        return Err(DurabilityError::Protocol { offset: 0, reason: "streaming checkpoint root does not decode to pinned cut" });
    }
    if metadata_crc != j.metadata_crc32c {
        return Err(DurabilityError::Corruption { offset: 0, reason: "streaming checkpoint metadata changed before publication" });
    }
    if capsule_crc != j.capsule_crc32c {
        return Err(DurabilityError::Corruption { offset: 0, reason: "prepared cut capsule changed before publication" });
    }
    Ok(ManifestRecord {
        generation: j.generation,
        base_revision: j.cut_revision,
        published_head: durable_head,
        wal_first_lsn: j.wal_first_lsn,
        published_tail_lsn: j.mirrored_lsn,
        checkpoint_crc32c,
        metadata_crc32c: j.metadata_crc32c,
        prepared_capsule_crc32c: j.capsule_crc32c,
    })
}

} // verus!
