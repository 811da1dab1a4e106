//! Durable commit batching and the plain records around checkpoint publication.

use vstd::prelude::*;

verus! {

/// The durable format components whose versions are checked.
#[derive(Debug, Clone, Copy, PartialEq, Eq, Structural)]
pub enum DurableFormatComponent {
    CheckpointFile,
    MetadataFile,
    Manifest,
}

/// Errors of the durable store that the library's own logic raises.
#[derive(Debug, Clone, Copy, PartialEq, Eq)]
pub enum DurabilityError {
    Protocol { offset: usize, reason: &'static str },
    Corruption { offset: usize, reason: &'static str },
    UnsupportedDurableFormat { component: DurableFormatComponent, version: u16 },
    PayloadTooLarge,
    Poisoned,
}

/// How many descriptors a durable commit batch may hold before it must be flushed.
#[derive(Debug, Clone, Copy, PartialEq, Eq, Structural)]
pub struct DurableCommitBatchPolicy {
    max_descriptors: usize,
}

impl DurableCommitBatchPolicy {
    pub closed spec fn spec_max_descriptors(self) -> usize {
        self.max_descriptors
    }

    /// A policy for batches of `max_descriptors`; zero is refused.
    pub fn new(max_descriptors: usize) -> (result: Result<Self, DurabilityError>)
        ensures
            max_descriptors == 0 ==> result == Err::<Self, DurabilityError>(
                DurabilityError::Protocol { offset: 0, reason: "durability batch size must be nonzero" },
            ),
            max_descriptors != 0 ==> (result matches Ok(policy) && policy.spec_max_descriptors() == max_descriptors),
    {
        if max_descriptors == 0 {
            return Err(DurabilityError::Protocol { offset: 0, reason: "durability batch size must be nonzero" });
        }
        Ok(Self { max_descriptors })
    }

    pub fn max_descriptors(self) -> (max: usize)
        ensures
            max == self.spec_max_descriptors(),
    {
        self.max_descriptors
    }
}

/// What enqueueing did: the descriptor waits, or the batch is full and must be flushed.
#[derive(Debug, Clone, Copy, PartialEq, Eq, Structural)]
pub enum DurableBatchEnqueueOutcome {
    Queued,
    FlushRequired,
}

/// The identifiers of a revision commit that batching reads.
#[derive(Debug, Clone, Copy, PartialEq, Eq, Structural)]
pub struct DurableRevisionDescriptor {
    pub source_revision: u64,
    pub target_revision: u64,
    pub transaction_id: u64,
}

/// Each descriptor starts where the previous one ended.
pub open spec fn contiguous(pending: Seq<DurableRevisionDescriptor>) -> bool {
    forall|i: int| 0 <= i < pending.len() - 1 ==> #[trigger] pending[i + 1].source_revision == pending[i].target_revision
}

/// No transaction id occurs twice.
pub open spec fn distinct_transactions(pending: Seq<DurableRevisionDescriptor>) -> bool {
    forall|i: int, j: int| 0 <= i < j < pending.len() ==> #[trigger] pending[i].transaction_id != #[trigger] pending[j].transaction_id
}

/// Whether some pending descriptor carries `transaction_id`.
pub open spec fn has_transaction(pending: Seq<DurableRevisionDescriptor>, transaction_id: u64) -> bool {
    exists|i: int| 0 <= i < pending.len() && #[trigger] pending[i].transaction_id == transaction_id
}

/// Scheduler state for group commit. Enqueueing never acknowledges
/// durability; a batch is acknowledged only once it has been committed.
#[derive(Debug)]
pub struct DurableCommitBatcher {
    policy: DurableCommitBatchPolicy,
    pending: Vec<DurableRevisionDescriptor>,
}

impl DurableCommitBatcher {
    pub closed spec fn spec_policy(self) -> DurableCommitBatchPolicy {
        self.policy
    }

    pub closed spec fn spec_pending(self) -> Seq<DurableRevisionDescriptor> {
        self.pending@
    }

    /// The pending batch is a contiguous chain of distinct transactions.
    pub open spec fn wf(self) -> bool {
        contiguous(self.spec_pending()) && distinct_transactions(self.spec_pending())
    }

    pub fn new(policy: DurableCommitBatchPolicy) -> (batcher: Self)
        ensures
            batcher.wf(),
            batcher.spec_policy() == policy,
            batcher.spec_pending().len() == 0,
    {
        Self { policy, pending: Vec::new() }
    }

    pub fn pending_len(&self) -> (len: usize)
        ensures
            len == self.spec_pending().len(),
    {
        self.pending.len()
    }

    pub fn is_empty(&self) -> (empty: bool)
        ensures
            empty <==> self.spec_pending().len() == 0,
    {
        self.pending.len() == 0
    }

    /// The descriptors waiting for the next group commit, oldest first.
    pub fn pending(&self) -> (pending: &[DurableRevisionDescriptor])
        ensures
            pending@ == self.spec_pending(),
    {
        self.pending.as_slice()
    }

    /// Adds `descriptor` to the batch when it continues the chain from the
    /// durable head (or the batch's tail) and repeats no transaction.
    pub fn enqueue(&mut self, durable_head: u64, descriptor: DurableRevisionDescriptor) -> (result: Result<DurableBatchEnqueueOutcome, DurabilityError>)
        requires
            old(self).wf(),
        ensures
            final(self).wf(),
            final(self).spec_policy() == old(self).spec_policy(),
            ({
                let pending = old(self).spec_pending();
                let expected = if pending.len() == 0 { durable_head } else { pending.last().target_revision };
                if descriptor.source_revision != expected {
                    &&& result == Err::<DurableBatchEnqueueOutcome, DurabilityError>(
                        DurabilityError::Protocol { offset: 0, reason: "async durability batch is not a contiguous revision chain" },
                    )
                    &&& final(self).spec_pending() == pending
                } else if has_transaction(pending, descriptor.transaction_id) {
                    &&& result == Err::<DurableBatchEnqueueOutcome, DurabilityError>(
                        DurabilityError::Protocol { offset: 0, reason: "async durability batch repeats a transaction id" },
                    )
                    &&& final(self).spec_pending() == pending
                } else {
                    &&& final(self).spec_pending() == pending.push(descriptor)
                    &&& result == Ok::<DurableBatchEnqueueOutcome, DurabilityError>(
                        if pending.len() + 1 >= old(self).spec_policy().spec_max_descriptors() {
                            DurableBatchEnqueueOutcome::FlushRequired
                        } else {
                            DurableBatchEnqueueOutcome::Queued
                        },
                    )
                }
            }),
    {
        let expected = if self.pending.len() == 0 { durable_head } else { self.pending[self.pending.len() - 1].target_revision };
        if descriptor.source_revision != expected {
            return Err(DurabilityError::Protocol { offset: 0, reason: "async durability batch is not a contiguous revision chain" });
        }
        let mut i: usize = 0;
        while i < self.pending.len()
            invariant
                i <= self.pending@.len(),
                self.wf(),
                self.pending@ == old(self).spec_pending(),
                self.policy == old(self).spec_policy(),
                descriptor.source_revision == (if old(self).spec_pending().len() == 0 { durable_head } else { old(self).spec_pending().last().target_revision }),
                forall|j: int| 0 <= j < i ==> self.pending@[j].transaction_id != descriptor.transaction_id,
            decreases self.pending@.len() - i,
        {
            if self.pending[i].transaction_id == descriptor.transaction_id {
                assert(has_transaction(self.pending@, descriptor.transaction_id));
                return Err(DurabilityError::Protocol { offset: 0, reason: "async durability batch repeats a transaction id" });
            }
            i = i + 1;
        }
        let ghost before = self.pending@;
        self.pending.push(descriptor);
        proof {
            assert forall|a: int, b: int| 0 <= a < b < self.pending@.len() implies #[trigger] self.pending@[a].transaction_id != #[trigger] self.pending@[b].transaction_id by {
                if b < before.len() {
                    assert(before[a].transaction_id != before[b].transaction_id);
                }
            }
            assert forall|a: int| 0 <= a < self.pending@.len() - 1 implies #[trigger] self.pending@[a + 1].source_revision == self.pending@[a].target_revision by {
                if a + 1 < before.len() {
                    assert(before[a + 1].source_revision == before[a].target_revision);
                }
            }
        }
        if self.pending.len() >= self.policy.max_descriptors {
            Ok(DurableBatchEnqueueOutcome::FlushRequired)
        } else {
            Ok(DurableBatchEnqueueOutcome::Queued)
        }
    }

    /// Forgets the pending batch once its group commit has crossed the commit barrier.
    pub fn clear_committed(&mut self)
        ensures
            final(self).wf(),
            final(self).spec_policy() == old(self).spec_policy(),
            final(self).spec_pending().len() == 0,
    {
        self.pending.clear();
    }
}

/// A prepared but uncommitted entry carried across a checkpoint cut.
#[derive(Debug, Clone, Copy, PartialEq, Eq)]
pub struct PreparedCutEntry {
    pub prepare_lsn: u64,
    pub payload_crc32c: u32,
    pub descriptor: DurableRevisionDescriptor,
}

/// The prepared entries a checkpoint carries across its cut.
#[derive(Debug, PartialEq, Eq)]
pub struct PreparedCutCapsule {
    entries: Vec<PreparedCutEntry>,
}

impl PreparedCutCapsule {
    pub closed spec fn spec_entries(self) -> Seq<PreparedCutEntry> {
        self.entries@
    }

    /// A capsule holding `entries`.
    pub fn from_entries(entries: Vec<PreparedCutEntry>) -> (capsule: Self)
        ensures
            capsule.spec_entries() == entries@,
    {
        Self { entries }
    }

    pub fn len(&self) -> (len: usize)
        ensures
            len == self.spec_entries().len(),
    {
        self.entries.len()
    }

    pub fn is_empty(&self) -> (empty: bool)
        ensures
            empty <==> self.spec_entries().len() == 0,
    {
        self.entries.len() == 0
    }

    /// The recovery scan seeds: prepare position, descriptor and payload checksum of each entry, in order.
    pub fn scan_seeds(&self) -> (seeds: Vec<(u64, DurableRevisionDescriptor, u32)>)
        ensures
            seeds@.len() == self.spec_entries().len(),
            forall|i: int| 0 <= i < seeds@.len() ==> #[trigger] seeds@[i] == (
                self.spec_entries()[i].prepare_lsn,
                self.spec_entries()[i].descriptor,
                self.spec_entries()[i].payload_crc32c,
            ),
    {
        let mut seeds: Vec<(u64, DurableRevisionDescriptor, u32)> = Vec::new();
        let mut i: usize = 0;
        while i < self.entries.len()
            invariant
                i <= self.entries@.len(),
                seeds@.len() == i,
                forall|j: int| 0 <= j < i ==> #[trigger] seeds@[j] == (
                    self.entries@[j].prepare_lsn,
                    self.entries@[j].descriptor,
                    self.entries@[j].payload_crc32c,
                ),
            decreases self.entries@.len() - i,
        {
            let entry = self.entries[i];
            seeds.push((entry.prepare_lsn, entry.descriptor, entry.payload_crc32c));
            i = i + 1;
        }
        seeds
    }
}

impl Default for PreparedCutCapsule {
    fn default() -> (capsule: Self)
        ensures
            capsule.spec_entries().len() == 0,
    {
        Self { entries: Vec::new() }
    }
}

/// Progress of a streaming checkpoint job.
#[derive(Debug, Clone, Copy, PartialEq, Eq)]
pub struct StreamingCheckpointProgress {
    pub generation: u64,
    pub chunks_written: u32,
    pub chunks_total: u32,
    pub mirrored_lsn: u64,
    pub durable_shadow_lsn: u64,
    pub ready_to_publish: bool,
}

/// The format versions this build can read.
#[derive(Debug, Clone, Copy)]
pub struct DurableFormatRegistry;

impl DurableFormatRegistry {
    /// Accepts `version` of `component` when it is one of `supported`.
    pub fn require_supported(component: DurableFormatComponent, version: u16, supported: &[u16]) -> (result: Result<(), DurabilityError>)
        ensures
            supported@.contains(version) ==> result is Ok,
            !supported@.contains(version) ==> result == Err::<(), DurabilityError>(
                DurabilityError::UnsupportedDurableFormat { component, version },
            ),
    {
        let mut i: usize = 0;
        while i < supported.len()
            invariant
                i <= supported@.len(),
                forall|j: int| 0 <= j < i ==> supported@[j] != version,
            decreases supported@.len() - i,
        {
            if supported[i] == version {
                return Ok(());
            }
            i = i + 1;
        }
        Err(DurabilityError::UnsupportedDurableFormat { component, version })
    }
}

/// The points of the store's publication and compaction protocol at which a crash is injected.
#[derive(Debug, Clone, Copy, PartialEq, Eq, Structural)]
pub enum StoreFaultPoint {
    AfterCheckpointSync,
    AfterWalSync,
    AfterMetadataSync,
    AfterPrerequisiteDirectorySync,
    AfterPendingManifestSync,
    AfterManifestRename,
    AfterManifestDirectorySync,
    BeforeCompactionRemove,
    AfterCompactionRemove,
    AfterCompactionDirectorySync,
}

/// One bit step of the reflected CRC-32C (Castagnoli) register.
pub open spec fn crc32c_bit(c: u32) -> u32 {
    if c & 1u32 == 1u32 {
        (c >> 1u32) ^ 0x82F6_3B78u32
    } else {
        c >> 1u32
    }
}

/// The CRC-32C register after taking in byte `b`.
pub open spec fn crc32c_byte(c: u32, b: u8) -> u32 {
    let x = c ^ (b as u32);
    crc32c_bit(crc32c_bit(crc32c_bit(crc32c_bit(crc32c_bit(crc32c_bit(crc32c_bit(crc32c_bit(x))))))))
}

/// The CRC-32C register after taking in `bytes`, from its initial all-ones state.
pub open spec fn crc32c_register(bytes: Seq<u8>) -> u32
    decreases bytes.len(),
{
    if bytes.len() == 0 {
        0xFFFF_FFFFu32
    } else {
        crc32c_byte(crc32c_register(bytes.drop_last()), bytes.last())
    }
}

/// The CRC-32C checksum of `bytes`.
pub open spec fn spec_crc32c(bytes: Seq<u8>) -> u32 {
    crc32c_register(bytes) ^ 0xFFFF_FFFFu32
}

fn crc32c_step(c: u32) -> (next: u32)
    ensures
        next == crc32c_bit(c),
{
    if c & 1 == 1 {
        (c >> 1) ^ 0x82F6_3B78
    } else {
        c >> 1
    }
}

/// The CRC-32C checksum of `bytes`.
pub fn crc32c(bytes: &[u8]) -> (crc: u32)
    ensures
        crc == spec_crc32c(bytes@),
{
    let mut c: u32 = 0xFFFF_FFFF;
    let mut i: usize = 0;
    while i < bytes.len()
        invariant
            i <= bytes@.len(),
            c == crc32c_register(bytes@.take(i as int)),
        decreases bytes@.len() - i,
    {
        let x = c ^ (bytes[i] as u32);
        let x = crc32c_step(x);
        let x = crc32c_step(x);
        let x = crc32c_step(x);
        let x = crc32c_step(x);
        let x = crc32c_step(x);
        let x = crc32c_step(x);
        let x = crc32c_step(x);
        let x = crc32c_step(x);
        proof {
            let next = bytes@.take(i + 1);
            assert(next.drop_last() =~= bytes@.take(i as int));
            assert(next.last() == bytes@[i as int]);
        }
        c = x;
        i = i + 1;
    }
    proof {
        assert(bytes@.take(i as int) =~= bytes@);
    }
    c ^ 0xFFFF_FFFF
}


/// The checksum is CRC-32C (Castagnoli, reflected, initial and final value all
/// ones): the nine ASCII digits "123456789" check to 0xE3069283, and no bytes
/// to 0.
pub proof fn lemma_crc32c_check_value()
    ensures
        spec_crc32c(seq![0x31u8, 0x32u8, 0x33u8, 0x34u8, 0x35u8, 0x36u8, 0x37u8, 0x38u8, 0x39u8]) == 0xE306_9283u32,
        spec_crc32c(Seq::<u8>::empty()) == 0u32,
{
    let s = seq![0x31u8, 0x32u8, 0x33u8, 0x34u8, 0x35u8, 0x36u8, 0x37u8, 0x38u8, 0x39u8];
    assert(s.take(0) =~= Seq::<u8>::empty());
    assert(crc32c_register(s.take(0)) == 0xFFFF_FFFFu32);
    assert(crc32c_byte(0xFFFF_FFFFu32, 0x31u8) == 0x6F0A661Cu32) by (bit_vector);
    assert(s.take(1).drop_last() =~= s.take(0));
    assert(crc32c_register(s.take(1)) == 0x6F0A661Cu32);
    assert(crc32c_byte(0x6F0A661Cu32, 0x32u8) == 0x8CAA3B9Fu32) by (bit_vector);
    assert(s.take(2).drop_last() =~= s.take(1));
    assert(crc32c_register(s.take(2)) == 0x8CAA3B9Fu32);
    assert(crc32c_byte(0x8CAA3B9Fu32, 0x33u8) == 0xEF84D04Du32) by (bit_vector);
    assert(s.take(3).drop_last() =~= s.take(2));
    assert(crc32c_register(s.take(3)) == 0xEF84D04Du32);
    assert(crc32c_byte(0xEF84D04Du32, 0x34u8) == 0x09C50B11u32) by (bit_vector);
    assert(s.take(4).drop_last() =~= s.take(3));
    assert(crc32c_register(s.take(4)) == 0x09C50B11u32);
    assert(crc32c_byte(0x09C50B11u32, 0x35u8) == 0xE72EDCCAu32) by (bit_vector);
    assert(s.take(5).drop_last() =~= s.take(4));
    assert(crc32c_register(s.take(5)) == 0xE72EDCCAu32);
    assert(crc32c_byte(0xE72EDCCAu32, 0x36u8) == 0xBECA8E79u32) by (bit_vector);
    assert(s.take(6).drop_last() =~= s.take(5));
    assert(crc32c_register(s.take(6)) == 0xBECA8E79u32);
    assert(crc32c_byte(0xBECA8E79u32, 0x37u8) == 0xEDBD6815u32) by (bit_vector);
    assert(s.take(7).drop_last() =~= s.take(6));
    assert(crc32c_register(s.take(7)) == 0xEDBD6815u32);
    assert(crc32c_byte(0xEDBD6815u32, 0x38u8) == 0x9F787F65u32) by (bit_vector);
    assert(s.take(8).drop_last() =~= s.take(7));
    assert(crc32c_register(s.take(8)) == 0x9F787F65u32);
    assert(crc32c_byte(0x9F787F65u32, 0x39u8) == 0x1CF96D7Cu32) by (bit_vector);
    assert(s.take(9).drop_last() =~= s.take(8));
    assert(crc32c_register(s.take(9)) == 0x1CF96D7Cu32);
    assert(s.take(9) =~= s);
    assert(0xFFFF_FFFFu32 ^ 0xFFFF_FFFFu32 == 0u32) by (bit_vector);
    assert(0x1CF9_6D7Cu32 ^ 0xFFFF_FFFFu32 == 0xE306_9283u32) by (bit_vector);
}

} // verus!
