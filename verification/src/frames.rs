//! The framings of the store's checkpoint, metadata and prepared-cut files:
//! fixed headers with magic, version, flags, lengths and CRC-32C checksums
//! around payloads that the revision and metadata codecs read.

use vstd::prelude::*;
use vstd::bytes::{
    spec_u16_from_le_bytes, spec_u32_from_le_bytes, spec_u64_from_le_bytes, spec_u16_to_le_bytes, spec_u32_to_le_bytes, spec_u64_to_le_bytes, u16_from_le_bytes,
    u16_to_le_bytes, u32_from_le_bytes, u32_to_le_bytes, u64_from_le_bytes, u64_to_le_bytes,
};
use crate::durability::{
    crc32c, spec_crc32c, DurabilityError, DurableFormatComponent, DurableFormatRegistry,
};
use crate::manifest::{append_bytes, le16_at, le32_at, le64_at};
use crate::retained::{sat_mul, saturating_mul};

verus! {

pub const CHECKPOINT_HEADER_LEN: usize = 32;

pub const LEGACY_CHECKPOINT_FORMAT_VERSION: u16 = 1;

pub const CHECKPOINT_FORMAT_VERSION: u16 = 2;

pub const MAX_CHECKPOINT_LEN: usize = 536870912;

pub const CHECKPOINT_CHUNK_DESCRIPTOR_LEN: usize = 16;

pub const METADATA_FILE_VERSION: u16 = 1;

pub const METADATA_HEADER_LEN: usize = 20;

pub const MAX_METADATA_LEN: usize = 67108864;

pub const PREPARED_CAPSULE_VERSION: u16 = 1;

pub const PREPARED_CAPSULE_HEADER_LEN: usize = 16;

/// The magic bytes "CFCP" that open a checkpoint file.
pub open spec fn checkpoint_magic() -> Seq<u8> {
    seq![0x43u8, 0x46u8, 0x43u8, 0x50u8]
}

/// The magic bytes "CFDM" that open a durable metadata file.
pub open spec fn metadata_magic() -> Seq<u8> {
    seq![0x43u8, 0x46u8, 0x44u8, 0x4Du8]
}

/// Appends `tail` to `out`.
fn append_slice(out: &mut Vec<u8>, tail: &[u8])
    ensures
        final(out)@ == old(out)@ + tail@,
{
    let mut i: usize = 0;
    while i < tail.len()
        invariant
            i <= tail@.len(),
            out@ == old(out)@ + tail@.take(i as int),
        decreases tail@.len() - i,
    {
        out.push(tail[i]);
        i = i + 1;
        assert(out@ =~= old(out)@ + tail@.take(i as int));
    }
    assert(tail@.take(i as int) =~= tail@);
}

/// A copy of `bytes[start..end]`.
fn copy_range(bytes: &[u8], start: usize, end: usize) -> (out: Vec<u8>)
    requires
        start <= end <= bytes@.len(),
    ensures
        out@ == bytes@.subrange(start as int, end as int),
{
    let mut out: Vec<u8> = Vec::new();
    append_slice(&mut out, &bytes[start..end]);
    assert(out@ =~= bytes@.subrange(start as int, end as int));
    out
}

/// Whether the four bytes at `at` are `magic`, decided byte by byte.
fn magic_at(bytes: &[u8], at: usize, magic: &[u8; 4]) -> (same: bool)
    requires
        at + 4 <= bytes@.len(),
    ensures
        same <==> bytes@.subrange(at as int, at + 4) == magic@,
{
    let same = bytes[at] == magic[0] && bytes[at + 1] == magic[1] && bytes[at + 2] == magic[2]
        && bytes[at + 3] == magic[3];
    proof {
        if same {
            assert(bytes@.subrange(at as int, at + 4) =~= magic@);
        } else if bytes@.subrange(at as int, at + 4) == magic@ {
            assert(bytes@.subrange(at as int, at + 4)[0] == bytes@[at as int]);
            assert(bytes@.subrange(at as int, at + 4)[1] == bytes@[at + 1]);
            assert(bytes@.subrange(at as int, at + 4)[2] == bytes@[at + 2]);
            assert(bytes@.subrange(at as int, at + 4)[3] == bytes@[at + 3]);
        }
    }
    same
}

// ---------------------------------------------------------------------------
// Single-file checkpoints (the legacy format).

/// The checksummed first 28 bytes of a single-file checkpoint header.
pub open spec fn checkpoint_file_header_body(revision: u64, payload: Seq<u8>) -> Seq<u8> {
    checkpoint_magic() + spec_u16_to_le_bytes(1u16) + spec_u16_to_le_bytes(0u16)
        + spec_u64_to_le_bytes(payload.len() as u64) + spec_u64_to_le_bytes(revision)
        + spec_u32_to_le_bytes(spec_crc32c(payload))
}

/// A single-file checkpoint of `revision` around the encoded revision `payload`.
pub open spec fn checkpoint_file_bytes(revision: u64, payload: Seq<u8>) -> Seq<u8> {
    let body = checkpoint_file_header_body(revision, payload);
    body + spec_u32_to_le_bytes(spec_crc32c(body)) + payload
}

/// What reading `bytes` as a single-file checkpoint gives: the revision its
/// header names and its payload, or why it is refused.
pub open spec fn checkpoint_file_decoding(bytes: Seq<u8>) -> Result<(u64, Seq<u8>), DurabilityError> {
    if bytes.len() < 32 {
        Err(DurabilityError::Corruption { offset: 0, reason: "checkpoint header truncated" })
    } else if bytes.subrange(0, 4) != checkpoint_magic() {
        Err(DurabilityError::Corruption { offset: 0, reason: "checkpoint magic mismatch" })
    } else if le16_at(bytes, 4) != 1 {
        Err(DurabilityError::UnsupportedDurableFormat { component: DurableFormatComponent::CheckpointFile, version: le16_at(bytes, 4) })
    } else if le16_at(bytes, 6) != 0 {
        Err(DurabilityError::Corruption { offset: 0, reason: "unsupported checkpoint file flags" })
    } else if spec_crc32c(bytes.subrange(0, 28)) != le32_at(bytes, 28) {
        Err(DurabilityError::Corruption { offset: 0, reason: "checkpoint header checksum mismatch" })
    } else if le64_at(bytes, 8) > usize::MAX {
        Err(DurabilityError::Corruption { offset: 0, reason: "checkpoint payload length overflow" })
    } else if le64_at(bytes, 8) > 536870912 || 32 + le64_at(bytes, 8) != bytes.len() {
        Err(DurabilityError::Corruption { offset: 0, reason: "checkpoint payload length mismatch" })
    } else if spec_crc32c(bytes.subrange(32, bytes.len() as int)) != le32_at(bytes, 24) {
        Err(DurabilityError::Corruption { offset: 0, reason: "checkpoint payload checksum mismatch" })
    } else {
        Ok((le64_at(bytes, 16), bytes.subrange(32, bytes.len() as int)))
    }
}

/// A checkpoint's framing read back: the revision its header names and the
/// payload that the revision codec decodes.
#[derive(Debug, Clone, PartialEq, Eq)]
pub struct CheckpointFrame {
    pub revision: u64,
    pub payload: Vec<u8>,
}

/// A decoded frame as plain values.
pub open spec fn frame_view(result: Result<CheckpointFrame, DurabilityError>) -> Result<(u64, Seq<u8>), DurabilityError> {
    match result {
        Ok(frame) => Ok((frame.revision, frame.payload@)),
        Err(e) => Err(e),
    }
}

/// The bytes of a single-file checkpoint of `revision` around `payload`;
/// a payload over the checkpoint limit is refused.
pub fn encode_checkpoint_file(revision: u64, payload: &[u8]) -> (result: Result<Vec<u8>, DurabilityError>)
    ensures
        payload@.len() > MAX_CHECKPOINT_LEN ==> result == Err::<Vec<u8>, DurabilityError>(DurabilityError::PayloadTooLarge),
        payload@.len() <= MAX_CHECKPOINT_LEN ==> (result matches Ok(bytes) && bytes@ == checkpoint_file_bytes(revision, payload@)),
{
    if payload.len() > MAX_CHECKPOINT_LEN {
        return Err(DurabilityError::PayloadTooLarge);
    }
    let payload_len = payload.len() as u64;
    let mut bytes: Vec<u8> = Vec::new();
    bytes.push(0x43);
    bytes.push(0x46);
    bytes.push(0x43);
    bytes.push(0x50);
    assert(bytes@ =~= checkpoint_magic());
    append_bytes(&mut bytes, &u16_to_le_bytes(LEGACY_CHECKPOINT_FORMAT_VERSION));
    append_bytes(&mut bytes, &u16_to_le_bytes(0));
    append_bytes(&mut bytes, &u64_to_le_bytes(payload_len));
    append_bytes(&mut bytes, &u64_to_le_bytes(revision));
    append_bytes(&mut bytes, &u32_to_le_bytes(crc32c(payload)));
    assert(bytes@ =~= checkpoint_file_header_body(revision, payload@));
    let header_crc = crc32c(bytes.as_slice());
    append_bytes(&mut bytes, &u32_to_le_bytes(header_crc));
    append_slice(&mut bytes, payload);
    assert(bytes@ =~= checkpoint_file_bytes(revision, payload@));
    Ok(bytes)
}

/// Reads the framing of a single-file checkpoint, refusing a truncated
/// header, a wrong magic, version or flags, a bad header checksum, a payload
/// length that does not match the file, and a bad payload checksum.
pub fn decode_checkpoint_file(bytes: &[u8]) -> (result: Result<CheckpointFrame, DurabilityError>)
    ensures
        frame_view(result) == checkpoint_file_decoding(bytes@),
{
    if bytes.len() < CHECKPOINT_HEADER_LEN {
        return Err(DurabilityError::Corruption { offset: 0, reason: "checkpoint header truncated" });
    }
    if !magic_at(bytes, 0, &[0x43, 0x46, 0x43, 0x50]) {
        proof {
            assert(seq![0x43u8, 0x46u8, 0x43u8, 0x50u8] =~= checkpoint_magic());
        }
        return Err(DurabilityError::Corruption { offset: 0, reason: "checkpoint magic mismatch" });
    }
    let version = u16_from_le_bytes(&bytes[4..6]);
    DurableFormatRegistry::require_supported(
        DurableFormatComponent::CheckpointFile,
        version,
        &[LEGACY_CHECKPOINT_FORMAT_VERSION],
    )?;
    if u16_from_le_bytes(&bytes[6..8]) != 0 {
        return Err(DurabilityError::Corruption { offset: 0, reason: "unsupported checkpoint file flags" });
    }
    if crc32c(&bytes[0..28]) != u32_from_le_bytes(&bytes[28..32]) {
        return Err(DurabilityError::Corruption { offset: 0, reason: "checkpoint header checksum mismatch" });
    }
    let payload_len = u64_from_le_bytes(&bytes[8..16]);
    if payload_len as u128 > usize::MAX as u128 {
        return Err(DurabilityError::Corruption { offset: 0, reason: "checkpoint payload length overflow" });
    }
    let payload_len = payload_len as usize;
    if payload_len > MAX_CHECKPOINT_LEN || payload_len != bytes.len() - CHECKPOINT_HEADER_LEN {
        return Err(DurabilityError::Corruption { offset: 0, reason: "checkpoint payload length mismatch" });
    }
    if crc32c(&bytes[CHECKPOINT_HEADER_LEN..bytes.len()]) != u32_from_le_bytes(&bytes[24..28]) {
        return Err(DurabilityError::Corruption { offset: 0, reason: "checkpoint payload checksum mismatch" });
    }
    Ok(CheckpointFrame {
        revision: u64_from_le_bytes(&bytes[16..24]),
        payload: copy_range(bytes, CHECKPOINT_HEADER_LEN, bytes.len()),
    })
}

/// A single-file checkpoint reads back as the revision and payload it was written from.
pub proof fn lemma_checkpoint_file_round_trip(revision: u64, payload: Seq<u8>)
    requires
        payload.len() <= MAX_CHECKPOINT_LEN,
    ensures
        checkpoint_file_decoding(checkpoint_file_bytes(revision, payload)) == Ok::<(u64, Seq<u8>), DurabilityError>((revision, payload)),
{
    vstd::bytes::lemma_auto_spec_u16_to_from_le_bytes();
    vstd::bytes::lemma_auto_spec_u32_to_from_le_bytes();
    vstd::bytes::lemma_auto_spec_u64_to_from_le_bytes();
    let b = checkpoint_file_bytes(revision, payload);
    let body = checkpoint_file_header_body(revision, payload);
    assert(body.len() == 28);
    assert(b.subrange(0, 4) =~= checkpoint_magic());
    assert(b.subrange(4, 6) =~= spec_u16_to_le_bytes(1u16));
    assert(b.subrange(6, 8) =~= spec_u16_to_le_bytes(0u16));
    assert(b.subrange(8, 16) =~= spec_u64_to_le_bytes(payload.len() as u64));
    assert(b.subrange(16, 24) =~= spec_u64_to_le_bytes(revision));
    assert(b.subrange(24, 28) =~= spec_u32_to_le_bytes(spec_crc32c(payload)));
    assert(b.subrange(0, 28) =~= body);
    assert(b.subrange(28, 32) =~= spec_u32_to_le_bytes(spec_crc32c(body)));
    assert(b.subrange(32, b.len() as int) =~= payload);
}

/// Where each part of a single-file checkpoint lies: the magic "CFCP" in bytes
/// 0..4, format version 1 and zero flags as little-endian `u16`s in 4..6 and
/// 6..8, the payload's length and the revision as little-endian `u64`s in 8..16
/// and 16..24, the payload's CRC-32C in 24..28, the CRC-32C of bytes 0..28 in
/// 28..32, and the payload itself from byte 32 to the end.
pub proof fn lemma_checkpoint_file_layout(revision: u64, payload: Seq<u8>)
    requires
        payload.len() <= MAX_CHECKPOINT_LEN,
    ensures
        checkpoint_file_bytes(revision, payload).len() == 32 + payload.len(),
        checkpoint_file_bytes(revision, payload).subrange(0, 4) == seq![0x43u8, 0x46u8, 0x43u8, 0x50u8],
        spec_u16_from_le_bytes(checkpoint_file_bytes(revision, payload).subrange(4, 6)) == 1u16,
        spec_u16_from_le_bytes(checkpoint_file_bytes(revision, payload).subrange(6, 8)) == 0u16,
        spec_u64_from_le_bytes(checkpoint_file_bytes(revision, payload).subrange(8, 16)) == payload.len(),
        spec_u64_from_le_bytes(checkpoint_file_bytes(revision, payload).subrange(16, 24)) == revision,
        spec_u32_from_le_bytes(checkpoint_file_bytes(revision, payload).subrange(24, 28)) == spec_crc32c(payload),
        spec_u32_from_le_bytes(checkpoint_file_bytes(revision, payload).subrange(28, 32))
            == spec_crc32c(checkpoint_file_bytes(revision, payload).subrange(0, 28)),
        checkpoint_file_bytes(revision, payload).subrange(32, 32 + payload.len() as int) == payload,
{
    vstd::bytes::lemma_auto_spec_u16_to_from_le_bytes();
    vstd::bytes::lemma_auto_spec_u32_to_from_le_bytes();
    vstd::bytes::lemma_auto_spec_u64_to_from_le_bytes();
    let b = checkpoint_file_bytes(revision, payload);
    let body = checkpoint_file_header_body(revision, payload);
    assert(b.subrange(0, 4) =~= seq![0x43u8, 0x46u8, 0x43u8, 0x50u8]);
    assert(b.subrange(4, 6) =~= spec_u16_to_le_bytes(1u16));
    assert(b.subrange(6, 8) =~= spec_u16_to_le_bytes(0u16));
    assert(b.subrange(8, 16) =~= spec_u64_to_le_bytes(payload.len() as u64));
    assert(b.subrange(16, 24) =~= spec_u64_to_le_bytes(revision));
    assert(b.subrange(24, 28) =~= spec_u32_to_le_bytes(spec_crc32c(payload)));
    assert(b.subrange(0, 28) =~= body);
    assert(b.subrange(28, 32) =~= spec_u32_to_le_bytes(spec_crc32c(body)));
    assert(b.subrange(32, 32 + payload.len() as int) =~= payload);
}

/// What reading a single-file checkpoint takes from where: a file of at least
/// thirty-two bytes with the magic "CFCP", version 1, zero flags, a matching
/// CRC-32C of bytes 0..28 in 28..32, a length in 8..16 of at most the
/// checkpoint limit that counts the bytes after byte 32, and a matching CRC-32C
/// of those bytes in 24..28 is accepted; and whatever is accepted gives the
/// revision in 16..24 and the bytes after byte 32 as its payload.
pub proof fn lemma_checkpoint_file_decoding_fields(bytes: Seq<u8>)
    ensures
        ({
            let ok = bytes.len() >= 32
                && bytes.subrange(0, 4) == seq![0x43u8, 0x46u8, 0x43u8, 0x50u8]
                && spec_u16_from_le_bytes(bytes.subrange(4, 6)) == 1u16
                && spec_u16_from_le_bytes(bytes.subrange(6, 8)) == 0u16
                && spec_u32_from_le_bytes(bytes.subrange(28, 32)) == spec_crc32c(bytes.subrange(0, 28))
                && spec_u64_from_le_bytes(bytes.subrange(8, 16)) <= MAX_CHECKPOINT_LEN
                && spec_u64_from_le_bytes(bytes.subrange(8, 16)) == bytes.len() - 32
                && spec_u32_from_le_bytes(bytes.subrange(24, 28)) == spec_crc32c(bytes.subrange(32, bytes.len() as int));
            ok ==> checkpoint_file_decoding(bytes) is Ok
        }),
        checkpoint_file_decoding(bytes) is Ok ==> {
            &&& checkpoint_file_decoding(bytes)->Ok_0.0 == spec_u64_from_le_bytes(bytes.subrange(16, 24))
            &&& checkpoint_file_decoding(bytes)->Ok_0.1 == bytes.subrange(32, bytes.len() as int)
        },
{
    assert(seq![0x43u8, 0x46u8, 0x43u8, 0x50u8] =~= checkpoint_magic());
}

/// Accepts the revision that the codec decoded from a checkpoint's payload
/// only when it is the revision the checkpoint's header names.
pub fn check_cut_revision(named: u64, decoded: u64, chunked: bool) -> (result: Result<(), DurabilityError>)
    ensures
        named == decoded ==> result is Ok,
        named != decoded && !chunked ==> result == Err::<(), DurabilityError>(
            DurabilityError::Protocol { offset: 0, reason: "checkpoint header revision mismatch" },
        ),
        named != decoded && chunked ==> result == Err::<(), DurabilityError>(
            DurabilityError::Protocol { offset: 0, reason: "checkpoint root cut revision mismatch" },
        ),
{
    if named == decoded {
        Ok(())
    } else if chunked {
        Err(DurabilityError::Protocol { offset: 0, reason: "checkpoint root cut revision mismatch" })
    } else {
        Err(DurabilityError::Protocol { offset: 0, reason: "checkpoint header revision mismatch" })
    }
}

// ---------------------------------------------------------------------------
// Chunked checkpoints: a root file of chunk descriptors, and one file per chunk.

/// The descriptor of one chunk of a chunked checkpoint, as its root records it.
#[derive(Debug, Clone, Copy, PartialEq, Eq, Structural)]
pub struct ChunkDescriptor {
    pub ordinal: u32,
    pub len: u64,
    pub crc32c: u32,
}

/// How many bytes of a `logical_len`-byte stream the chunk `ordinal` holds
/// when the stream is cut into chunks of `chunk_size` bytes.
pub open spec fn chunk_len(logical_len: int, chunk_size: int, ordinal: int) -> int {
    let start = sat_mul(ordinal, chunk_size);
    let rest = if logical_len > start { logical_len - start } else { 0 };
    if rest < chunk_size { rest } else { chunk_size }
}

pub open spec fn chunk_descriptor_bytes(ordinal: u32, len: u64, crc: u32) -> Seq<u8> {
    spec_u32_to_le_bytes(ordinal) + spec_u64_to_le_bytes(len) + spec_u32_to_le_bytes(crc)
}

/// The descriptor records of a root for chunks with checksums `crcs`.
pub open spec fn chunk_descriptors_bytes(logical_len: usize, chunk_size: usize, crcs: Seq<u32>) -> Seq<u8>
    decreases crcs.len(),
{
    if crcs.len() == 0 {
        Seq::empty()
    } else {
        let last = crcs.len() - 1;
        chunk_descriptors_bytes(logical_len, chunk_size, crcs.drop_last())
            + chunk_descriptor_bytes(last as u32, chunk_len(logical_len as int, chunk_size as int, last) as u64, crcs.last())
    }
}

/// The checksummed first 28 bytes of a chunked checkpoint's root.
pub open spec fn checkpoint_root_header_body(revision: u64, logical_len: usize, count: u16, descriptors: Seq<u8>) -> Seq<u8> {
    checkpoint_magic() + spec_u16_to_le_bytes(2u16) + spec_u16_to_le_bytes(count)
        + spec_u64_to_le_bytes(logical_len as u64) + spec_u64_to_le_bytes(revision)
        + spec_u32_to_le_bytes(spec_crc32c(descriptors))
}

/// The root of a chunked checkpoint of `revision` whose `logical_len`-byte
/// stream was cut into chunks of `chunk_size` bytes with checksums `crcs`.
pub open spec fn checkpoint_root_bytes(revision: u64, logical_len: usize, chunk_size: usize, crcs: Seq<u32>) -> Seq<u8> {
    let descriptors = chunk_descriptors_bytes(logical_len, chunk_size, crcs);
    let body = checkpoint_root_header_body(revision, logical_len, crcs.len() as u16, descriptors);
    body + spec_u32_to_le_bytes(spec_crc32c(body)) + descriptors
}

/// The descriptors that a root's descriptor records hold.
pub open spec fn parse_chunk_descriptors(records: Seq<u8>, count: nat) -> Seq<ChunkDescriptor> {
    Seq::new(count, |i: int| ChunkDescriptor {
        ordinal: le32_at(records, 16 * i),
        len: le64_at(records, 16 * i + 4),
        crc32c: le32_at(records, 16 * i + 12),
    })
}

/// What a published checkpoint file holds: a single-file checkpoint, or the
/// root of a chunked one.
pub enum CheckpointLayout {
    Single { revision: u64, payload: Seq<u8> },
    Chunked { revision: u64, logical_len: usize, descriptors: Seq<ChunkDescriptor> },
}

/// What reading `root` as the published checkpoint file whose manifest
/// records the checksum `published_crc32c` gives, or why it is refused.
pub open spec fn checkpoint_root_decoding(root: Seq<u8>, published_crc32c: u32) -> Result<CheckpointLayout, DurabilityError> {
    if spec_crc32c(root) != published_crc32c {
        Err(DurabilityError::Corruption { offset: 0, reason: "published checkpoint file checksum mismatch" })
    } else if root.len() < 32 {
        Err(DurabilityError::Corruption { offset: 0, reason: "checkpoint header truncated" })
    } else if le16_at(root, 4) == 1 {
        match checkpoint_file_decoding(root) {
            Ok((revision, payload)) => Ok(CheckpointLayout::Single { revision, payload }),
            Err(e) => Err(e),
        }
    } else if le16_at(root, 4) != 2 {
        Err(DurabilityError::UnsupportedDurableFormat { component: DurableFormatComponent::CheckpointFile, version: le16_at(root, 4) })
    } else if root.subrange(0, 4) != checkpoint_magic() || spec_crc32c(root.subrange(0, 28)) != le32_at(root, 28) {
        Err(DurabilityError::Corruption { offset: 0, reason: "checkpoint root header mismatch" })
    } else if root.len() != 32 + 16 * le16_at(root, 6) {
        Err(DurabilityError::Corruption { offset: 0, reason: "checkpoint root descriptor length mismatch" })
    } else if spec_crc32c(root.subrange(32, root.len() as int)) != le32_at(root, 24) {
        Err(DurabilityError::Corruption { offset: 0, reason: "checkpoint root descriptor checksum mismatch" })
    } else if le64_at(root, 8) > usize::MAX {
        Err(DurabilityError::PayloadTooLarge)
    } else {
        Ok(CheckpointLayout::Chunked {
            revision: le64_at(root, 16),
            logical_len: le64_at(root, 8) as usize,
            descriptors: parse_chunk_descriptors(root.subrange(32, root.len() as int), le16_at(root, 6) as nat),
        })
    }
}

/// The descriptors a root is written with, as plain values.
pub open spec fn written_descriptors(logical_len: usize, chunk_size: usize, crcs: Seq<u32>) -> Seq<ChunkDescriptor> {
    Seq::new(crcs.len(), |i: int| ChunkDescriptor {
        ordinal: i as u32,
        len: chunk_len(logical_len as int, chunk_size as int, i) as u64,
        crc32c: crcs[i],
    })
}

proof fn lemma_descriptor_records(logical_len: usize, chunk_size: usize, crcs: Seq<u32>)
    ensures
        chunk_descriptors_bytes(logical_len, chunk_size, crcs).len() == 16 * crcs.len(),
        parse_chunk_descriptors(chunk_descriptors_bytes(logical_len, chunk_size, crcs), crcs.len())
            == written_descriptors(logical_len, chunk_size, crcs),
    decreases crcs.len(),
{
    vstd::bytes::lemma_auto_spec_u32_to_from_le_bytes();
    vstd::bytes::lemma_auto_spec_u64_to_from_le_bytes();
    if crcs.len() > 0 {
        let n = crcs.len() as int;
        let init = crcs.drop_last();
        lemma_descriptor_records(logical_len, chunk_size, init);
        let d0 = chunk_descriptors_bytes(logical_len, chunk_size, init);
        let len = chunk_len(logical_len as int, chunk_size as int, n - 1);
        let record = chunk_descriptor_bytes((n - 1) as u32, len as u64, crcs.last());
        let d = chunk_descriptors_bytes(logical_len, chunk_size, crcs);
        assert(d == d0 + record);
        assert(len <= chunk_size);
        assert forall|i: int| 0 <= i < n implies #[trigger] parse_chunk_descriptors(d, crcs.len())[i]
            == written_descriptors(logical_len, chunk_size, crcs)[i] by {
            if i < n - 1 {
                assert(d.subrange(16 * i, 16 * i + 4) =~= d0.subrange(16 * i, 16 * i + 4));
                assert(d.subrange(16 * i + 4, 16 * i + 12) =~= d0.subrange(16 * i + 4, 16 * i + 12));
                assert(d.subrange(16 * i + 12, 16 * i + 16) =~= d0.subrange(16 * i + 12, 16 * i + 16));
                assert(parse_chunk_descriptors(d0, init.len())[i] == written_descriptors(logical_len, chunk_size, init)[i]);
            } else {
                assert(d.subrange(16 * i, 16 * i + 4) =~= spec_u32_to_le_bytes((n - 1) as u32));
                assert(d.subrange(16 * i + 4, 16 * i + 12) =~= spec_u64_to_le_bytes(len as u64));
                assert(d.subrange(16 * i + 12, 16 * i + 16) =~= spec_u32_to_le_bytes(crcs.last()));
            }
        }
        assert(parse_chunk_descriptors(d, crcs.len()) =~= written_descriptors(logical_len, chunk_size, crcs));
    } else {
        assert(parse_chunk_descriptors(chunk_descriptors_bytes(logical_len, chunk_size, crcs), crcs.len())
            =~= written_descriptors(logical_len, chunk_size, crcs));
    }
}

/// The root of a chunked checkpoint, read against its own checksum, gives
/// back the revision, the stream length and one descriptor per chunk: its
/// ordinal, its share of the stream and its checksum.
pub proof fn lemma_checkpoint_root_round_trip(revision: u64, logical_len: usize, chunk_size: usize, crcs: Seq<u32>)
    requires
        crcs.len() <= 65535,
    ensures
        checkpoint_root_decoding(
            checkpoint_root_bytes(revision, logical_len, chunk_size, crcs),
            spec_crc32c(checkpoint_root_bytes(revision, logical_len, chunk_size, crcs)),
        ) == Ok::<CheckpointLayout, DurabilityError>(CheckpointLayout::Chunked {
            revision,
            logical_len,
            descriptors: written_descriptors(logical_len, chunk_size, crcs),
        }),
{
    vstd::bytes::lemma_auto_spec_u16_to_from_le_bytes();
    vstd::bytes::lemma_auto_spec_u32_to_from_le_bytes();
    vstd::bytes::lemma_auto_spec_u64_to_from_le_bytes();
    lemma_descriptor_records(logical_len, chunk_size, crcs);
    let d = chunk_descriptors_bytes(logical_len, chunk_size, crcs);
    let body = checkpoint_root_header_body(revision, logical_len, crcs.len() as u16, d);
    let b = checkpoint_root_bytes(revision, logical_len, chunk_size, crcs);
    assert(body.len() == 28);
    assert(b.subrange(0, 4) =~= checkpoint_magic());
    assert(b.subrange(4, 6) =~= spec_u16_to_le_bytes(2u16));
    assert(b.subrange(6, 8) =~= spec_u16_to_le_bytes(crcs.len() as u16));
    assert(b.subrange(8, 16) =~= spec_u64_to_le_bytes(logical_len as u64));
    assert(b.subrange(16, 24) =~= spec_u64_to_le_bytes(revision));
    assert(b.subrange(24, 28) =~= spec_u32_to_le_bytes(spec_crc32c(d)));
    assert(b.subrange(0, 28) =~= body);
    assert(b.subrange(28, 32) =~= spec_u32_to_le_bytes(spec_crc32c(body)));
    assert(b.subrange(32, b.len() as int) =~= d);
}

/// Where each part of a chunked checkpoint's root lies: the magic "CFCP" in
/// bytes 0..4, format version 2 and the chunk count as little-endian `u16`s in
/// 4..6 and 6..8, the stream length and the revision as little-endian `u64`s in
/// 8..16 and 16..24, the CRC-32C of the descriptor records in 24..28 and that of
/// bytes 0..28 in 28..32; then one sixteen-byte record per chunk from byte 32,
/// holding the chunk's ordinal as a `u32`, its share of the stream (what is left
/// of the stream after the earlier chunks, at most `chunk_size` bytes) as a
/// `u64` and its checksum as a `u32`.
#[verifier::spinoff_prover]
pub proof fn lemma_checkpoint_root_layout(revision: u64, logical_len: usize, chunk_size: usize, crcs: Seq<u32>)
    requires
        crcs.len() <= 65535,
    ensures
        ({
            let b = checkpoint_root_bytes(revision, logical_len, chunk_size, crcs);
            &&& b.len() == 32 + 16 * crcs.len()
            &&& b.subrange(0, 4) == seq![0x43u8, 0x46u8, 0x43u8, 0x50u8]
            &&& spec_u16_from_le_bytes(b.subrange(4, 6)) == 2u16
            &&& spec_u16_from_le_bytes(b.subrange(6, 8)) == crcs.len()
            &&& spec_u64_from_le_bytes(b.subrange(8, 16)) == logical_len
            &&& spec_u64_from_le_bytes(b.subrange(16, 24)) == revision
            &&& spec_u32_from_le_bytes(b.subrange(24, 28)) == spec_crc32c(b.subrange(32, b.len() as int))
            &&& spec_u32_from_le_bytes(b.subrange(28, 32)) == spec_crc32c(b.subrange(0, 28))
            &&& forall|i: int| 0 <= i < crcs.len() ==> {
                &&& spec_u32_from_le_bytes(#[trigger] b.subrange(32 + 16 * i, 36 + 16 * i)) == i
                &&& spec_u64_from_le_bytes(b.subrange(36 + 16 * i, 44 + 16 * i)) == (
                    if i * chunk_size >= logical_len {
                        0
                    } else if logical_len - i * chunk_size < chunk_size {
                        logical_len - i * chunk_size
                    } else {
                        chunk_size as int
                    })
                &&& spec_u32_from_le_bytes(b.subrange(44 + 16 * i, 48 + 16 * i)) == crcs[i]
            }
        }),
{
    vstd::bytes::lemma_auto_spec_u16_to_from_le_bytes();
    vstd::bytes::lemma_auto_spec_u32_to_from_le_bytes();
    vstd::bytes::lemma_auto_spec_u64_to_from_le_bytes();
    lemma_descriptor_records(logical_len, chunk_size, crcs);
    let d = chunk_descriptors_bytes(logical_len, chunk_size, crcs);
    let body = checkpoint_root_header_body(revision, logical_len, crcs.len() as u16, d);
    let b = checkpoint_root_bytes(revision, logical_len, chunk_size, crcs);
    assert(b.subrange(0, 4) =~= seq![0x43u8, 0x46u8, 0x43u8, 0x50u8]);
    assert(b.subrange(4, 6) =~= spec_u16_to_le_bytes(2u16));
    assert(b.subrange(6, 8) =~= spec_u16_to_le_bytes(crcs.len() as u16));
    assert(b.subrange(8, 16) =~= spec_u64_to_le_bytes(logical_len as u64));
    assert(b.subrange(16, 24) =~= spec_u64_to_le_bytes(revision));
    assert(b.subrange(24, 28) =~= spec_u32_to_le_bytes(spec_crc32c(d)));
    assert(b.subrange(0, 28) =~= body);
    assert(b.subrange(28, 32) =~= spec_u32_to_le_bytes(spec_crc32c(body)));
    assert(b.subrange(32, b.len() as int) =~= d);
    assert forall|i: int| 0 <= i < crcs.len() implies {
        &&& spec_u32_from_le_bytes(#[trigger] b.subrange(32 + 16 * i, 36 + 16 * i)) == i
        &&& spec_u64_from_le_bytes(b.subrange(36 + 16 * i, 44 + 16 * i)) == (
            if i * chunk_size >= logical_len {
                0
            } else if logical_len - i * chunk_size < chunk_size {
                logical_len - i * chunk_size
            } else {
                chunk_size as int
            })
        &&& spec_u32_from_le_bytes(b.subrange(44 + 16 * i, 48 + 16 * i)) == crcs[i]
    } by {
        let w = written_descriptors(logical_len, chunk_size, crcs)[i];
        assert(parse_chunk_descriptors(d, crcs.len())[i] == w);
        assert(b.subrange(32 + 16 * i, 36 + 16 * i) =~= d.subrange(16 * i, 16 * i + 4));
        assert(b.subrange(36 + 16 * i, 44 + 16 * i) =~= d.subrange(16 * i + 4, 16 * i + 12));
        assert(b.subrange(44 + 16 * i, 48 + 16 * i) =~= d.subrange(16 * i + 12, 16 * i + 16));
        let len = chunk_len(logical_len as int, chunk_size as int, i);
        assert(0 <= len <= chunk_size);
        assert(len <= logical_len);
        assert(0 <= i * chunk_size) by (nonlinear_arith)
            requires 0 <= i, 0 <= chunk_size;
    }
}

/// The stream bytes that descriptors `ds` account for together.
pub open spec fn descriptor_len_total(ds: Seq<ChunkDescriptor>) -> int
    decreases ds.len(),
{
    if ds.len() == 0 {
        0
    } else {
        descriptor_len_total(ds.drop_last()) + ds.last().len
    }
}

/// The bytes of a `logical_len`-byte stream that the first `n` chunks of
/// `chunk_size` bytes can hold.
pub open spec fn covered_len(logical_len: int, chunk_size: int, n: int) -> int {
    if n * chunk_size >= logical_len { logical_len } else { n * chunk_size }
}

#[verifier::spinoff_prover]
proof fn lemma_share_step(logical_len: usize, chunk_size: usize, n: nat)
    ensures
        covered_len(logical_len as int, chunk_size as int, n as int) + chunk_len(logical_len as int, chunk_size as int, n as int)
            == covered_len(logical_len as int, chunk_size as int, n + 1 as int),
{
    let prev = n * chunk_size;
    assert((n + 1) * chunk_size == n * chunk_size + chunk_size) by (nonlinear_arith);
    assert(0 <= n * chunk_size) by (nonlinear_arith)
        requires 0 <= n, 0 <= chunk_size;
    if prev >= logical_len {
        assert(sat_mul(n as int, chunk_size as int) >= logical_len);
    } else {
        assert(sat_mul(n as int, chunk_size as int) == prev);
    }
}

/// The chunks a root describes share out its stream without gap or overlap:
/// `n` chunks of `chunk_size` bytes account for the whole `logical_len`-byte
/// stream when they can hold it, and for `n * chunk_size` of its bytes when
/// they cannot.
#[verifier::spinoff_prover]
pub proof fn lemma_chunk_shares_cover_stream(logical_len: usize, chunk_size: usize, crcs: Seq<u32>)
    ensures
        descriptor_len_total(written_descriptors(logical_len, chunk_size, crcs))
            == covered_len(logical_len as int, chunk_size as int, crcs.len() as int),
    decreases crcs.len(),
{
    let ds = written_descriptors(logical_len, chunk_size, crcs);
    if crcs.len() > 0 {
        let n = (crcs.len() - 1) as nat;
        let init = crcs.drop_last();
        lemma_chunk_shares_cover_stream(logical_len, chunk_size, init);
        assert(ds.drop_last() =~= written_descriptors(logical_len, chunk_size, init));
        lemma_share_step(logical_len, chunk_size, n);
        assert(0 <= chunk_len(logical_len as int, chunk_size as int, n as int) <= chunk_size);
        assert(ds.last().len == chunk_len(logical_len as int, chunk_size as int, n as int));
    } else {
        assert(covered_len(logical_len as int, chunk_size as int, 0) == 0);
    }
}

/// What reading a published checkpoint file takes from where: a file of
/// format version 1 in bytes 4..6 reads as a single-file checkpoint, whose
/// revision is the little-endian `u64` in 16..24 and whose payload is the bytes
/// after byte 32; an accepted chunked root has the revision in 16..24, the
/// stream length in 8..16, as many descriptors as the `u16` in 6..8 counts,
/// one sixteen-byte record each from byte 32, and each descriptor's ordinal,
/// length and checksum from the `u32`, `u64` and `u32` of its record.
#[verifier::spinoff_prover]
pub proof fn lemma_checkpoint_root_decoding_fields(root: Seq<u8>, published_crc32c: u32)
    ensures
        checkpoint_root_decoding(root, published_crc32c) matches Ok(CheckpointLayout::Single { revision, payload }) ==> {
            &&& spec_u16_from_le_bytes(root.subrange(4, 6)) == 1u16
            &&& revision == spec_u64_from_le_bytes(root.subrange(16, 24))
            &&& payload == root.subrange(32, root.len() as int)
        },
        checkpoint_root_decoding(root, published_crc32c) matches Ok(CheckpointLayout::Chunked { revision, logical_len, descriptors }) ==> {
            &&& spec_u16_from_le_bytes(root.subrange(4, 6)) == 2u16
            &&& revision == spec_u64_from_le_bytes(root.subrange(16, 24))
            &&& logical_len == spec_u64_from_le_bytes(root.subrange(8, 16))
            &&& descriptors.len() == spec_u16_from_le_bytes(root.subrange(6, 8))
            &&& root.len() == 32 + 16 * descriptors.len()
            &&& forall|i: int| 0 <= i < descriptors.len() ==> {
                &&& (#[trigger] descriptors[i]).ordinal == spec_u32_from_le_bytes(root.subrange(32 + 16 * i, 36 + 16 * i))
                &&& descriptors[i].len == spec_u64_from_le_bytes(root.subrange(36 + 16 * i, 44 + 16 * i))
                &&& descriptors[i].crc32c == spec_u32_from_le_bytes(root.subrange(44 + 16 * i, 48 + 16 * i))
            }
        },
{
    if checkpoint_root_decoding(root, published_crc32c) is Ok && le16_at(root, 4) == 2 {
        let records = root.subrange(32, root.len() as int);
        let descriptors = parse_chunk_descriptors(records, le16_at(root, 6) as nat);
        assert forall|i: int| 0 <= i < descriptors.len() implies {
            &&& (#[trigger] descriptors[i]).ordinal == spec_u32_from_le_bytes(root.subrange(32 + 16 * i, 36 + 16 * i))
            &&& descriptors[i].len == spec_u64_from_le_bytes(root.subrange(36 + 16 * i, 44 + 16 * i))
            &&& descriptors[i].crc32c == spec_u32_from_le_bytes(root.subrange(44 + 16 * i, 48 + 16 * i))
        } by {
            assert(records.subrange(16 * i, 16 * i + 4) =~= root.subrange(32 + 16 * i, 36 + 16 * i));
            assert(records.subrange(16 * i + 4, 16 * i + 12) =~= root.subrange(36 + 16 * i, 44 + 16 * i));
            assert(records.subrange(16 * i + 12, 16 * i + 16) =~= root.subrange(44 + 16 * i, 48 + 16 * i));
        }
    }
}

/// The root of a chunked checkpoint, read back.
#[derive(Debug, Clone, PartialEq, Eq)]
pub struct CheckpointRoot {
    pub revision: u64,
    pub logical_len: usize,
    pub descriptors: Vec<ChunkDescriptor>,
}

/// A published checkpoint file, read back.
#[derive(Debug, Clone, PartialEq, Eq)]
pub enum PublishedCheckpoint {
    Single(CheckpointFrame),
    Chunked(CheckpointRoot),
}

/// A decoded published checkpoint as plain values.
pub open spec fn layout_view(result: Result<PublishedCheckpoint, DurabilityError>) -> Result<CheckpointLayout, DurabilityError> {
    match result {
        Ok(PublishedCheckpoint::Single(frame)) => Ok(CheckpointLayout::Single { revision: frame.revision, payload: frame.payload@ }),
        Ok(PublishedCheckpoint::Chunked(root)) => Ok(CheckpointLayout::Chunked {
            revision: root.revision,
            logical_len: root.logical_len,
            descriptors: root.descriptors@,
        }),
        Err(e) => Err(e),
    }
}

/// The root file of a chunked checkpoint of `revision` whose
/// `logical_len`-byte stream was cut into chunks of `chunk_size` bytes with
/// checksums `chunk_crcs`; more chunks than a root can count are refused.
pub fn encode_checkpoint_root(revision: u64, logical_len: usize, chunk_crcs: &[u32], chunk_size: usize) -> (result: Result<Vec<u8>, DurabilityError>)
    ensures
        chunk_crcs@.len() > 65535 ==> result == Err::<Vec<u8>, DurabilityError>(DurabilityError::PayloadTooLarge),
        chunk_crcs@.len() <= 65535 ==> (result matches Ok(bytes) && bytes@ == checkpoint_root_bytes(revision, logical_len, chunk_size, chunk_crcs@)),
{
    if chunk_crcs.len() > 65535 {
        return Err(DurabilityError::PayloadTooLarge);
    }
    let mut descriptors: Vec<u8> = Vec::new();
    let mut ordinal: usize = 0;
    while ordinal < chunk_crcs.len()
        invariant
            ordinal <= chunk_crcs@.len() <= 65535,
            descriptors@ == chunk_descriptors_bytes(logical_len, chunk_size, chunk_crcs@.take(ordinal as int)),
        decreases chunk_crcs@.len() - ordinal,
    {
        let start = saturating_mul(ordinal, chunk_size);
        let rest = logical_len.saturating_sub(start);
        let len = if rest < chunk_size { rest } else { chunk_size };
        assert(len == chunk_len(logical_len as int, chunk_size as int, ordinal as int));
        let ghost before = descriptors@;
        append_bytes(&mut descriptors, &u32_to_le_bytes(ordinal as u32));
        append_bytes(&mut descriptors, &u64_to_le_bytes(len as u64));
        append_bytes(&mut descriptors, &u32_to_le_bytes(chunk_crcs[ordinal]));
        proof {
            let next = chunk_crcs@.take(ordinal + 1);
            assert(next.drop_last() =~= chunk_crcs@.take(ordinal as int));
            assert(next.last() == chunk_crcs@[ordinal as int]);
            assert(descriptors@ =~= before + chunk_descriptor_bytes(ordinal as u32, len as u64, chunk_crcs@[ordinal as int]));
        }
        ordinal = ordinal + 1;
    }
    assert(chunk_crcs@.take(ordinal as int) =~= chunk_crcs@);
    let mut bytes: Vec<u8> = Vec::new();
    bytes.push(0x43);
    bytes.push(0x46);
    bytes.push(0x43);
    bytes.push(0x50);
    assert(bytes@ =~= checkpoint_magic());
    append_bytes(&mut bytes, &u16_to_le_bytes(CHECKPOINT_FORMAT_VERSION));
    append_bytes(&mut bytes, &u16_to_le_bytes(chunk_crcs.len() as u16));
    append_bytes(&mut bytes, &u64_to_le_bytes(logical_len as u64));
    append_bytes(&mut bytes, &u64_to_le_bytes(revision));
    append_bytes(&mut bytes, &u32_to_le_bytes(crc32c(descriptors.as_slice())));
    assert(bytes@ =~= checkpoint_root_header_body(revision, logical_len, chunk_crcs@.len() as u16, descriptors@));
    let header_crc = crc32c(bytes.as_slice());
    append_bytes(&mut bytes, &u32_to_le_bytes(header_crc));
    append_bytes(&mut bytes, &descriptors);
    assert(bytes@ =~= checkpoint_root_bytes(revision, logical_len, chunk_size, chunk_crcs@));
    Ok(bytes)
}

/// Reads the descriptor records that follow a root's header.
fn read_chunk_descriptors(root: &[u8], count: usize) -> (descriptors: Vec<ChunkDescriptor>)
    requires
        root@.len() == 32 + 16 * count,
    ensures
        descriptors@ == parse_chunk_descriptors(root@.subrange(32, root@.len() as int), count as nat),
{
    let ghost records = root@.subrange(32, root@.len() as int);
    let n = root.len();
    let mut descriptors: Vec<ChunkDescriptor> = Vec::new();
    let mut i: usize = 0;
    while i < count
        invariant
            i <= count,
            n == root@.len(),
            root@.len() == 32 + 16 * count,
            records == root@.subrange(32, root@.len() as int),
            descriptors@ == parse_chunk_descriptors(records, count as nat).take(i as int),
        decreases count - i,
    {
        let off = 32 + 16 * i;
        let descriptor = ChunkDescriptor {
            ordinal: u32_from_le_bytes(&root[off..off + 4]),
            len: u64_from_le_bytes(&root[off + 4..off + 12]),
            crc32c: u32_from_le_bytes(&root[off + 12..off + 16]),
        };
        proof {
            assert(root@.subrange(off as int, off + 4) =~= records.subrange(16 * i, 16 * i + 4));
            assert(root@.subrange(off + 4, off + 12) =~= records.subrange(16 * i + 4, 16 * i + 12));
            assert(root@.subrange(off + 12, off + 16) =~= records.subrange(16 * i + 12, 16 * i + 16));
        }
        descriptors.push(descriptor);
        i = i + 1;
        assert(descriptors@ =~= parse_chunk_descriptors(records, count as nat).take(i as int));
    }
    assert(parse_chunk_descriptors(records, count as nat).take(i as int) =~= parse_chunk_descriptors(records, count as nat));
    descriptors
}

/// Reads the published checkpoint file: checks it against the checksum the
/// manifest records, hands a single-file checkpoint to its own reader, and
/// reads a chunked checkpoint's root, refusing a wrong header, descriptor
/// length or descriptor checksum.
pub fn decode_checkpoint_root(root: &[u8], published_crc32c: u32) -> (result: Result<PublishedCheckpoint, DurabilityError>)
    ensures
        layout_view(result) == checkpoint_root_decoding(root@, published_crc32c),
{
    if crc32c(root) != published_crc32c {
        return Err(DurabilityError::Corruption { offset: 0, reason: "published checkpoint file checksum mismatch" });
    }
    if root.len() < CHECKPOINT_HEADER_LEN {
        return Err(DurabilityError::Corruption { offset: 0, reason: "checkpoint header truncated" });
    }
    let version = u16_from_le_bytes(&root[4..6]);
    if version == LEGACY_CHECKPOINT_FORMAT_VERSION {
        return match decode_checkpoint_file(root) {
            Ok(frame) => Ok(PublishedCheckpoint::Single(frame)),
            Err(e) => Err(e),
        };
    }
    DurableFormatRegistry::require_supported(
        DurableFormatComponent::CheckpointFile,
        version,
        &[CHECKPOINT_FORMAT_VERSION],
    )?;
    let magic = magic_at(root, 0, &[0x43, 0x46, 0x43, 0x50]);
    proof {
        assert(seq![0x43u8, 0x46u8, 0x43u8, 0x50u8] =~= checkpoint_magic());
    }
    if !magic || crc32c(&root[0..28]) != u32_from_le_bytes(&root[28..32]) {
        return Err(DurabilityError::Corruption { offset: 0, reason: "checkpoint root header mismatch" });
    }
    let chunk_count = u16_from_le_bytes(&root[6..8]) as usize;
    let descriptor_len = chunk_count * CHECKPOINT_CHUNK_DESCRIPTOR_LEN;
    if root.len() != CHECKPOINT_HEADER_LEN + descriptor_len {
        return Err(DurabilityError::Corruption { offset: 0, reason: "checkpoint root descriptor length mismatch" });
    }
    if crc32c(&root[CHECKPOINT_HEADER_LEN..root.len()]) != u32_from_le_bytes(&root[24..28]) {
        return Err(DurabilityError::Corruption { offset: 0, reason: "checkpoint root descriptor checksum mismatch" });
    }
    let logical_len = u64_from_le_bytes(&root[8..16]);
    if logical_len as u128 > usize::MAX as u128 {
        return Err(DurabilityError::PayloadTooLarge);
    }
    let descriptors = read_chunk_descriptors(root, chunk_count);
    Ok(PublishedCheckpoint::Chunked(CheckpointRoot {
        revision: u64_from_le_bytes(&root[16..24]),
        logical_len: logical_len as usize,
        descriptors,
    }))
}

impl CheckpointRoot {
    /// What the root expects of chunk `ordinal`: its length and checksum,
    /// once its descriptor is checked to carry that ordinal.
    pub fn expect_chunk(&self, ordinal: u16) -> (result: Result<(usize, u32), DurabilityError>)
        requires
            (ordinal as int) < self.descriptors@.len(),
        ensures
            ({
                let d = self.descriptors@[ordinal as int];
                &&& d.ordinal != ordinal ==> result == Err::<(usize, u32), DurabilityError>(
                    DurabilityError::Corruption { offset: (16 * ordinal) as usize, reason: "checkpoint chunk ordinal mismatch" },
                )
                &&& d.ordinal == ordinal && d.len > usize::MAX ==> result == Err::<(usize, u32), DurabilityError>(DurabilityError::PayloadTooLarge)
                &&& d.ordinal == ordinal && d.len <= usize::MAX ==> result == Ok::<(usize, u32), DurabilityError>((d.len as usize, d.crc32c))
            }),
    {
        let d = self.descriptors[ordinal as usize];
        if d.ordinal != ordinal as u32 {
            return Err(DurabilityError::Corruption {
                offset: ordinal as usize * CHECKPOINT_CHUNK_DESCRIPTOR_LEN,
                reason: "checkpoint chunk ordinal mismatch",
            });
        }
        if d.len as u128 > usize::MAX as u128 {
            return Err(DurabilityError::PayloadTooLarge);
        }
        Ok((d.len as usize, d.crc32c))
    }

    /// Accepts the whole stream only when it is as long as the root records.
    pub fn finish_stream(&self, logical: &[u8]) -> (result: Result<(), DurabilityError>)
        ensures
            logical@.len() == self.logical_len ==> result is Ok,
            logical@.len() != self.logical_len ==> result == Err::<(), DurabilityError>(
                DurabilityError::Corruption { offset: 0, reason: "checkpoint logical stream length mismatch" },
            ),
    {
        if logical.len() != self.logical_len {
            return Err(DurabilityError::Corruption { offset: 0, reason: "checkpoint logical stream length mismatch" });
        }
        Ok(())
    }
}

/// Appends chunk `ordinal` to the stream `logical` when it has the length and
/// checksum its descriptor records; otherwise refuses it and leaves the
/// stream as it was.
pub fn accept_checkpoint_chunk(ordinal: u16, expected: (usize, u32), chunk: &[u8], logical: &mut Vec<u8>) -> (result: Result<(), DurabilityError>)
    ensures
        chunk@.len() == expected.0 && spec_crc32c(chunk@) == expected.1 ==> {
            &&& result is Ok
            &&& final(logical)@ == old(logical)@ + chunk@
        },
        !(chunk@.len() == expected.0 && spec_crc32c(chunk@) == expected.1) ==> {
            &&& result == Err::<(), DurabilityError>(
                DurabilityError::Corruption { offset: ordinal as usize, reason: "checkpoint chunk integrity mismatch" },
            )
            &&& final(logical)@ == old(logical)@
        },
{
    if chunk.len() != expected.0 || crc32c(chunk) != expected.1 {
        return Err(DurabilityError::Corruption { offset: ordinal as usize, reason: "checkpoint chunk integrity mismatch" });
    }
    append_slice(logical, chunk);
    Ok(())
}

// ---------------------------------------------------------------------------
// Prepared-cut capsules: the prepared entries a checkpoint carries across its cut.

/// The magic bytes "CFPC" that open a prepared-cut capsule.
pub open spec fn capsule_magic() -> Seq<u8> {
    seq![0x43u8, 0x46u8, 0x50u8, 0x43u8]
}

/// One framed entry of a prepared-cut capsule: where the entry was prepared,
/// the checksum of its prepare payload, the revision it targets, and the
/// encoded descriptor that the prepare codec reads.
#[derive(Debug, Clone, PartialEq, Eq)]
pub struct PreparedCutFrame {
    pub prepare_lsn: u64,
    pub payload_crc32c: u32,
    pub target_revision: u64,
    pub encoded: Vec<u8>,
}

/// A framed entry as plain values: prepare position, payload checksum,
/// target revision and encoded descriptor.
pub type CapsuleEntry = (u64, u32, u64, Seq<u8>);

pub open spec fn entry_view(frame: PreparedCutFrame) -> CapsuleEntry {
    (frame.prepare_lsn, frame.payload_crc32c, frame.target_revision, frame.encoded@)
}

pub open spec fn entries_view(frames: Seq<PreparedCutFrame>) -> Seq<CapsuleEntry> {
    frames.map_values(|f: PreparedCutFrame| entry_view(f))
}

pub open spec fn capsule_entry_bytes(e: CapsuleEntry) -> Seq<u8> {
    spec_u64_to_le_bytes(e.0) + spec_u32_to_le_bytes(e.1) + spec_u64_to_le_bytes(e.2)
        + spec_u32_to_le_bytes(e.3.len() as u32) + e.3
}

/// The framed entries, one after another.
pub open spec fn capsule_payload_bytes(entries: Seq<CapsuleEntry>) -> Seq<u8>
    decreases entries.len(),
{
    if entries.len() == 0 {
        Seq::empty()
    } else {
        capsule_entry_bytes(entries[0]) + capsule_payload_bytes(entries.drop_first())
    }
}

/// A prepared-cut capsule holding `entries`.
pub open spec fn capsule_bytes(entries: Seq<CapsuleEntry>) -> Seq<u8> {
    let payload = capsule_payload_bytes(entries);
    capsule_magic() + spec_u16_to_le_bytes(1u16) + spec_u16_to_le_bytes(0u16)
        + spec_u32_to_le_bytes(entries.len() as u32) + spec_u32_to_le_bytes(spec_crc32c(payload)) + payload
}

/// Whether every entry's descriptor, and the count of entries, fit the
/// capsule's 32-bit length fields.
pub open spec fn capsule_fits(entries: Seq<CapsuleEntry>) -> bool {
    &&& entries.len() <= u32::MAX
    &&& forall|i: int| 0 <= i < entries.len() ==> (#[trigger] entries[i]).3.len() <= u32::MAX
}

/// `prefix` in front of what `rest` holds.
pub open spec fn prepend_entries(prefix: Seq<CapsuleEntry>, rest: Result<Seq<CapsuleEntry>, DurabilityError>) -> Result<Seq<CapsuleEntry>, DurabilityError> {
    match rest {
        Ok(tail) => Ok(prefix + tail),
        Err(e) => Err(e),
    }
}

/// What reading `remaining` more entries of `payload` from `cursor` gives,
/// the payload having to end where the last entry does.
pub open spec fn capsule_entries_decoding(payload: Seq<u8>, cursor: int, remaining: nat) -> Result<Seq<CapsuleEntry>, DurabilityError>
    decreases remaining,
{
    if remaining == 0 {
        if cursor != payload.len() {
            Err(DurabilityError::Corruption { offset: cursor as usize, reason: "prepared cut capsule has trailing bytes" })
        } else {
            Ok(Seq::empty())
        }
    } else if payload.len() - cursor < 24 {
        Err(DurabilityError::Corruption { offset: cursor as usize, reason: "prepared cut capsule entry truncated" })
    } else {
        let start = cursor + 24;
        let len = le32_at(payload, cursor + 20) as int;
        if start + len > usize::MAX {
            Err(DurabilityError::PayloadTooLarge)
        } else if start + len > payload.len() {
            Err(DurabilityError::Corruption { offset: start as usize, reason: "prepared cut capsule payload truncated" })
        } else {
            let entry = (
                le64_at(payload, cursor),
                le32_at(payload, cursor + 8),
                le64_at(payload, cursor + 12),
                payload.subrange(start, start + len),
            );
            prepend_entries(seq![entry], capsule_entries_decoding(payload, start + len, (remaining - 1) as nat))
        }
    }
}

/// What reading `bytes` as a prepared-cut capsule gives: its framed entries,
/// or why it is refused.
pub open spec fn capsule_decoding(bytes: Seq<u8>) -> Result<Seq<CapsuleEntry>, DurabilityError> {
    if bytes.len() < 16 || bytes.subrange(0, 4) != capsule_magic() {
        Err(DurabilityError::Corruption { offset: 0, reason: "prepared cut capsule header mismatch" })
    } else if le16_at(bytes, 4) != 1 || le16_at(bytes, 6) != 0 {
        Err(DurabilityError::Corruption { offset: 0, reason: "unsupported prepared cut capsule format" })
    } else if spec_crc32c(bytes.subrange(16, bytes.len() as int)) != le32_at(bytes, 12) {
        Err(DurabilityError::Corruption { offset: 0, reason: "prepared cut capsule checksum mismatch" })
    } else {
        capsule_entries_decoding(bytes.subrange(16, bytes.len() as int), 0, le32_at(bytes, 8) as nat)
    }
}

/// Decoded capsule entries as plain values.
pub open spec fn frames_view(result: Result<Vec<PreparedCutFrame>, DurabilityError>) -> Result<Seq<CapsuleEntry>, DurabilityError> {
    match result {
        Ok(frames) => Ok(entries_view(frames@)),
        Err(e) => Err(e),
    }
}

proof fn lemma_payload_push(entries: Seq<CapsuleEntry>, e: CapsuleEntry)
    ensures
        capsule_payload_bytes(entries.push(e)) == capsule_payload_bytes(entries) + capsule_entry_bytes(e),
    decreases entries.len(),
{
    if entries.len() == 0 {
        assert(entries.push(e).drop_first() =~= Seq::<CapsuleEntry>::empty());
        assert(capsule_payload_bytes(entries.push(e).drop_first()) == Seq::<u8>::empty());
        assert(entries.push(e)[0] == e);
        assert(capsule_payload_bytes(entries.push(e)) =~= capsule_entry_bytes(e));
        assert(capsule_payload_bytes(entries) == Seq::<u8>::empty());
    } else {
        lemma_payload_push(entries.drop_first(), e);
        assert(entries.push(e).drop_first() =~= entries.drop_first().push(e));
        assert(capsule_payload_bytes(entries.push(e)) =~= capsule_payload_bytes(entries) + capsule_entry_bytes(e));
    }
}

/// The bytes of a prepared-cut capsule holding `frames`; a descriptor, or a
/// count of entries, too long for its 32-bit field is refused.
pub fn encode_prepared_cut_frames(frames: &[PreparedCutFrame]) -> (result: Result<Vec<u8>, DurabilityError>)
    ensures
        !capsule_fits(entries_view(frames@)) ==> result == Err::<Vec<u8>, DurabilityError>(DurabilityError::PayloadTooLarge),
        capsule_fits(entries_view(frames@)) ==> (result matches Ok(bytes) && bytes@ == capsule_bytes(entries_view(frames@))),
{
    let ghost entries = entries_view(frames@);
    let mut payload: Vec<u8> = Vec::new();
    let mut i: usize = 0;
    while i < frames.len()
        invariant
            i <= frames@.len(),
            entries == entries_view(frames@),
            payload@ == capsule_payload_bytes(entries.take(i as int)),
            forall|j: int| 0 <= j < i ==> (#[trigger] entries[j]).3.len() <= u32::MAX,
        decreases frames@.len() - i,
    {
        let frame = &frames[i];
        assert(entries[i as int] == entry_view(*frame));
        if frame.encoded.len() as u64 > 0xFFFF_FFFFu64 {
            return Err(DurabilityError::PayloadTooLarge);
        }
        let ghost before = payload@;
        append_bytes(&mut payload, &u64_to_le_bytes(frame.prepare_lsn));
        append_bytes(&mut payload, &u32_to_le_bytes(frame.payload_crc32c));
        append_bytes(&mut payload, &u64_to_le_bytes(frame.target_revision));
        append_bytes(&mut payload, &u32_to_le_bytes(frame.encoded.len() as u32));
        append_bytes(&mut payload, &frame.encoded);
        proof {
            assert(payload@ =~= before + capsule_entry_bytes(entries[i as int]));
            lemma_payload_push(entries.take(i as int), entries[i as int]);
            assert(entries.take(i as int).push(entries[i as int]) =~= entries.take(i + 1));
        }
        i = i + 1;
    }
    assert(entries.take(i as int) =~= entries);
    if frames.len() as u64 > 0xFFFF_FFFFu64 {
        return Err(DurabilityError::PayloadTooLarge);
    }
    let mut bytes: Vec<u8> = Vec::new();
    bytes.push(0x43);
    bytes.push(0x46);
    bytes.push(0x50);
    bytes.push(0x43);
    assert(bytes@ =~= capsule_magic());
    append_bytes(&mut bytes, &u16_to_le_bytes(PREPARED_CAPSULE_VERSION));
    append_bytes(&mut bytes, &u16_to_le_bytes(0));
    append_bytes(&mut bytes, &u32_to_le_bytes(frames.len() as u32));
    append_bytes(&mut bytes, &u32_to_le_bytes(crc32c(payload.as_slice())));
    append_bytes(&mut bytes, &payload);
    assert(bytes@ =~= capsule_bytes(entries));
    Ok(bytes)
}

/// Reads a prepared-cut capsule's framing, refusing a wrong header, format or
/// checksum, a truncated entry or descriptor, and trailing bytes.
pub fn decode_prepared_cut_frames(bytes: &[u8]) -> (result: Result<Vec<PreparedCutFrame>, DurabilityError>)
    ensures
        frames_view(result) == capsule_decoding(bytes@),
{
    if bytes.len() < PREPARED_CAPSULE_HEADER_LEN || !magic_at(bytes, 0, &[0x43, 0x46, 0x50, 0x43]) {
        proof {
            assert(seq![0x43u8, 0x46u8, 0x50u8, 0x43u8] =~= capsule_magic());
        }
        return Err(DurabilityError::Corruption { offset: 0, reason: "prepared cut capsule header mismatch" });
    }
    proof {
        assert(seq![0x43u8, 0x46u8, 0x50u8, 0x43u8] =~= capsule_magic());
    }
    if u16_from_le_bytes(&bytes[4..6]) != PREPARED_CAPSULE_VERSION || u16_from_le_bytes(&bytes[6..8]) != 0 {
        return Err(DurabilityError::Corruption { offset: 0, reason: "unsupported prepared cut capsule format" });
    }
    let count = u32_from_le_bytes(&bytes[8..12]) as usize;
    let payload = &bytes[PREPARED_CAPSULE_HEADER_LEN..bytes.len()];
    if crc32c(payload) != u32_from_le_bytes(&bytes[12..16]) {
        return Err(DurabilityError::Corruption { offset: 0, reason: "prepared cut capsule checksum mismatch" });
    }
    let ghost p = payload@;
    assert(p == bytes@.subrange(16, bytes@.len() as int));
    assert(capsule_decoding(bytes@) == capsule_entries_decoding(p, 0, count as nat));
    proof {
        assert(entries_view(Seq::<PreparedCutFrame>::empty()) =~= Seq::<CapsuleEntry>::empty());
        match capsule_entries_decoding(p, 0, count as nat) {
            Ok(tail) => {
                assert(Seq::<CapsuleEntry>::empty() + tail =~= tail);
            }
            Err(_) => {}
        }
    }
    let mut cursor: usize = 0;
    let mut frames: Vec<PreparedCutFrame> = Vec::new();
    let mut k: usize = 0;
    while k < count
        invariant
            k <= count,
            p == payload@,
            cursor <= p.len(),
            capsule_decoding(bytes@) == capsule_entries_decoding(p, 0, count as nat),
            capsule_entries_decoding(p, 0, count as nat) == prepend_entries(
                entries_view(frames@),
                capsule_entries_decoding(p, cursor as int, (count - k) as nat),
            ),
        decreases count - k,
    {
        if payload.len() - cursor < 24 {
            return Err(DurabilityError::Corruption { offset: cursor, reason: "prepared cut capsule entry truncated" });
        }
        let prepare_lsn = u64_from_le_bytes(&payload[cursor..cursor + 8]);
        let payload_crc32c = u32_from_le_bytes(&payload[cursor + 8..cursor + 12]);
        let target_revision = u64_from_le_bytes(&payload[cursor + 12..cursor + 20]);
        let len = u32_from_le_bytes(&payload[cursor + 20..cursor + 24]) as usize;
        let start = cursor + 24;
        if len > usize::MAX - start {
            return Err(DurabilityError::PayloadTooLarge);
        }
        let end = start + len;
        if end > payload.len() {
            return Err(DurabilityError::Corruption { offset: start, reason: "prepared cut capsule payload truncated" });
        }
        let frame = PreparedCutFrame { prepare_lsn, payload_crc32c, target_revision, encoded: copy_range(payload, start, end) };
        proof {
            let entry = entry_view(frame);
            let rest = capsule_entries_decoding(p, end as int, (count - k - 1) as nat);
            assert(capsule_entries_decoding(p, cursor as int, (count - k) as nat) == prepend_entries(seq![entry], rest));
            assert(entries_view(frames@.push(frame)) =~= entries_view(frames@).push(entry));
            match rest {
                Ok(tail) => {
                    assert(entries_view(frames@) + (seq![entry] + tail) =~= entries_view(frames@).push(entry) + tail);
                }
                Err(_) => {}
            }
        }
        frames.push(frame);
        cursor = end;
        k = k + 1;
    }
    if cursor != payload.len() {
        return Err(DurabilityError::Corruption { offset: cursor, reason: "prepared cut capsule has trailing bytes" });
    }
    proof {
        assert(entries_view(frames@) + Seq::<CapsuleEntry>::empty() =~= entries_view(frames@));
    }
    Ok(frames)
}

proof fn lemma_capsule_entries_round_trip(prefix: Seq<u8>, entries: Seq<CapsuleEntry>)
    requires
        capsule_fits(entries),
        prefix.len() + capsule_payload_bytes(entries).len() <= usize::MAX,
    ensures
        capsule_entries_decoding(prefix + capsule_payload_bytes(entries), prefix.len() as int, entries.len())
            == Ok::<Seq<CapsuleEntry>, DurabilityError>(entries),
    decreases entries.len(),
{
    vstd::bytes::lemma_auto_spec_u32_to_from_le_bytes();
    vstd::bytes::lemma_auto_spec_u64_to_from_le_bytes();
    let p = prefix + capsule_payload_bytes(entries);
    let c = prefix.len() as int;
    if entries.len() == 0 {
        assert(capsule_payload_bytes(entries) == Seq::<u8>::empty());
        assert(p.len() == c);
        assert(entries =~= Seq::<CapsuleEntry>::empty());
    } else {
        let e = entries[0];
        let rest = entries.drop_first();
        let eb = capsule_entry_bytes(e);
        assert(e.3.len() <= u32::MAX);
        assert(eb.len() == 24 + e.3.len());
        assert(p =~= prefix + eb + capsule_payload_bytes(rest));
        assert(p.subrange(c, c + 8) =~= spec_u64_to_le_bytes(e.0));
        assert(p.subrange(c + 8, c + 12) =~= spec_u32_to_le_bytes(e.1));
        assert(p.subrange(c + 12, c + 20) =~= spec_u64_to_le_bytes(e.2));
        assert(p.subrange(c + 20, c + 24) =~= spec_u32_to_le_bytes(e.3.len() as u32));
        let start = c + 24;
        let len = e.3.len() as int;
        assert(le32_at(p, c + 20) as int == len);
        assert(p.subrange(start, start + len) =~= e.3);
        assert forall|i: int| 0 <= i < rest.len() implies (#[trigger] rest[i]).3.len() <= u32::MAX by {
            assert(rest[i] == entries[i + 1]);
        }
        lemma_capsule_entries_round_trip(prefix + eb, rest);
        assert(prefix + eb + capsule_payload_bytes(rest) == p);
        assert(seq![(e.0, e.1, e.2, e.3)] + rest =~= entries);
    }
}

/// A prepared-cut capsule reads back as the entries it was written from.
pub proof fn lemma_capsule_round_trip(entries: Seq<CapsuleEntry>)
    requires
        capsule_fits(entries),
        capsule_bytes(entries).len() <= usize::MAX,
    ensures
        capsule_decoding(capsule_bytes(entries)) == Ok::<Seq<CapsuleEntry>, DurabilityError>(entries),
{
    vstd::bytes::lemma_auto_spec_u16_to_from_le_bytes();
    vstd::bytes::lemma_auto_spec_u32_to_from_le_bytes();
    let payload = capsule_payload_bytes(entries);
    let b = capsule_bytes(entries);
    assert(b.subrange(0, 4) =~= capsule_magic());
    assert(b.subrange(4, 6) =~= spec_u16_to_le_bytes(1u16));
    assert(b.subrange(6, 8) =~= spec_u16_to_le_bytes(0u16));
    assert(b.subrange(8, 12) =~= spec_u32_to_le_bytes(entries.len() as u32));
    assert(b.subrange(12, 16) =~= spec_u32_to_le_bytes(spec_crc32c(payload)));
    assert(b.subrange(16, b.len() as int) =~= payload);
    lemma_capsule_entries_round_trip(Seq::empty(), entries);
    assert(Seq::<u8>::empty() + payload =~= payload);
}

/// Where each part of a prepared-cut capsule lies: the magic "CFPC" in bytes
/// 0..4, format version 1 and zero flags as little-endian `u16`s in 4..6 and
/// 6..8, the number of entries and the CRC-32C of everything after byte 16 as
/// little-endian `u32`s in 8..12 and 12..16; then the entries from byte 16, the
/// first of them holding its prepare position as a `u64` in 16..24, its payload
/// checksum as a `u32` in 24..28, its target revision as a `u64` in 28..36, the
/// length of its descriptor as a `u32` in 36..40 and the descriptor after that.
#[verifier::spinoff_prover]
pub proof fn lemma_capsule_layout(entries: Seq<CapsuleEntry>)
    requires
        capsule_fits(entries),
    ensures
        ({
            let b = capsule_bytes(entries);
            &&& b.subrange(0, 4) == seq![0x43u8, 0x46u8, 0x50u8, 0x43u8]
            &&& spec_u16_from_le_bytes(b.subrange(4, 6)) == 1u16
            &&& spec_u16_from_le_bytes(b.subrange(6, 8)) == 0u16
            &&& spec_u32_from_le_bytes(b.subrange(8, 12)) == entries.len()
            &&& spec_u32_from_le_bytes(b.subrange(12, 16)) == spec_crc32c(b.subrange(16, b.len() as int))
            &&& entries.len() > 0 ==> {
                &&& spec_u64_from_le_bytes(b.subrange(16, 24)) == entries[0].0
                &&& spec_u32_from_le_bytes(b.subrange(24, 28)) == entries[0].1
                &&& spec_u64_from_le_bytes(b.subrange(28, 36)) == entries[0].2
                &&& spec_u32_from_le_bytes(b.subrange(36, 40)) == entries[0].3.len()
                &&& b.subrange(40, 40 + entries[0].3.len() as int) == entries[0].3
            }
        }),
{
    vstd::bytes::lemma_auto_spec_u16_to_from_le_bytes();
    vstd::bytes::lemma_auto_spec_u32_to_from_le_bytes();
    vstd::bytes::lemma_auto_spec_u64_to_from_le_bytes();
    let payload = capsule_payload_bytes(entries);
    let b = capsule_bytes(entries);
    assert(b.subrange(0, 4) =~= seq![0x43u8, 0x46u8, 0x50u8, 0x43u8]);
    assert(b.subrange(4, 6) =~= spec_u16_to_le_bytes(1u16));
    assert(b.subrange(6, 8) =~= spec_u16_to_le_bytes(0u16));
    assert(b.subrange(8, 12) =~= spec_u32_to_le_bytes(entries.len() as u32));
    assert(b.subrange(12, 16) =~= spec_u32_to_le_bytes(spec_crc32c(payload)));
    assert(b.subrange(16, b.len() as int) =~= payload);
    if entries.len() > 0 {
        let e = entries[0];
        assert(e.3.len() <= u32::MAX);
        assert(payload == capsule_entry_bytes(e) + capsule_payload_bytes(entries.drop_first()));
        assert(b.subrange(16, 24) =~= spec_u64_to_le_bytes(e.0));
        assert(b.subrange(24, 28) =~= spec_u32_to_le_bytes(e.1));
        assert(b.subrange(28, 36) =~= spec_u64_to_le_bytes(e.2));
        assert(b.subrange(36, 40) =~= spec_u32_to_le_bytes(e.3.len() as u32));
        assert(b.subrange(40, 40 + e.3.len() as int) =~= e.3);
    }
}

/// Reading entries from a capsule's payload gives exactly as many entries as
/// asked for, the first taken at `cursor`: its prepare position from the
/// little-endian `u64` at `cursor`, its payload checksum from the `u32` at
/// `cursor + 8`, its target revision from the `u64` at `cursor + 12`, and its
/// descriptor from the bytes after `cursor + 24`, as many as the `u32` at
/// `cursor + 20` says.
pub proof fn lemma_capsule_entries_decoding_fields(payload: Seq<u8>, cursor: int, remaining: nat)
    requires
        0 <= cursor,
    ensures
        capsule_entries_decoding(payload, cursor, remaining) matches Ok(es) ==> {
            &&& es.len() == remaining
            &&& remaining > 0 ==> {
                let len = spec_u32_from_le_bytes(payload.subrange(cursor + 20, cursor + 24)) as int;
                &&& es[0].0 == spec_u64_from_le_bytes(payload.subrange(cursor, cursor + 8))
                &&& es[0].1 == spec_u32_from_le_bytes(payload.subrange(cursor + 8, cursor + 12))
                &&& es[0].2 == spec_u64_from_le_bytes(payload.subrange(cursor + 12, cursor + 20))
                &&& es[0].3 == payload.subrange(cursor + 24, cursor + 24 + len)
            }
        },
    decreases remaining,
{
    if remaining > 0 && payload.len() - cursor >= 24 {
        let start = cursor + 24;
        let len = le32_at(payload, cursor + 20) as int;
        if start + len <= usize::MAX && start + len <= payload.len() {
            lemma_capsule_entries_decoding_fields(payload, start + len, (remaining - 1) as nat);
        }
    }
}

/// Reading a prepared-cut capsule gives as many entries as the little-endian
/// `u32` in bytes 8..12 counts, the first of them read from byte 16 on.
pub proof fn lemma_capsule_decoding_fields(bytes: Seq<u8>)
    ensures
        capsule_decoding(bytes) matches Ok(es) ==> {
            &&& es.len() == spec_u32_from_le_bytes(bytes.subrange(8, 12))
            &&& es.len() > 0 ==> {
                let len = spec_u32_from_le_bytes(bytes.subrange(36, 40)) as int;
                &&& es[0].0 == spec_u64_from_le_bytes(bytes.subrange(16, 24))
                &&& es[0].1 == spec_u32_from_le_bytes(bytes.subrange(24, 28))
                &&& es[0].2 == spec_u64_from_le_bytes(bytes.subrange(28, 36))
                &&& es[0].3 == bytes.subrange(40, 40 + len)
            }
        },
{
    if capsule_decoding(bytes) is Ok {
        let p = bytes.subrange(16, bytes.len() as int);
        lemma_capsule_entries_decoding_fields(p, 0, le32_at(bytes, 8) as nat);
        if le32_at(bytes, 8) > 0 {
            assert(p.subrange(0, 8) =~= bytes.subrange(16, 24));
            assert(p.subrange(8, 12) =~= bytes.subrange(24, 28));
            assert(p.subrange(12, 20) =~= bytes.subrange(28, 36));
            assert(p.subrange(20, 24) =~= bytes.subrange(36, 40));
            let len = spec_u32_from_le_bytes(bytes.subrange(36, 40)) as int;
            assert(p.subrange(24, 24 + len) =~= bytes.subrange(40, 40 + len));
        }
    }
}

// ---------------------------------------------------------------------------
// Durable metadata files.

/// A durable metadata file around the encoded metadata `payload`.
pub open spec fn metadata_file_bytes(payload: Seq<u8>) -> Seq<u8> {
    metadata_magic() + spec_u16_to_le_bytes(1u16) + spec_u16_to_le_bytes(0u16)
        + spec_u64_to_le_bytes(payload.len() as u64) + spec_u32_to_le_bytes(spec_crc32c(payload))
        + payload
}

/// What reading `bytes` as a durable metadata file gives: its payload, or why it is refused.
pub open spec fn metadata_file_decoding(bytes: Seq<u8>) -> Result<Seq<u8>, DurabilityError> {
    if bytes.len() < 20 {
        Err(DurabilityError::Corruption { offset: 0, reason: "durable metadata header truncated" })
    } else if bytes.subrange(0, 4) != metadata_magic() {
        Err(DurabilityError::Corruption { offset: 0, reason: "durable metadata magic mismatch" })
    } else if le16_at(bytes, 4) != 1 {
        Err(DurabilityError::UnsupportedDurableFormat { component: DurableFormatComponent::MetadataFile, version: le16_at(bytes, 4) })
    } else if le16_at(bytes, 6) != 0 {
        Err(DurabilityError::Corruption { offset: 0, reason: "unsupported durable metadata flags" })
    } else if le64_at(bytes, 8) > usize::MAX {
        Err(DurabilityError::Corruption { offset: 0, reason: "durable metadata payload length overflow" })
    } else if le64_at(bytes, 8) > 67108864 || 20 + le64_at(bytes, 8) != bytes.len() {
        Err(DurabilityError::Corruption { offset: 0, reason: "durable metadata payload length mismatch" })
    } else if spec_crc32c(bytes.subrange(20, bytes.len() as int)) != le32_at(bytes, 16) {
        Err(DurabilityError::Corruption { offset: 0, reason: "durable metadata payload checksum mismatch" })
    } else {
        Ok(bytes.subrange(20, bytes.len() as int))
    }
}

/// A decoded payload as plain values.
pub open spec fn payload_view(result: Result<Vec<u8>, DurabilityError>) -> Result<Seq<u8>, DurabilityError> {
    match result {
        Ok(payload) => Ok(payload@),
        Err(e) => Err(e),
    }
}

/// The bytes of a durable metadata file around `payload`; a payload over the
/// metadata limit is refused.
pub fn encode_metadata_file(payload: &[u8]) -> (result: Result<Vec<u8>, DurabilityError>)
    ensures
        payload@.len() > MAX_METADATA_LEN ==> result == Err::<Vec<u8>, DurabilityError>(DurabilityError::PayloadTooLarge),
        payload@.len() <= MAX_METADATA_LEN ==> (result matches Ok(bytes) && bytes@ == metadata_file_bytes(payload@)),
{
    if payload.len() > MAX_METADATA_LEN {
        return Err(DurabilityError::PayloadTooLarge);
    }
    let payload_len = payload.len() as u64;
    let mut bytes: Vec<u8> = Vec::new();
    bytes.push(0x43);
    bytes.push(0x46);
    bytes.push(0x44);
    bytes.push(0x4D);
    assert(bytes@ =~= metadata_magic());
    append_bytes(&mut bytes, &u16_to_le_bytes(METADATA_FILE_VERSION));
    append_bytes(&mut bytes, &u16_to_le_bytes(0));
    append_bytes(&mut bytes, &u64_to_le_bytes(payload_len));
    append_bytes(&mut bytes, &u32_to_le_bytes(crc32c(payload)));
    append_slice(&mut bytes, payload);
    assert(bytes@ =~= metadata_file_bytes(payload@));
    Ok(bytes)
}

/// Reads the framing of a durable metadata file, refusing a truncated header,
/// a wrong magic, version or flags, a payload length that does not match the
/// file, and a bad payload checksum.
pub fn decode_metadata_file(bytes: &[u8]) -> (result: Result<Vec<u8>, DurabilityError>)
    ensures
        payload_view(result) == metadata_file_decoding(bytes@),
{
    if bytes.len() < METADATA_HEADER_LEN {
        return Err(DurabilityError::Corruption { offset: 0, reason: "durable metadata header truncated" });
    }
    if !magic_at(bytes, 0, &[0x43, 0x46, 0x44, 0x4D]) {
        proof {
            assert(seq![0x43u8, 0x46u8, 0x44u8, 0x4Du8] =~= metadata_magic());
        }
        return Err(DurabilityError::Corruption { offset: 0, reason: "durable metadata magic mismatch" });
    }
    let version = u16_from_le_bytes(&bytes[4..6]);
    DurableFormatRegistry::require_supported(
        DurableFormatComponent::MetadataFile,
        version,
        &[METADATA_FILE_VERSION],
    )?;
    if u16_from_le_bytes(&bytes[6..8]) != 0 {
        return Err(DurabilityError::Corruption { offset: 0, reason: "unsupported durable metadata flags" });
    }
    let payload_len = u64_from_le_bytes(&bytes[8..16]);
    if payload_len as u128 > usize::MAX as u128 {
        return Err(DurabilityError::Corruption { offset: 0, reason: "durable metadata payload length overflow" });
    }
    let payload_len = payload_len as usize;
    if payload_len > MAX_METADATA_LEN || payload_len != bytes.len() - METADATA_HEADER_LEN {
        return Err(DurabilityError::Corruption { offset: 0, reason: "durable metadata payload length mismatch" });
    }
    if crc32c(&bytes[METADATA_HEADER_LEN..bytes.len()]) != u32_from_le_bytes(&bytes[16..20]) {
        return Err(DurabilityError::Corruption { offset: 0, reason: "durable metadata payload checksum mismatch" });
    }
    Ok(copy_range(bytes, METADATA_HEADER_LEN, bytes.len()))
}

/// A durable metadata file reads back as the payload it was written from.
pub proof fn lemma_metadata_file_round_trip(payload: Seq<u8>)
    requires
        payload.len() <= MAX_METADATA_LEN,
    ensures
        metadata_file_decoding(metadata_file_bytes(payload)) == Ok::<Seq<u8>, DurabilityError>(payload),
{
    vstd::bytes::lemma_auto_spec_u16_to_from_le_bytes();
    vstd::bytes::lemma_auto_spec_u32_to_from_le_bytes();
    vstd::bytes::lemma_auto_spec_u64_to_from_le_bytes();
    let b = metadata_file_bytes(payload);
    assert(b.subrange(0, 4) =~= metadata_magic());
    assert(b.subrange(4, 6) =~= spec_u16_to_le_bytes(1u16));
    assert(b.subrange(6, 8) =~= spec_u16_to_le_bytes(0u16));
    assert(b.subrange(8, 16) =~= spec_u64_to_le_bytes(payload.len() as u64));
    assert(b.subrange(16, 20) =~= spec_u32_to_le_bytes(spec_crc32c(payload)));
    assert(b.subrange(20, b.len() as int) =~= payload);
}

/// Where each part of a durable metadata file lies: the magic "CFDM" in bytes
/// 0..4, format version 1 and zero flags as little-endian `u16`s in 4..6 and
/// 6..8, the payload's length as a little-endian `u64` in 8..16, its CRC-32C
/// in 16..20, and the payload itself from byte 20 to the end.
pub proof fn lemma_metadata_file_layout(payload: Seq<u8>)
    requires
        payload.len() <= MAX_METADATA_LEN,
    ensures
        metadata_file_bytes(payload).len() == 20 + payload.len(),
        metadata_file_bytes(payload).subrange(0, 4) == seq![0x43u8, 0x46u8, 0x44u8, 0x4Du8],
        spec_u16_from_le_bytes(metadata_file_bytes(payload).subrange(4, 6)) == 1u16,
        spec_u16_from_le_bytes(metadata_file_bytes(payload).subrange(6, 8)) == 0u16,
        spec_u64_from_le_bytes(metadata_file_bytes(payload).subrange(8, 16)) == payload.len(),
        spec_u32_from_le_bytes(metadata_file_bytes(payload).subrange(16, 20)) == spec_crc32c(payload),
        metadata_file_bytes(payload).subrange(20, 20 + payload.len() as int) == payload,
{
    vstd::bytes::lemma_auto_spec_u16_to_from_le_bytes();
    vstd::bytes::lemma_auto_spec_u32_to_from_le_bytes();
    vstd::bytes::lemma_auto_spec_u64_to_from_le_bytes();
    let b = metadata_file_bytes(payload);
    assert(b.subrange(0, 4) =~= seq![0x43u8, 0x46u8, 0x44u8, 0x4Du8]);
    assert(b.subrange(4, 6) =~= spec_u16_to_le_bytes(1u16));
    assert(b.subrange(6, 8) =~= spec_u16_to_le_bytes(0u16));
    assert(b.subrange(8, 16) =~= spec_u64_to_le_bytes(payload.len() as u64));
    assert(b.subrange(16, 20) =~= spec_u32_to_le_bytes(spec_crc32c(payload)));
    assert(b.subrange(20, 20 + payload.len() as int) =~= payload);
}

/// What reading a durable metadata file takes from where: a file of at least
/// twenty bytes with the magic "CFDM", version 1, zero flags, a length in 8..16
/// of at most the metadata limit that counts the bytes after byte 20, and a
/// matching CRC-32C of those bytes in 16..20 is accepted; and whatever is
/// accepted gives the bytes after byte 20 as its payload.
pub proof fn lemma_metadata_file_decoding_fields(bytes: Seq<u8>)
    ensures
        ({
            let ok = bytes.len() >= 20
                && bytes.subrange(0, 4) == seq![0x43u8, 0x46u8, 0x44u8, 0x4Du8]
                && spec_u16_from_le_bytes(bytes.subrange(4, 6)) == 1u16
                && spec_u16_from_le_bytes(bytes.subrange(6, 8)) == 0u16
                && spec_u64_from_le_bytes(bytes.subrange(8, 16)) <= MAX_METADATA_LEN
                && spec_u64_from_le_bytes(bytes.subrange(8, 16)) == bytes.len() - 20
                && spec_u32_from_le_bytes(bytes.subrange(16, 20)) == spec_crc32c(bytes.subrange(20, bytes.len() as int));
            ok ==> metadata_file_decoding(bytes) is Ok
        }),
        metadata_file_decoding(bytes) matches Ok(payload) ==> {
            &&& payload == bytes.subrange(20, bytes.len() as int)
            &&& spec_u64_from_le_bytes(bytes.subrange(8, 16)) == payload.len()
            &&& spec_u32_from_le_bytes(bytes.subrange(16, 20)) == spec_crc32c(payload)
        },
{
    assert(seq![0x43u8, 0x46u8, 0x44u8, 0x4Du8] =~= metadata_magic());
}

} // verus!
