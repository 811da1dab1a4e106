//! The manifest file: the fixed-size, checksummed record that names the
//! published checkpoint generation.

use vstd::prelude::*;
use vstd::bytes::{
    spec_u16_from_le_bytes, spec_u16_to_le_bytes, spec_u32_from_le_bytes, spec_u32_to_le_bytes,
    spec_u64_from_le_bytes, spec_u64_to_le_bytes, u16_from_le_bytes, u16_to_le_bytes,
    u32_from_le_bytes, u32_to_le_bytes, u64_from_le_bytes, u64_to_le_bytes,
};
use crate::durability::{
    crc32c, spec_crc32c, DurabilityError, DurableFormatComponent, DurableFormatRegistry,
};

verus! {

pub const LEGACY_MANIFEST_FORMAT_VERSION: u16 = 2;

pub const MANIFEST_FORMAT_VERSION: u16 = 3;

pub const LEGACY_MANIFEST_LEN: usize = 36;

pub const MANIFEST_LEN: usize = 64;

/// What a manifest names: the generation, its revisions, its write-ahead log
/// window and the checksums of the files it publishes.
#[derive(Debug, Clone, Copy, PartialEq, Eq, Structural)]
pub struct ManifestRecord {
    pub generation: u64,
    pub base_revision: u64,
    pub published_head: u64,
    pub wal_first_lsn: u64,
    pub published_tail_lsn: u64,
    pub checkpoint_crc32c: u32,
    pub metadata_crc32c: u32,
    pub prepared_capsule_crc32c: u32,
}

/// The magic bytes "CFMF" that open every manifest.
pub open spec fn manifest_magic() -> Seq<u8> {
    seq![0x43u8, 0x46u8, 0x4Du8, 0x46u8]
}

pub open spec fn le16_at(bytes: Seq<u8>, at: int) -> u16 {
    spec_u16_from_le_bytes(bytes.subrange(at, at + 2))
}

pub open spec fn le32_at(bytes: Seq<u8>, at: int) -> u32 {
    spec_u32_from_le_bytes(bytes.subrange(at, at + 4))
}

pub open spec fn le64_at(bytes: Seq<u8>, at: int) -> u64 {
    spec_u64_from_le_bytes(bytes.subrange(at, at + 8))
}

/// The first sixty bytes of a current-format manifest: everything but its checksum.
pub open spec fn manifest_body(m: ManifestRecord) -> Seq<u8> {
    manifest_magic() + spec_u16_to_le_bytes(3u16) + spec_u16_to_le_bytes(0u16)
        + spec_u64_to_le_bytes(m.generation) + spec_u64_to_le_bytes(m.base_revision)
        + spec_u64_to_le_bytes(m.published_head) + spec_u64_to_le_bytes(m.wal_first_lsn)
        + spec_u64_to_le_bytes(m.published_tail_lsn) + spec_u32_to_le_bytes(m.checkpoint_crc32c)
        + spec_u32_to_le_bytes(m.metadata_crc32c) + spec_u32_to_le_bytes(m.prepared_capsule_crc32c)
}

/// A current-format manifest: the body, then the CRC-32C of the body.
pub open spec fn manifest_bytes(m: ManifestRecord) -> Seq<u8> {
    manifest_body(m) + spec_u32_to_le_bytes(spec_crc32c(manifest_body(m)))
}

/// What reading `bytes` as a manifest gives: the record, or why it is refused.
pub open spec fn manifest_decoding(bytes: Seq<u8>) -> Result<ManifestRecord, DurabilityError> {
    if bytes.len() != 64 && bytes.len() != 36 {
        Err(DurabilityError::Corruption { offset: 0, reason: "manifest length mismatch" })
    } else if bytes.subrange(0, 4) != manifest_magic() {
        Err(DurabilityError::Corruption { offset: 0, reason: "manifest magic mismatch" })
    } else if le16_at(bytes, 4) != 2 && le16_at(bytes, 4) != 3 {
        Err(DurabilityError::UnsupportedDurableFormat { component: DurableFormatComponent::Manifest, version: le16_at(bytes, 4) })
    } else if le16_at(bytes, 6) != 0 {
        Err(DurabilityError::Corruption { offset: 0, reason: "unsupported manifest flags" })
    } else if le16_at(bytes, 4) == 2 {
        if bytes.len() != 36 || spec_crc32c(bytes.subrange(0, 32)) != le32_at(bytes, 32) {
            Err(DurabilityError::Corruption { offset: 0, reason: "manifest checksum mismatch" })
        } else {
            Ok(ManifestRecord {
                generation: le64_at(bytes, 8),
                base_revision: le64_at(bytes, 16),
                published_head: le64_at(bytes, 16),
                wal_first_lsn: 1,
                published_tail_lsn: 0,
                checkpoint_crc32c: le32_at(bytes, 24),
                metadata_crc32c: le32_at(bytes, 28),
                prepared_capsule_crc32c: 0,
            })
        }
    } else if bytes.len() != 64 || spec_crc32c(bytes.subrange(0, 60)) != le32_at(bytes, 60) {
        Err(DurabilityError::Corruption { offset: 0, reason: "manifest checksum mismatch" })
    } else {
        Ok(ManifestRecord {
            generation: le64_at(bytes, 8),
            base_revision: le64_at(bytes, 16),
            published_head: le64_at(bytes, 24),
            wal_first_lsn: le64_at(bytes, 32),
            published_tail_lsn: le64_at(bytes, 40),
            checkpoint_crc32c: le32_at(bytes, 48),
            metadata_crc32c: le32_at(bytes, 52),
            prepared_capsule_crc32c: le32_at(bytes, 56),
        })
    }
}

/// Appends `tail` to `out`.
pub(crate) fn append_bytes(out: &mut Vec<u8>, tail: &Vec<u8>)
    ensures
        final(out)@ == old(out)@ + tail@,
{
    let mut i: usize = 0;
    while i < tail.len()
        invariant
            i <= tail@.len(),
            out@ == old(out)@ + tail@.take(i as int),
        decreases tail@.len() - i,
    {
        out.push(tail[i]);
        i = i + 1;
        assert(out@ =~= old(out)@ + tail@.take(i as int));
    }
    assert(tail@.take(i as int) =~= tail@);
}

/// The bytes of the current-format manifest for `manifest`.
pub fn encode_manifest(manifest: ManifestRecord) -> (bytes: [u8; 64])
    ensures
        bytes@ == manifest_bytes(manifest),
{
    proof {
        vstd::bytes::lemma_auto_spec_u16_to_from_le_bytes();
        vstd::bytes::lemma_auto_spec_u32_to_from_le_bytes();
        vstd::bytes::lemma_auto_spec_u64_to_from_le_bytes();
    }
    let mut body: Vec<u8> = Vec::new();
    body.push(0x43);
    body.push(0x46);
    body.push(0x4D);
    body.push(0x46);
    assert(body@ =~= manifest_magic());
    append_bytes(&mut body, &u16_to_le_bytes(MANIFEST_FORMAT_VERSION));
    append_bytes(&mut body, &u16_to_le_bytes(0));
    append_bytes(&mut body, &u64_to_le_bytes(manifest.generation));
    append_bytes(&mut body, &u64_to_le_bytes(manifest.base_revision));
    append_bytes(&mut body, &u64_to_le_bytes(manifest.published_head));
    append_bytes(&mut body, &u64_to_le_bytes(manifest.wal_first_lsn));
    append_bytes(&mut body, &u64_to_le_bytes(manifest.published_tail_lsn));
    append_bytes(&mut body, &u32_to_le_bytes(manifest.checkpoint_crc32c));
    append_bytes(&mut body, &u32_to_le_bytes(manifest.metadata_crc32c));
    append_bytes(&mut body, &u32_to_le_bytes(manifest.prepared_capsule_crc32c));
    assert(body@ =~= manifest_body(manifest));
    let checksum = crc32c(body.as_slice());
    append_bytes(&mut body, &u32_to_le_bytes(checksum));
    assert(body@ =~= manifest_bytes(manifest));
    let mut bytes = [0u8; 64];
    let mut i: usize = 0;
    while i < 64
        invariant
            i <= 64,
            body@ == manifest_bytes(manifest),
            body@.len() == 64,
            bytes@.len() == 64,
            forall|j: int| 0 <= j < i ==> bytes@[j] == body@[j],
        decreases 64 - i,
    {
        bytes[i] = body[i];
        i = i + 1;
    }
    assert(bytes@ =~= body@);
    bytes
}

/// Reads a manifest of either format, refusing a wrong length, magic,
/// version, flags or checksum.
pub fn decode_manifest(bytes: &[u8]) -> (result: Result<ManifestRecord, DurabilityError>)
    ensures
        result == manifest_decoding(bytes@),
{
    if bytes.len() != MANIFEST_LEN && bytes.len() != LEGACY_MANIFEST_LEN {
        return Err(DurabilityError::Corruption { offset: 0, reason: "manifest length mismatch" });
    }
    if !(bytes[0] == 0x43 && bytes[1] == 0x46 && bytes[2] == 0x4D && bytes[3] == 0x46) {
        proof {
            assert(bytes@.subrange(0, 4) != manifest_magic()) by {
                if bytes@.subrange(0, 4) == manifest_magic() {
                    assert(bytes@.subrange(0, 4)[0] == bytes@[0]);
                    assert(bytes@.subrange(0, 4)[1] == bytes@[1]);
                    assert(bytes@.subrange(0, 4)[2] == bytes@[2]);
                    assert(bytes@.subrange(0, 4)[3] == bytes@[3]);
                }
            }
        }
        return Err(DurabilityError::Corruption { offset: 0, reason: "manifest magic mismatch" });
    }
    assert(bytes@.subrange(0, 4) =~= manifest_magic());
    let version = u16_from_le_bytes(&bytes[4..6]);
    DurableFormatRegistry::require_supported(
        DurableFormatComponent::Manifest,
        version,
        &[LEGACY_MANIFEST_FORMAT_VERSION, MANIFEST_FORMAT_VERSION],
    )?;
    if u16_from_le_bytes(&bytes[6..8]) != 0 {
        return Err(DurabilityError::Corruption { offset: 0, reason: "unsupported manifest flags" });
    }
    if version == LEGACY_MANIFEST_FORMAT_VERSION {
        if bytes.len() != LEGACY_MANIFEST_LEN || crc32c(&bytes[0..32]) != u32_from_le_bytes(&bytes[32..36]) {
            return Err(DurabilityError::Corruption { offset: 0, reason: "manifest checksum mismatch" });
        }
        let base_revision = u64_from_le_bytes(&bytes[16..24]);
        return Ok(ManifestRecord {
            generation: u64_from_le_bytes(&bytes[8..16]),
            base_revision,
            published_head: base_revision,
            wal_first_lsn: 1,
            published_tail_lsn: 0,
            checkpoint_crc32c: u32_from_le_bytes(&bytes[24..28]),
            metadata_crc32c: u32_from_le_bytes(&bytes[28..32]),
            prepared_capsule_crc32c: 0,
        });
    }
    if bytes.len() != MANIFEST_LEN || crc32c(&bytes[0..60]) != u32_from_le_bytes(&bytes[60..64]) {
        return Err(DurabilityError::Corruption { offset: 0, reason: "manifest checksum mismatch" });
    }
    Ok(ManifestRecord {
        generation: u64_from_le_bytes(&bytes[8..16]),
        base_revision: u64_from_le_bytes(&bytes[16..24]),
        published_head: u64_from_le_bytes(&bytes[24..32]),
        wal_first_lsn: u64_from_le_bytes(&bytes[32..40]),
        published_tail_lsn: u64_from_le_bytes(&bytes[40..48]),
        checkpoint_crc32c: u32_from_le_bytes(&bytes[48..52]),
        metadata_crc32c: u32_from_le_bytes(&bytes[52..56]),
        prepared_capsule_crc32c: u32_from_le_bytes(&bytes[56..60]),
    })
}

/// A manifest reads back as the record it was written from.
pub proof fn lemma_manifest_round_trip(m: ManifestRecord)
    ensures
        manifest_decoding(manifest_bytes(m)) == Ok::<ManifestRecord, DurabilityError>(m),
{
    vstd::bytes::lemma_auto_spec_u16_to_from_le_bytes();
    vstd::bytes::lemma_auto_spec_u32_to_from_le_bytes();
    vstd::bytes::lemma_auto_spec_u64_to_from_le_bytes();
    let b = manifest_bytes(m);
    let body = manifest_body(m);
    assert(body.len() == 60);
    assert(b.len() == 64);
    assert(b.subrange(0, 4) =~= manifest_magic());
    assert(b.subrange(4, 6) =~= spec_u16_to_le_bytes(3u16));
    assert(b.subrange(6, 8) =~= spec_u16_to_le_bytes(0u16));
    assert(b.subrange(8, 16) =~= spec_u64_to_le_bytes(m.generation));
    assert(b.subrange(16, 24) =~= spec_u64_to_le_bytes(m.base_revision));
    assert(b.subrange(24, 32) =~= spec_u64_to_le_bytes(m.published_head));
    assert(b.subrange(32, 40) =~= spec_u64_to_le_bytes(m.wal_first_lsn));
    assert(b.subrange(40, 48) =~= spec_u64_to_le_bytes(m.published_tail_lsn));
    assert(b.subrange(48, 52) =~= spec_u32_to_le_bytes(m.checkpoint_crc32c));
    assert(b.subrange(52, 56) =~= spec_u32_to_le_bytes(m.metadata_crc32c));
    assert(b.subrange(56, 60) =~= spec_u32_to_le_bytes(m.prepared_capsule_crc32c));
    assert(b.subrange(0, 60) =~= body);
    assert(b.subrange(60, 64) =~= spec_u32_to_le_bytes(spec_crc32c(body)));
}

/// Where each field of a current-format manifest lies: the magic "CFMF" in
/// bytes 0..4, format version 3 and zero flags as little-endian `u16`s in 4..6
/// and 6..8; generation, base revision, published head, first write-ahead log
/// number and published tail as little-endian `u64`s in 8..16, 16..24, 24..32,
/// 32..40 and 40..48; the checkpoint, metadata and prepared-capsule checksums as
/// little-endian `u32`s in 48..52, 52..56 and 56..60; and in 60..64 the CRC-32C
/// of bytes 0..60.
pub proof fn lemma_manifest_layout(m: ManifestRecord)
    ensures
        manifest_bytes(m).len() == 64,
        manifest_bytes(m)[0] == 0x43u8,
        manifest_bytes(m)[1] == 0x46u8,
        manifest_bytes(m)[2] == 0x4Du8,
        manifest_bytes(m)[3] == 0x46u8,
        spec_u16_from_le_bytes(manifest_bytes(m).subrange(4, 6)) == 3u16,
        spec_u16_from_le_bytes(manifest_bytes(m).subrange(6, 8)) == 0u16,
        spec_u64_from_le_bytes(manifest_bytes(m).subrange(8, 16)) == m.generation,
        spec_u64_from_le_bytes(manifest_bytes(m).subrange(16, 24)) == m.base_revision,
        spec_u64_from_le_bytes(manifest_bytes(m).subrange(24, 32)) == m.published_head,
        spec_u64_from_le_bytes(manifest_bytes(m).subrange(32, 40)) == m.wal_first_lsn,
        spec_u64_from_le_bytes(manifest_bytes(m).subrange(40, 48)) == m.published_tail_lsn,
        spec_u32_from_le_bytes(manifest_bytes(m).subrange(48, 52)) == m.checkpoint_crc32c,
        spec_u32_from_le_bytes(manifest_bytes(m).subrange(52, 56)) == m.metadata_crc32c,
        spec_u32_from_le_bytes(manifest_bytes(m).subrange(56, 60)) == m.prepared_capsule_crc32c,
        spec_u32_from_le_bytes(manifest_bytes(m).subrange(60, 64))
            == spec_crc32c(manifest_bytes(m).subrange(0, 60)),
{
    vstd::bytes::lemma_auto_spec_u16_to_from_le_bytes();
    vstd::bytes::lemma_auto_spec_u32_to_from_le_bytes();
    vstd::bytes::lemma_auto_spec_u64_to_from_le_bytes();
    let b = manifest_bytes(m);
    let body = manifest_body(m);
    assert(b.subrange(0, 4) =~= manifest_magic());
    assert(b[0] == b.subrange(0, 4)[0]);
    assert(b[1] == b.subrange(0, 4)[1]);
    assert(b[2] == b.subrange(0, 4)[2]);
    assert(b[3] == b.subrange(0, 4)[3]);
    assert(b.subrange(4, 6) =~= spec_u16_to_le_bytes(3u16));
    assert(b.subrange(6, 8) =~= spec_u16_to_le_bytes(0u16));
    assert(b.subrange(8, 16) =~= spec_u64_to_le_bytes(m.generation));
    assert(b.subrange(16, 24) =~= spec_u64_to_le_bytes(m.base_revision));
    assert(b.subrange(24, 32) =~= spec_u64_to_le_bytes(m.published_head));
    assert(b.subrange(32, 40) =~= spec_u64_to_le_bytes(m.wal_first_lsn));
    assert(b.subrange(40, 48) =~= spec_u64_to_le_bytes(m.published_tail_lsn));
    assert(b.subrange(48, 52) =~= spec_u32_to_le_bytes(m.checkpoint_crc32c));
    assert(b.subrange(52, 56) =~= spec_u32_to_le_bytes(m.metadata_crc32c));
    assert(b.subrange(56, 60) =~= spec_u32_to_le_bytes(m.prepared_capsule_crc32c));
    assert(b.subrange(0, 60) =~= body);
    assert(b.subrange(60, 64) =~= spec_u32_to_le_bytes(spec_crc32c(body)));
}

/// What a read takes from where: a manifest of sixty-four bytes with the magic
/// "CFMF", version 3, zero flags and a matching CRC-32C of bytes 0..60 in 60..64
/// is accepted, and any accepted one of that length has its generation, base
/// revision, published head, first write-ahead log number and published tail
/// from the little-endian `u64`s in 8..16, 16..24, 24..32, 32..40 and 40..48, and
/// its three checksums from the `u32`s in 48..52, 52..56 and 56..60. An accepted
/// legacy manifest of thirty-six bytes has its generation from 8..16, a base
/// revision from 16..24 that is also its published head, its checkpoint and
/// metadata checksums from 24..28 and 28..32, a first write-ahead log number of
/// 1, a published tail of 0 and no prepared capsule checksum.
pub proof fn lemma_manifest_decoding_fields(bytes: Seq<u8>)
    ensures
        ({
            let ok = bytes.len() == 64 && bytes[0] == 0x43u8 && bytes[1] == 0x46u8
                && bytes[2] == 0x4Du8 && bytes[3] == 0x46u8
                && spec_u16_from_le_bytes(bytes.subrange(4, 6)) == 3u16
                && spec_u16_from_le_bytes(bytes.subrange(6, 8)) == 0u16
                && spec_u32_from_le_bytes(bytes.subrange(60, 64)) == spec_crc32c(bytes.subrange(0, 60));
            ok ==> manifest_decoding(bytes) is Ok
        }),
        manifest_decoding(bytes) is Ok && bytes.len() == 64 ==> {
            let r = manifest_decoding(bytes)->Ok_0;
            &&& r.generation == spec_u64_from_le_bytes(bytes.subrange(8, 16))
            &&& r.base_revision == spec_u64_from_le_bytes(bytes.subrange(16, 24))
            &&& r.published_head == spec_u64_from_le_bytes(bytes.subrange(24, 32))
            &&& r.wal_first_lsn == spec_u64_from_le_bytes(bytes.subrange(32, 40))
            &&& r.published_tail_lsn == spec_u64_from_le_bytes(bytes.subrange(40, 48))
            &&& r.checkpoint_crc32c == spec_u32_from_le_bytes(bytes.subrange(48, 52))
            &&& r.metadata_crc32c == spec_u32_from_le_bytes(bytes.subrange(52, 56))
            &&& r.prepared_capsule_crc32c == spec_u32_from_le_bytes(bytes.subrange(56, 60))
        },
        manifest_decoding(bytes) is Ok && bytes.len() == 36 ==> {
            let r = manifest_decoding(bytes)->Ok_0;
            &&& r.generation == spec_u64_from_le_bytes(bytes.subrange(8, 16))
            &&& r.base_revision == spec_u64_from_le_bytes(bytes.subrange(16, 24))
            &&& r.published_head == r.base_revision
            &&& r.wal_first_lsn == 1
            &&& r.published_tail_lsn == 0
            &&& r.checkpoint_crc32c == spec_u32_from_le_bytes(bytes.subrange(24, 28))
            &&& r.metadata_crc32c == spec_u32_from_le_bytes(bytes.subrange(28, 32))
            &&& r.prepared_capsule_crc32c == 0
        },
{
    if bytes.len() == 64 && bytes[0] == 0x43u8 && bytes[1] == 0x46u8 && bytes[2] == 0x4Du8
        && bytes[3] == 0x46u8 {
        assert(bytes.subrange(0, 4) =~= manifest_magic());
    }
}

} // verus!
