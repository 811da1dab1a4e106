use kernel_core::durability::{crc32c, DurabilityError, DurableFormatComponent};
use kernel_core::generation_names::parse_generation_name;
use kernel_core::manifest::{decode_manifest, encode_manifest, ManifestRecord};

fn record() -> ManifestRecord {
    ManifestRecord {
        generation: 7,
        base_revision: 40,
        published_head: 42,
        wal_first_lsn: 3,
        published_tail_lsn: 99,
        checkpoint_crc32c: 0xdead_beef,
        metadata_crc32c: 0x0102_0304,
        prepared_capsule_crc32c: 0xa5a5_5a5a,
    }
}

#[test]
fn crc32c_matches_the_castagnoli_check_value() {
    assert_eq!(crc32c(b"123456789"), 0xE306_9283);
    assert_eq!(crc32c(b""), 0);
}

#[test]
fn manifest_round_trips_through_its_bytes() {
    let bytes = encode_manifest(record());
    assert_eq!(&bytes[0..4], b"CFMF");
    assert_eq!(u16::from_le_bytes([bytes[4], bytes[5]]), 3);
    assert_eq!(decode_manifest(&bytes), Ok(record()));
}

#[test]
fn legacy_manifest_is_read_with_defaults() {
    let mut bytes = Vec::new();
    bytes.extend_from_slice(b"CFMF");
    bytes.extend_from_slice(&2u16.to_le_bytes());
    bytes.extend_from_slice(&0u16.to_le_bytes());
    bytes.extend_from_slice(&5u64.to_le_bytes());
    bytes.extend_from_slice(&17u64.to_le_bytes());
    bytes.extend_from_slice(&11u32.to_le_bytes());
    bytes.extend_from_slice(&12u32.to_le_bytes());
    let checksum = crc32c(&bytes);
    bytes.extend_from_slice(&checksum.to_le_bytes());
    assert_eq!(
        decode_manifest(&bytes),
        Ok(ManifestRecord {
            generation: 5,
            base_revision: 17,
            published_head: 17,
            wal_first_lsn: 1,
            published_tail_lsn: 0,
            checkpoint_crc32c: 11,
            metadata_crc32c: 12,
            prepared_capsule_crc32c: 0,
        })
    );
}

#[test]
fn manifest_refuses_wrong_length_magic_version_flags_and_checksum() {
    let good = encode_manifest(record());
    assert_eq!(
        decode_manifest(&good[..63]),
        Err(DurabilityError::Corruption {
            offset: 0,
            reason: "manifest length mismatch",
        })
    );
    let mut bad_magic = good;
    bad_magic[0] = b'X';
    assert_eq!(
        decode_manifest(&bad_magic),
        Err(DurabilityError::Corruption {
            offset: 0,
            reason: "manifest magic mismatch",
        })
    );
    let mut bad_version = good;
    bad_version[4] = 9;
    assert_eq!(
        decode_manifest(&bad_version),
        Err(DurabilityError::UnsupportedDurableFormat {
            component: DurableFormatComponent::Manifest,
            version: 9,
        })
    );
    let mut bad_flags = good;
    bad_flags[6] = 1;
    assert_eq!(
        decode_manifest(&bad_flags),
        Err(DurabilityError::Corruption {
            offset: 0,
            reason: "unsupported manifest flags",
        })
    );
    let mut bad_checksum = good;
    bad_checksum[20] ^= 0x40;
    assert_eq!(
        decode_manifest(&bad_checksum),
        Err(DurabilityError::Corruption {
            offset: 0,
            reason: "manifest checksum mismatch",
        })
    );
    let mut legacy_length_current_version = good[..36].to_vec();
    legacy_length_current_version[4] = 3;
    assert_eq!(
        decode_manifest(&legacy_length_current_version),
        Err(DurabilityError::Corruption {
            offset: 0,
            reason: "manifest checksum mismatch",
        })
    );
}

#[test]
fn generation_names_parse_twenty_decimal_characters() {
    assert_eq!(
        parse_generation_name("manifest-00000000000000000042.cfmf", "manifest-", ".cfmf"),
        Some(42)
    );
    assert_eq!(
        parse_generation_name("manifest-0000000000000000042.cfmf", "manifest-", ".cfmf"),
        None
    );
    assert_eq!(
        parse_generation_name("metadata-00000000000000000042.cfmf", "manifest-", ".cfmf"),
        None
    );
    assert_eq!(
        parse_generation_name("manifest-00000000000000000042.cfdm", "manifest-", ".cfmf"),
        None
    );
    assert_eq!(
        parse_generation_name("wal-99999999999999999999.cfmw", "wal-", ".cfmw"),
        None
    );
    assert_eq!(
        parse_generation_name("wal-18446744073709551615.cfmw", "wal-", ".cfmw"),
        Some(u64::MAX)
    );
    assert_eq!(
        parse_generation_name("wal-+0000000000000000042.cfmw", "wal-", ".cfmw"),
        Some(42)
    );
    assert_eq!(
        parse_generation_name("wal-00000000000000000x42.cfmw", "wal-", ".cfmw"),
        None
    );
    assert_eq!(parse_generation_name("wal-", "wal-", ".cfmw"), None);
}
