use kernel_core::durability::{crc32c, DurabilityError, DurableFormatComponent};
use kernel_core::frames::{
    accept_checkpoint_chunk, check_cut_revision, decode_checkpoint_file, decode_checkpoint_root,
    decode_metadata_file, decode_prepared_cut_frames, encode_checkpoint_file, encode_checkpoint_root,
    encode_metadata_file, encode_prepared_cut_frames, ChunkDescriptor, PreparedCutFrame,
    PublishedCheckpoint,
};

fn corruption(offset: usize, reason: &'static str) -> DurabilityError {
    DurabilityError::Corruption { offset, reason }
}

#[test]
fn single_file_checkpoint_round_trips_and_lays_out_its_header() {
    let payload = vec![1u8, 2, 3, 4, 5];
    let bytes = encode_checkpoint_file(77, &payload).unwrap();
    assert_eq!(bytes.len(), 32 + payload.len());
    assert_eq!(&bytes[0..4], b"CFCP");
    assert_eq!(&bytes[4..6], &1u16.to_le_bytes());
    assert_eq!(&bytes[8..16], &5u64.to_le_bytes());
    assert_eq!(&bytes[16..24], &77u64.to_le_bytes());
    assert_eq!(&bytes[24..28], &crc32c(&payload).to_le_bytes());
    assert_eq!(&bytes[28..32], &crc32c(&bytes[0..28]).to_le_bytes());
    let frame = decode_checkpoint_file(&bytes).unwrap();
    assert_eq!(frame.revision, 77);
    assert_eq!(frame.payload, payload);
}

#[test]
fn single_file_checkpoint_refusals_name_their_cause() {
    let bytes = encode_checkpoint_file(9, &[10u8, 20, 30]).unwrap();
    assert_eq!(decode_checkpoint_file(&bytes[..31]), Err(corruption(0, "checkpoint header truncated")));

    let mut magic = bytes.clone();
    magic[0] = b'X';
    assert_eq!(decode_checkpoint_file(&magic), Err(corruption(0, "checkpoint magic mismatch")));

    let mut version = bytes.clone();
    version[4] = 7;
    assert_eq!(
        decode_checkpoint_file(&version),
        Err(DurabilityError::UnsupportedDurableFormat { component: DurableFormatComponent::CheckpointFile, version: 7 })
    );

    let mut flags = bytes.clone();
    flags[6] = 1;
    assert_eq!(decode_checkpoint_file(&flags), Err(corruption(0, "unsupported checkpoint file flags")));

    let mut header = bytes.clone();
    header[16] ^= 1;
    assert_eq!(decode_checkpoint_file(&header), Err(corruption(0, "checkpoint header checksum mismatch")));

    let mut longer = bytes.clone();
    longer.push(0);
    assert_eq!(decode_checkpoint_file(&longer), Err(corruption(0, "checkpoint payload length mismatch")));

    let mut payload = bytes.clone();
    payload[33] ^= 0xFF;
    assert_eq!(decode_checkpoint_file(&payload), Err(corruption(0, "checkpoint payload checksum mismatch")));
}

#[test]
fn decoded_revision_must_match_the_checkpoint_header() {
    assert_eq!(check_cut_revision(5, 5, false), Ok(()));
    assert_eq!(
        check_cut_revision(5, 6, false),
        Err(DurabilityError::Protocol { offset: 0, reason: "checkpoint header revision mismatch" })
    );
    assert_eq!(
        check_cut_revision(5, 6, true),
        Err(DurabilityError::Protocol { offset: 0, reason: "checkpoint root cut revision mismatch" })
    );
}

#[test]
fn chunked_root_records_each_chunk_share_and_reassembles_the_stream() {
    let stream: Vec<u8> = (0u8..10).collect();
    let chunks: Vec<Vec<u8>> = vec![stream[0..4].to_vec(), stream[4..8].to_vec(), stream[8..10].to_vec()];
    let crcs: Vec<u32> = chunks.iter().map(|c| crc32c(c)).collect();
    let root = encode_checkpoint_root(42, stream.len(), &crcs, 4).unwrap();
    assert_eq!(root.len(), 32 + 3 * 16);
    let PublishedCheckpoint::Chunked(decoded) = decode_checkpoint_root(&root, crc32c(&root)).unwrap() else {
        panic!("a version 2 root must decode as chunked");
    };
    assert_eq!(decoded.revision, 42);
    assert_eq!(decoded.logical_len, 10);
    assert_eq!(
        decoded.descriptors,
        vec![
            ChunkDescriptor { ordinal: 0, len: 4, crc32c: crcs[0] },
            ChunkDescriptor { ordinal: 1, len: 4, crc32c: crcs[1] },
            ChunkDescriptor { ordinal: 2, len: 2, crc32c: crcs[2] },
        ]
    );
    let mut logical = Vec::new();
    for (ordinal, chunk) in chunks.iter().enumerate() {
        let expected = decoded.expect_chunk(ordinal as u16).unwrap();
        accept_checkpoint_chunk(ordinal as u16, expected, chunk, &mut logical).unwrap();
    }
    assert_eq!(decoded.finish_stream(&logical), Ok(()));
    assert_eq!(logical, stream);
}

#[test]
fn chunked_root_refuses_a_corrupt_chunk_and_a_short_stream() {
    let crcs = vec![crc32c(&[1, 2]), crc32c(&[3])];
    let root = encode_checkpoint_root(8, 3, &crcs, 2).unwrap();
    let PublishedCheckpoint::Chunked(decoded) = decode_checkpoint_root(&root, crc32c(&root)).unwrap() else {
        panic!("a version 2 root must decode as chunked");
    };
    let mut logical = Vec::new();
    let expected = decoded.expect_chunk(0).unwrap();
    assert_eq!(expected, (2, crc32c(&[1, 2])));
    assert_eq!(
        accept_checkpoint_chunk(0, expected, &[1, 9], &mut logical),
        Err(corruption(0, "checkpoint chunk integrity mismatch"))
    );
    assert!(logical.is_empty());
    accept_checkpoint_chunk(0, expected, &[1, 2], &mut logical).unwrap();
    assert_eq!(decoded.finish_stream(&logical), Err(corruption(0, "checkpoint logical stream length mismatch")));
}

#[test]
fn chunked_root_refusals_name_their_cause() {
    let crcs = vec![11u32, 22];
    let root = encode_checkpoint_root(3, 8, &crcs, 4).unwrap();
    assert_eq!(
        decode_checkpoint_root(&root, crc32c(&root) ^ 1),
        Err(corruption(0, "published checkpoint file checksum mismatch"))
    );
    let mut header = root.clone();
    header[16] ^= 1;
    assert_eq!(
        decode_checkpoint_root(&header, crc32c(&header)),
        Err(corruption(0, "checkpoint root header mismatch"))
    );
    let mut records = root.clone();
    records[40] ^= 1;
    assert_eq!(
        decode_checkpoint_root(&records, crc32c(&records)),
        Err(corruption(0, "checkpoint root descriptor checksum mismatch"))
    );
    let mut version = root.clone();
    version[4] = 3;
    assert_eq!(
        decode_checkpoint_root(&version, crc32c(&version)),
        Err(DurabilityError::UnsupportedDurableFormat { component: DurableFormatComponent::CheckpointFile, version: 3 })
    );
    let short = &root[..20];
    assert_eq!(decode_checkpoint_root(short, crc32c(short)), Err(corruption(0, "checkpoint header truncated")));
    assert_eq!(encode_checkpoint_root(1, 0, &vec![0u32; 65536], 1), Err(DurabilityError::PayloadTooLarge));
}

#[test]
fn chunk_descriptor_with_a_wrong_ordinal_is_corruption_at_its_record() {
    let crcs = vec![5u32, 6];
    let mut root = encode_checkpoint_root(1, 4, &crcs, 2).unwrap();
    root[48] = 9;
    let descriptors_crc = crc32c(&root[32..]);
    root[24..28].copy_from_slice(&descriptors_crc.to_le_bytes());
    let header_crc = crc32c(&root[0..28]);
    root[28..32].copy_from_slice(&header_crc.to_le_bytes());
    let PublishedCheckpoint::Chunked(decoded) = decode_checkpoint_root(&root, crc32c(&root)).unwrap() else {
        panic!("a version 2 root must decode as chunked");
    };
    assert!(decoded.expect_chunk(0).is_ok());
    assert_eq!(decoded.expect_chunk(1), Err(corruption(16, "checkpoint chunk ordinal mismatch")));
}

#[test]
fn published_single_file_checkpoint_decodes_through_the_root_reader() {
    let bytes = encode_checkpoint_file(12, &[4u8, 5, 6]).unwrap();
    let published = decode_checkpoint_root(&bytes, crc32c(&bytes)).unwrap();
    let PublishedCheckpoint::Single(frame) = published else {
        panic!("a version 1 checkpoint must decode as a single file");
    };
    assert_eq!(frame.revision, 12);
    assert_eq!(frame.payload, vec![4, 5, 6]);
}

#[test]
fn metadata_file_round_trips_and_refuses_damage() {
    let payload = b"metadata payload".to_vec();
    let bytes = encode_metadata_file(&payload).unwrap();
    assert_eq!(bytes.len(), 20 + payload.len());
    assert_eq!(&bytes[0..4], b"CFDM");
    assert_eq!(decode_metadata_file(&bytes), Ok(payload.clone()));
    assert_eq!(decode_metadata_file(&bytes[..19]), Err(corruption(0, "durable metadata header truncated")));
    let mut magic = bytes.clone();
    magic[3] = 0;
    assert_eq!(decode_metadata_file(&magic), Err(corruption(0, "durable metadata magic mismatch")));
    let mut version = bytes.clone();
    version[4] = 2;
    assert_eq!(
        decode_metadata_file(&version),
        Err(DurabilityError::UnsupportedDurableFormat { component: DurableFormatComponent::MetadataFile, version: 2 })
    );
    let mut flags = bytes.clone();
    flags[7] = 1;
    assert_eq!(decode_metadata_file(&flags), Err(corruption(0, "unsupported durable metadata flags")));
    let mut truncated = bytes.clone();
    truncated.pop();
    assert_eq!(decode_metadata_file(&truncated), Err(corruption(0, "durable metadata payload length mismatch")));
    let mut damaged = bytes.clone();
    damaged[25] ^= 0x20;
    assert_eq!(decode_metadata_file(&damaged), Err(corruption(0, "durable metadata payload checksum mismatch")));
}

fn frame(lsn: u64, target: u64, encoded: &[u8]) -> PreparedCutFrame {
    PreparedCutFrame { prepare_lsn: lsn, payload_crc32c: crc32c(encoded), target_revision: target, encoded: encoded.to_vec() }
}

#[test]
fn prepared_cut_capsule_round_trips_its_entries_in_order() {
    let frames = vec![frame(5, 11, b"first"), frame(9, 12, b""), frame(14, 13, b"third entry")];
    let bytes = encode_prepared_cut_frames(&frames).unwrap();
    assert_eq!(&bytes[0..4], b"CFPC");
    assert_eq!(&bytes[8..12], &3u32.to_le_bytes());
    assert_eq!(bytes.len(), 16 + 3 * 24 + 5 + 11);
    assert_eq!(decode_prepared_cut_frames(&bytes), Ok(frames));
    let empty = encode_prepared_cut_frames(&[]).unwrap();
    assert_eq!(empty.len(), 16);
    assert_eq!(decode_prepared_cut_frames(&empty), Ok(vec![]));
}

fn reseal(bytes: &mut Vec<u8>) {
    let crc = crc32c(&bytes[16..]);
    bytes[12..16].copy_from_slice(&crc.to_le_bytes());
}

#[test]
fn prepared_cut_capsule_refusals_name_their_cause() {
    let frames = vec![frame(1, 2, b"abc")];
    let bytes = encode_prepared_cut_frames(&frames).unwrap();
    assert_eq!(decode_prepared_cut_frames(&bytes[..10]), Err(corruption(0, "prepared cut capsule header mismatch")));
    let mut version = bytes.clone();
    version[4] = 2;
    assert_eq!(decode_prepared_cut_frames(&version), Err(corruption(0, "unsupported prepared cut capsule format")));
    let mut damaged = bytes.clone();
    damaged[20] ^= 1;
    assert_eq!(decode_prepared_cut_frames(&damaged), Err(corruption(0, "prepared cut capsule checksum mismatch")));

    let mut trailing = bytes.clone();
    trailing.push(0);
    reseal(&mut trailing);
    assert_eq!(decode_prepared_cut_frames(&trailing), Err(corruption(27, "prepared cut capsule has trailing bytes")));

    let mut more = bytes.clone();
    more[8] = 2;
    assert_eq!(decode_prepared_cut_frames(&more), Err(corruption(27, "prepared cut capsule entry truncated")));

    let mut long = bytes.clone();
    long[36] = 9;
    reseal(&mut long);
    assert_eq!(decode_prepared_cut_frames(&long), Err(corruption(24, "prepared cut capsule payload truncated")));
}
