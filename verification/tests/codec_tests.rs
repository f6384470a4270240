//! Round-trip, boundary, and failure-path tests for the codec.

use transcript_explorer::codec::{
    concat_frames, decode, decode_frames, encode, split_chunks, CodecError, QualityPreset,
    CHUNK_SIZE,
};

/// Deterministic pseudo-random bytes from a linear congruential generator.
fn pseudo_random_bytes(len: usize, seed: u64) -> Vec<u8> {
    let mut state = seed;
    let mut out = Vec::with_capacity(len);
    for _ in 0..len {
        state = state.wrapping_mul(6364136223846793005).wrapping_add(1442695040888963407);
        out.push((state >> 33) as u8);
    }
    out
}

fn roundtrip(data: &Vec<u8>, pass: &str, preset: QualityPreset, workers: usize) -> Vec<u8> {
    let container = encode(data, pass, preset, workers).expect("encode failed");
    decode(&container, pass).expect("decode failed")
}

#[test]
fn roundtrip_empty() {
    let data: Vec<u8> = Vec::new();
    assert_eq!(roundtrip(&data, "pw", QualityPreset::Fast, 1), data);
    assert_eq!(roundtrip(&data, "pw", QualityPreset::Fast, 4), data);
}

#[test]
fn roundtrip_one_byte() {
    let data = vec![42u8];
    assert_eq!(roundtrip(&data, "pw", QualityPreset::Fast, 1), data);
    assert_eq!(roundtrip(&data, "pw", QualityPreset::Fast, 4), data);
}

#[test]
fn roundtrip_exactly_one_chunk() {
    let data = pseudo_random_bytes(CHUNK_SIZE, 7);
    assert_eq!(roundtrip(&data, "pw", QualityPreset::Fast, 4), data);
}

#[test]
fn roundtrip_one_and_a_half_chunks() {
    // Scenario: 1.5 chunk sizes of pseudo-random data reproduce exactly.
    let data = pseudo_random_bytes(CHUNK_SIZE + CHUNK_SIZE / 2, 11);
    assert_eq!(roundtrip(&data, "pw", QualityPreset::Fast, 4), data);
}

#[test]
fn frame_boundaries_one_chunk() {
    let one = pseudo_random_bytes(CHUNK_SIZE / 2, 1);
    assert_eq!(roundtrip(&one, "pw", QualityPreset::Fast, 4), one);
}

#[test]
fn frame_boundaries_two_chunks() {
    let two = pseudo_random_bytes(CHUNK_SIZE + 1, 2);
    assert_eq!(roundtrip(&two, "pw", QualityPreset::Fast, 4), two);
}

#[test]
fn frame_boundaries_thirty_three_chunks() {
    // 33 frames cross typical worker-pool sizes.  A short pseudo-random
    // block is repeated so the input stays cheap to compress.
    let block = pseudo_random_bytes(1024, 3);
    let mut many = Vec::with_capacity(32 * CHUNK_SIZE + CHUNK_SIZE / 4);
    while many.len() < 32 * CHUNK_SIZE + CHUNK_SIZE / 4 {
        let take = (32 * CHUNK_SIZE + CHUNK_SIZE / 4 - many.len()).min(block.len());
        many.extend_from_slice(&block[..take]);
    }
    assert_eq!(roundtrip(&many, "pw", QualityPreset::Fast, 8), many);
}

#[test]
fn roundtrip_compressible_text() {
    let mut data = Vec::new();
    while data.len() < 3 * CHUNK_SIZE / 2 {
        data.extend_from_slice(b"a highly repetitive line of summary text\n");
    }
    assert_eq!(roundtrip(&data, "secret", QualityPreset::Balanced, 2), data);
}

#[test]
fn worker_count_invariance() {
    // The same input encoded with pool sizes 1, 2 and 8 decodes identically.
    let data = pseudo_random_bytes(CHUNK_SIZE + 1234, 5);
    let c1 = encode(&data, "pw", QualityPreset::Fast, 1).unwrap();
    let c2 = encode(&data, "pw", QualityPreset::Fast, 2).unwrap();
    let c8 = encode(&data, "pw", QualityPreset::Fast, 8).unwrap();
    assert_eq!(decode(&c1, "pw").unwrap(), data);
    assert_eq!(decode(&c2, "pw").unwrap(), data);
    assert_eq!(decode(&c8, "pw").unwrap(), data);
}

#[test]
fn wrong_passphrase_fails_closed() {
    let data = pseudo_random_bytes(1000, 9);
    let container = encode(&data, "correct", QualityPreset::Fast, 2).unwrap();
    assert_eq!(decode(&container, "wrong"), Err(CodecError::DecryptionError));
}

#[test]
fn corrupted_ciphertext_fails_closed() {
    // Scenario: flip one byte in the middle of a valid container.
    let data = pseudo_random_bytes(10000, 13);
    let mut container = encode(&data, "pw", QualityPreset::Fast, 2).unwrap();
    let mid = container.len() - 100;
    container[mid] ^= 0x40;
    assert_eq!(decode(&container, "pw"), Err(CodecError::DecryptionError));
}

#[test]
fn garbage_is_a_format_error() {
    let garbage = pseudo_random_bytes(300, 17);
    assert_eq!(decode(&garbage, "pw"), Err(CodecError::FormatError));
    let empty: Vec<u8> = Vec::new();
    assert_eq!(decode(&empty, "pw"), Err(CodecError::FormatError));
}

#[test]
fn bad_payload_is_a_compression_error() {
    let garbage = vec![0xFFu8; 64];
    assert_eq!(decode_frames(&garbage), Err(CodecError::CompressionError));
    let truncated = vec![0x0Bu8];
    assert_eq!(decode_frames(&truncated), Err(CodecError::CompressionError));
}

#[test]
fn empty_payload_decodes_to_nothing() {
    let empty: Vec<u8> = Vec::new();
    assert_eq!(decode_frames(&empty), Ok(Vec::new()));
}

#[test]
fn chunk_count_and_last_chunk_length() {
    // ceil(len / c) chunks; the last holds len % c bytes unless that is 0.
    let data = pseudo_random_bytes(10, 21);
    let chunks = split_chunks(&data, 4);
    assert_eq!(chunks.len(), 3);
    assert_eq!(chunks[0].len(), 4);
    assert_eq!(chunks[1].len(), 4);
    assert_eq!(chunks[2].len(), 2);
    assert_eq!(chunks[0], data[0..4].to_vec());
    assert_eq!(chunks[2], data[8..10].to_vec());

    let exact = pseudo_random_bytes(8, 23);
    let chunks = split_chunks(&exact, 4);
    assert_eq!(chunks.len(), 2);
    assert_eq!(chunks[1].len(), 4);

    let empty: Vec<u8> = Vec::new();
    assert_eq!(split_chunks(&empty, 4).len(), 0);
}

#[test]
fn chunks_concatenate_back() {
    let data = pseudo_random_bytes(1001, 29);
    let chunks = split_chunks(&data, 64);
    assert_eq!(concat_frames(&chunks), data);
}

#[test]
fn quality_preset_levels() {
    assert_eq!(QualityPreset::Fast.level(), 1);
    assert_eq!(QualityPreset::Balanced.level(), 6);
    assert_eq!(QualityPreset::Best.level(), 11);
}

#[test]
fn error_messages_name_the_failure() {
    assert!(CodecError::DecryptionError.message().contains("passphrase"));
    assert!(CodecError::FormatError.message().contains("container"));
    assert!(CodecError::CompressionError.message().contains("compression"));
    assert!(CodecError::IOError.message().contains("filesystem"));
}
