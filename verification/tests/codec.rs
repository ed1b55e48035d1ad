use prs_codec::{compress, decompress, round_trip, truncation_detected, PrsError};

fn lcg_bytes(seed: u64, n: usize) -> Vec<u8> {
    let mut x: u64 = seed;
    let mut v = Vec::with_capacity(n);
    for _ in 0..n {
        x = x.wrapping_mul(6364136223846793005).wrapping_add(1442695040888963407);
        v.push((x >> 33) as u8);
    }
    v
}

fn assert_round_trip(data: &[u8]) {
    let c = compress(data.to_vec());
    let d = decompress(c).expect("valid stream");
    assert_eq!(d, data.to_vec());
}

#[test]
fn round_trip_empty() {
    assert_round_trip(&[]);
}

#[test]
fn round_trip_single_byte() {
    assert_round_trip(&[0x00]);
    assert_round_trip(&[0xFF]);
    assert_round_trip(&[0x41]);
}

#[test]
fn round_trip_small_patterns() {
    assert_round_trip(b"Hello Hello Hello ");
    assert_round_trip(b"abcabcabcabcabcabc");
    assert_round_trip(&[0u8; 1000]);
    assert_round_trip(&[0xAB; 300]);
    let mut ramp = Vec::new();
    for i in 0..1024usize {
        ramp.push((i % 251) as u8);
    }
    assert_round_trip(&ramp);
}

#[test]
fn round_trip_random_buffers() {
    assert_round_trip(&lcg_bytes(1, 997));
    assert_round_trip(&lcg_bytes(2, 4096));
    // low-entropy random bytes give the match finder real work
    let compressible: Vec<u8> = lcg_bytes(3, 4096).iter().map(|b| b % 4).collect();
    assert_round_trip(&compressible);
}

#[test]
fn round_trip_law_function() {
    let data = lcg_bytes(7, 500);
    assert_eq!(round_trip(data.clone()), data);
    assert_eq!(round_trip(Vec::new()), Vec::<u8>::new());
}

#[test]
fn size_bound_on_incompressible_data() {
    for (seed, n) in [(11u64, 0usize), (12, 1), (13, 100), (14, 4096)] {
        let data = lcg_bytes(seed, n);
        let c = compress(data.clone());
        assert!(8 * c.len() <= 9 * n + 26, "len {} for input {}", c.len(), n);
    }
}

#[test]
fn truncation_is_detected() {
    let data = b"truncate me, truncate me".to_vec();
    let mut c = compress(data);
    c.pop();
    assert_eq!(decompress(c), Err(PrsError::TruncatedStream));
}

#[test]
fn truncation_law_function() {
    assert_eq!(truncation_detected(lcg_bytes(5, 333)), PrsError::TruncatedStream);
    assert_eq!(truncation_detected(Vec::new()), PrsError::TruncatedStream);
}

#[test]
fn truncated_empty_and_partial_streams() {
    // no bytes at all: not even a control bit to read
    assert_eq!(decompress(Vec::new()), Err(PrsError::TruncatedStream));
    // a literal control bit with no literal byte behind it
    assert_eq!(decompress(vec![0x01]), Err(PrsError::TruncatedStream));
    // a long-copy announcement with only one of its two bytes
    assert_eq!(decompress(vec![0x02, 0x12]), Err(PrsError::TruncatedStream));
}

#[test]
fn invalid_reference_is_detected() {
    // control bits 0,0,0,0: a short copy of length 2, offset byte 0xFF,
    // so distance 1 while the output is still empty
    assert_eq!(decompress(vec![0x00, 0xFF]), Err(PrsError::InvalidReference));
    // a long copy with distance 2 right after a single literal
    // bits: 1 (literal), 0,1 (long copy); word 0xFFF1: distance 2, length 3
    assert_eq!(
        decompress(vec![0b0000_0101, 0x41, 0xF1, 0xFF]),
        Err(PrsError::InvalidReference)
    );
}

#[test]
fn self_overlapping_copy_expands_run() {
    // bits: 1 (literal 'A'), 0,1 (long copy), 0,1 (end marker)
    // long-copy word 0xFFF8: distance 1, length field 0, so the next byte
    // 0x09 gives length 10; the copy must replay byte by byte
    let stream = vec![0x15, 0x41, 0xF8, 0xFF, 0x09, 0x00, 0x00];
    let out = decompress(stream).expect("valid stream");
    assert_eq!(out, vec![0x41; 11]);
}

#[test]
fn short_copy_overlap_round_trip() {
    // a run of one repeated byte forces overlapping copies out of compress
    assert_round_trip(&[0x5A; 97]);
}

#[test]
fn known_vector_aaaa() {
    let data = vec![0x41, 0x41, 0x41, 0x41];
    let c = compress(data.clone());
    // one literal 'A', then a copy of distance 1 and length 3, then the end
    // marker: flag byte 0x51, payloads 'A', offset byte 0xFF, zero word
    assert_eq!(c, vec![0x51, 0x41, 0xFF, 0x00, 0x00]);
    // the first token is a literal ('literal' control bit set, raw byte next)
    assert_eq!(c[0] & 1, 1);
    assert_eq!(c[1], 0x41);
    // the stream ends with the end-of-stream marker's zero word
    assert_eq!(&c[c.len() - 2..], &[0x00, 0x00]);
    assert_eq!(decompress(c), Ok(data));
}

#[test]
fn empty_input_gives_minimal_stream() {
    let c = compress(Vec::new());
    // nothing but the end marker: control bits 0,1 then the zero word
    assert_eq!(c, vec![0x02, 0x00, 0x00]);
    assert_eq!(decompress(c), Ok(Vec::new()));
}

#[test]
fn decoder_stops_at_end_marker() {
    // trailing garbage after the end marker is never read
    let c = vec![0x02, 0x00, 0x00, 0xDE, 0xAD];
    assert_eq!(decompress(c), Ok(Vec::new()));
}

#[test]
fn known_vector_abcabcabc() {
    // literals a, b, c; then the greedy finder takes the longest run: a
    // self-overlapping copy of distance 3 and length 6, carried long form
    let data = b"abcabcabc".to_vec();
    let c = compress(data.clone());
    // word (8192 - 3) * 8 + (6 - 2) = 0xFFEC, little endian
    assert_eq!(c, vec![0x57, 0x61, 0x62, 0x63, 0xEC, 0xFF, 0x00, 0x00]);
    assert_eq!(decompress(c), Ok(data));
}

#[test]
fn known_vector_ababab() {
    // literals a, b; then a copy of distance 2 and length 4 in the short
    // form: among equally long matches the nearest offset wins
    let data = b"ababab".to_vec();
    let c = compress(data.clone());
    assert_eq!(c, vec![0x93, 0x61, 0x62, 0xFE, 0x00, 0x00]);
    assert_eq!(decompress(c), Ok(data));
}

#[test]
fn widest_distance_is_checked_against_output() {
    // a long copy whose 13-bit distance field is zero means distance 8192;
    // with no output yet it must be an invalid reference, not a crash
    assert_eq!(decompress(vec![0x02, 0x01, 0x00]), Err(PrsError::InvalidReference));
}
