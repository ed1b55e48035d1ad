use std::io::{Cursor, Read, Write};

use ages_prs::{LegacyPrsDecoder, LegacyPrsEncoder};
use prs_codec::{compress, decompress};

fn lcg_bytes(seed: u64, n: usize) -> Vec<u8> {
    let mut x: u64 = seed;
    let mut v = Vec::with_capacity(n);
    for _ in 0..n {
        x = x.wrapping_mul(6364136223846793005).wrapping_add(1442695040888963407);
        v.push((x >> 33) as u8);
    }
    v
}

fn reference_compress(data: &[u8]) -> Vec<u8> {
    let mut enc = LegacyPrsEncoder::new(Vec::new());
    enc.write_all(data).unwrap();
    enc.into_inner().unwrap()
}

fn reference_decompress(data: &[u8]) -> Vec<u8> {
    let mut dec = LegacyPrsDecoder::new(Cursor::new(data));
    let mut out = Vec::new();
    dec.read_to_end(&mut out).unwrap();
    out
}

fn cases() -> Vec<Vec<u8>> {
    vec![
        Vec::new(),
        vec![0x41],
        b"Hello Hello Hello ".to_vec(),
        vec![0x5A; 300],
        lcg_bytes(21, 2000),
        lcg_bytes(22, 2000).iter().map(|b| b % 3).collect(),
    ]
}

#[test]
fn reference_decoder_reads_our_streams() {
    for data in cases() {
        let ours = compress(data.clone());
        assert_eq!(reference_decompress(&ours), data);
    }
}

#[test]
fn our_decoder_reads_reference_streams() {
    for data in cases() {
        let theirs = reference_compress(&data);
        assert_eq!(decompress(theirs), Ok(data));
    }
}
