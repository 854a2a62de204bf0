use std::io::Read;

use stdin2file::compression::{encode, CompressionFormat};
use stdin2file::producer::{produce, Compressor};
use stdin2file::chunker::Chunk;

fn sample(len: usize) -> Vec<u8> {
    (0..len).map(|i| (i * 31 % 256) as u8).collect()
}

fn gunzip(bytes: &[u8]) -> Vec<u8> {
    let mut out = Vec::new();
    flate2::read::GzDecoder::new(bytes).read_to_end(&mut out).expect("gzip stream");
    out
}

fn unxz(bytes: &[u8]) -> Vec<u8> {
    let mut out = Vec::new();
    xz2::read::XzDecoder::new(bytes).read_to_end(&mut out).expect("xz stream");
    out
}

#[test]
fn uncompressed_encoding_is_identity() {
    for len in [0usize, 1, 100, 4096] {
        let data = sample(len);
        assert_eq!(encode(CompressionFormat::Uncompressed, data.clone()).unwrap(), data);
    }
}

#[test]
fn gzip_round_trip() {
    let data = sample(50_000);
    let encoded = encode(CompressionFormat::Gz, data.clone()).unwrap();
    assert_ne!(encoded, data);
    assert_eq!(&encoded[0..2], &[0x1f, 0x8b]);
    assert_eq!(gunzip(&encoded), data);
}

#[test]
fn xz_round_trip() {
    let data = sample(50_000);
    let encoded = encode(CompressionFormat::Xz, data.clone()).unwrap();
    assert_ne!(encoded, data);
    assert_eq!(&encoded[0..6], &[0xfd, b'7', b'z', b'X', b'Z', 0x00]);
    assert_eq!(unxz(&encoded), data);
}

#[test]
fn round_trip_of_empty_buffer() {
    assert_eq!(gunzip(&encode(CompressionFormat::Gz, Vec::new()).unwrap()), Vec::<u8>::new());
    assert_eq!(unxz(&encode(CompressionFormat::Xz, Vec::new()).unwrap()), Vec::<u8>::new());
}

#[test]
fn encoding_is_deterministic() {
    let data = sample(10_000);
    assert_eq!(
        encode(CompressionFormat::Gz, data.clone()).unwrap(),
        encode(CompressionFormat::Gz, data.clone()).unwrap()
    );
    assert_eq!(
        encode(CompressionFormat::Xz, data.clone()).unwrap(),
        encode(CompressionFormat::Xz, data).unwrap()
    );
}

#[test]
fn producer_names_and_encodes_its_chunk() {
    let data = sample(2000);
    let out = produce("base", Chunk { sequence_number: 7, bytes: data.clone() }, CompressionFormat::Gz)
        .unwrap();
    assert_eq!(out.name, "base.7.gz");
    assert_eq!(gunzip(&out.bytes), data);

    let plain = produce("base", Chunk { sequence_number: 11, bytes: data.clone() }, CompressionFormat::Uncompressed)
        .unwrap();
    assert_eq!(plain.name, "base.11");
    assert_eq!(plain.bytes, data);
}

#[test]
fn compressor_appends_the_suffix() {
    let c = Compressor::new("f.3".to_string(), vec![1, 2, 3], CompressionFormat::Xz);
    let out = c.output().unwrap();
    assert_eq!(out.name, "f.3.xz");
    assert_eq!(unxz(&out.bytes), vec![1, 2, 3]);
}
