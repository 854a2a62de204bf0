use std::collections::BTreeMap;
use std::io::Read;

use rand::distributions::Uniform;
use rand::Rng;
use stdin2file::args::Args;
use stdin2file::compression::CompressionFormat;
use stdin2file::orchestrator::{FirstFailure, Orchestrator};
use stdin2file::producer::FileOutput;
use stdin2file::retention::Receiver;

/// Runs the pipeline in memory: the map stands for the files on disk.
/// Completion reports reach the receiver in the order `arrival` gives.
fn run(
    input: &[u8],
    chunk_mb: usize,
    compression: Option<CompressionFormat>,
    max_files: Option<usize>,
    arrival: fn(usize) -> Vec<usize>,
) -> (usize, BTreeMap<String, Vec<u8>>) {
    let args = Args::new(chunk_mb, "out".to_string(), compression, max_files, None).unwrap();
    let mut orchestrator = Orchestrator::new(&args);
    let mut work = Vec::new();
    for &b in input {
        if let Some(c) = orchestrator.on_byte(b) {
            work.push(c);
        }
    }
    if let Some(c) = orchestrator.on_end() {
        work.push(c);
    }
    let produced = work.len();
    let mut disk = BTreeMap::new();
    let mut outputs: Vec<Option<FileOutput>> = Vec::new();
    let mut outcome: FirstFailure<String> = FirstFailure::new();
    for c in work {
        match c.output() {
            Ok(out) => {
                disk.insert(out.name.clone(), out.bytes.clone());
                outputs.push(Some(out));
            }
            Err(e) => {
                outcome.record(Err(format!("{:?}", e)));
                outputs.push(None);
            }
        }
    }
    assert_eq!(outcome.finish(), Ok(()));
    let mut receiver = Receiver::new(&args.base_output_file, args.max_files);
    for i in arrival(produced) {
        let name = outputs[i].as_ref().unwrap().name.clone();
        for gone in receiver.receive(name) {
            assert!(disk.remove(&gone).is_some());
        }
    }
    (produced, disk)
}

fn in_order(n: usize) -> Vec<usize> {
    (0..n).collect()
}

fn scrambled(n: usize) -> Vec<usize> {
    let mut v: Vec<usize> = (0..n).collect();
    v.reverse();
    v.rotate_left(n / 3);
    v
}

fn random_input(len: usize) -> Vec<u8> {
    let range = Uniform::new(0, 255);
    rand::thread_rng().sample_iter(&range).take(len).collect()
}

fn unxz(bytes: &[u8]) -> Vec<u8> {
    let mut out = Vec::new();
    xz2::read::XzDecoder::new(bytes).read_to_end(&mut out).unwrap();
    out
}

fn gunzip(bytes: &[u8]) -> Vec<u8> {
    let mut out = Vec::new();
    flate2::read::GzDecoder::new(bytes).read_to_end(&mut out).unwrap();
    out
}

fn check_survivors(
    disk: &BTreeMap<String, Vec<u8>>,
    suffix: &str,
    decode: fn(&[u8]) -> Vec<u8>,
    input: &[u8],
) {
    assert_eq!(disk.len(), 5);
    let mut data_from_files = Vec::new();
    for i in 5..=9 {
        let name = format!("out.{}{}", i, suffix);
        data_from_files.extend(decode(disk.get(&name).expect("survivor")));
    }
    assert_ne!(data_from_files, Vec::<u8>::new());
    assert_eq!(input[input.len() / 2..], data_from_files[..]);
}

fn same(b: &[u8]) -> Vec<u8> {
    b.to_vec()
}

const DATA_SIZE_BYTES: usize = 10 * 1024 * 1024;

#[test]
fn test_stdin2file_split_10_mb_uncompressed() {
    let data = random_input(DATA_SIZE_BYTES);
    let (produced, disk) = run(&data, 1, None, Some(5), in_order);
    assert_eq!(produced, 10);
    check_survivors(&disk, "", same, &data);
}

#[test]
fn tests_split_10_mb_uncompressed() {
    let data = random_input(DATA_SIZE_BYTES);
    let (produced, disk) = run(&data, 1, None, Some(5), scrambled);
    assert_eq!(produced, 10);
    check_survivors(&disk, "", same, &data);
}

#[test]
fn test_stdin2file_split_10_mb_compressed_xz() {
    let data = random_input(DATA_SIZE_BYTES);
    let (produced, disk) = run(&data, 1, Some(CompressionFormat::Xz), Some(5), in_order);
    assert_eq!(produced, 10);
    check_survivors(&disk, ".xz", unxz, &data);
}

#[test]
fn tests_split_10_mb_compressed_xz() {
    let data = random_input(DATA_SIZE_BYTES);
    let (produced, disk) = run(&data, 1, Some(CompressionFormat::Xz), Some(5), scrambled);
    assert_eq!(produced, 10);
    check_survivors(&disk, ".xz", unxz, &data);
}

#[test]
fn tests_split_10_mb_compressed_gz() {
    let data = random_input(DATA_SIZE_BYTES);
    let (produced, disk) = run(&data, 1, Some(CompressionFormat::Gz), Some(5), scrambled);
    assert_eq!(produced, 10);
    check_survivors(&disk, ".gz", gunzip, &data);
}

#[test]
fn test_stdin2file_split_10_mb_compressed_gz() {
    let data = random_input(DATA_SIZE_BYTES);
    let (produced, disk) = run(&data, 1, Some(CompressionFormat::Gz), Some(5), in_order);
    assert_eq!(produced, 10);
    check_survivors(&disk, ".gz", gunzip, &data);
}

#[test]
fn empty_input_produces_no_file() {
    let (produced, disk) = run(&[], 1, None, Some(5), in_order);
    assert_eq!(produced, 0);
    assert!(disk.is_empty());
}

#[test]
fn without_limit_all_files_survive_and_join_to_the_input() {
    let data = random_input(3 * 1024 * 1024 + 17);
    let (produced, disk) = run(&data, 1, None, None, scrambled);
    assert_eq!(produced, 4);
    assert_eq!(disk.len(), 4);
    let mut joined = Vec::new();
    for i in 0..4 {
        joined.extend(disk[&format!("out.{}", i)].iter().copied());
    }
    assert_eq!(joined, data);
}
