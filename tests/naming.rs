use stdin2file::action::{Action, Job};
use stdin2file::compression::CompressionFormat;
use stdin2file::naming::{decimal_string, file_name};

#[test]
fn decimal_forms() {
    assert_eq!(decimal_string(0), "0");
    assert_eq!(decimal_string(9), "9");
    assert_eq!(decimal_string(10), "10");
    assert_eq!(decimal_string(1234567890), "1234567890");
    assert_eq!(decimal_string(usize::MAX), usize::MAX.to_string());
}

#[test]
fn file_names_carry_sequence_and_suffix() {
    assert_eq!(file_name("out", 0, CompressionFormat::Uncompressed), "out.0");
    assert_eq!(file_name("dir/log", 12, CompressionFormat::Xz), "dir/log.12.xz");
    assert_eq!(file_name("x", 10, CompressionFormat::Gz), "x.10.gz");
}

#[test]
fn suffixes_of_formats() {
    assert_eq!(CompressionFormat::Gz.suffix(), ".gz");
    assert_eq!(CompressionFormat::Xz.suffix(), ".xz");
    assert_eq!(CompressionFormat::Uncompressed.suffix(), "");
}

#[test]
fn compress_job_names_its_copy() {
    let job = Job { action: Action::CompressAndDelete, arg: "data.3".to_string() };
    assert_eq!(job.compressed_name(), "data.3.xz");
    assert_eq!(job.action, Action::CompressAndDelete);
}
