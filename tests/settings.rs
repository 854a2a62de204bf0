use stdin2file::args::{Args, ArgsError, MEBIBYTE};
use stdin2file::compression::CompressionFormat;
use stdin2file::orchestrator::{FirstFailure, Orchestrator};

#[test]
fn valid_settings() {
    let a = Args::new(1, "out".to_string(), Some(CompressionFormat::Xz), Some(5), None).unwrap();
    assert_eq!(a.chunk, 1);
    assert_eq!(a.max_files, 5);
    assert_eq!(a.chunk_bytes(), 1024 * 1024);
    assert_eq!(a.compression, Some(CompressionFormat::Xz));
    assert_eq!(a.base_output_file, "out");
}

#[test]
fn no_limit_means_unlimited() {
    let a = Args::new(3, "o".to_string(), None, None, None).unwrap();
    assert_eq!(a.max_files, usize::MAX);
    assert_eq!(a.chunk_bytes(), 3 * MEBIBYTE);
}

#[test]
fn refused_settings() {
    assert!(matches!(
        Args::new(0, "o".to_string(), None, None, None),
        Err(ArgsError::ChunkNotPositive)
    ));
    assert!(matches!(
        Args::new(usize::MAX / MEBIBYTE + 1, "o".to_string(), None, None, None),
        Err(ArgsError::ChunkTooLarge)
    ));
    assert!(matches!(
        Args::new(1, "o".to_string(), None, Some(0), None),
        Err(ArgsError::MaxFilesNotPositive)
    ));
}

#[test]
fn orchestrator_hands_out_work_per_chunk() {
    let a = Args::new(1, "base".to_string(), Some(CompressionFormat::Gz), None, None).unwrap();
    let mut o = Orchestrator::new(&a);
    let mut work = Vec::new();
    for i in 0..(2 * MEBIBYTE + 10) {
        assert!(o.can_take());
        if let Some(c) = o.on_byte((i % 256) as u8) {
            work.push(c);
        }
    }
    assert_eq!(work.len(), 2);
    assert_eq!(work[0].file_name, "base.0");
    assert_eq!(work[1].file_name, "base.1");
    assert_eq!(work[1].buffer.len(), MEBIBYTE);
    assert_eq!(work[0].compression, CompressionFormat::Gz);
    let last = o.on_end().expect("ten bytes are left");
    assert_eq!(last.file_name, "base.2");
    assert_eq!(last.buffer.len(), 10);
}

#[test]
fn orchestrator_on_empty_input_makes_nothing() {
    let a = Args::new(1, "base".to_string(), None, None, None).unwrap();
    let o = Orchestrator::new(&a);
    assert!(o.on_end().is_none());
}

#[test]
fn first_failure_wins() {
    let mut f: FirstFailure<&str> = FirstFailure::new();
    f.record(Ok(()));
    f.record(Err("first"));
    f.record(Ok(()));
    f.record(Err("second"));
    assert_eq!(f.finish(), Err("first"));

    let mut g: FirstFailure<&str> = FirstFailure::new();
    g.record(Ok(()));
    assert_eq!(g.finish(), Ok(()));
}
