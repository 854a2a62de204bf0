use stdin2file::chunker::{split_into_chunks, Chunker};

fn sample(len: usize) -> Vec<u8> {
    (0..len).map(|i| (i * 7 % 251) as u8).collect()
}

#[test]
fn exact_multiple_gives_full_chunks_only() {
    let data = sample(10);
    let chunks = split_into_chunks(&data, 5);
    assert_eq!(chunks.len(), 2);
    assert_eq!(chunks[0].sequence_number, 0);
    assert_eq!(chunks[1].sequence_number, 1);
    assert_eq!(chunks[0].bytes, data[0..5].to_vec());
    assert_eq!(chunks[1].bytes, data[5..10].to_vec());
}

#[test]
fn remainder_forms_a_short_last_chunk() {
    let data = sample(11);
    let chunks = split_into_chunks(&data, 5);
    assert_eq!(chunks.len(), 3);
    assert_eq!(chunks[2].sequence_number, 2);
    assert_eq!(chunks[2].bytes, vec![data[10]]);
}

#[test]
fn empty_input_gives_no_chunk() {
    let chunks = split_into_chunks(&[], 4);
    assert!(chunks.is_empty());
    let chunker = Chunker::new(4);
    assert!(chunker.finish().is_none());
}

#[test]
fn input_shorter_than_a_chunk_is_one_chunk() {
    let data = sample(3);
    let chunks = split_into_chunks(&data, 1024);
    assert_eq!(chunks.len(), 1);
    assert_eq!(chunks[0].bytes, data);
}

#[test]
fn chunk_count_is_the_ceiling_of_length_over_size() {
    for len in 0..40usize {
        for size in 1..9usize {
            let chunks = split_into_chunks(&sample(len), size);
            let expected = if len == 0 {
                0
            } else if len % size != 0 {
                len / size + 1
            } else {
                len / size
            };
            assert_eq!(chunks.len(), expected, "len {} size {}", len, size);
        }
    }
}

#[test]
fn concatenated_chunks_give_back_the_input() {
    let data = sample(1000);
    let chunks = split_into_chunks(&data, 64);
    let joined: Vec<u8> = chunks.iter().flat_map(|c| c.bytes.iter().copied()).collect();
    assert_eq!(joined, data);
    for (i, c) in chunks.iter().enumerate() {
        assert_eq!(c.sequence_number, i);
    }
}

#[test]
fn streaming_chunker_cuts_where_the_size_is_reached() {
    let mut chunker = Chunker::new(3);
    assert!(chunker.push(1).is_none());
    assert!(chunker.push(2).is_none());
    let first = chunker.push(3).expect("a full chunk");
    assert_eq!(first.sequence_number, 0);
    assert_eq!(first.bytes, vec![1, 2, 3]);
    assert_eq!(chunker.next_sequence(), 1);
    assert!(chunker.push(4).is_none());
    let last = chunker.finish().expect("the remainder");
    assert_eq!(last.sequence_number, 1);
    assert_eq!(last.bytes, vec![4]);
}
