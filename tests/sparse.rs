use blockcopy::chunk::Chunk;
use blockcopy::codec::{decode_index, decode_record, read_records, RESERVED};
use blockcopy::sparse::{file_position, index_positions, InterfaceParameters, Parameters, SparseWriter};

fn apply(body: &mut Vec<u8>, at: u64, bytes: &[u8]) {
    let at = at as usize;
    if at == body.len() {
        body.extend_from_slice(bytes);
    } else {
        body[at..at + bytes.len()].copy_from_slice(bytes);
    }
}

#[test]
fn rewrite_in_place_and_read_back_through_index() {
    let params = InterfaceParameters::default_parameters().internalize();
    assert_eq!(params, Parameters { save_index: true, append_only: false, optimize: false });
    let mut w = SparseWriter::create(10000, 4096, &params, true);
    assert!(w.header().indexed);
    let mut body = Vec::new();
    let writes = vec![
        Chunk { offset: 4096, data: vec![1; 4096] },
        Chunk { offset: 8192, data: vec![2; 1808] },
        Chunk { offset: 4096, data: vec![3; 4096] },
    ];
    for c in &writes {
        let (at, bytes) = w.write_chunk(c).unwrap();
        apply(&mut body, at, &bytes);
    }
    assert_eq!(body.len(), 2 * (8 + 4096));
    let tail = w.finish().unwrap();
    assert_eq!(&tail[0..8], &RESERVED.to_be_bytes());
    let mut file_body = body.clone();
    file_body.extend(tail);
    let index = decode_index(&file_body, 3).unwrap();
    assert_eq!(index, vec![None, Some(0), Some(4104)]);
    let one = decode_record(&file_body, 0, 10000, 4096).unwrap().unwrap();
    assert_eq!(one.offset, 4096);
    assert_eq!(one.data, vec![3; 4096]);
    let two = decode_record(&file_body, 4104, 10000, 4096).unwrap().unwrap();
    assert_eq!(two.offset, 8192);
    assert_eq!(two.data, vec![2; 1808]);
    assert!(decode_record(&file_body, 8208, 10000, 4096).unwrap().is_none());
}

#[test]
fn append_only_keeps_every_copy_and_index_takes_the_last() {
    let params = Parameters { save_index: true, append_only: true, optimize: false };
    let mut w = SparseWriter::create(8192, 4096, &params, true);
    let mut body = Vec::new();
    for v in 1..4u8 {
        let (at, bytes) = w.write_chunk(&Chunk { offset: 0, data: vec![v; 4096] }).unwrap();
        apply(&mut body, at, &bytes);
    }
    assert_eq!(body.len(), 3 * 4104);
    body.extend(w.finish().unwrap());
    let index = decode_index(&body, 2).unwrap();
    assert_eq!(index, vec![Some(2 * 4104), None]);
    let last = decode_record(&body, 2 * 4104, 8192, 4096).unwrap().unwrap();
    assert_eq!(last.data, vec![3; 4096]);
}

#[test]
fn empty_backup_is_marker_and_empty_index() {
    let params = Parameters { save_index: true, append_only: false, optimize: false };
    let w = SparseWriter::create(8192, 4096, &params, true);
    let tail = w.finish().unwrap();
    let mut expected = RESERVED.to_be_bytes().to_vec();
    expected.extend(2u64.to_be_bytes());
    expected.extend(0u64.to_be_bytes());
    expected.extend(16u64.to_be_bytes());
    assert_eq!(tail, expected);
    let unindexed = SparseWriter::create(8192, 4096, &Parameters { save_index: false, append_only: false, optimize: false }, true);
    assert_eq!(unindexed.finish().unwrap(), RESERVED.to_be_bytes().to_vec());
}

#[test]
fn short_final_chunk_is_written_padded() {
    let params = Parameters { save_index: true, append_only: false, optimize: false };
    let mut w = SparseWriter::create(10000, 4096, &params, true);
    let (at, bytes) = w.write_chunk(&Chunk { offset: 8192, data: vec![5; 1808] }).unwrap();
    assert_eq!(at, 0);
    assert_eq!(bytes.len(), 8 + 4096);
    assert_eq!(&bytes[0..8], &2u64.to_be_bytes());
    assert!(bytes[8 + 1808..].iter().all(|b| *b == 0));
}

#[test]
fn sequential_read_sees_every_copy_in_order() {
    let params = Parameters { save_index: false, append_only: true, optimize: false };
    let mut w = SparseWriter::create(8192, 4096, &params, false);
    assert!(!w.header().indexed);
    let mut body = Vec::new();
    for (off, v) in [(0u64, 1u8), (4096, 2), (0, 3)] {
        let (at, bytes) = w.write_chunk(&Chunk { offset: off, data: vec![v; 4096] }).unwrap();
        apply(&mut body, at, &bytes);
    }
    body.extend(w.finish().unwrap());
    let (chunks, end) = read_records(&body, 0, 8192, 4096).unwrap();
    assert_eq!(end, body.len());
    let seen: Vec<(u64, u8)> = chunks.iter().map(|c| (c.offset, c.data[0])).collect();
    assert_eq!(seen, vec![(0, 1), (4096, 2), (0, 3)]);
}

#[test]
fn file_positions_refuse_overflow_and_reserved() {
    assert_eq!(file_position(100, 4104), Some(4204));
    assert_eq!(file_position(1, RESERVED - 1), None);
    assert_eq!(file_position(RESERVED, 1), None);
    assert_eq!(file_position(0, RESERVED - 1), Some(RESERVED - 1));
}

#[test]
fn index_positions_refuse_unusable_offsets() {
    assert_eq!(index_positions(100, &vec![Some(0), None, Some(4104)]), Ok(vec![Some(100), None, Some(4204)]));
    assert_eq!(index_positions(100, &vec![Some(0), Some(RESERVED - 100)]), Err(blockcopy::codec::FormatError::ReservedLocation));
    assert_eq!(index_positions(100, &vec![None, Some(RESERVED - 50)]), Err(blockcopy::codec::FormatError::ReservedLocation));
}
