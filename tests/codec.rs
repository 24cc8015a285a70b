use blockcopy::chunk::Chunk;
use blockcopy::codec::{decode_index, decode_record, decode_skip_run, encode_index, encode_record, encode_skip_run, FormatError, RESERVED};

#[test]
fn record_round_trip() {
    let chunk = Chunk { offset: 8192, data: vec![7u8; 4096] };
    let bytes = encode_record(&chunk, 4096, 16384);
    assert_eq!(bytes.len(), 8 + 4096);
    assert_eq!(&bytes[0..8], &2u64.to_be_bytes());
    let back = decode_record(&bytes, 0, 16384, 4096).unwrap().unwrap();
    assert_eq!(back.offset, 8192);
    assert_eq!(back.data, chunk.data);
}

#[test]
fn short_final_chunk_is_padded_then_truncated() {
    let chunk = Chunk { offset: 8192, data: vec![9u8; 100] };
    let bytes = encode_record(&chunk, 4096, 8292);
    assert_eq!(bytes.len(), 8 + 4096);
    assert!(bytes[8 + 100..].iter().all(|b| *b == 0));
    let back = decode_record(&bytes, 0, 8292, 4096).unwrap().unwrap();
    assert_eq!(back.offset, 8192);
    assert_eq!(back.data, vec![9u8; 100]);
}

#[test]
fn record_errors() {
    let end = RESERVED.to_be_bytes();
    assert!(decode_record(&end, 0, 100, 10).unwrap().is_none());
    let mut far = 5u64.to_be_bytes().to_vec();
    far.extend_from_slice(&[0u8; 10]);
    assert!(matches!(decode_record(&far, 0, 50, 10), Err(FormatError::ChunkOutOfRange(5))));
    let short = 1u64.to_be_bytes();
    assert!(matches!(decode_record(&short, 0, 50, 10), Err(FormatError::Truncated)));
    assert!(matches!(decode_record(&[1, 2, 3], 0, 50, 10), Err(FormatError::Truncated)));
}

fn be(x: u64) -> Vec<u8> {
    x.to_be_bytes().to_vec()
}

#[test]
fn skip_run_layout() {
    let entries = vec![None, None, Some(vec![1u8, 2]), Some(vec![3u8, 4]), None, Some(vec![5u8, 6]), None];
    let bytes = encode_skip_run(&entries, 2);
    let mut expected = Vec::new();
    expected.extend(be(2));
    expected.extend(be(2));
    expected.extend([1, 2, 3, 4]);
    expected.extend(be(1));
    expected.extend(be(1));
    expected.extend([5, 6]);
    expected.extend(be(1));
    expected.extend(be(0));
    assert_eq!(bytes, expected);
    assert_eq!(decode_skip_run(&bytes, 7, 2).unwrap(), entries);
    assert_eq!(encode_skip_run(&vec![], 2), Vec::<u8>::new());
    assert_eq!(decode_skip_run(&[], 0, 2).unwrap(), Vec::<Option<Vec<u8>>>::new());
}

#[test]
fn skip_run_counts_add_up_and_no_empty_record() {
    let entries = vec![Some(vec![1u8]), None, None, Some(vec![2u8]), Some(vec![3u8])];
    let bytes = encode_skip_run(&entries, 1);
    let mut pos = 0;
    let mut total = 0;
    while pos < bytes.len() {
        let skip = u64::from_be_bytes(bytes[pos..pos + 8].try_into().unwrap());
        let run = u64::from_be_bytes(bytes[pos + 8..pos + 16].try_into().unwrap());
        assert!(skip + run > 0);
        total += skip + run;
        pos += 16 + run as usize;
    }
    assert_eq!(total, 5);
}

#[test]
fn skip_run_errors() {
    let mut zero = be(0);
    zero.extend(be(0));
    assert_eq!(decode_skip_run(&zero, 3, 1), Err(FormatError::EmptyRun));
    let mut too_many = be(2);
    too_many.extend(be(2));
    assert_eq!(decode_skip_run(&too_many, 3, 1), Err(FormatError::CountMismatch));
    let mut trailing = be(3);
    trailing.extend(be(0));
    trailing.push(0);
    assert_eq!(decode_skip_run(&trailing, 3, 1), Err(FormatError::TrailingBytes));
    let mut cut = be(0);
    cut.extend(be(2));
    cut.push(1);
    assert_eq!(decode_skip_run(&cut, 3, 1), Err(FormatError::Truncated));
    assert_eq!(decode_skip_run(&be(1), 3, 1), Err(FormatError::Truncated));
}

#[test]
fn index_round_trip_after_chunk_data() {
    let locations = vec![Some(0u64), None, Some(4104), None];
    let index = encode_index(&locations).unwrap();
    let mut body = RESERVED.to_be_bytes().to_vec();
    body.extend(index);
    assert_eq!(decode_index(&body, 4).unwrap(), locations);
}

#[test]
fn reserved_location_is_refused() {
    assert_eq!(encode_index(&vec![Some(RESERVED)]), Err(FormatError::ReservedLocation));
    let mut runs = be(0);
    runs.extend(be(1));
    runs.extend(be(RESERVED));
    let mut body = RESERVED.to_be_bytes().to_vec();
    body.extend(runs.clone());
    body.extend(be(runs.len() as u64));
    assert_eq!(decode_index(&body, 1), Err(FormatError::ReservedLocation));
}

#[test]
fn index_size_past_start_is_refused() {
    let mut body = RESERVED.to_be_bytes().to_vec();
    body.extend(be(100));
    assert_eq!(decode_index(&body, 1), Err(FormatError::Truncated));
}
