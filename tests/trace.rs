use blockcopy::trace::{dispatch, BlkEvent, TraceError, TracedDevice, swap16, swap32, swap64};

fn record_le(e: &BlkEvent) -> Vec<u8> {
    let mut b = Vec::new();
    b.extend_from_slice(&e.magic.to_le_bytes());
    b.extend_from_slice(&e.sequence.to_le_bytes());
    b.extend_from_slice(&e.time.to_le_bytes());
    b.extend_from_slice(&e.sector.to_le_bytes());
    b.extend_from_slice(&e.bytes.to_le_bytes());
    b.extend_from_slice(&e.action.to_le_bytes());
    b.extend_from_slice(&e.pid.to_le_bytes());
    b.extend_from_slice(&e.device.to_le_bytes());
    b.extend_from_slice(&e.cpu.to_le_bytes());
    b.extend_from_slice(&e.error.to_le_bytes());
    b.extend_from_slice(&e.pdu_len.to_le_bytes());
    b
}

fn record_be(e: &BlkEvent) -> Vec<u8> {
    let mut b = Vec::new();
    b.extend_from_slice(&e.magic.to_be_bytes());
    b.extend_from_slice(&e.sequence.to_be_bytes());
    b.extend_from_slice(&e.time.to_be_bytes());
    b.extend_from_slice(&e.sector.to_be_bytes());
    b.extend_from_slice(&e.bytes.to_be_bytes());
    b.extend_from_slice(&e.action.to_be_bytes());
    b.extend_from_slice(&e.pid.to_be_bytes());
    b.extend_from_slice(&e.device.to_be_bytes());
    b.extend_from_slice(&e.cpu.to_be_bytes());
    b.extend_from_slice(&e.error.to_be_bytes());
    b.extend_from_slice(&e.pdu_len.to_be_bytes());
    b
}

fn queued_write(device: u32, sector: u64, bytes: u32) -> BlkEvent {
    BlkEvent {
        magic: 0x6561_7407,
        sequence: 42,
        time: 123_456_789,
        sector,
        bytes,
        action: (0x0002 << 16) | 1,
        pid: 77,
        device,
        cpu: 3,
        error: 0,
        pdu_len: 5,
    }
}

const SDA: u32 = (8 << 20) | 0;

#[test]
fn native_record_decodes() {
    let e = queued_write(SDA, 4096, 4096);
    let b = record_le(&e);
    assert_eq!(b.len(), 48);
    assert_eq!(BlkEvent::decode(&b), Ok(e));
}

#[test]
fn byte_swapped_record_decodes_identically() {
    let e = queued_write(SDA, 4096, 4096);
    let b = record_be(&e);
    assert_eq!(BlkEvent::decode(&b), Ok(e));
    let d = BlkEvent::decode(&b).unwrap();
    assert!(d.is_queued_write());
    let devices = vec![TracedDevice { job_index: 0, disk_event_dev: SDA, start_sector: 0, sector_count: 204800, chunk_size: 65536 }];
    assert_eq!(dispatch(&d, &devices).marks, dispatch(&e, &devices).marks);
}

#[test]
fn bad_magic_and_version_are_refused() {
    let mut e = queued_write(SDA, 0, 512);
    e.magic = 0x1234_5678;
    assert_eq!(BlkEvent::decode(&record_le(&e)), Err(TraceError::BadMagic(0x1234_5678)));
    e.magic = 0x6561_7406;
    assert_eq!(BlkEvent::decode(&record_le(&e)), Err(TraceError::UnsupportedVersion(6)));
    assert_eq!(BlkEvent::decode(&record_be(&e)), Err(TraceError::UnsupportedVersion(6)));
    assert_eq!(BlkEvent::decode(&[0u8; 47]), Err(TraceError::ShortRecord));
}

#[test]
fn swapping_reverses_bytes() {
    assert_eq!(swap16(0x1234), 0x3412);
    assert_eq!(swap32(0x1234_5678), 0x7856_3412);
    assert_eq!(swap64(0x0102_0304_0506_0708), 0x0807_0605_0403_0201);
    let mut e = queued_write(SDA, 9, 10);
    e.swap_endian();
    assert_eq!(e.sector, 9u64.swap_bytes());
    assert_eq!(e.error, 0);
    e.swap_endian();
    assert_eq!(e, queued_write(SDA, 9, 10));
}

#[test]
fn only_queued_writes_with_data_count() {
    let devices = vec![TracedDevice { job_index: 0, disk_event_dev: SDA, start_sector: 0, sector_count: 1000, chunk_size: 4096 }];
    let mut read = queued_write(SDA, 0, 512);
    read.action = (0x0001 << 16) | 1;
    assert!(!read.is_queued_write());
    assert!(dispatch(&read, &devices).marks.is_empty());
    let mut complete = queued_write(SDA, 0, 512);
    complete.action = (0x0002 << 16) | 8;
    assert!(dispatch(&complete, &devices).marks.is_empty());
    let empty = queued_write(SDA, 0, 0);
    assert!(dispatch(&empty, &devices).marks.is_empty());
}

#[test]
fn partition_and_whole_disk_both_marked() {
    let chunk_size = 65536;
    let devices = vec![
        TracedDevice { job_index: 0, disk_event_dev: SDA, start_sector: 0, sector_count: 100 * 2048, chunk_size },
        TracedDevice { job_index: 1, disk_event_dev: SDA, start_sector: 2048, sector_count: 50 * 2048, chunk_size },
    ];
    let e = queued_write(SDA, 4096, 4096);
    let d = dispatch(&e, &devices);
    assert_eq!(d.marks, vec![(0, 4096 * 512 / 65536), (1, 2048 * 512 / 65536)]);
    assert!(!d.overrun);
}

#[test]
fn write_spanning_chunks_marks_each() {
    let devices = vec![TracedDevice { job_index: 2, disk_event_dev: SDA, start_sector: 0, sector_count: 64, chunk_size: 4096 }];
    let e = queued_write(SDA, 7, 4096);
    assert_eq!(dispatch(&e, &devices).marks, vec![(2, 0), (2, 1)]);
    let other_disk = queued_write(SDA + 1, 7, 4096);
    assert!(dispatch(&other_disk, &devices).marks.is_empty());
}

#[test]
fn overrun_is_reported_not_fatal() {
    let devices = vec![TracedDevice { job_index: 0, disk_event_dev: SDA, start_sector: 100, sector_count: 16, chunk_size: 4096 }];
    let e = queued_write(SDA, 112, 8192);
    let d = dispatch(&e, &devices);
    assert!(d.overrun);
    assert_eq!(d.marks, vec![(0, 1), (0, 2), (0, 3)]);
}

#[test]
fn overrun_marks_every_touched_chunk() {
    let devices = vec![TracedDevice { job_index: 4, disk_event_dev: SDA, start_sector: 0, sector_count: 8, chunk_size: 4096 }];
    let d = dispatch(&queued_write(SDA, 0, 8192), &devices);
    assert!(d.overrun);
    assert_eq!(d.marks, vec![(4, 0), (4, 1)]);
}
