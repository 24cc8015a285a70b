use blockcopy::device::{event_dev, parse_decimal, parse_major_minor, parse_sysfs_number, split_device_number, Device, DeviceError};

#[test]
fn device_numbers() {
    assert_eq!(split_device_number((8 << 20) | 1), Ok((8, 1)));
    assert_eq!(split_device_number(5), Err(DeviceError::NotADevice));
    assert_eq!(split_device_number(0x1000 << 20), Err(DeviceError::NumberOutOfRange));
    assert_eq!(event_dev(8, 1), (8 << 20) | 1);
    assert_eq!(event_dev(259, 0xfffff), (259 << 20) | 0xfffff);
}

#[test]
fn sysfs_numbers() {
    assert_eq!(parse_sysfs_number(b"204800\n"), Some(204800));
    assert_eq!(parse_sysfs_number(b"0\n"), Some(0));
    assert_eq!(parse_sysfs_number(b"\n"), None);
    assert_eq!(parse_sysfs_number(b""), None);
    assert_eq!(parse_sysfs_number(b"12a\n"), None);
    assert_eq!(parse_sysfs_number(b"18446744073709551615\n"), Some(u64::MAX));
    assert_eq!(parse_sysfs_number(b"18446744073709551616\n"), None);
    assert_eq!(parse_decimal(b"x123y", 1, 4), Some(123));
    assert_eq!(parse_major_minor(b"8:0\n"), Some((8, 0)));
    assert_eq!(parse_major_minor(b"259:12\n"), Some((259, 12)));
    assert_eq!(parse_major_minor(b"8-0\n"), None);
    assert_eq!(parse_major_minor(b":0\n"), None);
    assert_eq!(parse_major_minor(b"8:\n"), None);
}

#[test]
fn partition_lies_on_its_disk() {
    let disk = Device::from_parts(8, 0, String::from("/sys/dev/block/8:0"), 204800, None).unwrap();
    assert_eq!(disk.end_sector, 204800);
    assert_eq!(disk.event_dev, 8 << 20);
    let part = Device::from_parts(8, 1, String::from("/sys/dev/block/8:1"), 102400, Some((2048, disk))).unwrap();
    assert_eq!(part.start_sector, 2048);
    assert_eq!(part.end_sector, 2048 + 102400);
    assert_eq!(part.get_base_device().event_dev, 8 << 20);
    let traced = part.traced(1, 65536);
    assert_eq!(traced.disk_event_dev, 8 << 20);
    assert_eq!(traced.start_sector, 2048);
    assert_eq!(traced.job_index, 1);
    assert!(matches!(Device::from_parts(0, 1, String::new(), 1, None), Err(DeviceError::NotADevice)));
    assert!(matches!(Device::from_parts(1, 0x100000, String::new(), 1, None), Err(DeviceError::NumberOutOfRange)));
    assert!(matches!(Device::from_parts(1, 1, String::new(), u64::MAX, None), Err(DeviceError::TooLarge)));
}
