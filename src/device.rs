use vstd::prelude::*;
use crate::trace::{SECTOR_SIZE, TracedDevice};

verus! {

/// Major numbers that block traces can carry.
pub const MAJOR_LIMIT: u32 = 0x1000;

/// Minor numbers that block traces can carry.
pub const MINOR_LIMIT: u32 = 0x10_0000;

/// Why a device cannot be used.
#[derive(Clone, Copy, PartialEq, Eq, Structural, Debug)]
pub enum DeviceError {
    /// The file is not a device (its major number is zero).
    NotADevice,
    /// The major or minor number does not fit in a block trace record.
    NumberOutOfRange,
    /// A sysfs attribute does not hold what it should.
    BadAttribute,
    /// The device's extent does not fit in sector or byte arithmetic.
    TooLarge,
}

/// The major number of a device number: the bits above the low twenty.
pub open spec fn spec_major(dev: u64) -> u64 {
    dev / 0x10_0000
}

/// The minor number of a device number: its low twenty bits.
pub open spec fn spec_minor(dev: u64) -> u64 {
    dev % 0x10_0000
}

/// Split a device number into major and minor, refusing a non-device
/// (major zero) and numbers that a trace record cannot carry.
pub fn split_device_number(dev: u64) -> (r: Result<(u32, u32), DeviceError>)
    ensures
        spec_major(dev) == 0 ==> r == Err::<(u32, u32), DeviceError>(DeviceError::NotADevice),
        spec_major(dev) != 0 && spec_major(dev) >= MAJOR_LIMIT ==> r == Err::<(u32, u32), DeviceError>(
            DeviceError::NumberOutOfRange,
        ),
        spec_major(dev) != 0 && spec_major(dev) < MAJOR_LIMIT ==> r == Ok::<(u32, u32), DeviceError>(
            (spec_major(dev) as u32, spec_minor(dev) as u32),
        ),
{
    let major = dev / 0x10_0000;
    let minor = dev % 0x10_0000;
    if major == 0 {
        return Err(DeviceError::NotADevice);
    }
    if major >= MAJOR_LIMIT as u64 {
        return Err(DeviceError::NumberOutOfRange);
    }
    Ok((major as u32, minor as u32))
}

/// The device number that block trace records carry: the major number in
/// the high twelve bits, the minor in the low twenty.
pub fn event_dev(major: u32, minor: u32) -> (r: u32)
    requires
        major < MAJOR_LIMIT,
        minor < MINOR_LIMIT,
    ensures
        r == major * 0x10_0000 + minor,
{
    major * 0x10_0000 + minor
}

/// The value of ASCII decimal digits.
pub open spec fn decimal_value(digits: Seq<u8>) -> nat
    decreases digits.len(),
{
    if digits.len() == 0 {
        0
    } else {
        decimal_value(digits.drop_last()) * 10 + (digits.last() - 48) as nat
    }
}

pub open spec fn all_digits(s: Seq<u8>) -> bool {
    forall|i: int| 0 <= i < s.len() ==> 48 <= #[trigger] s[i] <= 57
}

/// The number in `s[from..to]`, if that is one or more decimal digits and
/// fits in 64 bits.
pub fn parse_decimal(s: &[u8], from: usize, to: usize) -> (r: Option<u64>)
    requires
        from <= to <= s@.len(),
    ensures
        r == if to > from && all_digits(s@.subrange(from as int, to as int))
            && decimal_value(s@.subrange(from as int, to as int)) <= u64::MAX {
            Some(decimal_value(s@.subrange(from as int, to as int)) as u64)
        } else {
            None::<u64>
        },
{
    if to == from {
        return None;
    }
    let mut value: u64 = 0;
    let mut i: usize = from;
    let mut fits = true;
    while i < to
        invariant
            from <= i <= to <= s@.len(),
            all_digits(s@.subrange(from as int, i as int)),
            fits ==> value == decimal_value(s@.subrange(from as int, i as int)),
            !fits ==> decimal_value(s@.subrange(from as int, i as int)) > u64::MAX,
        decreases to - i,
    {
        let c = s[i];
        let ghost prefix = s@.subrange(from as int, i as int);
        let ghost next = s@.subrange(from as int, i + 1);
        assert(next.drop_last() =~= prefix);
        if c < 48 || c > 57 {
            proof {
                assert(!all_digits(s@.subrange(from as int, to as int))) by {
                    assert(s@.subrange(from as int, to as int)[i - from] == c);
                }
            }
            return None;
        }
        proof {
            assert(all_digits(next)) by {
                assert forall|j: int| 0 <= j < next.len() implies 48 <= #[trigger] next[j] <= 57 by {
                    if j < prefix.len() {
                        assert(next[j] == prefix[j]);
                    }
                }
            }
        }
        if fits && value <= (u64::MAX - (c - 48) as u64) / 10 {
            value = value * 10 + (c - 48) as u64;
        } else {
            fits = false;
        }
        i = i + 1;
    }
    if fits {
        Some(value)
    } else {
        None
    }
}

/// A sysfs attribute of one number: decimal digits and a final newline.
pub fn parse_sysfs_number(content: &[u8]) -> (r: Option<u64>)
    ensures
        content@.len() == 0 ==> r is None,
        content@.len() > 0 ==> r == if all_digits(content@.drop_last()) && content@.len() > 1
            && decimal_value(content@.drop_last()) <= u64::MAX {
            Some(decimal_value(content@.drop_last()) as u64)
        } else {
            None::<u64>
        },
{
    if content.len() == 0 {
        return None;
    }
    let r = parse_decimal(content, 0, content.len() - 1);
    assert(content@.subrange(0, content@.len() - 1) =~= content@.drop_last());
    r
}

/// The number that `s` spells in decimal, if it is one that fits in 64 bits.
pub open spec fn decimal_of(s: Seq<u8>) -> Option<u64> {
    if s.len() > 0 && all_digits(s) && decimal_value(s) <= u64::MAX {
        Some(decimal_value(s) as u64)
    } else {
        None
    }
}

/// The position of the first `:` in `s` at or after `i`, or `s.len()`.
pub open spec fn first_colon(s: Seq<u8>, i: int) -> int
    decreases s.len() - i,
{
    if i >= s.len() || s[i] == 58 {
        i
    } else {
        first_colon(s, i + 1)
    }
}

/// What a sysfs `dev` attribute says: `major:minor` and one final byte (the
/// newline), both numbers fitting in 32 bits.
pub open spec fn major_minor_of(content: Seq<u8>) -> Option<(u32, u32)> {
    if content.len() < 2 {
        None
    } else {
        let body = content.drop_last();
        let c = first_colon(body, 0);
        if c == 0 || c >= body.len() {
            None
        } else {
            match (decimal_of(body.subrange(0, c)), decimal_of(body.subrange(c + 1, body.len() as int))) {
                (Some(a), Some(b)) => if a <= u32::MAX && b <= u32::MAX {
                    Some((a as u32, b as u32))
                } else {
                    None
                },
                _ => None,
            }
        }
    }
}

/// A sysfs `dev` attribute: `major:minor` and a final newline.
pub fn parse_major_minor(content: &[u8]) -> (r: Option<(u32, u32)>)
    ensures
        r == major_minor_of(content@),
{
    let n = content.len();
    if n < 2 {
        return None;
    }
    let ghost body = content@.drop_last();
    let mut c: usize = 0;
    while c < n - 1 && content[c] != 58
        invariant
            c <= n - 1,
            n == content@.len(),
            body == content@.drop_last(),
            first_colon(body, 0) == first_colon(body, c as int),
        decreases n - 1 - c,
    {
        c = c + 1;
    }
    assert(first_colon(body, c as int) == c as int);
    if c == 0 || c >= n - 1 {
        return None;
    }
    let major = parse_decimal(content, 0, c);
    let minor = parse_decimal(content, c + 1, n - 1);
    assert(content@.subrange(0, c as int) =~= body.subrange(0, c as int));
    assert(content@.subrange(c + 1, n - 1) =~= body.subrange(c + 1, body.len() as int));
    match (major, minor) {
        (Some(a), Some(b)) => {
            if a > u32::MAX as u64 || b > u32::MAX as u64 {
                return None;
            }
            Some((a as u32, b as u32))
        },
        _ => None,
    }
}

/// A block device as the system describes it; a partition knows the whole
/// disk it lies on.
pub struct Device {
    pub dev: u64,
    pub event_dev: u32,
    pub major: u32,
    pub minor: u32,
    pub sys_dev_path: String,
    pub sector_count: u64,
    pub start_sector: u64,
    pub end_sector: u64,
    pub parent: Option<Box<Device>>,
}

impl Device {
    pub open spec fn wf(&self) -> bool {
        &&& self.extent_wf()
        &&& match self.parent {
            Some(p) => p.parent is None && p.extent_wf() && p.start_sector == 0,
            None => self.start_sector == 0,
        }
    }

    /// Numbers and extent are consistent, leaving the parent aside.
    pub open spec fn extent_wf(&self) -> bool {
        &&& self.major < MAJOR_LIMIT
        &&& self.minor < MINOR_LIMIT
        &&& self.event_dev == self.major * 0x10_0000 + self.minor
        &&& self.end_sector == self.start_sector + self.sector_count
        &&& self.sector_count * SECTOR_SIZE <= u64::MAX
    }

    /// A device from what sysfs says of it: its sector count, and for a
    /// partition its first sector and its whole disk.
    pub fn from_parts(
        major: u32,
        minor: u32,
        sys_dev_path: String,
        sector_count: u64,
        partition: Option<(u64, Device)>,
    ) -> (r: Result<Device, DeviceError>)
        requires
            partition is Some ==> partition->Some_0.1.wf() && partition->Some_0.1.parent is None,
        ensures
            major == 0 ==> r == Err::<Device, DeviceError>(DeviceError::NotADevice),
            major != 0 && (major >= MAJOR_LIMIT || minor >= MINOR_LIMIT) ==> r == Err::<Device, DeviceError>(
                DeviceError::NumberOutOfRange,
            ),
            major != 0 && major < MAJOR_LIMIT && minor < MINOR_LIMIT && (sector_count * SECTOR_SIZE > u64::MAX || (
            partition is Some && partition->Some_0.0 + sector_count > u64::MAX)) ==> r == Err::<Device, DeviceError>(
                DeviceError::TooLarge,
            ),
            r is Ok <==> major != 0 && major < MAJOR_LIMIT && minor < MINOR_LIMIT && sector_count * SECTOR_SIZE <= u64::MAX
                && !(partition is Some && partition->Some_0.0 + sector_count > u64::MAX),
            r is Ok ==> r->Ok_0.wf() && r->Ok_0.major == major && r->Ok_0.minor == minor && r->Ok_0.sys_dev_path@
                == sys_dev_path@ && r->Ok_0.sector_count == sector_count && r->Ok_0.start_sector == match partition {
                Some(p) => p.0,
                None => 0,
            } && (r->Ok_0.parent is Some) == (partition is Some),
    {
        if major == 0 {
            return Err(DeviceError::NotADevice);
        }
        if major >= MAJOR_LIMIT || minor >= MINOR_LIMIT {
            return Err(DeviceError::NumberOutOfRange);
        }
        if sector_count > u64::MAX / SECTOR_SIZE {
            return Err(DeviceError::TooLarge);
        }
        let ev = event_dev(major, minor);
        let dev = (major as u64) * 0x10_0000 + minor as u64;
        match partition {
            Some((start_sector, disk)) => {
                if start_sector > u64::MAX - sector_count {
                    return Err(DeviceError::TooLarge);
                }
                Ok(Device {
                    dev,
                    event_dev: ev,
                    major,
                    minor,
                    sys_dev_path,
                    sector_count,
                    start_sector,
                    end_sector: start_sector + sector_count,
                    parent: Some(Box::new(disk)),
                })
            },
            None => Ok(
                Device {
                    dev,
                    event_dev: ev,
                    major,
                    minor,
                    sys_dev_path,
                    sector_count,
                    start_sector: 0,
                    end_sector: sector_count,
                    parent: None,
                },
            ),
        }
    }

    /// The whole disk the device lies on: itself, or its parent.
    pub fn get_base_device(&self) -> (r: &Device)
        requires
            self.wf(),
        ensures
            r.parent is None,
            r.wf(),
            self.parent is None ==> r == self,
            self.parent is Some ==> r == &*self.parent->Some_0,
    {
        match &self.parent {
            None => self,
            Some(p) => &**p,
        }
    }

    /// The device as the trace dispatcher sees it, for job `job_index`.
    pub fn traced(&self, job_index: usize, chunk_size: usize) -> (r: TracedDevice)
        requires
            self.wf(),
            chunk_size >= crate::trace::SECTOR_SIZE,
        ensures
            r.wf(),
            r.job_index == job_index,
            r.disk_event_dev == self.get_base_device_spec().event_dev,
            r.start_sector == self.start_sector,
            r.sector_count == self.sector_count,
            r.chunk_size == chunk_size,
    {
        let base = self.get_base_device();
        TracedDevice {
            job_index,
            disk_event_dev: base.event_dev,
            start_sector: self.start_sector,
            sector_count: self.sector_count,
            chunk_size,
        }
    }

    pub open spec fn get_base_device_spec(&self) -> Device {
        match self.parent {
            Some(p) => *p,
            None => *self,
        }
    }
}

} // verus!
