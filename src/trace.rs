use vstd::prelude::*;
use vstd::arithmetic::div_mod::*;

verus! {

/// Size in bytes of the fixed part of a block trace record.
pub const EVENT_SIZE: usize = 48;

/// The magic bytes of a record in the byte order it was read in.
pub const MAGIC_NATIVE_ENDIAN: u32 = 0x65617400;

/// The magic bytes of a record written in the opposite byte order.
pub const MAGIC_REVERSE_ENDIAN: u32 = 0x00746165;

/// The only record format version understood.
pub const SUPPORTED_VERSION: u8 = 7;

/// Bytes per sector in trace records.
pub const SECTOR_SIZE: u64 = 512;

/// One block-layer trace record.
#[derive(Clone, Copy, PartialEq, Eq, Structural, Debug)]
pub struct BlkEvent {
    pub magic: u32,
    pub sequence: u32,
    pub time: u64,
    pub sector: u64,
    pub bytes: u32,
    pub action: u32,
    pub pid: u32,
    pub device: u32,
    pub cpu: u32,
    pub error: u16,
    pub pdu_len: u16,
}

/// Why a trace record could not be taken.
#[derive(Clone, Copy, PartialEq, Eq, Structural, Debug)]
pub enum TraceError {
    /// Fewer bytes than a whole record.
    ShortRecord,
    /// The magic number is neither byte order of the block trace magic.
    BadMagic(u32),
    /// A record format other than the supported one.
    UnsupportedVersion(u8),
}

pub open spec fn spec_swap16(x: u16) -> u16 {
    ((x & 0xff) << 8) | (x >> 8)
}

pub open spec fn spec_swap32(x: u32) -> u32 {
    ((x & 0xff) << 24) | (((x >> 8) & 0xff) << 16) | (((x >> 16) & 0xff) << 8) | (x >> 24)
}

pub open spec fn spec_swap64(x: u64) -> u64 {
    ((x & 0xff) << 56) | (((x >> 8) & 0xff) << 48) | (((x >> 16) & 0xff) << 40) | (((x >> 24) & 0xff) << 32)
        | (((x >> 32) & 0xff) << 24) | (((x >> 40) & 0xff) << 16) | (((x >> 48) & 0xff) << 8) | (x >> 56)
}

/// Reverses the byte order of a 16-bit value.
pub fn swap16(x: u16) -> (r: u16)
    ensures
        r == spec_swap16(x),
{
    ((x & 0xff) << 8) | (x >> 8)
}

/// Reverses the byte order of a 32-bit value.
pub fn swap32(x: u32) -> (r: u32)
    ensures
        r == spec_swap32(x),
{
    ((x & 0xff) << 24) | (((x >> 8) & 0xff) << 16) | (((x >> 16) & 0xff) << 8) | (x >> 24)
}

/// Reverses the byte order of a 64-bit value.
pub fn swap64(x: u64) -> (r: u64)
    ensures
        r == spec_swap64(x),
{
    ((x & 0xff) << 56) | (((x >> 8) & 0xff) << 48) | (((x >> 16) & 0xff) << 40) | (((x >> 24) & 0xff) << 32)
        | (((x >> 32) & 0xff) << 24) | (((x >> 40) & 0xff) << 16) | (((x >> 48) & 0xff) << 8) | (x >> 56)
}

/// Reversing the byte order twice gives the value back.
pub proof fn lemma_swap_involutive(a: u16, b: u32, c: u64)
    ensures
        spec_swap16(spec_swap16(a)) == a,
        spec_swap32(spec_swap32(b)) == b,
        spec_swap64(spec_swap64(c)) == c,
{
    assert((((((a & 0xff) << 8) | (a >> 8)) & 0xff) << 8) | ((((a & 0xff) << 8) | (a >> 8)) >> 8) == a) by (bit_vector);
    let b1 = spec_swap32(b);
    assert(b1 == ((b & 0xff) << 24) | (((b >> 8) & 0xff) << 16) | (((b >> 16) & 0xff) << 8) | (b >> 24));
    assert(((b1 & 0xff) << 24) | (((b1 >> 8) & 0xff) << 16) | (((b1 >> 16) & 0xff) << 8) | (b1 >> 24) == b) by (bit_vector)
        requires
            b1 == ((b & 0xff) << 24) | (((b >> 8) & 0xff) << 16) | (((b >> 16) & 0xff) << 8) | (b >> 24),
    ;
    let c1 = spec_swap64(c);
    assert(((c1 & 0xff) << 56) | (((c1 >> 8) & 0xff) << 48) | (((c1 >> 16) & 0xff) << 40) | (((c1 >> 24) & 0xff) << 32)
        | (((c1 >> 32) & 0xff) << 24) | (((c1 >> 40) & 0xff) << 16) | (((c1 >> 48) & 0xff) << 8) | (c1 >> 56) == c)
        by (bit_vector)
        requires
            c1 == ((c & 0xff) << 56) | (((c >> 8) & 0xff) << 48) | (((c >> 16) & 0xff) << 40) | (((c >> 24) & 0xff) << 32)
                | (((c >> 32) & 0xff) << 24) | (((c >> 40) & 0xff) << 16) | (((c >> 48) & 0xff) << 8) | (c >> 56),
    ;
}

/// `e` with the byte order of every field reversed.
pub open spec fn swapped(e: BlkEvent) -> BlkEvent {
    BlkEvent {
        magic: spec_swap32(e.magic),
        sequence: spec_swap32(e.sequence),
        time: spec_swap64(e.time),
        sector: spec_swap64(e.sector),
        bytes: spec_swap32(e.bytes),
        action: spec_swap32(e.action),
        pid: spec_swap32(e.pid),
        device: spec_swap32(e.device),
        cpu: spec_swap32(e.cpu),
        error: spec_swap16(e.error),
        pdu_len: spec_swap16(e.pdu_len),
    }
}

pub open spec fn le16(b: Seq<u8>, at: int) -> u16 {
    (b[at] + 0x100 * b[at + 1]) as u16
}

pub open spec fn le32(b: Seq<u8>, at: int) -> u32 {
    (b[at] + 0x100 * b[at + 1] + 0x10000 * b[at + 2] + 0x1000000 * b[at + 3]) as u32
}

pub open spec fn le64(b: Seq<u8>, at: int) -> u64 {
    (le32(b, at) + 0x1_0000_0000 * le32(b, at + 4)) as u64
}

/// The record in `b`, each field read least significant byte first.
pub open spec fn record_le(b: Seq<u8>) -> BlkEvent {
    BlkEvent {
        magic: le32(b, 0),
        sequence: le32(b, 4),
        time: le64(b, 8),
        sector: le64(b, 16),
        bytes: le32(b, 24),
        action: le32(b, 28),
        pid: le32(b, 32),
        device: le32(b, 36),
        cpu: le32(b, 40),
        error: le16(b, 44),
        pdu_len: le16(b, 46),
    }
}

/// The record in `b` put in the right byte order, or why it is refused.
pub open spec fn decoded(b: Seq<u8>) -> Result<BlkEvent, TraceError> {
    let raw = record_le(b);
    if b.len() < EVENT_SIZE {
        Err(TraceError::ShortRecord)
    } else if raw.magic & 0xffffff00 == MAGIC_NATIVE_ENDIAN {
        if (raw.magic & 0xff) as u8 != SUPPORTED_VERSION {
            Err(TraceError::UnsupportedVersion((raw.magic & 0xff) as u8))
        } else {
            Ok(raw)
        }
    } else if raw.magic & 0x00ffffff == MAGIC_REVERSE_ENDIAN {
        if (raw.magic >> 24) as u8 != SUPPORTED_VERSION {
            Err(TraceError::UnsupportedVersion((raw.magic >> 24) as u8))
        } else {
            Ok(swapped(raw))
        }
    } else {
        Err(TraceError::BadMagic(raw.magic))
    }
}

fn read_le16(b: &[u8], at: usize) -> (r: u16)
    requires
        at + 2 <= b@.len(),
    ensures
        r == le16(b@, at as int),
{
    b[at] as u16 + 0x100 * (b[at + 1] as u16)
}

fn read_le32(b: &[u8], at: usize) -> (r: u32)
    requires
        at + 4 <= b@.len(),
    ensures
        r == le32(b@, at as int),
{
    b[at] as u32 + 0x100 * (b[at + 1] as u32) + 0x10000 * (b[at + 2] as u32) + 0x1000000 * (b[at + 3] as u32)
}

fn read_le64(b: &[u8], at: usize) -> (r: u64)
    requires
        at + 8 <= b@.len(),
    ensures
        r == le64(b@, at as int),
{
    let n = b.len();
    assert(at + 8 <= n);
    read_le32(b, at) as u64 + 0x1_0000_0000 * (read_le32(b, at + 4) as u64)
}

impl BlkEvent {
    /// Reverse the byte order of every field.
    pub fn swap_endian(&mut self)
        ensures
            *final(self) == swapped(*old(self)),
    {
        self.magic = swap32(self.magic);
        self.sequence = swap32(self.sequence);
        self.time = swap64(self.time);
        self.sector = swap64(self.sector);
        self.bytes = swap32(self.bytes);
        self.action = swap32(self.action);
        self.pid = swap32(self.pid);
        self.device = swap32(self.device);
        self.cpu = swap32(self.cpu);
        self.error = swap16(self.error);
        self.pdu_len = swap16(self.pdu_len);
    }

    /// Decode the fixed part of a record from its first `EVENT_SIZE` bytes.
    /// A record whose magic reads reversed is put back in order; the
    /// `pdu_len` bytes that follow it are the caller's to skip.
    pub fn decode(b: &[u8]) -> (r: Result<BlkEvent, TraceError>)
        ensures
            r == decoded(b@),
    {
        if b.len() < EVENT_SIZE {
            return Err(TraceError::ShortRecord);
        }
        let mut e = BlkEvent {
            magic: read_le32(b, 0),
            sequence: read_le32(b, 4),
            time: read_le64(b, 8),
            sector: read_le64(b, 16),
            bytes: read_le32(b, 24),
            action: read_le32(b, 28),
            pid: read_le32(b, 32),
            device: read_le32(b, 36),
            cpu: read_le32(b, 40),
            error: read_le16(b, 44),
            pdu_len: read_le16(b, 46),
        };
        let magic = e.magic;
        if magic & 0xffffff00 == MAGIC_NATIVE_ENDIAN {
            let version = (magic & 0xff) as u8;
            if version != SUPPORTED_VERSION {
                return Err(TraceError::UnsupportedVersion(version));
            }
            Ok(e)
        } else if magic & 0x00ffffff == MAGIC_REVERSE_ENDIAN {
            let version = (magic >> 24) as u8;
            if version != SUPPORTED_VERSION {
                return Err(TraceError::UnsupportedVersion(version));
            }
            e.swap_endian();
            Ok(e)
        } else {
            Err(TraceError::BadMagic(magic))
        }
    }

    /// A write queued to the device that carries data: the only events that
    /// dirty chunks.
    pub open spec fn spec_is_queued_write(&self) -> bool {
        &&& (self.action >> 16) & 2 != 0
        &&& self.action & 0xffff == 1
        &&& self.bytes > 0
    }

    pub fn is_queued_write(&self) -> (r: bool)
        ensures
            r == self.spec_is_queued_write(),
    {
        (self.action >> 16) & 2 != 0 && self.action & 0xffff == 1 && self.bytes > 0
    }
}

/// A configured device as the trace sees it: where it lies on its whole
/// disk, and which job's chunks it maps to.
#[derive(Clone, Copy, PartialEq, Eq, Structural, Debug)]
pub struct TracedDevice {
    pub job_index: usize,
    /// Event device number of the whole disk the device lies on.
    pub disk_event_dev: u32,
    pub start_sector: u64,
    pub sector_count: u64,
    pub chunk_size: usize,
}

impl TracedDevice {
    pub open spec fn wf(&self) -> bool {
        &&& self.chunk_size >= SECTOR_SIZE
        &&& self.sector_count * SECTOR_SIZE <= u64::MAX
        &&& self.start_sector + self.sector_count <= u64::MAX
    }

    pub open spec fn byte_size(&self) -> nat {
        (self.sector_count * SECTOR_SIZE) as nat
    }

    /// Number of chunks of the device, the last one possibly short.
    pub open spec fn chunk_total(&self) -> nat {
        ((self.byte_size() + self.chunk_size - 1) / (self.chunk_size as int)) as nat
    }

    /// The event falls inside this device.
    pub open spec fn hit(&self, e: BlkEvent) -> bool {
        &&& e.device == self.disk_event_dev
        &&& self.start_sector <= e.sector
        &&& e.sector < self.start_sector + self.sector_count
    }

    pub open spec fn first_byte(&self, e: BlkEvent) -> int {
        (e.sector - self.start_sector) * SECTOR_SIZE
    }

    pub open spec fn last_byte(&self, e: BlkEvent) -> int {
        self.first_byte(e) + e.bytes - 1
    }

    /// The event writes past the end of this device.
    pub open spec fn overrun(&self, e: BlkEvent) -> bool {
        self.hit(e) && self.last_byte(e) >= self.byte_size()
    }

    pub open spec fn first_chunk(&self, e: BlkEvent) -> int {
        self.first_byte(e) / (self.chunk_size as int)
    }

    /// The last chunk written to, past the device's end if the write
    /// reaches there.
    pub open spec fn last_chunk(&self, e: BlkEvent) -> int {
        self.last_byte(e) / (self.chunk_size as int)
    }

    /// The (job, chunk) marks that the event makes on this device.
    pub open spec fn marks(&self, e: BlkEvent) -> Seq<(usize, u64)> {
        if self.hit(e) {
            Seq::new((self.last_chunk(e) - self.first_chunk(e) + 1) as nat, |i: int| (self.job_index, (self.first_chunk(e) + i) as u64))
        } else {
            Seq::empty()
        }
    }
}

/// The marks an event makes on each of `devices`, in order.
pub open spec fn event_marks(e: BlkEvent, devices: Seq<TracedDevice>) -> Seq<(usize, u64)>
    decreases devices.len(),
{
    if devices.len() == 0 {
        Seq::empty()
    } else {
        event_marks(e, devices.drop_last()) + devices.last().marks(e)
    }
}

/// What one trace event does to the dirty maps.
pub struct Dispatch {
    /// `(job index, chunk index)` pairs to mark dirty.
    pub marks: Vec<(usize, u64)>,
    /// The event wrote past the end of a device it touched: worth a
    /// warning, never an error.
    pub overrun: bool,
}

/// The chunks that a trace event dirties on each configured device. Only a
/// queued write with data counts. A whole disk and a partition of it may
/// both be configured, and both are marked.
pub fn dispatch(e: &BlkEvent, devices: &Vec<TracedDevice>) -> (r: Dispatch)
    requires
        forall|i: int| 0 <= i < devices@.len() ==> (#[trigger] devices@[i]).wf(),
    ensures
        r.marks@ == if e.spec_is_queued_write() { event_marks(*e, devices@) } else { Seq::empty() },
        r.overrun == (e.spec_is_queued_write() && exists|i: int| 0 <= i < devices@.len() && (#[trigger] devices@[i]).overrun(*e)),
{
    let mut marks: Vec<(usize, u64)> = Vec::new();
    let mut overrun = false;
    if !e.is_queued_write() {
        return Dispatch { marks, overrun };
    }
    let mut k: usize = 0;
    while k < devices.len()
        invariant
            k <= devices@.len(),
            e.spec_is_queued_write(),
            forall|i: int| 0 <= i < devices@.len() ==> (#[trigger] devices@[i]).wf(),
            marks@ == event_marks(*e, devices@.take(k as int)),
            overrun == exists|i: int| 0 <= i < k && (#[trigger] devices@[i]).overrun(*e),
        decreases devices@.len() - k,
    {
        let d = devices[k];
        let ghost before = marks@;
        if e.device == d.disk_event_dev && d.start_sector <= e.sector && e.sector < d.start_sector + d.sector_count {
            let first_byte: u64 = (e.sector - d.start_sector) * SECTOR_SIZE;
            let last_byte: u128 = first_byte as u128 + e.bytes as u128 - 1;
            let size: u64 = d.sector_count * SECTOR_SIZE;
            let first_chunk: u64 = first_byte / (d.chunk_size as u64);
            let last_whole: u128 = last_byte / (d.chunk_size as u128);
            proof {
                assert(first_byte < size) by (nonlinear_arith)
                    requires
                        first_byte == (e.sector - d.start_sector) * 512,
                        size == d.sector_count * 512,
                        e.sector - d.start_sector < d.sector_count,
                ;
                lemma_div_is_ordered(first_byte as int, last_byte as int, d.chunk_size as int);
                lemma_div_is_ordered_by_denominator(last_byte as int, 512, d.chunk_size as int);
                lemma_div_is_ordered(last_byte as int, 0x2_0000_0000_0000_0000, 512);
                assert(0x2_0000_0000_0000_0000int / 512 == 0x100_0000_0000_0000);
            }
            let last_chunk: u64 = last_whole as u64;
            if last_byte >= size as u128 {
                overrun = true;
            }
            let mut c: u64 = first_chunk;
            while c <= last_chunk
                invariant
                    first_chunk <= c <= last_chunk + 1,
                    last_chunk < u64::MAX,
                    marks@ == before + Seq::new((c - first_chunk) as nat, |i: int| (d.job_index, (first_chunk + i) as u64)),
                decreases last_chunk + 1 - c,
            {
                marks.push((d.job_index, c));
                proof {
                    assert(marks@ =~= before + Seq::new((c + 1 - first_chunk) as nat, |i: int| (d.job_index, (first_chunk + i) as u64)));
                }
                c = c + 1;
            }
            proof {
                assert(marks@ =~= before + d.marks(*e));
            }
        } else {
            proof {
                assert(marks@ =~= before + d.marks(*e));
            }
        }
        proof {
            assert(devices@.take(k + 1).drop_last() =~= devices@.take(k as int));
            assert(devices@.take(k + 1).last() == d);
        }
        k = k + 1;
    }
    proof {
        assert(devices@.take(k as int) =~= devices@);
    }
    Dispatch { marks, overrun }
}

} // verus!
