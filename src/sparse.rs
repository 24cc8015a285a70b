use vstd::prelude::*;
use crate::chunk::{Chunk, valid_chunk};
use crate::codec::{FormatError, RESERVED, be64, encode_index, encode_record, parse_record, push_be64, record_bytes};
use crate::shared_index::DedicatedIndex;

verus! {

/// How a sparse backup is written.
#[derive(Clone, Copy, PartialEq, Eq, Structural, Debug)]
pub struct Parameters {
    /// Save an index at the end of the file.
    pub save_index: bool,
    /// Never seek: every chunk is appended, and none is rewritten in place.
    pub append_only: bool,
    pub optimize: bool,
}

/// The sparse storage options as a configuration file gives them.
#[derive(Clone, Copy, PartialEq, Eq, Structural, Debug)]
pub struct InterfaceParameters {
    pub index: bool,
    pub append_only: bool,
    pub optimize: bool,
}

impl InterfaceParameters {
    /// Indexed, seekable and not optimised.
    pub fn default_parameters() -> (r: InterfaceParameters)
        ensures
            r == (InterfaceParameters { index: true, append_only: false, optimize: false }),
    {
        InterfaceParameters { index: true, append_only: false, optimize: false }
    }

    pub fn internalize(&self) -> (r: Parameters)
        ensures
            r == (Parameters { save_index: self.index, append_only: self.append_only, optimize: self.optimize }),
    {
        Parameters { save_index: self.index, append_only: self.append_only, optimize: self.optimize }
    }
}

/// The header fields of a sparse backup file.
#[derive(Clone, Copy, PartialEq, Eq, Structural, Debug)]
pub struct Header {
    pub size: u64,
    pub chunk_size: usize,
    pub optimized: bool,
    pub indexed: bool,
}

/// Bytes taken by one stored chunk.
pub open spec fn record_len(chunk_size: usize) -> int {
    8 + chunk_size
}

/// `b` with `bytes` written at `at`: over what is there, or appended.
pub open spec fn written_at(b: Seq<u8>, at: int, bytes: Seq<u8>) -> Seq<u8> {
    if at == b.len() {
        b + bytes
    } else {
        b.subrange(0, at) + bytes + b.subrange(at + bytes.len(), b.len() as int)
    }
}

/// Reading a record depends only on its own bytes.
proof fn lemma_parse_record_local(b1: Seq<u8>, a1: int, b2: Seq<u8>, a2: int, size: u64, chunk_size: usize)
    requires
        0 <= a1,
        0 <= a2,
        a1 + record_len(chunk_size) <= b1.len(),
        a2 + record_len(chunk_size) <= b2.len(),
        b1.subrange(a1, a1 + record_len(chunk_size)) == b2.subrange(a2, a2 + record_len(chunk_size)),
    ensures
        parse_record(b1, a1, size, chunk_size) == parse_record(b2, a2, size, chunk_size),
        be64(b1, a1) == be64(b2, a2),
{
    let rec = record_len(chunk_size);
    assert forall|i: int| 0 <= i < rec implies #[trigger] b1.subrange(a1, a1 + rec)[i] == b2[a2 + i] by {
        assert(b1.subrange(a1, a1 + rec)[i] == b2.subrange(a2, a2 + rec)[i]);
    }
    assert forall|i: int| 0 <= i < rec implies #[trigger] b2.subrange(a2, a2 + rec)[i] == b1[a1 + i] by {
        assert(b1.subrange(a1, a1 + rec)[i] == b2.subrange(a2, a2 + rec)[i]);
    }
    let s1 = b1.subrange(a1, a1 + rec);
    assert(s1[0] == b1[a1] && s1[1] == b1[a1 + 1] && s1[2] == b1[a1 + 2] && s1[3] == b1[a1 + 3]);
    assert(s1[4] == b1[a1 + 4] && s1[5] == b1[a1 + 5] && s1[6] == b1[a1 + 6] && s1[7] == b1[a1 + 7]);
    assert(b1[a1] == b2[a2] && b1[a1 + 1] == b2[a2 + 1] && b1[a1 + 2] == b2[a2 + 2] && b1[a1 + 3] == b2[a2 + 3]);
    assert(b1[a1 + 4] == b2[a2 + 4] && b1[a1 + 5] == b2[a2 + 5] && b1[a1 + 6] == b2[a2 + 6] && b1[a1 + 7] == b2[a2 + 7]);
    assert forall|n: int| 0 <= n <= chunk_size implies #[trigger] b1.subrange(a1 + 8, a1 + 8 + n) == b2.subrange(a2 + 8, a2 + 8 + n) by {
        assert forall|i: int| 0 <= i < n implies #[trigger] b1.subrange(a1 + 8, a1 + 8 + n)[i] == b2.subrange(a2 + 8, a2 + 8 + n)[i] by {
            assert(s1[8 + i] == b1[a1 + 8 + i]);
            assert(b2.subrange(a2, a2 + rec)[8 + i] == b2[a2 + 8 + i]);
        }
        assert(b1.subrange(a1 + 8, a1 + 8 + n) =~= b2.subrange(a2 + 8, a2 + 8 + n));
    }
}

/// Two different record positions, both whole multiples of the record
/// length, hold records that do not overlap.
proof fn lemma_aligned_apart(p: int, q: int, rec: int)
    requires
        rec > 0,
        p >= 0,
        q >= 0,
        p % rec == 0,
        q % rec == 0,
        p != q,
    ensures
        p + rec <= q || q + rec <= p,
{
    vstd::arithmetic::div_mod::lemma_fundamental_div_mod(p, rec);
    vstd::arithmetic::div_mod::lemma_fundamental_div_mod(q, rec);
    let a = p / rec;
    let b = q / rec;
    assert(a != b);
    if a < b {
        assert(p + rec <= q) by (nonlinear_arith)
            requires
                p == rec * a,
                q == rec * b,
                a + 1 <= b,
                rec > 0,
        ;
    } else {
        assert(q + rec <= p) by (nonlinear_arith)
            requires
                p == rec * a,
                q == rec * b,
                b + 1 <= a,
                rec > 0,
        ;
    }
}

/// The record at `q` holds a chunk whose index entry lies at or after `q`:
/// the index leads to the last copy of each chunk.
pub open spec fn stored_and_indexed(body: Seq<u8>, q: int, index: Seq<Option<u64>>, size: u64, chunk_size: usize) -> bool {
    let k = be64(body, q) as int;
    &&& 0 <= k < index.len()
    &&& index[k] is Some
    &&& q <= index[k]->Some_0
    &&& parse_record(body, q, size, chunk_size) matches Ok(Some(_))
}

proof fn lemma_new_record_indexed(
    body: Seq<u8>,
    bytes: Seq<u8>,
    at: int,
    number: int,
    index: Seq<Option<u64>>,
    offset: u64,
    data: Seq<u8>,
    size: u64,
    chunk_size: usize,
)
    requires
        valid_chunk(offset, data.len(), chunk_size, size),
        number == offset / (chunk_size as u64),
        0 <= number < index.len(),
        bytes == record_bytes(offset, data, chunk_size),
        0 <= at <= u64::MAX,
        at <= body.len(),
        at < body.len() ==> at + record_len(chunk_size) <= body.len(),
    ensures
        stored_and_indexed(written_at(body, at, bytes), at, index.update(number, Some(at as u64)), size, chunk_size),
{
    let rec = record_len(chunk_size);
    let nb = written_at(body, at, bytes);
    crate::codec::lemma_record_round_trip(offset, data, chunk_size, size);
    assert(nb.subrange(at, at + rec) =~= bytes.subrange(0, rec));
    lemma_parse_record_local(nb, at, bytes, 0, size, chunk_size);
    crate::codec::lemma_be64_round_trip(number as u64);
    assert(bytes.subrange(0, 8) =~= crate::codec::be64_bytes(number as u64));
    crate::codec::lemma_be64_at(bytes, 0, number as u64);
}

proof fn lemma_old_record_indexed(
    body: Seq<u8>,
    bytes: Seq<u8>,
    at: int,
    q: int,
    end: int,
    number: int,
    index: Seq<Option<u64>>,
    size: u64,
    chunk_size: usize,
)
    requires
        body.len() == end,
        bytes.len() == record_len(chunk_size),
        chunk_size > 0,
        0 <= at <= u64::MAX,
        at % record_len(chunk_size) == 0,
        at == end || (at + record_len(chunk_size) <= end && index[number] == Some(at as u64)),
        0 <= number < index.len(),
        0 <= q,
        q != at,
        q + record_len(chunk_size) <= end,
        q % record_len(chunk_size) == 0,
        stored_and_indexed(body, q, index, size, chunk_size),
    ensures
        stored_and_indexed(written_at(body, at, bytes), q, index.update(number, Some(at as u64)), size, chunk_size),
{
    let rec = record_len(chunk_size);
    let nb = written_at(body, at, bytes);
    lemma_aligned_apart(q, at, rec);
    assert(nb.subrange(q, q + rec) =~= body.subrange(q, q + rec));
    lemma_parse_record_local(nb, q, body, q, size, chunk_size);
}

/// The file offset of a location in the chunk data that starts at
/// `data_start`, if it is one: it must not overflow or hit the reserved
/// value.
pub fn file_position(data_start: u64, location: u64) -> (r: Option<u64>)
    ensures
        r == if data_start + location < RESERVED { Some((data_start + location) as u64) } else { None::<u64> },
{
    if location >= RESERVED - data_start {
        None
    } else {
        Some(data_start + location)
    }
}

/// Every location, moved to start at `data_start`, is a usable file offset.
pub open spec fn positions_fit(data_start: u64, locations: Seq<Option<u64>>) -> bool {
    forall|k: int| 0 <= k < locations.len() && (#[trigger] locations[k]) is Some ==> data_start + locations[k]->Some_0
        < RESERVED
}

/// The file offsets of chunk-data locations that start at `data_start`.
pub open spec fn positions_of(data_start: u64, locations: Seq<Option<u64>>) -> Seq<Option<u64>> {
    locations.map_values(|o: Option<u64>| match o {
        Some(x) => Some((data_start + x) as u64),
        None => None,
    })
}

/// The file offsets of an index read from a file whose chunk data starts at
/// `data_start`; refused if any would overflow or hit the reserved value.
pub fn index_positions(data_start: u64, locations: &Vec<Option<u64>>) -> (r: Result<Vec<Option<u64>>, FormatError>)
    ensures
        r is Ok <==> positions_fit(data_start, locations@),
        r is Ok ==> r->Ok_0@ == positions_of(data_start, locations@),
        r is Err ==> r == Err::<Vec<Option<u64>>, FormatError>(FormatError::ReservedLocation),
{
    let mut out: Vec<Option<u64>> = Vec::with_capacity(locations.len());
    let mut k: usize = 0;
    while k < locations.len()
        invariant
            k <= locations@.len(),
            positions_fit(data_start, locations@.take(k as int)),
            out@ == positions_of(data_start, locations@.take(k as int)),
        decreases locations@.len() - k,
    {
        proof {
            assert(locations@.take(k + 1) =~= locations@.take(k as int).push(locations@[k as int]));
        }
        match locations[k] {
            Some(x) => match file_position(data_start, x) {
                Some(p) => {
                    out.push(Some(p));
                },
                None => {
                    proof {
                        assert(locations@[k as int] is Some);
                    }
                    return Err(FormatError::ReservedLocation);
                },
            },
            None => {
                out.push(None);
            },
        }
        proof {
            assert(out@ =~= positions_of(data_start, locations@.take(k + 1)));
            assert(positions_fit(data_start, locations@.take(k + 1))) by {
                assert forall|j: int| 0 <= j < k + 1 && (#[trigger] locations@.take(k + 1)[j]) is Some implies data_start
                    + locations@.take(k + 1)[j]->Some_0 < RESERVED by {
                    if j < k {
                        assert(locations@.take(k + 1)[j] == locations@.take(k as int)[j]);
                    }
                }
            }
        }
        k = k + 1;
    }
    assert(locations@.take(k as int) =~= locations@);
    Ok(out)
}

/// The writing side of a sparse backup: it decides where each chunk goes in
/// the chunk data (positions count from the start of the chunk data), and
/// keeps the index.
pub struct SparseWriter {
    size: u64,
    chunk_size: usize,
    chunk_count: usize,
    seekable: bool,
    save_index: bool,
    end: u64,
    index: Option<DedicatedIndex>,
    /// The chunk data as written so far.
    body: Ghost<Seq<u8>>,
    /// The bytes of the last write of each chunk.
    latest: Ghost<Seq<Option<Seq<u8>>>>,
}

impl SparseWriter {
    pub closed spec fn spec_body(&self) -> Seq<u8> {
        self.body@
    }

    pub closed spec fn spec_latest(&self) -> Seq<Option<Seq<u8>>> {
        self.latest@
    }

    pub closed spec fn spec_size(&self) -> u64 {
        self.size
    }

    pub closed spec fn spec_chunk_size(&self) -> usize {
        self.chunk_size
    }

    /// The file ends with an index.
    pub closed spec fn spec_indexed(&self) -> bool {
        self.save_index && self.index is Some
    }

    pub closed spec fn spec_index(&self) -> Option<Seq<Option<u64>>> {
        match self.index {
            Some(i) => Some(i@),
            None => None,
        }
    }

    pub closed spec fn wf(&self) -> bool {
        let rec = record_len(self.chunk_size);
        &&& 0 < self.chunk_size
        &&& self.body@.len() == self.end
        &&& self.end < RESERVED
        &&& (self.end as int) % rec == 0
        &&& self.latest@.len() == self.chunk_count
        &&& self.chunk_count == crate::chunk::chunk_count_of(self.size, self.chunk_size)
        &&& match self.index {
            Some(i) => {
                &&& i@.len() == self.chunk_count
                &&& forall|k: int| 0 <= k < self.chunk_count ==> (#[trigger] i@[k] is Some) == self.latest@[k] is Some
                &&& forall|k: int| 0 <= k < self.chunk_count && #[trigger] i@[k] is Some ==> {
                    let p = i@[k]->Some_0;
                    &&& (p as int) % rec == 0
                    &&& p + rec <= self.end
                    &&& parse_record(self.body@, p as int, self.size, self.chunk_size) == Ok::<Option<(u64, Seq<u8>)>, FormatError>(
                        Some(((k * self.chunk_size) as u64, self.latest@[k]->Some_0)),
                    )
                }
                &&& forall|a: int, b: int| 0 <= a < self.chunk_count && 0 <= b < self.chunk_count && a != b && #[trigger] i@[a] is Some
                    && #[trigger] i@[b] is Some ==> i@[a] != i@[b]
                &&& forall|q: int| 0 <= q < self.end && q % rec == 0 ==> stored_and_indexed(self.body@, q, i@, self.size, self.chunk_size)
            },
            None => true,
        }
    }

    proof fn lemma_write_keeps_records(&self, number: int, at: int, bytes: Seq<u8>, offset: u64, data: Seq<u8>)
        requires
            self.wf(),
            valid_chunk(offset, data.len(), self.chunk_size, self.size),
            number == offset / (self.chunk_size as u64),
            0 <= number < self.chunk_count,
            bytes == record_bytes(offset, data, self.chunk_size),
            0 <= at <= u64::MAX,
            at == self.end || (self.index is Some && self.index->Some_0@[number] == Some(at as u64)),
            at == self.end ==> at + record_len(self.chunk_size) < RESERVED,
        ensures
            ({
                let rec = record_len(self.chunk_size);
                let nb = written_at(self.body@, at, bytes);
                let nl = self.latest@.update(number, Some(data));
                let ne = if at == self.end { self.end + rec } else { self.end as int };
                &&& nb.len() == ne
                &&& ne % rec == 0
                &&& at % rec == 0
                &&& at + rec <= ne
                &&& at != RESERVED
                &&& match self.index {
                    Some(i) => {
                        let ni = i@.update(number, Some(at as u64));
                        &&& forall|k: int| 0 <= k < self.chunk_count && #[trigger] ni[k] is Some ==> {
                            let p = ni[k]->Some_0;
                            &&& (p as int) % rec == 0
                            &&& p + rec <= ne
                            &&& parse_record(nb, p as int, self.size, self.chunk_size) == Ok::<Option<(u64, Seq<u8>)>, FormatError>(
                                Some(((k * self.chunk_size) as u64, nl[k]->Some_0)),
                            )
                        }
                        &&& forall|a: int, b: int| 0 <= a < self.chunk_count && 0 <= b < self.chunk_count && a != b && #[trigger] ni[a] is Some
                            && #[trigger] ni[b] is Some ==> ni[a] != ni[b]
                    },
                    None => true,
                }
            }),
    {
        let rec = record_len(self.chunk_size);
        let body = self.body@;
        let nb = written_at(body, at, bytes);
        if at != self.end {
            assert(self.index->Some_0@[number] is Some);
        }
        crate::codec::lemma_record_round_trip(offset, data, self.chunk_size, self.size);
        vstd::arithmetic::div_mod::lemma_fundamental_div_mod(offset as int, self.chunk_size as int);
        assert(number * self.chunk_size == offset);
        assert(bytes.len() == rec);
        if at == self.end {
            vstd::arithmetic::div_mod::lemma_mod_add_multiples_vanish(self.end as int, rec);
        }
        assert(at % rec == 0);
        // The new record reads back as the chunk.
        assert(nb.subrange(at, at + rec) =~= bytes.subrange(0, rec));
        lemma_parse_record_local(nb, at, bytes, 0, self.size, self.chunk_size);
        match self.index {
            Some(i) => {
                let ni = i@.update(number, Some(at as u64));
                let nl = self.latest@.update(number, Some(data));
                let ne = if at == self.end { self.end + rec } else { self.end as int };
                assert forall|k: int| 0 <= k < self.chunk_count && #[trigger] ni[k] is Some implies {
                    let p = ni[k]->Some_0;
                    &&& (p as int) % rec == 0
                    &&& p + rec <= ne
                    &&& parse_record(nb, p as int, self.size, self.chunk_size) == Ok::<Option<(u64, Seq<u8>)>, FormatError>(
                        Some(((k * self.chunk_size) as u64, nl[k]->Some_0)),
                    )
                } by {
                    if k != number {
                        let p = i@[k]->Some_0 as int;
                        assert(i@[k] is Some);
                        if at != self.end {
                            assert(i@[number] is Some);
                            assert(p != at);
                            lemma_aligned_apart(p, at, rec);
                        }
                        assert(nb.subrange(p, p + rec) =~= body.subrange(p, p + rec));
                        lemma_parse_record_local(nb, p, body, p, self.size, self.chunk_size);
                    }
                }
                assert forall|a: int, b: int| 0 <= a < self.chunk_count && 0 <= b < self.chunk_count && a != b && #[trigger] ni[a] is Some
                    && #[trigger] ni[b] is Some implies ni[a] != ni[b] by {
                    if a != number && b != number {
                        assert(i@[a] is Some && i@[b] is Some);
                    } else if a == number {
                        assert(i@[b] is Some);
                        if at == self.end {
                            assert(i@[b]->Some_0 + rec <= self.end);
                        } else {
                            assert(i@[number] is Some);
                        }
                    } else {
                        assert(i@[a] is Some);
                        if at == self.end {
                            assert(i@[a]->Some_0 + rec <= self.end);
                        } else {
                            assert(i@[number] is Some);
                        }
                    }
                }
            },
            None => {},
        }
    }

    /// Looking a chunk up through the index finds the record of its last
    /// write: the chunk's offset and the bytes written last.
    pub proof fn lemma_index_resolves_to_latest(&self, k: int)
        requires
            self.wf(),
            self.spec_index() is Some,
            0 <= k < self.spec_index()->Some_0.len(),
            self.spec_index()->Some_0[k] is Some,
        ensures
            self.spec_latest()[k] is Some,
            parse_record(self.spec_body(), self.spec_index()->Some_0[k]->Some_0 as int, self.spec_size(), self.spec_chunk_size())
                == Ok::<Option<(u64, Seq<u8>)>, FormatError>(
                Some(((k * self.spec_chunk_size()) as u64, self.spec_latest()[k]->Some_0)),
            ),
    {
        assert(self.index->Some_0@[k] is Some);
    }

    /// The index holds exactly the chunks written so far, and never the
    /// reserved value.
    pub proof fn lemma_index_is_written(&self, k: int)
        requires
            self.wf(),
            self.spec_index() is Some,
            0 <= k < self.spec_index()->Some_0.len(),
        ensures
            (self.spec_index()->Some_0[k] is Some) == (self.spec_latest()[k] is Some),
            self.spec_index()->Some_0[k] != Some(RESERVED),
    {
        let i = self.index->Some_0;
        if i@[k] is Some {
            assert(i@[k]->Some_0 + record_len(self.chunk_size) <= self.end);
        }
    }

    /// Every chunk stored so far, read in file order, is one whose index
    /// entry is at or after it: reading in order and reading through the
    /// index see the same chunks, the index taking each chunk's last copy.
    pub proof fn lemma_records_are_indexed(&self, q: int)
        requires
            self.wf(),
            self.spec_index() is Some,
            0 <= q < self.spec_body().len(),
            q % record_len(self.spec_chunk_size()) == 0,
        ensures
            stored_and_indexed(self.spec_body(), q, self.spec_index()->Some_0, self.spec_size(), self.spec_chunk_size()),
    {
    }

    #[verifier::rlimit(60)]
    proof fn lemma_write_keeps_order(&self, number: int, at: int, bytes: Seq<u8>, offset: u64, data: Seq<u8>)
        requires
            self.wf(),
            self.index is Some,
            valid_chunk(offset, data.len(), self.chunk_size, self.size),
            number == offset / (self.chunk_size as u64),
            0 <= number < self.chunk_count,
            bytes == record_bytes(offset, data, self.chunk_size),
            0 <= at <= u64::MAX,
            at == self.end || self.index->Some_0@[number] == Some(at as u64),
            at == self.end ==> at + record_len(self.chunk_size) < RESERVED,
        ensures
            ({
                let rec = record_len(self.chunk_size);
                let nb = written_at(self.body@, at, bytes);
                let ne = if at == self.end { self.end + rec } else { self.end as int };
                let ni = self.index->Some_0@.update(number, Some(at as u64));
                forall|q: int| 0 <= q < ne && q % rec == 0 ==> stored_and_indexed(nb, q, ni, self.size, self.chunk_size)
            }),
    {
        let rec = record_len(self.chunk_size);
        let body = self.body@;
        let i = self.index->Some_0@;
        let ne = if at == self.end { self.end + rec } else { self.end as int };
        self.lemma_write_keeps_records(number, at, bytes, offset, data);
        assert(forall|q: int| 0 <= q < self.end && q % rec == 0 ==> stored_and_indexed(body, q, i, self.size, self.chunk_size));
        lemma_new_record_indexed(body, bytes, at, number, i, offset, data, self.size, self.chunk_size);
        assert forall|q: int| 0 <= q < ne && q % rec == 0 implies #[trigger] stored_and_indexed(
            written_at(body, at, bytes),
            q,
            i.update(number, Some(at as u64)),
            self.size,
            self.chunk_size,
        ) by {
            if q != at {
                lemma_aligned_apart(q, self.end as int, rec);
                lemma_old_record_indexed(body, bytes, at, q, self.end as int, number, i, self.size, self.chunk_size);
            }
        }
    }

    /// Reading the chunk data in file order, up to the end marker that
    /// `finish` writes, sees every stored record once, in order: the
    /// records at positions `q`, `q + rec`, ... up to the end.
    pub proof fn lemma_sequential_read(&self, q: int)
        requires
            self.wf(),
            self.spec_index() is Some,
            0 <= q <= self.spec_body().len(),
            q % record_len(self.spec_chunk_size()) == 0,
        ensures
            ({
                let rec = record_len(self.spec_chunk_size());
                let b = self.spec_body() + crate::codec::be64_bytes(RESERVED);
                match crate::codec::parse_records(b, q, self.spec_size(), self.spec_chunk_size()) {
                    Ok((recs, e)) => {
                        &&& e == self.spec_body().len() + 8
                        &&& recs.len() * rec == self.spec_body().len() - q
                        &&& forall|m: int| 0 <= m < recs.len() ==> parse_record(self.spec_body(), q + m * rec, self.spec_size(), self.spec_chunk_size())
                            == Ok::<Option<(u64, Seq<u8>)>, FormatError>(Some(#[trigger] recs[m]))
                    },
                    Err(_) => false,
                }
            }),
        decreases self.spec_body().len() - q,
    {
        let rec = record_len(self.chunk_size);
        let body = self.body@;
        let marker = crate::codec::be64_bytes(RESERVED);
        let b = body + marker;
        crate::codec::lemma_be64_round_trip(RESERVED);
        if q == body.len() {
            assert(b.subrange(q, q + 8) =~= marker);
            crate::codec::lemma_be64_at(b, q, RESERVED);
            assert(0 * rec == 0) by (nonlinear_arith);
        } else {
            lemma_aligned_apart(q, self.end as int, rec);
            assert(stored_and_indexed(body, q, self.index->Some_0@, self.size, self.chunk_size));
            assert(b.subrange(q, q + rec) =~= body.subrange(q, q + rec));
            lemma_parse_record_local(b, q, body, q, self.size, self.chunk_size);
            let p = parse_record(body, q, self.size, self.chunk_size)->Ok_0->Some_0;
            vstd::arithmetic::div_mod::lemma_mod_add_multiples_vanish(q, rec);
            self.lemma_sequential_read(q + rec);
            let rest = crate::codec::parse_records(b, q + rec, self.size, self.chunk_size)->Ok_0.0;
            let recs = seq![p] + rest;
            assert(recs.len() * rec == rec + rest.len() * rec) by (nonlinear_arith)
                requires
                    recs.len() == rest.len() + 1,
            ;
            assert forall|m: int| 0 <= m < recs.len() implies parse_record(body, q + m * rec, self.size, self.chunk_size)
                == Ok::<Option<(u64, Seq<u8>)>, FormatError>(Some(#[trigger] recs[m])) by {
                if m == 0 {
                    assert(0 * rec == 0) by (nonlinear_arith);
                } else {
                    assert(recs[m] == rest[m - 1]);
                    assert(q + rec + (m - 1) * rec == q + m * rec) by (nonlinear_arith);
                }
            }
        }
    }

    /// A writer for a device of `size` bytes in chunks of `chunk_size`.
    pub fn create(size: u64, chunk_size: usize, parameters: &Parameters, with_index: bool) -> (r: SparseWriter)
        requires
            0 < chunk_size,
            crate::chunk::chunk_count_of(size, chunk_size) <= usize::MAX,
        ensures
            r.wf(),
            r.spec_indexed() == (parameters.save_index && with_index),
            r.spec_size() == size,
            r.spec_chunk_size() == chunk_size,
            r.spec_body().len() == 0,
            r.spec_index() == if with_index { Some(Seq::new(crate::chunk::chunk_count_of(size, chunk_size), |k: int| None::<u64>)) } else { None::<Seq<Option<u64>>> },
    {
        let count = crate::chunk::chunk_count(size, chunk_size) as usize;
        let index = if with_index { Some(DedicatedIndex::new(count)) } else { None };
        SparseWriter {
            size,
            chunk_size,
            chunk_count: count,
            seekable: !parameters.append_only,
            save_index: parameters.save_index,
            end: 0,
            index,
            body: Ghost(Seq::empty()),
            latest: Ghost(Seq::new(count as nat, |k: int| None::<Seq<u8>>)),
        }
    }

    /// The header to write in front of the chunk data.
    pub fn header(&self) -> (r: Header)
        ensures
            r.size == self.spec_size(),
            r.chunk_size == self.spec_chunk_size(),
            !r.optimized,
            r.indexed == self.spec_indexed(),
    {
        Header { size: self.size, chunk_size: self.chunk_size, optimized: false, indexed: self.save_index && self.index.is_some() }
    }

    /// Where to write `chunk` and the bytes to write there. A chunk already
    /// in the index of a seekable file is rewritten in place; any other is
    /// appended. A short final chunk is padded to a whole chunk.
    pub fn write_chunk(&mut self, chunk: &Chunk) -> (r: Result<(u64, Vec<u8>), FormatError>)
        requires
            old(self).wf(),
            valid_chunk(chunk.offset, chunk.data@.len(), old(self).spec_chunk_size(), old(self).spec_size()),
        ensures
            final(self).wf(),
            final(self).spec_size() == old(self).spec_size(),
            final(self).spec_chunk_size() == old(self).spec_chunk_size(),
            r is Ok ==> r->Ok_0.1@ == record_bytes(chunk.offset, chunk.data@, old(self).spec_chunk_size())
                && final(self).spec_body() == written_at(old(self).spec_body(), r->Ok_0.0 as int, r->Ok_0.1@)
                && final(self).spec_latest() == old(self).spec_latest().update(
                (chunk.offset / (old(self).spec_chunk_size() as u64)) as int,
                Some(chunk.data@),
            ),
            r is Err ==> *final(self) == *old(self),
            old(self).spec_body().len() + 2 * record_len(old(self).spec_chunk_size()) < RESERVED ==> r is Ok,
            r is Ok ==> final(self).spec_index() == match old(self).spec_index() {
                Some(i) => Some(i.update((chunk.offset / (old(self).spec_chunk_size() as u64)) as int, Some(r->Ok_0.0))),
                None => None,
            },
    {
        if self.chunk_size as u64 >= RESERVED - 16 {
            return Err(FormatError::ChunkOutOfRange(chunk.offset));
        }
        let rec: u64 = 8 + self.chunk_size as u64;
        let number = (chunk.offset / (self.chunk_size as u64)) as usize;
        proof {
            crate::backup::lemma_chunk_number_in_range(chunk.offset, self.chunk_size, self.size);
        }
        let existing = match &self.index {
            Some(i) => if self.seekable { i.lookup(number) } else { None },
            None => None,
        };
        let at = match existing {
            Some(p) => p,
            None => {
                if self.end > RESERVED - 1 - rec {
                    return Err(FormatError::ChunkOutOfRange(chunk.offset));
                }
                self.end
            },
        };
        let bytes = encode_record(chunk, self.chunk_size, self.size);
        let ghost old_body = self.body@;
        let ghost new_body = written_at(old_body, at as int, bytes@);
        proof {
            self.lemma_write_keeps_records(number as int, at as int, bytes@, chunk.offset, chunk.data@);
            if self.index is Some {
                self.lemma_write_keeps_order(number as int, at as int, bytes@, chunk.offset, chunk.data@);
            }
        }
        match &mut self.index {
            Some(i) => {
                i.replace(number, at);
            },
            None => {},
        }
        if at == self.end {
            self.end = self.end + rec;
        }
        self.body = Ghost(new_body);
        self.latest = Ghost(self.latest@.update(number as int, Some(chunk.data@)));
        Ok((at, bytes))
    }

    /// The bytes that close the file: the end marker, then the index and
    /// its length where one is saved.
    pub fn finish(&self) -> (r: Result<Vec<u8>, FormatError>)
        requires
            self.wf(),
        ensures
            r is Ok,
            r->Ok_0@ == crate::codec::be64_bytes(RESERVED) + if self.spec_indexed() {
                crate::codec::index_bytes(self.spec_index()->Some_0)
            } else {
                Seq::empty()
            },
    {
        let mut out: Vec<u8> = Vec::new();
        push_be64(&mut out, RESERVED);
        if self.save_index {
            match &self.index {
                Some(i) => {
                    let mut locations: Vec<Option<u64>> = Vec::with_capacity(self.chunk_count);
                    let mut k: usize = 0;
                    while k < self.chunk_count
                        invariant
                            k <= self.chunk_count,
                            i@.len() == self.chunk_count,
                            locations@ == i@.take(k as int),
                        decreases self.chunk_count - k,
                    {
                        locations.push(i.lookup(k));
                        assert(locations@ =~= i@.take(k + 1));
                        k = k + 1;
                    }
                    assert(locations@ =~= i@);
                    assert(crate::codec::no_reserved(locations@)) by {
                        assert forall|k: int| 0 <= k < locations@.len() implies #[trigger] locations@[k] != Some(RESERVED) by {
                            if i@[k] is Some {
                                assert(i@[k]->Some_0 + record_len(self.chunk_size) <= self.end);
                            }
                        }
                    }
                    match encode_index(&locations) {
                        Ok(bytes) => {
                            crate::codec::append_bytes(&mut out, bytes.as_slice());
                        },
                        Err(e) => return Err(e),
                    }
                },
                None => {},
            }
        } else {
            assert(out@ =~= crate::codec::be64_bytes(RESERVED) + Seq::<u8>::empty());
        }
        Ok(out)
    }
}

} // verus!
