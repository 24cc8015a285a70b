use vstd::prelude::*;
use crate::chunk::{Chunk, chunk_len_at, valid_chunk};

verus! {

/// Marks the end of the numbered chunks; never a chunk number or a location.
pub const RESERVED: u64 = 0xffff_ffff_ffff_ffff;

/// Why stored bytes could not be read back.
#[derive(Clone, Copy, PartialEq, Eq, Structural, Debug)]
pub enum FormatError {
    /// The bytes end inside a record.
    Truncated,
    /// A chunk number whose chunk would not start inside the device.
    ChunkOutOfRange(u64),
    /// A skip/run record with both counts zero.
    EmptyRun,
    /// Skips and runs that do not add up to the chunk count.
    CountMismatch,
    /// A location equal to the reserved end marker.
    ReservedLocation,
    /// Bytes left over after the last record.
    TrailingBytes,
}

/// The eight bytes of `x`, most significant first.
pub open spec fn be64_bytes(x: u64) -> Seq<u8> {
    seq![
        (x >> 56) as u8, ((x >> 48) & 0xff) as u8, ((x >> 40) & 0xff) as u8, ((x >> 32) & 0xff) as u8,
        ((x >> 24) & 0xff) as u8, ((x >> 16) & 0xff) as u8, ((x >> 8) & 0xff) as u8, (x & 0xff) as u8,
    ]
}

/// The number held by `b[at..at + 8]`, most significant byte first.
pub open spec fn be64(b: Seq<u8>, at: int) -> u64 {
    (b[at] * 0x100_0000_0000_0000 + b[at + 1] * 0x1_0000_0000_0000 + b[at + 2] * 0x100_0000_0000
        + b[at + 3] * 0x1_0000_0000 + b[at + 4] * 0x100_0000 + b[at + 5] * 0x1_0000 + b[at + 6] * 0x100
        + b[at + 7]) as u64
}

/// Reading back the bytes of a number gives the number.
pub proof fn lemma_be64_round_trip(x: u64)
    ensures
        be64(be64_bytes(x), 0) == x,
        be64_bytes(x).len() == 8,
{
    let b = be64_bytes(x);
    let b0 = (x >> 56) as u8;
    let b1 = ((x >> 48) & 0xff) as u8;
    let b2 = ((x >> 40) & 0xff) as u8;
    let b3 = ((x >> 32) & 0xff) as u8;
    let b4 = ((x >> 24) & 0xff) as u8;
    let b5 = ((x >> 16) & 0xff) as u8;
    let b6 = ((x >> 8) & 0xff) as u8;
    let b7 = (x & 0xff) as u8;
    assert(x >> 56 < 256 && (x >> 48) & 0xff < 256 && (x >> 40) & 0xff < 256 && (x >> 32) & 0xff < 256) by (bit_vector);
    assert((x >> 24) & 0xff < 256 && (x >> 16) & 0xff < 256 && (x >> 8) & 0xff < 256 && x & 0xff < 256) by (bit_vector);
    assert(b[0] == b0 && b[1] == b1 && b[2] == b2 && b[3] == b3);
    assert(b[4] == b4 && b[5] == b5 && b[6] == b6 && b[7] == b7);
    assert(x == (x >> 56) * 0x100_0000_0000_0000 + ((x >> 48) & 0xff) * 0x1_0000_0000_0000
        + ((x >> 40) & 0xff) * 0x100_0000_0000 + ((x >> 32) & 0xff) * 0x1_0000_0000
        + ((x >> 24) & 0xff) * 0x100_0000 + ((x >> 16) & 0xff) * 0x1_0000 + ((x >> 8) & 0xff) * 0x100
        + (x & 0xff)) by (bit_vector);
}

/// Append the eight bytes of `x`, most significant first.
pub fn push_be64(out: &mut Vec<u8>, x: u64)
    ensures
        final(out)@ == old(out)@ + be64_bytes(x),
{
    out.push((x >> 56) as u8);
    out.push(((x >> 48) & 0xff) as u8);
    out.push(((x >> 40) & 0xff) as u8);
    out.push(((x >> 32) & 0xff) as u8);
    out.push(((x >> 24) & 0xff) as u8);
    out.push(((x >> 16) & 0xff) as u8);
    out.push(((x >> 8) & 0xff) as u8);
    out.push((x & 0xff) as u8);
    assert(final(out)@ =~= old(out)@ + be64_bytes(x));
}

/// The number held by `b[at..at + 8]`, most significant byte first.
pub fn read_be64(b: &[u8], at: usize) -> (r: u64)
    requires
        at + 8 <= b@.len(),
    ensures
        r == be64(b@, at as int),
{
    let n = b.len();
    assert(at + 8 <= n);
    (b[at] as u64) * 0x100_0000_0000_0000 + (b[at + 1] as u64) * 0x1_0000_0000_0000 + (b[at + 2] as u64)
        * 0x100_0000_0000 + (b[at + 3] as u64) * 0x1_0000_0000 + (b[at + 4] as u64) * 0x100_0000 + (b[at + 5] as u64)
        * 0x1_0000 + (b[at + 6] as u64) * 0x100 + (b[at + 7] as u64)
}

/// A stored chunk: its number, then its bytes padded with zeros to a whole
/// chunk.
pub open spec fn record_bytes(offset: u64, data: Seq<u8>, chunk_size: usize) -> Seq<u8> {
    be64_bytes(offset / (chunk_size as u64)) + data + Seq::new((chunk_size - data.len()) as nat, |i: int| 0u8)
}

/// What reading one stored chunk at `at` gives: the chunk's offset and bytes,
/// `None` at the end marker, or why the bytes are refused.
pub open spec fn parse_record(b: Seq<u8>, at: int, size: u64, chunk_size: usize) -> Result<Option<(u64, Seq<u8>)>, FormatError> {
    if at + 8 > b.len() {
        Err(FormatError::Truncated)
    } else if be64(b, at) == RESERVED {
        Ok(None)
    } else if be64(b, at) * chunk_size >= size {
        Err(FormatError::ChunkOutOfRange(be64(b, at)))
    } else if at + 8 + chunk_size > b.len() {
        Err(FormatError::Truncated)
    } else {
        let offset = (be64(b, at) * chunk_size) as u64;
        Ok(Some((offset, b.subrange(at + 8, at + 8 + chunk_len_at(offset, chunk_size, size)))))
    }
}

/// Number of absent entries at the front of `e`.
pub open spec fn absent_run(e: Seq<Option<Seq<u8>>>) -> nat
    decreases e.len(),
{
    if e.len() > 0 && e[0] is None {
        1 + absent_run(e.skip(1))
    } else {
        0
    }
}

/// Number of present entries at the front of `e`.
pub open spec fn present_run(e: Seq<Option<Seq<u8>>>) -> nat
    decreases e.len(),
{
    if e.len() > 0 && e[0] is Some {
        1 + present_run(e.skip(1))
    } else {
        0
    }
}

/// The payloads of the first `n` entries of `e`, one after the other.
pub open spec fn run_payload(e: Seq<Option<Seq<u8>>>, n: nat) -> Seq<u8>
    decreases n,
{
    if n == 0 {
        Seq::empty()
    } else {
        run_payload(e, (n - 1) as nat) + e[n - 1]->Some_0
    }
}

pub proof fn lemma_absent_run(e: Seq<Option<Seq<u8>>>)
    ensures
        absent_run(e) <= e.len(),
        forall|k: int| 0 <= k < absent_run(e) ==> e[k] is None,
        absent_run(e) < e.len() ==> e[absent_run(e) as int] is Some,
    decreases e.len(),
{
    if e.len() > 0 && e[0] is None {
        lemma_absent_run(e.skip(1));
        assert forall|k: int| 0 <= k < absent_run(e) implies e[k] is None by {
            if k > 0 {
                assert(e[k] == e.skip(1)[k - 1]);
            }
        }
        if absent_run(e) < e.len() {
            assert(e[absent_run(e) as int] == e.skip(1)[absent_run(e.skip(1)) as int]);
        }
    }
}

pub proof fn lemma_present_run(e: Seq<Option<Seq<u8>>>)
    ensures
        present_run(e) <= e.len(),
        forall|k: int| 0 <= k < present_run(e) ==> e[k] is Some,
        present_run(e) < e.len() ==> e[present_run(e) as int] is None,
    decreases e.len(),
{
    if e.len() > 0 && e[0] is Some {
        lemma_present_run(e.skip(1));
        assert forall|k: int| 0 <= k < present_run(e) implies e[k] is Some by {
            if k > 0 {
                assert(e[k] == e.skip(1)[k - 1]);
            }
        }
        if present_run(e) < e.len() {
            assert(e[present_run(e) as int] == e.skip(1)[present_run(e.skip(1)) as int]);
        }
    }
}

/// The run lengths are pinned down by where the entries change.
proof fn lemma_absent_run_is(e: Seq<Option<Seq<u8>>>, s: nat)
    requires
        s <= e.len(),
        forall|k: int| 0 <= k < s ==> e[k] is None,
        s < e.len() ==> e[s as int] is Some,
    ensures
        absent_run(e) == s,
    decreases s,
{
    if s > 0 {
        assert forall|k: int| 0 <= k < s - 1 implies e.skip(1)[k] is None by {
            assert(e.skip(1)[k] == e[k + 1]);
        }
        if s - 1 < e.len() - 1 {
            assert(e.skip(1)[s - 1] == e[s as int]);
        }
        lemma_absent_run_is(e.skip(1), (s - 1) as nat);
    }
}

proof fn lemma_present_run_is(e: Seq<Option<Seq<u8>>>, r: nat)
    requires
        r <= e.len(),
        forall|k: int| 0 <= k < r ==> e[k] is Some,
        r < e.len() ==> e[r as int] is None,
    ensures
        present_run(e) == r,
    decreases r,
{
    if r > 0 {
        assert forall|k: int| 0 <= k < r - 1 implies e.skip(1)[k] is Some by {
            assert(e.skip(1)[k] == e[k + 1]);
        }
        if r - 1 < e.len() - 1 {
            assert(e.skip(1)[r - 1] == e[r as int]);
        }
        lemma_present_run_is(e.skip(1), (r - 1) as nat);
    }
}

pub proof fn lemma_run_progress(e: Seq<Option<Seq<u8>>>)
    requires
        e.len() > 0,
    ensures
        absent_run(e) + present_run(e.skip(absent_run(e) as int)) >= 1,
        absent_run(e) + present_run(e.skip(absent_run(e) as int)) <= e.len(),
{
    lemma_absent_run(e);
    let s = absent_run(e);
    lemma_present_run(e.skip(s as int));
    if s == 0 {
        assert(e.skip(0)[0] == e[0]);
    }
}

/// Sparse skip/run encoding of `e`: for each record, the number of absent
/// entries to skip, the number of present entries that follow, then their
/// payloads. No record has both counts zero.
pub open spec fn skip_run_bytes(e: Seq<Option<Seq<u8>>>) -> Seq<u8>
    decreases e.len(),
{
    if e.len() == 0 {
        Seq::empty()
    } else {
        let s = absent_run(e);
        let rest = e.skip(s as int);
        let r = present_run(rest);
        proof {
            lemma_run_progress(e);
        }
        be64_bytes(s as u64) + be64_bytes(r as u64) + run_payload(rest, r) + skip_run_bytes(rest.skip(r as int))
    }
}

/// The `count` entries that `b` encodes with payloads of `w` bytes, or why
/// it does not.
pub open spec fn parse_skip_run(b: Seq<u8>, count: nat, w: nat) -> Result<Seq<Option<Seq<u8>>>, FormatError>
    decreases b.len(),
{
    if count == 0 {
        if b.len() == 0 {
            Ok(Seq::empty())
        } else {
            Err(FormatError::TrailingBytes)
        }
    } else if b.len() < 16 {
        Err(FormatError::Truncated)
    } else {
        let s = be64(b, 0) as nat;
        let r = be64(b, 8) as nat;
        if s == 0 && r == 0 {
            Err(FormatError::EmptyRun)
        } else if s + r > count {
            Err(FormatError::CountMismatch)
        } else if 16 + r * w > b.len() {
            Err(FormatError::Truncated)
        } else {
            match parse_skip_run(b.skip((16 + r * w) as int), (count - s - r) as nat, w) {
                Ok(rest) => Ok(
                    Seq::new(s, |k: int| None::<Seq<u8>>) + Seq::new(r, |k: int| Some(b.subrange(16 + k * w, 16 + (k + 1) * w)))
                        + rest,
                ),
                Err(x) => Err(x),
            }
        }
    }
}

/// Every present entry has a payload of `w` bytes.
pub open spec fn payloads_have_width(e: Seq<Option<Seq<u8>>>, w: nat) -> bool {
    forall|k: int| 0 <= k < e.len() && (#[trigger] e[k]) is Some ==> e[k]->Some_0.len() == w
}

pub proof fn lemma_be64_at(b: Seq<u8>, at: int, x: u64)
    requires
        0 <= at,
        at + 8 <= b.len(),
        b.subrange(at, at + 8) == be64_bytes(x),
    ensures
        be64(b, at) == x,
{
    lemma_be64_round_trip(x);
    let h = be64_bytes(x);
    assert forall|i: int| 0 <= i < 8 implies b[at + i] == h[i] by {
        assert(b.subrange(at, at + 8)[i] == b[at + i]);
    }
}

proof fn lemma_run_payload(e: Seq<Option<Seq<u8>>>, n: nat, w: nat)
    requires
        n <= e.len(),
        forall|k: int| 0 <= k < n ==> e[k] is Some,
        payloads_have_width(e, w),
    ensures
        run_payload(e, n).len() == n * w,
        forall|k: int| 0 <= k < n ==> #[trigger] run_payload(e, n).subrange(k * w, (k + 1) * w) == e[k]->Some_0,
    decreases n,
{
    if n > 0 {
        let m = (n - 1) as nat;
        lemma_run_payload(e, m, w);
        let p = run_payload(e, m);
        let q = run_payload(e, n);
        assert(e[m as int] is Some);
        assert(q == p + e[m as int]->Some_0);
        assert(m * w + w == n * w) by (nonlinear_arith)
            requires
                m + 1 == n,
        ;
        assert forall|k: int| 0 <= k < n implies #[trigger] q.subrange(k * w, (k + 1) * w) == e[k]->Some_0 by {
            if k < m {
                assert((k + 1) * w <= m * w) by (nonlinear_arith)
                    requires
                        k + 1 <= m,
                ;
                assert(0 <= k * w) by (nonlinear_arith)
                    requires
                        0 <= k,
                ;
                assert((k + 1) * w == k * w + w) by (nonlinear_arith);
                assert forall|i: int| 0 <= i < p.len() implies q[i] == p[i] by {}
                assert(q.subrange(k * w, (k + 1) * w) =~= p.subrange(k * w, (k + 1) * w));
            } else {
                assert(k * w == m * w);
                assert((k + 1) * w == n * w) by (nonlinear_arith)
                    requires
                        k == m,
                        m + 1 == n,
                ;
                assert(q.subrange(k * w, (k + 1) * w) =~= e[m as int]->Some_0);
            }
        }
    } else {
        assert(0 * w == 0) by (nonlinear_arith);
    }
}

proof fn lemma_parse_step(b: Seq<u8>, count: nat, w: nat, tail: Seq<Option<Seq<u8>>>)
    requires
        count > 0,
        b.len() >= 16,
        !(be64(b, 0) == 0 && be64(b, 8) == 0),
        be64(b, 0) + be64(b, 8) <= count,
        16 + be64(b, 8) * w <= b.len(),
        parse_skip_run(b.skip((16 + be64(b, 8) * w) as int), (count - be64(b, 0) - be64(b, 8)) as nat, w)
            == Ok::<Seq<Option<Seq<u8>>>, FormatError>(tail),
    ensures
        parse_skip_run(b, count, w) == Ok::<Seq<Option<Seq<u8>>>, FormatError>(
            Seq::new(be64(b, 0) as nat, |k: int| None::<Seq<u8>>) + Seq::new(
                be64(b, 8) as nat,
                |k: int| Some(b.subrange(16 + k * w, 16 + (k + 1) * w)),
            ) + tail,
        ),
{
}

/// Decoding the skip/run encoding of a list of entries gives the list back.
#[verifier::rlimit(40)]
pub proof fn lemma_skip_run_round_trip(e: Seq<Option<Seq<u8>>>, w: nat)
    requires
        payloads_have_width(e, w),
        e.len() <= u64::MAX,
    ensures
        parse_skip_run(skip_run_bytes(e), e.len(), w) == Ok::<Seq<Option<Seq<u8>>>, FormatError>(e),
    decreases e.len(),
{
    if e.len() > 0 {
        lemma_run_progress(e);
        lemma_absent_run(e);
        let s = absent_run(e);
        let rest = e.skip(s as int);
        lemma_present_run(rest);
        let r = present_run(rest);
        let tail = rest.skip(r as int);
        assert(payloads_have_width(rest, w)) by {
            assert forall|k: int| 0 <= k < rest.len() && (#[trigger] rest[k]) is Some implies rest[k]->Some_0.len() == w by {
                assert(rest[k] == e[k + s]);
            }
        }
        assert(payloads_have_width(tail, w)) by {
            assert forall|k: int| 0 <= k < tail.len() && (#[trigger] tail[k]) is Some implies tail[k]->Some_0.len() == w by {
                assert(tail[k] == rest[k + r]);
            }
        }
        lemma_run_payload(rest, r, w);
        let p = run_payload(rest, r);
        let t = skip_run_bytes(tail);
        let b = skip_run_bytes(e);
        let h = be64_bytes(s as u64) + be64_bytes(r as u64);
        assert(b == h + p + t);
        assert(h.len() == 16);
        assert forall|i: int| 0 <= i < p.len() implies b[16 + i] == p[i] by {
            assert((h + p + t)[16 + i] == (h + p)[16 + i]);
        }
        lemma_be64_round_trip(s as u64);
        lemma_be64_round_trip(r as u64);
        assert(b.subrange(0, 8) =~= be64_bytes(s as u64));
        assert(b.subrange(8, 16) =~= be64_bytes(r as u64));
        lemma_be64_at(b, 0, s as u64);
        lemma_be64_at(b, 8, r as u64);
        assert(b.skip((16 + r * w) as int) =~= t);
        lemma_skip_run_round_trip(tail, w);
        assert(tail.len() == e.len() - s - r);
        let got = Seq::new(s, |k: int| None::<Seq<u8>>) + Seq::new(r, |k: int| Some(b.subrange(16 + k * w, 16 + (k + 1) * w)))
            + tail;
        assert forall|k: int| 0 <= k < e.len() implies got[k] == e[k] by {
            if k < s {
            } else if k < s + r {
                let j = k - s;
                assert(rest[j] == e[k]);
                assert(0 <= j * w) by (nonlinear_arith)
                    requires
                        0 <= j,
                ;
                assert((j + 1) * w <= r * w) by (nonlinear_arith)
                    requires
                        j + 1 <= r,
                ;
                assert((j + 1) * w == j * w + w) by (nonlinear_arith);
                assert(b.subrange(16 + j * w, 16 + (j + 1) * w) =~= p.subrange(j * w, (j + 1) * w));
                assert(p.subrange(j * w, (j + 1) * w) == rest[j]->Some_0);
            } else {
                assert(tail[k - s - r] == e[k]);
            }
        }
        assert(got =~= e);
        assert(be64(b, 0) == s && be64(b, 8) == r);
        assert(16 + r * w <= b.len());
        assert(parse_skip_run(b.skip((16 + be64(b, 8) * w) as int), (e.len() - be64(b, 0) - be64(b, 8)) as nat, w)
            == Ok::<Seq<Option<Seq<u8>>>, FormatError>(tail));
        lemma_parse_step(b, e.len(), w, tail);
    } else {
        assert(e =~= Seq::empty());
    }
}

/// The plain view of a list of optional byte strings.
pub open spec fn entries_view(v: Seq<Option<Vec<u8>>>) -> Seq<Option<Seq<u8>>> {
    v.map_values(|o: Option<Vec<u8>>| match o {
        Some(x) => Some(x@),
        None => None,
    })
}

/// Append the bytes of `b`.
pub fn append_bytes(out: &mut Vec<u8>, b: &[u8])
    ensures
        final(out)@ == old(out)@ + b@,
{
    let mut i: usize = 0;
    while i < b.len()
        invariant
            i <= b@.len(),
            out@ == old(out)@ + b@.subrange(0, i as int),
        decreases b@.len() - i,
    {
        out.push(b[i]);
        assert(b@.subrange(0, i + 1) =~= b@.subrange(0, i as int).push(b@[i as int]));
        i = i + 1;
    }
    assert(b@.subrange(0, i as int) =~= b@);
}

/// Encode `entries` as skip/run records; every present payload is `w` bytes.
pub fn encode_skip_run(entries: &Vec<Option<Vec<u8>>>, w: usize) -> (r: Vec<u8>)
    requires
        payloads_have_width(entries_view(entries@), w as nat),
    ensures
        r@ == skip_run_bytes(entries_view(entries@)),
{
    let ghost ev = entries_view(entries@);
    let n = entries.len();
    let mut out: Vec<u8> = Vec::new();
    let mut i: usize = 0;
    assert(ev.skip(0) =~= ev);
    while i < n
        invariant
            n == entries@.len(),
            ev == entries_view(entries@),
            ev.len() == n,
            i <= n,
            out@ + skip_run_bytes(ev.skip(i as int)) == skip_run_bytes(ev),
        decreases n - i,
    {
        let mut j: usize = i;
        while j < n && entries[j].is_none()
            invariant
                i <= j <= n,
                n == entries@.len(),
                ev == entries_view(entries@),
                forall|k: int| i <= k < j ==> ev[k] is None,
            decreases n - j,
        {
            j = j + 1;
        }
        let mut k: usize = j;
        while k < n && entries[k].is_some()
            invariant
                j <= k <= n,
                n == entries@.len(),
                ev == entries_view(entries@),
                forall|m: int| j <= m < k ==> ev[m] is Some,
            decreases n - k,
        {
            k = k + 1;
        }
        let ghost e = ev.skip(i as int);
        proof {
            lemma_absent_run_is(e, (j - i) as nat);
            assert(e.skip((j - i) as int) =~= ev.skip(j as int));
            lemma_present_run_is(ev.skip(j as int), (k - j) as nat);
            assert(ev.skip(j as int).skip((k - j) as int) =~= ev.skip(k as int));
            lemma_run_progress(e);
        }
        let ghost base = out@;
        push_be64(&mut out, (j - i) as u64);
        push_be64(&mut out, (k - j) as u64);
        let ghost head = out@;
        let mut m: usize = j;
        while m < k
            invariant
                j <= m <= k <= n,
                n == entries@.len(),
                ev == entries_view(entries@),
                forall|q: int| j <= q < k ==> ev[q] is Some,
                out@ == head + run_payload(ev.skip(j as int), (m - j) as nat),
            decreases k - m,
        {
            match &entries[m] {
                Some(p) => {
                    append_bytes(&mut out, p.as_slice());
                    proof {
                        assert(ev.skip(j as int)[(m - j) as int] == ev[m as int]);
                        assert(ev[m as int]->Some_0 == p@);
                    }
                },
                None => {},
            }
            proof {
                assert(run_payload(ev.skip(j as int), (m + 1 - j) as nat) == run_payload(ev.skip(j as int), (m - j) as nat)
                    + ev.skip(j as int)[(m - j) as int]->Some_0);
            }
            m = m + 1;
        }
        proof {
            assert(skip_run_bytes(e) == be64_bytes((j - i) as u64) + be64_bytes((k - j) as u64) + run_payload(
                ev.skip(j as int),
                (k - j) as nat,
            ) + skip_run_bytes(ev.skip(k as int)));
            assert(out@ + skip_run_bytes(ev.skip(k as int)) =~= base + skip_run_bytes(e));
        }
        i = k;
    }
    assert(ev.skip(i as int) =~= Seq::<Option<Seq<u8>>>::empty());
    assert(out@ =~= skip_run_bytes(ev));
    out
}

/// `res` with `a` in front of its entries.
pub open spec fn prepend(a: Seq<Option<Seq<u8>>>, res: Result<Seq<Option<Seq<u8>>>, FormatError>) -> Result<
    Seq<Option<Seq<u8>>>,
    FormatError,
> {
    match res {
        Ok(x) => Ok(a + x),
        Err(e) => Err(e),
    }
}

proof fn lemma_be64_skip(b: Seq<u8>, pos: int, at: int)
    requires
        0 <= pos,
        0 <= at,
        pos + at + 8 <= b.len(),
    ensures
        be64(b.skip(pos), at) == be64(b, pos + at),
{
    let c = b.skip(pos);
    assert(c[at] == b[pos + at] && c[at + 1] == b[pos + at + 1] && c[at + 2] == b[pos + at + 2] && c[at + 3] == b[pos + at + 3]);
    assert(c[at + 4] == b[pos + at + 4] && c[at + 5] == b[pos + at + 5] && c[at + 6] == b[pos + at + 6] && c[at + 7] == b[pos
        + at + 7]);
}

/// Decode `count` skip/run entries with payloads of `w` bytes; the bytes
/// must end exactly after the last record.
#[verifier::rlimit(50)]
pub fn decode_skip_run(b: &[u8], count: u64, w: usize) -> (r: Result<Vec<Option<Vec<u8>>>, FormatError>)
    ensures
        match (r, parse_skip_run(b@, count as nat, w as nat)) {
            (Ok(v), Ok(e)) => entries_view(v@) == e,
            (Err(x), Err(y)) => x == y,
            _ => false,
        },
{
    let n = b.len();
    let mut out: Vec<Option<Vec<u8>>> = Vec::new();
    let mut pos: usize = 0;
    let mut rem: u64 = count;
    assert(b@.skip(0) =~= b@);
    assert(entries_view(out@) =~= Seq::<Option<Seq<u8>>>::empty());
    assert(prepend(Seq::empty(), parse_skip_run(b@, count as nat, w as nat)) =~~= parse_skip_run(b@, count as nat, w as nat)) by {
        match parse_skip_run(b@, count as nat, w as nat) {
            Ok(x) => {
                assert(Seq::<Option<Seq<u8>>>::empty() + x =~= x);
            },
            Err(_) => {},
        }
    }
    loop
        invariant
            n == b@.len(),
            pos <= n,
            parse_skip_run(b@, count as nat, w as nat) == prepend(entries_view(out@), parse_skip_run(b@.skip(pos as int), rem as nat, w as nat)),
        decreases n - pos,
    {
        let ghost rest = b@.skip(pos as int);
        if rem == 0 {
            if pos == n {
                proof {
                    assert(entries_view(out@) + Seq::<Option<Seq<u8>>>::empty() =~= entries_view(out@));
                }
                return Ok(out);
            }
            return Err(FormatError::TrailingBytes);
        }
        if n - pos < 16 {
            return Err(FormatError::Truncated);
        }
        let skip = read_be64(b, pos);
        let run = read_be64(b, pos + 8);
        proof {
            lemma_be64_skip(b@, pos as int, 0);
            lemma_be64_skip(b@, pos as int, 8);
        }
        if skip == 0 && run == 0 {
            return Err(FormatError::EmptyRun);
        }
        if skip > rem || run > rem - skip {
            return Err(FormatError::CountMismatch);
        }
        assert(run as u128 * w as u128 <= 0xffff_ffff_ffff_ffff_ffff_ffff_ffff_ffff) by (nonlinear_arith)
            requires
                run <= 0xffff_ffff_ffff_ffff,
                w <= 0xffff_ffff_ffff_ffff,
        ;
        let payload_len: u128 = run as u128 * w as u128;
        if payload_len > (n - pos - 16) as u128 {
            return Err(FormatError::Truncated);
        }
        let ghost before = entries_view(out@);
        let mut i: u64 = 0;
        while i < skip
            invariant
                i <= skip,
                entries_view(out@) == before + Seq::new(i as nat, |k: int| None::<Seq<u8>>),
            decreases skip - i,
        {
            let ghost old_out = out@;
            out.push(None);
            proof {
                assert(entries_view(out@) =~= entries_view(old_out).push(None));
                assert(entries_view(out@) =~= before + Seq::new((i + 1) as nat, |k: int| None::<Seq<u8>>));
            }
            i = i + 1;
        }
        let start = pos + 16;
        let mut j: u64 = 0;
        let mut from: usize = start;
        assert(0 * w == 0) by (nonlinear_arith);
        while j < run
            invariant
                j <= run,
                from == start + j * w,
                n == b@.len(),
                start == pos + 16,
                run * w <= n - start,
                entries_view(out@) == before + Seq::new(skip as nat, |k: int| None::<Seq<u8>>) + Seq::new(
                    j as nat,
                    |k: int| Some(rest.subrange(16 + k * w, 16 + (k + 1) * w)),
                ),
                rest == b@.skip(pos as int),
            decreases run - j,
        {
            proof {
                assert((j + 1) * w <= run * w) by (nonlinear_arith)
                    requires
                        j + 1 <= run,
                ;
                assert((j + 1) * w == j * w + w) by (nonlinear_arith);
                assert(0 <= j * w) by (nonlinear_arith)
                    requires
                        0 <= j,
                ;
            }
            let payload = copy_range(b, from, w);
            let ghost old_out = out@;
            let ghost pv = payload@;
            out.push(Some(payload));
            proof {
                assert(entries_view(out@) =~= entries_view(old_out).push(Some(pv)));
                assert(payload@ =~= rest.subrange(16 + j * w, 16 + (j + 1) * w));
                assert(entries_view(out@) =~= before + Seq::new(skip as nat, |k: int| None::<Seq<u8>>) + Seq::new(
                    (j + 1) as nat,
                    |k: int| Some(rest.subrange(16 + k * w, 16 + (k + 1) * w)),
                ));
            }
            from = from + w;
            j = j + 1;
        }
        let ghost step = Seq::new(skip as nat, |k: int| None::<Seq<u8>>) + Seq::new(
            run as nat,
            |k: int| Some(rest.subrange(16 + k * w, 16 + (k + 1) * w)),
        );
        let next = start + payload_len as usize;
        proof {
            assert(rest.skip((16 + run * w) as int) =~= b@.skip(next as int));
            let tail = parse_skip_run(b@.skip(next as int), (rem - skip - run) as nat, w as nat);
            assert(parse_skip_run(rest, rem as nat, w as nat) == prepend(step, tail));
            match tail {
                Ok(x) => {
                    assert(before + (step + x) =~= (before + step) + x);
                },
                Err(_) => {},
            }
            assert(entries_view(out@) =~= before + step);
        }
        pos = next;
        rem = rem - skip - run;
    }
}

/// A copy of `b[from..from + len]`.
fn copy_range(b: &[u8], from: usize, len: usize) -> (r: Vec<u8>)
    requires
        from + len <= b@.len(),
    ensures
        r@ == b@.subrange(from as int, from + len),
{
    let n = b.len();
    let mut r: Vec<u8> = Vec::with_capacity(len);
    let mut i: usize = 0;
    while i < len
        invariant
            i <= len,
            n == b@.len(),
            from + len <= n,
            r@ == b@.subrange(from as int, from + i),
        decreases len - i,
    {
        r.push(b[from + i]);
        assert(b@.subrange(from as int, from + i + 1) =~= b@.subrange(from as int, from + i).push(b@[from + i]));
        i = i + 1;
    }
    r
}

/// The index entries for chunk locations: each location as eight bytes.
pub open spec fn location_entries(locations: Seq<Option<u64>>) -> Seq<Option<Seq<u8>>> {
    locations.map_values(|o: Option<u64>| match o {
        Some(x) => Some(be64_bytes(x)),
        None => None,
    })
}

/// The locations held by index entries of eight bytes each.
pub open spec fn entry_locations(e: Seq<Option<Seq<u8>>>) -> Seq<Option<u64>> {
    e.map_values(|o: Option<Seq<u8>>| match o {
        Some(x) => Some(be64(x, 0)),
        None => None,
    })
}

/// No location is the reserved value.
pub open spec fn no_reserved(locations: Seq<Option<u64>>) -> bool {
    forall|k: int| 0 <= k < locations.len() ==> #[trigger] locations[k] != Some(RESERVED)
}

/// The stored index: its skip/run records, then their length in bytes.
pub open spec fn index_bytes(locations: Seq<Option<u64>>) -> Seq<u8> {
    let runs = skip_run_bytes(location_entries(locations));
    runs + be64_bytes(runs.len() as u64)
}

/// The index stored at the end of `body` (the bytes after the header), for
/// `count` chunks, or why it cannot be read. The index must start after at
/// least the end marker.
pub open spec fn parse_index(body: Seq<u8>, count: nat) -> Result<Seq<Option<u64>>, FormatError> {
    if body.len() < 16 {
        Err(FormatError::Truncated)
    } else {
        let size = be64(body, body.len() - 8);
        if size > body.len() - 16 {
            Err(FormatError::Truncated)
        } else {
            match parse_skip_run(body.subrange(body.len() - 8 - size, body.len() - 8), count, 8) {
                Ok(e) => if no_reserved(entry_locations(e)) {
                    Ok(entry_locations(e))
                } else {
                    Err(FormatError::ReservedLocation)
                },
                Err(x) => Err(x),
            }
        }
    }
}

/// Encode an index of chunk locations; the reserved value is refused as a
/// location.
pub fn encode_index(locations: &Vec<Option<u64>>) -> (r: Result<Vec<u8>, FormatError>)
    ensures
        no_reserved(locations@) ==> r == Ok::<Vec<u8>, FormatError>(r->Ok_0) && r->Ok_0@ == index_bytes(locations@),
        !no_reserved(locations@) ==> r == Err::<Vec<u8>, FormatError>(FormatError::ReservedLocation),
{
    let mut entries: Vec<Option<Vec<u8>>> = Vec::with_capacity(locations.len());
    let mut i: usize = 0;
    while i < locations.len()
        invariant
            i <= locations@.len(),
            entries_view(entries@) == location_entries(locations@.take(i as int)),
            no_reserved(locations@.take(i as int)),
        decreases locations@.len() - i,
    {
        let ghost old_entries = entries@;
        match locations[i] {
            Some(x) => {
                if x == RESERVED {
                    proof {
                        assert(locations@[i as int] == Some(RESERVED));
                    }
                    return Err(FormatError::ReservedLocation);
                }
                let mut b: Vec<u8> = Vec::new();
                push_be64(&mut b, x);
                assert(b@ =~= be64_bytes(x));
                let ghost bv = b@;
                entries.push(Some(b));
                assert(entries_view(entries@) =~= entries_view(old_entries).push(Some(bv)));
            },
            None => {
                entries.push(None);
                assert(entries_view(entries@) =~= entries_view(old_entries).push(None));
            },
        }
        proof {
            assert(locations@.take(i + 1) =~= locations@.take(i as int).push(locations@[i as int]));
            assert(entries_view(entries@) =~= location_entries(locations@.take(i + 1)));
        }
        i = i + 1;
    }
    assert(locations@.take(i as int) =~= locations@);
    let mut out = encode_skip_run(&entries, 8);
    let len = out.len() as u64;
    push_be64(&mut out, len);
    Ok(out)
}

proof fn lemma_parse_widths(b: Seq<u8>, count: nat, w: nat)
    ensures
        parse_skip_run(b, count, w) is Ok ==> payloads_have_width(parse_skip_run(b, count, w)->Ok_0, w),
    decreases b.len(),
{
    if count > 0 && b.len() >= 16 {
        let s = be64(b, 0) as nat;
        let r = be64(b, 8) as nat;
        if !(s == 0 && r == 0) && s + r <= count && 16 + r * w <= b.len() {
            let rest = b.skip((16 + r * w) as int);
            lemma_parse_widths(rest, (count - s - r) as nat, w);
            if parse_skip_run(b, count, w) is Ok {
                let e = parse_skip_run(b, count, w)->Ok_0;
                let tail = parse_skip_run(rest, (count - s - r) as nat, w)->Ok_0;
                assert forall|k: int| 0 <= k < e.len() && (#[trigger] e[k]) is Some implies e[k]->Some_0.len() == w by {
                    if s <= k < s + r {
                        let j = k - s;
                        assert((j + 1) * w == j * w + w) by (nonlinear_arith);
                        assert((j + 1) * w <= r * w) by (nonlinear_arith)
                            requires
                                j + 1 <= r,
                        ;
                        assert(0 <= j * w) by (nonlinear_arith)
                            requires
                                0 <= j,
                        ;
                    } else if k >= s + r {
                        assert(e[k] == tail[k - s - r]);
                    }
                }
            }
        }
    }
}

/// Read the index stored at the end of `body` (the bytes after the
/// header) for `count` chunks. A reserved location is refused.
pub fn decode_index(body: &[u8], count: u64) -> (r: Result<Vec<Option<u64>>, FormatError>)
    ensures
        match (r, parse_index(body@, count as nat)) {
            (Ok(v), Ok(e)) => v@ == e,
            (Err(x), Err(y)) => x == y,
            _ => false,
        },
{
    let n = body.len();
    if n < 16 {
        return Err(FormatError::Truncated);
    }
    let size = read_be64(body, n - 8);
    if size > (n - 16) as u64 {
        return Err(FormatError::Truncated);
    }
    let start = n - 8 - size as usize;
    let runs = copy_range(body, start, size as usize);
    assert(body@.subrange(start as int, start + size) =~= runs@);
    let entries = match decode_skip_run(runs.as_slice(), count, 8) {
        Ok(e) => e,
        Err(x) => return Err(x),
    };
    let ghost ev = entries_view(entries@);
    proof {
        lemma_parse_widths(runs@, count as nat, 8);
    }
    let mut out: Vec<Option<u64>> = Vec::with_capacity(entries.len());
    let mut i: usize = 0;
    while i < entries.len()
        invariant
            i <= entries@.len(),
            ev == entries_view(entries@),
            payloads_have_width(ev, 8),
            n == body@.len(),
            n >= 16,
            size == be64(body@, n - 8),
            size <= n - 16,
            start == n - 8 - size,
            body@.subrange(start as int, start + size) == runs@,
            parse_skip_run(runs@, count as nat, 8) == Ok::<Seq<Option<Seq<u8>>>, FormatError>(ev),
            out@ == entry_locations(ev.take(i as int)),
            no_reserved(out@),
        decreases entries@.len() - i,
    {
        let ghost old_out = out@;
        match &entries[i] {
            Some(p) => {
                proof {
                    assert(ev[i as int] == Some(p@));
                }
                let x = read_be64(p.as_slice(), 0);
                if x == RESERVED {
                    proof {
                        assert(ev.take(i + 1) =~= ev.take(i as int).push(ev[i as int]));
                        let locs = entry_locations(ev);
                        assert(locs[i as int] == Some(RESERVED));
                        assert(!no_reserved(locs));
                        assert(parse_skip_run(body@.subrange(start as int, start + size), count as nat, 8) == Ok::<
                            Seq<Option<Seq<u8>>>,
                            FormatError,
                        >(ev));
                        assert(be64(body@, n - 8) == size);
                        assert(parse_index(body@, count as nat) == Err::<Seq<Option<u64>>, FormatError>(
                            FormatError::ReservedLocation,
                        ));
                    }
                    return Err(FormatError::ReservedLocation);
                }
                out.push(Some(x));
            },
            None => {
                out.push(None);
            },
        }
        proof {
            assert(ev.take(i + 1) =~= ev.take(i as int).push(ev[i as int]));
            assert(out@ =~= entry_locations(ev.take(i + 1)));
        }
        i = i + 1;
    }
    proof {
        assert(ev.take(i as int) =~= ev);
        assert(body@.subrange(start as int, start + size) =~= runs@);
    }
    Ok(out)
}

/// Reading back an index stored after any chunk data gives the locations
/// that were stored.
#[verifier::rlimit(60)]
pub proof fn lemma_index_round_trip(chunk_data: Seq<u8>, locations: Seq<Option<u64>>)
    requires
        chunk_data.len() >= 8,
        no_reserved(locations),
        locations.len() <= u64::MAX,
        skip_run_bytes(location_entries(locations)).len() <= u64::MAX,
    ensures
        parse_index(chunk_data + index_bytes(locations), locations.len()) == Ok::<Seq<Option<u64>>, FormatError>(locations),
{
    let e = location_entries(locations);
    lemma_location_entries(locations);
    lemma_skip_run_round_trip(e, 8);
    let runs = skip_run_bytes(e);
    lemma_index_frame(chunk_data, runs, locations.len(), e);
    assert(chunk_data + index_bytes(locations) =~= chunk_data + runs + be64_bytes(runs.len() as u64));
}

proof fn lemma_index_frame(chunk_data: Seq<u8>, runs: Seq<u8>, count: nat, e: Seq<Option<Seq<u8>>>)
    requires
        chunk_data.len() >= 8,
        runs.len() <= u64::MAX,
        parse_skip_run(runs, count, 8) == Ok::<Seq<Option<Seq<u8>>>, FormatError>(e),
        no_reserved(entry_locations(e)),
    ensures
        parse_index(chunk_data + runs + be64_bytes(runs.len() as u64), count) == Ok::<Seq<Option<u64>>, FormatError>(
            entry_locations(e),
        ),
{
    let body = chunk_data + runs + be64_bytes(runs.len() as u64);
    lemma_be64_round_trip(runs.len() as u64);
    let n = body.len();
    assert(body.subrange(n - 8, n as int) =~= be64_bytes(runs.len() as u64));
    lemma_be64_at(body, n - 8, runs.len() as u64);
    assert(body.subrange(n - 8 - runs.len(), n - 8) =~= runs);
}

proof fn lemma_location_entries(locations: Seq<Option<u64>>)
    ensures
        payloads_have_width(location_entries(locations), 8),
        entry_locations(location_entries(locations)) =~= locations,
{
    let e = location_entries(locations);
    assert forall|k: int| 0 <= k < e.len() && (#[trigger] e[k]) is Some implies e[k]->Some_0.len() == 8 by {
        lemma_be64_round_trip(locations[k]->Some_0);
    }
    assert forall|k: int| 0 <= k < locations.len() implies entry_locations(e)[k] == locations[k] by {
        if locations[k] is Some {
            lemma_be64_round_trip(locations[k]->Some_0);
        }
    }
}

/// The chunks stored from `at` on, in file order, up to the end marker, and
/// where the marker ends; or why the bytes are refused.
pub open spec fn parse_records(b: Seq<u8>, at: int, size: u64, chunk_size: usize) -> Result<(Seq<(u64, Seq<u8>)>, int), FormatError>
    decreases b.len() - at,
{
    match parse_record(b, at, size, chunk_size) {
        Err(e) => Err(e),
        Ok(None) => Ok((Seq::empty(), at + 8)),
        Ok(Some(p)) => if at + 8 + chunk_size <= b.len() {
            match parse_records(b, at + 8 + chunk_size, size, chunk_size) {
                Ok((rest, end)) => Ok((seq![p] + rest, end)),
                Err(e) => Err(e),
            }
        } else {
            Err(FormatError::Truncated)
        },
    }
}

/// Read the stored chunks in file order from `at` up to the end marker;
/// returns them and the position just past the marker. Later copies of a
/// chunk come after earlier ones.
pub fn read_records(b: &[u8], at: usize, size: u64, chunk_size: usize) -> (r: Result<(Vec<Chunk>, usize), FormatError>)
    requires
        chunk_size > 0,
    ensures
        match (r, parse_records(b@, at as int, size, chunk_size)) {
            (Ok((v, end)), Ok((e, pe))) => v@.map_values(|c: Chunk| (c.offset, c.data@)) == e && end == pe,
            (Err(x), Err(y)) => x == y,
            _ => false,
        },
{
    let n = b.len();
    let mut out: Vec<Chunk> = Vec::new();
    let mut pos: usize = at;
    loop
        invariant
            n == b@.len(),
            chunk_size > 0,
            parse_records(b@, at as int, size, chunk_size) == match parse_records(b@, pos as int, size, chunk_size) {
                Ok((rest, end)) => Ok((out@.map_values(|c: Chunk| (c.offset, c.data@)) + rest, end)),
                Err(e) => Err(e),
            },
        decreases n - pos,
    {
        let ghost done = out@.map_values(|c: Chunk| (c.offset, c.data@));
        match decode_record(b, pos, size, chunk_size) {
            Err(e) => {
                return Err(e);
            },
            Ok(None) => {
                proof {
                    assert(done + Seq::<(u64, Seq<u8>)>::empty() =~= done);
                }
                return Ok((out, pos + 8));
            },
            Ok(Some(c)) => {
                let ghost cv = (c.offset, c.data@);
                out.push(c);
                proof {
                    assert(out@.map_values(|c: Chunk| (c.offset, c.data@)) =~= done.push(cv));
                    match parse_records(b@, pos + 8 + chunk_size, size, chunk_size) {
                        Ok((rest, end)) => {
                            assert(done + (seq![cv] + rest) =~= done.push(cv) + rest);
                        },
                        Err(_) => {},
                    }
                }
                pos = pos + 8 + chunk_size;
            },
        }
    }
}

/// Reading back a stored chunk gives the same offset and bytes; a short
/// final chunk loses exactly its padding.
pub proof fn lemma_record_round_trip(offset: u64, data: Seq<u8>, chunk_size: usize, size: u64)
    requires
        valid_chunk(offset, data.len(), chunk_size, size),
    ensures
        record_bytes(offset, data, chunk_size).len() == 8 + chunk_size,
        parse_record(record_bytes(offset, data, chunk_size), 0, size, chunk_size) == Ok::<Option<(u64, Seq<u8>)>, FormatError>(Some((offset, data))),
{
    let cs = chunk_size as u64;
    let number = offset / cs;
    let b = record_bytes(offset, data, chunk_size);
    lemma_be64_round_trip(number);
    let head = be64_bytes(number);
    assert(b.subrange(0, 8) =~= head);
    assert forall|i: int| 0 <= i < 8 implies b[i] == head[i] by {}
    assert(be64(b, 0) == be64(head, 0));
    vstd::arithmetic::div_mod::lemma_fundamental_div_mod(offset as int, cs as int);
    assert(number * cs == offset);
    vstd::arithmetic::div_mod::lemma_div_is_ordered_by_denominator(offset as int, 1, cs as int);
    assert(number <= offset);
    assert(chunk_len_at(offset, chunk_size, size) == data.len());
    assert(b.subrange(8, 8 + data.len() as int) =~= data);
}

/// The bytes that store `chunk`: its number, its data, and zeros up to a
/// whole chunk (a short final chunk is padded).
pub fn encode_record(chunk: &Chunk, chunk_size: usize, size: u64) -> (r: Vec<u8>)
    requires
        valid_chunk(chunk.offset, chunk.data@.len(), chunk_size, size),
    ensures
        r@ == record_bytes(chunk.offset, chunk.data@, chunk_size),
        r@.len() == 8 + chunk_size,
{
    let mut out: Vec<u8> = Vec::new();
    push_be64(&mut out, chunk.offset / (chunk_size as u64));
    let mut i: usize = 0;
    while i < chunk.data.len()
        invariant
            i <= chunk.data@.len(),
            out@ == be64_bytes(chunk.offset / (chunk_size as u64)) + chunk.data@.subrange(0, i as int),
        decreases chunk.data@.len() - i,
    {
        out.push(chunk.data[i]);
        assert(chunk.data@.subrange(0, i + 1) =~= chunk.data@.subrange(0, i as int).push(chunk.data@[i as int]));
        i = i + 1;
    }
    assert(chunk.data@.subrange(0, i as int) =~= chunk.data@);
    let padding = chunk_size - chunk.data.len();
    let mut j: usize = 0;
    while j < padding
        invariant
            j <= padding,
            padding == chunk_size - chunk.data@.len(),
            out@ == be64_bytes(chunk.offset / (chunk_size as u64)) + chunk.data@ + Seq::new(j as nat, |k: int| 0u8),
        decreases padding - j,
    {
        out.push(0u8);
        assert(Seq::new((j + 1) as nat, |k: int| 0u8) =~= Seq::new(j as nat, |k: int| 0u8).push(0u8));
        j = j + 1;
    }
    out
}

/// Read the stored chunk at `at`: `None` at the end marker. A short final
/// chunk comes back without its padding.
pub fn decode_record(b: &[u8], at: usize, size: u64, chunk_size: usize) -> (r: Result<Option<Chunk>, FormatError>)
    requires
        chunk_size > 0,
    ensures
        match (r, parse_record(b@, at as int, size, chunk_size)) {
            (Ok(Some(c)), Ok(Some(p))) => c.offset == p.0 && c.data@ == p.1,
            (Ok(None), Ok(None)) => true,
            (Err(e), Err(f)) => e == f,
            _ => false,
        },
{
    let n = b.len();
    if at > n || n - at < 8 {
        return Err(FormatError::Truncated);
    }
    let number = read_be64(b, at);
    if number == RESERVED {
        return Ok(None);
    }
    assert(number as u128 * chunk_size as u128 <= 0xffff_ffff_ffff_ffff_ffff_ffff_ffff_ffff) by (nonlinear_arith)
        requires
            number <= 0xffff_ffff_ffff_ffff,
            chunk_size <= 0xffff_ffff_ffff_ffff,
    ;
    let product: u128 = number as u128 * chunk_size as u128;
    if product >= size as u128 {
        return Err(FormatError::ChunkOutOfRange(number));
    }
    if n - at - 8 < chunk_size {
        return Err(FormatError::Truncated);
    }
    let offset = product as u64;
    let len = Chunk::offset_chunk_size_unchecked(offset, chunk_size, size);
    let start = at + 8;
    let mut data: Vec<u8> = Vec::with_capacity(len);
    let mut i: usize = 0;
    while i < len
        invariant
            i <= len,
            len <= chunk_size,
            start + chunk_size <= n,
            n == b@.len(),
            data@ == b@.subrange(start as int, start + i),
        decreases len - i,
    {
        data.push(b[start + i]);
        assert(b@.subrange(start as int, start + i + 1) =~= b@.subrange(start as int, start + i).push(b@[start + i]));
        i = i + 1;
    }
    Ok(Some(Chunk { offset, data }))
}

} // verus!
