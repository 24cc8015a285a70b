use vstd::prelude::*;

verus! {

/// A run of bytes read from a device, starting at byte `offset`.
pub struct Chunk {
    pub offset: u64,
    pub data: Vec<u8>,
}

/// Where a chunk of `chunk_size` bytes may start on a device of `size` bytes.
pub open spec fn valid_offset(offset: u64, chunk_size: usize, size: u64) -> bool {
    &&& chunk_size > 0
    &&& offset % (chunk_size as u64) == 0
    &&& offset < size
    &&& offset / (chunk_size as u64) <= usize::MAX
}

/// How many bytes the chunk at `offset` holds: a whole chunk, except at the
/// end of the device.
pub open spec fn chunk_len_at(offset: u64, chunk_size: usize, size: u64) -> nat {
    if size - offset < chunk_size {
        (size - offset) as nat
    } else {
        chunk_size as nat
    }
}

/// A chunk of `len` bytes at `offset` lies on a chunk boundary inside the
/// device, and is whole unless it ends the device.
pub open spec fn valid_chunk(offset: u64, len: nat, chunk_size: usize, size: u64) -> bool {
    &&& valid_offset(offset, chunk_size, size)
    &&& offset + len <= size
    &&& len <= chunk_size
    &&& (len == chunk_size || offset + len == size)
}

impl Chunk {
    /// The number of the chunk that starts at `offset`.
    pub fn offset_chunk_number(offset: u64, chunk_size: usize, size: u64) -> (r: usize)
        requires
            valid_offset(offset, chunk_size, size),
        ensures
            r == offset / (chunk_size as u64),
    {
        (offset / (chunk_size as u64)) as usize
    }

    /// The number of bytes in the chunk that starts at `offset`.
    pub fn offset_chunk_size(offset: u64, chunk_size: usize, size: u64) -> (r: usize)
        requires
            valid_offset(offset, chunk_size, size),
        ensures
            r == chunk_len_at(offset, chunk_size, size),
    {
        if size - offset < chunk_size as u64 {
            (size - offset) as usize
        } else {
            chunk_size
        }
    }

    /// The number of bytes in the chunk at `offset`, without checking that
    /// `offset` lies on a chunk boundary.
    pub fn offset_chunk_size_unchecked(offset: u64, chunk_size: usize, size: u64) -> (r: usize)
        requires
            offset < size,
        ensures
            r == chunk_len_at(offset, chunk_size, size),
            r <= chunk_size,
    {
        if size - offset < chunk_size as u64 {
            (size - offset) as usize
        } else {
            chunk_size
        }
    }

    /// The number of this chunk.
    pub fn chunk_number(&self, chunk_size: usize, size: u64) -> (r: usize)
        requires
            valid_chunk(self.offset, self.data@.len(), chunk_size, size),
        ensures
            r == self.offset / (chunk_size as u64),
    {
        Self::offset_chunk_number(self.offset, chunk_size, size)
    }
}

/// The number of chunks of `chunk_size` bytes that cover `size` bytes.
pub open spec fn chunk_count_of(size: u64, chunk_size: usize) -> nat {
    ((size + chunk_size - 1) / (chunk_size as int)) as nat
}

/// When the size is a whole number of chunks, there are exactly
/// `size / chunk_size` of them, and the last one starts `chunk_size` bytes
/// before the end.
pub proof fn lemma_whole_chunks(size: u64, chunk_size: usize)
    requires
        chunk_size > 0,
        size % (chunk_size as u64) == 0,
        size > 0,
    ensures
        chunk_count_of(size, chunk_size) == size / (chunk_size as u64),
        chunk_len_at((size - chunk_size) as u64, chunk_size, size) == chunk_size,
{
    let cs = chunk_size as int;
    let q = size as int / cs;
    vstd::arithmetic::div_mod::lemma_fundamental_div_mod(size as int, cs);
    assert(size + cs - 1 == q * cs + (cs - 1)) by (nonlinear_arith)
        requires
            size == cs * q + 0,
    ;
    vstd::arithmetic::div_mod::lemma_fundamental_div_mod_converse(size + cs - 1, cs, q, cs - 1);
    assert(q >= 1) by (nonlinear_arith)
        requires
            size == cs * q,
            size > 0,
            cs > 0,
    ;
    assert(size >= cs) by (nonlinear_arith)
        requires
            size == cs * q,
            q >= 1,
            cs > 0,
    ;
}

/// The number of chunks of `chunk_size` bytes that cover `size` bytes, the
/// last one possibly short.
pub fn chunk_count(size: u64, chunk_size: usize) -> (r: u64)
    requires
        chunk_size > 0,
    ensures
        r == chunk_count_of(size, chunk_size),
{
    let cs = chunk_size as u64;
    let whole = size / cs;
    if size % cs == 0 {
        proof {
            vstd::arithmetic::div_mod::lemma_fundamental_div_mod(size as int, cs as int);
            assert(size + cs - 1 == whole * cs + (cs - 1)) by (nonlinear_arith)
                requires
                    size == cs * (size as int / cs as int) + 0,
                    whole == size as int / cs as int,
            ;
            vstd::arithmetic::div_mod::lemma_fundamental_div_mod_converse(size + cs - 1, cs as int, whole as int, cs - 1);
        }
        whole
    } else {
        proof {
            vstd::arithmetic::div_mod::lemma_fundamental_div_mod(size as int, cs as int);
            let m = size as int % cs as int;
            assert(size + cs - 1 == (whole + 1) * cs + (m - 1)) by (nonlinear_arith)
                requires
                    size == cs * (size as int / cs as int) + m,
                    whole == size as int / cs as int,
            ;
            vstd::arithmetic::div_mod::lemma_fundamental_div_mod_converse(size + cs - 1, cs as int, whole + 1, m - 1);
            assert(cs >= 2);
            assert(whole < 0xffff_ffff_ffff_ffff) by (nonlinear_arith)
                requires
                    size == cs * whole + m,
                    cs >= 2,
                    m >= 0,
                    size <= 0xffff_ffff_ffff_ffff,
            ;
        }
        whole + 1
    }
}

} // verus!
