use vstd::prelude::*;

verus! {

pub uninterp spec fn sha224_of(data: Seq<u8>) -> Seq<u8>;

pub uninterp spec fn sha256_of(data: Seq<u8>) -> Seq<u8>;

pub uninterp spec fn sha384_of(data: Seq<u8>) -> Seq<u8>;

pub uninterp spec fn sha512_of(data: Seq<u8>) -> Seq<u8>;

pub uninterp spec fn sha512_224_of(data: Seq<u8>) -> Seq<u8>;

pub uninterp spec fn sha512_256_of(data: Seq<u8>) -> Seq<u8>;

pub uninterp spec fn blake2b512_of(data: Seq<u8>) -> Seq<u8>;

pub uninterp spec fn blake2s256_of(data: Seq<u8>) -> Seq<u8>;

/// Relies on sha2::Sha224 (through `Digest::digest`): a 28-byte digest of the data.
#[verifier::external_body]
pub(crate) fn sha224(data: &[u8]) -> (r: Vec<u8>)
    ensures
        r@ == sha224_of(data@),
        r@.len() == 28,
{
    <sha2::Sha224 as sha2::Digest>::digest(data).to_vec()
}

/// Relies on sha2::Sha256 (through `Digest::digest`): a 32-byte digest of the data.
#[verifier::external_body]
pub(crate) fn sha256(data: &[u8]) -> (r: Vec<u8>)
    ensures
        r@ == sha256_of(data@),
        r@.len() == 32,
{
    <sha2::Sha256 as sha2::Digest>::digest(data).to_vec()
}

/// Relies on sha2::Sha384 (through `Digest::digest`): a 48-byte digest of the data.
#[verifier::external_body]
pub(crate) fn sha384(data: &[u8]) -> (r: Vec<u8>)
    ensures
        r@ == sha384_of(data@),
        r@.len() == 48,
{
    <sha2::Sha384 as sha2::Digest>::digest(data).to_vec()
}

/// Relies on sha2::Sha512 (through `Digest::digest`): a 64-byte digest of the data.
#[verifier::external_body]
pub(crate) fn sha512(data: &[u8]) -> (r: Vec<u8>)
    ensures
        r@ == sha512_of(data@),
        r@.len() == 64,
{
    <sha2::Sha512 as sha2::Digest>::digest(data).to_vec()
}

/// Relies on sha2::Sha512_224 (through `Digest::digest`): a 28-byte digest of the data.
#[verifier::external_body]
pub(crate) fn sha512_224(data: &[u8]) -> (r: Vec<u8>)
    ensures
        r@ == sha512_224_of(data@),
        r@.len() == 28,
{
    <sha2::Sha512_224 as sha2::Digest>::digest(data).to_vec()
}

/// Relies on sha2::Sha512_256 (through `Digest::digest`): a 32-byte digest of the data.
#[verifier::external_body]
pub(crate) fn sha512_256(data: &[u8]) -> (r: Vec<u8>)
    ensures
        r@ == sha512_256_of(data@),
        r@.len() == 32,
{
    <sha2::Sha512_256 as sha2::Digest>::digest(data).to_vec()
}

/// Relies on blake2::Blake2b512 (through `Digest::digest`): a 64-byte digest of the data.
#[verifier::external_body]
pub(crate) fn blake2b512(data: &[u8]) -> (r: Vec<u8>)
    ensures
        r@ == blake2b512_of(data@),
        r@.len() == 64,
{
    <blake2::Blake2b512 as blake2::Digest>::digest(data).to_vec()
}

/// Relies on blake2::Blake2s256 (through `Digest::digest`): a 32-byte digest of the data.
#[verifier::external_body]
pub(crate) fn blake2s256(data: &[u8]) -> (r: Vec<u8>)
    ensures
        r@ == blake2s256_of(data@),
        r@.len() == 32,
{
    <blake2::Blake2s256 as blake2::Digest>::digest(data).to_vec()
}

} // verus!
