//! FNV-1a/64, SHA-1 and CRC-64 over byte strings.
use vstd::prelude::*;
use vstd::utf8::encode_utf8;

verus! {

/// FNV-1a/64 of `b`: from the offset basis 0xcbf29ce484222325, each byte is xored in and the
/// hash multiplied by the prime 0x100000001b3, wrapping at 64 bits.
pub open spec fn fnv1a64_of(b: Seq<u8>) -> u64
    decreases b.len(),
{
    if b.len() == 0 {
        0xcbf29ce484222325
    } else {
        (((fnv1a64_of(b.drop_last()) ^ (b.last() as u64)) as int * 0x100000001b3)
            % 0x1_0000_0000_0000_0000) as u64
    }
}

/// SHA-1 digest of `b`, as the `sha1` crate computes it.
pub uninterp spec fn sha1_of(b: Seq<u8>) -> Seq<u8>;

/// CRC-64 of `b` with seed zero, as `crc64::crc64` computes it.
pub uninterp spec fn crc64_of(b: Seq<u8>) -> u64;

/// Relies on `fnv::FnvHasher`: the default hasher starts from the offset basis, `write` xors
/// in each byte and multiplies by the prime with `wrapping_mul`, and `finish` returns the state.
#[verifier::external_body]
fn fnv1a64_bytes(b: &[u8]) -> (r: u64)
    ensures
        r == fnv1a64_of(b@),
{
    let mut hasher = fnv::FnvHasher::default();
    std::hash::Hasher::write(&mut hasher, b);
    std::hash::Hasher::finish(&hasher)
}

/// Relies on `sha1::Sha1::digest`: the 20-byte SHA-1 digest of `b`.
#[verifier::external_body]
fn sha1_digest(b: &[u8]) -> (r: [u8; 20])
    ensures
        r@ == sha1_of(b@),
{
    <sha1::Sha1 as sha1::Digest>::digest(b).into()
}

/// Relies on `crc64::crc64`: the checksum of `b` from seed zero.
#[verifier::external_body]
fn crc64_checksum(b: &[u8]) -> (r: u64)
    ensures
        r == crc64_of(b@),
{
    crc64::crc64(0, b)
}

/// FNV-1a/64 hash of raw bytes (a resource path in the host's backslash form).
pub fn fnv1a64_hash_bytes(b: &[u8]) -> (r: u64)
    ensures
        r == fnv1a64_of(b@),
{
    fnv1a64_bytes(b)
}

/// FNV-1a/64 hash of the UTF-8 bytes of a string.
pub fn fnv1a64_hash_string(s: &String) -> (r: u64)
    ensures
        r == fnv1a64_of(encode_utf8(s@)),
{
    fnv1a64_bytes(s.as_str().as_bytes())
}

/// SHA-1 digest of a file's bytes.
pub fn sha1_hash_file(file_buffer: &Vec<u8>) -> (r: [u8; 20])
    ensures
        r@ == sha1_of(file_buffer@),
{
    sha1_digest(file_buffer.as_slice())
}

/// CRC-64 of a table body, seeded with zero.
pub fn crc64_of_table(b: &[u8]) -> (r: u64)
    ensures
        r == crc64_of(b@),
{
    crc64_checksum(b)
}

} // verus!
