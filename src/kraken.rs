//! The call contract around the Kraken codec: levels, the worst-case output size, and the
//! bypass of the codec for short inputs.
use vstd::prelude::*;

use crate::error::ArchiveError;

verus! {

/// Marks a Kraken-compressed segment: `KARK`.
pub const MAGIC: u32 = 0x4B52414B;

/// Inputs shorter than this are stored instead of compressed.
pub const MIN_CODEC_INPUT: usize = 256;

/// Compression levels, with the codec's integer codes 0 to 9.
#[derive(Debug, Clone, Copy, PartialEq, Eq, Structural)]
pub enum CompressionLevel {
    NoCompression,
    SuperFast,
    VeryFast,
    Fast,
    Normal,
    Optimal1,
    Optimal2,
    Optimal3,
    Optimal4,
    Optimal5,
}

impl CompressionLevel {
    /// The codec's integer code of the level.
    pub open spec fn spec_code(self) -> i32 {
        match self {
            CompressionLevel::NoCompression => 0,
            CompressionLevel::SuperFast => 1,
            CompressionLevel::VeryFast => 2,
            CompressionLevel::Fast => 3,
            CompressionLevel::Normal => 4,
            CompressionLevel::Optimal1 => 5,
            CompressionLevel::Optimal2 => 6,
            CompressionLevel::Optimal3 => 7,
            CompressionLevel::Optimal4 => 8,
            CompressionLevel::Optimal5 => 9,
        }
    }

    /// The codec's integer code of the level.
    pub fn code(&self) -> (r: i32)
        ensures
            r == self.spec_code(),
    {
        match self {
            CompressionLevel::NoCompression => 0,
            CompressionLevel::SuperFast => 1,
            CompressionLevel::VeryFast => 2,
            CompressionLevel::Fast => 3,
            CompressionLevel::Normal => 4,
            CompressionLevel::Optimal1 => 5,
            CompressionLevel::Optimal2 => 6,
            CompressionLevel::Optimal3 => 7,
            CompressionLevel::Optimal4 => 8,
            CompressionLevel::Optimal5 => 9,
        }
    }
}

/// `a / b` rounded up.
pub open spec fn ceil_div(a: nat, b: nat) -> nat
    recommends
        b > 0,
{
    if a % b == 0 {
        a / b
    } else {
        a / b + 1
    }
}

/// The most bytes the codec may write for an input of `n` bytes: 274 bytes of overhead for
/// each started block of 256 KiB.
pub open spec fn worst_case_compressed_size(n: nat) -> nat {
    n + 274 * ceil_div(n, 262144)
}

/// Rounding up by adding `d - 1` first gives the ceiling.
proof fn lemma_ceil_div_by_offset(n: nat)
    ensures
        (n + 262143) / 262144 == ceil_div(n, 262144),
{
    let q = n / 262144;
    let r = n % 262144;
    assert(n == q * 262144 + r);
    assert((n + 262143) == (q + 1) * 262144 + (r - 1)) by (nonlinear_arith)
        requires
            n == q * 262144 + r,
    ;
    if r == 0 {
        assert((n + 262143) == q * 262144 + 262143);
        assert((n + 262143) / 262144 == q) by (nonlinear_arith)
            requires
                n + 262143 == q * 262144 + 262143,
        ;
    } else {
        assert((n + 262143) / 262144 == q + 1) by (nonlinear_arith)
            requires
                n + 262143 == (q + 1) * 262144 + (r - 1),
                0 <= r - 1 < 262144,
        ;
    }
}

/// The shift form and the division form of the worst-case size agree with its definition:
/// `n + 274 * ((n + 0x3FFFF) >> 18)` and `n + 274 * ((n + 0x3FFFF) / 0x40000)` both equal
/// `n + 274 * ceil(n / 262144)`.
pub proof fn lemma_compressed_size_law(n: u64)
    requires
        n + 0x3FFFF <= u64::MAX,
    ensures
        n + 274 * (((n + 0x3FFFF) as u64) >> 18u64) == worst_case_compressed_size(n as nat),
        n + 274 * ((n + 0x3FFFF) / 0x40000) == worst_case_compressed_size(n as nat),
{
    let m = (n + 0x3FFFF) as u64;
    assert(m >> 18u64 == m / 0x40000) by (bit_vector);
    lemma_ceil_div_by_offset(n as nat);
}

/// Worst-case output size of the codec for `count` input bytes, by the shift form.
pub fn get_compressed_buffer_size_needed(count: u64) -> (r: i32)
    requires
        worst_case_compressed_size(count as nat) <= i32::MAX,
    ensures
        r == worst_case_compressed_size(count as nat),
{
    proof {
        lemma_compressed_size_law(count);
    }
    let blocks = (count + 0x3FFFF) >> 18u64;
    (blocks * 274 + count) as i32
}

/// Worst-case output size of the codec for `size` input bytes, by the division form.
pub fn get_compressed_buffer_size_needed_kraken(size: i32) -> (r: i32)
    requires
        size >= 0,
        worst_case_compressed_size(size as nat) <= i32::MAX,
    ensures
        r == worst_case_compressed_size(size as nat),
{
    proof {
        lemma_ceil_div_by_offset(size as nat);
    }
    size + 274 * ((size + 0x3FFFF) / 0x40000)
}

/// Whether an input of `len` bytes goes to the codec; shorter ones are stored.
pub fn needs_codec(len: usize) -> (r: bool)
    ensures
        r == (len >= 256),
{
    len >= MIN_CODEC_INPUT
}

/// Compresses `uncompressed_buffer` into `compressed_buffer` and returns the length written.
/// Inputs shorter than 256 bytes bypass the codec and are copied verbatim; for longer ones
/// `codec_output` is what the codec made of the input (`None` when it failed).
pub fn compress(
    uncompressed_buffer: &Vec<u8>,
    compressed_buffer: &mut Vec<u8>,
    codec_output: Option<Vec<u8>>,
) -> (r: Result<usize, ArchiveError>)
    ensures
        uncompressed_buffer@.len() < 256 ==> {
            &&& r matches Ok(n) && n == uncompressed_buffer@.len()
            &&& final(compressed_buffer)@ == uncompressed_buffer@
        },
        uncompressed_buffer@.len() >= 256 ==> match codec_output {
            Some(z) => {
                &&& r matches Ok(n) && n == z@.len()
                &&& final(compressed_buffer)@ == z@
            },
            None => {
                &&& r == Err::<usize, ArchiveError>(ArchiveError::Codec)
                &&& final(compressed_buffer)@ == old(compressed_buffer)@
            },
        },
{
    if !needs_codec(uncompressed_buffer.len()) {
        *compressed_buffer = uncompressed_buffer.clone();
        Ok(compressed_buffer.len())
    } else {
        match codec_output {
            Some(z) => {
                *compressed_buffer = z;
                Ok(compressed_buffer.len())
            },
            None => Err(ArchiveError::Codec),
        }
    }
}

/// Checks what the codec decompressed against the size that was expected of it.
pub fn decompress(codec_output: Option<Vec<u8>>, expected_len: usize) -> (r: Result<
    Vec<u8>,
    ArchiveError,
>)
    ensures
        match codec_output {
            Some(d) => if d@.len() == expected_len {
                r matches Ok(v) && v@ == d@
            } else {
                r == Err::<Vec<u8>, ArchiveError>(ArchiveError::Codec)
            },
            None => r == Err::<Vec<u8>, ArchiveError>(ArchiveError::Codec),
        },
{
    match codec_output {
        Some(d) => if d.len() == expected_len {
            Ok(d)
        } else {
            Err(ArchiveError::Codec)
        },
        None => Err(ArchiveError::Codec),
    }
}

} // verus!
