//! The optional path footer at offset 0xAC: a list of resource paths, stored as
//! null-terminated strings, raw or Kraken-compressed.
use vstd::prelude::*;
use vstd::utf8::encode_utf8;

use crate::error::ArchiveError;
use crate::io::{
    lossy_text_of, read_null_terminated_string, read_u32, u32_le_bytes, write_null_terminated_string,
    write_u32,
};
use crate::kraken::compress;

verus! {

/// The first zero byte of `b` at or after `i`, or `b.len()` when there is none.
pub open spec fn zero_index_from(b: Seq<u8>, i: int) -> int
    decreases b.len() - i,
{
    if i < 0 || i >= b.len() {
        b.len() as int
    } else if b[i] == 0 {
        i
    } else {
        zero_index_from(b, i + 1)
    }
}

/// Up to `count` null-terminated strings read from `b` starting at `pos`, each decoded
/// lossily; reading stops at the first string that has no terminator.
pub open spec fn strings_from(b: Seq<u8>, pos: int, count: nat) -> Seq<Seq<char>>
    decreases count,
{
    if count == 0 {
        seq![]
    } else {
        let k = zero_index_from(b, pos);
        if pos < 0 || k >= b.len() {
            seq![]
        } else {
            seq![lossy_text_of(b.subrange(pos, k))] + strings_from(b, k + 1, (count - 1) as nat)
        }
    }
}

/// The strings, each as UTF-8 followed by a zero byte, one after the other.
pub open spec fn null_terminated_join(files: Seq<Seq<char>>) -> Seq<u8>
    decreases files.len(),
{
    if files.len() == 0 {
        seq![]
    } else {
        null_terminated_join(files.drop_last()) + encode_utf8(files.last()) + seq![0u8]
    }
}

/// The views of a list of strings.
pub open spec fn texts(v: Seq<String>) -> Seq<Seq<char>> {
    v.map_values(|s: String| s@)
}

pub proof fn lemma_zero_index_found(b: Seq<u8>, a: int, n: int)
    requires
        0 <= a <= n < b.len(),
        b[n] == 0,
        forall|i: int| a <= i < n ==> b[i] != 0,
    ensures
        zero_index_from(b, a) == n,
    decreases n - a,
{
    if a < n {
        lemma_zero_index_found(b, a + 1, n);
    }
}

pub proof fn lemma_zero_index_none(b: Seq<u8>, a: int)
    requires
        0 <= a,
        forall|i: int| a <= i < b.len() ==> b[i] != 0,
    ensures
        zero_index_from(b, a) >= b.len(),
    decreases b.len() - a,
{
    if a < b.len() {
        lemma_zero_index_none(b, a + 1);
    }
}

/// The bytes that stand for the fixed part of a footer.
pub open spec fn footer_prefix(count: u32, size: u32, zsize: u32) -> Seq<u8> {
    u32_le_bytes(0x4C585253) + u32_le_bytes(1) + u32_le_bytes(count) + u32_le_bytes(size)
        + u32_le_bytes(zsize)
}

/// The bytes of a footer for `files`, given what the codec made of the raw payload; `None`
/// when the codec failed or gave more bytes than it was given. A payload shorter than 256
/// bytes, or one that the codec did not shorten, is stored raw.
pub open spec fn footer_bytes(files: Seq<Seq<char>>, codec_output: Option<Vec<u8>>) -> Option<
    Seq<u8>,
> {
    let raw = null_terminated_join(files);
    let count = files.len() as u32;
    let size = raw.len() as u32;
    if raw.len() < 256 {
        Some(footer_prefix(count, size, size) + raw)
    } else {
        match codec_output {
            None => None,
            Some(z) => if z@.len() > raw.len() {
                None
            } else if z@.len() == raw.len() {
                Some(footer_prefix(count, size, size) + raw)
            } else {
                Some(footer_prefix(count, size, z@.len() as u32) + z@)
            },
        }
    }
}

/// The extended path dictionary of an archive.
#[derive(Debug, Clone)]
pub struct LxrsFooter {
    pub files: Vec<String>,
}

/// What reading a footer gave: its paths, or a compressed payload still to be decoded.
#[derive(Debug, Clone)]
pub enum FooterRead {
    /// The payload was stored raw; these are its paths.
    Decoded(LxrsFooter),
    /// The payload is compressed: `payload` decodes to `size` bytes that hold `count` strings.
    Compressed { payload: Vec<u8>, size: u32, count: u32 },
}

impl LxrsFooter {
    /// The footer's magic number, `LXRS`.
    pub const MAGIC: u32 = 0x4C585253;

    /// The footer format version.
    pub const VERSION: u32 = 1;

    pub fn new(files: Vec<String>) -> (r: LxrsFooter)
        ensures
            r.files@ == files@,
    {
        LxrsFooter { files }
    }

    pub fn files(&self) -> (r: &Vec<String>)
        ensures
            r@ == self.files@,
    {
        &self.files
    }

    /// Reads up to `count` null-terminated strings from the start of `buffer`.
    pub fn from_decompressed(buffer: &[u8], count: u32) -> (r: LxrsFooter)
        ensures
            texts(r.files@) == strings_from(buffer@, 0, count as nat),
    {
        let mut files: Vec<String> = Vec::new();
        let mut pos: usize = 0;
        let mut n: u32 = 0;
        while n < count
            invariant
                n <= count,
                pos <= buffer@.len(),
                strings_from(buffer@, 0, count as nat) == texts(files@) + strings_from(
                    buffer@,
                    pos as int,
                    (count - n) as nat,
                ),
            decreases count - n,
        {
            match read_null_terminated_string(buffer, pos) {
                Some((s, next)) => {
                    proof {
                        lemma_zero_index_found(buffer@, pos as int, next - 1);
                        assert(texts(files@.push(s)) =~= texts(files@).push(s@));
                    }
                    files.push(s);
                    pos = next;
                    n = n + 1;
                },
                None => {
                    proof {
                        lemma_zero_index_none(buffer@, pos as int);
                        assert(strings_from(buffer@, pos as int, (count - n) as nat) =~= seq![]);
                        assert(texts(files@) + seq![] =~= texts(files@));
                    }
                    return LxrsFooter { files };
                },
            }
        }
        assert(strings_from(buffer@, pos as int, 0) =~= seq![]);
        assert(texts(files@) + seq![] =~= texts(files@));
        LxrsFooter { files }
    }

    /// The raw payload: every path as UTF-8 followed by a zero byte.
    pub fn payload(&self) -> (r: Vec<u8>)
        ensures
            r@ == null_terminated_join(texts(self.files@)),
    {
        let mut buffer: Vec<u8> = Vec::new();
        let mut i: usize = 0;
        while i < self.files.len()
            invariant
                i <= self.files@.len(),
                buffer@ == null_terminated_join(texts(self.files@.take(i as int))),
            decreases self.files@.len() - i,
        {
            write_null_terminated_string(&mut buffer, self.files[i].clone());
            proof {
                let t = texts(self.files@.take(i + 1));
                assert(t.drop_last() =~= texts(self.files@.take(i as int)));
                assert(t.last() == self.files@[i as int]@);
            }
            i = i + 1;
        }
        assert(self.files@.take(i as int) =~= self.files@);
        buffer
    }

    /// Appends the footer: magic, version, path count, both payload sizes, and the payload,
    /// compressed when the codec made it shorter. `codec_output` is what the codec made of
    /// the raw payload. Fails when the codec failed or gave more bytes than it was given.
    pub fn write(&self, out: &mut Vec<u8>, codec_output: Option<Vec<u8>>) -> (r: Result<
        (),
        ArchiveError,
    >)
        requires
            self.files@.len() <= u32::MAX,
            null_terminated_join(texts(self.files@)).len() <= u32::MAX,
        ensures
            match footer_bytes(texts(self.files@), codec_output) {
                Some(b) => r is Ok && final(out)@ == old(out)@ + b,
                None => r == Err::<(), ArchiveError>(ArchiveError::Codec) && final(out)@ == old(
                    out,
                )@,
            },
    {
        let raw = self.payload();
        let mut zbuf: Vec<u8> = Vec::new();
        let zlen = match compress(&raw, &mut zbuf, codec_output) {
            Ok(n) => n,
            Err(e) => {
                return Err(e);
            },
        };
        if zlen > raw.len() {
            return Err(ArchiveError::Codec);
        }
        let raw_len = raw.len();
        let stored = if zlen == raw_len {
            raw
        } else {
            zbuf
        };
        let ghost before = out@;
        write_u32(out, LxrsFooter::MAGIC);
        write_u32(out, LxrsFooter::VERSION);
        write_u32(out, self.files.len() as u32);
        write_u32(out, raw_len as u32);
        write_u32(out, stored.len() as u32);
        let ghost mid = out@;
        assert(mid =~= before + footer_prefix(
            self.files@.len() as u32,
            raw_len as u32,
            stored@.len() as u32,
        ));
        let mut i: usize = 0;
        while i < stored.len()
            invariant
                i <= stored@.len(),
                out@ == mid + stored@.take(i as int),
            decreases stored@.len() - i,
        {
            out.push(stored[i]);
            assert(stored@.take(i + 1) =~= stored@.take(i as int).push(stored@[i as int]));
            i = i + 1;
        }
        assert(stored@.take(i as int) =~= stored@);
        assert(out@ =~= old(out)@ + (footer_prefix(
            self.files@.len() as u32,
            raw_len as u32,
            stored@.len() as u32,
        ) + stored@));
        Ok(())
    }

    /// Reads a footer that starts at `pos`. A stored payload is decoded at once; a compressed
    /// one is handed back for the codec.
    pub fn from_reader(data: &[u8], pos: usize) -> (r: Result<FooterRead, ArchiveError>)
        ensures
            pos + 20 > data@.len() ==> r == Err::<FooterRead, ArchiveError>(
                ArchiveError::InvalidData,
            ),
            pos + 20 <= data@.len() ==> {
                let b = data@.skip(pos as int);
                let magic = crate::io::spec_u32_le(b);
                let count = crate::io::spec_u32_le(b.skip(8));
                let size = crate::io::spec_u32_le(b.skip(12));
                let zsize = crate::io::spec_u32_le(b.skip(16));
                if magic != 0x4C585253 || size < zsize {
                    r == Err::<FooterRead, ArchiveError>(ArchiveError::InvalidInput)
                } else if pos + 20 + zsize > data@.len() {
                    r == Err::<FooterRead, ArchiveError>(ArchiveError::InvalidData)
                } else if size == zsize {
                    r matches Ok(FooterRead::Decoded(f)) && texts(f.files@) == strings_from(
                        data@.subrange(pos + 20, pos + 20 + zsize),
                        0,
                        count as nat,
                    )
                } else {
                    r matches Ok(FooterRead::Compressed { payload, size: s, count: c }) && payload@
                        == data@.subrange(pos + 20, pos + 20 + zsize) && s == size && c == count
                }
            },
    {
        if pos > data.len() || data.len() - pos < 20 {
            return Err(ArchiveError::InvalidData);
        }
        let magic = read_u32(data, pos).unwrap();
        let count = read_u32(data, pos + 8).unwrap();
        let size = read_u32(data, pos + 12).unwrap();
        let zsize = read_u32(data, pos + 16).unwrap();
        proof {
            let b = data@.skip(pos as int);
            assert(b.skip(8) =~= data@.skip(pos + 8));
            assert(b.skip(12) =~= data@.skip(pos + 12));
            assert(b.skip(16) =~= data@.skip(pos + 16));
        }
        if magic != LxrsFooter::MAGIC || size < zsize {
            return Err(ArchiveError::InvalidInput);
        }
        let start: usize = pos + 20;
        if data.len() - start < zsize as usize {
            return Err(ArchiveError::InvalidData);
        }
        let end: usize = start + zsize as usize;
        let mut payload: Vec<u8> = Vec::new();
        let mut i: usize = start;
        while i < end
            invariant
                start <= i <= end,
                end <= data@.len(),
                payload@ == data@.subrange(start as int, i as int),
            decreases end - i,
        {
            payload.push(data[i]);
            assert(payload@ =~= data@.subrange(start as int, i + 1));
            i = i + 1;
        }
        if size == zsize {
            Ok(FooterRead::Decoded(LxrsFooter::from_decompressed(payload.as_slice(), count)))
        } else {
            Ok(FooterRead::Compressed { payload, size, count })
        }
    }
}

} // verus!
