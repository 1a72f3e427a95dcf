//! Little-endian integers and null-terminated strings over in-memory byte buffers.
use vstd::prelude::*;
use vstd::utf8::{decode_utf8, encode_utf8, valid_utf8};

verus! {

/// A fixed-size record of the archive format, read from a byte buffer.
pub trait FromReader: Sized {
    /// The number of bytes one record occupies.
    spec fn spec_wire_len() -> nat;

    /// The bytes that stand for the record.
    spec fn spec_encoding(self) -> Seq<u8>;

    /// The number of bytes one record occupies.
    fn wire_len() -> (r: usize)
        ensures
            r == Self::spec_wire_len(),
    ;

    /// Reads the record that starts at `pos`; `None` when too few bytes remain.
    fn from_reader(data: &[u8], pos: usize) -> (r: Option<Self>)
        ensures
            pos + Self::spec_wire_len() <= data@.len() <==> r.is_some(),
            r matches Some(v) ==> v.spec_encoding() == data@.subrange(
                pos as int,
                pos + Self::spec_wire_len(),
            ),
    ;
}

/// The value of the first two bytes of `b`, little-endian.
pub open spec fn spec_u16_le(b: Seq<u8>) -> u16 {
    (b[0] as u16) | ((b[1] as u16) << 8u16)
}

/// The value of the first four bytes of `b`, little-endian.
pub open spec fn spec_u32_le(b: Seq<u8>) -> u32 {
    (b[0] as u32) | ((b[1] as u32) << 8u32) | ((b[2] as u32) << 16u32) | ((b[3] as u32) << 24u32)
}

/// The value of the first eight bytes of `b`, little-endian.
pub open spec fn spec_u64_le(b: Seq<u8>) -> u64 {
    (spec_u32_le(b) as u64) | ((spec_u32_le(b.skip(4)) as u64) << 32u64)
}

/// The two little-endian bytes of `v`.
pub open spec fn u16_le_bytes(v: u16) -> Seq<u8> {
    seq![(v & 0xff) as u8, ((v >> 8u16) & 0xff) as u8]
}

/// The four little-endian bytes of `v`.
pub open spec fn u32_le_bytes(v: u32) -> Seq<u8> {
    seq![
        (v & 0xff) as u8,
        ((v >> 8u32) & 0xff) as u8,
        ((v >> 16u32) & 0xff) as u8,
        ((v >> 24u32) & 0xff) as u8,
    ]
}

/// The eight little-endian bytes of `v`.
pub open spec fn u64_le_bytes(v: u64) -> Seq<u8> {
    u32_le_bytes((v & 0xffff_ffff) as u32) + u32_le_bytes((v >> 32u64) as u32)
}

/// Decoding the encoding of a `u16` gives it back.
pub proof fn lemma_u16_round_trip(v: u16)
    ensures
        spec_u16_le(u16_le_bytes(v)) == v,
{
    let b0 = (v & 0xff) as u8;
    let b1 = ((v >> 8u16) & 0xff) as u8;
    assert((b0 as u16) | ((b1 as u16) << 8u16) == v) by (bit_vector)
        requires
            b0 == (v & 0xff) as u8,
            b1 == ((v >> 8u16) & 0xff) as u8,
    ;
}

/// Decoding the encoding of a `u32` gives it back.
pub proof fn lemma_u32_round_trip(v: u32)
    ensures
        spec_u32_le(u32_le_bytes(v)) == v,
{
    let b0 = (v & 0xff) as u8;
    let b1 = ((v >> 8u32) & 0xff) as u8;
    let b2 = ((v >> 16u32) & 0xff) as u8;
    let b3 = ((v >> 24u32) & 0xff) as u8;
    assert((b0 as u32) | ((b1 as u32) << 8u32) | ((b2 as u32) << 16u32) | ((b3 as u32) << 24u32)
        == v) by (bit_vector)
        requires
            b0 == (v & 0xff) as u8,
            b1 == ((v >> 8u32) & 0xff) as u8,
            b2 == ((v >> 16u32) & 0xff) as u8,
            b3 == ((v >> 24u32) & 0xff) as u8,
    ;
}

/// Decoding the encoding of a `u64` gives it back.
pub proof fn lemma_u64_round_trip(v: u64)
    ensures
        spec_u64_le(u64_le_bytes(v)) == v,
{
    let lo = (v & 0xffff_ffff) as u32;
    let hi = (v >> 32u64) as u32;
    lemma_u32_round_trip(lo);
    lemma_u32_round_trip(hi);
    let b = u64_le_bytes(v);
    assert(b.skip(4) =~= u32_le_bytes(hi));
    assert(b.subrange(0, 4) =~= u32_le_bytes(lo));
    assert(spec_u32_le(b) == spec_u32_le(u32_le_bytes(lo)));
    assert((lo as u64) | ((hi as u64) << 32u64) == v) by (bit_vector)
        requires
            lo == (v & 0xffff_ffff) as u32,
            hi == (v >> 32u64) as u32,
    ;
}

/// Encoding the value of two bytes gives the bytes back.
pub proof fn lemma_u16_bytes_round_trip(b: Seq<u8>)
    requires
        b.len() == 2,
    ensures
        u16_le_bytes(spec_u16_le(b)) == b,
{
    let b0 = b[0];
    let b1 = b[1];
    let v = spec_u16_le(b);
    assert((v & 0xff) as u8 == b0 && ((v >> 8u16) & 0xff) as u8 == b1) by (bit_vector)
        requires
            v == (b0 as u16) | ((b1 as u16) << 8u16),
    ;
    assert(u16_le_bytes(v) =~= b);
}

/// Encoding the value of four bytes gives the bytes back.
pub proof fn lemma_u32_bytes_round_trip(b: Seq<u8>)
    requires
        b.len() == 4,
    ensures
        u32_le_bytes(spec_u32_le(b)) == b,
{
    let b0 = b[0];
    let b1 = b[1];
    let b2 = b[2];
    let b3 = b[3];
    let v = spec_u32_le(b);
    assert((v & 0xff) as u8 == b0 && ((v >> 8u32) & 0xff) as u8 == b1 && ((v >> 16u32) & 0xff) as u8
        == b2 && ((v >> 24u32) & 0xff) as u8 == b3) by (bit_vector)
        requires
            v == (b0 as u32) | ((b1 as u32) << 8u32) | ((b2 as u32) << 16u32) | ((b3 as u32)
                << 24u32),
    ;
    assert(u32_le_bytes(v) =~= b);
}

/// Encoding the value of eight bytes gives the bytes back.
pub proof fn lemma_u64_bytes_round_trip(b: Seq<u8>)
    requires
        b.len() == 8,
    ensures
        u64_le_bytes(spec_u64_le(b)) == b,
{
    let lo = spec_u32_le(b);
    let hi = spec_u32_le(b.skip(4));
    let v = spec_u64_le(b);
    assert((v & 0xffff_ffff) as u32 == lo && (v >> 32u64) as u32 == hi) by (bit_vector)
        requires
            v == (lo as u64) | ((hi as u64) << 32u64),
    ;
    lemma_u32_bytes_round_trip(b.subrange(0, 4));
    lemma_u32_bytes_round_trip(b.skip(4));
    assert(spec_u32_le(b.subrange(0, 4)) == lo);
    assert(u64_le_bytes(v) =~= b);
}

/// Reads a little-endian `u16` at `pos`; `None` when fewer than two bytes remain.
pub fn read_u16(data: &[u8], pos: usize) -> (r: Option<u16>)
    ensures
        pos + 2 <= data@.len() <==> r.is_some(),
        r matches Some(v) ==> v == spec_u16_le(data@.skip(pos as int)) && u16_le_bytes(v)
            == data@.subrange(pos as int, pos + 2),
{
    if pos > data.len() || data.len() - pos < 2 {
        return None;
    }
    let v = (data[pos] as u16) | ((data[pos + 1] as u16) << 8u16);
    proof {
        lemma_u16_bytes_round_trip(data@.subrange(pos as int, pos + 2));
    }
    Some(v)
}

/// Reads a little-endian `u32` at `pos`; `None` when fewer than four bytes remain.
pub fn read_u32(data: &[u8], pos: usize) -> (r: Option<u32>)
    ensures
        pos + 4 <= data@.len() <==> r.is_some(),
        r matches Some(v) ==> v == spec_u32_le(data@.skip(pos as int)) && u32_le_bytes(v)
            == data@.subrange(pos as int, pos + 4),
{
    if pos > data.len() || data.len() - pos < 4 {
        return None;
    }
    let v = (data[pos] as u32) | ((data[pos + 1] as u32) << 8u32) | ((data[pos + 2] as u32)
        << 16u32) | ((data[pos + 3] as u32) << 24u32);
    proof {
        lemma_u32_bytes_round_trip(data@.subrange(pos as int, pos + 4));
    }
    Some(v)
}

/// Reads a little-endian `u64` at `pos`; `None` when fewer than eight bytes remain.
pub fn read_u64(data: &[u8], pos: usize) -> (r: Option<u64>)
    ensures
        pos + 8 <= data@.len() <==> r.is_some(),
        r matches Some(v) ==> v == spec_u64_le(data@.skip(pos as int)) && u64_le_bytes(v)
            == data@.subrange(pos as int, pos + 8),
{
    if pos > data.len() || data.len() - pos < 8 {
        return None;
    }
    let lo = read_u32(data, pos).unwrap();
    let hi = read_u32(data, pos + 4).unwrap();
    assert(data@.skip(pos as int).skip(4) =~= data@.skip(pos + 4));
    let v = (lo as u64) | ((hi as u64) << 32u64);
    proof {
        lemma_u64_bytes_round_trip(data@.subrange(pos as int, pos + 8));
        assert(data@.subrange(pos as int, pos + 8).skip(4) =~= data@.subrange(pos + 4, pos + 8));
    }
    Some(v)
}

/// Appends the two little-endian bytes of `v`.
pub fn write_u16(out: &mut Vec<u8>, v: u16)
    ensures
        final(out)@ == old(out)@ + u16_le_bytes(v),
{
    out.push((v & 0xff) as u8);
    out.push(((v >> 8u16) & 0xff) as u8);
    assert(out@ =~= old(out)@ + u16_le_bytes(v));
}

/// Appends the four little-endian bytes of `v`.
pub fn write_u32(out: &mut Vec<u8>, v: u32)
    ensures
        final(out)@ == old(out)@ + u32_le_bytes(v),
{
    out.push((v & 0xff) as u8);
    out.push(((v >> 8u32) & 0xff) as u8);
    out.push(((v >> 16u32) & 0xff) as u8);
    out.push(((v >> 24u32) & 0xff) as u8);
    assert(out@ =~= old(out)@ + u32_le_bytes(v));
}

/// Appends the eight little-endian bytes of `v`.
pub fn write_u64(out: &mut Vec<u8>, v: u64)
    ensures
        final(out)@ == old(out)@ + u64_le_bytes(v),
{
    write_u32(out, (v & 0xffff_ffff) as u32);
    write_u32(out, (v >> 32u64) as u32);
    assert(out@ =~= old(out)@ + u64_le_bytes(v));
}

/// What `String::from_utf8_lossy` makes of `b`.
pub uninterp spec fn lossy_text_of(b: Seq<u8>) -> Seq<char>;

/// Relies on `String::from_utf8_lossy`: the text depends on the bytes alone, and valid
/// UTF-8 is decoded as it stands.
#[verifier::external_body]
pub(crate) fn text_from_bytes(b: &[u8]) -> (r: String)
    ensures
        r@ == lossy_text_of(b@),
        valid_utf8(b@) ==> r@ == decode_utf8(b@),
{
    String::from_utf8_lossy(b).into_owned()
}

/// Reads the bytes from `pos` up to the first zero byte, decoded lossily as UTF-8, and the
/// position just past that zero byte; `None` when no zero byte follows `pos`.
pub fn read_null_terminated_string(data: &[u8], pos: usize) -> (r: Option<(String, usize)>)
    ensures
        r is None <==> forall|i: int| pos <= i < data@.len() ==> data@[i] != 0,
        r matches Some((s, next)) ==> {
            &&& pos < next <= data@.len()
            &&& data@[next - 1] == 0
            &&& forall|i: int| pos <= i < next - 1 ==> data@[i] != 0
            &&& s@ == lossy_text_of(data@.subrange(pos as int, next - 1))
        },
{
    if pos >= data.len() {
        return None;
    }
    let mut buffer: Vec<u8> = Vec::new();
    let mut i: usize = pos;
    while i < data.len()
        invariant
            pos <= i <= data@.len(),
            buffer@ == data@.subrange(pos as int, i as int),
            forall|k: int| pos <= k < i ==> data@[k] != 0,
        decreases data@.len() - i,
    {
        if data[i] == 0 {
            return Some((text_from_bytes(buffer.as_slice()), i + 1));
        }
        buffer.push(data[i]);
        assert(buffer@ =~= data@.subrange(pos as int, i + 1));
        i = i + 1;
    }
    None
}

/// Appends the UTF-8 bytes of `s` and a terminating zero byte.
pub fn write_null_terminated_string(out: &mut Vec<u8>, s: String)
    ensures
        final(out)@ == old(out)@ + encode_utf8(s@) + seq![0u8],
{
    let b = s.as_str().as_bytes();
    let mut i: usize = 0;
    while i < b.len()
        invariant
            b@ == encode_utf8(s@),
            out@ == old(out)@ + b@.take(i as int),
            i <= b@.len(),
        decreases b@.len() - i,
    {
        out.push(b[i]);
        assert(b@.take(i + 1) =~= b@.take(i as int).push(b[i as int]));
        i = i + 1;
    }
    out.push(0u8);
    assert(b@.take(i as int) =~= b@);
    assert(out@ =~= old(out)@ + b@ + seq![0u8]);
}

/// Whether `v` is the list of `count` records of type `T` stored one after the other
/// from `offset` in `data`.
pub open spec fn table_holds<T: FromReader>(data: Seq<u8>, offset: int, count: int, v: Seq<T>) -> bool {
    &&& v.len() == count
    &&& forall|i: int|
        0 <= i < count ==> #[trigger] v[i].spec_encoding() == data.subrange(
            offset + i * T::spec_wire_len(),
            offset + (i + 1) * T::spec_wire_len(),
        )
}

/// Reads `count` records stored one after the other from `offset`; `None` when they run
/// past the end of `data`.
pub fn read_records<T: FromReader>(data: &[u8], offset: u64, count: u32) -> (r: Option<Vec<T>>)
    ensures
        offset + count * T::spec_wire_len() <= data@.len() <==> r is Some,
        r matches Some(v) ==> table_holds(data@, offset as int, count as int, v@),
{
    let w = T::wire_len();
    let mut result: Vec<T> = Vec::new();
    let mut i: u32 = 0;
    if offset > data.len() as u64 {
        proof {
            assert(offset + count * T::spec_wire_len() > data@.len()) by (nonlinear_arith)
                requires
                    offset > data@.len(),
                    count * T::spec_wire_len() >= 0,
            ;
        }
        return None;
    }
    let mut pos: usize = offset as usize;
    let len = data.len();
    while i < count
        invariant
            len == data@.len(),
            w == T::spec_wire_len(),
            i <= count,
            pos == offset + i * w,
            pos <= data@.len(),
            table_holds(data@, offset as int, i as int, result@),
        decreases count - i,
    {
        match T::from_reader(data, pos) {
            Some(x) => {
                proof {
                    assert((i + 1) * w == i * w + w) by (nonlinear_arith);
                }
                result.push(x);
                pos = pos + w;
                i = i + 1;
            },
            None => {
                proof {
                    assert(offset + count * w > data@.len()) by (nonlinear_arith)
                        requires
                            i < count,
                            offset + i * w + w > data@.len(),
                            w >= 0,
                    ;
                }
                return None;
            },
        }
    }
    Some(result)
}

} // verus!
