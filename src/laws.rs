//! Properties of freshly packed archives, stated over the packer's and the reader's
//! specifications.
use vstd::prelude::*;

use crate::archive::{tables_hold, tables_readable, Archive};
use crate::hashing::sha1_of;
use crate::io::{spec_u32_le, spec_u64_le, u32_le_bytes, u64_le_bytes, FromReader};
use crate::kraken::{worst_case_compressed_size, MAGIC};
use crate::pack::{
    buffer_region, bytes_of, disk_total, entries_bytes, entry_for, index_bytes, is_framed_main,
    item_buffers, item_segments_hold, lemma_bytes_len, main_region, opt_view, packed_holds,
    plan_holds, PackItem, PackPlan, PackedArchive, Placement, SourceFile,
};
use crate::records::{FileEntry, FileSegment};
use crate::zip_archive::{is_framed, segment_bytes};

verus! {

/// The segments of entry `i` of a packed archive.
pub open spec fn entry_segments(p: PackedArchive, i: int) -> Seq<FileSegment> {
    p.segments@.subrange(
        p.entries@[i].segments_start as int,
        p.entries@[i].segments_end as int,
    )
}

/// The stored bytes of the segments, one after the other.
pub open spec fn stored_bytes(out: Seq<u8>, segs: Seq<FileSegment>) -> Seq<u8>
    decreases segs.len(),
{
    if segs.len() == 0 {
        seq![]
    } else {
        stored_bytes(out, segs.drop_last()) + bytes_of(out, segs.last())
    }
}

/// The bytes of a file that its entry covers: the object region and the declared sub-buffers
/// of a cooked resource, the whole file otherwise.
pub open spec fn covered_bytes(item: PackItem) -> Seq<u8> {
    match item.placement {
        Placement::Cooked { objects_end, buffers } => item.data@.take(
            objects_end + disk_total(buffers@),
        ),
        Placement::Raw { .. } => item.data@,
    }
}

/// In a freshly packed archive every entry names a non-empty range of segments that lies
/// within the segment table.
pub proof fn lemma_packed_ranges(
    plan: PackPlan,
    fo: Option<Vec<u8>>,
    outs: Seq<Option<Vec<u8>>>,
    p: PackedArchive,
)
    requires
        packed_holds(plan, fo, outs, p),
    ensures
        forall|i: int|
            0 <= i < p.entries@.len() ==> (#[trigger] p.entries@[i]).segments_start
                < p.entries@[i].segments_end <= p.segments@.len(),
{
}

/// The entries of a freshly packed archive come in ascending order of their path hash.
pub proof fn lemma_packed_order(
    files: Seq<SourceFile>,
    dict: Map<u64, String>,
    plan: PackPlan,
    fo: Option<Vec<u8>>,
    outs: Seq<Option<Vec<u8>>>,
    p: PackedArchive,
)
    requires
        plan_holds(files, dict, plan),
        packed_holds(plan, fo, outs, p),
    ensures
        forall|a: int, b: int|
            0 <= a < b < p.entries@.len() ==> p.entries@[a].name_hash_64
                <= p.entries@[b].name_hash_64,
{
    assert forall|a: int, b: int| 0 <= a < b < p.entries@.len() implies p.entries@[a].name_hash_64
        <= p.entries@[b].name_hash_64 by {
        assert(p.entries@[a].name_hash_64 == plan.items@[a].hash);
        assert(p.entries@[b].name_hash_64 == plan.items@[b].hash);
    }
}

/// The segments of a freshly packed archive start after the footer, follow one another in
/// the segment table without overlapping, and end before the index.
pub proof fn lemma_packed_segments_placed(
    plan: PackPlan,
    fo: Option<Vec<u8>>,
    outs: Seq<Option<Vec<u8>>>,
    p: PackedArchive,
)
    requires
        packed_holds(plan, fo, outs, p),
    ensures
        forall|k: int|
            0 <= k < p.segments@.len() ==> 0xAC + p.custom_data_length <= (
            #[trigger] p.segments@[k]).offset && p.segments@[k].offset + p.segments@[k].z_size
                <= p.header.index_position,
        forall|k: int|
            0 <= k < p.segments@.len() - 1 ==> (#[trigger] p.segments@[k]).offset
                + p.segments@[k].z_size <= p.segments@[k + 1].offset,
        forall|i: int|
            44 <= i < 0xAC ==> p.bytes@[i] == 0,
{
    reveal(crate::pack::segments_placed);
}

/// A freshly packed archive is a whole number of 4096-byte pages, and its header records
/// its length.
pub proof fn lemma_packed_length(
    plan: PackPlan,
    fo: Option<Vec<u8>>,
    outs: Seq<Option<Vec<u8>>>,
    p: PackedArchive,
)
    requires
        packed_holds(plan, fo, outs, p),
    ensures
        p.header.filesize == p.bytes@.len(),
        p.bytes@.len() % 4096 == 0,
{
}

/// The main segment of every entry of a freshly packed archive is either stored
/// (`z_size == size`) or framed and no larger than the codec's worst case for its size.
pub proof fn lemma_packed_main_sizes(
    plan: PackPlan,
    fo: Option<Vec<u8>>,
    outs: Seq<Option<Vec<u8>>>,
    p: PackedArchive,
    i: int,
)
    requires
        packed_holds(plan, fo, outs, p),
        0 <= i < plan.items@.len(),
    ensures
        ({
            let g = entry_segments(p, i)[0];
            &&& g.z_size != g.size ==> g.z_size <= worst_case_compressed_size(g.size as nat)
            &&& !is_framed_main(plan.items@[i], opt_view(outs[i])) ==> g.z_size == g.size
        }),
{
    assert(item_segments_hold(p.bytes@, plan.items@[i], opt_view(outs[i]), entry_segments(p, i), 0xAC));
    lemma_main_size(p.bytes@, plan.items@[i], opt_view(outs[i]), entry_segments(p, i)[0]);
}

proof fn lemma_main_size(bytes: Seq<u8>, item: PackItem, codec: Option<Seq<u8>>, g: FileSegment)
    requires
        crate::pack::main_segment_holds(bytes, item, codec, g),
    ensures
        g.z_size != g.size ==> g.z_size <= worst_case_compressed_size(g.size as nat),
        !is_framed_main(item, codec) ==> g.z_size == g.size,
{
    if g.z_size != g.size {
        let n = g.size as nat;
        assert(n >= 256);
        assert(crate::kraken::ceil_div(n, 262144) >= 1) by (nonlinear_arith)
            requires
                n >= 256,
        {
            if n % 262144 == 0 {
                assert(n / 262144 >= 1);
            }
        }
    }
}

/// A file shorter than 256 bytes does not go through the codec: its main segment is stored
/// verbatim; an empty file gives one segment of size zero.
pub proof fn lemma_packed_short_input(
    plan: PackPlan,
    fo: Option<Vec<u8>>,
    outs: Seq<Option<Vec<u8>>>,
    p: PackedArchive,
    i: int,
)
    requires
        packed_holds(plan, fo, outs, p),
        0 <= i < plan.items@.len(),
        main_region(plan.items@[i]).len() < 256,
    ensures
        ({
            let g = entry_segments(p, i)[0];
            &&& g.z_size == g.size
            &&& bytes_of(p.bytes@, g) == main_region(plan.items@[i])
            &&& plan.items@[i].data@.len() == 0 && plan.items@[i].placement is Raw ==> {
                &&& entry_segments(p, i).len() == 1
                &&& g.size == 0
                &&& g.z_size == 0
            }
        }),
{
    assert(item_segments_hold(p.bytes@, plan.items@[i], opt_view(outs[i]), entry_segments(p, i), 0xAC));
}

proof fn lemma_buffers_concat(out: Seq<u8>, item: PackItem, segs: Seq<FileSegment>, k: int)
    requires
        item.placement is Cooked,
        0 <= k <= item_buffers(item).len(),
        segs.len() == item_buffers(item).len(),
        forall|j: int| 0 <= j < segs.len() ==> bytes_of(out, #[trigger] segs[j]) == buffer_region(item, j),
        item.placement->objects_end + disk_total(item_buffers(item)) <= item.data@.len(),
    ensures
        stored_bytes(out, segs.take(k)) == item.data@.subrange(
            item.placement->objects_end as int,
            item.placement->objects_end + disk_total(item_buffers(item).take(k)),
        ),
    decreases k,
{
    let oe = item.placement->objects_end as int;
    let bufs = item_buffers(item);
    if k == 0 {
        assert(bufs.take(0) =~= Seq::<crate::cr2w::CR2WBufferInfo>::empty());
        assert(item.data@.subrange(oe, oe) =~= Seq::<u8>::empty());
        assert(segs.take(0) =~= Seq::<FileSegment>::empty());
    } else {
        lemma_buffers_concat(out, item, segs, k - 1);
        assert(segs.take(k).drop_last() =~= segs.take(k - 1));
        assert(bufs.take(k).drop_last() =~= bufs.take(k - 1));
        crate::pack::lemma_disk_total_step(bufs, k);
        crate::pack::lemma_disk_total_grows(bufs, k);
        assert(item.data@.subrange(oe, oe + disk_total(bufs.take(k))) =~= item.data@.subrange(
            oe,
            oe + disk_total(bufs.take(k - 1)),
        ) + buffer_region(item, k - 1));
    }
}

proof fn lemma_frame_read_back(bytes: Seq<u8>, item: PackItem, codec: Option<Seq<u8>>, g: FileSegment)
    requires
        crate::pack::main_segment_holds(bytes, item, codec, g),
    ensures
        is_framed(bytes, g) <==> is_framed_main(item, codec),
        is_framed(bytes, g) ==> bytes.subrange(g.offset + 8, g.offset + g.z_size) == codec.unwrap()
            && spec_u32_le(bytes.skip(g.offset + 4)) == g.size,
{
    let m = main_region(item);
    if is_framed_main(item, codec) {
        let o = g.offset as int;
        crate::io::lemma_u32_round_trip(MAGIC);
        crate::io::lemma_u32_round_trip(m.len() as u32);
        assert(bytes.subrange(o, o + 4) == u32_le_bytes(MAGIC));
        assert(spec_u32_le(bytes.skip(o)) == spec_u32_le(bytes.subrange(o, o + 4)));
        assert(bytes.subrange(o + 4, o + 8) == u32_le_bytes(m.len() as u32));
        assert(spec_u32_le(bytes.skip(o + 4)) == spec_u32_le(bytes.subrange(o + 4, o + 8)));
    }
}

proof fn lemma_item_read_back(
    bytes: Seq<u8>,
    item: PackItem,
    codec: Option<Seq<u8>>,
    segs: Seq<FileSegment>,
    decoded: Seq<u8>,
)
    requires
        item_segments_hold(bytes, item, codec, segs, 0xAC),
        crate::pack::item_fits(item),
        is_framed_main(item, codec) ==> decoded == main_region(item),
    ensures
        ({
            let g = segs[0];
            let main_back = if is_framed(bytes, g) {
                decoded
            } else {
                segment_bytes(bytes, g)
            };
            &&& is_framed(bytes, g) <==> is_framed_main(item, codec)
            &&& is_framed(bytes, g) ==> bytes.subrange(g.offset + 8, g.offset + g.z_size)
                == codec.unwrap() && spec_u32_le(bytes.skip(g.offset + 4)) == g.size
            &&& main_back + stored_bytes(bytes, segs.skip(1)) == covered_bytes(item)
        }),
{
    let g = segs[0];
    let m = main_region(item);
    lemma_frame_read_back(bytes, item, codec, g);
    let rest = segs.skip(1);
    match item.placement {
        Placement::Cooked { objects_end, buffers } => {
            assert forall|j: int| 0 <= j < rest.len() implies bytes_of(bytes, #[trigger] rest[j])
                == buffer_region(item, j) by {
                assert(rest[j] == segs[j + 1]);
            }
            lemma_buffers_concat(bytes, item, rest, rest.len() as int);
            assert(rest.take(rest.len() as int) =~= rest);
            assert(item_buffers(item).take(rest.len() as int) =~= item_buffers(item));
            assert(item.data@.take(objects_end + disk_total(buffers@)) =~= m + item.data@.subrange(
                objects_end as int,
                objects_end + disk_total(buffers@),
            ));
        },
        Placement::Raw { .. } => {
            assert(rest =~= Seq::<FileSegment>::empty());
            assert(stored_bytes(bytes, rest) =~= Seq::<u8>::empty());
            assert(m + Seq::<u8>::empty() =~= m);
        },
    }
}

/// Packing then extracting gives the file back. In a freshly packed archive the reader sees
/// the main segment of entry `i` as framed exactly when the packer framed it, with the
/// codec's output as payload and the region's length in the frame; when the codec decodes
/// its output to the region (`decoded`), the main segment read back followed by the
/// sub-buffers stored after it is the part of the file that the entry covers: the whole
/// file, or a cooked resource's object region and declared sub-buffers.
pub proof fn lemma_pack_then_extract(
    plan: PackPlan,
    fo: Option<Vec<u8>>,
    outs: Seq<Option<Vec<u8>>>,
    p: PackedArchive,
    i: int,
    decoded: Seq<u8>,
)
    requires
        packed_holds(plan, fo, outs, p),
        0 <= i < plan.items@.len(),
        crate::pack::item_fits(plan.items@[i]),
        is_framed_main(plan.items@[i], opt_view(outs[i])) ==> decoded == main_region(
            plan.items@[i],
        ),
    ensures
        ({
            let item = plan.items@[i];
            let segs = entry_segments(p, i);
            let g = segs[0];
            let bytes = p.bytes@;
            let main_back = if is_framed(bytes, g) {
                decoded
            } else {
                segment_bytes(bytes, g)
            };
            &&& is_framed(bytes, g) <==> is_framed_main(item, opt_view(outs[i]))
            &&& is_framed(bytes, g) ==> bytes.subrange(g.offset + 8, g.offset + g.z_size)
                == outs[i].unwrap()@ && spec_u32_le(bytes.skip(g.offset + 4)) == g.size
            &&& main_back + stored_bytes(bytes, segs.skip(1)) == covered_bytes(item)
        }),
{
    assert(item_segments_hold(
        p.bytes@,
        plan.items@[i],
        opt_view(outs[i]),
        entry_segments(p, i),
        0xAC,
    ));
    lemma_item_read_back(p.bytes@, plan.items@[i], opt_view(outs[i]), entry_segments(p, i), decoded);
}

/// Extracting a packed file that is not a cooked resource gives bytes whose SHA-1 is the one
/// its entry records: the file itself, when the codec decodes its output back to the file.
pub proof fn lemma_extracted_sha1_matches(
    plan: PackPlan,
    fo: Option<Vec<u8>>,
    outs: Seq<Option<Vec<u8>>>,
    p: PackedArchive,
    i: int,
    decoded: Seq<u8>,
)
    requires
        packed_holds(plan, fo, outs, p),
        0 <= i < plan.items@.len(),
        plan.items@[i].placement is Raw,
        is_framed_main(plan.items@[i], opt_view(outs[i])) ==> decoded == main_region(
            plan.items@[i],
        ),
    ensures
        ({
            let segs = entry_segments(p, i);
            let g = segs[0];
            let main_back = if is_framed(p.bytes@, g) {
                decoded
            } else {
                segment_bytes(p.bytes@, g)
            };
            &&& main_back + stored_bytes(p.bytes@, segs.skip(1)) == plan.items@[i].data@
            &&& sha1_of(main_back + stored_bytes(p.bytes@, segs.skip(1))) == p.entries@[i].sha1_hash@
        }),
{
    assert(entry_for(p.entries@[i], plan.items@[i]));
    lemma_pack_then_extract(plan, fo, outs, p, i, decoded);
}

proof fn lemma_entries_bytes_at(es: Seq<FileEntry>, i: int)
    requires
        0 <= i < es.len(),
    ensures
        entries_bytes(es).subrange(56 * i, 56 * i + 56) == es[i].spec_encoding(),
    decreases es.len(),
{
    lemma_bytes_len(es, seq![]);
    lemma_bytes_len(es.drop_last(), seq![]);
    if i < es.len() - 1 {
        lemma_entries_bytes_at(es.drop_last(), i);
        assert(entries_bytes(es).subrange(56 * i, 56 * i + 56) =~= entries_bytes(
            es.drop_last(),
        ).subrange(56 * i, 56 * i + 56));
        assert(es.drop_last()[i] == es[i]);
    } else {
        assert(entries_bytes(es).subrange(56 * i, 56 * i + 56) =~= es.last().spec_encoding());
    }
}

/// Two index entries with the same bytes have the same hash and segment range.
proof fn lemma_entry_fields(a: FileEntry, b: FileEntry)
    requires
        a.spec_encoding() == b.spec_encoding(),
    ensures
        a.name_hash_64 == b.name_hash_64,
        a.segments_start == b.segments_start,
        a.segments_end == b.segments_end,
{
    let ea = a.spec_encoding();
    let eb = b.spec_encoding();
    assert(ea.subrange(0, 8) =~= u64_le_bytes(a.name_hash_64));
    assert(eb.subrange(0, 8) =~= u64_le_bytes(b.name_hash_64));
    assert(ea.subrange(20, 24) =~= u32_le_bytes(a.segments_start));
    assert(eb.subrange(20, 24) =~= u32_le_bytes(b.segments_start));
    assert(ea.subrange(24, 28) =~= u32_le_bytes(a.segments_end));
    assert(eb.subrange(24, 28) =~= u32_le_bytes(b.segments_end));
    crate::io::lemma_u64_round_trip(a.name_hash_64);
    crate::io::lemma_u64_round_trip(b.name_hash_64);
    crate::io::lemma_u32_round_trip(a.segments_start);
    crate::io::lemma_u32_round_trip(b.segments_start);
    crate::io::lemma_u32_round_trip(a.segments_end);
    crate::io::lemma_u32_round_trip(b.segments_end);
}

/// The value of the four bytes at `i` of `d`, when they are the encoding of `v`.
proof fn lemma_u32_at(d: Seq<u8>, i: int, v: u32)
    requires
        0 <= i,
        i + 4 <= d.len(),
        d.subrange(i, i + 4) == u32_le_bytes(v),
    ensures
        spec_u32_le(d.skip(i)) == v,
{
    crate::io::lemma_u32_round_trip(v);
    assert(spec_u32_le(d.skip(i)) == spec_u32_le(d.subrange(i, i + 4)));
}

proof fn lemma_header_fields(d: Seq<u8>, h: crate::records::Header)
    requires
        d.len() >= 40,
        d.subrange(0, 40) == h.spec_encoding(),
    ensures
        spec_u32_le(d) == h.magic,
        spec_u32_le(d.skip(4)) == h.version,
        spec_u64_le(d.skip(8)) == h.index_position,
{
    let he = h.spec_encoding();
    assert(d.subrange(0, 4) =~= he.subrange(0, 4));
    assert(he.subrange(0, 4) =~= u32_le_bytes(h.magic));
    lemma_u32_at(d, 0, h.magic);
    assert(d.skip(0) =~= d);
    assert(d.subrange(4, 8) =~= he.subrange(4, 8));
    assert(he.subrange(4, 8) =~= u32_le_bytes(h.version));
    lemma_u32_at(d, 4, h.version);
    assert(d.subrange(8, 16) =~= he.subrange(8, 16));
    assert(he.subrange(8, 16) =~= u64_le_bytes(h.index_position));
    crate::io::lemma_u64_round_trip(h.index_position);
    assert(spec_u64_le(d.skip(8)) == spec_u64_le(d.subrange(8, 16)));
}

proof fn lemma_index_counts(d: Seq<u8>, t: int, es: Seq<FileEntry>, ss: Seq<FileSegment>)
    requires
        0 <= t,
        t + index_bytes(es, ss).len() <= d.len(),
        d.subrange(t, t + index_bytes(es, ss).len()) == index_bytes(es, ss),
        es.len() <= u32::MAX,
        ss.len() <= u32::MAX,
    ensures
        index_bytes(es, ss).len() == 28 + 56 * es.len() + 16 * ss.len(),
        spec_u32_le(d.skip(t + 16)) == es.len(),
        spec_u32_le(d.skip(t + 20)) == ss.len(),
        spec_u32_le(d.skip(t + 24)) == 0,
{
    lemma_bytes_len(es, ss);
    let ib = index_bytes(es, ss);
    assert(ib.subrange(16, 20) =~= u32_le_bytes(es.len() as u32));
    assert(ib.subrange(20, 24) =~= u32_le_bytes(ss.len() as u32));
    assert(ib.subrange(24, 28) =~= u32_le_bytes(0));
    assert(d.subrange(t + 16, t + 20) =~= ib.subrange(16, 20));
    assert(d.subrange(t + 20, t + 24) =~= ib.subrange(20, 24));
    assert(d.subrange(t + 24, t + 28) =~= ib.subrange(24, 28));
    lemma_u32_at(d, t + 16, es.len() as u32);
    lemma_u32_at(d, t + 20, ss.len() as u32);
    lemma_u32_at(d, t + 24, 0);
}

#[verifier::rlimit(60)]
proof fn lemma_archive_entries(
    d: Seq<u8>,
    t: int,
    es: Seq<FileEntry>,
    ss: Seq<FileSegment>,
    a: Archive,
)
    requires
        0 <= t,
        d.len() >= 40,
        spec_u64_le(d.skip(8)) == t,
        t + index_bytes(es, ss).len() <= d.len(),
        d.subrange(t, t + index_bytes(es, ss).len()) == index_bytes(es, ss),
        spec_u32_le(d.skip(t + 16)) == es.len(),
        tables_hold(d, a),
    ensures
        a.file_entries@.len() == es.len(),
        forall|i: int|
            0 <= i < es.len() ==> {
                &&& (#[trigger] a.file_entries@[i]).name_hash_64 == es[i].name_hash_64
                &&& a.file_entries@[i].segments_start == es[i].segments_start
                &&& a.file_entries@[i].segments_end == es[i].segments_end
            },
{
    lemma_header_fields(d, a.header);
    let ie = a.index.spec_encoding();
    assert(ie.subrange(16, 20) =~= u32_le_bytes(a.index.file_entry_count));
    assert(d.subrange(t, t + 28).subrange(16, 20) =~= d.subrange(t + 16, t + 20));
    lemma_u32_at(d, t + 16, a.index.file_entry_count);
    let ib = index_bytes(es, ss);
    lemma_bytes_len(es, ss);
    assert forall|i: int| 0 <= i < es.len() implies {
        &&& (#[trigger] a.file_entries@[i]).name_hash_64 == es[i].name_hash_64
        &&& a.file_entries@[i].segments_start == es[i].segments_start
        &&& a.file_entries@[i].segments_end == es[i].segments_end
    } by {
        lemma_entries_bytes_at(es, i);
        assert(ib.subrange(28 + 56 * i, 28 + 56 * i + 56) =~= entries_bytes(es).subrange(
            56 * i,
            56 * i + 56,
        ));
        assert(d.subrange(t + 28 + i * 56, t + 28 + (i + 1) * 56) =~= ib.subrange(
            28 + 56 * i,
            28 + 56 * i + 56,
        ));
        lemma_entry_fields(a.file_entries@[i], es[i]);
    }
}

/// Whether the header and index of `p` stand in its bytes where the header says.
pub open spec fn index_written(p: PackedArchive) -> bool {
    let d = p.bytes@;
    let t = p.header.index_position as int;
    let ib = index_bytes(p.entries@, p.segments@);
    &&& d.len() >= 40
    &&& d.subrange(0, 40) == p.header.spec_encoding()
    &&& t + ib.len() <= d.len()
    &&& d.subrange(t, t + ib.len()) == ib
    &&& p.header.magic == 1380009042
    &&& p.header.version == 12
    &&& p.entries@.len() <= u32::MAX
    &&& p.segments@.len() <= u32::MAX
}

proof fn lemma_index_reads_back(p: PackedArchive)
    requires
        index_written(p),
    ensures
        spec_u32_le(p.bytes@) == 1380009042,
        spec_u32_le(p.bytes@.skip(4)) == 12,
        tables_readable(p.bytes@),
        forall|a: Archive|
            #[trigger] tables_hold(p.bytes@, a) ==> {
                &&& a.file_entries@.len() == p.entries@.len()
                &&& forall|i: int|
                    0 <= i < p.entries@.len() ==> {
                        &&& (#[trigger] a.file_entries@[i]).name_hash_64
                            == p.entries@[i].name_hash_64
                        &&& a.file_entries@[i].segments_start == p.entries@[i].segments_start
                        &&& a.file_entries@[i].segments_end == p.entries@[i].segments_end
                    }
            },
{
    let d = p.bytes@;
    let t = p.header.index_position as int;
    lemma_header_fields(d, p.header);
    lemma_index_counts(d, t, p.entries@, p.segments@);
    assert forall|a: Archive| #[trigger] tables_hold(d, a) implies {
        &&& a.file_entries@.len() == p.entries@.len()
        &&& forall|i: int|
            0 <= i < p.entries@.len() ==> {
                &&& (#[trigger] a.file_entries@[i]).name_hash_64 == p.entries@[i].name_hash_64
                &&& a.file_entries@[i].segments_start == p.entries@[i].segments_start
                &&& a.file_entries@[i].segments_end == p.entries@[i].segments_end
            }
    } by {
        lemma_archive_entries(d, t, p.entries@, p.segments@, a);
    }
}

/// A freshly packed archive reads back: its magic number and version are those of the
/// format, its header, index and tables can be read, and whatever reading gives has the
/// written entries, in order, with their hashes and segment ranges.
pub proof fn lemma_packed_reads_back(
    plan: PackPlan,
    fo: Option<Vec<u8>>,
    outs: Seq<Option<Vec<u8>>>,
    p: PackedArchive,
)
    requires
        packed_holds(plan, fo, outs, p),
    ensures
        spec_u32_le(p.bytes@) == 1380009042,
        spec_u32_le(p.bytes@.skip(4)) == 12,
        tables_readable(p.bytes@),
        forall|a: Archive|
            #[trigger] tables_hold(p.bytes@, a) ==> {
                &&& a.file_entries@.len() == p.entries@.len()
                &&& forall|i: int|
                    0 <= i < p.entries@.len() ==> {
                        &&& (#[trigger] a.file_entries@[i]).name_hash_64
                            == p.entries@[i].name_hash_64
                        &&& a.file_entries@[i].segments_start == p.entries@[i].segments_start
                        &&& a.file_entries@[i].segments_end == p.entries@[i].segments_end
                    }
            },
{
    assert(index_written(p));
    lemma_index_reads_back(p);
}

} // verus!
