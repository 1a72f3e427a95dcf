//! The archive handle: entries keyed by hash, lookup by hash or path, the bytes of each
//! entry, and the names under which entries are extracted.
use std::collections::HashMap;

use vstd::prelude::*;

use crate::archive::{
    footer_holds, names_map, names_view, path_hash, tables_hold, tables_readable, Archive,
};
use crate::error::ArchiveError;
use crate::hashing::fnv1a64_hash_bytes;
use crate::io::{read_u32, spec_u32_le};
use crate::kraken::decompress;
use crate::lxrs::{strings_from, LxrsFooter};
use crate::records::{Dependency, FileEntry, FileSegment};

verus! {

broadcast use vstd::std_specs::hash::group_hash_axioms;

/// How an archive handle was opened.
#[derive(Debug, Clone, Copy, PartialEq, Eq, Structural)]
pub enum ArchiveMode {
    Create,
    Read,
    Update,
}

/// One file of an archive: its hash, the path it was stored under when known, its index
/// entry, its main segment and its sub-buffer segments.
#[derive(Debug, Clone)]
pub struct ZipEntry {
    pub hash: u64,
    pub name: Option<String>,
    pub entry: FileEntry,
    pub segment: FileSegment,
    pub buffers: Vec<FileSegment>,
}

/// The decimal digits of `n`, most significant first, without leading zeros.
pub open spec fn decimal_digits(n: nat) -> Seq<char>
    decreases n,
{
    if n < 10 {
        seq![(48 + n) as char]
    } else {
        decimal_digits(n / 10).push((48 + n % 10) as char)
    }
}

/// The decimal text of `hash` followed by `.bin`.
pub open spec fn bin_name_of(hash: u64) -> Seq<char> {
    decimal_digits(hash as nat) + seq!['.', 'b', 'i', 'n']
}

/// Relies on `format!` with the `Display` of `u64`: its decimal digits without leading zeros,
/// then `.bin`.
#[verifier::external_body]
fn bin_name(hash: u64) -> (r: String)
    ensures
        r@ == bin_name_of(hash),
{
    format!("{}.bin", hash)
}

/// The path under which an entry is extracted: the footer's name, else the caller's
/// dictionary, else the decimal hash with `.bin`.
pub open spec fn resolved_name(name: Option<String>, hash: u64, dict: Map<u64, String>) -> Seq<
    char,
> {
    match name {
        Some(n) => n@,
        None => if dict.contains_key(hash) {
            dict[hash]@
        } else {
            bin_name_of(hash)
        },
    }
}

impl ZipEntry {
    /// The path under which the entry is extracted: the footer's name, else the one that
    /// `hash_map` gives its hash, else `"{hash}.bin"`.
    pub fn get_resolved_name(&self, hash_map: &HashMap<u64, String>) -> (r: String)
        ensures
            r@ == resolved_name(self.name, self.hash, hash_map@),
    {
        match &self.name {
            Some(n) => n.clone(),
            None => match hash_map.get(&self.hash) {
                Some(n) => n.clone(),
                None => bin_name(self.hash),
            },
        }
    }
}

/// The index of the last entry of `fes` with hash `h`, or -1.
pub open spec fn last_with_hash(fes: Seq<FileEntry>, h: u64) -> int
    decreases fes.len(),
{
    if fes.len() == 0 {
        -1
    } else if fes.last().name_hash_64 == h {
        fes.len() - 1
    } else {
        last_with_hash(fes.drop_last(), h)
    }
}

/// The sub-buffer segments of `fe`: those after its main segment, up to its end or the end
/// of the table.
pub open spec fn buffers_of(segs: Seq<FileSegment>, fe: FileEntry) -> Seq<FileSegment> {
    let lo = fe.segments_start + 1;
    let hi = if fe.segments_end < segs.len() {
        fe.segments_end as int
    } else {
        segs.len() as int
    };
    if lo < hi {
        segs.subrange(lo, hi)
    } else {
        seq![]
    }
}

/// Whether `z` is the handle entry built from index entry `fe`.
pub open spec fn entry_built(
    z: ZipEntry,
    fe: FileEntry,
    segs: Seq<FileSegment>,
    names: Map<u64, Seq<char>>,
) -> bool {
    &&& z.hash == fe.name_hash_64
    &&& z.entry == fe
    &&& fe.segments_start < segs.len()
    &&& z.segment == segs[fe.segments_start as int]
    &&& z.buffers@ == buffers_of(segs, fe)
    &&& match z.name {
        Some(n) => names.contains_key(z.hash) && n@ == names[z.hash],
        None => !names.contains_key(z.hash),
    }
}

/// Whether `m` holds, for each hash, the entry built from the last index entry with that
/// hash, unless that entry's first segment lies outside the segment table.
pub open spec fn entries_built(
    m: Map<u64, ZipEntry>,
    fes: Seq<FileEntry>,
    segs: Seq<FileSegment>,
    names: Map<u64, Seq<char>>,
) -> bool {
    forall|h: u64|
        {
            let i = last_with_hash(fes, h);
            &&& #[trigger] m.contains_key(h) <==> (i >= 0 && fes[i].segments_start < segs.len())
            &&& m.contains_key(h) ==> entry_built(m[h], fes[i], segs, names)
        }
}

proof fn lemma_last_with_hash_bounds(fes: Seq<FileEntry>, h: u64)
    ensures
        -1 <= last_with_hash(fes, h) < fes.len(),
        last_with_hash(fes, h) >= 0 ==> fes[last_with_hash(fes, h)].name_hash_64 == h,
    decreases fes.len(),
{
    if fes.len() > 0 && fes.last().name_hash_64 != h {
        lemma_last_with_hash_bounds(fes.drop_last(), h);
    }
}

/// The sub-buffer segments of `fe`.
fn collect_buffers(segs: &Vec<FileSegment>, fe: &FileEntry) -> (r: Vec<FileSegment>)
    requires
        fe.segments_start < segs@.len(),
    ensures
        r@ == buffers_of(segs@, *fe),
{
    let hi: usize = if (fe.segments_end as usize) < segs.len() {
        fe.segments_end as usize
    } else {
        segs.len()
    };
    let mut r: Vec<FileSegment> = Vec::new();
    let lo: usize = fe.segments_start as usize + 1;
    if lo >= hi {
        return r;
    }
    let mut j: usize = lo;
    while j < hi
        invariant
            lo <= j <= hi,
            hi <= segs@.len(),
            r@ == segs@.subrange(lo as int, j as int),
        decreases hi - j,
    {
        r.push(segs[j]);
        assert(r@ =~= segs@.subrange(lo as int, j + 1));
        j = j + 1;
    }
    r
}

/// Entries built from an archive satisfy the handle's invariant.
proof fn lemma_built_wf(m: Map<u64, ZipEntry>, a: Archive)
    requires
        entries_built(m, a.file_entries@, a.file_segments@, names_view(a.file_names@)),
    ensures
        forall|h: u64| #[trigger]
            m.contains_key(h) ==> {
                let i = last_with_hash(a.file_entries@, h);
                &&& 0 <= i < a.file_entries@.len()
                &&& entry_built(m[h], a.file_entries@[i], a.file_segments@, names_view(a.file_names@))
            },
{
    assert forall|h: u64| #[trigger] m.contains_key(h) implies {
        let i = last_with_hash(a.file_entries@, h);
        &&& 0 <= i < a.file_entries@.len()
        &&& entry_built(m[h], a.file_entries@[i], a.file_segments@, names_view(a.file_names@))
    } by {
        lemma_last_with_hash_bounds(a.file_entries@, h);
    }
}

/// Builds the handle entries from an archive's tables and footer names.
pub fn build_entries(a: &Archive) -> (r: HashMap<u64, ZipEntry>)
    ensures
        entries_built(r@, a.file_entries@, a.file_segments@, names_view(a.file_names@)),
{
    let fes = &a.file_entries;
    let segs = &a.file_segments;
    let mut m: HashMap<u64, ZipEntry> = HashMap::new();
    let mut i: usize = 0;
    while i < fes.len()
        invariant
            i <= fes@.len(),
            entries_built(m@, fes@.take(i as int), segs@, names_view(a.file_names@)),
        decreases fes@.len() - i,
    {
        let fe = fes[i];
        let h = fe.name_hash_64;
        let ghost pre = fes@.take(i as int);
        let ghost post = fes@.take(i + 1);
        proof {
            assert(post.drop_last() =~= pre);
            assert(post.last() == fe);
        }
        if (fe.segments_start as usize) < segs.len() {
            let name = match a.file_names.get(&h) {
                Some(n) => Some(n.clone()),
                None => None,
            };
            let z = ZipEntry {
                hash: h,
                name,
                entry: fe,
                segment: segs[fe.segments_start as usize],
                buffers: collect_buffers(segs, &fe),
            };
            assert(entry_built(z, fe, segs@, names_view(a.file_names@)));
            m.insert(h, z);
        } else {
            m.remove(&h);
        }
        proof {
            assert forall|k: u64|
                {
                    let j = last_with_hash(post, k);
                    &&& #[trigger] m@.contains_key(k) <==> (j >= 0 && post[j].segments_start
                        < segs@.len())
                    &&& m@.contains_key(k) ==> entry_built(
                        m@[k],
                        post[j],
                        segs@,
                        names_view(a.file_names@),
                    )
                } by {
                lemma_last_with_hash_bounds(pre, k);
                if k != h {
                    assert(last_with_hash(post, k) == last_with_hash(pre, k));
                    let j = last_with_hash(pre, k);
                    if j >= 0 {
                        assert(post[j] == pre[j]);
                    }
                }
            }
        }
        i = i + 1;
    }
    assert(fes@.take(i as int) =~= fes@);
    m
}

/// Copies `len` bytes from `offset`; `None` when they run past the end of `data`.
pub fn copy_bytes(data: &[u8], offset: u64, len: u64) -> (r: Option<Vec<u8>>)
    ensures
        offset + len <= data@.len() <==> r is Some,
        r matches Some(v) ==> v@ == data@.subrange(offset as int, offset + len),
{
    if offset > data.len() as u64 || len > data.len() as u64 - offset {
        return None;
    }
    let start = offset as usize;
    let end = start + len as usize;
    let mut v: Vec<u8> = Vec::new();
    let mut i: usize = start;
    while i < end
        invariant
            start <= i <= end,
            end <= data@.len(),
            v@ == data@.subrange(start as int, i as int),
        decreases end - i,
    {
        v.push(data[i]);
        assert(v@ =~= data@.subrange(start as int, i + 1));
        i = i + 1;
    }
    Some(v)
}

/// The bytes of a segment as they stand in the archive.
pub open spec fn segment_bytes(data: Seq<u8>, seg: FileSegment) -> Seq<u8> {
    data.subrange(seg.offset as int, seg.offset + seg.z_size)
}

/// A main segment read from the archive: stored bytes, or a Kraken payload that decodes to
/// `size` bytes.
#[derive(Debug, Clone)]
pub enum SegmentData {
    Stored(Vec<u8>),
    Kraken { payload: Vec<u8>, size: u32 },
}

/// Whether a main segment is framed: not stored, and opening with the `KARK` magic.
pub open spec fn is_framed(data: Seq<u8>, seg: FileSegment) -> bool {
    seg.size != seg.z_size && seg.offset + 4 <= data.len() && spec_u32_le(
        data.skip(seg.offset as int),
    ) == crate::kraken::MAGIC
}

/// Reads a main segment. A stored segment (`size == z_size`) and one without the `KARK`
/// frame are copied as they stand; a framed one gives its payload and the size in its frame.
/// Bytes beyond the end of the archive, or a frame shorter than its header, are
/// `InvalidData`.
pub fn read_main_segment(data: &[u8], seg: FileSegment) -> (r: Result<SegmentData, ArchiveError>)
    ensures
        !is_framed(data@, seg) ==> if seg.offset + seg.z_size <= data@.len() {
            r matches Ok(SegmentData::Stored(v)) && v@ == segment_bytes(data@, seg)
        } else {
            r == Err::<SegmentData, ArchiveError>(ArchiveError::InvalidData)
        },
        is_framed(data@, seg) ==> if 8 <= seg.z_size && seg.offset + seg.z_size <= data@.len() {
            r matches Ok(SegmentData::Kraken { payload, size }) && payload@ == data@.subrange(
                seg.offset + 8,
                seg.offset + seg.z_size,
            ) && size == spec_u32_le(data@.skip(seg.offset + 4))
        } else {
            r == Err::<SegmentData, ArchiveError>(ArchiveError::InvalidData)
        },
{
    let framed = if seg.size != seg.z_size && seg.offset <= data.len() as u64 {
        match read_u32(data, seg.offset as usize) {
            Some(m) => m == crate::kraken::MAGIC,
            None => false,
        }
    } else {
        false
    };
    if !framed {
        return match copy_bytes(data, seg.offset, seg.z_size as u64) {
            Some(v) => Ok(SegmentData::Stored(v)),
            None => Err(ArchiveError::InvalidData),
        };
    }
    if seg.z_size < 8 || seg.z_size as u64 > data.len() as u64 - seg.offset {
        return Err(ArchiveError::InvalidData);
    }
    let payload = match copy_bytes(data, seg.offset + 8, (seg.z_size - 8) as u64) {
        Some(v) => v,
        None => {
            return Err(ArchiveError::InvalidData);
        },
    };
    let size = read_u32(data, seg.offset as usize + 4).unwrap();
    Ok(SegmentData::Kraken { payload, size })
}

/// The bytes of an entry as read from the archive: its main segment and its sub-buffers.
#[derive(Debug, Clone)]
pub struct EntryData {
    pub main: SegmentData,
    pub buffers: Vec<Vec<u8>>,
}

/// The byte strings, one after the other.
pub open spec fn concat(parts: Seq<Vec<u8>>) -> Seq<u8>
    decreases parts.len(),
{
    if parts.len() == 0 {
        seq![]
    } else {
        concat(parts.drop_last()) + parts.last()@
    }
}

impl EntryData {
    /// The size that the main segment decodes to, when it is a Kraken payload.
    pub fn decoded_size(&self) -> (r: Option<u32>)
        ensures
            match self.main {
                SegmentData::Stored(_) => r is None,
                SegmentData::Kraken { size, .. } => r == Some(size),
            },
    {
        match &self.main {
            SegmentData::Stored(_) => None,
            SegmentData::Kraken { size, .. } => Some(*size),
        }
    }

    /// The entry's file bytes: the main segment, decoded by the codec when it is a Kraken
    /// payload (`decoded_main`, which must have the size of the frame), followed by the
    /// sub-buffers verbatim.
    pub fn assemble(&self, decoded_main: Option<Vec<u8>>) -> (r: Result<Vec<u8>, ArchiveError>)
        ensures
            match self.main {
                SegmentData::Stored(v) => r matches Ok(out) && out@ == v@ + concat(
                    self.buffers@,
                ),
                SegmentData::Kraken { size, .. } => match decoded_main {
                    Some(d) => if d@.len() == size {
                        r matches Ok(out) && out@ == d@ + concat(self.buffers@)
                    } else {
                        r == Err::<Vec<u8>, ArchiveError>(ArchiveError::Codec)
                    },
                    None => r == Err::<Vec<u8>, ArchiveError>(ArchiveError::Codec),
                },
            },
    {
        let mut out: Vec<u8> = match &self.main {
            SegmentData::Stored(v) => v.clone(),
            SegmentData::Kraken { size, .. } => match decompress(decoded_main, *size as usize) {
                Ok(d) => d,
                Err(e) => {
                    return Err(e);
                },
            },
        };
        let ghost head = out@;
        let mut i: usize = 0;
        while i < self.buffers.len()
            invariant
                i <= self.buffers@.len(),
                out@ == head + concat(self.buffers@.take(i as int)),
            decreases self.buffers@.len() - i,
        {
            let b = &self.buffers[i];
            let ghost before = out@;
            let mut j: usize = 0;
            while j < b.len()
                invariant
                    j <= b@.len(),
                    out@ == before + b@.take(j as int),
                decreases b@.len() - j,
            {
                out.push(b[j]);
                assert(b@.take(j + 1) =~= b@.take(j as int).push(b@[j as int]));
                j = j + 1;
            }
            proof {
                assert(b@.take(j as int) =~= b@);
                assert(self.buffers@.take(i + 1).drop_last() =~= self.buffers@.take(i as int));
                assert(out@ =~= head + concat(self.buffers@.take(i + 1)));
            }
            i = i + 1;
        }
        assert(self.buffers@.take(i as int) =~= self.buffers@);
        Ok(out)
    }
}

/// Whether `d` holds the bytes of entry `z` in `data`.
pub open spec fn entry_data_holds(data: Seq<u8>, z: ZipEntry, d: EntryData) -> bool {
    &&& d.buffers@.len() == z.buffers@.len()
    &&& forall|i: int|
        0 <= i < z.buffers@.len() ==> (#[trigger] d.buffers@[i])@ == segment_bytes(
            data,
            z.buffers@[i],
        )
    &&& match d.main {
        SegmentData::Stored(v) => !is_framed(data, z.segment) && v@ == segment_bytes(
            data,
            z.segment,
        ),
        SegmentData::Kraken { payload, size } => is_framed(data, z.segment) && payload@
            == data.subrange(z.segment.offset + 8, z.segment.offset + z.segment.z_size) && size
            == spec_u32_le(data.skip(z.segment.offset + 4)),
    }
}

/// Whether every segment of `z` lies within `data` (and a framed main segment holds its
/// 8-byte frame header).
pub open spec fn entry_in_bounds(data: Seq<u8>, z: ZipEntry) -> bool {
    &&& z.segment.offset + z.segment.z_size <= data.len()
    &&& is_framed(data, z.segment) ==> 8 <= z.segment.z_size
    &&& forall|i: int|
        0 <= i < z.buffers@.len() ==> (#[trigger] z.buffers@[i]).offset + z.buffers@[i].z_size
            <= data.len()
}

/// Reads the bytes of entry `z` from the archive bytes `data`.
pub fn read_entry(data: &[u8], z: &ZipEntry) -> (r: Result<EntryData, ArchiveError>)
    ensures
        entry_in_bounds(data@, *z) <==> r is Ok,
        r is Err ==> r == Err::<EntryData, ArchiveError>(ArchiveError::InvalidData),
        r matches Ok(d) ==> entry_data_holds(data@, *z, d),
{
    let main = match read_main_segment(data, z.segment) {
        Ok(m) => m,
        Err(e) => {
            return Err(e);
        },
    };
    let mut buffers: Vec<Vec<u8>> = Vec::new();
    let mut i: usize = 0;
    while i < z.buffers.len()
        invariant
            i <= z.buffers@.len(),
            buffers@.len() == i,
            forall|k: int|
                0 <= k < i ==> (#[trigger] buffers@[k])@ == segment_bytes(data@, z.buffers@[k]),
            forall|k: int|
                0 <= k < i ==> (#[trigger] z.buffers@[k]).offset + z.buffers@[k].z_size
                    <= data@.len(),
        decreases z.buffers@.len() - i,
    {
        let seg = z.buffers[i];
        match copy_bytes(data, seg.offset, seg.z_size as u64) {
            Some(v) => {
                buffers.push(v);
            },
            None => {
                return Err(ArchiveError::InvalidData);
            },
        }
        i = i + 1;
    }
    Ok(EntryData { main, buffers })
}

/// Whether `r` is what opening the archive bytes `data` for reading gives: `InvalidData` for
/// a short header, `InvalidInput` for a wrong magic number or version, then success exactly
/// when the index and its tables fit, with the tables, footer names and entries that the
/// bytes hold.
pub open spec fn opens_as(data: Seq<u8>, r: Result<ZipArchive, ArchiveError>) -> bool {
    let valid = spec_u32_le(data) == 1380009042 && spec_u32_le(data.skip(4)) == 12;
    &&& data.len() < 40 ==> r == Err::<ZipArchive, ArchiveError>(ArchiveError::InvalidData)
    &&& data.len() >= 40 && !valid ==> r == Err::<ZipArchive, ArchiveError>(
        ArchiveError::InvalidInput,
    )
    &&& data.len() >= 40 && valid ==> (r is Ok <==> tables_readable(data))
    &&& r is Err ==> r == Err::<ZipArchive, ArchiveError>(ArchiveError::InvalidData) || r
        == Err::<ZipArchive, ArchiveError>(ArchiveError::InvalidInput)
    &&& r matches Ok(z) ==> {
        &&& z.spec_stream() == data
        &&& z.spec_archive() is Some
        &&& tables_hold(data, z.spec_archive().unwrap())
        &&& footer_holds(data, z.spec_archive().unwrap())
        &&& entries_built(
            z.spec_entries(),
            z.spec_archive().unwrap().file_entries@,
            z.spec_archive().unwrap().file_segments@,
            names_view(z.spec_archive().unwrap().file_names@),
        )
    }
}

/// An entry ready to be written out: its hash, the path it goes to, and its bytes.
#[derive(Debug, Clone)]
pub struct Extracted {
    pub hash: u64,
    pub path: String,
    pub data: EntryData,
}

/// An archive handle over the archive's bytes.
#[derive(Debug)]
pub struct ZipArchive {
    /// The archive's bytes.
    stream: Vec<u8>,
    mode: ArchiveMode,
    /// The header, index and tables, as read.
    archive: Option<Archive>,
    /// The files inside the archive.
    entries: HashMap<u64, ZipEntry>,
    pub dependencies: Vec<Dependency>,
}

impl ZipArchive {
    /// Each entry is the one built from the last index entry with its hash; a handle that
    /// read nothing has no entries.
    pub closed spec fn wf(self) -> bool {
        match self.archive {
            Some(a) => forall|h: u64| #[trigger]
                self.entries@.contains_key(h) ==> {
                    let i = last_with_hash(a.file_entries@, h);
                    &&& 0 <= i < a.file_entries@.len()
                    &&& entry_built(
                        self.entries@[h],
                        a.file_entries@[i],
                        a.file_segments@,
                        names_view(a.file_names@),
                    )
                },
            None => self.entries@.is_empty(),
        }
    }

    /// Whether the segments of every entry lie within the archive's bytes.
    pub open spec fn all_in_bounds(&self) -> bool {
        forall|h: u64| #[trigger]
            self.spec_entries().contains_key(h) ==> entry_in_bounds(
                self.spec_stream(),
                self.spec_entries()[h],
            )
    }

    pub closed spec fn spec_stream(&self) -> Seq<u8> {
        self.stream@
    }

    pub closed spec fn spec_entries(&self) -> Map<u64, ZipEntry> {
        self.entries@
    }

    pub closed spec fn spec_mode(&self) -> ArchiveMode {
        self.mode
    }

    pub closed spec fn spec_archive(&self) -> Option<Archive> {
        self.archive
    }

    /// Opens a handle over the archive bytes `stream`. In `Create` mode nothing is read and
    /// the handle starts empty; otherwise the archive is read as `Archive::from_bytes` reads
    /// it and each hash maps to the entry built from the last index entry with that hash,
    /// leaving out entries whose first segment lies outside the segment table.
    pub fn from_reader_consume(stream: Vec<u8>, mode: ArchiveMode) -> (r: Result<
        ZipArchive,
        ArchiveError,
    >)
        ensures
            mode == ArchiveMode::Create ==> (r matches Ok(z) && z.spec_entries().is_empty()
                && z.spec_mode() == mode),
            r matches Ok(z) ==> z.wf(),
            mode != ArchiveMode::Create ==> opens_as(stream@, r),
            mode != ArchiveMode::Create ==> (r matches Ok(z) ==> z.spec_mode() == mode),
    {
        if mode == ArchiveMode::Create {
            return Ok(
                ZipArchive {
                    stream,
                    mode,
                    archive: None,
                    entries: HashMap::new(),
                    dependencies: Vec::new(),
                },
            );
        }
        let a = match Archive::from_bytes(stream.as_slice()) {
            Ok(a) => a,
            Err(e) => {
                return Err(e);
            },
        };
        let entries = build_entries(&a);
        proof {
            lemma_built_wf(entries@, a);
        }
        let dependencies = a.dependencies.clone();
        Ok(ZipArchive { stream, mode, archive: Some(a), entries, dependencies })
    }

    /// The compressed footer payload that is still to be decoded, with its decoded size.
    pub fn pending_footer(&self) -> (r: Option<(Vec<u8>, u32)>)
        ensures
            match self.spec_archive() {
                Some(a) => match a.pending_footer {
                    Some(p) => r matches Some(q) && q.0@ == p.0@ && q.1 == p.1,
                    None => r is None,
                },
                None => r is None,
            },
    {
        match &self.archive {
            Some(a) => match &a.pending_footer {
                Some(p) => Some((p.0.clone(), p.1)),
                None => None,
            },
            None => None,
        }
    }

    /// Takes the codec's decoding of the pending footer payload and names the entries from
    /// it. A decoding of the wrong size, or none, leaves the handle as it was.
    pub fn resolve_footer(&mut self, decoded: Option<Vec<u8>>) -> (r: bool)
        requires
            old(self).wf(),
        ensures
            final(self).wf(),
            final(self).spec_stream() == old(self).spec_stream(),
            final(self).spec_mode() == old(self).spec_mode(),
            !r ==> final(self).spec_entries() == old(self).spec_entries(),
            old(self).spec_archive() is Some && old(self).spec_archive().unwrap().pending_footer is Some
                && decoded is Some && decoded.unwrap()@.len() == old(
                self,
            ).spec_archive().unwrap().pending_footer.unwrap().1 ==> r,
            r ==> {
                let p = old(self).spec_archive().unwrap().pending_footer.unwrap();
                let a = final(self).spec_archive().unwrap();
                &&& old(self).spec_archive() is Some
                &&& old(self).spec_archive().unwrap().pending_footer is Some
                &&& decoded is Some
                &&& decoded.unwrap()@.len() == p.1
                &&& final(self).spec_archive() is Some
                &&& names_view(a.file_names@) == names_map(
                    strings_from(decoded.unwrap()@, 0, p.2 as nat),
                )
                &&& entries_built(
                    final(self).spec_entries(),
                    a.file_entries@,
                    a.file_segments@,
                    names_view(a.file_names@),
                )
            },
    {
        let (size, count) = match &self.archive {
            Some(a) => match &a.pending_footer {
                Some(p) => (p.1, p.2),
                None => {
                    return false;
                },
            },
            None => {
                return false;
            },
        };
        let d = match decompress(decoded, size as usize) {
            Ok(d) => d,
            Err(_) => {
                return false;
            },
        };
        let footer = LxrsFooter::from_decompressed(d.as_slice(), count);
        let mut a = self.archive.clone().unwrap();
        a.file_names = crate::archive::footer_names(&footer);
        a.pending_footer = None;
        let entries = build_entries(&a);
        proof {
            lemma_built_wf(entries@, a);
        }
        self.entries = HashMap::new();
        self.archive = Some(a);
        self.entries = entries;
        true
    }

    /// The entry stored under the FNV-1a/64 hash of resource path `name`.
    pub fn get_entry(&self, name: &str) -> (r: Option<&ZipEntry>)
        ensures
            ({
                let h = path_hash(name@);
                match r {
                    Some(z) => self.spec_entries().contains_key(h) && *z == self.spec_entries()[h],
                    None => !self.spec_entries().contains_key(h),
                }
            }),
    {
        self.get_entry_by_hash(&fnv1a64_hash_bytes(name.as_bytes()))
    }

    /// The entry stored under `hash`.
    pub fn get_entry_by_hash(&self, hash: &u64) -> (r: Option<&ZipEntry>)
        ensures
            match r {
                Some(z) => self.spec_entries().contains_key(*hash) && *z
                    == self.spec_entries()[*hash],
                None => !self.spec_entries().contains_key(*hash),
            },
            self.wf() ==> (r matches Some(z) ==> z.hash == *hash && z.entry.name_hash_64 == *hash),
    {
        proof {
            if self.wf() {
                self.lemma_wf_entries();
            }
        }
        self.entries.get(hash)
    }

    /// In a well-formed handle each entry is stored under its own hash, which is also the
    /// hash of its index entry, and its first segment lies in the segment table.
    pub proof fn lemma_wf_entries(&self)
        requires
            self.wf(),
        ensures
            forall|h: u64| #[trigger]
                self.spec_entries().contains_key(h) ==> self.spec_entries()[h].hash == h
                    && self.spec_entries()[h].entry.name_hash_64 == h,
    {
        if let Some(a) = self.archive {
            assert forall|h: u64| #[trigger] self.spec_entries().contains_key(h) implies self.spec_entries()[h].hash
                == h && self.spec_entries()[h].entry.name_hash_64 == h by {
                lemma_last_with_hash_bounds(a.file_entries@, h);
            }
        }
    }

    /// All entries, keyed by hash.
    pub fn get_entries(&self) -> (r: &HashMap<u64, ZipEntry>)
        ensures
            r@ == self.spec_entries(),
    {
        &self.entries
    }

    /// The bytes of `entry` as they stand in this archive.
    pub fn open_entry(&self, entry: &ZipEntry) -> (r: Result<EntryData, ArchiveError>)
        ensures
            entry_in_bounds(self.spec_stream(), *entry) <==> r is Ok,
            r is Err ==> r == Err::<EntryData, ArchiveError>(ArchiveError::InvalidData),
            r matches Ok(d) ==> entry_data_holds(self.spec_stream(), *entry, d),
    {
        read_entry(self.stream.as_slice(), entry)
    }

    /// The path under which the entry with `hash` is extracted and its bytes; `NotFound`
    /// when no entry has that hash.
    pub fn extract_entry_by_hash(&self, hash: u64, hash_map: &HashMap<u64, String>) -> (r: Result<
        (String, EntryData),
        ArchiveError,
    >)
        ensures
            !self.spec_entries().contains_key(hash) ==> r == Err::<
                (String, EntryData),
                ArchiveError,
            >(ArchiveError::NotFound),
            self.spec_entries().contains_key(hash) ==> {
                let z = self.spec_entries()[hash];
                &&& entry_in_bounds(self.spec_stream(), z) <==> r is Ok
                &&& r matches Ok((p, d)) ==> p@ == resolved_name(z.name, z.hash, hash_map@)
                    && entry_data_holds(self.spec_stream(), z, d)
                &&& r is Err ==> r == Err::<(String, EntryData), ArchiveError>(
                    ArchiveError::InvalidData,
                )
            },
    {
        match self.get_entry_by_hash(&hash) {
            Some(z) => {
                let d = match self.open_entry(z) {
                    Ok(d) => d,
                    Err(e) => {
                        return Err(e);
                    },
                };
                Ok((z.get_resolved_name(hash_map), d))
            },
            None => Err(ArchiveError::NotFound),
        }
    }

    /// The path under which the entry for resource path `name` is extracted and its bytes;
    /// `NotFound` when no entry has that path's hash.
    pub fn extract_entry_by_name(&self, name: &str, hash_map: &HashMap<u64, String>) -> (r: Result<
        (String, EntryData),
        ArchiveError,
    >)
        ensures
            ({
                let h = path_hash(name@);
                &&& !self.spec_entries().contains_key(h) ==> r == Err::<
                    (String, EntryData),
                    ArchiveError,
                >(ArchiveError::NotFound)
                &&& self.spec_entries().contains_key(h) ==> {
                    let z = self.spec_entries()[h];
                    &&& entry_in_bounds(self.spec_stream(), z) <==> r is Ok
                    &&& r matches Ok((p, d)) ==> p@ == resolved_name(z.name, z.hash, hash_map@)
                        && entry_data_holds(self.spec_stream(), z, d)
                    &&& r is Err ==> r == Err::<(String, EntryData), ArchiveError>(
                        ArchiveError::InvalidData,
                    )
                }
            }),
    {
        self.extract_entry_by_hash(fnv1a64_hash_bytes(name.as_bytes()), hash_map)
    }

    /// Every entry with the path it is extracted under and its bytes, in the order of the
    /// index. Without a `hash_map`, names come from the footer or the hash alone. An entry
    /// whose segments run past the end of the archive is `InvalidData`.
    pub fn extract_to_directory(&self, hash_map: Option<HashMap<u64, String>>) -> (r: Result<
        Vec<Extracted>,
        ArchiveError,
    >)
        requires
            self.wf(),
        ensures
            r matches Ok(v) ==> {
                let dict = match hash_map {
                    Some(m) => m@,
                    None => Map::empty(),
                };
                &&& forall|k: int|
                    0 <= k < v@.len() ==> {
                        let x = #[trigger] v@[k];
                        &&& self.spec_entries().contains_key(x.hash)
                        &&& x.path@ == resolved_name(
                            self.spec_entries()[x.hash].name,
                            x.hash,
                            dict,
                        )
                        &&& entry_data_holds(self.spec_stream(), self.spec_entries()[x.hash], x.data)
                    }
                &&& forall|h: u64|
                    #[trigger] self.spec_entries().contains_key(h) ==> exists|k: int|
                        0 <= k < v@.len() && v@[k].hash == h
            },
            r is Err ==> r == Err::<Vec<Extracted>, ArchiveError>(ArchiveError::InvalidData),
            r is Ok <==> self.all_in_bounds(),
    {
        let map = match hash_map {
            Some(m) => m,
            None => HashMap::new(),
        };
        let mut out: Vec<Extracted> = Vec::new();
        let a = match &self.archive {
            Some(a) => a,
            None => {
                return Ok(out);
            },
        };
        let fes = &a.file_entries;
        let mut i: usize = 0;
        while i < fes.len()
            invariant
                i <= fes@.len(),
                self.archive == Some(*a),
                self.wf(),
                fes@ == a.file_entries@,
                forall|k: int|
                    0 <= k < out@.len() ==> {
                        let x = #[trigger] out@[k];
                        &&& self.spec_entries().contains_key(x.hash)
                        &&& x.path@ == resolved_name(self.spec_entries()[x.hash].name, x.hash, map@)
                        &&& entry_data_holds(self.spec_stream(), self.spec_entries()[x.hash], x.data)
                        &&& entry_in_bounds(self.spec_stream(), self.spec_entries()[x.hash])
                    },
                forall|h: u64|
                    #[trigger] self.spec_entries().contains_key(h) && last_with_hash(fes@, h) < i
                        ==> exists|k: int| 0 <= k < out@.len() && out@[k].hash == h,
            decreases fes@.len() - i,
        {
            let h = fes[i].name_hash_64;
            let ghost out0 = out@;
            let ghost mut pushed = false;
            match self.entries.get(&h) {
                Some(z) => {
                    proof {
                        lemma_last_with_hash_bounds(fes@, h);
                        assert(self.entries@.contains_key(h));
                    }
                    if z.entry.segments_start == fes[i].segments_start
                        && z.entry.segments_end == fes[i].segments_end {
                        let data = match read_entry(self.stream.as_slice(), z) {
                            Ok(d) => d,
                            Err(e) => {
                                assert(!entry_in_bounds(self.spec_stream(), self.spec_entries()[h]));
                                return Err(e);
                            },
                        };
                        let path = z.get_resolved_name(&map);
                        let ghost old_out = out@;
                        out.push(Extracted { hash: h, path, data });
                        assert forall|k: int| 0 <= k < out@.len() implies {
                            let x = #[trigger] out@[k];
                            &&& self.spec_entries().contains_key(x.hash)
                            &&& x.path@ == resolved_name(self.spec_entries()[x.hash].name, x.hash, map@)
                            &&& entry_data_holds(self.spec_stream(), self.spec_entries()[x.hash], x.data)
                            &&& entry_in_bounds(self.spec_stream(), self.spec_entries()[x.hash])
                        } by {
                            if k < old_out.len() {
                                assert(out@[k] == old_out[k]);
                            }
                        }
                        assert(out@[old_out.len() as int].hash == h);
                        proof {
                            pushed = true;
                        }
                    }
                    assert(last_with_hash(fes@, h) == i ==> pushed);
                },
                None => {},
            }
            proof {
                assert forall|g: u64|
                    #[trigger] self.spec_entries().contains_key(g) && last_with_hash(fes@, g) < i + 1
                        implies exists|k: int| 0 <= k < out@.len() && out@[k].hash == g by {
                    lemma_last_with_hash_bounds(fes@, g);
                    assert(out0.len() <= out@.len());
                    assert(forall|k: int| 0 <= k < out0.len() ==> out@[k] == out0[k]);
                    if last_with_hash(fes@, g) == i {
                        assert(g == h);
                        assert(pushed);
                        assert(out@[out@.len() - 1].hash == h);
                    } else {
                        let k = choose|k: int| 0 <= k < out0.len() && out0[k].hash == g;
                        assert(out@[k] == out0[k]);
                    }
                }
            }
            i = i + 1;
        }
        proof {
            assert forall|h: u64| #[trigger] self.spec_entries().contains_key(h) implies exists|k: int|
                0 <= k < out@.len() && out@[k].hash == h by {
                lemma_last_with_hash_bounds(fes@, h);
            }
            assert forall|h: u64| #[trigger] self.spec_entries().contains_key(h) implies entry_in_bounds(
                self.spec_stream(),
                self.spec_entries()[h],
            ) by {
                let k = choose|k: int| 0 <= k < out@.len() && out@[k].hash == h;
                assert(out@[k].hash == h);
            }
        }
        Ok(out)
    }

    /// Adding a file to an archive is not offered: `Unsupported` in every mode.
    pub fn create_entry(
        &mut self,
        _file_path: &str,
        _compression_level: crate::kraken::CompressionLevel,
    ) -> (r: Result<ZipEntry, ArchiveError>)
        requires
            old(self).wf(),
        ensures
            final(self).wf(),
            r == Err::<ZipEntry, ArchiveError>(ArchiveError::Unsupported),
            final(self).spec_entries() == old(self).spec_entries(),
    {
        Err(ArchiveError::Unsupported)
    }

    /// Removing an entry is not offered: nothing would write the archive back, so the handle
    /// is left as it is and the result is `Unsupported` in every mode.
    pub fn delete_entry(&mut self, _hash: &u64) -> (r: Result<ZipEntry, ArchiveError>)
        requires
            old(self).wf(),
        ensures
            final(self).wf(),
            r == Err::<ZipEntry, ArchiveError>(ArchiveError::Unsupported),
            final(self).spec_entries() == old(self).spec_entries(),
            final(self).spec_mode() == old(self).spec_mode(),
            final(self).spec_stream() == old(self).spec_stream(),
    {
        Err(ArchiveError::Unsupported)
    }
}

/// Entries held in memory, for building an archive anew.
#[derive(Debug)]
pub struct ZipArchiveMemory {
    /// The files inside the archive.
    pub entries: HashMap<u64, ZipEntry>,
    pub dependencies: Vec<Dependency>,
}

impl ZipArchiveMemory {
    /// An empty set of entries.
    pub fn new() -> (r: ZipArchiveMemory)
        ensures
            r.entries@.is_empty(),
            r.dependencies@.len() == 0,
    {
        ZipArchiveMemory { entries: HashMap::new(), dependencies: Vec::new() }
    }

    /// Adding a file is not offered: `Unsupported`.
    pub fn create_entry(
        &mut self,
        _file_path: &str,
        _compression_level: crate::kraken::CompressionLevel,
    ) -> (r: Result<ZipEntry, ArchiveError>)
        ensures
            r == Err::<ZipEntry, ArchiveError>(ArchiveError::Unsupported),
            final(self).entries@ == old(self).entries@,
    {
        Err(ArchiveError::Unsupported)
    }

    /// Removes the entry with `hash` and returns it.
    pub fn delete_entry(&mut self, hash: &u64) -> (r: Option<ZipEntry>)
        ensures
            final(self).entries@ == old(self).entries@.remove(*hash),
            final(self).dependencies@ == old(self).dependencies@,
            match r {
                Some(z) => old(self).entries@.contains_key(*hash) && z == old(self).entries@[*hash],
                None => !old(self).entries@.contains_key(*hash),
            },
    {
        self.entries.remove(hash)
    }
}

/// Opens a handle for reading over the archive bytes `data`.
pub fn open_read(data: Vec<u8>) -> (r: Result<ZipArchive, ArchiveError>)
    ensures
        r matches Ok(z) ==> z.wf() && z.spec_mode() == ArchiveMode::Read,
        opens_as(data@, r),
{
    ZipArchive::from_reader_consume(data, ArchiveMode::Read)
}

/// Reads the archive in `source` and gives every entry with the path it is extracted under
/// and its bytes, as `ZipArchive::extract_to_directory` does. A compressed footer is left
/// undecoded, so its names are not used.
pub fn extract_to_directory(source: Vec<u8>, hash_map: Option<HashMap<u64, String>>) -> (r: Result<
    Vec<Extracted>,
    ArchiveError,
>)
    ensures
        r matches Err(e) ==> opens_as(source@, Err(e)) || e == ArchiveError::InvalidData
            && exists|z: ZipArchive|
            #![trigger z.spec_stream()]
            opens_as(source@, Ok(z)) && !z.all_in_bounds(),
        r matches Ok(v) ==> exists|z: ZipArchive|
            #![trigger z.spec_stream()]
            {
                let dict = match hash_map {
                    Some(m) => m@,
                    None => Map::empty(),
                };
                &&& opens_as(source@, Ok(z))
                &&& z.all_in_bounds()
                &&& forall|k: int|
                    0 <= k < v@.len() ==> {
                        let x = #[trigger] v@[k];
                        &&& z.spec_entries().contains_key(x.hash)
                        &&& x.path@ == resolved_name(z.spec_entries()[x.hash].name, x.hash, dict)
                        &&& entry_data_holds(source@, z.spec_entries()[x.hash], x.data)
                    }
                &&& forall|h: u64|
                    #[trigger] z.spec_entries().contains_key(h) ==> exists|k: int|
                        0 <= k < v@.len() && v@[k].hash == h
            },
{
    let ghost src = source@;
    let archive = match open_read(source) {
        Ok(a) => a,
        Err(e) => {
            return Err(e);
        },
    };
    let r = archive.extract_to_directory(hash_map);
    assert(archive.spec_stream() == src);
    assert(opens_as(src, Ok(archive)));
    r
}

} // verus!
