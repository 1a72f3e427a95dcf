//! Opening an archive held in memory: header, optional path footer, index tables, and the
//! entries built from them; lookup by hash or path; and the bytes of each entry.
use std::collections::HashMap;

use vstd::prelude::*;
use vstd::utf8::encode_utf8;

use crate::error::ArchiveError;
use crate::hashing::{fnv1a64_hash_string, fnv1a64_of};
use crate::io::{read_records, read_u32, spec_u32_le, table_holds, FromReader};
use crate::lxrs::{strings_from, texts, FooterRead, LxrsFooter};
use crate::records::{Dependency, FileEntry, FileSegment, Header, Index};

verus! {

/// The key under which a resource path is stored: the FNV-1a/64 hash of its UTF-8 bytes.
pub open spec fn path_hash(s: Seq<char>) -> u64 {
    fnv1a64_of(encode_utf8(s))
}

/// The dictionary that a list of paths gives: each path under its hash, a later path
/// replacing an earlier one with the same hash.
pub open spec fn names_map(files: Seq<Seq<char>>) -> Map<u64, Seq<char>>
    decreases files.len(),
{
    if files.len() == 0 {
        Map::empty()
    } else {
        names_map(files.drop_last()).insert(path_hash(files.last()), files.last())
    }
}

/// The views of a dictionary of names.
pub open spec fn names_view(m: Map<u64, String>) -> Map<u64, Seq<char>> {
    m.map_values(|s: String| s@)
}

/// An archive's header, index and tables, read from its bytes.
#[derive(Debug, Clone)]
pub struct Archive {
    pub header: Header,
    pub index: Index,
    /// The file entries in the order of the index.
    pub file_entries: Vec<FileEntry>,
    pub file_segments: Vec<FileSegment>,
    pub dependencies: Vec<Dependency>,
    /// Paths from the footer, under their hashes.
    pub file_names: HashMap<u64, String>,
    /// A compressed footer payload still to be decoded: the payload, its decoded size and
    /// its number of strings.
    pub pending_footer: Option<(Vec<u8>, u32, u32)>,
}

/// Whether the header, index and tables of `a` are those that `data` holds.
pub open spec fn tables_hold(data: Seq<u8>, a: Archive) -> bool {
    let ip = a.header.index_position as int;
    &&& a.header.spec_encoding() == data.subrange(0, 40)
    &&& a.header.spec_is_valid()
    &&& a.index.spec_encoding() == data.subrange(ip, ip + 28)
    &&& table_holds(data, ip + 28, a.index.file_entry_count as int, a.file_entries@)
    &&& table_holds(
        data,
        ip + 28 + a.index.file_entry_count * 56,
        a.index.file_segment_count as int,
        a.file_segments@,
    )
    &&& table_holds(
        data,
        ip + 28 + a.index.file_entry_count * 56 + a.index.file_segment_count * 16,
        a.index.resource_dependency_count as int,
        a.dependencies@,
    )
}

/// Whether `a`'s names and pending footer are what the footer of `data` gives: nothing when
/// the custom-data length is zero or missing, or the footer cannot be read; its paths when it
/// is stored raw; its payload, decoded size and count when it is compressed.
pub open spec fn footer_holds(data: Seq<u8>, a: Archive) -> bool {
    footer_parts_hold(data, a.file_names@, a.pending_footer)
}

/// Whether `names` and `pending` are what the footer of `data` gives (see `footer_holds`).
pub open spec fn footer_parts_hold(
    data: Seq<u8>,
    names: Map<u64, String>,
    pending: Option<(Vec<u8>, u32, u32)>,
) -> bool {
    let b = data.skip(0xAC);
    let magic = spec_u32_le(b);
    let count = spec_u32_le(b.skip(8));
    let size = spec_u32_le(b.skip(12));
    let zsize = spec_u32_le(b.skip(16));
    let has_footer = data.len() >= 44 && spec_u32_le(data.skip(40)) > 0;
    let readable = 0xAC + 20 <= data.len() && magic == 0x4C585253 && size >= zsize && 0xAC + 20
        + zsize <= data.len();
    let payload = data.subrange(0xAC + 20int, 0xAC + 20 + zsize);
    if !has_footer || !readable {
        names.is_empty() && pending is None
    } else if size == zsize {
        &&& names_view(names) == names_map(strings_from(payload, 0, count as nat))
        &&& pending is None
    } else {
        &&& names.is_empty()
        &&& pending matches Some(p) && p.0@ == payload && p.1 == size && p.2 == count
    }
}

/// Whether the tables that `data` holds can be read: header, index prefix, and the three
/// tables after it.
pub open spec fn tables_readable(data: Seq<u8>) -> bool {
    let ip = crate::io::spec_u64_le(data.skip(8)) as int;
    let ne = spec_u32_le(data.skip(ip + 16)) as int;
    let ns = spec_u32_le(data.skip(ip + 20)) as int;
    let nd = spec_u32_le(data.skip(ip + 24)) as int;
    &&& data.len() >= 40
    &&& ip + 28 <= data.len()
    &&& ip + 28 + ne * 56 + ns * 16 + nd * 8 <= data.len()
}

impl Archive {
    /// Reads an archive from its bytes. The magic number and version must be those of the
    /// format (else `InvalidInput`), and the header, index and tables must fit in `data`
    /// (else `InvalidData`). A footer that cannot be read is passed over; a compressed one
    /// is kept in `pending_footer` for the codec.
    pub fn from_bytes(data: &[u8]) -> (r: Result<Archive, ArchiveError>)
        ensures
            data@.len() < 40 ==> r == Err::<Archive, ArchiveError>(ArchiveError::InvalidData),
            data@.len() >= 40 && (spec_u32_le(data@) != 1380009042 || spec_u32_le(data@.skip(4))
                != 12) ==> r == Err::<Archive, ArchiveError>(ArchiveError::InvalidInput),
            data@.len() >= 40 && spec_u32_le(data@) == 1380009042 && spec_u32_le(data@.skip(4))
                == 12 ==> (r is Ok <==> tables_readable(data@)),
            r is Err ==> r == Err::<Archive, ArchiveError>(ArchiveError::InvalidData) || r
                == Err::<Archive, ArchiveError>(ArchiveError::InvalidInput),
            r matches Ok(a) ==> tables_hold(data@, a) && footer_holds(data@, a),
    {
        let header = match Header::from_reader(data, 0) {
            Some(h) => h,
            None => {
                return Err(ArchiveError::InvalidData);
            },
        };
        proof {
            assert(data@.skip(0) =~= data@);
            assert(data@.subrange(0, 4) =~= data@.subrange(0, 40).subrange(0, 4));
            assert(data@.subrange(4, 8) =~= data@.subrange(0, 40).subrange(4, 8));
            crate::io::lemma_u32_round_trip(header.magic);
            crate::io::lemma_u32_round_trip(header.version);
            assert(header.spec_encoding().subrange(0, 4) =~= crate::io::u32_le_bytes(header.magic));
            assert(header.spec_encoding().subrange(4, 8) =~= crate::io::u32_le_bytes(header.version));
            assert(spec_u32_le(data@) == spec_u32_le(data@.subrange(0, 4)));
            assert(spec_u32_le(data@.skip(4)) == spec_u32_le(data@.subrange(4, 8)));
        }
        if header.magic != Header::HEADER_MAGIC || header.version != Header::HEADER_VERSION {
            return Err(ArchiveError::InvalidInput);
        }
        let (file_names, pending_footer) = read_footer(data);
        let ip = header.index_position;
        proof {
            assert(data@.subrange(8, 16) =~= data@.subrange(0, 40).subrange(8, 16));
            crate::io::lemma_u64_round_trip(header.index_position);
            assert(header.spec_encoding().subrange(8, 16) =~= crate::io::u64_le_bytes(
                header.index_position,
            ));
            assert(crate::io::spec_u64_le(data@.skip(8)) == crate::io::spec_u64_le(
                data@.subrange(8, 16),
            ));
        }
        if ip > data.len() as u64 {
            return Err(ArchiveError::InvalidData);
        }
        let index = match Index::from_reader(data, ip as usize) {
            Some(i) => i,
            None => {
                return Err(ArchiveError::InvalidData);
            },
        };
        proof {
            let b = data@.subrange(ip as int, ip + 28);
            crate::io::lemma_u32_round_trip(index.file_entry_count);
            crate::io::lemma_u32_round_trip(index.file_segment_count);
            crate::io::lemma_u32_round_trip(index.resource_dependency_count);
            assert(index.spec_encoding().subrange(16, 20) =~= crate::io::u32_le_bytes(
                index.file_entry_count,
            ));
            assert(index.spec_encoding().subrange(20, 24) =~= crate::io::u32_le_bytes(
                index.file_segment_count,
            ));
            assert(index.spec_encoding().subrange(24, 28) =~= crate::io::u32_le_bytes(
                index.resource_dependency_count,
            ));
            assert(spec_u32_le(data@.skip(ip + 16)) == spec_u32_le(b.subrange(16, 20)));
            assert(spec_u32_le(data@.skip(ip + 20)) == spec_u32_le(b.subrange(20, 24)));
            assert(spec_u32_le(data@.skip(ip + 24)) == spec_u32_le(b.subrange(24, 28)));
        }
        let ne = index.file_entry_count;
        let ns = index.file_segment_count;
        let nd = index.resource_dependency_count;
        let start = ip + 28;
        let file_entries = match read_records::<FileEntry>(data, start, ne) {
            Some(v) => v,
            None => {
                return Err(ArchiveError::InvalidData);
            },
        };
        let seg_start = start + ne as u64 * 56;
        let file_segments = match read_records::<FileSegment>(data, seg_start, ns) {
            Some(v) => v,
            None => {
                return Err(ArchiveError::InvalidData);
            },
        };
        let dep_start = seg_start + ns as u64 * 16;
        let dependencies = match read_records::<Dependency>(data, dep_start, nd) {
            Some(v) => v,
            None => {
                return Err(ArchiveError::InvalidData);
            },
        };
        Ok(Archive { header, index, file_entries, file_segments, dependencies, file_names, pending_footer })
    }

    /// The hashes of the file entries, in the order of the index.
    pub fn get_file_hashes(&self) -> (r: Vec<u64>)
        ensures
            r@.len() == self.file_entries@.len(),
            forall|i: int| 0 <= i < r@.len() ==> r@[i] == self.file_entries@[i].name_hash_64,
    {
        let mut r: Vec<u64> = Vec::new();
        let mut i: usize = 0;
        while i < self.file_entries.len()
            invariant
                i <= self.file_entries@.len(),
                r@.len() == i,
                forall|k: int| 0 <= k < i ==> r@[k] == self.file_entries@[k].name_hash_64,
            decreases self.file_entries@.len() - i,
        {
            r.push(self.file_entries[i].name_hash_64);
            i = i + 1;
        }
        r
    }
}

/// The paths of the footer of `data` under their hashes, or its compressed payload with its
/// decoded size and count; nothing when there is no readable footer.
fn read_footer(data: &[u8]) -> (r: (HashMap<u64, String>, Option<(Vec<u8>, u32, u32)>))
    ensures
        footer_parts_hold(data@, r.0@, r.1),
{
    let mut file_names: HashMap<u64, String> = HashMap::new();
    let mut pending_footer: Option<(Vec<u8>, u32, u32)> = None;
    proof {
        if data@.len() >= 0xAC + 20 {
            let b = data@.skip(0xAC);
            assert(b.skip(8) =~= data@.skip(0xAC + 8int));
            assert(b.skip(12) =~= data@.skip(0xAC + 12int));
            assert(b.skip(16) =~= data@.skip(0xAC + 16int));
        }
    }
    match read_u32(data, 40) {
        Some(custom_data_length) => {
            if custom_data_length > 0 {
                match LxrsFooter::from_reader(data, 0xAC) {
                    Ok(FooterRead::Decoded(footer)) => {
                        file_names = footer_names(&footer);
                    },
                    Ok(FooterRead::Compressed { payload, size, count }) => {
                        pending_footer = Some((payload, size, count));
                    },
                    Err(_) => {},
                }
            }
        },
        None => {},
    }
    (file_names, pending_footer)
}

/// The paths of a footer under their hashes.
pub fn footer_names(footer: &LxrsFooter) -> (r: HashMap<u64, String>)
    ensures
        names_view(r@) == names_map(texts(footer.files@)),
{
    let mut m: HashMap<u64, String> = HashMap::new();
    let mut i: usize = 0;
    while i < footer.files.len()
        invariant
            i <= footer.files@.len(),
            names_view(m@) == names_map(texts(footer.files@.take(i as int))),
        decreases footer.files@.len() - i,
    {
        let f = footer.files[i].clone();
        let h = fnv1a64_hash_string(&f);
        proof {
            assert(texts(footer.files@.take(i + 1)).drop_last() =~= texts(
                footer.files@.take(i as int),
            ));
        }
        m.insert(h, f);
        proof {
            assert(names_view(m@) =~= names_map(texts(footer.files@.take(i + 1))));
        }
        i = i + 1;
    }
    assert(footer.files@.take(i as int) =~= footer.files@);
    m
}

} // verus!
