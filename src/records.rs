//! The fixed-size records of an archive: header, index prefix, file entries, file segments
//! and dependencies.
use vstd::prelude::*;

use crate::io::{
    read_u32, read_u64, u32_le_bytes, u64_le_bytes, write_u32, write_u64, FromReader,
};

verus! {

/// The archive header at offset 0.
#[derive(Debug, Clone, Copy, PartialEq, Eq, Structural)]
pub struct Header {
    pub magic: u32,
    pub version: u32,
    pub index_position: u64,
    pub index_size: u32,
    pub debug_position: u64,
    pub debug_size: u32,
    pub filesize: u64,
}

impl Header {
    /// The archive magic number.
    pub const HEADER_MAGIC: u32 = 1380009042;

    /// The archive format version.
    pub const HEADER_VERSION: u32 = 12;

    /// Bytes of the header record.
    pub const HEADER_SIZE: usize = 40;

    /// End of the header, its reserved padding and the custom-data length: where a path
    /// footer starts.
    pub const HEADER_EXTENDED_SIZE: u64 = 0xAC;

    /// A header with the format's magic number and version.
    pub fn new(
        index_position: u64,
        index_size: u32,
        debug_position: u64,
        debug_size: u32,
        filesize: u64,
    ) -> (r: Header)
        ensures
            r == (Header {
                magic: 1380009042,
                version: 12,
                index_position,
                index_size,
                debug_position,
                debug_size,
                filesize,
            }),
    {
        Header {
            magic: Header::HEADER_MAGIC,
            version: Header::HEADER_VERSION,
            index_position,
            index_size,
            debug_position,
            debug_size,
            filesize,
        }
    }

    /// Whether magic number and version are those of the format.
    pub open spec fn spec_is_valid(self) -> bool {
        self.magic == 1380009042 && self.version == 12
    }

    /// Where the index starts.
    pub fn index_position(&self) -> (r: u64)
        ensures
            r == self.index_position,
    {
        self.index_position
    }

    /// Appends the 40 bytes of the header.
    pub fn write(&self, out: &mut Vec<u8>)
        ensures
            final(out)@ == old(out)@ + self.spec_encoding(),
    {
        write_u32(out, self.magic);
        write_u32(out, self.version);
        write_u64(out, self.index_position);
        write_u32(out, self.index_size);
        write_u64(out, self.debug_position);
        write_u32(out, self.debug_size);
        write_u64(out, self.filesize);
        assert(out@ =~= old(out)@ + self.spec_encoding());
    }
}

impl Default for Header {
    /// An empty header with the format's magic number and version.
    fn default() -> (r: Header)
        ensures
            r == (Header {
                magic: 1380009042,
                version: 12,
                index_position: 0,
                index_size: 0,
                debug_position: 0,
                debug_size: 0,
                filesize: 0,
            }),
    {
        Header::new(0, 0, 0, 0, 0)
    }
}

impl FromReader for Header {
    open spec fn spec_wire_len() -> nat {
        40
    }

    open spec fn spec_encoding(self) -> Seq<u8> {
        u32_le_bytes(self.magic) + u32_le_bytes(self.version) + u64_le_bytes(self.index_position)
            + u32_le_bytes(self.index_size) + u64_le_bytes(self.debug_position) + u32_le_bytes(
            self.debug_size,
        ) + u64_le_bytes(self.filesize)
    }

    fn wire_len() -> (r: usize) {
        40
    }

    fn from_reader(data: &[u8], pos: usize) -> (r: Option<Header>) {
        if pos > data.len() || data.len() - pos < 40 {
            return None;
        }
        let h = Header {
            magic: read_u32(data, pos).unwrap(),
            version: read_u32(data, pos + 4).unwrap(),
            index_position: read_u64(data, pos + 8).unwrap(),
            index_size: read_u32(data, pos + 16).unwrap(),
            debug_position: read_u64(data, pos + 20).unwrap(),
            debug_size: read_u32(data, pos + 28).unwrap(),
            filesize: read_u64(data, pos + 32).unwrap(),
        };
        assert(h.spec_encoding() =~= data@.subrange(pos as int, pos + 40));
        Some(h)
    }
}

/// The prefix of the index: table placement, checksum, and the three table lengths.
#[derive(Debug, Clone, Copy, PartialEq, Eq, Structural)]
pub struct Index {
    /// Offset of the table body from the start of the index; 8 in written archives.
    pub file_table_offset: u32,
    /// Length of the table body plus 8.
    pub file_table_size: u32,
    /// CRC-64 of the table body.
    pub crc: u64,
    pub file_entry_count: u32,
    pub file_segment_count: u32,
    pub resource_dependency_count: u32,
}

impl Index {
    pub fn file_entry_count(&self) -> (r: u32)
        ensures
            r == self.file_entry_count,
    {
        self.file_entry_count
    }

    pub fn file_segment_count(&self) -> (r: u32)
        ensures
            r == self.file_segment_count,
    {
        self.file_segment_count
    }

    pub fn resource_dependency_count(&self) -> (r: u32)
        ensures
            r == self.resource_dependency_count,
    {
        self.resource_dependency_count
    }

    /// Appends the 28 bytes of the index prefix.
    pub fn write(&self, out: &mut Vec<u8>)
        ensures
            final(out)@ == old(out)@ + self.spec_encoding(),
    {
        write_u32(out, self.file_table_offset);
        write_u32(out, self.file_table_size);
        write_u64(out, self.crc);
        write_u32(out, self.file_entry_count);
        write_u32(out, self.file_segment_count);
        write_u32(out, self.resource_dependency_count);
        assert(out@ =~= old(out)@ + self.spec_encoding());
    }
}

impl FromReader for Index {
    open spec fn spec_wire_len() -> nat {
        28
    }

    open spec fn spec_encoding(self) -> Seq<u8> {
        u32_le_bytes(self.file_table_offset) + u32_le_bytes(self.file_table_size) + u64_le_bytes(
            self.crc,
        ) + u32_le_bytes(self.file_entry_count) + u32_le_bytes(self.file_segment_count)
            + u32_le_bytes(self.resource_dependency_count)
    }

    fn wire_len() -> (r: usize) {
        28
    }

    fn from_reader(data: &[u8], pos: usize) -> (r: Option<Index>) {
        if pos > data.len() || data.len() - pos < 28 {
            return None;
        }
        let x = Index {
            file_table_offset: read_u32(data, pos).unwrap(),
            file_table_size: read_u32(data, pos + 4).unwrap(),
            crc: read_u64(data, pos + 8).unwrap(),
            file_entry_count: read_u32(data, pos + 16).unwrap(),
            file_segment_count: read_u32(data, pos + 20).unwrap(),
            resource_dependency_count: read_u32(data, pos + 24).unwrap(),
        };
        assert(x.spec_encoding() =~= data@.subrange(pos as int, pos + 28));
        Some(x)
    }
}

/// One entry of the index: a resource keyed by the hash of its path, with its range of
/// segments and of dependencies.
#[derive(Debug, Clone, Copy)]
pub struct FileEntry {
    pub name_hash_64: u64,
    pub timestamp: u64,
    /// Sub-buffers beyond the first, clamped to 0.
    pub num_inline_buffer_segments: u32,
    pub segments_start: u32,
    pub segments_end: u32,
    pub resource_dependencies_start: u32,
    pub resource_dependencies_end: u32,
    /// SHA-1 of the file as it was on disk.
    pub sha1_hash: [u8; 20],
}

impl FileEntry {
    pub fn new(
        name_hash_64: u64,
        timestamp: u64,
        num_inline_buffer_segments: u32,
        segments_start: u32,
        segments_end: u32,
        resource_dependencies_start: u32,
        resource_dependencies_end: u32,
        sha1_hash: [u8; 20],
    ) -> (r: FileEntry)
        ensures
            r.name_hash_64 == name_hash_64,
            r.timestamp == timestamp,
            r.num_inline_buffer_segments == num_inline_buffer_segments,
            r.segments_start == segments_start,
            r.segments_end == segments_end,
            r.resource_dependencies_start == resource_dependencies_start,
            r.resource_dependencies_end == resource_dependencies_end,
            r.sha1_hash@ == sha1_hash@,
    {
        FileEntry {
            name_hash_64,
            timestamp,
            num_inline_buffer_segments,
            segments_start,
            segments_end,
            resource_dependencies_start,
            resource_dependencies_end,
            sha1_hash,
        }
    }

    /// Appends the 56 bytes of the entry.
    pub fn write(&self, out: &mut Vec<u8>)
        ensures
            final(out)@ == old(out)@ + self.spec_encoding(),
    {
        write_u64(out, self.name_hash_64);
        write_u64(out, self.timestamp);
        write_u32(out, self.num_inline_buffer_segments);
        write_u32(out, self.segments_start);
        write_u32(out, self.segments_end);
        write_u32(out, self.resource_dependencies_start);
        write_u32(out, self.resource_dependencies_end);
        let ghost before = out@;
        let mut i: usize = 0;
        while i < 20
            invariant
                out@ == before + self.sha1_hash@.take(i as int),
                i <= 20,
            decreases 20 - i,
        {
            out.push(self.sha1_hash[i]);
            assert(self.sha1_hash@.take(i + 1) =~= self.sha1_hash@.take(i as int).push(
                self.sha1_hash@[i as int],
            ));
            i = i + 1;
        }
        assert(self.sha1_hash@.take(20) =~= self.sha1_hash@);
        assert(out@ =~= old(out)@ + self.spec_encoding());
    }

    pub fn name_hash_64(&self) -> (r: u64)
        ensures
            r == self.name_hash_64,
    {
        self.name_hash_64
    }

    pub fn sha1_hash(&self) -> (r: [u8; 20])
        ensures
            r@ == self.sha1_hash@,
    {
        self.sha1_hash
    }

    pub fn segments_start(&self) -> (r: u32)
        ensures
            r == self.segments_start,
    {
        self.segments_start
    }

    pub fn segments_end(&self) -> (r: u32)
        ensures
            r == self.segments_end,
    {
        self.segments_end
    }

    pub fn set_segments_start(&mut self, segments_start: u32)
        ensures
            *final(self) == (FileEntry { segments_start, ..*old(self) }),
    {
        self.segments_start = segments_start;
    }

    pub fn set_segments_end(&mut self, segments_end: u32)
        ensures
            *final(self) == (FileEntry { segments_end, ..*old(self) }),
    {
        self.segments_end = segments_end;
    }
}

impl FromReader for FileEntry {
    open spec fn spec_wire_len() -> nat {
        56
    }

    open spec fn spec_encoding(self) -> Seq<u8> {
        u64_le_bytes(self.name_hash_64) + u64_le_bytes(self.timestamp) + u32_le_bytes(
            self.num_inline_buffer_segments,
        ) + u32_le_bytes(self.segments_start) + u32_le_bytes(self.segments_end) + u32_le_bytes(
            self.resource_dependencies_start,
        ) + u32_le_bytes(self.resource_dependencies_end) + self.sha1_hash@
    }

    fn wire_len() -> (r: usize) {
        56
    }

    fn from_reader(data: &[u8], pos: usize) -> (r: Option<FileEntry>) {
        if pos > data.len() || data.len() - pos < 56 {
            return None;
        }
        let end: usize = pos + 56;
        let mut sha1_hash = [0u8; 20];
        let mut i: usize = 0;
        while i < 20
            invariant
                i <= 20,
                end == pos + 56,
                end <= data@.len(),
                forall|k: int| 0 <= k < i ==> sha1_hash@[k] == data@[pos + 36 + k],
            decreases 20 - i,
        {
            sha1_hash[i] = data[pos + 36 + i];
            i = i + 1;
        }
        let x = FileEntry {
            name_hash_64: read_u64(data, pos).unwrap(),
            timestamp: read_u64(data, pos + 8).unwrap(),
            num_inline_buffer_segments: read_u32(data, pos + 16).unwrap(),
            segments_start: read_u32(data, pos + 20).unwrap(),
            segments_end: read_u32(data, pos + 24).unwrap(),
            resource_dependencies_start: read_u32(data, pos + 28).unwrap(),
            resource_dependencies_end: read_u32(data, pos + 32).unwrap(),
            sha1_hash,
        };
        assert(sha1_hash@ =~= data@.subrange(pos + 36, pos + 56));
        assert(x.spec_encoding() =~= data@.subrange(pos as int, pos + 56));
        Some(x)
    }
}

/// A run of payload bytes: where it starts, its length on disk, and its decoded length.
#[derive(Debug, Clone, Copy, PartialEq, Eq, Structural)]
pub struct FileSegment {
    pub offset: u64,
    pub z_size: u32,
    pub size: u32,
}

impl FileSegment {
    pub fn new(offset: u64, z_size: u32, size: u32) -> (r: FileSegment)
        ensures
            r == (FileSegment { offset, z_size, size }),
    {
        FileSegment { offset, z_size, size }
    }

    /// Appends the 16 bytes of the segment.
    pub fn write(&self, out: &mut Vec<u8>)
        ensures
            final(out)@ == old(out)@ + self.spec_encoding(),
    {
        write_u64(out, self.offset);
        write_u32(out, self.z_size);
        write_u32(out, self.size);
        assert(out@ =~= old(out)@ + self.spec_encoding());
    }

    pub fn offset(&self) -> (r: u64)
        ensures
            r == self.offset,
    {
        self.offset
    }

    pub fn z_size(&self) -> (r: u32)
        ensures
            r == self.z_size,
    {
        self.z_size
    }

    pub fn size(&self) -> (r: u32)
        ensures
            r == self.size,
    {
        self.size
    }
}

impl FromReader for FileSegment {
    open spec fn spec_wire_len() -> nat {
        16
    }

    open spec fn spec_encoding(self) -> Seq<u8> {
        u64_le_bytes(self.offset) + u32_le_bytes(self.z_size) + u32_le_bytes(self.size)
    }

    fn wire_len() -> (r: usize) {
        16
    }

    fn from_reader(data: &[u8], pos: usize) -> (r: Option<FileSegment>) {
        if pos > data.len() || data.len() - pos < 16 {
            return None;
        }
        let x = FileSegment {
            offset: read_u64(data, pos).unwrap(),
            z_size: read_u32(data, pos + 8).unwrap(),
            size: read_u32(data, pos + 12).unwrap(),
        };
        assert(x.spec_encoding() =~= data@.subrange(pos as int, pos + 16));
        Some(x)
    }
}

/// A resource dependency: the FNV-1a/64 hash of a depot path.
#[derive(Debug, Clone, Copy, PartialEq, Eq, Structural)]
pub struct Dependency {
    pub hash: u64,
}

impl Dependency {
    /// Appends the 8 bytes of the dependency.
    pub fn write(&self, out: &mut Vec<u8>)
        ensures
            final(out)@ == old(out)@ + self.spec_encoding(),
    {
        write_u64(out, self.hash);
    }
}

impl FromReader for Dependency {
    open spec fn spec_wire_len() -> nat {
        8
    }

    open spec fn spec_encoding(self) -> Seq<u8> {
        u64_le_bytes(self.hash)
    }

    fn wire_len() -> (r: usize) {
        8
    }

    fn from_reader(data: &[u8], pos: usize) -> (r: Option<Dependency>) {
        match read_u64(data, pos) {
            Some(hash) => Some(Dependency { hash }),
            None => None,
        }
    }
}

} // verus!
