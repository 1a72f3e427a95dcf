//! The header and tables of a cooked resource (CR2W) file: enough to split it into its main
//! object region and its sub-buffers, and to list its imports.
use vstd::prelude::*;

use crate::lxrs::zero_index_from;

use crate::io::{
    lossy_text_of, read_null_terminated_string, read_records, read_u16, read_u32, read_u64,
    table_holds, u16_le_bytes, u32_le_bytes, u64_le_bytes, FromReader,
};

verus! {

/// The magic number that opens a cooked resource: `CR2W`.
pub const CR2W_MAGIC: u32 = 0x57325243;

/// Bytes before the table records: the magic number and the fixed header.
pub const TABLES_START: usize = 40;

/// An import of a cooked resource, resolved through its string and name tables.
#[derive(Debug, Clone)]
pub struct Import {
    pub class_name: String,
    pub depot_path: String,
    pub flags: u16,
}

/// The fixed header that follows the magic number.
#[derive(Debug, Clone, Copy, PartialEq, Eq, Structural)]
pub struct CR2WFileHeader {
    pub version: u32,
    pub flags: u32,
    pub time_stamp: u64,
    pub build_version: u32,
    /// Length of the main object region, from the start of the file.
    pub objects_end: u32,
    pub buffers_end: u32,
    pub crc32: u32,
    pub num_chunks: u32,
}

impl FromReader for CR2WFileHeader {
    open spec fn spec_wire_len() -> nat {
        36
    }

    open spec fn spec_encoding(self) -> Seq<u8> {
        u32_le_bytes(self.version) + u32_le_bytes(self.flags) + u64_le_bytes(self.time_stamp)
            + u32_le_bytes(self.build_version) + u32_le_bytes(self.objects_end) + u32_le_bytes(
            self.buffers_end,
        ) + u32_le_bytes(self.crc32) + u32_le_bytes(self.num_chunks)
    }

    fn wire_len() -> (r: usize) {
        36
    }

    fn from_reader(data: &[u8], pos: usize) -> (r: Option<CR2WFileHeader>) {
        if pos > data.len() || data.len() - pos < 36 {
            return None;
        }
        let x = CR2WFileHeader {
            version: read_u32(data, pos).unwrap(),
            flags: read_u32(data, pos + 4).unwrap(),
            time_stamp: read_u64(data, pos + 8).unwrap(),
            build_version: read_u32(data, pos + 16).unwrap(),
            objects_end: read_u32(data, pos + 20).unwrap(),
            buffers_end: read_u32(data, pos + 24).unwrap(),
            crc32: read_u32(data, pos + 28).unwrap(),
            num_chunks: read_u32(data, pos + 32).unwrap(),
        };
        assert(x.spec_encoding() =~= data@.subrange(pos as int, pos + 36));
        Some(x)
    }
}

/// Where a table starts in the file and how many items it has (bytes, for the string table).
#[derive(Debug, Clone, Copy, PartialEq, Eq, Structural)]
pub struct CR2WTable {
    pub offset: u32,
    pub item_count: u32,
    pub crc32: u32,
}

impl FromReader for CR2WTable {
    open spec fn spec_wire_len() -> nat {
        12
    }

    open spec fn spec_encoding(self) -> Seq<u8> {
        u32_le_bytes(self.offset) + u32_le_bytes(self.item_count) + u32_le_bytes(self.crc32)
    }

    fn wire_len() -> (r: usize) {
        12
    }

    fn from_reader(data: &[u8], pos: usize) -> (r: Option<CR2WTable>) {
        if pos > data.len() || data.len() - pos < 12 {
            return None;
        }
        let x = CR2WTable {
            offset: read_u32(data, pos).unwrap(),
            item_count: read_u32(data, pos + 4).unwrap(),
            crc32: read_u32(data, pos + 8).unwrap(),
        };
        assert(x.spec_encoding() =~= data@.subrange(pos as int, pos + 12));
        Some(x)
    }
}

/// A name: the offset of its text in the string table, and its hash.
#[derive(Debug, Clone, Copy, PartialEq, Eq, Structural)]
pub struct CR2WNameInfo {
    pub offset: u32,
    pub hash: u32,
}

impl FromReader for CR2WNameInfo {
    open spec fn spec_wire_len() -> nat {
        8
    }

    open spec fn spec_encoding(self) -> Seq<u8> {
        u32_le_bytes(self.offset) + u32_le_bytes(self.hash)
    }

    fn wire_len() -> (r: usize) {
        8
    }

    fn from_reader(data: &[u8], pos: usize) -> (r: Option<CR2WNameInfo>) {
        if pos > data.len() || data.len() - pos < 8 {
            return None;
        }
        let x = CR2WNameInfo {
            offset: read_u32(data, pos).unwrap(),
            hash: read_u32(data, pos + 4).unwrap(),
        };
        assert(x.spec_encoding() =~= data@.subrange(pos as int, pos + 8));
        Some(x)
    }
}

/// An import: the offset of its depot path in the string table, its class name as an
/// index into the names, and its flags.
#[derive(Debug, Clone, Copy, PartialEq, Eq, Structural)]
pub struct CR2WImportInfo {
    pub offset: u32,
    pub class_name: u16,
    pub flags: u16,
}

impl FromReader for CR2WImportInfo {
    open spec fn spec_wire_len() -> nat {
        8
    }

    open spec fn spec_encoding(self) -> Seq<u8> {
        u32_le_bytes(self.offset) + u16_le_bytes(self.class_name) + u16_le_bytes(self.flags)
    }

    fn wire_len() -> (r: usize) {
        8
    }

    fn from_reader(data: &[u8], pos: usize) -> (r: Option<CR2WImportInfo>) {
        if pos > data.len() || data.len() - pos < 8 {
            return None;
        }
        let x = CR2WImportInfo {
            offset: read_u32(data, pos).unwrap(),
            class_name: read_u16(data, pos + 4).unwrap(),
            flags: read_u16(data, pos + 6).unwrap(),
        };
        assert(x.spec_encoding() =~= data@.subrange(pos as int, pos + 8));
        Some(x)
    }
}

/// A property record.
#[derive(Debug, Clone, Copy, PartialEq, Eq, Structural)]
pub struct CR2WPropertyInfo {
    pub class_name: u16,
    pub class_flags: u16,
    pub property_name: u16,
    pub property_flags: u16,
    pub hash: u64,
}

impl FromReader for CR2WPropertyInfo {
    open spec fn spec_wire_len() -> nat {
        16
    }

    open spec fn spec_encoding(self) -> Seq<u8> {
        u16_le_bytes(self.class_name) + u16_le_bytes(self.class_flags) + u16_le_bytes(
            self.property_name,
        ) + u16_le_bytes(self.property_flags) + u64_le_bytes(self.hash)
    }

    fn wire_len() -> (r: usize) {
        16
    }

    fn from_reader(data: &[u8], pos: usize) -> (r: Option<CR2WPropertyInfo>) {
        if pos > data.len() || data.len() - pos < 16 {
            return None;
        }
        let x = CR2WPropertyInfo {
            class_name: read_u16(data, pos).unwrap(),
            class_flags: read_u16(data, pos + 2).unwrap(),
            property_name: read_u16(data, pos + 4).unwrap(),
            property_flags: read_u16(data, pos + 6).unwrap(),
            hash: read_u64(data, pos + 8).unwrap(),
        };
        assert(x.spec_encoding() =~= data@.subrange(pos as int, pos + 16));
        Some(x)
    }
}

/// An export (object) record.
#[derive(Debug, Clone, Copy, PartialEq, Eq, Structural)]
pub struct CR2WExportInfo {
    pub class_name: u16,
    pub object_flags: u16,
    pub parent_id: u32,
    pub data_size: u32,
    pub data_offset: u32,
    pub template: u32,
    pub crc32: u32,
}

impl FromReader for CR2WExportInfo {
    open spec fn spec_wire_len() -> nat {
        24
    }

    open spec fn spec_encoding(self) -> Seq<u8> {
        u16_le_bytes(self.class_name) + u16_le_bytes(self.object_flags) + u32_le_bytes(
            self.parent_id,
        ) + u32_le_bytes(self.data_size) + u32_le_bytes(self.data_offset) + u32_le_bytes(
            self.template,
        ) + u32_le_bytes(self.crc32)
    }

    fn wire_len() -> (r: usize) {
        24
    }

    fn from_reader(data: &[u8], pos: usize) -> (r: Option<CR2WExportInfo>) {
        if pos > data.len() || data.len() - pos < 24 {
            return None;
        }
        let x = CR2WExportInfo {
            class_name: read_u16(data, pos).unwrap(),
            object_flags: read_u16(data, pos + 2).unwrap(),
            parent_id: read_u32(data, pos + 4).unwrap(),
            data_size: read_u32(data, pos + 8).unwrap(),
            data_offset: read_u32(data, pos + 12).unwrap(),
            template: read_u32(data, pos + 16).unwrap(),
            crc32: read_u32(data, pos + 20).unwrap(),
        };
        assert(x.spec_encoding() =~= data@.subrange(pos as int, pos + 24));
        Some(x)
    }
}

/// A sub-buffer record: its size on disk and in memory.
#[derive(Debug, Clone, Copy, PartialEq, Eq, Structural)]
pub struct CR2WBufferInfo {
    pub flags: u32,
    pub index: u32,
    pub offset: u32,
    pub disk_size: u32,
    pub mem_size: u32,
    pub crc32: u32,
}

impl FromReader for CR2WBufferInfo {
    open spec fn spec_wire_len() -> nat {
        24
    }

    open spec fn spec_encoding(self) -> Seq<u8> {
        u32_le_bytes(self.flags) + u32_le_bytes(self.index) + u32_le_bytes(self.offset)
            + u32_le_bytes(self.disk_size) + u32_le_bytes(self.mem_size) + u32_le_bytes(
            self.crc32,
        )
    }

    fn wire_len() -> (r: usize) {
        24
    }

    fn from_reader(data: &[u8], pos: usize) -> (r: Option<CR2WBufferInfo>) {
        if pos > data.len() || data.len() - pos < 24 {
            return None;
        }
        let x = CR2WBufferInfo {
            flags: read_u32(data, pos).unwrap(),
            index: read_u32(data, pos + 4).unwrap(),
            offset: read_u32(data, pos + 8).unwrap(),
            disk_size: read_u32(data, pos + 12).unwrap(),
            mem_size: read_u32(data, pos + 16).unwrap(),
            crc32: read_u32(data, pos + 20).unwrap(),
        };
        assert(x.spec_encoding() =~= data@.subrange(pos as int, pos + 24));
        Some(x)
    }
}

/// An embedded-file record.
#[derive(Debug, Clone, Copy, PartialEq, Eq, Structural)]
pub struct CR2WEmbeddedInfo {
    pub import_index: u32,
    pub chunk_index: u32,
    pub path_hash: u64,
}

impl FromReader for CR2WEmbeddedInfo {
    open spec fn spec_wire_len() -> nat {
        16
    }

    open spec fn spec_encoding(self) -> Seq<u8> {
        u32_le_bytes(self.import_index) + u32_le_bytes(self.chunk_index) + u64_le_bytes(
            self.path_hash,
        )
    }

    fn wire_len() -> (r: usize) {
        16
    }

    fn from_reader(data: &[u8], pos: usize) -> (r: Option<CR2WEmbeddedInfo>) {
        if pos > data.len() || data.len() - pos < 16 {
            return None;
        }
        let x = CR2WEmbeddedInfo {
            import_index: read_u32(data, pos).unwrap(),
            chunk_index: read_u32(data, pos + 4).unwrap(),
            path_hash: read_u64(data, pos + 8).unwrap(),
        };
        assert(x.spec_encoding() =~= data@.subrange(pos as int, pos + 16));
        Some(x)
    }
}

/// Reads the `table.item_count` records of a table from `table.offset`; `None` when the
/// table runs past the end of `data`.
pub fn read_table<T: FromReader>(data: &[u8], table: CR2WTable) -> (r: Option<Vec<T>>)
    ensures
        table.offset + table.item_count * T::spec_wire_len() <= data@.len() <==> r is Some,
        r matches Some(v) ==> table_holds(
            data@,
            table.offset as int,
            table.item_count as int,
            v@,
        ),
{
    read_records(data, table.offset as u64, table.item_count)
}

/// The text that a string table holds at absolute position `p`: the bytes up to the next
/// zero byte, decoded lossily, with an empty string standing as `None`.
pub open spec fn string_text_at(data: Seq<u8>, p: int) -> Seq<char> {
    let k = zero_index_from(data, p);
    if k == p {
        seq!['N', 'o', 'n', 'e']
    } else {
        lossy_text_of(data.subrange(p, k))
    }
}

/// Whether `v` lists strings of the table that starts at `base`: each with its offset from
/// `base` and the text found there.
pub open spec fn strings_hold(data: Seq<u8>, base: int, v: Seq<(u32, String)>) -> bool {
    forall|i: int|
        0 <= i < v.len() ==> {
            let p = base + (#[trigger] v[i]).0;
            &&& p < data.len()
            &&& zero_index_from(data, p) < data.len()
            &&& v[i].1@ == string_text_at(data, p)
        }
}

/// The string table read from absolute position `pos` up to `end`: each string with its
/// offset from `base` and its text, in order; `None` when a string that starts before `end`
/// has no terminator. `fuel` bounds the number of strings.
pub open spec fn string_table(data: Seq<u8>, base: int, pos: int, end: int, fuel: nat) -> Option<
    Seq<(u32, Seq<char>)>,
>
    decreases fuel,
{
    if pos >= end {
        Some(seq![])
    } else if fuel == 0 || pos < 0 || pos >= data.len() {
        None
    } else {
        let k = zero_index_from(data, pos);
        if k >= data.len() {
            None
        } else {
            match string_table(data, base, k + 1, end, (fuel - 1) as nat) {
                Some(rest) => Some(seq![((pos - base) as u32, string_text_at(data, pos))] + rest),
                None => None,
            }
        }
    }
}

/// The offsets and texts of a list of strings.
pub open spec fn strings_view(v: Seq<(u32, String)>) -> Seq<(u32, Seq<char>)> {
    v.map_values(|e: (u32, String)| (e.0, e.1@))
}

/// `pre` in front of what `o` holds.
pub open spec fn prepend(pre: Seq<(u32, Seq<char>)>, o: Option<Seq<(u32, Seq<char>)>>) -> Option<
    Seq<(u32, Seq<char>)>,
> {
    match o {
        Some(r) => Some(pre + r),
        None => None,
    }
}

/// The string table of `t`, read from `data`.
pub open spec fn table_strings(data: Seq<u8>, t: CR2WTable) -> Option<Seq<(u32, Seq<char>)>> {
    string_table(data, t.offset as int, t.offset as int, t.offset + t.item_count, data.len())
}

/// Reads the packed null-terminated strings of the string table, each keyed by its offset
/// from the start of the table; `None` when a string has no terminator.
pub fn read_strings(data: &[u8], table: CR2WTable) -> (r: Option<Vec<(u32, String)>>)
    ensures
        r matches Some(v) ==> strings_hold(data@, table.offset as int, v@),
        r matches Some(v) ==> table_strings(data@, table) == Some(strings_view(v@)),
        r is None <==> table_strings(data@, table) is None,
        table.item_count > 0 && table.offset + table.item_count > data@.len() ==> r is None,
{
    proof {
        reveal_strlit("None");
    }
    let base = table.offset as usize;
    let end: u64 = table.offset as u64 + table.item_count as u64;
    let mut result: Vec<(u32, String)> = Vec::new();
    if base > data.len() {
        if table.item_count == 0 {
            return Some(result);
        }
        return None;
    }
    let mut pos: usize = base;
    let ghost mut fuel: nat = data@.len();
    assert(strings_view(result@) =~= Seq::<(u32, Seq<char>)>::empty());
    assert(prepend(strings_view(result@), table_strings(data@, table)) == table_strings(data@, table)) by {
        match table_strings(data@, table) {
            Some(r) => {
                assert(Seq::<(u32, Seq<char>)>::empty() + r =~= r);
            },
            None => {},
        }
    }
    while (pos as u64) < end
        invariant
            base == table.offset,
            end == table.offset + table.item_count,
            base <= pos <= data@.len(),
            fuel + pos >= data@.len(),
            strings_hold(data@, table.offset as int, result@),
            table_strings(data@, table) == prepend(
                strings_view(result@),
                string_table(data@, base as int, pos as int, end as int, fuel),
            ),
        decreases data@.len() - pos,
    {
        match read_null_terminated_string(data, pos) {
            Some((text, next)) => {
                proof {
                    crate::lxrs::lemma_zero_index_found(data@, pos as int, next - 1);
                }
                let text = if next - 1 == pos {
                    let t = "None".to_owned();
                    proof {
                        reveal_strlit("None");
                    }
                    assert(t@ =~= seq!['N', 'o', 'n', 'e']);
                    t
                } else {
                    text
                };
                assert(text@ == string_text_at(data@, pos as int));
                let off = (pos - base) as u32;
                let ghost old_result = result@;
                let ghost rest = string_table(data@, base as int, next as int, end as int, (fuel - 1) as nat);
                result.push((off, text));
                proof {
                    assert(strings_view(result@) =~= strings_view(old_result).push((off, text@)));
                    match rest {
                        Some(rr) => {
                            assert(strings_view(old_result) + (seq![(off, text@)] + rr) =~= strings_view(result@) + rr);
                        },
                        None => {},
                    }
                    fuel = (fuel - 1) as nat;
                }
                assert forall|i: int| 0 <= i < result@.len() implies {
                    let p = table.offset + (#[trigger] result@[i]).0;
                    &&& p < data@.len()
                    &&& zero_index_from(data@, p) < data@.len()
                    &&& result@[i].1@ == string_text_at(data@, p)
                } by {
                    if i < old_result.len() {
                        assert(result@[i] == old_result[i]);
                    }
                }
                pos = next;
            },
            None => {
                proof {
                    crate::lxrs::lemma_zero_index_none(data@, pos as int);
                }
                return None;
            },
        }
    }
    assert(strings_view(result@) + Seq::<(u32, Seq<char>)>::empty() =~= strings_view(result@));
    Some(result)
}

/// Whether the string table `t` holds text `s` at offset `off`.
pub open spec fn has_string(t: Seq<(u32, String)>, off: u32, s: Seq<char>) -> bool {
    exists|k: int| 0 <= k < t.len() && t[k].0 == off && t[k].1@ == s
}

/// The first string of `t` stored at offset `off`.
pub fn find_string(t: &Vec<(u32, String)>, off: u32) -> (r: Option<String>)
    ensures
        r is None <==> forall|i: int| 0 <= i < t@.len() ==> t@[i].0 != off,
        r matches Some(s) ==> has_string(t@, off, s@),
{
    let mut i: usize = 0;
    while i < t.len()
        invariant
            i <= t@.len(),
            forall|k: int| 0 <= k < i ==> t@[k].0 != off,
        decreases t@.len() - i,
    {
        if t[i].0 == off {
            return Some(t[i].1.clone());
        }
        i = i + 1;
    }
    None
}

/// What the reader found in a candidate cooked resource.
#[derive(Debug, Clone)]
pub struct CR2WFileInfo {
    pub header: CR2WFileHeader,
    pub tables: Vec<CR2WTable>,
    pub names_table: Vec<CR2WNameInfo>,
    pub imports_table: Vec<CR2WImportInfo>,
    pub properties_table: Vec<CR2WPropertyInfo>,
    pub exports_table: Vec<CR2WExportInfo>,
    pub buffers_table: Vec<CR2WBufferInfo>,
    pub embeds_table: Vec<CR2WEmbeddedInfo>,
    pub strings: Vec<(u32, String)>,
    pub names: Vec<String>,
    pub imports: Vec<Import>,
}

/// Whether a file is a cooked resource, and if so what its header and tables hold.
#[derive(Debug, Clone)]
pub enum Cr2wParse {
    Cooked(CR2WFileInfo),
    NotCooked,
}

/// Whether `imp` is the import that record `m` describes, given the strings and names.
pub open spec fn import_holds(
    strings: Seq<(u32, String)>,
    names: Seq<String>,
    m: CR2WImportInfo,
    imp: Import,
) -> bool {
    &&& m.class_name < names.len()
    &&& imp.class_name@ == names[m.class_name as int]@
    &&& imp.flags == m.flags
    &&& has_string(strings, m.offset, imp.depot_path@)
}

/// Whether `info` is what the header and tables of `data` hold.
pub open spec fn info_holds(data: Seq<u8>, info: CR2WFileInfo) -> bool {
    let t = info.tables@;
    &&& data.len() >= 160
    &&& crate::io::spec_u32_le(data) == CR2W_MAGIC
    &&& info.header.spec_encoding() == data.subrange(4, 40)
    &&& table_holds(data, 40, 10, t)
    &&& strings_hold(data, t[0].offset as int, info.strings@)
    &&& table_strings(data, t[0]) == Some(strings_view(info.strings@))
    &&& t[1].offset + t[1].item_count * 8 <= data.len()
    &&& t[2].offset + t[2].item_count * 8 <= data.len()
    &&& t[3].offset + t[3].item_count * 16 <= data.len()
    &&& t[4].offset + t[4].item_count * 24 <= data.len()
    &&& t[5].offset + t[5].item_count * 24 <= data.len()
    &&& t[6].offset + t[6].item_count * 16 <= data.len()
    &&& table_holds(data, t[1].offset as int, t[1].item_count as int, info.names_table@)
    &&& table_holds(data, t[2].offset as int, t[2].item_count as int, info.imports_table@)
    &&& table_holds(data, t[3].offset as int, t[3].item_count as int, info.properties_table@)
    &&& table_holds(data, t[4].offset as int, t[4].item_count as int, info.exports_table@)
    &&& table_holds(data, t[5].offset as int, t[5].item_count as int, info.buffers_table@)
    &&& table_holds(data, t[6].offset as int, t[6].item_count as int, info.embeds_table@)
    &&& info.names@.len() == info.names_table@.len()
    &&& forall|i: int|
        0 <= i < info.names@.len() ==> has_string(
            info.strings@,
            info.names_table@[i].offset,
            (#[trigger] info.names@[i])@,
        )
    &&& info.imports@.len() == info.imports_table@.len()
    &&& forall|i: int|
        0 <= i < info.imports@.len() ==> import_holds(
            info.strings@,
            info.names@,
            info.imports_table@[i],
            #[trigger] info.imports@[i],
        )
}

/// Field `f` (0: offset, 1: item count) of table record `k` of `data`.
pub open spec fn table_field(data: Seq<u8>, k: int, f: int) -> u32 {
    crate::io::spec_u32_le(data.skip(40 + 12 * k + 4 * f))
}

/// Whether table `k`, with records of `w` bytes, lies within `data`.
pub open spec fn table_fits(data: Seq<u8>, k: int, w: int) -> bool {
    table_field(data, k, 0) + table_field(data, k, 1) * w <= data.len()
}

/// Whether the name, import, property, export, buffer and embedded-file tables of `data` lie
/// within it.
pub open spec fn cr2w_tables_fit(data: Seq<u8>) -> bool {
    &&& table_fits(data, 1, 8)
    &&& table_fits(data, 2, 8)
    &&& table_fits(data, 3, 16)
    &&& table_fits(data, 4, 24)
    &&& table_fits(data, 5, 24)
    &&& table_fits(data, 6, 16)
}

proof fn lemma_table_record(data: Seq<u8>, t: Seq<CR2WTable>, k: int)
    requires
        data.len() >= 160,
        table_holds(data, 40, 10, t),
        0 <= k < 10,
    ensures
        t[k].offset == table_field(data, k, 0),
        t[k].item_count == table_field(data, k, 1),
{
    let e = t[k].spec_encoding();
    let base = 40 + 12 * k;
    assert(e == data.subrange(base, base + 12));
    assert(e.subrange(0, 4) =~= u32_le_bytes(t[k].offset));
    assert(e.subrange(4, 8) =~= u32_le_bytes(t[k].item_count));
    crate::io::lemma_u32_round_trip(t[k].offset);
    crate::io::lemma_u32_round_trip(t[k].item_count);
    assert(crate::io::spec_u32_le(data.skip(base)) == crate::io::spec_u32_le(e.subrange(0, 4)));
    assert(crate::io::spec_u32_le(data.skip(base + 4)) == crate::io::spec_u32_le(
        e.subrange(4, 8),
    ));
}

/// Two readings of the table records of `data` agree on each table's place and size.
proof fn lemma_same_tables(data: Seq<u8>, t1: Seq<CR2WTable>, t2: Seq<CR2WTable>)
    requires
        data.len() >= 160,
        table_holds(data, 40, 10, t1),
        table_holds(data, 40, 10, t2),
    ensures
        forall|k: int|
            0 <= k < 7 ==> #[trigger] t1[k].offset == t2[k].offset && t1[k].item_count
                == t2[k].item_count,
{
    lemma_table_record(data, t1, 0);
    lemma_table_record(data, t2, 0);
    lemma_table_record(data, t1, 1);
    lemma_table_record(data, t2, 1);
    lemma_table_record(data, t1, 2);
    lemma_table_record(data, t2, 2);
    lemma_table_record(data, t1, 3);
    lemma_table_record(data, t2, 3);
    lemma_table_record(data, t1, 4);
    lemma_table_record(data, t2, 4);
    lemma_table_record(data, t1, 5);
    lemma_table_record(data, t2, 5);
    lemma_table_record(data, t1, 6);
    lemma_table_record(data, t2, 6);
}

/// Two name records with the same bytes point at the same string.
proof fn lemma_name_offset(a: CR2WNameInfo, b: CR2WNameInfo)
    requires
        a.spec_encoding() == b.spec_encoding(),
    ensures
        a.offset == b.offset,
{
    assert(a.spec_encoding().subrange(0, 4) =~= u32_le_bytes(a.offset));
    assert(b.spec_encoding().subrange(0, 4) =~= u32_le_bytes(b.offset));
    crate::io::lemma_u32_round_trip(a.offset);
    crate::io::lemma_u32_round_trip(b.offset);
}

/// Two import records with the same bytes have the same path offset and class name.
proof fn lemma_import_fields(a: CR2WImportInfo, b: CR2WImportInfo)
    requires
        a.spec_encoding() == b.spec_encoding(),
    ensures
        a.offset == b.offset,
        a.class_name == b.class_name,
{
    assert(a.spec_encoding().subrange(0, 4) =~= u32_le_bytes(a.offset));
    assert(b.spec_encoding().subrange(0, 4) =~= u32_le_bytes(b.offset));
    assert(a.spec_encoding().subrange(4, 6) =~= u16_le_bytes(a.class_name));
    assert(b.spec_encoding().subrange(4, 6) =~= u16_le_bytes(b.class_name));
    crate::io::lemma_u32_round_trip(a.offset);
    crate::io::lemma_u32_round_trip(b.offset);
    crate::io::lemma_u16_round_trip(a.class_name);
    crate::io::lemma_u16_round_trip(b.class_name);
}

/// A name whose string is missing rules out every reading of `data`.
proof fn lemma_name_missing(
    data: Seq<u8>,
    tables: Seq<CR2WTable>,
    names_table: Seq<CR2WNameInfo>,
    strings: Seq<(u32, String)>,
    i: int,
)
    requires
        data.len() >= 160,
        table_holds(data, 40, 10, tables),
        table_holds(data, tables[1].offset as int, tables[1].item_count as int, names_table),
        table_strings(data, tables[0]) == Some(strings_view(strings)),
        0 <= i < names_table.len(),
        forall|k: int| 0 <= k < strings.len() ==> strings[k].0 != names_table[i].offset,
    ensures
        forall|info: CR2WFileInfo| !info_holds(data, info),
{
    assert forall|info: CR2WFileInfo| !info_holds(data, info) by {
        if info_holds(data, info) {
            lemma_same_tables(data, info.tables@, tables);
            assert(info.tables@[0].offset == tables[0].offset);
            assert(info.tables@[1].offset == tables[1].offset);
            assert(info.names_table@[i].spec_encoding() == names_table[i].spec_encoding());
            lemma_name_offset(info.names_table@[i], names_table[i]);
            assert(has_string(info.strings@, info.names_table@[i].offset, info.names@[i]@));
            let k = choose|k: int|
                0 <= k < info.strings@.len() && info.strings@[k].0 == info.names_table@[i].offset
                    && info.strings@[k].1@ == info.names@[i]@;
            assert(info.tables@[0].item_count == tables[0].item_count);
            assert(table_strings(data, info.tables@[0]) == table_strings(data, tables[0]));
            assert(strings_view(strings) == strings_view(info.strings@));
            assert(strings_view(strings).len() == strings.len());
            assert(strings_view(info.strings@).len() == info.strings@.len());
            assert(strings_view(strings)[k] == strings_view(info.strings@)[k]);
            assert(strings[k].0 == info.strings@[k].0);
        }
    }
}

/// An import whose class name or path is missing rules out every reading of `data`.
proof fn lemma_import_missing(
    data: Seq<u8>,
    tables: Seq<CR2WTable>,
    names_table: Seq<CR2WNameInfo>,
    imports_table: Seq<CR2WImportInfo>,
    strings: Seq<(u32, String)>,
    i: int,
)
    requires
        data.len() >= 160,
        table_holds(data, 40, 10, tables),
        table_holds(data, tables[1].offset as int, tables[1].item_count as int, names_table),
        table_holds(data, tables[2].offset as int, tables[2].item_count as int, imports_table),
        table_strings(data, tables[0]) == Some(strings_view(strings)),
        0 <= i < imports_table.len(),
        imports_table[i].class_name >= names_table.len() || forall|k: int|
            0 <= k < strings.len() ==> strings[k].0 != imports_table[i].offset,
    ensures
        forall|info: CR2WFileInfo| !info_holds(data, info),
{
    assert forall|info: CR2WFileInfo| !info_holds(data, info) by {
        if info_holds(data, info) {
            lemma_same_tables(data, info.tables@, tables);
            assert(info.tables@[0].offset == tables[0].offset);
            assert(info.tables@[1].offset == tables[1].offset);
            assert(info.tables@[2].offset == tables[2].offset);
            assert(info.imports_table@[i].spec_encoding() == imports_table[i].spec_encoding());
            lemma_import_fields(info.imports_table@[i], imports_table[i]);
            assert(import_holds(info.strings@, info.names@, info.imports_table@[i], info.imports@[i]));
            if imports_table[i].class_name < names_table.len() {
                let k = choose|k: int|
                    0 <= k < info.strings@.len() && info.strings@[k].0
                        == info.imports_table@[i].offset && info.strings@[k].1@
                        == info.imports@[i].depot_path@;
                assert(info.tables@[0].item_count == tables[0].item_count);
            assert(table_strings(data, info.tables@[0]) == table_strings(data, tables[0]));
            assert(strings_view(strings) == strings_view(info.strings@));
            assert(strings_view(strings).len() == strings.len());
            assert(strings_view(info.strings@).len() == info.strings@.len());
            assert(strings_view(strings)[k] == strings_view(info.strings@)[k]);
            assert(strings[k].0 == info.strings@[k].0);
            }
        }
    }
}

/// Reads the header and tables of a candidate cooked resource. A wrong magic number, a
/// truncated header or table, a string without terminator, or an index that points nowhere
/// makes it `NotCooked`; so does a table that runs past the end of the file.
pub fn read_cr2w_header(data: &[u8]) -> (r: Cr2wParse)
    ensures
        data@.len() < 160 || crate::io::spec_u32_le(data@) != CR2W_MAGIC ==> r is NotCooked,
        !cr2w_tables_fit(data@) ==> r is NotCooked,
        table_field(data@, 0, 1) > 0 && table_field(data@, 0, 0) + table_field(data@, 0, 1)
            > data@.len() ==> r is NotCooked,
        (exists|info: CR2WFileInfo| info_holds(data@, info)) ==> r is Cooked,
        r matches Cr2wParse::Cooked(info) ==> info_holds(data@, info),
{
    let magic = match read_u32(data, 0) {
        Some(m) => m,
        None => {
            return Cr2wParse::NotCooked;
        },
    };
    assert(data@.skip(0) =~= data@);
    if magic != CR2W_MAGIC || data.len() < 160 {
        return Cr2wParse::NotCooked;
    }
    let header = CR2WFileHeader::from_reader(data, 4).unwrap();
    let tables = match read_table::<CR2WTable>(
        data,
        CR2WTable { offset: 40, item_count: 10, crc32: 0 },
    ) {
        Some(t) => t,
        None => {
            return Cr2wParse::NotCooked;
        },
    };
    proof {
        lemma_table_record(data@, tables@, 0);
        lemma_table_record(data@, tables@, 1);
        lemma_table_record(data@, tables@, 2);
        lemma_table_record(data@, tables@, 3);
        lemma_table_record(data@, tables@, 4);
        lemma_table_record(data@, tables@, 5);
        lemma_table_record(data@, tables@, 6);
    }
    let strings = match read_strings(data, tables[0]) {
        Some(s) => s,
        None => {
            proof {
                assert forall|info: CR2WFileInfo| !info_holds(data@, info) by {
                    if info_holds(data@, info) {
                        lemma_same_tables(data@, info.tables@, tables@);
                        assert(info.tables@[0].offset == tables@[0].offset);
                        assert(info.tables@[1].offset == tables@[1].offset);
                        assert(info.tables@[2].offset == tables@[2].offset);
                        assert(info.tables@[3].offset == tables@[3].offset);
                        assert(info.tables@[4].offset == tables@[4].offset);
                        assert(info.tables@[5].offset == tables@[5].offset);
                        assert(info.tables@[6].offset == tables@[6].offset);
                    }
                }
            }
            return Cr2wParse::NotCooked;
        },
    };
    let names_table = match read_table::<CR2WNameInfo>(data, tables[1]) {
        Some(t) => t,
        None => {
            proof {
                assert forall|info: CR2WFileInfo| !info_holds(data@, info) by {
                    if info_holds(data@, info) {
                        lemma_same_tables(data@, info.tables@, tables@);
                        assert(info.tables@[0].offset == tables@[0].offset);
                        assert(info.tables@[1].offset == tables@[1].offset);
                        assert(info.tables@[2].offset == tables@[2].offset);
                        assert(info.tables@[3].offset == tables@[3].offset);
                        assert(info.tables@[4].offset == tables@[4].offset);
                        assert(info.tables@[5].offset == tables@[5].offset);
                        assert(info.tables@[6].offset == tables@[6].offset);
                    }
                }
            }
            return Cr2wParse::NotCooked;
        },
    };
    let imports_table = match read_table::<CR2WImportInfo>(data, tables[2]) {
        Some(t) => t,
        None => {
            proof {
                assert forall|info: CR2WFileInfo| !info_holds(data@, info) by {
                    if info_holds(data@, info) {
                        lemma_same_tables(data@, info.tables@, tables@);
                        assert(info.tables@[0].offset == tables@[0].offset);
                        assert(info.tables@[1].offset == tables@[1].offset);
                        assert(info.tables@[2].offset == tables@[2].offset);
                        assert(info.tables@[3].offset == tables@[3].offset);
                        assert(info.tables@[4].offset == tables@[4].offset);
                        assert(info.tables@[5].offset == tables@[5].offset);
                        assert(info.tables@[6].offset == tables@[6].offset);
                    }
                }
            }
            return Cr2wParse::NotCooked;
        },
    };
    let properties_table = match read_table::<CR2WPropertyInfo>(data, tables[3]) {
        Some(t) => t,
        None => {
            proof {
                assert forall|info: CR2WFileInfo| !info_holds(data@, info) by {
                    if info_holds(data@, info) {
                        lemma_same_tables(data@, info.tables@, tables@);
                        assert(info.tables@[0].offset == tables@[0].offset);
                        assert(info.tables@[1].offset == tables@[1].offset);
                        assert(info.tables@[2].offset == tables@[2].offset);
                        assert(info.tables@[3].offset == tables@[3].offset);
                        assert(info.tables@[4].offset == tables@[4].offset);
                        assert(info.tables@[5].offset == tables@[5].offset);
                        assert(info.tables@[6].offset == tables@[6].offset);
                    }
                }
            }
            return Cr2wParse::NotCooked;
        },
    };
    let exports_table = match read_table::<CR2WExportInfo>(data, tables[4]) {
        Some(t) => t,
        None => {
            proof {
                assert forall|info: CR2WFileInfo| !info_holds(data@, info) by {
                    if info_holds(data@, info) {
                        lemma_same_tables(data@, info.tables@, tables@);
                        assert(info.tables@[0].offset == tables@[0].offset);
                        assert(info.tables@[1].offset == tables@[1].offset);
                        assert(info.tables@[2].offset == tables@[2].offset);
                        assert(info.tables@[3].offset == tables@[3].offset);
                        assert(info.tables@[4].offset == tables@[4].offset);
                        assert(info.tables@[5].offset == tables@[5].offset);
                        assert(info.tables@[6].offset == tables@[6].offset);
                    }
                }
            }
            return Cr2wParse::NotCooked;
        },
    };
    let buffers_table = match read_table::<CR2WBufferInfo>(data, tables[5]) {
        Some(t) => t,
        None => {
            proof {
                assert forall|info: CR2WFileInfo| !info_holds(data@, info) by {
                    if info_holds(data@, info) {
                        lemma_same_tables(data@, info.tables@, tables@);
                        assert(info.tables@[0].offset == tables@[0].offset);
                        assert(info.tables@[1].offset == tables@[1].offset);
                        assert(info.tables@[2].offset == tables@[2].offset);
                        assert(info.tables@[3].offset == tables@[3].offset);
                        assert(info.tables@[4].offset == tables@[4].offset);
                        assert(info.tables@[5].offset == tables@[5].offset);
                        assert(info.tables@[6].offset == tables@[6].offset);
                    }
                }
            }
            return Cr2wParse::NotCooked;
        },
    };
    let embeds_table = match read_table::<CR2WEmbeddedInfo>(data, tables[6]) {
        Some(t) => t,
        None => {
            proof {
                assert forall|info: CR2WFileInfo| !info_holds(data@, info) by {
                    if info_holds(data@, info) {
                        lemma_same_tables(data@, info.tables@, tables@);
                        assert(info.tables@[0].offset == tables@[0].offset);
                        assert(info.tables@[1].offset == tables@[1].offset);
                        assert(info.tables@[2].offset == tables@[2].offset);
                        assert(info.tables@[3].offset == tables@[3].offset);
                        assert(info.tables@[4].offset == tables@[4].offset);
                        assert(info.tables@[5].offset == tables@[5].offset);
                        assert(info.tables@[6].offset == tables@[6].offset);
                    }
                }
            }
            return Cr2wParse::NotCooked;
        },
    };
    let mut names: Vec<String> = Vec::new();
    let mut i: usize = 0;
    while i < names_table.len()
        invariant
            data@.len() >= 160,
            table_holds(data@, 40, 10, tables@),
            table_holds(
                data@,
                tables@[1].offset as int,
                tables@[1].item_count as int,
                names_table@,
            ),
            table_strings(data@, tables@[0]) == Some(strings_view(strings@)),
            i <= names_table@.len(),
            names@.len() == i,
            forall|j: int|
                0 <= j < i ==> has_string(strings@, names_table@[j].offset, (#[trigger] names@[j])@),
        decreases names_table@.len() - i,
    {
        match find_string(&strings, names_table[i].offset) {
            Some(s) => {
                let ghost old_names = names@;
                names.push(s);
                assert forall|j: int| 0 <= j < i + 1 implies has_string(
                    strings@,
                    names_table@[j].offset,
                    (#[trigger] names@[j])@,
                ) by {
                    if j < i {
                        assert(names@[j] == old_names[j]);
                    }
                }
            },
            None => {
                proof {
                    lemma_name_missing(data@, tables@, names_table@, strings@, i as int);
                }
                return Cr2wParse::NotCooked;
            },
        }
        i = i + 1;
    }
    let mut imports: Vec<Import> = Vec::new();
    let mut i: usize = 0;
    while i < imports_table.len()
        invariant
            data@.len() >= 160,
            table_holds(data@, 40, 10, tables@),
            table_holds(
                data@,
                tables@[1].offset as int,
                tables@[1].item_count as int,
                names_table@,
            ),
            table_holds(
                data@,
                tables@[2].offset as int,
                tables@[2].item_count as int,
                imports_table@,
            ),
            table_strings(data@, tables@[0]) == Some(strings_view(strings@)),
            i <= imports_table@.len(),
            imports@.len() == i,
            names@.len() == names_table@.len(),
            forall|j: int|
                0 <= j < names@.len() ==> has_string(
                    strings@,
                    names_table@[j].offset,
                    (#[trigger] names@[j])@,
                ),
            forall|j: int|
                0 <= j < i ==> import_holds(
                    strings@,
                    names@,
                    imports_table@[j],
                    #[trigger] imports@[j],
                ),
        decreases imports_table@.len() - i,
    {
        let m = imports_table[i];
        if m.class_name as usize >= names.len() {
            proof {
                lemma_import_missing(data@, tables@, names_table@, imports_table@, strings@, i as int);
            }
            return Cr2wParse::NotCooked;
        }
        let depot_path = match find_string(&strings, m.offset) {
            Some(s) => s,
            None => {
                proof {
                    lemma_import_missing(data@, tables@, names_table@, imports_table@, strings@, i as int);
                }
                return Cr2wParse::NotCooked;
            },
        };
        let class_name = names[m.class_name as usize].clone();
        let ghost old_imports = imports@;
        let imp = Import { class_name, depot_path, flags: m.flags };
        assert(import_holds(strings@, names@, m, imp));
        imports.push(imp);
        assert forall|j: int| 0 <= j < i + 1 implies import_holds(
            strings@,
            names@,
            imports_table@[j],
            #[trigger] imports@[j],
        ) by {
            if j < i {
                assert(imports@[j] == old_imports[j]);
            }
        }
        i = i + 1;
    }
    let info = CR2WFileInfo {
        header,
        tables,
        names_table,
        imports_table,
        properties_table,
        exports_table,
        buffers_table,
        embeds_table,
        strings,
        names,
        imports,
    };
    Cr2wParse::Cooked(info)
}

} // verus!
