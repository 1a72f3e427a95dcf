//! Packing a set of resource files into an archive: choosing the files, ordering them by the
//! hash of their path, splitting cooked resources into their regions, and laying out
//! payloads, footer, index and header.
use std::collections::HashMap;

use vstd::prelude::*;
use vstd::utf8::encode_utf8;

use crate::cr2w::{info_holds, read_cr2w_header, CR2WBufferInfo, Cr2wParse, CR2W_MAGIC};
use crate::error::ArchiveError;
use crate::extensions::{
    aligned_extension_names, is_aligned_extension, is_packable_extension,
    is_uncompressed_extension, names_contain, resource_extension_names,
    uncompressed_extension_names,
};
use crate::hashing::{fnv1a64_hash_bytes, fnv1a64_of};
use crate::io::{
    lossy_text_of, spec_u32_le, text_from_bytes, u32_le_bytes, u64_le_bytes, write_u32, write_u64,
    FromReader,
};
use crate::hashing::{crc64_of, crc64_of_table};
use crate::lxrs::{footer_bytes, LxrsFooter};
use crate::records::Header;
use crate::kraken::{compress, needs_codec, MAGIC};
use crate::records::{FileEntry, FileSegment};
use crate::hashing::{sha1_hash_file, sha1_of};
use crate::lxrs::texts;

verus! {

broadcast use vstd::std_specs::hash::group_hash_axioms;

/// The host's separator in place of each forward slash.
pub open spec fn normalized(p: Seq<u8>) -> Seq<u8> {
    p.map_values(|b: u8| if b == 47 { 92u8 } else { b })
}

/// A byte in ASCII lower case.
pub open spec fn ascii_lower(b: u8) -> u8 {
    if 65 <= b <= 90 {
        (b + 32) as u8
    } else {
        b
    }
}

/// The start of the last path component: just past the last separator at or before `i`.
pub open spec fn name_start(p: Seq<u8>, i: int) -> int
    decreases i + 1,
{
    if i < 0 {
        0
    } else if p[i] == 47 || p[i] == 92 {
        i + 1
    } else {
        name_start(p, i - 1)
    }
}

/// The last dot at or before `i` and at or after `lo`, or `lo - 1` when there is none.
pub open spec fn last_dot(p: Seq<u8>, lo: int, i: int) -> int
    decreases i - lo + 1,
{
    if i < lo {
        lo - 1
    } else if p[i] == 46 {
        i
    } else {
        last_dot(p, lo, i - 1)
    }
}

/// The extension of the file that path `p` names, in lower case and without the dot: what
/// follows the last dot of the last component, when that dot is not its first byte.
pub open spec fn spec_extension(p: Seq<u8>) -> Option<Seq<u8>> {
    let s = name_start(p, p.len() - 1);
    let d = last_dot(p, s, p.len() - 1);
    if d > s {
        Some(p.subrange(d + 1, p.len() as int).map_values(|b: u8| ascii_lower(b)))
    } else {
        None
    }
}

proof fn lemma_name_start_bounds(p: Seq<u8>, i: int)
    requires
        i < p.len(),
    ensures
        0 <= name_start(p, i) <= i + 1 || i < 0,
    decreases i + 1,
{
    if i >= 0 && !(p[i] == 47 || p[i] == 92) {
        lemma_name_start_bounds(p, i - 1);
    }
}

proof fn lemma_last_dot_bounds(p: Seq<u8>, lo: int, i: int)
    requires
        i < p.len(),
        0 <= lo,
    ensures
        lo - 1 <= last_dot(p, lo, i) <= i || i < lo,
        last_dot(p, lo, i) >= lo ==> p[last_dot(p, lo, i)] == 46,
    decreases i - lo + 1,
{
    if i >= lo && p[i] != 46 {
        lemma_last_dot_bounds(p, lo, i - 1);
    }
}

/// The path with each forward slash turned into a backslash.
pub fn normalize_path(path: &[u8]) -> (r: Vec<u8>)
    ensures
        r@ == normalized(path@),
{
    let mut r: Vec<u8> = Vec::new();
    let mut i: usize = 0;
    while i < path.len()
        invariant
            i <= path@.len(),
            r@ == normalized(path@.take(i as int)),
        decreases path@.len() - i,
    {
        let b = path[i];
        r.push(if b == 47 { 92u8 } else { b });
        assert(normalized(path@.take(i + 1)) =~= normalized(path@.take(i as int)).push(
            if b == 47 { 92u8 } else { b },
        ));
        i = i + 1;
    }
    assert(path@.take(i as int) =~= path@);
    r
}

/// The extension of the file that `path` names, in lower case and without the dot.
pub fn file_extension(path: &[u8]) -> (r: Option<Vec<u8>>)
    ensures
        match spec_extension(path@) {
            Some(e) => r matches Some(v) && v@ == e,
            None => r is None,
        },
{
    let len = path.len();
    let mut s: usize = len;
    while s > 0 && path[s - 1] != 47 && path[s - 1] != 92
        invariant
            s <= len,
            len == path@.len(),
            name_start(path@, len - 1) == name_start(path@, s - 1),
        decreases s,
    {
        s = s - 1;
    }
    assert(name_start(path@, len - 1) == s) by {
        if s > 0 {
            assert(name_start(path@, s - 1) == s);
        } else {
            assert(name_start(path@, -1) == 0);
        }
    }
    let mut d: usize = len;
    while d > s && path[d - 1] != 46
        invariant
            s <= d <= len,
            len == path@.len(),
            last_dot(path@, s as int, len - 1) == last_dot(path@, s as int, d - 1),
        decreases d,
    {
        d = d - 1;
    }
    proof {
        if d > s {
            assert(last_dot(path@, s as int, d - 1) == d - 1);
        } else {
            assert(last_dot(path@, s as int, s - 1) == s - 1);
        }
    }
    if d == s || d - 1 == s {
        return None;
    }
    let mut e: Vec<u8> = Vec::new();
    let mut i: usize = d;
    while i < len
        invariant
            d <= i <= len,
            len == path@.len(),
            e@ == path@.subrange(d as int, i as int).map_values(|b: u8| ascii_lower(b)),
        decreases len - i,
    {
        let b = path[i];
        e.push(if 65 <= b && b <= 90 { b + 32 } else { b });
        assert(e@ =~= path@.subrange(d as int, i + 1).map_values(|b: u8| ascii_lower(b)));
        i = i + 1;
    }
    Some(e)
}

/// Whether the file at `path` takes part in packing: its extension is a known resource kind
/// or `bin`.
pub open spec fn packable(path: Seq<u8>) -> bool {
    match spec_extension(path) {
        Some(e) => names_contain(resource_extension_names(), e) || e == seq![98u8, 105u8, 110u8],
        None => false,
    }
}

/// The extension of `path` with its dot.
pub open spec fn dot_extension(path: Seq<u8>) -> Seq<u8> {
    seq![46u8] + spec_extension(path).unwrap()
}

/// The total size on disk of the sub-buffers.
pub open spec fn disk_total(bufs: Seq<CR2WBufferInfo>) -> nat
    decreases bufs.len(),
{
    if bufs.len() == 0 {
        0
    } else {
        disk_total(bufs.drop_last()) + bufs.last().disk_size as nat
    }
}

/// A file to pack: its path relative to the packed directory, and its bytes.
#[derive(Debug, Clone)]
pub struct SourceFile {
    pub path: String,
    pub data: Vec<u8>,
}

/// How a file is placed in the archive.
#[derive(Debug, Clone)]
pub enum Placement {
    /// A cooked resource: its main object region, through the codec when it is long enough,
    /// then each sub-buffer as it is.
    Cooked { objects_end: u32, buffers: Vec<CR2WBufferInfo> },
    /// Any other file: placed at a page boundary when `aligned`, and written as it is when
    /// `stored`, else compressed.
    Raw { aligned: bool, stored: bool },
}

/// Whether placement `p` is the one for a file with bytes `data` at `path`.
pub open spec fn placement_holds(path: Seq<u8>, data: Seq<u8>, p: Placement) -> bool {
    &&& (data.len() < 160 || spec_u32_le(data) != CR2W_MAGIC) ==> p is Raw
    &&& (exists|info: crate::cr2w::CR2WFileInfo| info_holds(data, info)) ==> p is Cooked
    &&& match p {
        Placement::Cooked { objects_end, buffers } => {
            &&& exists|info: crate::cr2w::CR2WFileInfo|
                info_holds(data, info) && info.header.objects_end == objects_end
                    && info.buffers_table@ == buffers@
            &&& objects_end + disk_total(buffers@) <= data.len()
        },
        Placement::Raw { aligned, stored } => {
            &&& aligned == names_contain(aligned_extension_names(), dot_extension(path))
            &&& stored == names_contain(uncompressed_extension_names(), dot_extension(path))
        },
    }
}

/// Whether a cooked resource's regions fit in its `data.len()` bytes.
fn regions_fit(objects_end: u32, buffers: &Vec<CR2WBufferInfo>, len: usize) -> (r: bool)
    ensures
        r == (objects_end + disk_total(buffers@) <= len),
{
    if objects_end as u64 > len as u64 {
        proof {
            lemma_disk_total_grows(buffers@, 0);
        }
        return false;
    }
    let mut total: u64 = objects_end as u64;
    let mut i: usize = 0;
    while i < buffers.len()
        invariant
            i <= buffers@.len(),
            total == objects_end + disk_total(buffers@.take(i as int)),
            total <= len,
        decreases buffers@.len() - i,
    {
        assert(buffers@.take(i + 1).drop_last() =~= buffers@.take(i as int));
        if buffers[i].disk_size as u64 > len as u64 - total {
            proof {
                lemma_disk_total_grows(buffers@, i + 1);
            }
            return false;
        }
        total = total + buffers[i].disk_size as u64;
        i = i + 1;
    }
    assert(buffers@.take(i as int) =~= buffers@);
    true
}

/// The sub-buffers before position `i` take up the room of those before `i - 1` and one more.
pub proof fn lemma_disk_total_step(bufs: Seq<CR2WBufferInfo>, i: int)
    requires
        0 < i <= bufs.len(),
    ensures
        disk_total(bufs.take(i)) == disk_total(bufs.take(i - 1)) + bufs[i - 1].disk_size,
{
    assert(bufs.take(i).drop_last() =~= bufs.take(i - 1));
}

/// The sub-buffers before position `i` take up no more room than all of them.
pub proof fn lemma_disk_total_grows(bufs: Seq<CR2WBufferInfo>, i: int)
    requires
        0 <= i <= bufs.len(),
    ensures
        disk_total(bufs.take(i)) <= disk_total(bufs),
    decreases bufs.len() - i,
{
    if i < bufs.len() {
        lemma_disk_total_grows(bufs, i + 1);
        assert(bufs.take(i + 1).drop_last() =~= bufs.take(i));
    } else {
        assert(bufs.take(i) =~= bufs);
    }
}

/// Whether `data` is a cooked resource whose regions run past its end.
pub open spec fn cooked_overrun(data: Seq<u8>) -> bool {
    exists|info: crate::cr2w::CR2WFileInfo|
        info_holds(data, info) && info.header.objects_end + disk_total(info.buffers_table@)
            > data.len()
}

/// Decides how the file at `path` with bytes `data` is placed. A cooked resource whose
/// regions run past the end of the file is `InvalidData`.
pub fn classify(path: &[u8], data: &Vec<u8>) -> (r: Result<Placement, ArchiveError>)
    requires
        spec_extension(path@) is Some,
    ensures
        r matches Ok(p) ==> placement_holds(path@, data@, p),
        r is Err ==> r == Err::<Placement, ArchiveError>(ArchiveError::InvalidData) && cooked_overrun(
            data@,
        ),
{
    match read_cr2w_header(data.as_slice()) {
        Cr2wParse::Cooked(info) => {
            let objects_end = info.header.objects_end;
            let buffers = info.buffers_table.clone();
            assert(buffers@ == info.buffers_table@);
            if !regions_fit(objects_end, &buffers, data.len()) {
                assert(info_holds(data@, info));
                return Err(ArchiveError::InvalidData);
            }
            Ok(Placement::Cooked { objects_end, buffers })
        },
        Cr2wParse::NotCooked => {
            let ext = file_extension(path).unwrap();
            let mut dot: Vec<u8> = Vec::new();
            dot.push(46u8);
            let mut i: usize = 0;
            while i < ext.len()
                invariant
                    i <= ext@.len(),
                    dot@ == seq![46u8] + ext@.take(i as int),
                decreases ext@.len() - i,
            {
                dot.push(ext[i]);
                assert(ext@.take(i + 1) =~= ext@.take(i as int).push(ext@[i as int]));
                i = i + 1;
            }
            assert(ext@.take(i as int) =~= ext@);
            let aligned = is_aligned_extension(dot.as_slice());
            let stored = is_uncompressed_extension(dot.as_slice());
            Ok(Placement::Raw { aligned, stored })
        },
    }
}

/// The positions `0..hashes.len()` ordered by ascending hash: each position once, and the
/// hashes along it in ascending order.
pub fn hash_order(hashes: &Vec<u64>) -> (r: Vec<usize>)
    ensures
        r@.len() == hashes@.len(),
        forall|a: int| 0 <= a < r@.len() ==> r@[a] < hashes@.len(),
        forall|a: int, b: int| 0 <= a < b < r@.len() ==> r@[a] != r@[b],
        forall|a: int, b: int|
            0 <= a < b < r@.len() ==> hashes@[r@[a] as int] <= hashes@[r@[b] as int],
{
    let mut order: Vec<usize> = Vec::new();
    let mut i: usize = 0;
    while i < hashes.len()
        invariant
            i <= hashes@.len(),
            order@.len() == i,
            forall|a: int| 0 <= a < order@.len() ==> order@[a] < i,
            forall|a: int, b: int| 0 <= a < b < order@.len() ==> order@[a] != order@[b],
            forall|a: int, b: int|
                0 <= a < b < order@.len() ==> hashes@[order@[a] as int] <= hashes@[order@[b] as int],
        decreases hashes@.len() - i,
    {
        let h = hashes[i];
        let mut p: usize = order.len();
        while p > 0 && hashes[order[p - 1]] > h
            invariant
                p <= order@.len(),
                forall|a: int| 0 <= a < order@.len() ==> order@[a] < i,
                i < hashes@.len(),
                forall|a: int| p <= a < order@.len() ==> hashes@[order@[a] as int] > h,
            decreases p,
        {
            p = p - 1;
        }
        let ghost old_order = order@;
        order.insert(p, i);
        proof {
            assert(p == 0 || hashes@[old_order[p - 1] as int] <= h);
            assert forall|a: int, b: int| 0 <= a < b < order@.len() implies hashes@[order@[a] as int]
                <= hashes@[order@[b] as int] by {
                if a < p && b < p {
                    assert(order@[a] == old_order[a] && order@[b] == old_order[b]);
                } else if a < p && b == p {
                    assert(order@[a] == old_order[a]);
                    if a < p - 1 {
                        assert(hashes@[old_order[a] as int] <= hashes@[old_order[p - 1] as int]);
                    }
                } else if a < p && b > p {
                    assert(order@[a] == old_order[a] && order@[b] == old_order[b - 1]);
                } else if a == p {
                    assert(order@[b] == old_order[b - 1]);
                } else {
                    assert(order@[a] == old_order[a - 1] && order@[b] == old_order[b - 1]);
                }
            }
            assert forall|a: int, b: int| 0 <= a < b < order@.len() implies order@[a]
                != order@[b] by {
                if a < p && b < p {
                } else if a < p && b == p {
                } else if a < p && b > p {
                    assert(order@[b] == old_order[b - 1]);
                } else if a == p {
                    assert(order@[b] == old_order[b - 1]);
                } else {
                    assert(order@[a] == old_order[a - 1] && order@[b] == old_order[b - 1]);
                }
            }
            assert forall|a: int| 0 <= a < order@.len() implies order@[a] < i + 1 by {
                if a < p {
                } else if a > p {
                    assert(order@[a] == old_order[a - 1]);
                }
            }
        }
        i = i + 1;
    }
    order
}

/// The bytes of a source file's relative path.
pub open spec fn path_bytes(f: SourceFile) -> Seq<u8> {
    encode_utf8(f.path@)
}

/// How many of the files take part in packing.
pub open spec fn count_packable(files: Seq<SourceFile>) -> nat
    decreases files.len(),
{
    if files.len() == 0 {
        0
    } else {
        count_packable(files.drop_last()) + if packable(path_bytes(files.last())) {
            1nat
        } else {
            0nat
        }
    }
}

/// A file ready to be packed: its path in the host's form, the hash of that path, its bytes
/// and its placement.
#[derive(Debug, Clone)]
pub struct PackItem {
    pub path: Vec<u8>,
    pub hash: u64,
    pub data: Vec<u8>,
    pub placement: Placement,
}

/// Whether `item` is the one prepared from source file `f`.
pub open spec fn item_from(f: SourceFile, item: PackItem) -> bool {
    &&& item.path@ == normalized(path_bytes(f))
    &&& item.hash == fnv1a64_of(item.path@)
    &&& item.data@ == f.data@
    &&& placement_holds(path_bytes(f), f.data@, item.placement)
}

/// The paths of the footer: those of the items whose hash the dictionary knows, in order.
pub open spec fn custom_list(items: Seq<PackItem>, dict: Map<u64, String>) -> Seq<Seq<char>>
    decreases items.len(),
{
    if items.len() == 0 {
        seq![]
    } else {
        custom_list(items.drop_last(), dict) + if dict.contains_key(items.last().hash) {
            seq![lossy_text_of(items.last().path@)]
        } else {
            Seq::<Seq<char>>::empty()
        }
    }
}

/// What goes into an archive, in the order it goes in.
#[derive(Debug, Clone)]
pub struct PackPlan {
    /// The files to pack, by ascending hash.
    pub items: Vec<PackItem>,
    /// For each item, the index of its source file.
    pub sources: Vec<usize>,
    /// The paths that the footer lists.
    pub custom_paths: Vec<String>,
}

/// Whether `plan` packs exactly the packable `files`, each once, by ascending hash, with
/// the footer paths that `dict` calls for.
pub open spec fn plan_holds(files: Seq<SourceFile>, dict: Map<u64, String>, plan: PackPlan) -> bool {
    let items = plan.items@;
    let sources = plan.sources@;
    &&& items.len() == sources.len()
    &&& items.len() == count_packable(files)
    &&& forall|k: int|
        0 <= k < sources.len() ==> (#[trigger] sources[k]) < files.len() && packable(
            path_bytes(files[sources[k] as int]),
        ) && item_from(files[sources[k] as int], items[k])
    &&& forall|a: int, b: int| 0 <= a < b < sources.len() ==> sources[a] != sources[b]
    &&& forall|a: int, b: int| 0 <= a < b < items.len() ==> items[a].hash <= items[b].hash
    &&& texts(plan.custom_paths@) == custom_list(items, dict)
}

/// Whether the selection `(cand, hashes, norms)` lists, in file order, the packable files
/// among the first `n` of `files`, with the host form of each path and its hash.
pub open spec fn selection_holds(
    files: Seq<SourceFile>,
    n: int,
    cand: Seq<usize>,
    hashes: Seq<u64>,
    norms: Seq<Vec<u8>>,
) -> bool {
    &&& cand.len() == hashes.len()
    &&& cand.len() == norms.len()
    &&& cand.len() == count_packable(files.take(n))
    &&& forall|a: int, b: int| 0 <= a < b < cand.len() ==> cand[a] < cand[b]
    &&& forall|k: int|
        0 <= k < cand.len() ==> {
            &&& (#[trigger] cand[k]) < n
            &&& packable(path_bytes(files[cand[k] as int]))
            &&& norms[k]@ == normalized(path_bytes(files[cand[k] as int]))
            &&& hashes[k] == fnv1a64_of(norms[k]@)
        }
}

/// The packable files, in file order: their indices, the hashes of their paths in the host's
/// form, and those paths.
fn select_files(files: &Vec<SourceFile>) -> (r: (Vec<usize>, Vec<u64>, Vec<Vec<u8>>))
    ensures
        selection_holds(files@, files@.len() as int, r.0@, r.1@, r.2@),
{
    let mut cand: Vec<usize> = Vec::new();
    let mut hashes: Vec<u64> = Vec::new();
    let mut norms: Vec<Vec<u8>> = Vec::new();
    let mut i: usize = 0;
    while i < files.len()
        invariant
            i <= files@.len(),
            selection_holds(files@, i as int, cand@, hashes@, norms@),
        decreases files@.len() - i,
    {
        let bytes = files[i].path.as_str().as_bytes();
        assert(files@.take(i + 1).drop_last() =~= files@.take(i as int));
        assert(files@.take(i + 1).last() == files@[i as int]);
        let keep = match file_extension(bytes) {
            Some(e) => is_packable_extension(e.as_slice()),
            None => false,
        };
        assert(keep == packable(path_bytes(files@[i as int])));
        if keep {
            let norm = normalize_path(bytes);
            let h = fnv1a64_hash_bytes(norm.as_slice());
            let ghost c0 = cand@;
            let ghost h0 = hashes@;
            let ghost n0 = norms@;
            cand.push(i);
            hashes.push(h);
            norms.push(norm);
            assert forall|k: int| 0 <= k < cand@.len() implies {
                &&& (#[trigger] cand@[k]) < i + 1
                &&& packable(path_bytes(files@[cand@[k] as int]))
                &&& norms@[k]@ == normalized(path_bytes(files@[cand@[k] as int]))
                &&& hashes@[k] == fnv1a64_of(norms@[k]@)
            } by {
                if k < c0.len() {
                    assert(cand@[k] == c0[k] && hashes@[k] == h0[k] && norms@[k] == n0[k]);
                }
            }
            assert forall|a: int, b: int| 0 <= a < b < cand@.len() implies cand@[a] < cand@[b] by {
                if b < c0.len() {
                    assert(cand@[a] == c0[a] && cand@[b] == c0[b]);
                } else {
                    assert(cand@[a] == c0[a]);
                }
            }
        }
        i = i + 1;
    }
    assert(files@.take(i as int) =~= files@);
    (cand, hashes, norms)
}

/// The footer paths for `items`: those whose hash `hash_map` knows, in order.
fn custom_paths_of(items: &Vec<PackItem>, hash_map: &HashMap<u64, String>) -> (r: Vec<String>)
    ensures
        texts(r@) == custom_list(items@, hash_map@),
{
    let mut custom_paths: Vec<String> = Vec::new();
    let mut k: usize = 0;
    while k < items.len()
        invariant
            k <= items@.len(),
            texts(custom_paths@) == custom_list(items@.take(k as int), hash_map@),
        decreases items@.len() - k,
    {
        assert(items@.take(k + 1).drop_last() =~= items@.take(k as int));
        if hash_map.contains_key(&items[k].hash) {
            let name = text_from_bytes(items[k].path.as_slice());
            let ghost old_custom = custom_paths@;
            custom_paths.push(name);
            assert(texts(custom_paths@) =~= texts(old_custom).push(name@));
        } else {
            assert(custom_list(items@.take(k + 1), hash_map@) =~= custom_list(
                items@.take(k as int),
                hash_map@,
            ));
        }
        k = k + 1;
    }
    assert(items@.take(k as int) =~= items@);
    custom_paths
}

/// Chooses the files to pack, hashes their paths in the host's form, orders them by hash,
/// decides each one's placement, and lists the footer paths: those whose hash `hash_map`
/// knows. A cooked resource whose regions run past its end is `InvalidData`.
pub fn plan_pack(files: &Vec<SourceFile>, hash_map: &HashMap<u64, String>) -> (r: Result<
    PackPlan,
    ArchiveError,
>)
    ensures
        r matches Ok(plan) ==> plan_holds(files@, hash_map@, plan),
        r is Err ==> r == Err::<PackPlan, ArchiveError>(ArchiveError::InvalidData),
        r is Err ==> exists|k: int|
            0 <= k < files@.len() && packable(path_bytes(#[trigger] files@[k])) && cooked_overrun(
                files@[k].data@,
            ),
{
    let (cand, hashes, norms) = select_files(files);
    let order = hash_order(&hashes);
    let mut items: Vec<PackItem> = Vec::new();
    let mut sources: Vec<usize> = Vec::new();
    let mut k: usize = 0;
    while k < order.len()
        invariant
            k <= order@.len(),
            order@.len() == hashes@.len(),
            selection_holds(files@, files@.len() as int, cand@, hashes@, norms@),
            forall|a: int| 0 <= a < order@.len() ==> order@[a] < hashes@.len(),
            forall|a: int, b: int| 0 <= a < b < order@.len() ==> order@[a] != order@[b],
            forall|a: int, b: int|
                0 <= a < b < order@.len() ==> hashes@[order@[a] as int] <= hashes@[order@[b] as int],
            items@.len() == k,
            sources@.len() == k,
            forall|a: int|
                0 <= a < k ==> sources@[a] == cand@[order@[a] as int] && (#[trigger] items@[a]).hash
                    == hashes@[order@[a] as int] && item_from(files@[sources@[a] as int], items@[a]),
        decreases order@.len() - k,
    {
        let j = order[k];
        let src = cand[j];
        let f = &files[src];
        let bytes = f.path.as_str().as_bytes();
        let placement = match classify(bytes, &f.data) {
            Ok(p) => p,
            Err(e) => {
                assert(packable(path_bytes(files@[src as int])) && cooked_overrun(files@[src as int].data@));
                return Err(e);
            },
        };
        let item = PackItem { path: norms[j].clone(), hash: hashes[j], data: f.data.clone(), placement };
        assert(item_from(files@[src as int], item));
        let ghost old_items = items@;
        let ghost old_sources = sources@;
        items.push(item);
        sources.push(src);
        assert forall|a: int| 0 <= a < k + 1 implies sources@[a] == cand@[order@[a] as int]
            && (#[trigger] items@[a]).hash == hashes@[order@[a] as int] && item_from(
            files@[sources@[a] as int],
            items@[a],
        ) by {
            if a < k {
                assert(items@[a] == old_items[a] && sources@[a] == old_sources[a]);
            }
        }
        k = k + 1;
    }
    assert forall|a: int, b: int| 0 <= a < b < sources@.len() implies sources@[a] != sources@[b] by {
        assert(items@[a].hash == hashes@[order@[a] as int]);
        assert(items@[b].hash == hashes@[order@[b] as int]);
        let x = order@[a] as int;
        let y = order@[b] as int;
        assert(x != y);
        if x < y {
            assert(cand@[x] < cand@[y]);
        } else {
            assert(cand@[y] < cand@[x]);
        }
    }
    assert forall|a: int, b: int| 0 <= a < b < items@.len() implies items@[a].hash
        <= items@[b].hash by {
        assert(items@[a].hash == hashes@[order@[a] as int]);
        assert(items@[b].hash == hashes@[order@[b] as int]);
    }
    assert forall|a: int| 0 <= a < sources@.len() implies (#[trigger] sources@[a]) < files@.len()
        && packable(path_bytes(files@[sources@[a] as int])) && item_from(
        files@[sources@[a] as int],
        items@[a],
    ) by {
        assert(items@[a].hash == hashes@[order@[a] as int]);
        let x = order@[a] as int;
        assert(cand@[x] < files@.len());
    }
    assert(files@.take(files@.len() as int) =~= files@);
    let custom_paths = custom_paths_of(&items, hash_map);
    Ok(PackPlan { items, sources, custom_paths })
}

/// The bytes that a codec output holds, when there is one.
pub open spec fn opt_view(o: Option<Vec<u8>>) -> Option<Seq<u8>> {
    match o {
        Some(v) => Some(v@),
        None => None,
    }
}

/// The bytes of an item that form its main segment: the object region of a cooked resource,
/// the whole file otherwise.
pub open spec fn main_region(item: PackItem) -> Seq<u8> {
    match item.placement {
        Placement::Cooked { objects_end, .. } => item.data@.take(objects_end as int),
        Placement::Raw { .. } => item.data@,
    }
}

/// The sub-buffer records of an item (none for a file that is not cooked).
pub open spec fn item_buffers(item: PackItem) -> Seq<CR2WBufferInfo> {
    match item.placement {
        Placement::Cooked { buffers, .. } => buffers@,
        Placement::Raw { .. } => seq![],
    }
}

/// Whether the main region of an item goes through the codec: it is 256 bytes or more, and
/// the item is a cooked resource or a file of a compressed kind.
pub open spec fn goes_to_codec(item: PackItem) -> bool {
    &&& main_region(item).len() >= 256
    &&& match item.placement {
        Placement::Cooked { .. } => true,
        Placement::Raw { stored, .. } => !stored,
    }
}

/// The bytes of sub-buffer `k` of a cooked item: they follow the object region and the
/// sub-buffers before it.
pub open spec fn buffer_region(item: PackItem, k: int) -> Seq<u8> {
    let base = match item.placement {
        Placement::Cooked { objects_end, .. } => objects_end as int,
        Placement::Raw { .. } => 0,
    };
    let bufs = item_buffers(item);
    item.data@.subrange(
        base + disk_total(bufs.take(k)),
        base + disk_total(bufs.take(k + 1)),
    )
}

/// The bytes of a segment as they stand in `out`.
pub open spec fn bytes_of(out: Seq<u8>, seg: FileSegment) -> Seq<u8> {
    out.subrange(seg.offset as int, seg.offset + seg.z_size)
}

/// Whether the main segment of `item` is framed: it goes through the codec, and the codec's
/// output with the 8-byte frame header is not exactly as long as the region. (A frame of the
/// region's length would read back as a stored segment, so that one case is stored.)
pub open spec fn is_framed_main(item: PackItem, codec: Option<Seq<u8>>) -> bool {
    &&& goes_to_codec(item)
    &&& codec is Some
    &&& codec.unwrap().len() + 8 != main_region(item).len()
}

/// Whether `seg` is the main segment of `item` in `out`: framed with the `KARK` magic and the
/// decoded size in front of what the codec made of it, or else stored verbatim.
pub open spec fn main_segment_holds(
    out: Seq<u8>,
    item: PackItem,
    codec: Option<Seq<u8>>,
    seg: FileSegment,
) -> bool {
    let m = main_region(item);
    &&& seg.size == m.len()
    &&& seg.offset + seg.z_size <= out.len()
    &&& if is_framed_main(item, codec) {
        &&& codec.unwrap().len() <= m.len()
        &&& seg.z_size == codec.unwrap().len() + 8
        &&& out.subrange(seg.offset as int, seg.offset + 4) == u32_le_bytes(MAGIC)
        &&& out.subrange(seg.offset + 4, seg.offset + 8) == u32_le_bytes(m.len() as u32)
        &&& out.subrange(seg.offset + 8, seg.offset + seg.z_size) == codec.unwrap()
    } else {
        &&& seg.z_size == m.len()
        &&& bytes_of(out, seg) == m
    }
    &&& (item.placement matches Placement::Raw { aligned, .. } && aligned) ==> seg.offset % 4096
        == 0
}

/// Whether `segs` begin the segments of `item` in `out`: its main segment, then one stored
/// segment for each of the first sub-buffers, all starting at or after `lo`.
pub open spec fn segments_partial(
    out: Seq<u8>,
    item: PackItem,
    codec: Option<Seq<u8>>,
    segs: Seq<FileSegment>,
    lo: int,
) -> bool {
    let bufs = item_buffers(item);
    &&& 1 <= segs.len() <= 1 + bufs.len()
    &&& main_segment_holds(out, item, codec, segs[0])
    &&& forall|k: int| 0 <= k < segs.len() ==> lo <= (#[trigger] segs[k]).offset
    &&& forall|k: int|
        0 <= k < segs.len() - 1 ==> {
            let g = #[trigger] segs[k + 1];
            &&& g.z_size == bufs[k].disk_size
            &&& g.size == bufs[k].mem_size
            &&& g.offset + g.z_size <= out.len()
            &&& bytes_of(out, g) == buffer_region(item, k)
        }
}

/// Whether `segs` are the segments of `item` in `out`: its main segment, then one stored
/// segment for each sub-buffer, all starting at or after `lo`.
pub open spec fn item_segments_hold(
    out: Seq<u8>,
    item: PackItem,
    codec: Option<Seq<u8>>,
    segs: Seq<FileSegment>,
    lo: int,
) -> bool {
    &&& segments_partial(out, item, codec, segs, lo)
    &&& segs.len() == 1 + item_buffers(item).len()
}

/// Whether `b` keeps the bytes of `a` from position `lo` on.
pub open spec fn keeps_from(a: Seq<u8>, b: Seq<u8>, lo: int) -> bool {
    &&& b.len() >= a.len()
    &&& forall|k: int| lo <= k < a.len() ==> a[k] == b[k]
}

proof fn lemma_range_kept(a: Seq<u8>, b: Seq<u8>, lo: int, i: int, j: int)
    requires
        keeps_from(a, b, lo),
        0 <= lo <= i <= j <= a.len(),
    ensures
        a.subrange(i, j) == b.subrange(i, j),
{
    assert(a.subrange(i, j) =~= b.subrange(i, j));
}

/// The segments of an item stay as they are when the bytes they lie on are kept.
pub proof fn lemma_item_segments_kept(
    a: Seq<u8>,
    b: Seq<u8>,
    item: PackItem,
    codec: Option<Seq<u8>>,
    segs: Seq<FileSegment>,
    lo: int,
)
    requires
        segments_partial(a, item, codec, segs, lo),
        keeps_from(a, b, lo),
        0 <= lo,
    ensures
        segments_partial(b, item, codec, segs, lo),
{
    let s = segs[0];
    assert(lo <= segs[0].offset);
    lemma_range_kept(a, b, lo, s.offset as int, s.offset + s.z_size);
    if is_framed_main(item, codec) {
        lemma_range_kept(a, b, lo, s.offset as int, s.offset + 4);
        lemma_range_kept(a, b, lo, s.offset + 4, s.offset + 8);
        lemma_range_kept(a, b, lo, s.offset + 8, s.offset + s.z_size);
    }
    let bufs = item_buffers(item);
    assert forall|k: int| 0 <= k < segs.len() - 1 implies {
        let g = #[trigger] segs[k + 1];
        &&& g.z_size == bufs[k].disk_size
        &&& g.size == bufs[k].mem_size
        &&& g.offset + g.z_size <= b.len()
        &&& bytes_of(b, g) == buffer_region(item, k)
    } by {
        let g = segs[k + 1];
        assert(lo <= segs[k + 1].offset);
        lemma_range_kept(a, b, lo, g.offset as int, g.offset + g.z_size);
    }
}

/// Appends `b` to `out`.
fn append(out: &mut Vec<u8>, b: &[u8])
    ensures
        final(out)@ == old(out)@ + b@,
{
    let mut i: usize = 0;
    while i < b.len()
        invariant
            i <= b@.len(),
            out@ == old(out)@ + b@.take(i as int),
        decreases b@.len() - i,
    {
        out.push(b[i]);
        assert(b@.take(i + 1) =~= b@.take(i as int).push(b@[i as int]));
        i = i + 1;
    }
    assert(b@.take(i as int) =~= b@);
}

/// The padding byte between aligned regions.
pub const PADDING: u8 = 0xD9;

/// The number of padding bytes that bring a length of `n` to the next multiple of 4096.
pub open spec fn pad_len(n: nat) -> nat {
    if n % 4096 == 0 {
        0
    } else {
        (4096 - n % 4096) as nat
    }
}

/// Pads `writer` with `0xD9` up to the next multiple of 4096; a length that is already a
/// multiple stays as it is.
pub fn pad_until_page(writer: &mut Vec<u8>)
    requires
        old(writer)@.len() + 4096 <= usize::MAX,
    ensures
        final(writer)@.len() % 4096 == 0,
        final(writer)@.len() == old(writer)@.len() + pad_len(old(writer)@.len()),
        final(writer)@ == old(writer)@ + Seq::new(pad_len(old(writer)@.len()), |i: int| 0xD9u8),
{
    let rem: usize = writer.len() % 4096;
    let diff: usize = if rem == 0 {
        0
    } else {
        4096 - rem
    };
    let mut i: usize = 0;
    while i < diff
        invariant
            i <= diff,
            diff == pad_len(old(writer)@.len()),
            writer@ == old(writer)@ + Seq::new(i as nat, |k: int| 0xD9u8),
        decreases diff - i,
    {
        writer.push(PADDING);
        assert(Seq::new((i + 1) as nat, |k: int| 0xD9u8) =~= Seq::new(i as nat, |k: int| 0xD9u8).push(
            0xD9u8,
        ));
        i = i + 1;
    }
}

/// The first `n` bytes of `data`.
fn take_prefix(data: &Vec<u8>, n: usize) -> (r: Vec<u8>)
    requires
        n <= data@.len(),
    ensures
        r@ == data@.take(n as int),
{
    let mut r: Vec<u8> = Vec::new();
    let mut i: usize = 0;
    while i < n
        invariant
            i <= n <= data@.len(),
            r@ == data@.take(i as int),
        decreases n - i,
    {
        r.push(data[i]);
        assert(data@.take(i + 1) =~= data@.take(i as int).push(data@[i as int]));
        i = i + 1;
    }
    r
}

/// Appends `data[from..from + n]` to `out`.
fn append_range(out: &mut Vec<u8>, data: &Vec<u8>, from: usize, n: usize)
    requires
        from + n <= data@.len(),
    ensures
        final(out)@ == old(out)@ + data@.subrange(from as int, from + n),
{
    let len = data.len();
    let mut i: usize = 0;
    while i < n
        invariant
            i <= n,
            len == data@.len(),
            from + n <= data@.len(),
            out@ == old(out)@ + data@.subrange(from as int, from + i),
        decreases n - i,
    {
        out.push(data[from + i]);
        assert(data@.subrange(from as int, from + i + 1) =~= data@.subrange(from as int, from + i).push(
            data@[from + i],
        ));
        i = i + 1;
    }
}

/// Whether `segs` lie one after the other from where `start` ended: the main segment at once,
/// or, for a page-aligned file, after `0xD9` padding up to the next page boundary; then each
/// sub-buffer right after the one before; and `out` ends with the last of them.
pub open spec fn item_placed(start: Seq<u8>, out: Seq<u8>, item: PackItem, segs: Seq<FileSegment>) -> bool {
    let g = segs[0];
    let aligned = item.placement matches Placement::Raw { aligned, .. } && aligned;
    let begin = if aligned {
        (start.len() + pad_len(start.len())) as int
    } else {
        start.len() as int
    };
    &&& g.offset == begin
    &&& out.subrange(start.len() as int, begin) == Seq::new(
        (begin - start.len()) as nat,
        |i: int| 0xD9u8,
    )
    &&& forall|k: int|
        0 <= k < segs.len() - 1 ==> (#[trigger] segs[k + 1]).offset == g.offset + g.z_size
            + disk_total(item_buffers(item).take(k))
    &&& out.len() == g.offset + g.z_size + disk_total(item_buffers(item).take(segs.len() - 1))
}

/// Whether `fe` is the index entry written for `item`, before its ranges are numbered.
pub open spec fn entry_for(fe: FileEntry, item: PackItem) -> bool {
    let n = item_buffers(item).len();
    &&& fe.name_hash_64 == item.hash
    &&& fe.timestamp == 0
    &&& fe.num_inline_buffer_segments == if n > 0 { (n - 1) as u32 } else { 0u32 }
    &&& fe.resource_dependencies_start == 0
    &&& fe.resource_dependencies_end == 0
    &&& fe.sha1_hash@ == sha1_of(item.data@)
}

/// Whether the placement of an item is consistent: a cooked resource's regions lie within
/// its bytes.
pub open spec fn item_fits(item: PackItem) -> bool {
    match item.placement {
        Placement::Cooked { objects_end, buffers } => objects_end + disk_total(buffers@)
            <= item.data@.len(),
        Placement::Raw { .. } => true,
    }
}

proof fn lemma_disk_total_take(bufs: Seq<CR2WBufferInfo>, k: int)
    requires
        0 <= k < bufs.len(),
    ensures
        disk_total(bufs.take(k + 1)) == disk_total(bufs.take(k)) + bufs[k].disk_size,
{
    assert(bufs.take(k + 1).drop_last() =~= bufs.take(k));
}

/// Writes one file's payload at the end of `out`: a page-aligned or plain main segment, framed
/// around the codec's output (`z_size` = output length + 8) whenever the region went through
/// the codec, then each sub-buffer of a cooked resource as it is. The one exception is an
/// output exactly 8 bytes shorter than the region: framed, it would have `z_size == size` and
/// read back as stored, so the region is stored instead.
/// Returns its index entry, with its ranges still to be numbered, and its segments. The
/// codec's output is required when the main region goes through the codec (else `Codec`) and
/// may not be longer than the region (else `Codec`); a main region that does not fit a
/// 32-bit size with its frame is `InvalidData`.
pub fn make_entry(out: &mut Vec<u8>, item: &PackItem, codec_output: Option<Vec<u8>>) -> (r: Result<
    (FileEntry, Vec<FileSegment>),
    ArchiveError,
>)
    requires
        item_fits(*item),
        item_buffers(*item).len() <= u32::MAX,
        old(out)@.len() + item.data@.len() + 8192 <= usize::MAX,
    ensures
        match r {
            Ok((fe, segs)) => {
                &&& entry_for(fe, *item)
                &&& item_segments_hold(
                    final(out)@,
                    *item,
                    opt_view(codec_output),
                    segs@,
                    old(out)@.len() as int,
                )
                &&& keeps_from(old(out)@, final(out)@, 0)
                &&& final(out)@.len() <= old(out)@.len() + item.data@.len() + 4096 + 8
                &&& item_placed(old(out)@, final(out)@, *item, segs@)
            },
            Err(e) => {
                ||| e == ArchiveError::InvalidData && main_region(*item).len() + 8 > u32::MAX
                ||| e == ArchiveError::Codec && goes_to_codec(*item) && (codec_output is None
                    || codec_output.unwrap()@.len() > main_region(*item).len())
            },
        },
        main_region(*item).len() + 8 <= u32::MAX && (goes_to_codec(*item) ==> (
        codec_output is Some && codec_output.unwrap()@.len() <= main_region(*item).len()))
            ==> r is Ok,
{
    let ghost start = out@;
    let (m_len, cooked, aligned, stored) = match &item.placement {
        Placement::Cooked { objects_end, .. } => (*objects_end as usize, true, false, false),
        Placement::Raw { aligned, stored } => (item.data.len(), false, *aligned, *stored),
    };
    proof {
        if cooked {
            assert(disk_total(item_buffers(*item)) >= 0);
        }
    }
    if m_len > 0xFFFF_FFF7 {
        return Err(ArchiveError::InvalidData);
    }
    let main = take_prefix(&item.data, m_len);
    assert(main@ == main_region(*item)) by {
        if !cooked {
            assert(item.data@.take(m_len as int) =~= item.data@);
        }
    }
    let codec_path = (cooked || !stored) && needs_codec(m_len);
    assert(codec_path == goes_to_codec(*item));
    let mut zbuf: Vec<u8> = Vec::new();
    let mut zlen: usize = 0;
    if codec_path {
        zlen = match compress(&main, &mut zbuf, codec_output) {
            Ok(n) => n,
            Err(e) => {
                return Err(e);
            },
        };
        if zlen > m_len {
            return Err(ArchiveError::Codec);
        }
    }
    if aligned {
        pad_until_page(out);
    }
    let ghost lo = start.len() as int;
    let ghost padded = out@;
    let offset = out.len();
    let framed = codec_path && zlen + 8 != m_len;
    assert(framed == is_framed_main(*item, opt_view(codec_output)));
    let seg0 = if framed {
        write_u32(out, MAGIC);
        write_u32(out, m_len as u32);
        append(out, zbuf.as_slice());
        proof {
            let o = offset as int;
            assert(out@.subrange(o, o + 4) =~= u32_le_bytes(MAGIC));
            assert(out@.subrange(o + 4, o + 8) =~= u32_le_bytes(m_len as u32));
            assert(out@.subrange(o + 8, o + 8 + zlen) =~= zbuf@);
        }
        FileSegment::new(offset as u64, (zlen + 8) as u32, m_len as u32)
    } else {
        append(out, main.as_slice());
        assert(out@.subrange(offset as int, offset + m_len) =~= main@);
        FileSegment::new(offset as u64, m_len as u32, m_len as u32)
    };
    let mut segs: Vec<FileSegment> = Vec::new();
    segs.push(seg0);
    proof {
        assert(keeps_from(start, out@, 0));
        assert(segments_partial(out@, *item, opt_view(codec_output), segs@, lo));
        assert(item_buffers(*item).take(0) =~= Seq::<CR2WBufferInfo>::empty());
        assert(aligned == (item.placement matches Placement::Raw { aligned, .. } && aligned));
        if aligned {
            assert(out@.subrange(start.len() as int, offset as int) =~= padded.subrange(
                start.len() as int,
                offset as int,
            ));
            assert(padded.subrange(start.len() as int, offset as int) =~= Seq::new(
                pad_len(start.len()),
                |i: int| 0xD9u8,
            ));
        } else {
            assert(out@.subrange(start.len() as int, offset as int) =~= Seq::<u8>::empty());
            assert(Seq::new(0nat, |i: int| 0xD9u8) =~= Seq::<u8>::empty());
        }
        assert(item_placed(start, out@, *item, segs@));
    }
    let mut flags: u32 = 0;
    match &item.placement {
        Placement::Cooked { objects_end, buffers } => {
            let nbuf = buffers.len();
            let mut pos: usize = *objects_end as usize;
            let mut k: usize = 0;
            while k < nbuf
                invariant
                    nbuf == buffers@.len(),
                    buffers@ == item_buffers(*item),
                    item.placement matches Placement::Cooked { objects_end: oe, .. } && oe
                        == *objects_end,
                    *objects_end + disk_total(buffers@) <= item.data@.len(),
                    k <= nbuf,
                    pos == *objects_end + disk_total(buffers@.take(k as int)),
                    segs@.len() == 1 + k,
                    segments_partial(out@, *item, opt_view(codec_output), segs@, lo),
                    keeps_from(start, out@, 0),
                    item_placed(start, out@, *item, segs@),
                    !aligned,
                    0 <= lo == start.len(),
                    out@.len() <= start.len() + 4096 + 8 + pos,
                    start.len() + item.data@.len() + 8192 <= usize::MAX,
                decreases nbuf - k,
            {
                let b = buffers[k];
                proof {
                    lemma_disk_total_take(buffers@, k as int);
                    lemma_disk_total_grows(buffers@, k + 1);
                }
                let ghost before = out@;
                let boffset = out.len();
                append_range(out, &item.data, pos, b.disk_size as usize);
                let g = FileSegment::new(boffset as u64, b.disk_size, b.mem_size);
                proof {
                    assert(segs@.len() - 1 == k);
                    assert(out@.subrange(start.len() as int, segs@[0].offset as int) =~= before.subrange(
                        start.len() as int,
                        segs@[0].offset as int,
                    ));
                    assert(keeps_from(before, out@, 0));
                    lemma_item_segments_kept(before, out@, *item, opt_view(codec_output), segs@, lo);
                    assert(bytes_of(out@, g) =~= buffer_region(*item, k as int));
                }
                let ghost old_segs = segs@;
                segs.push(g);
                proof {
                    assert(segs@[0] == old_segs[0]);
                    assert forall|j: int| 0 <= j < segs@.len() implies lo <= (
                    #[trigger] segs@[j]).offset by {
                        if j < old_segs.len() {
                            assert(segs@[j] == old_segs[j]);
                        }
                    }
                    assert forall|j: int| 0 <= j < segs@.len() - 1 implies {
                        let h = #[trigger] segs@[j + 1];
                        &&& h.z_size == item_buffers(*item)[j].disk_size
                        &&& h.size == item_buffers(*item)[j].mem_size
                        &&& h.offset + h.z_size <= out@.len()
                        &&& bytes_of(out@, h) == buffer_region(*item, j)
                    } by {
                        if j < k {
                            assert(segs@[j + 1] == old_segs[j + 1]);
                        }
                    }
                    assert forall|j: int| 0 <= j < segs@.len() - 1 implies (#[trigger] segs@[j
                        + 1]).offset == segs@[0].offset + segs@[0].z_size + disk_total(
                        item_buffers(*item).take(j),
                    ) by {
                        if j < k {
                            assert(segs@[j + 1] == old_segs[j + 1]);
                        }
                    }
                }
                pos = pos + b.disk_size as usize;
                k = k + 1;
            }
            if nbuf > 0 {
                flags = (nbuf - 1) as u32;
            }
            assert(buffers@.take(nbuf as int) =~= buffers@);
        },
        Placement::Raw { .. } => {},
    }
    let sha1 = sha1_hash_file(&item.data);
    let fe = FileEntry::new(item.hash, 0, flags, 0, 0, 0, 0, sha1);
    Ok((fe, segs))
}

/// The index entries, one after the other.
pub open spec fn entries_bytes(es: Seq<FileEntry>) -> Seq<u8>
    decreases es.len(),
{
    if es.len() == 0 {
        seq![]
    } else {
        entries_bytes(es.drop_last()) + es.last().spec_encoding()
    }
}

/// The segment records, one after the other.
pub open spec fn segments_bytes(ss: Seq<FileSegment>) -> Seq<u8>
    decreases ss.len(),
{
    if ss.len() == 0 {
        seq![]
    } else {
        segments_bytes(ss.drop_last()) + ss.last().spec_encoding()
    }
}

/// The table body of the index: the three counts, the entries, the segments, and no
/// dependencies.
pub open spec fn index_body(es: Seq<FileEntry>, ss: Seq<FileSegment>) -> Seq<u8> {
    u32_le_bytes(es.len() as u32) + u32_le_bytes(ss.len() as u32) + u32_le_bytes(0)
        + entries_bytes(es) + segments_bytes(ss)
}

/// The index as written: table offset 8, table size, checksum of the body, and the body.
pub open spec fn index_bytes(es: Seq<FileEntry>, ss: Seq<FileSegment>) -> Seq<u8> {
    let body = index_body(es, ss);
    u32_le_bytes(8) + u32_le_bytes((body.len() + 8) as u32) + u64_le_bytes(crc64_of(body)) + body
}

/// Appends the index for `entries` and `segments`.
pub fn write_index(writer: &mut Vec<u8>, entries: &Vec<FileEntry>, segments: &Vec<FileSegment>)
    requires
        12 + 56 * entries@.len() + 16 * segments@.len() + 8 <= u32::MAX,
    ensures
        final(writer)@ == old(writer)@ + index_bytes(entries@, segments@),
{
    let mut buffer: Vec<u8> = Vec::new();
    write_u32(&mut buffer, entries.len() as u32);
    write_u32(&mut buffer, segments.len() as u32);
    write_u32(&mut buffer, 0);
    let ghost head = buffer@;
    let mut i: usize = 0;
    while i < entries.len()
        invariant
            i <= entries@.len(),
            buffer@ == head + entries_bytes(entries@.take(i as int)),
        decreases entries@.len() - i,
    {
        entries[i].write(&mut buffer);
        assert(entries@.take(i + 1).drop_last() =~= entries@.take(i as int));
        assert(buffer@ =~= head + entries_bytes(entries@.take(i + 1)));
        i = i + 1;
    }
    assert(entries@.take(i as int) =~= entries@);
    let ghost mid = buffer@;
    let mut j: usize = 0;
    while j < segments.len()
        invariant
            j <= segments@.len(),
            buffer@ == mid + segments_bytes(segments@.take(j as int)),
        decreases segments@.len() - j,
    {
        segments[j].write(&mut buffer);
        assert(segments@.take(j + 1).drop_last() =~= segments@.take(j as int));
        assert(buffer@ =~= mid + segments_bytes(segments@.take(j + 1)));
        j = j + 1;
    }
    assert(segments@.take(j as int) =~= segments@);
    assert(buffer@ == index_body(entries@, segments@));
    proof {
        lemma_bytes_len(entries@, segments@);
    }
    let crc = crc64_of_table(buffer.as_slice());
    write_u32(writer, 8);
    write_u32(writer, (buffer.len() + 8) as u32);
    write_u64(writer, crc);
    append(writer, buffer.as_slice());
    assert(writer@ =~= old(writer)@ + index_bytes(entries@, segments@));
}

/// The entry and segment tables take 56 and 16 bytes a record.
pub proof fn lemma_bytes_len(es: Seq<FileEntry>, ss: Seq<FileSegment>)
    ensures
        entries_bytes(es).len() == 56 * es.len(),
        segments_bytes(ss).len() == 16 * ss.len(),
    decreases es.len() + ss.len(),
{
    if es.len() > 0 {
        lemma_bytes_len(es.drop_last(), ss);
    } else if ss.len() > 0 {
        lemma_bytes_len(es, ss.drop_last());
    }
}

/// Segments with their payload starting at `lo` stay valid for any lower bound.
proof fn lemma_lower_bound(
    out: Seq<u8>,
    item: PackItem,
    codec: Option<Seq<u8>>,
    segs: Seq<FileSegment>,
    lo: int,
    lo2: int,
)
    requires
        item_segments_hold(out, item, codec, segs, lo),
        lo2 <= lo,
    ensures
        item_segments_hold(out, item, codec, segs, lo2),
{
    assert forall|k: int| 0 <= k < segs.len() implies lo2 <= (#[trigger] segs[k]).offset by {}
}

/// Whether the segment ranges of the entries are non-empty and follow one another, from the
/// first segment to the last.
pub open spec fn ranges_contiguous(es: Seq<FileEntry>, nsegs: int) -> bool {
    &&& forall|i: int|
        0 <= i < es.len() ==> (#[trigger] es[i]).segments_start < es[i].segments_end <= nsegs
    &&& es.len() == 0 ==> nsegs == 0
    &&& es.len() > 0 ==> es[0].segments_start == 0 && es.last().segments_end == nsegs
    &&& forall|i: int| 0 <= i < es.len() - 1 ==> (#[trigger] es[i]).segments_end == es[i + 1].segments_start
}

/// A freshly packed archive: its bytes, and the header, entries and segments written into it.
#[derive(Debug, Clone)]
pub struct PackedArchive {
    pub bytes: Vec<u8>,
    pub header: Header,
    pub entries: Vec<FileEntry>,
    pub segments: Vec<FileSegment>,
    pub custom_data_length: u32,
}

/// A copy of a codec output.
fn copy_output(o: &Option<Vec<u8>>) -> (r: Option<Vec<u8>>)
    ensures
        opt_view(r) == opt_view(*o),
{
    match o {
        Some(v) => Some(v.clone()),
        None => None,
    }
}

/// Whether `p` lays out the items of `plan`: header and custom-data length up front, the
/// footer at 0xAC when there are footer paths, each item's segments, the index on a page
/// boundary after all payloads, and a length that is a whole number of pages.
pub open spec fn packed_holds(
    plan: PackPlan,
    footer_output: Option<Vec<u8>>,
    codec_outputs: Seq<Option<Vec<u8>>>,
    p: PackedArchive,
) -> bool {
    let bytes = p.bytes@;
    let items = plan.items@;
    let es = p.entries@;
    let ss = p.segments@;
    let t = p.header.index_position as int;
    &&& bytes.len() % 4096 == 0
    &&& p.header.spec_is_valid()
    &&& p.header.filesize == bytes.len()
    &&& p.header.debug_position == 0 && p.header.debug_size == 0
    &&& bytes.subrange(0, 40) == p.header.spec_encoding()
    &&& bytes.subrange(40, 44) == u32_le_bytes(p.custom_data_length)
    &&& forall|k: int| 44 <= k < 0xAC ==> bytes[k] == 0
    &&& (plan.custom_paths@.len() == 0 ==> p.custom_data_length == 0)
    &&& (plan.custom_paths@.len() > 0 ==> bytes.subrange(0xAC, 0xAC + p.custom_data_length)
        == footer_bytes(texts(plan.custom_paths@), footer_output).unwrap())
    &&& payloads_hold(bytes, items, codec_outputs, es, ss)
    &&& forall|k: int| 0 <= k < ss.len() ==> (#[trigger] ss[k]).offset + ss[k].z_size <= t
    &&& t % 4096 == 0
    &&& t >= 0xAC
    &&& segments_placed(ss, 0xAC + p.custom_data_length, t)
    &&& es.len() <= 0x100_0000
    &&& ss.len() <= 0x100_0000
    &&& t + p.header.index_size <= bytes.len()
    &&& bytes.subrange(t, t + p.header.index_size) == index_bytes(es, ss)
}

/// Whether entries `es` and segments `ss` are those of the items, laid out in `out`.
pub open spec fn payloads_hold(
    out: Seq<u8>,
    items: Seq<PackItem>,
    codecs: Seq<Option<Vec<u8>>>,
    es: Seq<FileEntry>,
    ss: Seq<FileSegment>,
) -> bool {
    &&& es.len() == items.len()
    &&& ranges_contiguous(es, ss.len() as int)
    &&& forall|i: int|
        0 <= i < items.len() ==> {
            &&& entry_for(#[trigger] es[i], items[i])
            &&& item_segments_hold(
                out,
                items[i],
                opt_view(codecs[i]),
                ss.subrange(es[i].segments_start as int, es[i].segments_end as int),
                0xAC,
            )
        }
    &&& forall|k: int| 0 <= k < ss.len() ==> (#[trigger] ss[k]).offset + ss[k].z_size <= out.len()
}

/// The payloads stay as they are when the bytes from 0xAC on are kept.
proof fn lemma_payloads_kept(
    a: Seq<u8>,
    b: Seq<u8>,
    items: Seq<PackItem>,
    codecs: Seq<Option<Vec<u8>>>,
    es: Seq<FileEntry>,
    ss: Seq<FileSegment>,
)
    requires
        payloads_hold(a, items, codecs, es, ss),
        keeps_from(a, b, 0xAC),
    ensures
        payloads_hold(b, items, codecs, es, ss),
{
    assert forall|i: int| 0 <= i < items.len() implies {
        &&& entry_for(#[trigger] es[i], items[i])
        &&& item_segments_hold(
            b,
            items[i],
            opt_view(codecs[i]),
            ss.subrange(es[i].segments_start as int, es[i].segments_end as int),
            0xAC,
        )
    } by {
        lemma_item_segments_kept(
            a,
            b,
            items[i],
            opt_view(codecs[i]),
            ss.subrange(es[i].segments_start as int, es[i].segments_end as int),
            0xAC,
        );
    }
}

/// One more item's entry and segments keep the payload layout valid.
proof fn lemma_payload_step(
    before: Seq<u8>,
    after: Seq<u8>,
    items: Seq<PackItem>,
    codecs: Seq<Option<Vec<u8>>>,
    es: Seq<FileEntry>,
    ss: Seq<FileSegment>,
    fe: FileEntry,
    segs: Seq<FileSegment>,
)
    requires
        items.len() == codecs.len(),
        items.len() >= 1,
        payloads_hold(before, items.drop_last(), codecs.drop_last(), es, ss),
        keeps_from(before, after, 0),
        item_segments_hold(after, items.last(), opt_view(codecs.last()), segs, 0xAC),
        entry_for(fe, items.last()),
        fe.segments_start == ss.len(),
        fe.segments_end == ss.len() + segs.len(),
    ensures
        payloads_hold(after, items, codecs, es.push(fe), ss + segs),
{
    let n = items.len() - 1;
    let es2 = es.push(fe);
    let ss2 = ss + segs;
    assert(ss2.subrange(ss.len() as int, ss2.len() as int) =~= segs);
    assert forall|i: int| 0 <= i < items.len() implies {
        &&& entry_for(#[trigger] es2[i], items[i])
        &&& item_segments_hold(
            after,
            items[i],
            opt_view(codecs[i]),
            ss2.subrange(es2[i].segments_start as int, es2[i].segments_end as int),
            0xAC,
        )
    } by {
        if i < n {
            let e = es[i];
            assert(es2[i] == e);
            assert(items[i] == items.drop_last()[i]);
            assert(codecs[i] == codecs.drop_last()[i]);
            assert(ss2.subrange(e.segments_start as int, e.segments_end as int) =~= ss.subrange(
                e.segments_start as int,
                e.segments_end as int,
            ));
            lemma_item_segments_kept(
                before,
                after,
                items[i],
                opt_view(codecs[i]),
                ss.subrange(e.segments_start as int, e.segments_end as int),
                0xAC,
            );
        }
    }
    assert forall|k: int| 0 <= k < ss2.len() implies (#[trigger] ss2[k]).offset + ss2[k].z_size
        <= after.len() by {
        if k >= ss.len() {
            let j = k - ss.len();
            assert(ss2[k] == segs[j]);
            if j > 0 {
                assert(segs[(j - 1) + 1] == segs[j]);
            }
        }
    }
    assert forall|i: int| 0 <= i < es2.len() - 1 implies (#[trigger] es2[i]).segments_end
        == es2[i + 1].segments_start by {
        if i < n - 1 {
        }
    }
    assert(es2.len() > 0 ==> es2[0].segments_start == 0);
}

/// Room that the items' payloads may take: each file's bytes, plus a page of padding and a
/// frame header.
pub open spec fn items_size(items: Seq<PackItem>) -> nat
    decreases items.len(),
{
    if items.len() == 0 {
        0
    } else {
        items_size(items.drop_last()) + items.last().data@.len() + 4104
    }
}

/// The number of segments that the items take: one each, and one per sub-buffer.
pub open spec fn items_segments(items: Seq<PackItem>) -> nat
    decreases items.len(),
{
    if items.len() == 0 {
        0
    } else {
        items_segments(items.drop_last()) + 1 + item_buffers(items.last()).len()
    }
}

/// Whether the codec output for an item is usable: present and no longer than the main
/// region, when the region goes through the codec.
pub open spec fn codec_ok(item: PackItem, codec: Option<Seq<u8>>) -> bool {
    goes_to_codec(item) ==> codec is Some && codec.unwrap().len() <= main_region(item).len()
}

/// Whether the items can be laid out after `s0` bytes: their regions fit, their codec
/// outputs are usable, each file fits a 32-bit size with a frame, and counts and total size
/// stay within the format's and the machine's limits.
#[verifier::opaque]
pub open spec fn payloads_within(s0: int, items: Seq<PackItem>, codecs: Seq<Option<Vec<u8>>>) -> bool {
    &&& codecs.len() == items.len()
    &&& forall|i: int|
        0 <= i < items.len() ==> item_fits(#[trigger] items[i]) && items[i].data@.len()
            <= 0xFFFF_FFF7 && codec_ok(items[i], opt_view(codecs[i]))
    &&& items.len() <= 0x100_0000
    &&& items_segments(items) <= 0x100_0000
    &&& s0 + items_size(items) <= usize::MAX / 4
}

/// What the limits give for item `i` when the items before it took no more room than their
/// share.
proof fn lemma_within_item(s0: int, items: Seq<PackItem>, codecs: Seq<Option<Vec<u8>>>, i: int)
    requires
        payloads_within(s0, items, codecs),
        0 <= i < items.len(),
    ensures
        item_fits(items[i]),
        items[i].data@.len() <= 0xFFFF_FFF7,
        codec_ok(items[i], opt_view(codecs[i])),
        main_region(items[i]).len() <= items[i].data@.len(),
        item_buffers(items[i]).len() < 0xFFFF_FFFF,
        s0 + items_size(items.take(i + 1)) <= usize::MAX / 4,
        items_segments(items.take(i + 1)) <= 0x100_0000,
        items.len() <= 0x100_0000,
{
    reveal(payloads_within);
    lemma_prefix_sums(items, i);
    assert(item_fits(items[i]));
    if items[i].placement is Cooked {
        assert(disk_total(item_buffers(items[i])) >= 0);
    }
}

proof fn lemma_prefix_sums(items: Seq<PackItem>, i: int)
    requires
        0 <= i < items.len(),
    ensures
        items_size(items.take(i + 1)) == items_size(items.take(i)) + items[i].data@.len() + 4104,
        items_segments(items.take(i + 1)) == items_segments(items.take(i)) + 1 + item_buffers(
            items[i],
        ).len(),
        items_size(items.take(i + 1)) <= items_size(items),
        items_segments(items.take(i + 1)) <= items_segments(items),
    decreases items.len() - i,
{
    assert(items.take(i + 1).drop_last() =~= items.take(i));
    if i + 1 < items.len() {
        lemma_prefix_sums(items, i + 1);
    } else {
        assert(items.take(i + 1) =~= items);
    }
}

/// Whether the segments follow one another without overlap, the last ending by `end`.
pub open spec fn segments_ordered(ss: Seq<FileSegment>, end: int) -> bool {
    &&& forall|k: int|
        0 <= k < ss.len() - 1 ==> (#[trigger] ss[k]).offset + ss[k].z_size <= ss[k + 1].offset
    &&& ss.len() > 0 ==> ss.last().offset + ss.last().z_size <= end
}

proof fn lemma_item_ordered(
    start: Seq<u8>,
    out: Seq<u8>,
    item: PackItem,
    codec: Option<Seq<u8>>,
    segs: Seq<FileSegment>,
)
    requires
        item_placed(start, out, item, segs),
        item_segments_hold(out, item, codec, segs, start.len() as int),
    ensures
        segments_ordered(segs, out.len() as int),
        forall|k: int| 0 <= k < segs.len() ==> start.len() <= (#[trigger] segs[k]).offset,
{
    let bufs = item_buffers(item);
    assert forall|k: int| 0 <= k < segs.len() - 1 implies (#[trigger] segs[k]).offset + segs[k].z_size
        <= segs[k + 1].offset by {
        if k > 0 {
            assert(segs[(k - 1) + 1] == segs[k]);
            lemma_disk_total_step(bufs, k);
        } else {
            assert(bufs.take(0) =~= Seq::<CR2WBufferInfo>::empty());
        }
    }
    if segs.len() > 1 {
        let n = segs.len() - 1;
        assert(segs[(n - 1) + 1] == segs.last());
        lemma_disk_total_step(bufs, n);
    } else {
        assert(bufs.take(0) =~= Seq::<CR2WBufferInfo>::empty());
    }
}

proof fn lemma_ordered_append(a: Seq<FileSegment>, e1: int, b: Seq<FileSegment>, e2: int)
    requires
        segments_ordered(a, e1),
        segments_ordered(b, e2),
        b.len() > 0,
        e1 <= b[0].offset,
    ensures
        segments_ordered(a + b, e2),
{
    let c = a + b;
    assert forall|k: int| 0 <= k < c.len() - 1 implies (#[trigger] c[k]).offset + c[k].z_size
        <= c[k + 1].offset by {
        if k < a.len() - 1 {
        } else if k == a.len() - 1 {
            assert(c[k] == a.last());
        } else {
            assert(c[k] == b[k - a.len()]);
            assert(c[k + 1] == b[(k - a.len()) + 1]);
        }
    }
    assert(c.last() == b.last());
}

/// Whether the segments follow one another without overlap from `start` on, the last ending by
/// `end`.
#[verifier::opaque]
pub open spec fn segments_placed(ss: Seq<FileSegment>, start: int, end: int) -> bool {
    &&& segments_ordered(ss, end)
    &&& forall|k: int| 0 <= k < ss.len() ==> start <= (#[trigger] ss[k]).offset
}

proof fn lemma_placed_widen(ss: Seq<FileSegment>, start: int, e1: int, e2: int)
    requires
        segments_placed(ss, start, e1),
        e1 <= e2,
    ensures
        segments_placed(ss, start, e2),
{
    reveal(segments_placed);
}

proof fn lemma_placed_step(
    ss: Seq<FileSegment>,
    segs: Seq<FileSegment>,
    start: int,
    before: int,
    end: int,
)
    requires
        segments_placed(ss, start, before),
        segments_ordered(segs, end),
        segs.len() > 0,
        start <= before,
        forall|k: int| 0 <= k < segs.len() ==> before <= (#[trigger] segs[k]).offset,
    ensures
        segments_placed(ss + segs, start, end),
{
    reveal(segments_placed);
    lemma_ordered_append(ss, before, segs, end);
    let c = ss + segs;
    assert forall|k: int| 0 <= k < c.len() implies start <= (#[trigger] c[k]).offset by {
        if k >= ss.len() {
            assert(c[k] == segs[k - ss.len()]);
        }
    }
}

/// Numbers the segment range of `fe` after the segments so far, and records the entry and
/// its segments.
fn append_item(
    entries: &mut Vec<FileEntry>,
    segments: &mut Vec<FileSegment>,
    fe: FileEntry,
    segs: &Vec<FileSegment>,
    Ghost(before): Ghost<Seq<u8>>,
    Ghost(after): Ghost<Seq<u8>>,
    Ghost(items): Ghost<Seq<PackItem>>,
    Ghost(codecs): Ghost<Seq<Option<Vec<u8>>>>,
)
    requires
        items.len() == codecs.len(),
        items.len() >= 1,
        payloads_hold(before, items.drop_last(), codecs.drop_last(), old(entries)@, old(segments)@),
        keeps_from(before, after, 0),
        item_segments_hold(after, items.last(), opt_view(codecs.last()), segs@, 0xAC),
        entry_for(fe, items.last()),
        old(segments)@.len() + segs@.len() <= u32::MAX,
    ensures
        payloads_hold(after, items, codecs, final(entries)@, final(segments)@),
        final(segments)@ == old(segments)@ + segs@,
{
    let mut fe = fe;
    let first = segments.len() as u32;
    let last = (segments.len() + segs.len()) as u32;
    fe.set_segments_start(first);
    fe.set_segments_end(last);
    let ghost old_segments = segments@;
    let ghost old_entries = entries@;
    let mut k: usize = 0;
    while k < segs.len()
        invariant
            k <= segs@.len(),
            segments@ == old_segments + segs@.take(k as int),
        decreases segs@.len() - k,
    {
        segments.push(segs[k]);
        assert(segs@.take(k + 1) =~= segs@.take(k as int).push(segs@[k as int]));
        k = k + 1;
    }
    assert(segs@.take(k as int) =~= segs@);
    entries.push(fe);
    proof {
        lemma_payload_step(before, after, items, codecs, old_entries, old_segments, fe, segs@);
        assert(entries@ =~= old_entries.push(fe));
    }
}

#[verifier::rlimit(100)]
/// Writes the payload of every item after what `out` holds, and gives their index entries,
/// with numbered segment ranges, and their segments.
fn write_payloads(
    out: &mut Vec<u8>,
    items: &Vec<PackItem>,
    codec_outputs: &Vec<Option<Vec<u8>>>,
    Ghost(s0): Ghost<int>,
) -> (r: Result<(Vec<FileEntry>, Vec<FileSegment>), ArchiveError>)
    requires
        old(out)@.len() >= 0xAC,
        codec_outputs@.len() == items@.len(),
    ensures
        old(out)@.len() <= s0 && payloads_within(s0, items@, codec_outputs@) ==> r is Ok,
        r matches Err(e) ==> e == ArchiveError::InvalidData || e == ArchiveError::Codec && exists|
            i: int,
        |
            0 <= i < items@.len() && !codec_ok(#[trigger] items@[i], opt_view(codec_outputs@[i])),
        r matches Ok((es, ss)) ==> {
            &&& payloads_hold(final(out)@, items@, codec_outputs@, es@, ss@)
            &&& keeps_from(old(out)@, final(out)@, 0)
            &&& final(out)@.len() <= usize::MAX / 4
            &&& ss@.len() <= 0x100_0000
            &&& es@.len() <= 0x100_0000
            &&& segments_placed(ss@, old(out)@.len() as int, final(out)@.len() as int)
        },
{
    let ghost start = out@;
    let mut entries: Vec<FileEntry> = Vec::new();
    let mut segments: Vec<FileSegment> = Vec::new();
    proof {
        reveal(segments_placed);
    }
    let mut i: usize = 0;
    while i < items.len()
        invariant
            codec_outputs@.len() == items@.len(),
            i <= items@.len(),
            start == old(out)@,
            start.len() >= 0xAC,
            keeps_from(start, out@, 0),
            payloads_hold(out@, items@.take(i as int), codec_outputs@.take(i as int), entries@, segments@),
            segments@.len() <= u32::MAX,
            segments@.len() == items_segments(items@.take(i as int)),
            segments_placed(segments@, start.len() as int, out@.len() as int),
            start.len() <= s0 && payloads_within(s0, items@, codec_outputs@) ==> out@.len()
                <= start.len() + items_size(items@.take(i as int)),
        decreases items@.len() - i,
    {
        let item = &items[i];
        proof {
            lemma_prefix_sums(items@, i as int);
            if start.len() <= s0 && payloads_within(s0, items@, codec_outputs@) {
                lemma_within_item(s0, items@, codec_outputs@, i as int);
            }
        }
        let fits = match &item.placement {
            Placement::Cooked { objects_end, buffers } => buffers.len() < 0xFFFF_FFFF && regions_fit(
                *objects_end,
                buffers,
                item.data.len(),
            ),
            Placement::Raw { .. } => true,
        };
        if !fits || out.len() > usize::MAX / 4 || item.data.len() > usize::MAX / 4 {
            return Err(ArchiveError::InvalidData);
        }
        let ghost before = out@;
        let (fe, segs) = match make_entry(out, item, copy_output(&codec_outputs[i])) {
            Ok(x) => x,
            Err(e) => {
                proof {
                    if e == ArchiveError::Codec {
                        assert(!codec_ok(items@[i as int], opt_view(codec_outputs@[i as int])));
                    }
                }
                return Err(e);
            },
        };
        if segs.len() > 0xFFFF_FFFF - segments.len() {
            return Err(ArchiveError::InvalidData);
        }
        let ghost old_segments = segments@;
        proof {
            lemma_item_ordered(before, out@, items@[i as int], opt_view(codec_outputs@[i as int]), segs@);
            assert(segs@.len() > 0);
            lemma_placed_step(old_segments, segs@, start.len() as int, before.len() as int, out@.len() as int);
            lemma_lower_bound(
                out@,
                items@[i as int],
                opt_view(codec_outputs@[i as int]),
                segs@,
                before.len() as int,
                0xAC,
            );
            assert(items@.take(i + 1).drop_last() =~= items@.take(i as int));
            assert(codec_outputs@.take(i + 1).drop_last() =~= codec_outputs@.take(i as int));
        }
        append_item(
            &mut entries,
            &mut segments,
            fe,
            &segs,
            Ghost(before),
            Ghost(out@),
            Ghost(items@.take(i + 1)),
            Ghost(codec_outputs@.take(i + 1)),
        );
        i = i + 1;
    }
    assert(items@.take(i as int) =~= items@);
    assert(codec_outputs@.take(i as int) =~= codec_outputs@);
    proof {
        if items@.len() > 0 {
            lemma_prefix_sums(items@, items@.len() - 1);
            if start.len() <= s0 && payloads_within(s0, items@, codec_outputs@) {
                lemma_within_item(s0, items@, codec_outputs@, items@.len() - 1);
            }
        } else if start.len() <= s0 && payloads_within(s0, items@, codec_outputs@) {
            reveal(payloads_within);
        }
    }
    if out.len() > usize::MAX / 4 || entries.len() > 0x100_0000 || segments.len() > 0x100_0000 {
        return Err(ArchiveError::InvalidData);
    }
    Ok((entries, segments))
}

/// Writes `bytes` over `out` from position `at`.
fn overwrite(out: &mut Vec<u8>, at: usize, bytes: &[u8])
    requires
        at + bytes@.len() <= old(out)@.len(),
    ensures
        final(out)@.len() == old(out)@.len(),
        final(out)@.subrange(at as int, at + bytes@.len()) == bytes@,
        forall|k: int|
            0 <= k < old(out)@.len() && !(at <= k < at + bytes@.len()) ==> final(out)@[k] == old(
                out,
            )@[k],
{
    let n = out.len();
    let mut i: usize = 0;
    while i < bytes.len()
        invariant
            n == out@.len(),
            i <= bytes@.len(),
            at + bytes@.len() <= old(out)@.len(),
            out@.len() == old(out)@.len(),
            forall|k: int| at <= k < at + i ==> out@[k] == bytes@[k - at],
            forall|k: int|
                0 <= k < old(out)@.len() && !(at <= k < at + i) ==> out@[k] == old(out)@[k],
        decreases bytes@.len() - i,
    {
        out.set(at + i, bytes[i]);
        i = i + 1;
    }
    assert(out@.subrange(at as int, at + bytes@.len()) =~= bytes@);
}

/// Whether the footer for `custom_paths` can be written: there are no footer paths, or
/// there are at most 0xFFFF whose payload takes at most 0x0FFF_0000 bytes and the codec's
/// output, where needed, is usable.
pub open spec fn footer_within(custom_paths: Seq<String>, footer_output: Option<Vec<u8>>) -> bool {
    custom_paths.len() == 0 || {
        &&& custom_paths.len() <= 0xFFFF
        &&& crate::lxrs::null_terminated_join(texts(custom_paths)).len() <= 0x0FFF_0000
        &&& footer_bytes(texts(custom_paths), footer_output) is Some
    }
}

/// The front of an archive: 0xAC zero bytes for the header and reserved space, then the
/// footer for `custom_paths` when there are any; and the footer's length.
fn start_archive(custom_paths: &Vec<String>, footer_output: Option<Vec<u8>>) -> (r: Result<
    (Vec<u8>, u32),
    ArchiveError,
>)
    ensures
        r matches Ok((out, cdl)) ==> {
            &&& out@.len() == 0xAC + cdl
            &&& cdl <= 0x1000_0000
            &&& custom_paths@.len() == 0 ==> cdl == 0
            &&& custom_paths@.len() > 0 ==> out@.subrange(0xAC, 0xAC + cdl) == footer_bytes(
                texts(custom_paths@),
                footer_output,
            ).unwrap()
            &&& forall|k: int| 0 <= k < 0xAC ==> out@[k] == 0
        },
        footer_within(custom_paths@, footer_output) ==> r is Ok,
        r matches Err(e) ==> e == ArchiveError::InvalidData || e == ArchiveError::Codec
            && footer_bytes(texts(custom_paths@), footer_output) is None,
{
    let mut out: Vec<u8> = Vec::new();
    let mut i: usize = 0;
    while i < 0xAC
        invariant
            i <= 0xAC,
            out@.len() == i,
            forall|k: int| 0 <= k < i ==> out@[k] == 0,
        decreases 0xAC - i,
    {
        out.push(0u8);
        i = i + 1;
    }
    let ghost zeros = out@;
    if custom_paths.len() == 0 {
        return Ok((out, 0));
    }
    if custom_paths.len() > 0xFFFF {
        return Err(ArchiveError::InvalidData);
    }
    let footer = LxrsFooter::new(custom_paths.clone());
    assert(texts(footer.files@) =~= texts(custom_paths@));
    let raw_len = footer.payload().len();
    if raw_len > 0x0FFF_0000 {
        return Err(ArchiveError::InvalidData);
    }
    let ghost fo = footer_output;
    match footer.write(&mut out, footer_output) {
        Ok(()) => {},
        Err(e) => {
            return Err(e);
        },
    }
    if out.len() - 0xAC > 0x1000_0000 {
        return Err(ArchiveError::InvalidData);
    }
    let cdl = (out.len() - 0xAC) as u32;
    assert(out@.subrange(0xAC, 0xAC + cdl) =~= footer_bytes(texts(custom_paths@), footer_output).unwrap());
    assert(forall|k: int| 0 <= k < 0xAC ==> out@[k] == zeros[k]);
    Ok((out, cdl))
}

#[verifier::rlimit(40)]
/// Pads the payloads to a page, writes the index and pads again, then writes the header and
/// the custom-data length in front.
fn finish_archive(
    out: Vec<u8>,
    entries: Vec<FileEntry>,
    segments: Vec<FileSegment>,
    custom_data_length: u32,
) -> (r: PackedArchive)
    requires
        out@.len() >= 0xAC,
        out@.len() <= usize::MAX / 4,
        entries@.len() <= 0x100_0000,
        segments@.len() <= 0x100_0000,
    ensures
        r.entries@ == entries@,
        r.segments@ == segments@,
        r.custom_data_length == custom_data_length,
        keeps_from(out@, r.bytes@, 44),
        r.bytes@.len() % 4096 == 0,
        r.header.spec_is_valid(),
        r.header.filesize == r.bytes@.len(),
        r.header.debug_position == 0 && r.header.debug_size == 0,
        r.bytes@.subrange(0, 40) == r.header.spec_encoding(),
        r.bytes@.subrange(40, 44) == u32_le_bytes(custom_data_length),
        r.header.index_position >= out@.len(),
        r.header.index_position % 4096 == 0,
        r.header.index_position + r.header.index_size <= r.bytes@.len(),
        r.bytes@.subrange(
            r.header.index_position as int,
            r.header.index_position + r.header.index_size,
        ) == index_bytes(entries@, segments@),
{
    let mut out = out;
    let ghost start = out@;
    pad_until_page(&mut out);
    let table_offset = out.len();
    write_index(&mut out, &entries, &segments);
    let index_size = out.len() - table_offset;
    proof {
        lemma_bytes_len(entries@, segments@);
    }
    pad_until_page(&mut out);
    let filesize = out.len();
    let header = Header::new(table_offset as u64, index_size as u32, 0, 0, filesize as u64);
    let ghost before_patch = out@;
    let mut head: Vec<u8> = Vec::new();
    header.write(&mut head);
    write_u32(&mut head, custom_data_length);
    overwrite(&mut out, 0, head.as_slice());
    proof {
        let t = table_offset as int;
        assert(out@.subrange(t, t + index_size) =~= before_patch.subrange(t, t + index_size));
        assert(before_patch.subrange(t, t + index_size) =~= index_bytes(entries@, segments@));
        assert(head@.subrange(0, 40) =~= header.spec_encoding());
        assert(head@.subrange(40, 44) =~= u32_le_bytes(custom_data_length));
        assert(out@.subrange(0, 40) =~= head@.subrange(0, 40));
        assert(out@.subrange(40, 44) =~= head@.subrange(40, 44));
    }
    PackedArchive { bytes: out, header, entries, segments, custom_data_length }
}

/// The parts written by `start_archive`, `write_payloads` and `finish_archive` make a packed
/// archive.
proof fn lemma_packed(
    plan: PackPlan,
    fo: Option<Vec<u8>>,
    outs: Seq<Option<Vec<u8>>>,
    p: PackedArchive,
    after_footer: Seq<u8>,
    after_payloads: Seq<u8>,
)
    requires
        after_footer.len() == 0xAC + p.custom_data_length,
        forall|k: int| 0 <= k < 0xAC ==> after_footer[k] == 0,
        plan.custom_paths@.len() == 0 ==> p.custom_data_length == 0,
        plan.custom_paths@.len() > 0 ==> after_footer.subrange(0xAC, 0xAC + p.custom_data_length)
            == footer_bytes(texts(plan.custom_paths@), fo).unwrap(),
        payloads_hold(after_payloads, plan.items@, outs, p.entries@, p.segments@),
        segments_placed(p.segments@, after_footer.len() as int, after_payloads.len() as int),
        keeps_from(after_footer, after_payloads, 0),
        p.segments@.len() <= 0x100_0000,
        p.entries@.len() <= 0x100_0000,
        keeps_from(after_payloads, p.bytes@, 44),
        p.bytes@.len() % 4096 == 0,
        p.header.spec_is_valid(),
        p.header.filesize == p.bytes@.len(),
        p.header.debug_position == 0 && p.header.debug_size == 0,
        p.bytes@.subrange(0, 40) == p.header.spec_encoding(),
        p.bytes@.subrange(40, 44) == u32_le_bytes(p.custom_data_length),
        p.header.index_position >= after_payloads.len(),
        p.header.index_position % 4096 == 0,
        p.header.index_position + p.header.index_size <= p.bytes@.len(),
        p.bytes@.subrange(
            p.header.index_position as int,
            p.header.index_position + p.header.index_size,
        ) == index_bytes(p.entries@, p.segments@),
    ensures
        packed_holds(plan, fo, outs, p),
{
    assert(keeps_from(after_payloads, p.bytes@, 0xAC));
    lemma_placed_widen(
        p.segments@,
        after_footer.len() as int,
        after_payloads.len() as int,
        p.header.index_position as int,
    );
    assert forall|k: int| 44 <= k < 0xAC implies p.bytes@[k] == 0 by {
        assert(after_footer[k] == 0);
        assert(after_payloads[k] == after_footer[k]);
    }
    lemma_payloads_kept(after_payloads, p.bytes@, plan.items@, outs, p.entries@, p.segments@);
    if plan.custom_paths@.len() > 0 {
        assert(p.bytes@.subrange(0xAC, 0xAC + p.custom_data_length) =~= after_footer.subrange(
            0xAC,
            0xAC + p.custom_data_length,
        ));
    }
}

#[verifier::rlimit(100)]
/// Lays out an archive for `plan`: an empty header and reserved space, the footer when there
/// are footer paths, every item's payload, the index on the next page boundary, padding to a
/// whole page, then the header and custom-data length written in front. `footer_output` and
/// `codec_outputs` (one per item) are what the codec made of the footer payload and of each
/// item's main region. Fails with `InvalidInput` when the codec outputs do not match the
/// items, `Codec` when a needed output is missing or too long, and `InvalidData` when a size
/// exceeds the format.
pub fn write_archive(
    plan: &PackPlan,
    footer_output: Option<Vec<u8>>,
    codec_outputs: &Vec<Option<Vec<u8>>>,
) -> (r: Result<PackedArchive, ArchiveError>)
    ensures
        codec_outputs@.len() != plan.items@.len() ==> r == Err::<PackedArchive, ArchiveError>(
            ArchiveError::InvalidInput,
        ),
        r matches Ok(p) ==> packed_holds(*plan, footer_output, codec_outputs@, p),
        codec_outputs@.len() == plan.items@.len() && footer_within(plan.custom_paths@, footer_output)
            && payloads_within(0x1000_00AC, plan.items@, codec_outputs@) ==> r is Ok,
        r matches Err(e) ==> {
            ||| e == ArchiveError::InvalidInput && codec_outputs@.len() != plan.items@.len()
            ||| e == ArchiveError::InvalidData
            ||| e == ArchiveError::Codec && (footer_bytes(texts(plan.custom_paths@), footer_output)
                is None || exists|i: int|
                0 <= i < plan.items@.len() && !codec_ok(
                    #[trigger] plan.items@[i],
                    opt_view(codec_outputs@[i]),
                ))
        },
{
    if codec_outputs.len() != plan.items.len() {
        return Err(ArchiveError::InvalidInput);
    }
    let ghost fo = footer_output;
    let (mut out, custom_data_length) = match start_archive(&plan.custom_paths, footer_output) {
        Ok(x) => x,
        Err(e) => {
            return Err(e);
        },
    };
    let ghost after_footer = out@;
    let (entries, segments) = match write_payloads(&mut out, &plan.items, codec_outputs, Ghost(0x1000_00AC)) {
        Ok(x) => x,
        Err(e) => {
            return Err(e);
        },
    };
    let ghost after_payloads = out@;
    let p = finish_archive(out, entries, segments, custom_data_length);
    proof {
        lemma_packed(*plan, footer_output, codec_outputs@, p, after_footer, after_payloads);
    }
    Ok(p)
}

/// What the codec is to compress for an item: its main region, when that goes through the
/// codec.
pub fn codec_input(item: &PackItem) -> (r: Option<Vec<u8>>)
    requires
        item_fits(*item),
    ensures
        goes_to_codec(*item) <==> r is Some,
        r matches Some(v) ==> v@ == main_region(*item),
{
    let (m_len, cooked, stored) = match &item.placement {
        Placement::Cooked { objects_end, .. } => (*objects_end as usize, true, false),
        Placement::Raw { stored, .. } => (item.data.len(), false, *stored),
    };
    proof {
        if cooked {
            assert(disk_total(item_buffers(*item)) >= 0);
        }
    }
    if !((cooked || !stored) && needs_codec(m_len)) {
        return None;
    }
    let v = take_prefix(&item.data, m_len);
    proof {
        if !cooked {
            assert(item.data@.take(m_len as int) =~= item.data@);
        }
    }
    Some(v)
}

/// What the codec is to compress for the footer: its raw payload, when there are footer
/// paths and the payload is 256 bytes or more.
pub fn footer_codec_input(custom_paths: &Vec<String>) -> (r: Option<Vec<u8>>)
    ensures
        r is Some <==> custom_paths@.len() > 0 && crate::lxrs::null_terminated_join(
            texts(custom_paths@),
        ).len() >= 256,
        r matches Some(v) ==> v@ == crate::lxrs::null_terminated_join(texts(custom_paths@)),
{
    if custom_paths.len() == 0 {
        return None;
    }
    let footer = LxrsFooter::new(custom_paths.clone());
    assert(texts(footer.files@) =~= texts(custom_paths@));
    let raw = footer.payload();
    if needs_codec(raw.len()) {
        Some(raw)
    } else {
        None
    }
}

/// Whether `plan` needs no codec output: no item's main region goes through the codec, and a
/// footer payload, if any, is shorter than 256 bytes.
pub open spec fn needs_no_codec(plan: PackPlan) -> bool {
    &&& forall|i: int| 0 <= i < plan.items@.len() ==> !goes_to_codec(#[trigger] plan.items@[i])
    &&& plan.custom_paths@.len() > 0 ==> crate::lxrs::null_terminated_join(
        texts(plan.custom_paths@),
    ).len() < 256
}

/// Whether `plan` stays within the format's and the machine's limits: each file fits a 32-bit
/// size with a frame, counts and total size are bounded, and the footer is small enough.
pub open spec fn plan_within(plan: PackPlan) -> bool {
    let items = plan.items@;
    &&& forall|i: int| 0 <= i < items.len() ==> (#[trigger] items[i]).data@.len() <= 0xFFFF_FFF7
    &&& items.len() <= 0x100_0000
    &&& items_segments(items) <= 0x100_0000
    &&& 0x1000_00AC + items_size(items) <= usize::MAX / 4
    &&& plan.custom_paths@.len() <= 0xFFFF
    &&& crate::lxrs::null_terminated_join(texts(plan.custom_paths@)).len() <= 0x0FFF_0000
}

/// Packs `files` (paths relative to the packed directory, with their bytes) into an
/// archive: chooses and orders them as `plan_pack` does, hands each region that goes through
/// the codec to `codec` (which gives `None` when it fails), and lays out the archive as
/// `write_archive` does. Without a `hash_map` the footer lists no paths.
pub fn create_from_directory<F: Fn(&Vec<u8>) -> Option<Vec<u8>>>(
    files: &Vec<SourceFile>,
    hash_map: Option<HashMap<u64, String>>,
    codec: &F,
) -> (r: Result<PackedArchive, ArchiveError>)
    requires
        forall|x: &Vec<u8>| codec.requires((x,)),
    ensures
        r matches Ok(p) ==> exists|plan: PackPlan, fo: Option<Vec<u8>>, outs: Seq<Option<Vec<u8>>>|
            {
                &&& plan_holds(files@, match hash_map {
                    Some(m) => m@,
                    None => Map::empty(),
                }, plan)
                &&& packed_holds(plan, fo, outs, p)
            },
        r matches Err(e) ==> e == ArchiveError::InvalidData || e == ArchiveError::Codec,
        (forall|k: int|
            0 <= k < files@.len() ==> !(packable(path_bytes(#[trigger] files@[k])) && cooked_overrun(
                files@[k].data@,
            ))) && (forall|plan: PackPlan| plan_holds(files@, match hash_map {
            Some(m) => m@,
            None => Map::empty(),
        }, plan) ==> plan_within(plan) && needs_no_codec(plan)) ==> r is Ok,
{
    let map = match hash_map {
        Some(m) => m,
        None => HashMap::new(),
    };
    let ghost dict = map@;
    let plan = match plan_pack(files, &map) {
        Ok(p) => p,
        Err(e) => {
            return Err(e);
        },
    };
    let footer_output = match footer_codec_input(&plan.custom_paths) {
        Some(raw) => codec(&raw),
        None => None,
    };
    assert forall|k: int| 0 <= k < plan.items@.len() implies item_fits(#[trigger] plan.items@[k]) by {
        assert(plan.sources@[k] < files@.len());
    }
    let mut outputs: Vec<Option<Vec<u8>>> = Vec::new();
    let mut i: usize = 0;
    while i < plan.items.len()
        invariant
            i <= plan.items@.len(),
            outputs@.len() == i,
            forall|x: &Vec<u8>| codec.requires((x,)),
            forall|k: int| 0 <= k < i ==> (!goes_to_codec(plan.items@[k]) ==> (#[trigger] outputs@[k]) is None),
            forall|k: int| 0 <= k < plan.items@.len() ==> item_fits(#[trigger] plan.items@[k]),
        decreases plan.items@.len() - i,
    {
        let out = match codec_input(&plan.items[i]) {
            Some(input) => codec(&input),
            None => None,
        };
        let ghost old_outputs = outputs@;
        outputs.push(out);
        assert forall|k: int| 0 <= k < i + 1 implies goes_to_codec(plan.items@[k]) || (
        #[trigger] outputs@[k]) is None by {
            if k < i {
                assert(outputs@[k] == old_outputs[k]);
            }
        }
        i = i + 1;
    }
    let ghost fo = footer_output;
    proof {
        if plan_within(plan) && needs_no_codec(plan) {
            reveal(payloads_within);
            assert forall|k: int| 0 <= k < plan.items@.len() implies item_fits(
                #[trigger] plan.items@[k],
            ) && plan.items@[k].data@.len() <= 0xFFFF_FFF7 && codec_ok(
                plan.items@[k],
                opt_view(outputs@[k]),
            ) by {}
            assert(payloads_within(0x1000_00AC, plan.items@, outputs@));
            if plan.custom_paths@.len() > 0 {
                assert(footer_bytes(texts(plan.custom_paths@), fo) is Some);
            }
            assert(footer_within(plan.custom_paths@, fo));
        }
    }
    match write_archive(&plan, footer_output, &outputs) {
        Ok(p) => {
            assert(plan_holds(files@, dict, plan) && packed_holds(plan, fo, outputs@, p));
            Ok(p)
        },
        Err(e) => {
            assert(plan_holds(files@, dict, plan));
            Err(e)
        },
    }
}

} // verus!
