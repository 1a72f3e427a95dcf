use std::collections::HashMap;

use red4lib::archive::Archive;
use red4lib::cr2w::{read_cr2w_header, Cr2wParse};
use red4lib::dictionary::parse_hash_line;
use red4lib::error::ArchiveError;
use red4lib::extensions::{
    get_aligned_file_extensions, get_uncompressed_file_extensions, is_packable_extension,
};
use red4lib::hashing::{crc64_of_table, fnv1a64_hash_string, sha1_hash_file};
use red4lib::io::{read_null_terminated_string, write_null_terminated_string, FromReader};
use red4lib::kraken::{
    compress, decompress, get_compressed_buffer_size_needed,
    get_compressed_buffer_size_needed_kraken, CompressionLevel,
};
use red4lib::lxrs::{FooterRead, LxrsFooter};
use red4lib::pack::{
    create_from_directory, file_extension, hash_order, normalize_path, pad_until_page, plan_pack,
    SourceFile,
};
use red4lib::records::{FileSegment, Header};
use red4lib::zip_archive::{
    extract_to_directory, open_read, ArchiveMode, SegmentData, ZipArchive,
};

/// An archive with one JSON resource whose path the footer records.
fn test1_archive() -> Vec<u8> {
    let path = "base\\cycleweapons\\localization\\en-us.json";
    let files = vec![SourceFile { path: path.to_owned(), data: b"{\"lang\":\"en-us\"}".to_vec() }];
    let mut dict = HashMap::new();
    dict.insert(fnv1a64_hash_string(&path.to_owned()), path.to_owned());
    create_from_directory(&files, Some(dict), &no_codec).unwrap().bytes
}

/// An archive with several resources, none named in a footer.
fn nci_archive() -> Vec<u8> {
    let files = vec![
        SourceFile { path: "base\\a.mesh".to_owned(), data: vec![1; 40] },
        SourceFile { path: "base\\b.xbm".to_owned(), data: vec![2; 50] },
        SourceFile { path: "base\\c.bin".to_owned(), data: vec![3; 60] },
    ];
    create_from_directory(&files, None, &no_codec).unwrap().bytes
}

#[test]
fn mod_read_archive() {
    let result = open_read(test1_archive());
    assert!(result.is_ok());
}

#[test]
fn mod_read_archive2() {
    let result = open_read(nci_archive());
    assert!(result.is_ok());
}

#[test]
fn mod_read_custom_data() {
    let archive = open_read(test1_archive()).expect("Could not parse archive");
    let mut file_names = archive
        .get_entries()
        .values()
        .filter_map(|f| f.name.to_owned())
        .collect::<Vec<_>>();
    file_names.sort();

    let expected: Vec<String> = vec!["base\\cycleweapons\\localization\\en-us.json".to_owned()];
    assert_eq!(expected, file_names);
}

#[test]
fn compressed_buffer_size() {
    let sizes = vec![
        10, 100, 1000, 10000, 100000, 1000000, 20, 200, 2000, 20000, 200000, 2000000,
    ];
    for s in sizes {
        let a = get_compressed_buffer_size_needed(s);
        let b = get_compressed_buffer_size_needed_kraken(s as i32);

        assert_eq!(a, b);
    }
}

#[test]
fn load_order() {
    let mut input = [
        "#.archive",
        "_.archive",
        "aa.archive",
        "zz.archive",
        "AA.archive",
        "ZZ.archive",
    ];
    let correct = [
        "#.archive",
        "AA.archive",
        "ZZ.archive",
        "_.archive",
        "aa.archive",
        "zz.archive",
    ];

    input.sort_by(|a, b| a.as_bytes().cmp(b.as_bytes()));
    assert_eq!(correct, input);
}

#[test]
fn compressed_size_exact_values() {
    assert_eq!(get_compressed_buffer_size_needed(0), 0);
    assert_eq!(get_compressed_buffer_size_needed(10), 284);
    assert_eq!(get_compressed_buffer_size_needed(262144), 262418);
    assert_eq!(get_compressed_buffer_size_needed(262145), 262145 + 548);
    assert_eq!(get_compressed_buffer_size_needed_kraken(262145), 262145 + 548);
}

#[test]
fn compression_levels_have_codes() {
    assert_eq!(CompressionLevel::NoCompression.code(), 0);
    assert_eq!(CompressionLevel::Normal.code(), 4);
    assert_eq!(CompressionLevel::Optimal5.code(), 9);
}

#[test]
fn short_input_bypasses_codec() {
    let src: Vec<u8> = (0..255u32).map(|i| (i % 251) as u8).collect();
    let mut dst = Vec::new();
    let r = compress(&src, &mut dst, Some(vec![1, 2, 3]));
    assert_eq!(r, Ok(255));
    assert_eq!(dst, src);
}

#[test]
fn long_input_takes_codec_output() {
    let src = vec![7u8; 256];
    let mut dst = Vec::new();
    assert_eq!(compress(&src, &mut dst, Some(vec![1, 2, 3])), Ok(3));
    assert_eq!(dst, vec![1, 2, 3]);
    let mut dst2 = Vec::new();
    assert_eq!(compress(&src, &mut dst2, None), Err(ArchiveError::Codec));
}

#[test]
fn decompress_checks_size() {
    assert_eq!(decompress(Some(vec![1, 2]), 2), Ok(vec![1, 2]));
    assert_eq!(decompress(Some(vec![1, 2]), 3), Err(ArchiveError::Codec));
    assert_eq!(decompress(None, 3), Err(ArchiveError::Codec));
}

#[test]
fn fnv_hash_known_values() {
    assert_eq!(fnv1a64_hash_string(&String::new()), 0xcbf29ce484222325);
    assert_eq!(fnv1a64_hash_string(&"a".to_owned()), 0xaf63dc4c8601ec8c);
}

#[test]
fn sha1_known_value() {
    let d = sha1_hash_file(&b"abc".to_vec());
    assert_eq!(
        d,
        [
            0xa9, 0x99, 0x3e, 0x36, 0x47, 0x06, 0x81, 0x6a, 0xba, 0x3e, 0x25, 0x71, 0x78, 0x50,
            0xc2, 0x6c, 0x9c, 0xd0, 0xd8, 0x9d
        ]
    );
}

#[test]
fn crc64_known_value() {
    assert_eq!(crc64_of_table(b"123456789"), 0xe9c6d914c4b8d9ca);
}

#[test]
fn null_terminated_strings() {
    let mut buf = Vec::new();
    write_null_terminated_string(&mut buf, "ab".to_owned());
    write_null_terminated_string(&mut buf, String::new());
    assert_eq!(buf, vec![b'a', b'b', 0, 0]);
    let (s, next) = read_null_terminated_string(&buf, 0).unwrap();
    assert_eq!(s, "ab");
    assert_eq!(next, 3);
    let (s2, next2) = read_null_terminated_string(&buf, 3).unwrap();
    assert_eq!(s2, "");
    assert_eq!(next2, 4);
    assert!(read_null_terminated_string(&buf, 4).is_none());
    assert!(read_null_terminated_string(&[1u8, 2, 3], 0).is_none());
}

#[test]
fn header_round_trip() {
    let h = Header::new(4096, 100, 0, 0, 8192);
    let mut out = Vec::new();
    h.write(&mut out);
    assert_eq!(out.len(), 40);
    assert_eq!(&out[0..4], &1380009042u32.to_le_bytes());
    let back = Header::from_reader(&out, 0).unwrap();
    assert_eq!(back, h);
    assert!(Header::from_reader(&out, 1).is_none());
}

#[test]
fn segment_round_trip() {
    let s = FileSegment::new(0x1_0000_0001, 7, 9);
    let mut out = Vec::new();
    s.write(&mut out);
    assert_eq!(out.len(), 16);
    assert_eq!(FileSegment::from_reader(&out, 0), Some(s));
}

#[test]
fn footer_stored_raw_round_trip() {
    let footer = LxrsFooter::new(vec!["base\\cycleweapons\\localization\\en-us.json".to_owned()]);
    let mut out = Vec::new();
    footer.write(&mut out, None).unwrap();
    match LxrsFooter::from_reader(&out, 0).unwrap() {
        FooterRead::Decoded(f) => assert_eq!(
            f.files(),
            &vec!["base\\cycleweapons\\localization\\en-us.json".to_owned()]
        ),
        FooterRead::Compressed { .. } => panic!("a short footer is stored raw"),
    }
}

#[test]
fn footer_errors() {
    let footer = LxrsFooter::new(vec!["x".to_owned()]);
    let mut out = Vec::new();
    footer.write(&mut out, None).unwrap();
    let mut bad_magic = out.clone();
    bad_magic[0] ^= 1;
    assert!(matches!(LxrsFooter::from_reader(&bad_magic, 0), Err(ArchiveError::InvalidInput)));
    let mut bad_sizes = out.clone();
    bad_sizes[12] = 0;
    assert!(matches!(LxrsFooter::from_reader(&bad_sizes, 0), Err(ArchiveError::InvalidInput)));
    assert!(matches!(LxrsFooter::from_reader(&out[..10], 0), Err(ArchiveError::InvalidData)));
}

#[test]
fn footer_compressed_payload_is_handed_back() {
    let names: Vec<String> = (0..40).map(|i| format!("base\\some\\long\\path\\file{}.json", i)).collect();
    let footer = LxrsFooter::new(names.clone());
    let raw = footer.payload();
    assert!(raw.len() >= 256);
    let mut out = Vec::new();
    footer.write(&mut out, Some(vec![9u8; 20])).unwrap();
    match LxrsFooter::from_reader(&out, 0).unwrap() {
        FooterRead::Compressed { payload, size, count } => {
            assert_eq!(payload, vec![9u8; 20]);
            assert_eq!(size as usize, raw.len());
            assert_eq!(count, 40);
            let back = LxrsFooter::from_decompressed(&raw, count);
            assert_eq!(back.files(), &names);
        }
        FooterRead::Decoded(_) => panic!("the payload was compressed"),
    }
    let mut out2 = Vec::new();
    assert_eq!(footer.write(&mut out2, Some(vec![0u8; raw.len() + 1])), Err(ArchiveError::Codec));
}

#[test]
fn extensions_and_paths() {
    assert_eq!(file_extension(b"dir/File.MESH"), Some(b"mesh".to_vec()));
    assert_eq!(file_extension(b"dir.x/noext"), None);
    assert_eq!(file_extension(b".hidden"), None);
    assert!(is_packable_extension(b"mesh"));
    assert!(is_packable_extension(b"bin"));
    assert!(!is_packable_extension(b"txt"));
    assert_eq!(normalize_path(b"a/b\\c/d"), b"a\\b\\c\\d".to_vec());
    assert_eq!(get_aligned_file_extensions().len(), 5);
    assert_eq!(get_uncompressed_file_extensions().len(), 7);
}

#[test]
fn padding_reaches_page() {
    let mut v = vec![0u8; 10];
    pad_until_page(&mut v);
    assert_eq!(v.len(), 4096);
    assert_eq!(v[10], 0xD9);
    pad_until_page(&mut v);
    assert_eq!(v.len(), 4096);
}

#[test]
fn stable_hash_ordering() {
    let paths = ["a", "z", "#", "_", "AA", "ZZ"];
    let hashes: Vec<u64> = paths.iter().map(|p| fnv1a64_hash_string(&p.to_string())).collect();
    let order = hash_order(&hashes);
    let produced: Vec<u64> = order.iter().map(|&i| hashes[i]).collect();
    let mut expected = hashes.clone();
    expected.sort();
    assert_eq!(produced, expected);
}

fn no_codec(_: &Vec<u8>) -> Option<Vec<u8>> {
    None
}

fn src(path: &str, data: Vec<u8>) -> SourceFile {
    SourceFile { path: path.to_owned(), data }
}

#[test]
fn pack_then_extract_raw_files() {
    let files = vec![
        src("sub/a.bin", vec![1, 2, 3]),
        src("b.json", b"{}".to_vec()),
        src("empty.csv", Vec::new()),
        src("ignored.txt", vec![5; 10]),
    ];
    let packed = create_from_directory(&files, None, &no_codec).unwrap();
    assert_eq!(packed.bytes.len() % 4096, 0);
    assert_eq!(packed.header.filesize as usize, packed.bytes.len());
    assert_eq!(packed.entries.len(), 3);
    for w in packed.entries.windows(2) {
        assert!(w[0].name_hash_64 <= w[1].name_hash_64);
        assert_eq!(w[0].segments_end, w[1].segments_start);
    }
    for e in &packed.entries {
        assert!(e.segments_start < e.segments_end);
        assert!(e.segments_end as usize <= packed.segments.len());
    }
    for g in &packed.segments {
        assert!(g.offset + g.z_size as u64 <= packed.header.index_position);
    }
    assert_eq!(packed.header.index_position % 4096, 0);
    let archive = open_read(packed.bytes.clone()).unwrap();
    assert_eq!(archive.get_entries().len(), 3);
    let out = extract_to_directory(packed.bytes.clone(), None).unwrap();
    assert_eq!(out.len(), 3);
    for x in &out {
        let bytes = x.data.assemble(None).unwrap();
        let hash = fnv1a64_hash_string(&"sub\\a.bin".to_owned());
        if x.hash == hash {
            assert_eq!(bytes, vec![1, 2, 3]);
            assert_eq!(x.path, format!("{}.bin", hash));
        }
        if x.hash == fnv1a64_hash_string(&"empty.csv".to_owned()) {
            assert!(bytes.is_empty());
            let e = archive.get_entry("empty.csv").unwrap();
            assert_eq!(e.segment.size, 0);
            assert_eq!(e.segment.z_size, 0);
            assert!(e.buffers.is_empty());
        }
    }
    let a = archive.get_entry("sub\\a.bin").unwrap();
    assert_eq!(a.entry.sha1_hash, sha1_hash_file(&vec![1, 2, 3]));
    assert_eq!(a.segment.offset % 4096, 0);
}

#[test]
fn pack_uses_codec_and_frames_payload() {
    let content: Vec<u8> = (0..300u32).map(|i| (i % 7) as u8).collect();
    let files = vec![src("big.json", content.clone())];
    let codec = |x: &Vec<u8>| -> Option<Vec<u8>> {
        if x.len() == 300 { Some(vec![42u8; 12]) } else { None }
    };
    let packed = create_from_directory(&files, None, &codec).unwrap();
    let archive = open_read(packed.bytes.clone()).unwrap();
    let e = archive.get_entry("big.json").unwrap();
    assert_eq!(e.segment.size, 300);
    assert_eq!(e.segment.z_size, 20);
    assert!(e.segment.z_size as i32 <= get_compressed_buffer_size_needed(300));
    let data = archive.open_entry(e).unwrap();
    match &data.main {
        SegmentData::Kraken { payload, size } => {
            assert_eq!(payload, &vec![42u8; 12]);
            assert_eq!(*size, 300);
        }
        SegmentData::Stored(_) => panic!("the main segment was framed"),
    }
    assert_eq!(data.decoded_size(), Some(300));
    assert_eq!(data.assemble(Some(content.clone())).unwrap(), content);
    assert_eq!(data.assemble(Some(vec![0u8; 5])), Err(ArchiveError::Codec));
    assert_eq!(data.assemble(None), Err(ArchiveError::Codec));
}

#[test]
fn codec_output_is_framed_unless_frame_matches_size() {
    let content = vec![5u8; 300];
    let files = vec![src("big.json", content.clone())];
    let codec = |_: &Vec<u8>| -> Option<Vec<u8>> { Some(vec![1u8; 295]) };
    let packed = create_from_directory(&files, None, &codec).unwrap();
    let archive = open_read(packed.bytes).unwrap();
    let e = archive.get_entry("big.json").unwrap();
    assert_eq!(e.segment.z_size, 303);
    assert_eq!(archive.open_entry(e).unwrap().decoded_size(), Some(300));

    let exact = |_: &Vec<u8>| -> Option<Vec<u8>> { Some(vec![1u8; 292]) };
    let packed = create_from_directory(&files, None, &exact).unwrap();
    let archive = open_read(packed.bytes).unwrap();
    let e = archive.get_entry("big.json").unwrap();
    assert_eq!(e.segment.z_size, e.segment.size);
    assert_eq!(archive.open_entry(e).unwrap().assemble(None).unwrap(), content);
}

#[test]
fn pack_reports_codec_failure() {
    let files = vec![src("big.json", vec![3u8; 400])];
    assert!(matches!(
        create_from_directory(&files, None, &no_codec),
        Err(ArchiveError::Codec)
    ));
}

fn cooked_file() -> Vec<u8> {
    let mut f = Vec::new();
    f.extend_from_slice(&0x57325243u32.to_le_bytes());
    // header: version, flags, timestamp, build, objects_end, buffers_end, crc, chunks
    for v in [1u32, 0] {
        f.extend_from_slice(&v.to_le_bytes());
    }
    f.extend_from_slice(&0u64.to_le_bytes());
    let objects_end = 160u32 + 24;
    for v in [0u32, objects_end, 0, 0, 0] {
        f.extend_from_slice(&v.to_le_bytes());
    }
    // ten tables; buffers (index 5) hold one record at offset 160
    for t in 0..10 {
        let (offset, count) = if t == 5 { (160u32, 1u32) } else { (160u32, 0u32) };
        for v in [offset, count, 0] {
            f.extend_from_slice(&v.to_le_bytes());
        }
    }
    assert_eq!(f.len(), 160);
    // the buffer record: flags, index, offset, disk_size, mem_size, crc
    for v in [0u32, 0, 0, 5, 9, 0] {
        f.extend_from_slice(&v.to_le_bytes());
    }
    f.extend_from_slice(&[10, 11, 12, 13, 14]);
    f.extend_from_slice(&[99, 99]);
    f
}

#[test]
fn cooked_resource_is_split() {
    let data = cooked_file();
    match read_cr2w_header(&data) {
        Cr2wParse::Cooked(info) => {
            assert_eq!(info.header.objects_end, 184);
            assert_eq!(info.buffers_table.len(), 1);
            assert_eq!(info.buffers_table[0].disk_size, 5);
            assert_eq!(info.buffers_table[0].mem_size, 9);
        }
        Cr2wParse::NotCooked => panic!("the file is cooked"),
    }
    assert!(matches!(read_cr2w_header(&data[..100]), Cr2wParse::NotCooked));
    assert!(matches!(read_cr2w_header(&vec![0u8; 200]), Cr2wParse::NotCooked));
    let mut too_many = data.clone();
    let count_at = 40 + 12 * 5 + 4;
    too_many[count_at..count_at + 4].copy_from_slice(&1000u32.to_le_bytes());
    assert!(matches!(read_cr2w_header(&too_many), Cr2wParse::NotCooked));

    let files = vec![src("x.mesh", data.clone())];
    let packed = create_from_directory(&files, None, &no_codec).unwrap();
    let archive = open_read(packed.bytes.clone()).unwrap();
    let e = archive.get_entry("x.mesh").unwrap();
    assert_eq!(e.buffers.len(), 1);
    assert_eq!(e.buffers[0].z_size, 5);
    assert_eq!(e.buffers[0].size, 9);
    let bytes = archive.open_entry(e).unwrap().assemble(None).unwrap();
    assert_eq!(bytes, data[..189].to_vec());
}

#[test]
fn plan_lists_footer_paths_known_to_dictionary() {
    let files = vec![src("a.json", b"1".to_vec()), src("b.json", b"2".to_vec())];
    let mut dict = HashMap::new();
    dict.insert(fnv1a64_hash_string(&"b.json".to_owned()), "b.json".to_owned());
    let plan = plan_pack(&files, &dict).unwrap();
    assert_eq!(plan.custom_paths, vec!["b.json".to_owned()]);
    let packed = create_from_directory(&files, Some(dict), &no_codec).unwrap();
    assert!(packed.custom_data_length > 0);
    let archive = open_read(packed.bytes).unwrap();
    let b = archive.get_entry("b.json").unwrap();
    assert_eq!(b.name, Some("b.json".to_owned()));
    assert_eq!(archive.get_entry("a.json").unwrap().name, None);
}

#[test]
fn reader_errors() {
    let files = vec![src("a.bin", vec![1, 2, 3])];
    let mut packed = create_from_directory(&files, None, &no_codec).unwrap().bytes;
    assert!(extract_to_directory(packed.clone(), None).is_ok());
    let seg_offset_at = packed.len() - 4096 + 28 + 56;
    packed[seg_offset_at..seg_offset_at + 8].copy_from_slice(&u64::MAX.to_le_bytes());
    assert!(matches!(extract_to_directory(packed, None), Err(ArchiveError::InvalidData)));
    assert!(matches!(open_read(vec![0u8; 10]), Err(ArchiveError::InvalidData)));
    assert!(matches!(open_read(vec![0u8; 64]), Err(ArchiveError::InvalidInput)));
    let h = Header::new(1_000_000, 0, 0, 0, 0);
    let mut bytes = Vec::new();
    h.write(&mut bytes);
    assert!(matches!(Archive::from_bytes(&bytes), Err(ArchiveError::InvalidData)));
}

#[test]
fn handle_lookup_and_modes() {
    let files = vec![src("a.bin", vec![1])];
    let packed = create_from_directory(&files, None, &no_codec).unwrap();
    let mut archive = open_read(packed.bytes.clone()).unwrap();
    let h = fnv1a64_hash_string(&"a.bin".to_owned());
    assert!(archive.get_entry_by_hash(&h).is_some());
    assert!(matches!(
        archive.extract_entry_by_hash(h ^ 1, &HashMap::new()),
        Err(ArchiveError::NotFound)
    ));
    let mut dict = HashMap::new();
    dict.insert(h, "named\\a.bin".to_owned());
    let (path, data) = archive.extract_entry_by_name("a.bin", &dict).unwrap();
    assert_eq!(path, "named\\a.bin");
    assert_eq!(data.assemble(None).unwrap(), vec![1]);
    assert!(matches!(archive.delete_entry(&h), Err(ArchiveError::Unsupported)));
    assert!(matches!(
        archive.create_entry("c.bin", CompressionLevel::Normal),
        Err(ArchiveError::Unsupported)
    ));
    let mut upd = ZipArchive::from_reader_consume(packed.bytes, ArchiveMode::Update).unwrap();
    assert!(matches!(upd.delete_entry(&h), Err(ArchiveError::Unsupported)));
    assert!(upd.get_entry_by_hash(&h).is_some());
    let created = ZipArchive::from_reader_consume(Vec::new(), ArchiveMode::Create).unwrap();
    assert!(created.get_entries().is_empty());
}

#[test]
fn archive_file_hashes() {
    let files = vec![src("a.bin", vec![1]), src("b.bin", vec![2])];
    let packed = create_from_directory(&files, None, &no_codec).unwrap();
    let a = Archive::from_bytes(&packed.bytes).unwrap();
    let hashes = a.get_file_hashes();
    let mut expected = vec![
        fnv1a64_hash_string(&"a.bin".to_owned()),
        fnv1a64_hash_string(&"b.bin".to_owned()),
    ];
    expected.sort();
    assert_eq!(hashes, expected);
}

#[test]
fn dictionary_lines() {
    assert_eq!(
        parse_hash_line(b"base\\a.mesh,12345"),
        Some((12345u64, "base\\a.mesh".to_owned()))
    );
    assert_eq!(parse_hash_line(b"x,18446744073709551615,extra"), Some((u64::MAX, "x".to_owned())));
    assert_eq!(parse_hash_line(b"x,18446744073709551616"), None);
    assert_eq!(parse_hash_line(b"path,hash"), None);
    assert_eq!(parse_hash_line(b"no comma"), None);
    assert_eq!(parse_hash_line(b"empty,"), None);
}

#[test]
fn unknown_entry_name_is_decimal_hash() {
    let files = vec![src("q.bin", vec![7])];
    let packed = create_from_directory(&files, None, &no_codec).unwrap();
    let archive = open_read(packed.bytes).unwrap();
    let h = fnv1a64_hash_string(&"q.bin".to_owned());
    let (path, _) = archive.extract_entry_by_hash(h, &HashMap::new()).unwrap();
    assert_eq!(path, format!("{}.bin", h));
}
