//! Build-then-parse round trips over in-memory archives.

use tw_pack_lib::builder::build_pack_from_memory;
use tw_pack_lib::source::PackSource;
use tw_pack_lib::{parse_pack, PFHFileType, PFHFlags, PFHVersion, PackedFile, HAS_BIG_HEADER,
    HAS_ENCRYPTED_CONTENT, HAS_ENCRYPTED_INDEX, HAS_INDEX_WITH_TIMESTAMPS};

fn build(
    names: &[&str],
    files: Vec<PackedFile>,
    version: PFHVersion,
    bits: u32,
    file_type: PFHFileType,
    ts: u32,
) -> Vec<u8> {
    let names: Vec<String> = names.iter().map(|s| s.to_string()).collect();
    let mut files = files;
    build_pack_from_memory(
        &names,
        &mut files,
        version,
        PFHFlags::from_bits_truncate(bits),
        file_type,
        ts,
    )
    .unwrap()
}

#[test]
fn test_v5_mod_round_trip() {
    let files = vec![
        PackedFile::new(None, "b\\c".to_string(), Vec::new()),
        PackedFile::new(None, "a".to_string(), b"hi".to_vec()),
    ];
    let bytes = build(&[], files, PFHVersion::PFH5, HAS_BIG_HEADER, PFHFileType::Mod, 0);
    let pack = parse_pack(PackSource::Memory(std::sync::Arc::new(bytes)), false).unwrap();
    assert_eq!(pack.get_version(), PFHVersion::PFH5);
    assert_eq!(pack.get_file_type(), PFHFileType::Mod);
    assert_eq!(pack.get_bitmask().bits, HAS_BIG_HEADER);
    assert!(!pack.has_unknown_flag_bits());
    let mut entries = pack.packed_files().unwrap();
    assert_eq!(entries.len(), 2);
    assert_eq!(entries[0].path, "a");
    assert_eq!(entries[1].path, "b\\c");
    assert_eq!(entries[0].get_data().unwrap(), b"hi".to_vec());
    assert_eq!(entries[1].get_data().unwrap(), Vec::<u8>::new());
}

#[test]
fn test_dependency_index_round_trip() {
    let bytes = build(
        &["dep1.pack", "dep2.pack"],
        Vec::new(),
        PFHVersion::PFH5,
        0,
        PFHFileType::Boot,
        42,
    );
    let pack = parse_pack(PackSource::Memory(std::sync::Arc::new(bytes)), false).unwrap();
    assert_eq!(pack.get_timestamp(), 42);
    assert_eq!(pack.get_pack_file_index_length(), 2);
    let names = pack.get_pack_file_index().unwrap();
    assert_eq!(names, vec!["dep1.pack".to_string(), "dep2.pack".to_string()]);
    assert_eq!(pack.packed_files().unwrap().len(), 0);
}

#[test]
fn test_v4_timestamped_index_round_trip() {
    let files = vec![PackedFile::new(Some(7), "unit".to_string(), b"xyz".to_vec())];
    let bytes = build(
        &[],
        files,
        PFHVersion::PFH4,
        HAS_INDEX_WITH_TIMESTAMPS,
        PFHFileType::Release,
        9,
    );
    let pack = parse_pack(PackSource::Memory(std::sync::Arc::new(bytes.clone())), false).unwrap();
    assert_eq!(pack.get_version(), PFHVersion::PFH4);
    assert_eq!(pack.get_timestamp(), 9);
    let mut entries = pack.packed_files().unwrap();
    assert_eq!(entries.len(), 1);
    assert_eq!(entries[0].timestamp, Some(7));
    assert_eq!(entries[0].path, "unit");
    assert_eq!(entries[0].get_data().unwrap(), b"xyz".to_vec());
    // The index-entry size math matches the bytes on disk: length word,
    // timestamp word, path, terminator; and the whole file adds up.
    assert_eq!(pack.get_packed_file_index_size(), 4 + 4 + 4 + 1);
    assert_eq!(bytes.len(), 0x1C + 0 + 13 + 3);
}

#[test]
fn test_empty_archives_both_versions_both_headers() {
    let b4 = build(&[], Vec::new(), PFHVersion::PFH4, 0, PFHFileType::Boot, 1);
    assert_eq!(b4.len(), 0x1C);
    let p4 = parse_pack(PackSource::Memory(std::sync::Arc::new(b4)), false).unwrap();
    assert_eq!(p4.get_packed_file_index_length(), 0);

    let b5 = build(&[], Vec::new(), PFHVersion::PFH5, 0, PFHFileType::Boot, 1);
    assert_eq!(b5.len(), 0x1C);
    let p5 = parse_pack(PackSource::Memory(std::sync::Arc::new(b5)), false).unwrap();
    assert_eq!(p5.get_version(), PFHVersion::PFH5);

    let b5big = build(&[], Vec::new(), PFHVersion::PFH5, HAS_BIG_HEADER, PFHFileType::Boot, 1);
    assert_eq!(b5big.len(), 0x30);
    let p5big = parse_pack(PackSource::Memory(std::sync::Arc::new(b5big)), false).unwrap();
    assert_eq!(p5big.get_bitmask().bits, HAS_BIG_HEADER);
    // The big-header timestamp slot holds the first reserved zero word.
    assert_eq!(p5big.get_timestamp(), 0);
}

#[test]
fn test_single_entry_zero_length_data() {
    // Plain.
    let files = vec![PackedFile::new(None, "empty".to_string(), Vec::new())];
    let bytes = build(&[], files, PFHVersion::PFH4, 0, PFHFileType::Mod, 0);
    let pack = parse_pack(PackSource::Memory(std::sync::Arc::new(bytes)), false).unwrap();
    let mut entries = pack.packed_files().unwrap();
    assert_eq!(entries[0].get_data().unwrap(), Vec::<u8>::new());

    // Encrypted: a zero-length slot has no blocks, so the entry reads back
    // empty; the archive is laid out by hand since the content region of an
    // encrypted version-5 archive starts at the next multiple of 8.
    let mut bytes = Vec::new();
    for w in [0x35484650u32, HAS_ENCRYPTED_CONTENT, 0, 0, 1, 4 + 1 + 6, 0] {
        bytes.extend_from_slice(&w.to_le_bytes());
    }
    bytes.extend_from_slice(&0u32.to_le_bytes());
    bytes.push(0);
    bytes.extend_from_slice(b"empty\0");
    while bytes.len() < 40 {
        bytes.push(0);
    }
    let pack = parse_pack(PackSource::Memory(std::sync::Arc::new(bytes)), false).unwrap();
    assert_eq!(pack.get_bitmask().bits, HAS_ENCRYPTED_CONTENT);
    let mut entries = pack.packed_files().unwrap();
    assert_eq!(entries.len(), 1);
    assert_eq!(entries[0].path, "empty");
    assert_eq!(entries[0].get_data().unwrap(), Vec::<u8>::new());
}

#[test]
fn test_path_length_boundaries() {
    // Path lengths around the filename cipher's 64-byte key, through the
    // plaintext build-and-parse pipeline.
    let mut files = Vec::new();
    let mut expected: Vec<String> = Vec::new();
    for &n in &[1usize, 63, 64, 65] {
        let path: String = std::iter::repeat('p').take(n).collect();
        files.push(PackedFile::new(None, path.clone(), vec![n as u8]));
        expected.push(path);
    }
    expected.sort();
    let bytes = build(&[], files, PFHVersion::PFH5, 0, PFHFileType::Mod, 0);
    let pack = parse_pack(PackSource::Memory(std::sync::Arc::new(bytes)), false).unwrap();
    let mut entries = pack.packed_files().unwrap();
    assert_eq!(entries.len(), 4);
    for (entry, path) in entries.iter_mut().zip(expected.iter()) {
        assert_eq!(&entry.path, path);
        assert_eq!(entry.get_data().unwrap(), vec![path.len() as u8]);
    }
}

#[test]
fn test_flag_bits_preserved() {
    for &bits in &[
        HAS_BIG_HEADER,
        HAS_ENCRYPTED_INDEX,
        HAS_INDEX_WITH_TIMESTAMPS,
        HAS_ENCRYPTED_CONTENT,
        HAS_BIG_HEADER | HAS_INDEX_WITH_TIMESTAMPS,
    ] {
        let bytes = build(&[], Vec::new(), PFHVersion::PFH5, bits, PFHFileType::Boot, 0);
        let pack = parse_pack(PackSource::Memory(std::sync::Arc::new(bytes)), true).unwrap();
        assert_eq!(pack.get_bitmask().bits, bits);
    }
}

#[test]
fn test_file_types_round_trip() {
    for &(ft, value) in &[
        (PFHFileType::Boot, 0u32),
        (PFHFileType::Release, 1),
        (PFHFileType::Patch, 2),
        (PFHFileType::Mod, 3),
        (PFHFileType::Movie, 4),
    ] {
        assert_eq!(ft.get_value(), value);
        let bytes = build(&[], Vec::new(), PFHVersion::PFH4, 0, ft, 0);
        let pack = parse_pack(PackSource::Memory(std::sync::Arc::new(bytes)), true).unwrap();
        assert_eq!(pack.get_file_type(), ft);
    }
}

#[test]
fn test_repack_byte_identical() {
    // Parsing an archive and building it again from what was parsed gives
    // the same bytes.
    let files = vec![
        PackedFile::new(Some(3), "x\\one".to_string(), b"alpha".to_vec()),
        PackedFile::new(Some(4), "x\\two".to_string(), b"beta".to_vec()),
    ];
    let bytes = build(
        &["base.pack"],
        files,
        PFHVersion::PFH5,
        HAS_INDEX_WITH_TIMESTAMPS,
        PFHFileType::Mod,
        77,
    );
    let pack = parse_pack(PackSource::Memory(std::sync::Arc::new(bytes.clone())), false).unwrap();
    let names = pack.get_pack_file_index().unwrap();
    let mut entries = pack.packed_files().unwrap();
    for e in entries.iter_mut() {
        e.get_data().unwrap();
    }
    let rebuilt = build_pack_from_memory(
        &names,
        &mut entries,
        PFHVersion::PFH5,
        PFHFlags::from_bits_truncate(HAS_INDEX_WITH_TIMESTAMPS),
        PFHFileType::Mod,
        77,
    )
    .unwrap();
    assert_eq!(rebuilt, bytes);
}

#[test]
fn test_iterator_yields_count_then_stops() {
    let files = vec![
        PackedFile::new(None, "a".to_string(), b"1".to_vec()),
        PackedFile::new(None, "b".to_string(), b"2".to_vec()),
        PackedFile::new(None, "c".to_string(), b"3".to_vec()),
    ];
    let bytes = build(&[], files, PFHVersion::PFH4, 0, PFHFileType::Mod, 0);
    let pack = parse_pack(PackSource::Memory(std::sync::Arc::new(bytes)), true).unwrap();
    assert_eq!(pack.get_packed_file_index_length(), 3);
    let mut it = pack.into_iter();
    let mut seen = 0;
    while let Some(_) = it.next() {
        seen += 1;
    }
    assert_eq!(seen, 3);
    assert!(it.next().is_none());
}

#[test]
fn test_large_archive_scale() {
    // A count in the tens of thousands: a performance sanity check.
    let mut files = Vec::new();
    for i in 0..65536u32 {
        let path = format!("pack\\{:05}", i);
        files.push(PackedFile::new(None, path, vec![(i % 251) as u8]));
    }
    let bytes = build(&[], files, PFHVersion::PFH5, 0, PFHFileType::Mod, 0);
    let pack = parse_pack(PackSource::Memory(std::sync::Arc::new(bytes)), false).unwrap();
    let mut entries = pack.packed_files().unwrap();
    assert_eq!(entries.len(), 65536);
    assert_eq!(entries[0].path, "pack\\00000");
    assert_eq!(entries[65535].get_data().unwrap(), vec![(65535u32 % 251) as u8]);
}

#[test]
fn test_set_data_replaces_bytes() {
    let mut f = PackedFile::new(None, "a".to_string(), b"old".to_vec());
    f.set_data(b"new".to_vec());
    assert_eq!(f.get_data().unwrap(), b"new".to_vec());
}

#[test]
fn test_clone_keeps_entry() {
    let files = vec![PackedFile::new(Some(1), "a".to_string(), b"data".to_vec())];
    let bytes = build(&[], files, PFHVersion::PFH4, 0, PFHFileType::Mod, 0);
    let pack = parse_pack(PackSource::Memory(std::sync::Arc::new(bytes)), true).unwrap();
    let entries = pack.packed_files().unwrap();
    let mut copy = entries[0].clone();
    assert_eq!(copy.path, "a");
    assert_eq!(copy.get_data().unwrap(), b"data".to_vec());
}
