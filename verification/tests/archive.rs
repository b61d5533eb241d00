//! Validation errors and hand-crafted archives, byte by byte.

use tw_pack_lib::crypto::FILE_KEY;
use tw_pack_lib::error::Error;
use tw_pack_lib::source::PackSource;
use tw_pack_lib::{parse_pack, PFHFileType, PFHVersion};

const PFH5: u32 = 0x35484650;
const PFH4: u32 = 0x34484650;
const PFH3: u32 = 0x33484650;

fn le(words: &[u32]) -> Vec<u8> {
    let mut out = Vec::new();
    for w in words {
        out.extend_from_slice(&w.to_le_bytes());
    }
    out
}

fn header(preamble: u32, flags: u32, pf: (u32, u32), pfi: (u32, u32), ts: u32) -> Vec<u8> {
    le(&[preamble, flags, pf.0, pf.1, pfi.0, pfi.1, ts])
}

#[test]
fn test_parse_too_short() {
    let r = parse_pack(PackSource::Memory(std::sync::Arc::new(vec![0x50])), true);
    assert_eq!(r.err(), Some(Error::InvalidFileError));
}

#[test]
fn test_parse_legacy_preamble_rejected() {
    let r = parse_pack(PackSource::Memory(std::sync::Arc::new(le(&[PFH3]))), true);
    assert_eq!(r.err(), Some(Error::UnsupportedPackFile));
}

#[test]
fn test_parse_unknown_preamble_rejected() {
    let r = parse_pack(PackSource::Memory(std::sync::Arc::new(vec![0, 0, 0, 0])), true);
    assert_eq!(r.err(), Some(Error::InvalidHeaderError));
}

#[test]
fn test_parse_truncated_header() {
    let r = parse_pack(PackSource::Memory(std::sync::Arc::new(le(&[PFH4]))), true);
    assert_eq!(r.err(), Some(Error::InvalidFileError));
}

#[test]
fn test_parse_type_out_of_range() {
    let bytes = header(PFH4, 5, (0, 0), (0, 0), 0);
    let r = parse_pack(PackSource::Memory(std::sync::Arc::new(bytes)), true);
    assert_eq!(r.err(), Some(Error::InvalidHeaderError));
}

#[test]
fn test_parse_name_index_past_end() {
    let bytes = header(PFH4, 0, (1, 100), (0, 0), 0);
    let r = parse_pack(PackSource::Memory(std::sync::Arc::new(bytes)), true);
    assert_eq!(r.err(), Some(Error::InvalidFileError));
}

#[test]
fn test_eager_parse_reports_broken_index() {
    // One entry declared, but the packed-file index is empty: the walk ends
    // early and eager parsing says so.
    let bytes = header(PFH4, 0, (0, 0), (1, 0), 0);
    assert!(parse_pack(PackSource::Memory(std::sync::Arc::new(bytes.clone())), true).is_ok());
    let r = parse_pack(PackSource::Memory(std::sync::Arc::new(bytes)), false);
    assert_eq!(r.err(), Some(Error::IndexIteratorError));
}

#[test]
fn test_lazy_entry_past_end_fails_with_io_error() {
    // The entry's declared length points far past the end of the archive:
    // the index parses, but reading the data fails.
    let mut bytes = header(PFH4, 0, (0, 0), (1, 6), 0);
    bytes.extend_from_slice(&1000u32.to_le_bytes());
    bytes.extend_from_slice(b"a\0");
    let pack = parse_pack(PackSource::Memory(std::sync::Arc::new(bytes)), true).unwrap();
    let mut entries = pack.packed_files().unwrap();
    assert_eq!(entries.len(), 1);
    assert_eq!(entries[0].get_data().err(), Some(Error::IOError));
}

#[test]
fn test_reserved_flag_bits_warn_but_parse() {
    let bytes = header(PFH4, 0x0200, (0, 0), (0, 0), 0);
    let pack = parse_pack(PackSource::Memory(std::sync::Arc::new(bytes)), false).unwrap();
    assert!(pack.has_unknown_flag_bits());
    let clean = header(PFH4, 0, (0, 0), (0, 0), 0);
    let pack = parse_pack(PackSource::Memory(std::sync::Arc::new(clean)), false).unwrap();
    assert!(!pack.has_unknown_flag_bits());
}

#[test]
fn test_unterminated_pack_file_name() {
    let mut bytes = header(PFH4, 0, (1, 2), (0, 0), 0);
    bytes.extend_from_slice(b"ab");
    let pack = parse_pack(PackSource::Memory(std::sync::Arc::new(bytes)), false).unwrap();
    assert_eq!(pack.get_pack_file_index().err(), Some(Error::InvalidFileError));
}

#[test]
fn test_other_file_type_on_read() {
    // Type values 5..15 in the low bits are refused by validation, so Other
    // only appears through its numeric value.
    assert_eq!(PFHFileType::Other(11).get_value(), 11);
}

#[test]
fn test_hand_crafted_encrypted_content_archive() {
    // A version-5 archive with encrypted content and a 5-byte entry: the
    // content slot is padded to 8 bytes and enciphered; the parser must give
    // back the 5 plaintext bytes.
    let plain = b"guard";
    let mut padded = plain.to_vec();
    padded.resize(8, 0);
    let mask = FILE_KEY.wrapping_mul(!0u32 as u64);
    let lo = (mask & 0xFFFF_FFFF) as u32;
    let hi = ((mask >> 32) & 0xFFFF_FFFF) as u32;
    let w0 = u32::from_le_bytes([padded[0], padded[1], padded[2], padded[3]]);
    let w1 = u32::from_le_bytes([padded[4], padded[5], padded[6], padded[7]]);

    // Header: encrypted content, one entry, index of 7 bytes.
    let mut bytes = header(PFH5, 0x10, (0, 0), (1, 7), 0);
    // Index entry: length word, separator byte, path "a", terminator.
    bytes.extend_from_slice(&5u32.to_le_bytes());
    bytes.push(0);
    bytes.extend_from_slice(b"a\0");
    // The content region starts at the next multiple of 8 (0x1C + 7 = 35,
    // rounded up to 40).
    while bytes.len() < 40 {
        bytes.push(0);
    }
    bytes.extend_from_slice(&(lo ^ w0).to_le_bytes());
    bytes.extend_from_slice(&(hi ^ w1).to_le_bytes());

    let pack = parse_pack(PackSource::Memory(std::sync::Arc::new(bytes)), false).unwrap();
    assert_eq!(pack.get_version(), PFHVersion::PFH5);
    let mut entries = pack.packed_files().unwrap();
    assert_eq!(entries.len(), 1);
    assert_eq!(entries[0].path, "a");
    assert_eq!(entries[0].get_data().unwrap(), plain.to_vec());
}

#[test]
fn test_hand_crafted_encrypted_index_archive() {
    // A version-5 archive whose packed-file index is obfuscated: the length
    // word is XORed with the entry's index-from-end and the fixed constant,
    // and the path with the session key and the filename key.
    let data = b"zz";
    let path = b"q";
    let enc_len = 0u32 ^ (data.len() as u32) ^ 0x15091984;
    let key = (data.len() & 0xff) as u8;
    let key_bytes = tw_pack_lib::crypto::INDEX_KEY.as_bytes();
    let mut bytes = header(PFH5, 0x80, (0, 0), (1, 4 + 1 + 2), 0);
    bytes.extend_from_slice(&enc_len.to_le_bytes());
    bytes.push(0);
    bytes.push(path[0] ^ key ^ key_bytes[0]);
    bytes.push(0 ^ key ^ key_bytes[1]);
    bytes.extend_from_slice(data);
    let pack = parse_pack(PackSource::Memory(std::sync::Arc::new(bytes)), false).unwrap();
    let mut entries = pack.packed_files().unwrap();
    assert_eq!(entries.len(), 1);
    assert_eq!(entries[0].path, "q");
    assert_eq!(entries[0].get_data().unwrap(), data.to_vec());
}
