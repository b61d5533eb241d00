//! Tests of the two ciphers: known vectors and concrete round trips.

use tw_pack_lib::crypto::{decrypt_file, decrypt_index_item_file_length,
    decrypt_index_item_filename, get_key_at, read_padded_u32, try_decrypt_index_item_filename,
    FILE_KEY, INDEX_KEY};

fn encrypt_name(plain: &[u8], key: u8) -> Vec<u8> {
    let mut out = Vec::new();
    for (i, p) in plain.iter().enumerate() {
        out.push(p ^ key ^ get_key_at(i));
    }
    out.push(0 ^ key ^ get_key_at(plain.len()));
    out
}

fn encrypt_content(plain: &[u8]) -> Vec<u8> {
    let mut padded = plain.to_vec();
    while padded.len() % 8 != 0 {
        padded.push(0);
    }
    let mut out = Vec::new();
    let mut edi: u32 = 0;
    for block in padded.chunks(8) {
        let mask = FILE_KEY.wrapping_mul(!edi as u64);
        let lo = (mask & 0xFFFF_FFFF) as u32;
        let hi = ((mask >> 32) & 0xFFFF_FFFF) as u32;
        let w0 = u32::from_le_bytes([block[0], block[1], block[2], block[3]]);
        let w1 = u32::from_le_bytes([block[4], block[5], block[6], block[7]]);
        out.extend_from_slice(&(lo ^ w0).to_le_bytes());
        out.extend_from_slice(&(hi ^ w1).to_le_bytes());
        edi += 8;
    }
    out
}

#[test]
fn test_length_decrypt_vectors() {
    assert_eq!(decrypt_index_item_file_length(0, 0x15091984), 0);
    assert_eq!(decrypt_index_item_file_length(1, 0x15091985), 0);
}

#[test]
fn test_length_cipher_round_trip() {
    for &(idx, len) in &[(0u32, 0u32), (3, 17), (0xFFFF, 0xDEAD_BEEF), (41, 8)] {
        let cipher = idx ^ len ^ 0x15091984;
        assert_eq!(decrypt_index_item_file_length(idx, cipher), len);
    }
}

#[test]
fn test_filename_decrypt_key_vector() {
    // With session key 0, the raw index key deciphers to zeroes: the decoder
    // sees a terminator at once and consumes exactly one byte.
    let ciphertext = INDEX_KEY.as_bytes();
    let (name, used) = decrypt_index_item_filename(ciphertext, 0);
    assert_eq!(name, Vec::<u8>::new());
    assert_eq!(used, 1);
}

#[test]
fn test_filename_cipher_round_trip() {
    let plain = b"db\\units\\main.tsv";
    let cipher = encrypt_name(plain, 0x2a);
    let (name, used) = decrypt_index_item_filename(&cipher, 0x2a);
    assert_eq!(name, plain.to_vec());
    assert_eq!(used as usize, plain.len() + 1);
}

#[test]
fn test_filename_cipher_key_boundaries() {
    // Path lengths around the 64-byte key: just below, at, and past the
    // wrap-around.
    for &n in &[1usize, 63, 64, 65] {
        let plain: Vec<u8> = (0..n).map(|i| (i % 250 + 1) as u8).collect();
        let cipher = encrypt_name(&plain, 0x77);
        let (name, used) = decrypt_index_item_filename(&cipher, 0x77);
        assert_eq!(name, plain);
        assert_eq!(used as usize, n + 1);
    }
}

#[test]
fn test_filename_decoder_reports_missing_terminator() {
    // A ciphertext in which no byte deciphers to 0 has no name to yield.
    let plain: Vec<u8> = vec![7, 7, 7];
    let mut cipher = encrypt_name(&plain, 0x01);
    cipher.pop();
    assert!(try_decrypt_index_item_filename(&cipher, 0x01).is_none());
}

#[test]
fn test_content_decrypt_mask_vector() {
    // With the counter at 0 the mask is FILE_KEY times 0xFFFFFFFF; feeding the
    // mask itself as ciphertext must produce zeroes.
    let mask = FILE_KEY.wrapping_mul(0xFFFF_FFFF);
    let lo = (mask & 0xFFFF_FFFF) as u32;
    let hi = ((mask >> 32) & 0xFFFF_FFFF) as u32;
    let mut cipher = Vec::new();
    cipher.extend_from_slice(&lo.to_le_bytes());
    cipher.extend_from_slice(&hi.to_le_bytes());
    assert_eq!(decrypt_file(&cipher, 8), vec![0u8; 8]);
}

#[test]
fn test_content_cipher_round_trip() {
    // A plaintext whose length is not a multiple of 8: the decoder zero-pads
    // the final block and truncates back to the declared length.
    let plain: Vec<u8> = (0..27).map(|i| (i * 7 + 3) as u8).collect();
    let cipher = encrypt_content(&plain);
    assert_eq!(decrypt_file(&cipher, plain.len()), plain);
}

#[test]
fn test_content_decrypt_empty() {
    assert_eq!(decrypt_file(&[], 0), Vec::<u8>::new());
}

#[test]
fn test_read_padded_u32_past_end() {
    let bytes = [0x11u8, 0x22, 0x33];
    assert_eq!(read_padded_u32(&bytes, 0), 0x0033_2211);
    assert_eq!(read_padded_u32(&bytes, 2), 0x0000_0033);
    assert_eq!(read_padded_u32(&bytes, 3), 0);
}

#[test]
fn test_key_repeats_every_64_bytes() {
    let key = INDEX_KEY.as_bytes();
    assert_eq!(key.len(), 64);
    for i in 0..64usize {
        assert_eq!(get_key_at(i), key[i]);
        assert_eq!(get_key_at(i + 64), key[i]);
    }
}
