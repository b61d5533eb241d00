//! The two ciphers used by obfuscated PackFiles: the packed-file-index cipher
//! (length words and filenames) and the 8-byte-block content cipher.
//!
//! Decryption is specified exactly; the proof functions at the end state that
//! each decoder inverts the corresponding obfuscation.

use vstd::prelude::*;
use vstd::bytes::*;
use vstd::string::*;

verus! {

/// The fixed 64-byte key used to obfuscate filenames in the packed-file index.
pub const INDEX_KEY: &'static str = "L2{B3dPL7L*v&+Q3ZsusUhy[BGQn(Uq$f>JQdnvdlf{-K:>OssVDr#TlYU|13B}r";

/// The bytes of the 64-byte filename key.
pub closed spec fn key_bytes() -> Seq<u8> {
    Seq::new(
        64,
        |i: int|
            "L2{B3dPL7L*v&+Q3ZsusUhy[BGQn(Uq$f>JQdnvdlf{-K:>OssVDr#TlYU|13B}r"@[i] as u8,
    )
}

/// The key byte used at position `i` of a filename: the key repeats every 64 bytes.
pub open spec fn spec_key_at(i: int) -> u8
    recommends
        i >= 0,
{
    key_bytes()[i % 64]
}

/// The key byte used at position `pos` of a filename.
pub fn get_key_at(pos: usize) -> (r: u8)
    ensures
        r == spec_key_at(pos as int),
{
    proof {
        reveal_strlit("L2{B3dPL7L*v&+Q3ZsusUhy[BGQn(Uq$f>JQdnvdlf{-K:>OssVDr#TlYU|13B}r");
        broadcast use vstd::string::is_ascii_spec_bytes;

        assert(INDEX_KEY@.len() == 64);
        assert(is_ascii(INDEX_KEY));
        assert(INDEX_KEY.spec_bytes() =~= key_bytes());
    }
    let bytes: &[u8] = INDEX_KEY.as_bytes();
    bytes[pos % bytes.len()]
}

/// The length word of an index entry, deobfuscated: the entry's index counted
/// from the end of the archive, the on-disk word and a fixed constant, XORed.
pub open spec fn spec_decrypt_index_item_file_length(item_index: u32, ciphertext: u32) -> u32 {
    item_index ^ ciphertext ^ 0x15091984
}

/// The length word of an index entry, obfuscated. The same XOR as the decoder:
/// the cipher is an involution in its second argument.
pub open spec fn spec_encrypt_index_item_file_length(item_index: u32, length: u32) -> u32 {
    item_index ^ length ^ 0x15091984
}

/// Deobfuscates the length word of an index entry.
pub fn decrypt_index_item_file_length(item_index: u32, ciphertext: u32) -> (r: u32)
    ensures
        r == spec_decrypt_index_item_file_length(item_index, ciphertext),
{
    item_index ^ ciphertext ^ 0x15091984
}

/// Decrypting an obfuscated length word gives the plain length back, for every
/// entry index and every length.
pub proof fn lemma_index_item_file_length_round_trip(item_index: u32, length: u32)
    ensures
        spec_decrypt_index_item_file_length(
            item_index,
            spec_encrypt_index_item_file_length(item_index, length),
        ) == length,
{
    assert(item_index ^ (item_index ^ length ^ 0x15091984) ^ 0x15091984 == length)
        by (bit_vector);
}

/// One byte of a filename, deobfuscated: the on-disk byte XORed with the
/// session key and with the fixed key byte for its position.
pub open spec fn spec_decrypt_name_byte(c: u8, key: u8, i: int) -> u8 {
    c ^ key ^ spec_key_at(i)
}

/// The position of the first byte of `c` that deobfuscates to 0, scanning from
/// position `i` on; `None` when no byte from `i` on does.
pub closed spec fn spec_name_end_from(c: Seq<u8>, key: u8, i: int) -> Option<int>
    decreases c.len() - i,
{
    if i < 0 || i >= c.len() {
        None
    } else if spec_decrypt_name_byte(c[i], key, i) == 0 {
        Some(i)
    } else {
        spec_name_end_from(c, key, i + 1)
    }
}

/// The position of the filename terminator: the first byte of `c` that
/// deobfuscates to 0.
pub open spec fn spec_name_end(c: Seq<u8>, key: u8) -> Option<int> {
    spec_name_end_from(c, key, 0)
}

/// What the filename decoder produces on `c`: the deobfuscated bytes before the
/// terminator, and the number of bytes consumed including the terminator.
/// `None` when no byte of `c` deobfuscates to 0.
pub open spec fn spec_decrypt_index_item_filename(c: Seq<u8>, key: u8) -> Option<(Seq<u8>, int)> {
    match spec_name_end(c, key) {
        Some(end) => Some(
            (Seq::new(end as nat, |j: int| spec_decrypt_name_byte(c[j], key, j)), end + 1),
        ),
        None => None,
    }
}

proof fn lemma_name_end_in_bounds(c: Seq<u8>, key: u8, i: int)
    ensures
        spec_name_end_from(c, key, i) matches Some(e) ==> i <= e < c.len()
            && spec_decrypt_name_byte(c[e], key, e) == 0 && (forall|j: int|
            i <= j < e ==> spec_decrypt_name_byte(c[j], key, j) != 0),
    decreases c.len() - i,
{
    if 0 <= i < c.len() && spec_decrypt_name_byte(c[i], key, i) != 0 {
        lemma_name_end_in_bounds(c, key, i + 1);
    }
}

/// Runs the filename decoder, reporting `None` when `c` holds no terminator.
/// Used by the index iterator, which must end quietly on a malformed index.
pub fn try_decrypt_index_item_filename(ciphertext: &[u8], key: u8) -> (r: Option<
    (Vec<u8>, u32),
>)
    requires
        ciphertext@.len() <= u32::MAX,
    ensures
        match r {
            Some(p) => spec_decrypt_index_item_filename(ciphertext@, key) == Some(
                (p.0@, p.1 as int),
            ),
            None => spec_decrypt_index_item_filename(ciphertext@, key) is None,
        },
{
    let ghost c = ciphertext@;
    let mut buffer: Vec<u8> = Vec::new();
    let mut idx: usize = 0;
    proof {
        lemma_name_end_in_bounds(c, key, 0);
    }
    loop
        invariant
            c == ciphertext@,
            c.len() <= u32::MAX,
            0 <= idx <= c.len(),
            spec_name_end_from(c, key, 0) == spec_name_end_from(c, key, idx as int),
            forall|j: int| 0 <= j < idx ==> spec_decrypt_name_byte(c[j], key, j) != 0,
            buffer@ == Seq::new(idx as nat, |j: int| spec_decrypt_name_byte(c[j], key, j)),
        decreases c.len() - idx,
    {
        if idx >= ciphertext.len() {
            return None;
        }
        let b = ciphertext[idx] ^ key ^ get_key_at(idx);
        assert(b == spec_decrypt_name_byte(c[idx as int], key, idx as int));
        if b == 0 {
            proof {
                lemma_name_end_in_bounds(c, key, idx as int);
            }
            return Some((buffer, (idx + 1) as u32));
        }
        buffer.push(b);
        idx = idx + 1;
        assert(buffer@ =~= Seq::new(idx as nat, |j: int| spec_decrypt_name_byte(c[j], key, j)));
    }
}

/// Deobfuscates a filename from the packed-file index: emits the deobfuscated
/// bytes up to (and not including) the terminating 0, and reports how many
/// ciphertext bytes were consumed, terminator included.
pub fn decrypt_index_item_filename(ciphertext: &[u8], key: u8) -> (r: (Vec<u8>, u32))
    requires
        ciphertext@.len() <= u32::MAX,
        spec_name_end(ciphertext@, key) is Some,
    ensures
        spec_decrypt_index_item_filename(ciphertext@, key) == Some((r.0@, r.1 as int)),
{
    let r = try_decrypt_index_item_filename(ciphertext, key);
    match r {
        Some(p) => p,
        None => {
            proof {
                assert(false);
            }
            (Vec::new(), 0)
        },
    }
}

/// The filename obfuscation: every byte of `plain`, then a terminating 0, each
/// XORed with the session key and the fixed key byte for its position.
pub open spec fn spec_encrypt_index_item_filename(plain: Seq<u8>, key: u8) -> Seq<u8> {
    Seq::new(
        plain.len() + 1,
        |i: int|
            if i < plain.len() {
                plain[i] ^ key ^ spec_key_at(i)
            } else {
                0u8 ^ key ^ spec_key_at(i)
            },
    )
}

proof fn lemma_name_byte_involution(p: u8, key: u8, w: u8)
    ensures
        ((p ^ key ^ w) ^ key ^ w) == p,
{
    assert(((p ^ key ^ w) ^ key ^ w) == p) by (bit_vector);
}

proof fn lemma_name_end_of_encrypted(plain: Seq<u8>, key: u8, i: int)
    requires
        forall|j: int| 0 <= j < plain.len() ==> plain[j] != 0,
        0 <= i <= plain.len(),
    ensures
        spec_name_end_from(spec_encrypt_index_item_filename(plain, key), key, i) == Some(
            plain.len() as int,
        ),
    decreases plain.len() - i,
{
    let c = spec_encrypt_index_item_filename(plain, key);
    if i < plain.len() {
        lemma_name_byte_involution(plain[i], key, spec_key_at(i));
        assert(spec_decrypt_name_byte(c[i], key, i) == plain[i]);
        lemma_name_end_of_encrypted(plain, key, i + 1);
    } else {
        lemma_name_byte_involution(0u8, key, spec_key_at(i));
        assert(spec_decrypt_name_byte(c[i], key, i) == 0);
    }
}

/// The filename decoder inverts the filename obfuscation: decoding an
/// obfuscated name (with any session key) gives the plain bytes back and
/// consumes exactly the name and its terminator.
pub proof fn lemma_index_item_filename_round_trip(plain: Seq<u8>, key: u8)
    requires
        forall|j: int| 0 <= j < plain.len() ==> plain[j] != 0,
    ensures
        spec_decrypt_index_item_filename(spec_encrypt_index_item_filename(plain, key), key)
            == Some((plain, plain.len() + 1 as int)),
{
    let c = spec_encrypt_index_item_filename(plain, key);
    lemma_name_end_of_encrypted(plain, key, 0);
    assert forall|j: int| 0 <= j < plain.len() implies spec_decrypt_name_byte(c[j], key, j)
        == plain[j] by {
        lemma_name_byte_involution(plain[j], key, spec_key_at(j));
    }
    assert(Seq::new(plain.len(), |j: int| spec_decrypt_name_byte(c[j], key, j)) =~= plain);
}

/// The multiplier of the content cipher's per-block mask.
pub const FILE_KEY: u64 = 0x8FEB2A6740A6920E;

/// Four bytes of `c` starting at `start`, reading 0 for every position at or
/// past the end: the content cipher zero-pads its final partial block.
pub open spec fn spec_padded_word(c: Seq<u8>, start: int) -> Seq<u8> {
    Seq::new(
        4,
        |j: int|
            if start + j < c.len() {
                c[start + j]
            } else {
                0u8
            },
    )
}

/// The little-endian word at `start`, zero-padded past the end of `c`.
pub open spec fn spec_read_padded_u32(c: Seq<u8>, start: int) -> u32 {
    spec_u32_from_le_bytes(spec_padded_word(c, start))
}

/// The 64-bit mask of a content block: the fixed multiplier times the
/// bitwise complement of the running byte counter, in wrapping arithmetic.
pub open spec fn spec_block_mask(edi: u32) -> u64 {
    vstd::wrapping::u64_specs::wrapping_mul(FILE_KEY, (!edi) as u64)
}

/// How many 8-byte blocks cover `len` bytes.
pub open spec fn spec_num_blocks(len: int) -> int {
    (len + 7) / 8
}

/// The first `n` blocks of `c`, deciphered: each block is the two halves of
/// its mask XORed with the two zero-padded little-endian words of the block.
pub closed spec fn spec_decrypt_blocks(c: Seq<u8>, n: int) -> Seq<u8>
    decreases n,
{
    if n <= 0 {
        Seq::<u8>::empty()
    } else {
        let i = n - 1;
        let m = spec_block_mask((8 * i) as u32);
        let lo = (m & 0xFFFF_FFFF) as u32;
        let hi = ((m >> 32) & 0xFFFF_FFFF) as u32;
        spec_decrypt_blocks(c, i) + spec_u32_to_le_bytes(
            lo ^ spec_read_padded_u32(c, 8 * i),
        ) + spec_u32_to_le_bytes(hi ^ spec_read_padded_u32(c, 8 * i + 4))
    }
}

/// Each deciphered block adds 8 bytes.
pub proof fn lemma_decrypt_blocks_len(c: Seq<u8>, n: int)
    requires
        n >= 0,
    ensures
        spec_decrypt_blocks(c, n).len() == 8 * n,
    decreases n,
{
    vstd::bytes::lemma_auto_spec_u32_to_from_le_bytes();
    if n > 0 {
        lemma_decrypt_blocks_len(c, n - 1);
    }
}

/// What the content decoder produces: all blocks of `c` deciphered, truncated
/// to the declared plaintext length.
pub open spec fn spec_decrypt_file(c: Seq<u8>, length: int) -> Seq<u8> {
    let full = spec_decrypt_blocks(c, spec_num_blocks(c.len() as int));
    if 0 <= length <= full.len() {
        full.take(length)
    } else {
        full
    }
}

/// The little-endian word at `start`, zero-padded past the end of `source`.
pub fn read_padded_u32(source: &[u8], start: usize) -> (r: u32)
    requires
        start + 4 <= usize::MAX,
    ensures
        r == spec_read_padded_u32(source@, start as int),
{
    let len = source.len();
    let b0 = if start < len { source[start] } else { 0 };
    let b1 = if start + 1 < len { source[start + 1] } else { 0 };
    let b2 = if start + 2 < len { source[start + 2] } else { 0 };
    let b3 = if start + 3 < len { source[start + 3] } else { 0 };
    let mut word: Vec<u8> = Vec::new();
    word.push(b0);
    word.push(b1);
    word.push(b2);
    word.push(b3);
    proof {
        assert(word@ =~= spec_padded_word(source@, start as int));
    }
    u32_from_le_bytes(word.as_slice())
}

/// Deciphers an obfuscated content slot: processes `ciphertext` in 8-byte
/// blocks, zero-padding the final partial block, and truncates the result to
/// the declared plaintext `length`.
pub fn decrypt_file(ciphertext: &[u8], length: usize) -> (r: Vec<u8>)
    requires
        ciphertext@.len() + 7 <= u32::MAX,
    ensures
        r@ == spec_decrypt_file(ciphertext@, length as int),
{
    let ghost c = ciphertext@;
    let len = ciphertext.len();
    let nblocks = (len + 7) / 8;
    let mut plaintext: Vec<u8> = Vec::new();
    let mut edi: u32 = 0;
    let mut esi: usize = 0;
    let mut blk: usize = 0;
    while blk < nblocks
        invariant
            c == ciphertext@,
            len == c.len(),
            len + 7 <= u32::MAX,
            nblocks == spec_num_blocks(len as int),
            0 <= blk <= nblocks,
            esi == 8 * blk,
            edi == 8 * blk,
            plaintext@ == spec_decrypt_blocks(c, blk as int),
        decreases nblocks - blk,
    {
        let prod: u64 = FILE_KEY.wrapping_mul(!edi as u64);
        let mut eax: u32 = (prod & 0xFFFF_FFFF) as u32;
        let mut edx: u32 = ((prod >> 32) & 0xFFFF_FFFF) as u32;
        eax = eax ^ read_padded_u32(ciphertext, esi);
        edi = edi + 8;
        edx = edx ^ read_padded_u32(ciphertext, esi + 4);
        let mut lo_bytes = u32_to_le_bytes(eax);
        plaintext.append(&mut lo_bytes);
        let mut hi_bytes = u32_to_le_bytes(edx);
        plaintext.append(&mut hi_bytes);
        esi = esi + 8;
        blk = blk + 1;
        proof {
            assert(plaintext@ =~= spec_decrypt_blocks(c, blk as int));
        }
    }
    proof {
        lemma_decrypt_blocks_len(c, nblocks as int);
    }
    plaintext.truncate(length);
    plaintext
}

/// The content obfuscation with the same counter sequence: since every block
/// is a XOR with a mask that depends only on the block position, obfuscating
/// is deciphering a zero-padded plaintext.
pub open spec fn spec_encrypt_file(plain: Seq<u8>) -> Seq<u8> {
    spec_decrypt_blocks(plain, spec_num_blocks(plain.len() as int))
}

proof fn lemma_word_xor_involution(m: u32, w: u32)
    ensures
        m ^ (m ^ w) == w,
{
    assert(m ^ (m ^ w) == w) by (bit_vector);
}

/// One block of a deciphered encryption equals the zero-padded plaintext block.
proof fn lemma_block_round_trip(plain: Seq<u8>, i: int, n: int)
    requires
        0 <= i < n,
        n == spec_num_blocks(plain.len() as int),
    ensures
        ({
            let enc = spec_encrypt_file(plain);
            spec_decrypt_blocks(enc, i + 1) =~= spec_decrypt_blocks(enc, i)
                + spec_padded_word(plain, 8 * i) + spec_padded_word(plain, 8 * i + 4)
        }),
{
    let enc = spec_encrypt_file(plain);
    let m = spec_block_mask((8 * i) as u32);
    let lo = (m & 0xFFFF_FFFF) as u32;
    let hi = ((m >> 32) & 0xFFFF_FFFF) as u32;
    let wlo = spec_read_padded_u32(plain, 8 * i);
    let whi = spec_read_padded_u32(plain, 8 * i + 4);
    vstd::bytes::lemma_auto_spec_u32_to_from_le_bytes();
    // The bytes of block i of `enc` are the little-endian bytes of the two
    // masked words, so reading them back (fully in range) returns those words.
    lemma_decrypt_blocks_len(plain, i);
    lemma_decrypt_blocks_len(plain, n);
    assert(enc.len() == 8 * n);
    assert(spec_decrypt_blocks(plain, i + 1).len() == 8 * i + 8);
    assert(spec_decrypt_blocks(plain, n) =~= spec_decrypt_blocks(plain, i + 1)
        + spec_decrypt_blocks(plain, n).skip(8 * i + 8)) by {
        lemma_decrypt_blocks_prefix(plain, i + 1, n);
    }
    assert(spec_padded_word(enc, 8 * i) =~= spec_u32_to_le_bytes(lo ^ wlo));
    assert(spec_padded_word(enc, 8 * i + 4) =~= spec_u32_to_le_bytes(hi ^ whi));
    assert(spec_read_padded_u32(enc, 8 * i) == lo ^ wlo);
    assert(spec_read_padded_u32(enc, 8 * i + 4) == hi ^ whi);
    lemma_word_xor_involution(lo, wlo);
    lemma_word_xor_involution(hi, whi);
    assert(spec_u32_to_le_bytes(lo ^ (lo ^ wlo)) == spec_u32_to_le_bytes(wlo));
    assert(spec_u32_to_le_bytes(wlo) =~= spec_padded_word(plain, 8 * i));
    assert(spec_u32_to_le_bytes(whi) =~= spec_padded_word(plain, 8 * i + 4));
}

/// A longer deciphered prefix extends a shorter one byte-for-byte.
proof fn lemma_decrypt_blocks_prefix(c: Seq<u8>, i: int, n: int)
    requires
        0 <= i <= n,
    ensures
        spec_decrypt_blocks(c, n).take(8 * i) =~= spec_decrypt_blocks(c, i),
    decreases n - i,
{
    lemma_decrypt_blocks_len(c, i);
    if i < n {
        lemma_decrypt_blocks_prefix(c, i + 1, n);
        lemma_decrypt_blocks_len(c, i + 1);
        lemma_decrypt_blocks_len(c, n);
        assert(spec_decrypt_blocks(c, n).take(8 * i) =~= spec_decrypt_blocks(c, n).take(
            8 * (i + 1),
        ).take(8 * i));
        assert(spec_decrypt_blocks(c, i + 1).take(8 * i) =~= spec_decrypt_blocks(c, i));
    }
}

proof fn lemma_decrypt_encrypt_blocks(plain: Seq<u8>, k: int, n: int)
    requires
        0 <= k <= n,
        n == spec_num_blocks(plain.len() as int),
    ensures
        forall|j: int|
            0 <= j < 8 * k ==> spec_decrypt_blocks(spec_encrypt_file(plain), k)[j] == (
            if j < plain.len() {
                plain[j]
            } else {
                0u8
            }),
        spec_decrypt_blocks(spec_encrypt_file(plain), k).len() == 8 * k,
    decreases k,
{
    let enc = spec_encrypt_file(plain);
    lemma_decrypt_blocks_len(enc, k);
    if k > 0 {
        lemma_decrypt_encrypt_blocks(plain, k - 1, n);
        lemma_block_round_trip(plain, k - 1, n);
        lemma_decrypt_blocks_len(enc, k - 1);
        assert forall|j: int| 0 <= j < 8 * k implies spec_decrypt_blocks(enc, k)[j] == (
        if j < plain.len() {
            plain[j]
        } else {
            0u8
        }) by {
            if j >= 8 * (k - 1) {
                let w1 = spec_padded_word(plain, 8 * (k - 1));
                let w2 = spec_padded_word(plain, 8 * (k - 1) + 4);
                if j < 8 * (k - 1) + 4 {
                    assert(spec_decrypt_blocks(enc, k)[j] == w1[j - 8 * (k - 1)]);
                } else {
                    assert(spec_decrypt_blocks(enc, k)[j] == w2[j - (8 * (k - 1) + 4)]);
                }
            }
        }
    }
}

/// The content decoder inverts the content obfuscation: deciphering an
/// obfuscated plaintext with the same counter sequence and truncating to the
/// plain length gives the plaintext back.
pub proof fn lemma_content_cipher_round_trip(plain: Seq<u8>)
    ensures
        spec_decrypt_file(spec_encrypt_file(plain), plain.len() as int) =~= plain,
{
    let n = spec_num_blocks(plain.len() as int);
    let enc = spec_encrypt_file(plain);
    lemma_decrypt_blocks_len(plain, n);
    assert(enc.len() == 8 * n);
    assert(spec_num_blocks(enc.len() as int) == n);
    lemma_decrypt_encrypt_blocks(plain, n, n);
}

/// The filename decoder's output re-obfuscates to the exact ciphertext it
/// consumed, terminator byte included.
pub proof fn lemma_index_item_filename_reencode(c: Seq<u8>, key: u8)
    requires
        spec_name_end(c, key) is Some,
    ensures
        ({
            let (plain, used) = spec_decrypt_index_item_filename(c, key)->Some_0;
            spec_encrypt_index_item_filename(plain, key) =~= c.take(used)
        }),
{
    let end = spec_name_end(c, key)->Some_0;
    lemma_name_end_in_bounds(c, key, 0);
    let plain = Seq::new(end as nat, |j: int| spec_decrypt_name_byte(c[j], key, j));
    let enc = spec_encrypt_index_item_filename(plain, key);
    assert forall|i: int| 0 <= i <= end implies enc[i] == c[i] by {
        // (c[i] ^ key ^ w) ^ key ^ w == c[i]: re-obfuscating the deobfuscated
        // byte gives the on-disk byte back, and at `end` the deobfuscated byte
        // is the 0 the encoder appends.
        lemma_name_byte_involution(c[i], key, spec_key_at(i));
        if i == end {
            assert(spec_decrypt_name_byte(c[i], key, i) == 0);
        }
    }
}

} // verus!
