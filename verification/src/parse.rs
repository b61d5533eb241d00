//! Reading a PackFile: the layout rules that derive offsets from the header,
//! the header validation, and the iterator over the packed-file index.

use vstd::prelude::*;
use vstd::bytes::{spec_u32_from_le_bytes, u32_from_le_bytes};
use vstd::slice::slice_subrange;
use vstd::utf8::{encode_utf8, valid_utf8};

use crate::error::Error;
use crate::source::PackSource;
use crate::{LazyLoadingPackedFile, PackFile, PackedFile, PackedFileData, ALL_FLAG_BITS, HAS_BIG_HEADER, HAS_ENCRYPTED_CONTENT, HAS_ENCRYPTED_INDEX,
    HAS_INDEX_WITH_TIMESTAMPS, PFH0_PREAMBLE, PFH2_PREAMBLE, PFH3_PREAMBLE, PFH4_PREAMBLE,
    PFH5_PREAMBLE};

verus! {

/// The little-endian 32-bit word at byte offset `off` of `b`.
pub open spec fn spec_le32(b: Seq<u8>, off: int) -> u32
    recommends
        0 <= off,
        off + 4 <= b.len(),
{
    spec_u32_from_le_bytes(b.subrange(off, off + 4))
}

/// The preamble word of an archive: its first four bytes.
pub open spec fn spec_preamble(b: Seq<u8>) -> u32 {
    spec_le32(b, 0x00)
}

/// The combined flags-and-type word at offset 4.
pub open spec fn spec_flags_word(b: Seq<u8>) -> u32 {
    spec_le32(b, 0x04)
}

/// The archive type value: the low four bits of the flags word.
pub open spec fn spec_file_type_value(b: Seq<u8>) -> u32 {
    spec_flags_word(b) & 0xf
}

/// The documented flag bits of the flags word.
pub open spec fn spec_bitmask(b: Seq<u8>) -> u32 {
    spec_flags_word(b) & ALL_FLAG_BITS
}

/// How many names the pack-file-name index holds.
pub open spec fn spec_pack_file_index_length(b: Seq<u8>) -> u32 {
    spec_le32(b, 0x08)
}

/// The byte size of the pack-file-name index.
pub open spec fn spec_pack_file_index_size(b: Seq<u8>) -> u32 {
    spec_le32(b, 0x0C)
}

/// How many entries the packed-file index holds.
pub open spec fn spec_packed_file_index_length(b: Seq<u8>) -> u32 {
    spec_le32(b, 0x10)
}

/// The byte size of the packed-file index.
pub open spec fn spec_packed_file_index_size(b: Seq<u8>) -> u32 {
    spec_le32(b, 0x14)
}

/// The header timestamp at offset 0x18. On a big-header archive this offset
/// holds the first reserved zero word.
pub open spec fn spec_timestamp(b: Seq<u8>) -> u32 {
    spec_le32(b, 0x18)
}

/// True when the archive's flags carry `mask` entirely.
pub open spec fn spec_has_flag(b: Seq<u8>, mask: u32) -> bool {
    spec_bitmask(b) & mask == mask
}

/// True when flag bits outside the four documented ones are set.
pub open spec fn spec_has_unknown_flag_bits(b: Seq<u8>) -> bool {
    spec_flags_word(b) & !(ALL_FLAG_BITS | 0xf) != 0
}

/// The size of the static header: 0x1C bytes, extended to 0x30 on a version-5
/// archive with the big-header flag.
pub open spec fn spec_static_header_size(b: Seq<u8>) -> int
    recommends
        spec_preamble(b) == PFH4_PREAMBLE || spec_preamble(b) == PFH5_PREAMBLE,
{
    if spec_preamble(b) == PFH5_PREAMBLE && spec_has_flag(b, HAS_BIG_HEADER) {
        0x30
    } else {
        0x1C
    }
}

/// True when content slots are padded to 8 bytes: version 5 with encrypted
/// content.
pub open spec fn spec_has_content_padding(b: Seq<u8>) -> bool {
    spec_preamble(b) == PFH5_PREAMBLE && spec_has_flag(b, HAS_ENCRYPTED_CONTENT)
}

/// Where the packed-file index starts: right after the static header and the
/// pack-file-name index.
pub open spec fn spec_index_base(b: Seq<u8>) -> int {
    spec_static_header_size(b) + spec_pack_file_index_size(b)
}

/// Where the content region starts: right after the packed-file index,
/// rounded up to 8 bytes when content slots are padded.
pub open spec fn spec_content_base(b: Seq<u8>) -> int {
    let unpadded = spec_index_base(b) + spec_packed_file_index_size(b);
    if spec_has_content_padding(b) && unpadded % 8 != 0 {
        unpadded + (8 - unpadded % 8)
    } else {
        unpadded
    }
}

/// True when the packed-file index is obfuscated.
pub open spec fn spec_has_encrypted_index(b: Seq<u8>) -> bool {
    spec_has_flag(b, HAS_ENCRYPTED_INDEX)
}

/// True when every index entry carries a timestamp word.
pub open spec fn spec_has_index_with_timestamps(b: Seq<u8>) -> bool {
    spec_has_flag(b, HAS_INDEX_WITH_TIMESTAMPS)
}

/// True when content slots are obfuscated.
pub open spec fn spec_has_encrypted_content(b: Seq<u8>) -> bool {
    spec_has_flag(b, HAS_ENCRYPTED_CONTENT)
}

/// True when each index entry carries a separator byte before its path:
/// version 5 without the big header.
pub open spec fn spec_has_separator(b: Seq<u8>) -> bool {
    spec_preamble(b) == PFH5_PREAMBLE && !spec_has_flag(b, HAS_BIG_HEADER)
}

/// Where the packed-file index ends.
pub open spec fn spec_index_end(b: Seq<u8>) -> int {
    spec_index_base(b) + spec_packed_file_index_size(b)
}

/// One entry of the packed-file index, as the layout rules describe it.
pub struct SpecEntry {
    /// The entry's declared (deobfuscated) content length in bytes.
    pub data_length: u32,
    /// The entry's timestamp, when the index carries timestamps.
    pub timestamp: Option<u32>,
    /// The entry's path bytes, deobfuscated, without the terminating 0.
    pub path: Seq<u8>,
    /// Where the entry's content slot starts.
    pub data_start: u32,
    /// Whether the content slot is obfuscated.
    pub is_encrypted: bool,
}

/// The position of the first 0 byte at or after `pos`, looking at no more than
/// `limit` positions; `None` when the limit is exhausted or the archive ends
/// before a 0 is found.
pub open spec fn spec_plain_name_end(b: Seq<u8>, pos: int, limit: int) -> Option<int>
    decreases limit,
{
    if limit <= 0 {
        None
    } else if pos < 0 || pos >= b.len() {
        None
    } else if b[pos] == 0 {
        Some(pos)
    } else {
        spec_plain_name_end(b, pos + 1, limit - 1)
    }
}

/// The path read at `pos` with at most `limit` index bytes left: the path's
/// bytes (deobfuscated if `enc`) and how many bytes it occupied, terminator
/// included. `None` when no terminator is found in the limit, or when the
/// bytes to inspect lie past the end of the archive.
pub open spec fn spec_path_scan(b: Seq<u8>, pos: int, limit: int, enc: bool, key: u8) -> Option<
    (Seq<u8>, int),
> {
    if enc {
        if pos + limit > b.len() {
            None
        } else {
            crate::crypto::spec_decrypt_index_item_filename(b.subrange(pos, pos + limit), key)
        }
    } else {
        match spec_plain_name_end(b, pos, limit) {
            Some(z) => Some((b.subrange(pos, z), z - pos + 1)),
            None => None,
        }
    }
}

/// The timestamp step of an entry: the timestamp word (deobfuscated like the
/// length word) and the new index cursor, or `None` when the word cannot be
/// read. Without the timestamp flag the cursor does not move.
pub open spec fn spec_timestamp_step(b: Seq<u8>, key_index: u32, ip: u32) -> Option<
    (Option<u32>, u32),
> {
    if spec_has_index_with_timestamps(b) {
        if ip + 4 > b.len() || ip + 4 > u32::MAX {
            None
        } else {
            let raw = spec_le32(b, ip as int);
            let ts = if spec_has_encrypted_index(b) {
                crate::crypto::spec_decrypt_index_item_file_length(key_index, raw)
            } else {
                raw
            };
            Some((Some(ts), (ip + 4) as u32))
        }
    } else {
        Some((None, ip))
    }
}

/// The padded length of a content slot: the declared length rounded up to 8
/// bytes when content is obfuscated. `None` when the rounding overflows.
pub open spec fn spec_padded_length(b: Seq<u8>, length: u32) -> Option<u32> {
    if spec_has_encrypted_content(b) {
        if length % 8 != 0 {
            if length + (8 - length % 8) > u32::MAX {
                None
            } else {
                Some((length + (8 - length % 8)) as u32)
            }
        } else {
            Some(length)
        }
    } else {
        Some(length)
    }
}

/// The entry read at iterator state (`next_item`, `ip`, `cp`), with the state
/// that follows it; `None` when the walk ends there, because the index is
/// exhausted (`next_item == 0`) or because any step of the walk fails: a read
/// past the end of the archive, a cursor that overflows or leaves the index,
/// a path without terminator, or a path that is not UTF-8.
pub open spec fn spec_next_entry(b: Seq<u8>, next_item: u32, ip: u32, cp: u32) -> Option<
    (SpecEntry, u32, u32),
> {
    if next_item == 0 {
        None
    } else {
        let key_index = (next_item - 1) as u32;
        if ip + 4 > b.len() || ip + 4 > u32::MAX {
            None
        } else {
            let raw_len = spec_le32(b, ip as int);
            let length = if spec_has_encrypted_index(b) {
                crate::crypto::spec_decrypt_index_item_file_length(key_index, raw_len)
            } else {
                raw_len
            };
            match spec_timestamp_step(b, key_index, (ip + 4) as u32) {
                None => None,
                Some((timestamp, ip2)) => {
                    if spec_has_separator(b) && ip2 + 1 > u32::MAX {
                        None
                    } else {
                        let ip3 = if spec_has_separator(b) {
                            (ip2 + 1) as u32
                        } else {
                            ip2
                        };
                        if ip3 > spec_index_end(b) {
                            None
                        } else {
                            let limit = spec_index_end(b) - ip3;
                            let key = (length & 0xff) as u8;
                            match spec_path_scan(
                                b,
                                ip3 as int,
                                limit,
                                spec_has_encrypted_index(b),
                                key,
                            ) {
                                None => None,
                                Some((path, consumed)) => spec_finish_entry(
                                    b,
                                    length,
                                    timestamp,
                                    path,
                                    ip3 as int + consumed,
                                    cp,
                                ),
                            }
                        }
                    }
                },
            }
        }
    }
}

/// The last steps of an entry: refuse a path that is not UTF-8 or a cursor
/// that overflows, round the content slot, and emit the entry with the state
/// that follows it.
pub open spec fn spec_finish_entry(
    b: Seq<u8>,
    length: u32,
    timestamp: Option<u32>,
    path: Seq<u8>,
    ip4: int,
    cp: u32,
) -> Option<(SpecEntry, u32, u32)> {
    if !valid_utf8(path) || ip4 > u32::MAX {
        None
    } else {
        match spec_padded_length(b, length) {
            None => None,
            Some(padded) => {
                let advance = if spec_has_content_padding(b) {
                    padded
                } else {
                    length
                };
                if cp + advance > u32::MAX {
                    None
                } else {
                    Some(
                        (
                            SpecEntry {
                                data_length: length,
                                timestamp,
                                path,
                                data_start: cp,
                                is_encrypted: spec_has_encrypted_content(b),
                            },
                            ip4 as u32,
                            (cp + advance) as u32,
                        ),
                    )
                }
            },
        }
    }
}

/// The entries read from iterator state (`next_item`, `ip`, `cp`) to the end
/// of the index; `None` when any of them fails.
pub open spec fn spec_entries_from(b: Seq<u8>, next_item: u32, ip: u32, cp: u32) -> Option<
    Seq<SpecEntry>,
>
    decreases next_item,
{
    if next_item == 0 {
        Some(Seq::<SpecEntry>::empty())
    } else {
        match spec_next_entry(b, next_item, ip, cp) {
            None => None,
            Some((e, ip2, cp2)) => match spec_entries_from(b, (next_item - 1) as u32, ip2, cp2) {
                None => None,
                Some(rest) => Some(seq![e] + rest),
            },
        }
    }
}

/// All entries of the archive's packed-file index, walked as the iterator
/// walks them; `None` when the walk cannot produce every declared entry.
pub open spec fn spec_entries(b: Seq<u8>) -> Option<Seq<SpecEntry>> {
    if spec_index_end(b) <= u32::MAX && spec_content_base(b) <= u32::MAX {
        spec_entries_from(
            b,
            spec_packed_file_index_length(b),
            spec_index_base(b) as u32,
            spec_content_base(b) as u32,
        )
    } else if spec_packed_file_index_length(b) == 0 {
        Some(Seq::<SpecEntry>::empty())
    } else {
        None
    }
}

/// A successful walk yields exactly as many entries as it had left to yield.
pub proof fn lemma_entries_from_len(b: Seq<u8>, next_item: u32, ip: u32, cp: u32)
    ensures
        spec_entries_from(b, next_item, ip, cp) matches Some(es) ==> es.len() == next_item,
    decreases next_item,
{
    if next_item > 0 {
        if let Some((e, ip2, cp2)) = spec_next_entry(b, next_item, ip, cp) {
            lemma_entries_from_len(b, (next_item - 1) as u32, ip2, cp2);
        }
    }
}

/// The validation verdict on an archive's bytes, in validation order: the
/// error owed to the caller, or `None` when the header is acceptable.
pub open spec fn spec_parse_error(b: Seq<u8>) -> Option<Error> {
    if b.len() < 4 {
        Some(Error::InvalidFileError)
    } else if spec_preamble(b) == PFH3_PREAMBLE || spec_preamble(b) == PFH2_PREAMBLE
        || spec_preamble(b) == PFH0_PREAMBLE {
        Some(Error::UnsupportedPackFile)
    } else if spec_preamble(b) != PFH4_PREAMBLE && spec_preamble(b) != PFH5_PREAMBLE {
        Some(Error::InvalidHeaderError)
    } else if b.len() < 0x1C {
        Some(Error::InvalidFileError)
    } else if b.len() < spec_static_header_size(b) {
        Some(Error::InvalidFileError)
    } else if b.len() < spec_static_header_size(b) + spec_pack_file_index_size(b) {
        Some(Error::InvalidFileError)
    } else if spec_file_type_value(b) > 4 {
        Some(Error::InvalidHeaderError)
    } else {
        None
    }
}

/// True when the archive's header passes validation.
pub open spec fn spec_header_ok(b: Seq<u8>) -> bool {
    spec_parse_error(b) is None
}

/// A 4-byte subrange of a prefix of `b` is the same subrange of `b`.
proof fn lemma_prefix_subrange(b: Seq<u8>, p: Seq<u8>, off: int)
    requires
        p == b.subrange(0, p.len() as int),
        0 <= off,
        off + 4 <= p.len(),
        p.len() <= b.len(),
    ensures
        p.subrange(off, off + 4) == b.subrange(off, off + 4),
{
    assert(p.subrange(off, off + 4) =~= b.subrange(off, off + 4));
}

/// The little-endian 32-bit word at byte offset `off` of `bytes`.
pub fn read_le_u32(bytes: &[u8], off: usize) -> (r: u32)
    requires
        off + 4 <= bytes@.len(),
    ensures
        r == spec_le32(bytes@, off as int),
{
    let n: usize = bytes.len();
    proof {
        assert(off + 4 <= n);
    }
    let word = slice_subrange(bytes, off, off + 4);
    u32_from_le_bytes(word)
}

/// Relies on `String::from_utf8`: it returns a string holding exactly the
/// given bytes when they are valid UTF-8, and refuses them otherwise.
#[verifier::external_body]
pub(crate) fn string_from_utf8(bytes: Vec<u8>) -> (r: Option<String>)
    ensures
        r matches Some(s) ==> valid_utf8(bytes@) && encode_utf8(s@) == bytes@,
        r is None <==> !valid_utf8(bytes@),
{
    match String::from_utf8(bytes) {
        Ok(s) => Some(s),
        Err(_) => None,
    }
}

/// What a lazily loaded entry's data resolves to: the bytes of its content
/// slot, deciphered when the slot is obfuscated, or nothing when the slot
/// lies outside the archive.
pub open spec fn spec_entry_data(b: Seq<u8>, e: SpecEntry) -> Option<Seq<u8>> {
    if e.data_start + e.data_length <= b.len() {
        let raw = b.subrange(e.data_start as int, e.data_start + e.data_length);
        Some(
            if e.is_encrypted {
                crate::crypto::spec_decrypt_file(raw, e.data_length as int)
            } else {
                raw
            },
        )
    } else {
        None
    }
}

/// True when the packed file `e` is the one that entry `se` of the archive
/// `b` describes: same timestamp, a path holding exactly the entry's path
/// bytes, and data that resolves to the entry's content slot.
pub open spec fn spec_entry_matches(e: PackedFile, se: SpecEntry, b: Seq<u8>) -> bool {
    &&& e.wf()
    &&& e.timestamp == se.timestamp
    &&& encode_utf8(e.path@) == se.path
    &&& e.spec_data() == spec_entry_data(b, se)
}

/// The cached static header holds the header fields of the archive.
proof fn lemma_header_fields(b: Seq<u8>, h: Seq<u8>)
    requires
        spec_header_ok(b),
        h == b.take(spec_static_header_size(b)),
    ensures
        h.len() == spec_static_header_size(b),
        0x1C <= h.len() <= b.len(),
        spec_le32(h, 0x00) == spec_preamble(b),
        spec_le32(h, 0x04) == spec_flags_word(b),
        spec_le32(h, 0x08) == spec_pack_file_index_length(b),
        spec_le32(h, 0x0C) == spec_pack_file_index_size(b),
        spec_le32(h, 0x10) == spec_packed_file_index_length(b),
        spec_le32(h, 0x14) == spec_packed_file_index_size(b),
        spec_le32(h, 0x18) == spec_timestamp(b),
{
    assert(h =~= b.subrange(0, h.len() as int));
    lemma_prefix_subrange(b, h, 0x00);
    lemma_prefix_subrange(b, h, 0x04);
    lemma_prefix_subrange(b, h, 0x08);
    lemma_prefix_subrange(b, h, 0x0C);
    lemma_prefix_subrange(b, h, 0x10);
    lemma_prefix_subrange(b, h, 0x14);
    lemma_prefix_subrange(b, h, 0x18);
}

/// Scans the archive for the 0 byte that ends a plaintext path: at most
/// `limit` bytes are inspected, starting at `pos`. Returns the path bytes and
/// the number of bytes consumed, terminator included.
fn scan_plain_name(source: &PackSource, pos: u32, limit: u32) -> (r: Option<(Vec<u8>, u32)>)
    requires
        pos + limit <= u32::MAX,
    ensures
        ({
            let sp = spec_plain_name_end(source.contents(), pos as int, limit as int);
            match r {
                Some(p) => sp matches Some(z) && p.0@ == source.contents().subrange(
                    pos as int,
                    z,
                ) && p.1 as int == z - pos + 1,
                None => source is Memory ==> sp is None,
            }
        }),
{
    let ghost c = source.contents();
    let mut buf: Vec<u8> = Vec::new();
    let mut i: u32 = 0;
    proof {
        assert(buf@ =~= Seq::new(0, |j: int| c[pos + j]));
    }
    loop
        invariant
            c == source.contents(),
            pos + limit <= u32::MAX,
            0 <= i <= limit,
            forall|j: int| 0 <= j < i ==> pos + j < c.len() && #[trigger] c[pos + j] != 0,
            spec_plain_name_end(c, pos as int, limit as int) == spec_plain_name_end(
                c,
                pos + i,
                limit - i,
            ),
            buf@ == Seq::new(i as nat, |j: int| c[pos + j]),
        decreases limit - i,
    {
        if i >= limit {
            return None;
        }
        let cur = pos + i;
        match source.read(cur as u64, cur as u64 + 1) {
            Err(_) => {
                return None;
            },
            Ok(v) => {
                let byte = v[0];
                proof {
                    assert(byte == c[cur as int]);
                }
                if byte == 0 {
                    proof {
                        assert(spec_plain_name_end(c, pos as int, limit as int) == Some(
                            cur as int,
                        ));
                        assert(buf@ =~= c.subrange(pos as int, cur as int));
                    }
                    return Some((buf, i + 1));
                }
                buf.push(byte);
                i = i + 1;
                proof {
                    assert(buf@ =~= Seq::new(i as nat, |j: int| c[pos + j]));
                }
            },
        }
    }
}

/// An iterator over the packed-file index of an archive. Each call of `next`
/// reads one entry; any failure ends the iteration for good.
pub struct PackIndexIterator {
    pub(crate) source: PackSource,
    pub(crate) header: Vec<u8>,
    pub(crate) next_item: u32,
    pub(crate) index_position: u32,
    pub(crate) index_end: u32,
    pub(crate) content_position: u32,
}

impl PackIndexIterator {
    /// The bytes of the archive this iterator walks.
    pub closed spec fn contents(&self) -> Seq<u8> {
        self.source.contents()
    }

    /// Whether the archive is held in memory.
    pub closed spec fn spec_is_memory(&self) -> bool {
        self.source is Memory
    }

    /// The iterator's cursor state: entries left to yield, index cursor,
    /// content cursor.
    pub closed spec fn spec_state(&self) -> (u32, u32, u32) {
        (self.next_item, self.index_position, self.content_position)
    }

    /// A well-formed iterator: its archive passed validation, its cached
    /// header is the archive's, and while entries are left its index bound
    /// is where the packed-file index ends.
    pub closed spec fn wf(&self) -> bool {
        &&& spec_header_ok(self.contents())
        &&& self.header@ == self.contents().take(spec_static_header_size(self.contents()))
        &&& self.next_item > 0 ==> self.index_end as int == spec_index_end(self.contents())
            && spec_index_end(self.contents()) <= u32::MAX
    }

    /// Reads the 4-byte little-endian word at index cursor `ip`.
    fn read_index_u32(&self, ip: u32) -> (r: Option<u32>)
        ensures
            r matches Some(w) ==> ip + 4 <= self.contents().len() && w == spec_le32(
                self.contents(),
                ip as int,
            ),
            r is None ==> (self.spec_is_memory() ==> ip + 4 > self.contents().len()),
    {
        match self.source.read(ip as u64, ip as u64 + 4) {
            Ok(v) => {
                proof {
                    assert(v@.subrange(0, 4) =~= self.source.contents().subrange(
                        ip as int,
                        ip as int + 4,
                    ));
                }
                Some(read_le_u32(v.as_slice(), 0))
            },
            Err(_) => None,
        }
    }

    /// The next entry of the packed-file index, or `None` when the index is
    /// exhausted or the walk fails; after a failure the iterator stays empty.
    /// Every yielded entry is the one the layout rules describe at the
    /// iterator's state; on an in-memory archive `None` before the declared
    /// count means exactly that the walk fails there.
    #[verifier::rlimit(100)]
    pub fn next(&mut self) -> (r: Option<PackedFile>)
        requires
            old(self).wf(),
        ensures
            final(self).wf(),
            final(self).contents() == old(self).contents(),
            final(self).spec_is_memory() == old(self).spec_is_memory(),
            ({
                let b = old(self).contents();
                let st = old(self).spec_state();
                let sp = spec_next_entry(b, st.0, st.1, st.2);
                match r {
                    Some(e) => sp matches Some(t) && final(self).spec_state() == (
                        (st.0 - 1) as u32,
                        t.1,
                        t.2,
                    ) && spec_entry_matches(e, t.0, b) && (e.spec_data_is_memory() <==> old(
                        self,
                    ).spec_is_memory()),
                    None => final(self).spec_state().0 == 0 && (old(self).spec_is_memory() ==> sp
                        is None),
                }
            }),
    {
        let ghost b = self.source.contents();
        proof {
            lemma_header_fields(b, self.header@);
        }
        if self.next_item == 0 {
            return None;
        }
        let key_index = self.next_item - 1;
        let preamble = read_le_u32(self.header.as_slice(), 0x00);
        let flags_word = read_le_u32(self.header.as_slice(), 0x04);
        let enc_index = flags_word & ALL_FLAG_BITS & HAS_ENCRYPTED_INDEX == HAS_ENCRYPTED_INDEX;
        let with_ts = flags_word & ALL_FLAG_BITS & HAS_INDEX_WITH_TIMESTAMPS
            == HAS_INDEX_WITH_TIMESTAMPS;
        let enc_content = flags_word & ALL_FLAG_BITS & HAS_ENCRYPTED_CONTENT
            == HAS_ENCRYPTED_CONTENT;
        let big = flags_word & ALL_FLAG_BITS & HAS_BIG_HEADER == HAS_BIG_HEADER;
        let sep = preamble == PFH5_PREAMBLE && !big;
        let padding = preamble == PFH5_PREAMBLE && enc_content;

        // The entry's length word, deobfuscated with the index counted from
        // the end of the archive.
        let ip0 = self.index_position;
        let raw_len = match self.read_index_u32(ip0) {
            Some(w) => w,
            None => {
                self.next_item = 0;
                return None;
            },
        };
        let length = if enc_index {
            crate::crypto::decrypt_index_item_file_length(key_index, raw_len)
        } else {
            raw_len
        };
        let ip1 = match ip0.checked_add(4) {
            Some(v) => v,
            None => {
                self.next_item = 0;
                return None;
            },
        };

        // The optional timestamp word, deobfuscated the same way.
        let (timestamp, ip2) = if with_ts {
            let raw_ts = match self.read_index_u32(ip1) {
                Some(w) => w,
                None => {
                    self.next_item = 0;
                    return None;
                },
            };
            let ts = if enc_index {
                crate::crypto::decrypt_index_item_file_length(key_index, raw_ts)
            } else {
                raw_ts
            };
            match ip1.checked_add(4) {
                Some(v) => (Some(ts), v),
                None => {
                    self.next_item = 0;
                    return None;
                },
            }
        } else {
            (None, ip1)
        };

        // The separator byte of a version-5 small-header entry.
        let ip3 = if sep {
            match ip2.checked_add(1) {
                Some(v) => v,
                None => {
                    self.next_item = 0;
                    return None;
                },
            }
        } else {
            ip2
        };

        // The path, read within what is left of the index.
        if ip3 > self.index_end {
            self.next_item = 0;
            return None;
        }
        let limit = self.index_end - ip3;
        let key = (length & 0xff) as u8;
        let (path_bytes, consumed) = if enc_index {
            let region = match self.source.read(ip3 as u64, self.index_end as u64) {
                Ok(v) => v,
                Err(_) => {
                    self.next_item = 0;
                    return None;
                },
            };
            match crate::crypto::try_decrypt_index_item_filename(region.as_slice(), key) {
                Some(p) => p,
                None => {
                    self.next_item = 0;
                    return None;
                },
            }
        } else {
            match scan_plain_name(&self.source, ip3, limit) {
                Some(p) => p,
                None => {
                    self.next_item = 0;
                    return None;
                },
            }
        };
        let ghost path_seq = path_bytes@;
        let path = match string_from_utf8(path_bytes) {
            Some(s) => s,
            None => {
                self.next_item = 0;
                return None;
            },
        };
        let ip4 = match ip3.checked_add(consumed) {
            Some(v) => v,
            None => {
                self.next_item = 0;
                return None;
            },
        };

        // The content slot: rounded up to 8 bytes when content is obfuscated.
        let padded = if enc_content {
            let rem = length % 8;
            if rem > 0 {
                match length.checked_add(8 - rem) {
                    Some(v) => v,
                    None => {
                        self.next_item = 0;
                        return None;
                    },
                }
            } else {
                length
            }
        } else {
            length
        };
        let advance = if padding {
            padded
        } else {
            length
        };
        let cp0 = self.content_position;
        let cp1 = match cp0.checked_add(advance) {
            Some(v) => v,
            None => {
                self.next_item = 0;
                return None;
            },
        };
        let start = cp0 as u64;
        let end = start + length as u64;
        let entry = PackedFile {
            timestamp,
            path,
            data: PackedFileData::LazyLoading(
                LazyLoadingPackedFile {
                    file_view: self.source.dup(),
                    start,
                    end,
                    is_encrypted: enc_content,
                },
            ),
        };
        self.next_item = key_index;
        self.index_position = ip4;
        self.content_position = cp1;
        proof {
            if enc_content {
                assert(padded % 8 == 0 && length <= padded);
                assert(padded <= 0xFFFFFFF8) by (nonlinear_arith)
                    requires
                        padded % 8 == 0,
                        padded <= u32::MAX,
                ;
            }
            let t = spec_next_entry(b, (key_index + 1) as u32, ip0, cp0)->Some_0;
            assert(t.0.path == path_seq);
            assert(entry.spec_data() == spec_entry_data(b, t.0));
        }
        Some(entry)
    }
}

/// True when eager parsing is owed to succeed: the whole packed-file index
/// parses and every entry's content slot lies inside the archive.
pub open spec fn spec_eager_ok(b: Seq<u8>) -> bool {
    match spec_entries(b) {
        Some(es) => forall|i: int|
            0 <= i < es.len() ==> spec_entry_data(b, #[trigger] es[i]) is Some,
        None => false,
    }
}

/// The position of the first 0 byte of `region` at or after `pos`.
pub open spec fn spec_find_zero(region: Seq<u8>, pos: int) -> Option<int>
    decreases region.len() - pos,
{
    if pos < 0 || pos >= region.len() {
        None
    } else if region[pos] == 0 {
        Some(pos)
    } else {
        spec_find_zero(region, pos + 1)
    }
}

/// `count` 0-terminated byte strings, read back to back from `pos` in
/// `region`; `None` when a terminator is missing.
pub open spec fn spec_names_from(region: Seq<u8>, pos: int, count: int) -> Option<Seq<Seq<u8>>>
    decreases count,
{
    if count <= 0 {
        Some(Seq::<Seq<u8>>::empty())
    } else {
        match spec_find_zero(region, pos) {
            None => None,
            Some(z) => match spec_names_from(region, z + 1, count - 1) {
                None => None,
                Some(rest) => Some(seq![region.subrange(pos, z)] + rest),
            },
        }
    }
}

/// The names of the pack-file-name index: the archive's declared count of
/// 0-terminated byte strings, read from the index region after the static
/// header.
pub open spec fn spec_pack_file_names(b: Seq<u8>) -> Option<Seq<Seq<u8>>> {
    spec_names_from(
        b.subrange(spec_static_header_size(b), spec_index_base(b)),
        0,
        spec_pack_file_index_length(b) as int,
    )
}

/// True when the pack-file-name index parses and every name is UTF-8: the
/// condition under which the names of an in-memory archive are owed.
pub open spec fn spec_pack_file_names_ok(b: Seq<u8>) -> bool {
    match spec_pack_file_names(b) {
        Some(ns) => forall|i: int| 0 <= i < ns.len() ==> valid_utf8(#[trigger] ns[i]),
        None => false,
    }
}

impl PackFile {
    /// An iterator over the packed-file index, positioned at its first entry.
    /// When the index bounds do not fit the iterator's 32-bit cursors, the
    /// iterator yields nothing.
    pub fn into_iter(&self) -> (r: PackIndexIterator)
        requires
            self.wf(),
        ensures
            r.wf(),
            r.contents() == self.contents(),
            r.spec_is_memory() == self.spec_is_memory(),
            ({
                let b = self.contents();
                if spec_index_end(b) <= u32::MAX && spec_content_base(b) <= u32::MAX {
                    r.spec_state() == (
                        spec_packed_file_index_length(b),
                        spec_index_base(b) as u32,
                        spec_content_base(b) as u32,
                    )
                } else {
                    r.spec_state().0 == 0u32
                }
            }),
    {
        let ghost b = self.contents();
        proof {
            lemma_header_fields(b, self.header@);
        }
        let preamble = read_le_u32(self.header.as_slice(), 0x00);
        let flags_word = read_le_u32(self.header.as_slice(), 0x04);
        let big = flags_word & ALL_FLAG_BITS & HAS_BIG_HEADER == HAS_BIG_HEADER;
        let enc_content = flags_word & ALL_FLAG_BITS & HAS_ENCRYPTED_CONTENT
            == HAS_ENCRYPTED_CONTENT;
        let header_size: u64 = if preamble == PFH5_PREAMBLE && big {
            0x30
        } else {
            0x1C
        };
        let pf_size = read_le_u32(self.header.as_slice(), 0x0C) as u64;
        let pfi_size = read_le_u32(self.header.as_slice(), 0x14) as u64;
        let count = read_le_u32(self.header.as_slice(), 0x10);
        let idx_base = header_size + pf_size;
        let idx_end = idx_base + pfi_size;
        let content_base = if preamble == PFH5_PREAMBLE && enc_content && idx_end % 8 != 0 {
            idx_end + (8 - idx_end % 8)
        } else {
            idx_end
        };
        let header_copy = vstd::slice::slice_to_vec(self.header.as_slice());
        if idx_end <= 0xFFFF_FFFF && content_base <= 0xFFFF_FFFF {
            PackIndexIterator {
                source: self.source.dup(),
                header: header_copy,
                next_item: count,
                index_position: idx_base as u32,
                index_end: idx_end as u32,
                content_position: content_base as u32,
            }
        } else {
            PackIndexIterator {
                source: self.source.dup(),
                header: header_copy,
                next_item: 0,
                index_position: 0,
                index_end: 0,
                content_position: 0,
            }
        }
    }

    /// Every entry of the packed-file index, in stored order: exactly the
    /// archive's declared count of entries when the whole index can be
    /// walked, and `IndexIteratorError` otherwise. On an in-memory archive
    /// the walk fails exactly when the layout rules reject the index.
    pub fn packed_files(&self) -> (r: Result<Vec<PackedFile>, Error>)
        requires
            self.wf(),
        ensures
            ({
                let b = self.contents();
                match r {
                    Ok(v) => {
                        &&& spec_entries(b) matches Some(es)
                        &&& v@.len() == es.len()
                        &&& es.len() == spec_packed_file_index_length(b)
                        &&& forall|i: int|
                            0 <= i < es.len() ==> spec_entry_matches(#[trigger] v@[i], es[i], b)
                        &&& forall|i: int|
                            0 <= i < v@.len() ==> (#[trigger] v@[i].spec_data_is_memory()
                                <==> self.spec_is_memory())
                    },
                    Err(e) => e == Error::IndexIteratorError && (self.spec_is_memory()
                        ==> spec_entries(b) is None),
                }
            }),
            self.spec_is_memory() ==> (r is Ok <==> spec_entries(self.contents()) is Some),
    {
        let ghost b = self.contents();
        proof {
            lemma_header_fields(b, self.header@);
        }
        let count = read_le_u32(self.header.as_slice(), 0x10);
        let mut it = self.into_iter();
        let ghost st0 = it.spec_state();
        let ghost count0 = st0.0;
        let ghost full = spec_entries_from(b, st0.0, st0.1, st0.2);
        let mut out: Vec<PackedFile> = Vec::new();
        let ghost mut acc: Seq<SpecEntry> = Seq::<SpecEntry>::empty();
        let ghost mut failed: bool = false;
        proof {
            assert(acc + spec_entries_from(b, st0.0, st0.1, st0.2)->Some_0 =~= spec_entries_from(
                b,
                st0.0,
                st0.1,
                st0.2,
            )->Some_0);
        }
        while it.next_item > 0
            invariant
                it.wf(),
                it.contents() == b,
                b == self.contents(),
                it.spec_is_memory() == self.spec_is_memory(),
                full == spec_entries_from(b, st0.0, st0.1, st0.2),
                count0 == st0.0,
                out@.len() == acc.len(),
                acc.len() + it.spec_state().0 == count0 || failed,
                failed ==> it.spec_state().0 == 0 && acc.len() < count0,
                failed ==> (self.spec_is_memory() ==> full is None),
                forall|i: int|
                    0 <= i < acc.len() ==> spec_entry_matches(#[trigger] out@[i], acc[i], b),
                forall|i: int|
                    0 <= i < out@.len() ==> (#[trigger] out@[i].spec_data_is_memory()
                        <==> self.spec_is_memory()),
                !failed ==> ({
                    let st = it.spec_state();
                    match spec_entries_from(b, st.0, st.1, st.2) {
                        Some(rest) => full == Some(acc + rest),
                        None => full is None,
                    }
                }),
            decreases it.spec_state().0,
        {
            let ghost prev = it.spec_state();
            match it.next() {
                Some(e) => {
                    proof {
                        let t = spec_next_entry(b, prev.0, prev.1, prev.2)->Some_0;
                        let st = it.spec_state();
                        if let Some(rest) = spec_entries_from(b, st.0, st.1, st.2) {
                            assert(spec_entries_from(b, prev.0, prev.1, prev.2) == Some(
                                seq![t.0] + rest,
                            ));
                            assert(acc + (seq![t.0] + rest) =~= (acc + seq![t.0]) + rest);
                        }
                        acc = acc + seq![t.0];
                    }
                    out.push(e);
                },
                None => {
                    proof {
                        failed = true;
                    }
                },
            }
        }
        if out.len() == count as usize {
            proof {
                assert(!failed);
                assert(spec_entries_from(b, 0u32, it.spec_state().1, it.spec_state().2) == Some(
                    Seq::<SpecEntry>::empty(),
                ));
                assert(acc + Seq::<SpecEntry>::empty() =~= acc);
                assert(full == Some(acc));
                lemma_entries_from_len(b, st0.0, st0.1, st0.2);
                if !(spec_index_end(b) <= u32::MAX && spec_content_base(b) <= u32::MAX) {
                    assert(count0 == 0 && acc.len() == 0);
                    assert(spec_entries(b) == Some(Seq::<SpecEntry>::empty()));
                    assert(acc =~= Seq::<SpecEntry>::empty());
                }
            }
            Ok(out)
        } else {
            proof {
                if !failed {
                    assert(acc.len() == count0);
                    // The only way the lengths can differ without a failure is
                    // a degenerate iterator: cursor bounds that overflow.
                    assert(!(spec_index_end(b) <= u32::MAX && spec_content_base(b) <= u32::MAX));
                    assert(spec_packed_file_index_length(b) > 0);
                }
            }
            Err(Error::IndexIteratorError)
        }
    }

    /// The pack-file-name index: the names of the PackFiles this archive
    /// depends on, in stored order. `InvalidFileError` when a name has no
    /// terminator or is not UTF-8; `IOError` when the index region cannot be
    /// read. On an in-memory archive the names are owed exactly when they
    /// parse and are UTF-8.
    pub fn get_pack_file_index(&self) -> (r: Result<Vec<String>, Error>)
        requires
            self.wf(),
        ensures
            ({
                let b = self.contents();
                match r {
                    Ok(v) => spec_pack_file_names(b) matches Some(ns) && v@.len() == ns.len()
                        && forall|i: int|
                        0 <= i < ns.len() ==> encode_utf8(#[trigger] v@[i]@) == ns[i],
                    Err(e) => e == Error::IOError || e == Error::InvalidFileError,
                }
            }),
            self.spec_is_memory() ==> (r is Ok <==> spec_pack_file_names_ok(self.contents())),
    {
        let ghost b = self.contents();
        proof {
            lemma_header_fields(b, self.header@);
        }
        let preamble = read_le_u32(self.header.as_slice(), 0x00);
        let flags_word = read_le_u32(self.header.as_slice(), 0x04);
        let big = flags_word & ALL_FLAG_BITS & HAS_BIG_HEADER == HAS_BIG_HEADER;
        let header_size: u64 = if preamble == PFH5_PREAMBLE && big {
            0x30
        } else {
            0x1C
        };
        let pf_size = read_le_u32(self.header.as_slice(), 0x0C) as u64;
        let count = read_le_u32(self.header.as_slice(), 0x08);
        let region = match self.source.read(header_size, header_size + pf_size) {
            Ok(v) => v,
            Err(e) => {
                return Err(e);
            },
        };
        let ghost reg = region@;
        proof {
            assert(reg == b.subrange(spec_static_header_size(b), spec_index_base(b)));
        }
        let ghost all = spec_names_from(reg, 0, count as int);
        proof {
            assert(header_size as int == spec_static_header_size(b));
            assert(count == spec_pack_file_index_length(b));
            assert(all == spec_pack_file_names(b));
        }
        let mut names: Vec<String> = Vec::new();
        let ghost mut acc: Seq<Seq<u8>> = Seq::<Seq<u8>>::empty();
        let mut pos: usize = 0;
        let mut k: u32 = 0;
        proof {
            assert(acc + all->Some_0 =~= all->Some_0);
        }
        while k < count
            invariant
                b == self.contents(),
                reg == region@,
                all == spec_names_from(reg, 0, count as int),
                all == spec_pack_file_names(b),
                0 <= k <= count,
                0 <= pos <= reg.len(),
                names@.len() == acc.len() == k,
                forall|i: int| 0 <= i < acc.len() ==> encode_utf8(#[trigger] names@[i]@) == acc[i],
                forall|i: int| 0 <= i < acc.len() ==> valid_utf8(#[trigger] acc[i]),
                ({
                    match spec_names_from(reg, pos as int, (count - k) as int) {
                        Some(rest) => all == Some(acc + rest),
                        None => all is None,
                    }
                }),
            decreases count - k,
        {
            // Find the terminator of the next name.
            let mut z: usize = pos;
            loop
                invariant
                    reg == region@,
                    pos <= z <= reg.len(),
                    spec_find_zero(reg, pos as int) == spec_find_zero(reg, z as int),
                    forall|t: int| pos <= t < z ==> reg[t] != 0,
                ensures
                    pos <= z <= reg.len(),
                    z < reg.len() ==> spec_find_zero(reg, pos as int) == Some(z as int),
                    z >= reg.len() ==> spec_find_zero(reg, pos as int) is None,
                    forall|t: int| pos <= t < z ==> reg[t] != 0,
                decreases reg.len() - z,
            {
                if z >= region.len() {
                    break ;
                }
                if region[z] == 0 {
                    break ;
                }
                z = z + 1;
            }
            if z >= region.len() {
                proof {
                    assert(spec_names_from(reg, pos as int, (count - k) as int) is None);
                    assert(all is None);
                }
                return Err(Error::InvalidFileError);
            }
            let name_bytes = vstd::slice::slice_to_vec(
                slice_subrange(region.as_slice(), pos, z),
            );
            let ghost name_seq = name_bytes@;
            let name = match string_from_utf8(name_bytes) {
                Some(s) => s,
                None => {
                    proof {
                        // When the whole name list parses, the name that is
                        // not UTF-8 is an element of it.
                        assert(!valid_utf8(name_seq));
                        if let Some(rest) = spec_names_from(reg, pos as int, (count - k) as int) {
                            assert(rest.len() >= 1 && rest[0] == name_seq);
                            assert(all == Some(acc + rest));
                            let ns = spec_pack_file_names(b)->Some_0;
                            assert(ns == acc + rest);
                            assert(0 <= acc.len() < ns.len());
                            assert(!valid_utf8(ns[acc.len() as int]));
                            assert(!spec_pack_file_names_ok(b));
                        } else {
                            assert(all is None);
                        }
                    }
                    return Err(Error::InvalidFileError);
                },
            };
            names.push(name);
            proof {
                if let Some(rest) = spec_names_from(reg, pos as int, (count - k) as int) {
                    assert(rest[0] == name_seq);
                    if let Some(rest2) = spec_names_from(reg, z + 1, (count - k - 1) as int) {
                        assert(rest =~= seq![name_seq] + rest2);
                        assert(acc + rest =~= (acc + seq![name_seq]) + rest2);
                    }
                }
                acc = acc + seq![name_seq];
            }
            pos = z + 1;
            k = k + 1;
        }
        proof {
            assert(spec_names_from(reg, pos as int, 0) == Some(Seq::<Seq<u8>>::empty()));
            assert(acc + Seq::<Seq<u8>>::empty() =~= acc);
            assert(all == Some(acc));
        }
        Ok(names)
    }
}

/// Validates the header of the archive served by `source` and wraps it as a
/// `PackFile`. The archive's bytes are not owed to be readable: a file-backed
/// source can fail any read with `IOError`; on an in-memory source the result
/// is exactly what the validation rules owe.
pub fn parse_pack(source: PackSource) -> (r: Result<PackFile, Error>)
    ensures
        r matches Ok(p) ==> p.wf() && p.contents() == source.contents() && spec_header_ok(
            source.contents(),
        ) && (p.spec_is_memory() <==> source is Memory),
        r matches Err(e) ==> e == Error::IOError || spec_parse_error(source.contents()) == Some(
            e,
        ),
        source is Memory ==> (r is Ok <==> spec_header_ok(source.contents())),
{
    let ghost b = source.contents();
    let length = source.length();
    if length < 4 {
        return Err(Error::InvalidFileError);
    }
    let head = match source.read(0, 4) {
        Ok(v) => v,
        Err(e) => { return Err(e) },
    };
    let preamble = read_le_u32(head.as_slice(), 0);
    proof {
        lemma_prefix_subrange(b, head@, 0);
    }
    if preamble == PFH3_PREAMBLE || preamble == PFH2_PREAMBLE || preamble == PFH0_PREAMBLE {
        return Err(Error::UnsupportedPackFile);
    }
    if preamble != PFH4_PREAMBLE && preamble != PFH5_PREAMBLE {
        return Err(Error::InvalidHeaderError);
    }
    if length < 0x1C {
        return Err(Error::InvalidFileError);
    }
    let small = match source.read(0, 0x1C) {
        Ok(v) => v,
        Err(e) => { return Err(e) },
    };
    proof {
        lemma_prefix_subrange(b, small@, 0x04);
    }
    let flags_word = read_le_u32(small.as_slice(), 0x04);
    let big_header = flags_word & ALL_FLAG_BITS & HAS_BIG_HEADER == HAS_BIG_HEADER;
    let header_size: u64 = if preamble == PFH5_PREAMBLE && big_header {
        0x30
    } else {
        0x1C
    };
    assert(header_size == spec_static_header_size(b));
    if length < header_size {
        return Err(Error::InvalidFileError);
    }
    let header = match source.read(0, header_size) {
        Ok(v) => v,
        Err(e) => { return Err(e) },
    };
    proof {
        assert(header@ =~= b.take(spec_static_header_size(b)));
        lemma_prefix_subrange(b, header@, 0x0C);
    }
    let pack_file_index_size = read_le_u32(header.as_slice(), 0x0C);
    if length - header_size < pack_file_index_size as u64 {
        return Err(Error::InvalidFileError);
    }
    let file_type_value = flags_word & 0xf;
    if file_type_value > 4 {
        return Err(Error::InvalidHeaderError);
    }
    Ok(PackFile { source, header })
}

} // verus!
