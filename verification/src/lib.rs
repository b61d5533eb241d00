//! A verified library to read and write Total War PackFile containers.
//!
//! A PackFile bundles many logically named inner files ("packed files") into one
//! binary archive with a structured header, a pack-file-name index, a packed-file
//! index and a content region. Some variants obfuscate the packed-file index or
//! the content with a small custom cipher; this library decodes both on read and
//! always writes plaintext.
//!
//! The byte-level layout rules, the ciphers, the parser and the builder are all
//! verified: their contracts state exactly which bytes are read and produced.

use vstd::prelude::*;
use vstd::utf8::encode_utf8;

pub mod builder;
pub mod crypto;
pub mod error;
pub mod laws;
pub mod parse;
pub mod source;

use crate::error::Error;
use crate::source::PackSource;

verus! {

/// Preamble of a version-5 PackFile.
pub const PFH5_PREAMBLE: u32 = 0x35484650;

/// Preamble of a version-4 PackFile.
pub const PFH4_PREAMBLE: u32 = 0x34484650;

/// Legacy preamble: recognised, then rejected as unsupported.
pub const PFH3_PREAMBLE: u32 = 0x33484650;

/// Legacy preamble: recognised, then rejected as unsupported.
pub const PFH2_PREAMBLE: u32 = 0x32484650;

/// Legacy preamble: recognised, then rejected as unsupported.
pub const PFH0_PREAMBLE: u32 = 0x30484650;

/// The version of a PackFile, as identified by its preamble.
#[derive(Debug, Clone, Copy, PartialEq, Eq, Structural)]
pub enum PFHVersion {
    PFH5,
    PFH4,
    Unsupported,
}

/// The type of a PackFile, stored in the low four bits of the flags word.
#[derive(Debug, Clone, Copy, PartialEq, Eq, Structural)]
pub enum PFHFileType {
    Boot,
    Release,
    Patch,
    Mod,
    Movie,
    Other(u32),
}

/// The bitmasks a PackFile can carry in the high bits of its flags word.
///
/// - `HAS_BIG_HEADER`: the static header is extended to 0x30 bytes (version 5 only).
/// - `HAS_ENCRYPTED_INDEX`: the packed-file index is obfuscated.
/// - `HAS_INDEX_WITH_TIMESTAMPS`: every index entry carries a 4-byte timestamp.
/// - `HAS_ENCRYPTED_CONTENT`: the content blocks are obfuscated; on version 5
///   this also pads each content slot to a multiple of 8 bytes.
#[derive(Debug, Clone, Copy, PartialEq, Eq, Structural)]
pub struct PFHFlags {
    pub bits: u32,
}

/// The bit for the extended 0x30-byte static header.
pub const HAS_BIG_HEADER: u32 = 0x0100;

/// The bit for an obfuscated packed-file index.
pub const HAS_ENCRYPTED_INDEX: u32 = 0x0080;

/// The bit for per-entry timestamps in the packed-file index.
pub const HAS_INDEX_WITH_TIMESTAMPS: u32 = 0x0040;

/// The bit for obfuscated content blocks.
pub const HAS_ENCRYPTED_CONTENT: u32 = 0x0010;

/// All four documented flag bits together.
pub const ALL_FLAG_BITS: u32 = 0x01D0;

impl PFHFlags {
    /// No flag set.
    pub fn empty() -> (r: Self)
        ensures
            r.bits == 0,
    {
        PFHFlags { bits: 0 }
    }

    /// Keeps the four documented bits of `bits` and drops everything else.
    pub fn from_bits_truncate(bits: u32) -> (r: Self)
        ensures
            r.bits == bits & ALL_FLAG_BITS,
    {
        PFHFlags { bits: bits & ALL_FLAG_BITS }
    }

    /// True when every bit of `mask` is set in `self`.
    pub fn contains(&self, mask: u32) -> (r: bool)
        ensures
            r == (self.bits & mask == mask),
    {
        self.bits & mask == mask
    }

    /// The flags of `self` and `other` together.
    pub fn union(self, other: Self) -> (r: Self)
        ensures
            r.bits == self.bits | other.bits,
    {
        PFHFlags { bits: self.bits | other.bits }
    }
}

impl PFHFileType {
    /// The numeric value of the type, as stored in the low four bits of the
    /// flags word.
    pub fn get_value(&self) -> (r: u32)
        ensures
            r == self.spec_value(),
    {
        match *self {
            PFHFileType::Boot => 0,
            PFHFileType::Release => 1,
            PFHFileType::Patch => 2,
            PFHFileType::Mod => 3,
            PFHFileType::Movie => 4,
            PFHFileType::Other(value) => value,
        }
    }

    /// The numeric value of the type.
    pub open spec fn spec_value(&self) -> u32 {
        match *self {
            PFHFileType::Boot => 0,
            PFHFileType::Release => 1,
            PFHFileType::Patch => 2,
            PFHFileType::Mod => 3,
            PFHFileType::Movie => 4,
            PFHFileType::Other(value) => value,
        }
    }

    /// The type stored as `value`: the five named types for 0 to 4, `Other`
    /// beyond them.
    pub open spec fn spec_from_value(value: u32) -> PFHFileType {
        if value == 0 {
            PFHFileType::Boot
        } else if value == 1 {
            PFHFileType::Release
        } else if value == 2 {
            PFHFileType::Patch
        } else if value == 3 {
            PFHFileType::Mod
        } else if value == 4 {
            PFHFileType::Movie
        } else {
            PFHFileType::Other(value)
        }
    }
}

impl PFHVersion {
    /// The preamble word that identifies this version on disk.
    ///
    /// Only the two supported versions have a preamble.
    pub fn get_preamble(&self) -> (r: u32)
        requires
            *self != PFHVersion::Unsupported,
        ensures
            r == self.spec_preamble(),
    {
        match *self {
            PFHVersion::PFH5 => PFH5_PREAMBLE,
            PFHVersion::PFH4 => PFH4_PREAMBLE,
            PFHVersion::Unsupported => PFH4_PREAMBLE,  // excluded by the precondition
        }
    }

    /// The preamble word of a supported version.
    pub open spec fn spec_preamble(&self) -> u32 {
        match *self {
            PFHVersion::PFH5 => PFH5_PREAMBLE,
            PFHVersion::PFH4 => PFH4_PREAMBLE,
            PFHVersion::Unsupported => PFH4_PREAMBLE,
        }
    }

    /// The version identified by `preamble`, if it is a supported one.
    pub open spec fn spec_from_preamble(preamble: u32) -> Option<PFHVersion> {
        if preamble == PFH5_PREAMBLE {
            Some(PFHVersion::PFH5)
        } else if preamble == PFH4_PREAMBLE {
            Some(PFHVersion::PFH4)
        } else if preamble == PFH3_PREAMBLE || preamble == PFH2_PREAMBLE || preamble
            == PFH0_PREAMBLE {
            Some(PFHVersion::Unsupported)
        } else {
            None
        }
    }
}

/// An opened PackFile: the byte source it came from, with its validated
/// static header cached so the header accessors never fail.
pub struct PackFile {
    pub(crate) source: PackSource,
    pub(crate) header: Vec<u8>,
}

/// The data of a packed file that has not been read yet: a handle on the
/// archive's byte source, the byte range of the entry's content slot, and
/// whether that slot is obfuscated.
pub struct LazyLoadingPackedFile {
    pub(crate) file_view: PackSource,
    pub(crate) start: u64,
    pub(crate) end: u64,
    pub(crate) is_encrypted: bool,
}

/// The data of a packed file: either already in memory, or still to be read
/// from the archive. Not meant to be used directly: read and replace it
/// through the methods of `PackedFile`.
pub enum PackedFileData {
    DataBacked(Vec<u8>),
    LazyLoading(LazyLoadingPackedFile),
}

/// One file contained in a PackFile: an optional timestamp, the `\`-separated
/// virtual path, and the file's bytes, read lazily from the archive.
pub struct PackedFile {
    pub timestamp: Option<u32>,
    pub path: String,
    pub data: PackedFileData,
}

impl PackedFile {
    /// The bytes this packed file holds: its buffer when the data is already
    /// in memory; for data still in the archive, the bytes of its content
    /// slot, deciphered if the slot is obfuscated — or nothing when the slot
    /// lies outside the archive.
    pub closed spec fn spec_data(&self) -> Option<Seq<u8>> {
        match self.data {
            PackedFileData::DataBacked(d) => Some(d@),
            PackedFileData::LazyLoading(l) => if l.start <= l.end && l.end
                <= l.file_view.contents().len() {
                let raw = l.file_view.contents().subrange(l.start as int, l.end as int);
                Some(
                    if l.is_encrypted {
                        crate::crypto::spec_decrypt_file(raw, (l.end - l.start) as int)
                    } else {
                        raw
                    },
                )
            } else {
                None
            },
        }
    }

    /// True when reading this packed file touches no file: its data is in
    /// memory already, or comes from an in-memory archive.
    pub closed spec fn spec_data_is_memory(&self) -> bool {
        match self.data {
            PackedFileData::DataBacked(_) => true,
            PackedFileData::LazyLoading(l) => l.file_view is Memory,
        }
    }

    /// A well-formed packed file: a lazy range runs forward, and an
    /// obfuscated one is short enough for the content cipher.
    pub closed spec fn wf(&self) -> bool {
        match self.data {
            PackedFileData::DataBacked(_) => true,
            PackedFileData::LazyLoading(l) => l.start <= l.end && (l.is_encrypted ==> l.end
                - l.start + 7 <= u32::MAX),
        }
    }

    /// A new packed file with the given timestamp, path and bytes.
    pub fn new(timestamp: Option<u32>, path: String, data: Vec<u8>) -> (r: Self)
        ensures
            r.wf(),
            r.timestamp == timestamp,
            r.path == path,
            r.spec_data() == Some(data@),
            r.spec_data_is_memory(),
    {
        PackedFile { timestamp, path, data: PackedFileData::DataBacked(data) }
    }

    /// The raw bytes of this packed file. The first call on a lazily loaded
    /// file reads (and, if needed, deciphers) its content slot and keeps the
    /// result, so later calls cannot fail; a file whose data is in memory
    /// never fails. `IOError` is the only error: the slot could not be read.
    pub fn get_data(&mut self) -> (r: Result<Vec<u8>, Error>)
        requires
            old(self).wf(),
        ensures
            final(self).wf(),
            final(self).timestamp == old(self).timestamp,
            final(self).path == old(self).path,
            final(self).spec_data() == old(self).spec_data(),
            r matches Ok(d) ==> old(self).spec_data() == Some(d@)
                && final(self).spec_data_is_memory(),
            r is Err ==> r == Err::<Vec<u8>, Error>(Error::IOError) && *final(self) == *old(self),
            old(self).spec_data_is_memory() ==> (r is Ok <==> old(self).spec_data() is Some),
    {
        let read_result = match &self.data {
            PackedFileData::DataBacked(d) => {
                return Ok(vstd::slice::slice_to_vec(d.as_slice()));
            },
            PackedFileData::LazyLoading(l) => {
                match l.file_view.read(l.start, l.end) {
                    Ok(bytes) => {
                        if l.is_encrypted {
                            crate::crypto::decrypt_file(bytes.as_slice(), bytes.len())
                        } else {
                            bytes
                        }
                    },
                    Err(e) => {
                        return Err(e);
                    },
                }
            },
        };
        let out = vstd::slice::slice_to_vec(read_result.as_slice());
        self.data = PackedFileData::DataBacked(read_result);
        Ok(out)
    }

    /// Replaces whatever data this packed file has with the given bytes.
    pub fn set_data(&mut self, data: Vec<u8>)
        ensures
            final(self).wf(),
            final(self).timestamp == old(self).timestamp,
            final(self).path == old(self).path,
            final(self).spec_data() == Some(data@),
            final(self).spec_data_is_memory(),
    {
        self.data = PackedFileData::DataBacked(data);
    }
}

impl Clone for PackedFile {
    /// A clone holds the same timestamp, path and data; a lazy clone reads
    /// from a second handle on the same archive bytes.
    fn clone(&self) -> (r: Self)
        ensures
            r.timestamp == self.timestamp,
            r.path == self.path,
            r.spec_data() == self.spec_data(),
            r.spec_data_is_memory() == self.spec_data_is_memory(),
            r.wf() == self.wf(),
    {
        match &self.data {
            PackedFileData::DataBacked(d) => PackedFile {
                timestamp: self.timestamp,
                path: self.path.clone(),
                data: PackedFileData::DataBacked(vstd::slice::slice_to_vec(d.as_slice())),
            },
            PackedFileData::LazyLoading(l) => PackedFile {
                timestamp: self.timestamp,
                path: self.path.clone(),
                data: PackedFileData::LazyLoading(
                    LazyLoadingPackedFile {
                        file_view: l.file_view.dup(),
                        start: l.start,
                        end: l.end,
                        is_encrypted: l.is_encrypted,
                    },
                ),
            },
        }
    }
}

impl PackFile {
    /// The bytes of the whole archive.
    pub closed spec fn contents(&self) -> Seq<u8> {
        self.source.contents()
    }

    /// Whether the archive is held in memory (as opposed to read from a file).
    pub closed spec fn spec_is_memory(&self) -> bool {
        self.source is Memory
    }

    /// A well-formed archive: its header passed validation and the cached
    /// static header holds the archive's first bytes.
    pub closed spec fn wf(&self) -> bool {
        &&& parse::spec_header_ok(self.contents())
        &&& self.header@ == self.contents().take(parse::spec_static_header_size(self.contents()))
    }

    /// The version of this PackFile.
    pub fn get_version(&self) -> (r: PFHVersion)
        requires
            self.wf(),
        ensures
            Some(r) == PFHVersion::spec_from_preamble(parse::spec_preamble(self.contents())),
            r != PFHVersion::Unsupported,
    {
        proof {
            assert(self.header@.subrange(0, 4) =~= self.contents().subrange(0, 4));
        }
        let preamble = parse::read_le_u32(self.header.as_slice(), 0x00);
        if preamble == PFH5_PREAMBLE {
            PFHVersion::PFH5
        } else {
            PFHVersion::PFH4
        }
    }

    /// The type of this PackFile, from the low four bits of the flags word.
    pub fn get_file_type(&self) -> (r: PFHFileType)
        requires
            self.wf(),
        ensures
            r == PFHFileType::spec_from_value(parse::spec_file_type_value(self.contents())),
    {
        proof {
            assert(self.header@.subrange(0x04, 0x08) =~= self.contents().subrange(0x04, 0x08));
        }
        let value = parse::read_le_u32(self.header.as_slice(), 0x04) & 0xf;
        if value == 0 {
            PFHFileType::Boot
        } else if value == 1 {
            PFHFileType::Release
        } else if value == 2 {
            PFHFileType::Patch
        } else if value == 3 {
            PFHFileType::Mod
        } else if value == 4 {
            PFHFileType::Movie
        } else {
            PFHFileType::Other(value)
        }
    }

    /// The documented flag bits of this PackFile.
    pub fn get_bitmask(&self) -> (r: PFHFlags)
        requires
            self.wf(),
        ensures
            r.bits == parse::spec_bitmask(self.contents()),
    {
        proof {
            assert(self.header@.subrange(0x04, 0x08) =~= self.contents().subrange(0x04, 0x08));
        }
        let word = parse::read_le_u32(self.header.as_slice(), 0x04);
        proof {
            assert((word & !0xfu32) & ALL_FLAG_BITS == word & ALL_FLAG_BITS) by (bit_vector);
        }
        PFHFlags::from_bits_truncate(word & !0xf)
    }

    /// True when the flags word carries bits outside the four documented flag
    /// bits and the four type bits; such an archive parses with a warning.
    pub fn has_unknown_flag_bits(&self) -> (r: bool)
        requires
            self.wf(),
        ensures
            r == parse::spec_has_unknown_flag_bits(self.contents()),
    {
        proof {
            assert(self.header@.subrange(0x04, 0x08) =~= self.contents().subrange(0x04, 0x08));
        }
        let word = parse::read_le_u32(self.header.as_slice(), 0x04);
        word & !(ALL_FLAG_BITS | 0xf) != 0
    }

    /// How many names the pack-file-name index holds.
    pub fn get_pack_file_index_length(&self) -> (r: u32)
        requires
            self.wf(),
        ensures
            r == parse::spec_pack_file_index_length(self.contents()),
    {
        proof {
            assert(self.header@.subrange(0x08, 0x0C) =~= self.contents().subrange(0x08, 0x0C));
        }
        parse::read_le_u32(self.header.as_slice(), 0x08)
    }

    /// The byte size of the pack-file-name index.
    pub fn get_pack_file_index_size(&self) -> (r: u32)
        requires
            self.wf(),
        ensures
            r == parse::spec_pack_file_index_size(self.contents()),
    {
        proof {
            assert(self.header@.subrange(0x0C, 0x10) =~= self.contents().subrange(0x0C, 0x10));
        }
        parse::read_le_u32(self.header.as_slice(), 0x0C)
    }

    /// How many entries the packed-file index holds.
    pub fn get_packed_file_index_length(&self) -> (r: u32)
        requires
            self.wf(),
        ensures
            r == parse::spec_packed_file_index_length(self.contents()),
    {
        proof {
            assert(self.header@.subrange(0x10, 0x14) =~= self.contents().subrange(0x10, 0x14));
        }
        parse::read_le_u32(self.header.as_slice(), 0x10)
    }

    /// The byte size of the packed-file index.
    pub fn get_packed_file_index_size(&self) -> (r: u32)
        requires
            self.wf(),
        ensures
            r == parse::spec_packed_file_index_size(self.contents()),
    {
        proof {
            assert(self.header@.subrange(0x14, 0x18) =~= self.contents().subrange(0x14, 0x18));
        }
        parse::read_le_u32(self.header.as_slice(), 0x14)
    }

    /// The timestamp stored in the header. On a big-header archive this slot
    /// holds the first reserved zero word.
    pub fn get_timestamp(&self) -> (r: u32)
        requires
            self.wf(),
        ensures
            r == parse::spec_timestamp(self.contents()),
    {
        proof {
            assert(self.header@.subrange(0x18, 0x1C) =~= self.contents().subrange(0x18, 0x1C));
        }
        parse::read_le_u32(self.header.as_slice(), 0x18)
    }
}

impl Clone for PackFile {
    /// A clone is a second handle on the same archive bytes.
    fn clone(&self) -> (r: Self)
        ensures
            r.wf() == self.wf(),
            r.contents() == self.contents(),
            r.spec_is_memory() == self.spec_is_memory(),
    {
        PackFile {
            source: self.source.dup(),
            header: vstd::slice::slice_to_vec(self.header.as_slice()),
        }
    }
}

/// Opens a PackFile served by `source`: validates its header and, unless
/// `load_lazy`, walks every entry of the packed-file index and reads its data
/// once, so that a malformed index or an unreadable entry is reported here
/// rather than later. On an in-memory archive the result is exact: lazy
/// parsing succeeds if and only if the header validates, eager parsing if and
/// only if the whole archive is readable as the layout rules describe it.
pub fn parse_pack(source: PackSource, load_lazy: bool) -> (r: Result<PackFile, Error>)
    ensures
        r matches Ok(p) ==> p.wf() && p.contents() == source.contents()
            && parse::spec_header_ok(source.contents()) && (p.spec_is_memory() <==> source
            is Memory),
        r matches Err(e) ==> e == Error::IOError || e == Error::IndexIteratorError
            || parse::spec_parse_error(source.contents()) == Some(e),
        r is Ok && !load_lazy ==> parse::spec_eager_ok(source.contents()),
        source is Memory && load_lazy ==> (r is Ok <==> parse::spec_header_ok(source.contents())),
        source is Memory && !load_lazy ==> (r is Ok <==> parse::spec_header_ok(source.contents())
            && parse::spec_eager_ok(source.contents())),
{
    let ghost b = source.contents();
    let ghost is_mem = source is Memory;
    let pack = match parse::parse_pack(source) {
        Ok(p) => p,
        Err(e) => {
            return Err(e);
        },
    };
    if !load_lazy {
        let mut files = match pack.packed_files() {
            Ok(v) => v,
            Err(e) => {
                return Err(e);
            },
        };
        let ghost es = parse::spec_entries(b)->Some_0;
        let ghost total = files@.len();
        while files.len() > 0
            invariant
                !load_lazy,
                is_mem == (source is Memory),
                b == source.contents(),
                b == pack.contents(),
                pack.wf(),
                is_mem == pack.spec_is_memory(),
                parse::spec_entries(b) == Some(es),
                total == es.len(),
                files@.len() <= total,
                forall|i: int|
                    0 <= i < files@.len() ==> parse::spec_entry_matches(
                        #[trigger] files@[i],
                        es[i],
                        b,
                    ),
                forall|i: int|
                    0 <= i < files@.len() ==> (#[trigger] files@[i].spec_data_is_memory()
                        <==> is_mem),
                forall|i: int|
                    files@.len() <= i < total ==> parse::spec_entry_data(
                        b,
                        #[trigger] es[i],
                    ) is Some,
            decreases files@.len(),
        {
            let mut f = match files.pop() {
                Some(f) => f,
                None => {
                    proof {
                        assert(false);
                    }
                    return Err(Error::IOError);
                },
            };
            let ghost k = files@.len();
            match f.get_data() {
                Ok(_) => {},
                Err(e) => {
                    proof {
                        if is_mem {
                            // The failing entry is one the index describes,
                            // so its slot lies outside the archive.
                            assert(f.spec_data() is None);
                            assert(parse::spec_entry_data(b, es[k as int]) is None);
                            assert(!parse::spec_eager_ok(b));
                        }
                    }
                    return Err(e);
                },
            }
        }
    }
    Ok(pack)
}

} // verus!
