//! What holds of every archive the builder emits: the parser accepts it and
//! reads back exactly the values and bytes it was built from.

use vstd::prelude::*;
use vstd::bytes::spec_u32_to_le_bytes;
use vstd::utf8::valid_utf8;

use crate::builder::{spec_build_bytes, spec_content_bytes, spec_content_size, spec_entry_bytes,
    spec_entry_size, spec_header_bytes, spec_index_bytes, spec_index_size, spec_names_bytes,
    spec_names_size, spec_ts_or_zero, spec_with_sep, spec_with_ts, BuildEntry};
use crate::parse::{spec_bitmask, spec_entries, spec_file_type_value, spec_flags_word,
    spec_header_ok, spec_le32, spec_pack_file_index_length, spec_pack_file_index_size,
    spec_pack_file_names, spec_packed_file_index_length, spec_packed_file_index_size,
    spec_parse_error, spec_preamble, spec_static_header_size, spec_timestamp};
use crate::{PFHVersion, ALL_FLAG_BITS, HAS_BIG_HEADER, HAS_ENCRYPTED_CONTENT,
    HAS_ENCRYPTED_INDEX, PFH4_PREAMBLE, PFH5_PREAMBLE};

verus! {

/// The pack-file-name index occupies exactly its declared size.
proof fn lemma_names_bytes_len(names: Seq<Seq<u8>>)
    ensures
        spec_names_bytes(names).len() == spec_names_size(names),
    decreases names.len(),
{
    if names.len() > 0 {
        lemma_names_bytes_len(names.drop_first());
    }
}

/// The packed-file index occupies exactly its declared size.
proof fn lemma_index_bytes_len(es: Seq<BuildEntry>, with_ts: bool, sep: bool)
    ensures
        spec_index_bytes(es, with_ts, sep).len() == spec_index_size(es, with_ts, sep),
    decreases es.len(),
{
    vstd::bytes::lemma_auto_spec_u32_to_from_le_bytes();
    if es.len() > 0 {
        lemma_index_bytes_len(es.drop_first(), with_ts, sep);
    }
}

/// The content region occupies exactly the sum of the data lengths.
proof fn lemma_content_bytes_len(es: Seq<BuildEntry>)
    ensures
        spec_content_bytes(es).len() == spec_content_size(es),
    decreases es.len(),
{
    if es.len() > 0 {
        lemma_content_bytes_len(es.drop_first());
    }
}

proof fn lemma_sizes_nonneg(names: Seq<Seq<u8>>, es: Seq<BuildEntry>, with_ts: bool, sep: bool)
    ensures
        spec_names_size(names) >= 0,
        spec_index_size(es, with_ts, sep) >= 0,
        spec_content_size(es) >= 0,
    decreases names.len() + es.len(),
{
    if names.len() > 0 {
        lemma_sizes_nonneg(names.drop_first(), es, with_ts, sep);
    } else if es.len() > 0 {
        lemma_sizes_nonneg(names, es.drop_first(), with_ts, sep);
    }
}

/// The static header the builder writes is as long as the layout rules say.
proof fn lemma_header_len(
    version: PFHVersion,
    bits: u32,
    tv: u32,
    ts: u32,
    c1: u32,
    s1: u32,
    c2: u32,
    s2: u32,
)
    ensures
        spec_header_bytes(version, bits, tv, ts, c1, s1, c2, s2).len() == (
        if version == PFHVersion::PFH5 && bits & HAS_BIG_HEADER == HAS_BIG_HEADER {
            0x30int
        } else {
            0x1Cint
        }),
{
    vstd::bytes::lemma_auto_spec_u32_to_from_le_bytes();
}

/// The fields of a built archive's header read back as the values the
/// builder was given, and the archive passes validation without a warning.
pub proof fn lemma_build_header_fields(
    names: Seq<Seq<u8>>,
    es: Seq<BuildEntry>,
    version: PFHVersion,
    bits: u32,
    tv: u32,
    ts: u32,
)
    requires
        version != PFHVersion::Unsupported,
        bits & ALL_FLAG_BITS == bits,
        tv <= 4,
        names.len() <= u32::MAX,
        spec_names_size(names) <= u32::MAX,
        es.len() <= u32::MAX,
        spec_index_size(es, spec_with_ts(bits), spec_with_sep(version, bits)) <= u32::MAX,
    ensures
        ({
            let b = spec_build_bytes(names, es, version, bits, tv, ts);
            let with_ts = spec_with_ts(bits);
            let sep = spec_with_sep(version, bits);
            &&& spec_preamble(b) == version.spec_preamble()
            &&& spec_flags_word(b) == bits | tv
            &&& spec_bitmask(b) == bits
            &&& spec_file_type_value(b) == tv
            &&& !crate::parse::spec_has_unknown_flag_bits(b)
            &&& spec_pack_file_index_length(b) == names.len()
            &&& spec_pack_file_index_size(b) == spec_names_size(names)
            &&& spec_packed_file_index_length(b) == es.len()
            &&& spec_packed_file_index_size(b) == spec_index_size(es, with_ts, sep)
            &&& spec_timestamp(b) == (
            if version == PFHVersion::PFH5 && bits & HAS_BIG_HEADER == HAS_BIG_HEADER {
                0u32
            } else {
                ts
            })
            &&& spec_static_header_size(b) == (
            if version == PFHVersion::PFH5 && bits & HAS_BIG_HEADER == HAS_BIG_HEADER {
                0x30int
            } else {
                0x1Cint
            })
            &&& b.len() == spec_static_header_size(b) + spec_names_size(names) + spec_index_size(
                es,
                with_ts,
                sep,
            ) + spec_content_size(es)
            &&& spec_header_ok(b)
        }),
{
    let with_ts = spec_with_ts(bits);
    let sep = spec_with_sep(version, bits);
    let big = bits & HAS_BIG_HEADER == HAS_BIG_HEADER;
    let b = spec_build_bytes(names, es, version, bits, tv, ts);
    let header = spec_header_bytes(
        version,
        bits,
        tv,
        ts,
        names.len() as u32,
        spec_names_size(names) as u32,
        es.len() as u32,
        spec_index_size(es, with_ts, sep) as u32,
    );
    vstd::bytes::lemma_auto_spec_u32_to_from_le_bytes();
    lemma_header_len(
        version,
        bits,
        tv,
        ts,
        names.len() as u32,
        spec_names_size(names) as u32,
        es.len() as u32,
        spec_index_size(es, with_ts, sep) as u32,
    );
    lemma_names_bytes_len(names);
    lemma_index_bytes_len(es, with_ts, sep);
    lemma_content_bytes_len(es);
    lemma_sizes_nonneg(names, es, with_ts, sep);

    let w0 = spec_u32_to_le_bytes(version.spec_preamble());
    let w1 = spec_u32_to_le_bytes(bits | tv);
    let w2 = spec_u32_to_le_bytes(names.len() as u32);
    let w3 = spec_u32_to_le_bytes(spec_names_size(names) as u32);
    let w4 = spec_u32_to_le_bytes(es.len() as u32);
    let w5 = spec_u32_to_le_bytes(spec_index_size(es, with_ts, sep) as u32);
    assert(b.subrange(0, 4) =~= w0);
    assert(b.subrange(4, 8) =~= w1);
    assert(b.subrange(8, 12) =~= w2);
    assert(b.subrange(12, 16) =~= w3);
    assert(b.subrange(16, 20) =~= w4);
    assert(b.subrange(20, 24) =~= w5);
    if version == PFHVersion::PFH5 && big {
        assert(b.subrange(24, 28) =~= spec_u32_to_le_bytes(0));
    } else {
        assert(b.subrange(24, 28) =~= spec_u32_to_le_bytes(ts));
    }
    assert(spec_preamble(b) == version.spec_preamble());
    assert(spec_flags_word(b) == bits | tv);
    assert(spec_pack_file_index_length(b) == names.len() as u32);
    assert(spec_pack_file_index_size(b) == spec_names_size(names) as u32);
    assert(spec_packed_file_index_length(b) == es.len() as u32);
    assert(spec_packed_file_index_size(b) == spec_index_size(es, with_ts, sep) as u32);

    // The type bits and the flag bits do not overlap, so each reads back
    // alone, and no reserved bit is set.
    assert((bits | tv) & ALL_FLAG_BITS == bits && (bits | tv) & 0xf == tv && ((bits | tv) & !(
    ALL_FLAG_BITS | 0xf)) == 0) by (bit_vector)
        requires
            bits & ALL_FLAG_BITS == bits && tv <= 4,
    ;
    assert(spec_bitmask(b) == bits);
    assert(spec_file_type_value(b) == tv);

    // The two supported preambles are not among the legacy ones.
    assert(version.spec_preamble() == PFH4_PREAMBLE || version.spec_preamble() == PFH5_PREAMBLE);
    assert(spec_static_header_size(b) == header.len());
    assert(spec_parse_error(b) is None);
}

/// The first 0 of a region that starts with `k` non-0 bytes and then a 0 is
/// right after those bytes.
proof fn lemma_find_zero_at(region: Seq<u8>, pos: int, k: int)
    requires
        0 <= pos,
        0 <= k,
        pos + k < region.len(),
        forall|j: int| pos <= j < pos + k ==> region[j] != 0,
        region[pos + k] == 0,
    ensures
        crate::parse::spec_find_zero(region, pos) == Some(pos + k),
    decreases k,
{
    if k > 0 {
        lemma_find_zero_at(region, pos + 1, k - 1);
    }
}

/// True when no byte of any of the given names is 0.
pub open spec fn spec_names_have_no_zero(names: Seq<Seq<u8>>) -> bool {
    forall|i: int, j: int|
        0 <= i < names.len() && 0 <= j < names[i].len() ==> #[trigger] names[i][j] != 0
}

/// A written pack-file-name index parses back to exactly the names it was
/// written from.
proof fn lemma_names_parse_from(region: Seq<u8>, pos: int, names: Seq<Seq<u8>>)
    requires
        0 <= pos <= region.len(),
        region.skip(pos) == spec_names_bytes(names),
        spec_names_have_no_zero(names),
    ensures
        crate::parse::spec_names_from(region, pos, names.len() as int) == Some(names),
    decreases names.len(),
{
    if names.len() > 0 {
        let n0 = names[0];
        lemma_names_bytes_len(names);
        lemma_names_bytes_len(names.drop_first());
        lemma_sizes_nonneg(names.drop_first(), Seq::<BuildEntry>::empty(), false, false);
        assert(region.skip(pos).len() == spec_names_size(names));
        assert forall|j: int| pos <= j < pos + n0.len() implies region[j] != 0 by {
            assert(region[j] == region.skip(pos)[j - pos]);
            assert(region.skip(pos)[j - pos] == n0[j - pos]);
        }
        assert(region[pos + n0.len()] == region.skip(pos)[n0.len() as int]);
        assert(region[pos + n0.len()] == 0);
        lemma_find_zero_at(region, pos, n0.len() as int);
        assert(region.subrange(pos, pos + n0.len()) =~= n0);
        assert(region.skip(pos).skip(n0.len() as int + 1) =~= region.skip(pos + n0.len() + 1));
        assert((n0 + seq![0u8] + spec_names_bytes(names.drop_first())).skip(n0.len() as int + 1)
            =~= spec_names_bytes(names.drop_first()));
        assert(region.skip(pos + n0.len() + 1) == spec_names_bytes(names.drop_first()));
        lemma_names_parse_from(region, pos + n0.len() + 1, names.drop_first());
        assert(seq![n0] + names.drop_first() =~= names);
    }
}

/// The entries the parser describes when it walks a plaintext packed-file
/// index whose content region starts at `cp`: each written entry back, with
/// its content slot right after the previous entry's.
pub open spec fn spec_expected_entries(es: Seq<BuildEntry>, cp: int, with_ts: bool) -> Seq<
    crate::parse::SpecEntry,
>
    decreases es.len(),
{
    if es.len() == 0 {
        Seq::<crate::parse::SpecEntry>::empty()
    } else {
        seq![
            crate::parse::SpecEntry {
                data_length: es[0].data.len() as u32,
                timestamp: if with_ts {
                    Some(spec_ts_or_zero(es[0].timestamp))
                } else {
                    None
                },
                path: es[0].path,
                data_start: cp as u32,
                is_encrypted: false,
            },
        ] + spec_expected_entries(es.drop_first(), cp + es[0].data.len(), with_ts)
    }
}

/// True when every entry's path can be written and read back: UTF-8, without
/// a 0 byte.
pub open spec fn spec_paths_ok(es: Seq<BuildEntry>) -> bool {
    forall|i: int|
        0 <= i < es.len() ==> valid_utf8(#[trigger] es[i].path) && (forall|j: int|
            0 <= j < es[i].path.len() ==> es[i].path[j] != 0)
}

/// True when every entry's data length fits its 32-bit index field.
pub open spec fn spec_entries_fit(es: Seq<BuildEntry>) -> bool {
    forall|i: int| 0 <= i < es.len() ==> (#[trigger] es[i].data).len() <= u32::MAX
}

/// One written index record occupies exactly its declared size.
proof fn lemma_entry_bytes_len(e: BuildEntry, with_ts: bool, sep: bool)
    ensures
        spec_entry_bytes(e, with_ts, sep).len() == spec_entry_size(e, with_ts, sep),
{
    vstd::bytes::lemma_auto_spec_u32_to_from_le_bytes();
}

/// A plaintext path scan that sees `k` non-0 bytes and then a 0, all within
/// its limit and the archive, ends right after those bytes.
proof fn lemma_plain_name_end_at(b: Seq<u8>, pos: int, k: int, limit: int)
    requires
        0 <= pos,
        0 <= k < limit,
        pos + k < b.len(),
        forall|j: int| pos <= j < pos + k ==> b[j] != 0,
        b[pos + k] == 0,
    ensures
        crate::parse::spec_plain_name_end(b, pos, limit) == Some(pos + k),
    decreases k,
{
    if k > 0 {
        lemma_plain_name_end_at(b, pos + 1, k - 1, limit - 1);
    }
}

/// Walking a plaintext index reads back exactly the entries it was written
/// from, each with its data where the content region puts it.
#[verifier::rlimit(100)]
proof fn lemma_index_parses(b: Seq<u8>, es: Seq<BuildEntry>, ip: int, cp: int)
    requires
        spec_header_ok(b),
        !crate::parse::spec_has_encrypted_index(b),
        !crate::parse::spec_has_encrypted_content(b),
        b.len() <= u32::MAX,
        crate::parse::spec_index_end(b) <= b.len(),
        0 <= ip,
        ip + spec_index_size(
            es,
            crate::parse::spec_has_index_with_timestamps(b),
            crate::parse::spec_has_separator(b),
        ) == crate::parse::spec_index_end(b),
        b.subrange(ip, crate::parse::spec_index_end(b)) == spec_index_bytes(
            es,
            crate::parse::spec_has_index_with_timestamps(b),
            crate::parse::spec_has_separator(b),
        ),
        0 <= cp,
        cp + spec_content_size(es) <= b.len(),
        b.subrange(cp, cp + spec_content_size(es)) == spec_content_bytes(es),
        es.len() <= u32::MAX,
        spec_paths_ok(es),
        spec_entries_fit(es),
    ensures
        ({
            let with_ts = crate::parse::spec_has_index_with_timestamps(b);
            let expected = spec_expected_entries(es, cp, with_ts);
            &&& crate::parse::spec_entries_from(b, es.len() as u32, ip as u32, cp as u32)
                == Some(expected)
            &&& expected.len() == es.len()
            &&& forall|k: int|
                0 <= k < es.len() ==> crate::parse::spec_entry_data(b, #[trigger] expected[k])
                    == Some(es[k].data)
        }),
    decreases es.len(),
{
    let with_ts = crate::parse::spec_has_index_with_timestamps(b);
    let sep = crate::parse::spec_has_separator(b);
    let idx_end = crate::parse::spec_index_end(b);
    let expected = spec_expected_entries(es, cp, with_ts);
    if es.len() == 0 {
    } else {
        let e0 = es[0];
        let rest = es.drop_first();
        let ebytes = spec_entry_bytes(e0, with_ts, sep);
        let esz = spec_entry_size(e0, with_ts, sep);
        let plen = e0.path.len() as int;
        let dlen = e0.data.len() as int;
        let dlen32 = e0.data.len() as u32;
        vstd::bytes::lemma_auto_spec_u32_to_from_le_bytes();
        lemma_entry_bytes_len(e0, with_ts, sep);
        lemma_index_bytes_len(rest, with_ts, sep);
        lemma_content_bytes_len(rest);
        lemma_sizes_nonneg(Seq::<Seq<u8>>::empty(), rest, with_ts, sep);
        assert(spec_index_bytes(es, with_ts, sep) == ebytes + spec_index_bytes(
            rest,
            with_ts,
            sep,
        ));
        assert(spec_content_bytes(es) == e0.data + spec_content_bytes(rest));
        assert forall|k: int| ip <= k < idx_end implies b[k] == spec_index_bytes(
            es,
            with_ts,
            sep,
        )[k - ip] by {
            assert(b[k] == b.subrange(ip, idx_end)[k - ip]);
        }
        assert forall|k: int| cp <= k < cp + spec_content_size(es) implies b[k]
            == spec_content_bytes(es)[k - cp] by {
            assert(b[k] == b.subrange(cp, cp + spec_content_size(es))[k - cp]);
        }

        // The length word.
        assert(b.subrange(ip, ip + 4) =~= spec_u32_to_le_bytes(dlen32));
        assert(spec_le32(b, ip) == dlen32);

        // The optional timestamp word and the optional separator byte.
        let ip2 = if with_ts {
            ip + 8
        } else {
            ip + 4
        };
        if with_ts {
            assert(b.subrange(ip + 4, ip + 8) =~= spec_u32_to_le_bytes(
                spec_ts_or_zero(e0.timestamp),
            ));
            assert(spec_le32(b, ip + 4) == spec_ts_or_zero(e0.timestamp));
        }
        let ip3 = if sep {
            ip2 + 1
        } else {
            ip2
        };
        assert(ip3 + plen + 1 == ip + esz);

        // The path and its terminator.
        let limit = idx_end - ip3;
        assert forall|j: int| ip3 <= j < ip3 + plen implies b[j] != 0 by {
            assert(b[j] == ebytes[j - ip]);
            assert(ebytes[j - ip] == e0.path[j - ip3]);
        }
        assert(b[ip3 + plen] == ebytes[ip3 + plen - ip]);
        assert(b[ip3 + plen] == 0);
        lemma_plain_name_end_at(b, ip3, plen, limit);
        assert(b.subrange(ip3, ip3 + plen) =~= e0.path);

        // The first entry comes out as written.
        let cp2 = cp + dlen;
        assert(cp2 <= b.len());
        let se = crate::parse::SpecEntry {
            data_length: dlen32,
            timestamp: if with_ts {
                Some(spec_ts_or_zero(e0.timestamp))
            } else {
                None
            },
            path: e0.path,
            data_start: cp as u32,
            is_encrypted: false,
        };
        assert(crate::parse::spec_next_entry(b, es.len() as u32, ip as u32, cp as u32) == Some(
            (se, (ip + esz) as u32, cp2 as u32),
        ));

        // The rest of the index and of the content region parse on.
        assert(b.subrange(ip + esz, idx_end) =~= spec_index_bytes(rest, with_ts, sep));
        assert(b.subrange(cp2, cp2 + spec_content_size(rest)) =~= spec_content_bytes(rest));
        assert forall|i: int|
            0 <= i < rest.len() implies valid_utf8(#[trigger] rest[i].path) && (forall|j: int|
            0 <= j < rest[i].path.len() ==> rest[i].path[j] != 0) && (#[trigger] rest[i].data).len()
            <= u32::MAX by {
            assert(rest[i] == es[i + 1]);
        }
        lemma_index_parses(b, rest, ip + esz, cp2);
        assert(expected =~= seq![se] + spec_expected_entries(rest, cp2, with_ts));
        assert(crate::parse::spec_entries_from(b, es.len() as u32, ip as u32, cp as u32) == Some(
            expected,
        ));

        // Every entry's data resolves to the bytes written for it.
        assert(b.subrange(cp, cp + dlen) =~= e0.data);
        assert(crate::parse::spec_entry_data(b, se) == Some(e0.data));
        assert forall|k: int|
            0 <= k < es.len() implies crate::parse::spec_entry_data(b, #[trigger] expected[k])
            == Some(es[k].data) by {
            if k > 0 {
                assert(expected[k] == spec_expected_entries(rest, cp2, with_ts)[k - 1]);
                assert(rest[k - 1] == es[k]);
            }
        }
    }
}

/// The names written by the builder read back exactly, in order.
pub proof fn lemma_build_names_parse(
    names: Seq<Seq<u8>>,
    es: Seq<BuildEntry>,
    version: PFHVersion,
    bits: u32,
    tv: u32,
    ts: u32,
)
    requires
        version != PFHVersion::Unsupported,
        bits & ALL_FLAG_BITS == bits,
        tv <= 4,
        names.len() <= u32::MAX,
        spec_names_size(names) <= u32::MAX,
        es.len() <= u32::MAX,
        spec_index_size(es, spec_with_ts(bits), spec_with_sep(version, bits)) <= u32::MAX,
        spec_names_have_no_zero(names),
    ensures
        spec_pack_file_names(spec_build_bytes(names, es, version, bits, tv, ts)) == Some(names),
{
    let b = spec_build_bytes(names, es, version, bits, tv, ts);
    let with_ts = spec_with_ts(bits);
    let sep = spec_with_sep(version, bits);
    lemma_build_header_fields(names, es, version, bits, tv, ts);
    lemma_names_bytes_len(names);
    lemma_index_bytes_len(es, with_ts, sep);
    lemma_content_bytes_len(es);
    lemma_sizes_nonneg(names, es, with_ts, sep);
    let hdr = spec_static_header_size(b);
    let region = b.subrange(hdr, hdr + spec_names_size(names));
    assert(region =~= spec_names_bytes(names));
    assert(region.skip(0) =~= spec_names_bytes(names));
    lemma_names_parse_from(region, 0, names);
    assert(spec_pack_file_names(b) == Some(names));
}

/// The sum of the declared data lengths of parsed entries.
pub open spec fn spec_total_data(es: Seq<crate::parse::SpecEntry>) -> int
    decreases es.len(),
{
    if es.len() == 0 {
        0
    } else {
        es[0].data_length + spec_total_data(es.drop_first())
    }
}

/// Readable entries of an unpadded archive lie back to back from the content
/// cursor, so their total data fits before the end of the archive.
proof fn lemma_entries_data_extent(b: Seq<u8>, n: u32, ip: u32, cp: u32)
    requires
        !crate::parse::spec_has_content_padding(b),
        crate::parse::spec_entries_from(b, n, ip, cp) is Some,
        forall|k: int|
            0 <= k < crate::parse::spec_entries_from(b, n, ip, cp)->Some_0.len()
                ==> crate::parse::spec_entry_data(
                b,
                #[trigger] crate::parse::spec_entries_from(b, n, ip, cp)->Some_0[k],
            ) is Some,
    ensures
        n > 0 ==> cp + spec_total_data(crate::parse::spec_entries_from(b, n, ip, cp)->Some_0)
            <= b.len(),
    decreases n,
{
    if n > 0 {
        let es = crate::parse::spec_entries_from(b, n, ip, cp)->Some_0;
        let (e, ip2, cp2) = crate::parse::spec_next_entry(b, n, ip, cp)->Some_0;
        let rest = crate::parse::spec_entries_from(b, (n - 1) as u32, ip2, cp2)->Some_0;
        assert(es == seq![e] + rest);
        assert(e == es[0]);
        // Without padding the content cursor advances by exactly the entry's
        // declared length.
        assert(cp2 == cp + e.data_length);
        assert forall|k: int|
            0 <= k < rest.len() implies crate::parse::spec_entry_data(
            b,
            #[trigger] rest[k],
        ) is Some by {
            assert(rest[k] == es[k + 1]);
        }
        lemma_entries_data_extent(b, (n - 1) as u32, ip2, cp2);
        if rest.len() == 0 {
            assert(crate::parse::spec_entry_data(b, es[0]) is Some);
            assert(cp + e.data_length <= b.len());
        }
        assert(rest =~= es.drop_first());
    }
}

/// Every archive that parses eagerly fits its own declared layout: the static
/// header, the two indexes and every entry's data lie within the file. Stated
/// for archives without content padding, whose entries are contiguous.
pub proof fn lemma_archive_sizes_fit(b: Seq<u8>)
    requires
        spec_header_ok(b),
        crate::parse::spec_eager_ok(b),
        !crate::parse::spec_has_content_padding(b),
        spec_packed_file_index_length(b) > 0,
    ensures
        spec_static_header_size(b) + spec_pack_file_index_size(b) + spec_packed_file_index_size(
            b,
        ) + spec_total_data(spec_entries(b)->Some_0) <= b.len(),
{
    let es = spec_entries(b)->Some_0;
    let count = spec_packed_file_index_length(b);
    // A positive count rules the degenerate iterator out: the walk really ran
    // from the start of the index.
    assert(crate::parse::spec_index_end(b) <= u32::MAX && crate::parse::spec_content_base(b)
        <= u32::MAX);
    assert(crate::parse::spec_content_base(b) == crate::parse::spec_index_end(b));
    lemma_entries_data_extent(
        b,
        count,
        crate::parse::spec_index_base(b) as u32,
        crate::parse::spec_content_base(b) as u32,
    );
}

/// The full round trip: a plaintext archive the builder emits parses back
/// exactly. It validates without a warning; its version, flags, type,
/// timestamp, counts and sizes read back as built; its pack-file names come
/// back in order; walking its packed-file index yields exactly the built
/// entries, whose content slots hold exactly the written data; and the
/// archive's bytes are exactly header, name index, packed-file index and
/// content, with nothing else.
pub proof fn lemma_build_round_trip(
    names: Seq<Seq<u8>>,
    es: Seq<BuildEntry>,
    version: PFHVersion,
    bits: u32,
    tv: u32,
    ts: u32,
)
    requires
        version != PFHVersion::Unsupported,
        bits & ALL_FLAG_BITS == bits,
        bits & HAS_ENCRYPTED_INDEX == 0,
        bits & HAS_ENCRYPTED_CONTENT == 0,
        tv <= 4,
        names.len() <= u32::MAX,
        spec_names_size(names) <= u32::MAX,
        es.len() <= u32::MAX,
        spec_index_size(es, spec_with_ts(bits), spec_with_sep(version, bits)) <= u32::MAX,
        spec_build_bytes(names, es, version, bits, tv, ts).len() <= u32::MAX,
        spec_names_have_no_zero(names),
        spec_paths_ok(es),
        spec_entries_fit(es),
    ensures
        ({
            let b = spec_build_bytes(names, es, version, bits, tv, ts);
            let with_ts = spec_with_ts(bits);
            let sep = spec_with_sep(version, bits);
            let expected = spec_expected_entries(es, crate::parse::spec_index_end(b), with_ts);
            &&& spec_header_ok(b)
            &&& !crate::parse::spec_has_unknown_flag_bits(b)
            &&& PFHVersion::spec_from_preamble(spec_preamble(b)) == Some(version)
            &&& spec_bitmask(b) == bits
            &&& spec_file_type_value(b) == tv
            &&& spec_timestamp(b) == (
            if version == PFHVersion::PFH5 && bits & HAS_BIG_HEADER == HAS_BIG_HEADER {
                0u32
            } else {
                ts
            })
            &&& spec_pack_file_names(b) == Some(names)
            &&& spec_packed_file_index_length(b) == es.len()
            &&& spec_entries(b) == Some(expected)
            &&& expected.len() == es.len()
            &&& forall|k: int|
                0 <= k < es.len() ==> crate::parse::spec_entry_data(b, #[trigger] expected[k])
                    == Some(es[k].data)
            &&& crate::parse::spec_eager_ok(b)
            &&& b.len() == spec_static_header_size(b) + spec_pack_file_index_size(b)
                + spec_packed_file_index_size(b) + spec_content_size(es)
        }),
{
    let b = spec_build_bytes(names, es, version, bits, tv, ts);
    let with_ts = spec_with_ts(bits);
    let sep = spec_with_sep(version, bits);
    lemma_build_header_fields(names, es, version, bits, tv, ts);
    lemma_build_names_parse(names, es, version, bits, tv, ts);
    lemma_names_bytes_len(names);
    lemma_index_bytes_len(es, with_ts, sep);
    lemma_content_bytes_len(es);
    lemma_sizes_nonneg(names, es, with_ts, sep);
    let hdr = spec_static_header_size(b);
    let idx_base = crate::parse::spec_index_base(b);
    let idx_end = crate::parse::spec_index_end(b);

    // The version reads back: the two supported preambles are distinct words.
    assert(PFHVersion::spec_from_preamble(spec_preamble(b)) == Some(version));

    // The written flag bits decide the same layout questions the parser asks.
    assert(crate::parse::spec_has_encrypted_index(b) == false);
    assert(crate::parse::spec_has_encrypted_content(b) == false);
    assert(crate::parse::spec_has_index_with_timestamps(b) == with_ts);
    assert(crate::parse::spec_has_separator(b) == sep);
    assert(!crate::parse::spec_has_content_padding(b));
    assert(crate::parse::spec_content_base(b) == idx_end);

    // The packed-file index and the content region stand where the header
    // says, holding exactly the written bytes.
    assert(b.subrange(idx_base, idx_end) =~= spec_index_bytes(es, with_ts, sep));
    assert(b.subrange(idx_end, idx_end + spec_content_size(es)) =~= spec_content_bytes(es));
    lemma_index_parses(b, es, idx_base, idx_end);
    assert(spec_entries(b) == Some(spec_expected_entries(es, idx_end, with_ts)));
}

} // verus!
