//! Writing a PackFile: the exact byte layout of the header, the two indexes
//! and the content region, and the builder that emits it.

use vstd::prelude::*;
use vstd::bytes::{spec_u32_to_le_bytes, u32_to_le_bytes};
use vstd::seq_lib::{to_multiset_build, to_multiset_insert, to_multiset_remove};
use vstd::slice::slice_to_vec;
use vstd::string::StringSliceAdditionalSpecFns;
use vstd::utf8::encode_utf8;

use crate::error::Error;
use crate::{PackFile, PackedFile, PFHFileType, PFHFlags, PFHVersion, ALL_FLAG_BITS,
    HAS_BIG_HEADER, HAS_INDEX_WITH_TIMESTAMPS};

verus! {

/// What the builder needs to know of one packed file: its timestamp, its path
/// bytes and its data bytes.
pub struct BuildEntry {
    /// The entry's timestamp, written only when the index carries timestamps.
    pub timestamp: Option<u32>,
    /// The UTF-8 bytes of the entry's path.
    pub path: Seq<u8>,
    /// The entry's data.
    pub data: Seq<u8>,
}

/// The builder's view of a packed file. Meaningful only when the file's data
/// resolves.
pub open spec fn spec_build_view(e: PackedFile) -> BuildEntry {
    BuildEntry { timestamp: e.timestamp, path: encode_utf8(e.path@), data: e.spec_data()->Some_0 }
}

/// The builder's view of a whole list of packed files.
pub open spec fn spec_entry_views(files: Seq<PackedFile>) -> Seq<BuildEntry> {
    files.map_values(|e: PackedFile| spec_build_view(e))
}

/// True when two packed files are the same entry to the builder: same path,
/// same timestamp, same data.
pub open spec fn spec_same_entry(a: PackedFile, b: PackedFile) -> bool {
    a.path == b.path && a.timestamp == b.timestamp && a.spec_data() == b.spec_data()
}

/// The byte lists of a list of pack-file names.
pub open spec fn spec_name_views(names: Seq<String>) -> Seq<Seq<u8>> {
    names.map_values(|s: String| encode_utf8(s@))
}

/// `t`, or 0 when absent: how a missing timestamp is written.
pub open spec fn spec_ts_or_zero(t: Option<u32>) -> u32 {
    match t {
        Some(v) => v,
        None => 0u32,
    }
}

/// The tail of the static header after the two index sizes: the timestamp
/// word, except on a big-header version-5 archive, which carries six reserved
/// zero words instead.
pub open spec fn spec_header_tail(version: PFHVersion, big: bool, ts: u32) -> Seq<u8> {
    if version == PFHVersion::PFH5 && big {
        spec_u32_to_le_bytes(0) + spec_u32_to_le_bytes(0) + spec_u32_to_le_bytes(0)
            + spec_u32_to_le_bytes(0) + spec_u32_to_le_bytes(0) + spec_u32_to_le_bytes(0)
    } else {
        spec_u32_to_le_bytes(ts)
    }
}

/// The static header: preamble, flags-and-type word, the counts and byte
/// sizes of the two indexes, and the version's tail.
pub open spec fn spec_header_bytes(
    version: PFHVersion,
    bits: u32,
    type_value: u32,
    ts: u32,
    pf_count: u32,
    pf_size: u32,
    pfi_count: u32,
    pfi_size: u32,
) -> Seq<u8> {
    spec_u32_to_le_bytes(version.spec_preamble()) + spec_u32_to_le_bytes(bits | type_value)
        + spec_u32_to_le_bytes(pf_count) + spec_u32_to_le_bytes(pf_size) + spec_u32_to_le_bytes(
        pfi_count,
    ) + spec_u32_to_le_bytes(pfi_size) + spec_header_tail(
        version,
        bits & HAS_BIG_HEADER == HAS_BIG_HEADER,
        ts,
    )
}

/// The pack-file-name index: each name's bytes, then a 0.
pub open spec fn spec_names_bytes(names: Seq<Seq<u8>>) -> Seq<u8>
    decreases names.len(),
{
    if names.len() == 0 {
        Seq::<u8>::empty()
    } else {
        names[0] + seq![0u8] + spec_names_bytes(names.drop_first())
    }
}

/// The byte size of the pack-file-name index.
pub open spec fn spec_names_size(names: Seq<Seq<u8>>) -> int
    decreases names.len(),
{
    if names.len() == 0 {
        0
    } else {
        names[0].len() + 1 + spec_names_size(names.drop_first())
    }
}

/// One packed-file index entry: the data length, the optional timestamp word,
/// the optional separator byte, the path bytes, a 0.
pub open spec fn spec_entry_bytes(e: BuildEntry, with_ts: bool, sep: bool) -> Seq<u8> {
    spec_u32_to_le_bytes(e.data.len() as u32) + (
    if with_ts {
        spec_u32_to_le_bytes(spec_ts_or_zero(e.timestamp))
    } else {
        Seq::<u8>::empty()
    }) + (
    if sep {
        seq![0u8]
    } else {
        Seq::<u8>::empty()
    }) + e.path + seq![0u8]
}

/// The byte size of one packed-file index entry.
pub open spec fn spec_entry_size(e: BuildEntry, with_ts: bool, sep: bool) -> int {
    4 + (if with_ts { 4int } else { 0int }) + (if sep { 1int } else { 0int }) + e.path.len() + 1
}

/// The packed-file index: the entries' index records back to back.
pub open spec fn spec_index_bytes(es: Seq<BuildEntry>, with_ts: bool, sep: bool) -> Seq<u8>
    decreases es.len(),
{
    if es.len() == 0 {
        Seq::<u8>::empty()
    } else {
        spec_entry_bytes(es[0], with_ts, sep) + spec_index_bytes(es.drop_first(), with_ts, sep)
    }
}

/// The byte size of the packed-file index.
pub open spec fn spec_index_size(es: Seq<BuildEntry>, with_ts: bool, sep: bool) -> int
    decreases es.len(),
{
    if es.len() == 0 {
        0
    } else {
        spec_entry_size(es[0], with_ts, sep) + spec_index_size(es.drop_first(), with_ts, sep)
    }
}

/// The content region: the entries' data back to back, unpadded — the builder
/// always writes plaintext.
pub open spec fn spec_content_bytes(es: Seq<BuildEntry>) -> Seq<u8>
    decreases es.len(),
{
    if es.len() == 0 {
        Seq::<u8>::empty()
    } else {
        es[0].data + spec_content_bytes(es.drop_first())
    }
}

/// The byte size of the content region.
pub open spec fn spec_content_size(es: Seq<BuildEntry>) -> int
    decreases es.len(),
{
    if es.len() == 0 {
        0
    } else {
        es[0].data.len() + spec_content_size(es.drop_first())
    }
}

/// True when the index entries carry a timestamp word.
pub open spec fn spec_with_ts(bits: u32) -> bool {
    bits & HAS_INDEX_WITH_TIMESTAMPS == HAS_INDEX_WITH_TIMESTAMPS
}

/// True when the index entries carry a separator byte: version 5 without the
/// big header.
pub open spec fn spec_with_sep(version: PFHVersion, bits: u32) -> bool {
    version == PFHVersion::PFH5 && bits & HAS_BIG_HEADER != HAS_BIG_HEADER
}

/// The whole archive the builder emits for the given inputs: header,
/// pack-file-name index, packed-file index, content.
pub open spec fn spec_build_bytes(
    names: Seq<Seq<u8>>,
    es: Seq<BuildEntry>,
    version: PFHVersion,
    bits: u32,
    type_value: u32,
    ts: u32,
) -> Seq<u8> {
    let with_ts = spec_with_ts(bits);
    let sep = spec_with_sep(version, bits);
    spec_header_bytes(
        version,
        bits,
        type_value,
        ts,
        names.len() as u32,
        spec_names_size(names) as u32,
        es.len() as u32,
        spec_index_size(es, with_ts, sep) as u32,
    ) + spec_names_bytes(names) + spec_index_bytes(es, with_ts, sep) + spec_content_bytes(es)
}

/// True when every size and count of the archive fits its 32-bit header
/// field, so that the builder can represent the inputs at all.
pub open spec fn spec_build_fits(
    names: Seq<Seq<u8>>,
    es: Seq<BuildEntry>,
    with_ts: bool,
    sep: bool,
) -> bool {
    &&& names.len() <= u32::MAX
    &&& spec_names_size(names) <= u32::MAX
    &&& es.len() <= u32::MAX
    &&& spec_index_size(es, with_ts, sep) <= u32::MAX
    &&& forall|i: int| 0 <= i < es.len() ==> (#[trigger] es[i].data).len() <= u32::MAX
}

/// Appending a name adds its bytes and a terminator at the end of the index.
proof fn lemma_names_bytes_push(names: Seq<Seq<u8>>, x: Seq<u8>)
    ensures
        spec_names_bytes(names.push(x)) == spec_names_bytes(names) + x + seq![0u8],
        spec_names_size(names.push(x)) == spec_names_size(names) + x.len() + 1,
    decreases names.len(),
{
    if names.len() == 0 {
        assert(names.push(x).drop_first() =~= names);
        assert(spec_names_bytes(names.push(x)) =~= x + seq![0u8]);
        assert(spec_names_bytes(names) + x + seq![0u8] =~= x + seq![0u8]);
    } else {
        assert(names.push(x).drop_first() =~= names.drop_first().push(x));
        lemma_names_bytes_push(names.drop_first(), x);
        assert(spec_names_bytes(names.push(x)) == names[0] + seq![0u8] + (spec_names_bytes(
            names.drop_first(),
        ) + x + seq![0u8]));
        assert(names[0] + seq![0u8] + (spec_names_bytes(names.drop_first()) + x + seq![0u8])
            =~= spec_names_bytes(names) + x + seq![0u8]);
    }
}

/// Appending an entry adds its index record and its data at the ends of the
/// index and the content region.
proof fn lemma_entries_push(es: Seq<BuildEntry>, x: BuildEntry, with_ts: bool, sep: bool)
    ensures
        spec_index_bytes(es.push(x), with_ts, sep) == spec_index_bytes(es, with_ts, sep)
            + spec_entry_bytes(x, with_ts, sep),
        spec_index_size(es.push(x), with_ts, sep) == spec_index_size(es, with_ts, sep)
            + spec_entry_size(x, with_ts, sep),
        spec_content_bytes(es.push(x)) == spec_content_bytes(es) + x.data,
        spec_content_size(es.push(x)) == spec_content_size(es) + x.data.len(),
    decreases es.len(),
{
    if es.len() == 0 {
        assert(es.push(x).drop_first() =~= es);
        assert(spec_index_bytes(es.push(x), with_ts, sep) =~= spec_entry_bytes(x, with_ts, sep));
        assert(spec_index_bytes(es, with_ts, sep) + spec_entry_bytes(x, with_ts, sep)
            =~= spec_entry_bytes(x, with_ts, sep));
        assert(es.push(x)[0] == x);
        assert(spec_content_bytes(es.push(x)) == x.data + spec_content_bytes(
            es.push(x).drop_first(),
        ));
        assert(spec_content_bytes(es.push(x)) =~= x.data);
        assert(spec_content_bytes(es) + x.data =~= x.data);
    } else {
        assert(es.push(x).drop_first() =~= es.drop_first().push(x));
        lemma_entries_push(es.drop_first(), x, with_ts, sep);
        assert(spec_entry_bytes(es[0], with_ts, sep) + (spec_index_bytes(
            es.drop_first(),
            with_ts,
            sep,
        ) + spec_entry_bytes(x, with_ts, sep)) =~= spec_index_bytes(es, with_ts, sep)
            + spec_entry_bytes(x, with_ts, sep));
        assert(es[0].data + (spec_content_bytes(es.drop_first()) + x.data) =~= spec_content_bytes(
            es,
        ) + x.data);
    }
}

/// Codepoint-wise (byte-wise) order on paths: `a` sorts at or before `b`.
pub open spec fn lex_le(a: Seq<u8>, b: Seq<u8>) -> bool
    decreases a.len(),
{
    if a.len() == 0 {
        true
    } else if b.len() == 0 {
        false
    } else if a[0] < b[0] {
        true
    } else if a[0] > b[0] {
        false
    } else {
        lex_le(a.drop_first(), b.drop_first())
    }
}

/// Any two paths compare: the order is total.
pub proof fn lemma_lex_le_total(a: Seq<u8>, b: Seq<u8>)
    ensures
        lex_le(a, b) || lex_le(b, a),
    decreases a.len(),
{
    if a.len() > 0 && b.len() > 0 && a[0] == b[0] {
        lemma_lex_le_total(a.drop_first(), b.drop_first());
    }
}

/// The order chains: a path at or before a second, itself at or before a
/// third, is at or before the third.
pub proof fn lemma_lex_le_trans(a: Seq<u8>, b: Seq<u8>, c: Seq<u8>)
    requires
        lex_le(a, b),
        lex_le(b, c),
    ensures
        lex_le(a, c),
    decreases a.len(),
{
    if a.len() > 0 && b.len() > 0 && c.len() > 0 && a[0] == b[0] && b[0] == c[0] {
        lemma_lex_le_trans(a.drop_first(), b.drop_first(), c.drop_first());
    }
}

/// Compares two paths in codepoint-wise (byte-wise) order.
fn path_le(a: &str, b: &str) -> (r: bool)
    ensures
        r == lex_le(a.spec_bytes(), b.spec_bytes()),
{
    let ab = a.as_bytes();
    let bb = b.as_bytes();
    let ghost asq = a.spec_bytes();
    let ghost bsq = b.spec_bytes();
    let mut i: usize = 0;
    proof {
        assert(asq.skip(0) =~= asq);
        assert(bsq.skip(0) =~= bsq);
    }
    loop
        invariant
            asq == a.spec_bytes(),
            bsq == b.spec_bytes(),
            ab@ == asq,
            bb@ == bsq,
            i <= asq.len(),
            i <= bsq.len(),
            lex_le(asq, bsq) == lex_le(asq.skip(i as int), bsq.skip(i as int)),
        decreases asq.len() - i,
    {
        if i >= ab.len() {
            proof {
                assert(asq.skip(i as int).len() == 0);
            }
            return true;
        }
        if i >= bb.len() {
            proof {
                assert(bsq.skip(i as int).len() == 0 && asq.skip(i as int).len() > 0);
            }
            return false;
        }
        let x = ab[i];
        let y = bb[i];
        proof {
            assert(asq.skip(i as int)[0] == asq[i as int]);
            assert(bsq.skip(i as int)[0] == bsq[i as int]);
        }
        if x < y {
            return true;
        }
        if x > y {
            return false;
        }
        proof {
            assert(asq.skip(i as int).drop_first() =~= asq.skip(i as int + 1));
            assert(bsq.skip(i as int).drop_first() =~= bsq.skip(i as int + 1));
        }
        i = i + 1;
    }
}

/// True when the files stand in codepoint-wise ascending path order.
pub open spec fn spec_sorted_by_path(files: Seq<PackedFile>) -> bool {
    forall|i: int, j: int|
        0 <= i < j < files.len() ==> lex_le(
            encode_utf8(#[trigger] files[i].path@),
            encode_utf8(#[trigger] files[j].path@),
        )
}

/// Sorts the files by path in codepoint-wise ascending order. The result is a
/// rearrangement of the same files: nothing is added, dropped or changed.
fn sort_packed_files(files: &mut Vec<PackedFile>)
    ensures
        final(files)@.len() == old(files)@.len(),
        final(files)@.to_multiset() == old(files)@.to_multiset(),
        spec_entry_views(final(files)@).to_multiset() == spec_entry_views(
            old(files)@,
        ).to_multiset(),
        forall|i: int|
            0 <= i < final(files)@.len() ==> old(files)@.contains(#[trigger] final(files)@[i]),
        spec_sorted_by_path(final(files)@),
{
    let ghost orig = files@;
    proof {
        broadcast use to_multiset_build, to_multiset_insert, to_multiset_remove;
        broadcast use vstd::seq_lib::to_multiset_contains;

    }
    let mut i: usize = 1;
    while i < files.len()
        invariant
            orig == old(files)@,
            files@.len() == orig.len(),
            files@.to_multiset() == orig.to_multiset(),
            spec_entry_views(files@).to_multiset() == spec_entry_views(orig).to_multiset(),
            i <= files@.len() || files@.len() <= 1,
            forall|p: int, q: int|
                0 <= p < q < i && q < files@.len() ==> lex_le(
                    encode_utf8(#[trigger] files@[p].path@),
                    encode_utf8(#[trigger] files@[q].path@),
                ),
        decreases files@.len() - i,
    {
        proof {
            broadcast use to_multiset_build, to_multiset_insert, to_multiset_remove;
            broadcast use vstd::seq_lib::to_multiset_contains;

        }
        let ghost pre = files@;
        let ghost xpath = encode_utf8(files@[i as int].path@);
        // Find where the element at `i` belongs within the sorted prefix.
        let mut k: usize = i;
        loop
            invariant
                pre == files@,
                xpath == encode_utf8(files@[i as int].path@),
                k <= i < files@.len(),
                forall|m: int|
                    k <= m < i ==> lex_le(xpath, encode_utf8(#[trigger] files@[m].path@)),
            ensures
                k <= i,
                pre == files@,
                k > 0 ==> lex_le(encode_utf8(files@[k - 1].path@), xpath),
                forall|m: int|
                    k <= m < i ==> lex_le(xpath, encode_utf8(#[trigger] files@[m].path@)),
            decreases k,
        {
            if k == 0 {
                break ;
            }
            let le = path_le(files[k - 1].path.as_str(), files[i].path.as_str());
            proof {
                assert(le == lex_le(encode_utf8(files@[k - 1].path@), xpath));
            }
            if le {
                break ;
            }
            proof {
                lemma_lex_le_total(encode_utf8(files@[k - 1].path@), xpath);
                assert(lex_le(xpath, encode_utf8(files@[k - 1].path@)));
            }
            k = k - 1;
        }
        if k == i {
            proof {
                let ghost xe = files@[i as int];
                assert forall|p: int, q: int|
                    0 <= p < q < i + 1 && q < files@.len() implies lex_le(
                    encode_utf8(#[trigger] files@[p].path@),
                    encode_utf8(#[trigger] files@[q].path@),
                ) by {
                    if q == i as int {
                        assert(lex_le(encode_utf8(files@[i - 1].path@), xpath));
                        if p < i - 1 {
                            lemma_lex_le_trans(
                                encode_utf8(files@[p].path@),
                                encode_utf8(files@[i - 1].path@),
                                xpath,
                            );
                        }
                    }
                }
            }
            i = i + 1;
            continue ;
        }
        let x = files.remove(i);
        files.insert(k, x);
        proof {
            let now = files@;
            assert(now =~= pre.remove(i as int).insert(k as int, x));
            assert(now.to_multiset() == orig.to_multiset());
            // The views are rearranged the same way, so their multiset is
            // unchanged too.
            let v = spec_build_view(x);
            assert(spec_entry_views(pre.remove(i as int)) =~= spec_entry_views(pre).remove(
                i as int,
            ));
            assert(spec_entry_views(now) =~= spec_entry_views(pre.remove(i as int)).insert(
                k as int,
                v,
            ));
            assert(spec_entry_views(pre)[i as int] == v);
            assert(spec_entry_views(pre).contains(v));
            vstd::seq_lib::to_multiset_contains::<BuildEntry>(spec_entry_views(pre), v);
            assert(spec_entry_views(pre).to_multiset().remove(v).insert(v)
                =~= spec_entry_views(pre).to_multiset());
            assert(spec_entry_views(now).to_multiset() == spec_entry_views(orig).to_multiset());
            // The prefix up to and including the inserted element is sorted.
            assert forall|p: int, q: int|
                0 <= p < q < i + 1 && q < now.len() implies lex_le(
                encode_utf8(#[trigger] now[p].path@),
                encode_utf8(#[trigger] now[q].path@),
            ) by {
                let kk = k as int;
                let ii = i as int;
                // Where each element of the new prefix came from.
                assert(forall|m: int| 0 <= m < kk ==> now[m] == pre[m]);
                assert(now[kk] == x && x == pre[ii]);
                assert(forall|m: int| kk < m <= ii ==> now[m] == pre[m - 1]);
                if p < kk && q == kk {
                    assert(kk > 0 ==> lex_le(encode_utf8(pre[kk - 1].path@), xpath));
                    if p < kk - 1 {
                        lemma_lex_le_trans(
                            encode_utf8(pre[p].path@),
                            encode_utf8(pre[kk - 1].path@),
                            xpath,
                        );
                    }
                } else if p == kk && q > kk {
                    assert(lex_le(xpath, encode_utf8(pre[q - 1].path@)));
                } else if p < kk && q > kk {
                    assert(lex_le(encode_utf8(pre[p].path@), encode_utf8(pre[q - 1].path@)));
                } else if p > kk && q > kk {
                    assert(lex_le(encode_utf8(pre[p - 1].path@), encode_utf8(pre[q - 1].path@)));
                }
            }
        }
        i = i + 1;
    }
    proof {
        assert forall|i: int| 0 <= i < files@.len() implies orig.contains(
            #[trigger] files@[i],
        ) by {
            let x = files@[i];
            assert(files@.contains(x));
            vstd::seq_lib::to_multiset_contains::<PackedFile>(files@, x);
            vstd::seq_lib::to_multiset_contains::<PackedFile>(orig, x);
        }
    }
}

/// A shorter name list never has a larger index than the whole list.
proof fn lemma_names_size_prefix(names: Seq<Seq<u8>>, i: int)
    requires
        0 <= i <= names.len(),
    ensures
        spec_names_size(names.take(i)) <= spec_names_size(names),
        spec_names_size(names.take(i)) >= 0,
    decreases names.len() - i,
{
    if i == names.len() {
        assert(names.take(i) =~= names);
        lemma_names_size_nonneg(names);
    } else {
        assert(names.take(i + 1) =~= names.take(i).push(names[i]));
        lemma_names_bytes_push(names.take(i), names[i]);
        lemma_names_size_nonneg(names.take(i));
        lemma_names_size_prefix(names, i + 1);
    }
}

proof fn lemma_names_size_nonneg(names: Seq<Seq<u8>>)
    ensures
        spec_names_size(names) >= 0,
    decreases names.len(),
{
    if names.len() > 0 {
        lemma_names_size_nonneg(names.drop_first());
    }
}

/// A shorter entry list never has a larger index than the whole list.
proof fn lemma_index_size_prefix(es: Seq<BuildEntry>, i: int, with_ts: bool, sep: bool)
    requires
        0 <= i <= es.len(),
    ensures
        spec_index_size(es.take(i), with_ts, sep) <= spec_index_size(es, with_ts, sep),
        spec_index_size(es.take(i), with_ts, sep) >= 0,
    decreases es.len() - i,
{
    if i == es.len() {
        assert(es.take(i) =~= es);
        lemma_index_size_nonneg(es, with_ts, sep);
    } else {
        assert(es.take(i + 1) =~= es.take(i).push(es[i]));
        lemma_entries_push(es.take(i), es[i], with_ts, sep);
        lemma_index_size_nonneg(es.take(i), with_ts, sep);
        lemma_index_size_prefix(es, i + 1, with_ts, sep);
    }
}

proof fn lemma_index_size_nonneg(es: Seq<BuildEntry>, with_ts: bool, sep: bool)
    ensures
        spec_index_size(es, with_ts, sep) >= 0,
    decreases es.len(),
{
    if es.len() > 0 {
        lemma_index_size_nonneg(es.drop_first(), with_ts, sep);
    }
}

/// Appends the little-endian bytes of `x`.
fn push_u32_le(out: &mut Vec<u8>, x: u32)
    ensures
        final(out)@ == old(out)@ + spec_u32_to_le_bytes(x),
{
    let mut word = u32_to_le_bytes(x);
    out.append(&mut word);
}

/// Appends a copy of `bytes`.
fn push_bytes(out: &mut Vec<u8>, bytes: &[u8])
    ensures
        final(out)@ == old(out)@ + bytes@,
{
    let mut copy = slice_to_vec(bytes);
    out.append(&mut copy);
}

/// Builds a PackFile image from the given packed files and pack-file names:
/// sorts the files by path in codepoint order, reads every file's data, and
/// emits the header, the pack-file-name index, the packed-file index and the
/// plaintext content, in that order. The files end up sorted, each with its
/// data in memory. Fails with `IOError` when a file's data cannot be read,
/// and with `InvalidFileError` when a count, an index size or a data length
/// does not fit its 32-bit header field.
pub fn build_pack_from_memory(
    pack_files: &Vec<String>,
    packed_files: &mut Vec<PackedFile>,
    version: PFHVersion,
    bitmask: PFHFlags,
    file_type: PFHFileType,
    pfh_timestamp: u32,
) -> (r: Result<Vec<u8>, Error>)
    requires
        version != PFHVersion::Unsupported,
        forall|i: int|
            0 <= i < old(packed_files)@.len() ==> (#[trigger] old(packed_files)@[i]).wf(),
    ensures
        final(packed_files)@.len() == old(packed_files)@.len(),
        spec_entry_views(final(packed_files)@).to_multiset() == spec_entry_views(
            old(packed_files)@,
        ).to_multiset(),
        spec_sorted_by_path(final(packed_files)@),
        forall|i: int|
            0 <= i < final(packed_files)@.len() ==> (#[trigger] final(packed_files)@[i]).wf(),
        r matches Ok(out) ==> ({
            let names = spec_name_views(pack_files@);
            let es = spec_entry_views(final(packed_files)@);
            &&& forall|i: int|
                0 <= i < final(packed_files)@.len() ==> (#[trigger] final(packed_files)@[i]).spec_data() is Some
            &&& spec_build_fits(names, es, spec_with_ts(bitmask.bits), spec_with_sep(version, bitmask.bits))
            &&& out@ == spec_build_bytes(
                names,
                es,
                version,
                bitmask.bits,
                file_type.spec_value(),
                pfh_timestamp,
            )
        }),
        r matches Err(e) ==> e == Error::IOError || e == Error::InvalidFileError,
        r == Err::<Vec<u8>, Error>(Error::InvalidFileError) ==> !spec_build_fits(
            spec_name_views(pack_files@),
            spec_entry_views(final(packed_files)@),
            spec_with_ts(bitmask.bits),
            spec_with_sep(version, bitmask.bits),
        ),
        (forall|i: int|
            0 <= i < old(packed_files)@.len() ==> (#[trigger] old(packed_files)@[i]).spec_data_is_memory()) ==> (r is Ok <==> ((forall|i: int|
            0 <= i < final(packed_files)@.len() ==> (#[trigger] final(packed_files)@[i]).spec_data() is Some) && spec_build_fits(
            spec_name_views(pack_files@),
            spec_entry_views(final(packed_files)@),
            spec_with_ts(bitmask.bits),
            spec_with_sep(version, bitmask.bits),
        ))),
{
    let ghost ovm = spec_entry_views(old(packed_files)@).to_multiset();
    let ghost allmem = forall|i: int|
        0 <= i < old(packed_files)@.len() ==> (#[trigger] old(packed_files)@[i]).spec_data_is_memory();
    sort_packed_files(packed_files);
    proof {
        assert(spec_entry_views(packed_files@).to_multiset() == ovm);
        assert forall|i: int| 0 <= i < packed_files@.len() implies (#[trigger] packed_files@[i]).wf()
            && (allmem ==> packed_files@[i].spec_data_is_memory()) by {
            assert(old(packed_files)@.contains(packed_files@[i]));
            let j = choose|j: int|
                0 <= j < old(packed_files)@.len() && old(packed_files)@[j] == packed_files@[i];
            assert(old(packed_files)@[j].wf());
        }
    }

    // Read every file's data once: drain the files from the back,
    // materialising each, then restore them in order. Afterwards every file
    // is backed by memory and reads cannot fail.
    let ghost sorted_files = packed_files@;
    let ghost views = spec_entry_views(packed_files@);
    let ghost total = packed_files@.len();
    let mut rev: Vec<PackedFile> = Vec::new();
    let mut datas_rev: Vec<Vec<u8>> = Vec::new();
    while packed_files.len() > 0
        invariant
            ovm == spec_entry_views(old(packed_files)@).to_multiset(),
            views == spec_entry_views(sorted_files),
            views.to_multiset() == ovm,
            total == sorted_files.len() == old(packed_files)@.len(),
            spec_sorted_by_path(sorted_files),
            allmem == (forall|i: int|
                0 <= i < old(packed_files)@.len() ==> (#[trigger] old(packed_files)@[i]).spec_data_is_memory()),
            forall|i: int| 0 <= i < total ==> (#[trigger] sorted_files[i]).wf(),
            allmem ==> forall|i: int|
                0 <= i < total ==> (#[trigger] sorted_files[i]).spec_data_is_memory(),
            packed_files@ == sorted_files.take(packed_files@.len() as int),
            packed_files@.len() + rev@.len() == total,
            rev@.len() == datas_rev@.len(),
            forall|i: int|
                0 <= i < rev@.len() ==> spec_same_entry(#[trigger] rev@[i], sorted_files[total - 1 - i])
                    && rev@[i].wf() && rev@[i].spec_data() is Some && rev@[i].spec_data_is_memory(),
            forall|i: int| 0 <= i < rev@.len() ==> (#[trigger] datas_rev@[i])@ == views[total - 1 - i].data,
        decreases packed_files@.len(),
    {
        let ghost pre = packed_files@;
        let mut f = match packed_files.pop() {
            Some(f) => f,
            None => {
                proof {
                    assert(false);
                }
                return Err(Error::IOError);
            },
        };
        let ghost kf = packed_files@.len() as int;
        proof {
            assert(f == sorted_files[kf]);
            assert(packed_files@ =~= sorted_files.take(kf));
        }
        match f.get_data() {
            Ok(d) => {
                proof {
                    assert(views[kf] == spec_build_view(sorted_files[kf]));
                    assert(d@ == views[kf].data);
                }
                rev.push(f);
                datas_rev.push(d);
            },
            Err(e) => {
                // Put everything back as it stood, the failing file included.
                packed_files.push(f);
                proof {
                    if allmem {
                        assert(sorted_files[kf].spec_data_is_memory());
                        assert(sorted_files[kf].spec_data() is None);
                    }
                }
                while rev.len() > 0
                    invariant
                        total == sorted_files.len(),
                        0 <= kf < total,
                        views == spec_entry_views(sorted_files),
                        spec_sorted_by_path(sorted_files),
                        allmem == (forall|i: int|
                            0 <= i < old(packed_files)@.len() ==> (#[trigger] old(packed_files)@[i]).spec_data_is_memory()),
                        allmem ==> sorted_files[kf].spec_data() is None,
                        old(packed_files)@.len() == total,
                        packed_files@.len() + rev@.len() == total,
                        packed_files@.len() > kf,
                        forall|i: int|
                            0 <= i < packed_files@.len() ==> spec_same_entry(
                                #[trigger] packed_files@[i],
                                sorted_files[i],
                            ) && packed_files@[i].wf(),
                        forall|i: int|
                            0 <= i < rev@.len() ==> spec_same_entry(
                                #[trigger] rev@[i],
                                sorted_files[total - 1 - i],
                            ) && rev@[i].wf(),
                    decreases rev@.len(),
                {
                    match rev.pop() {
                        Some(g) => {
                            packed_files.push(g);
                        },
                        None => {
                            proof {
                                assert(false);
                            }
                            return Err(Error::IOError);
                        },
                    }
                }
                proof {
                    assert(spec_entry_views(packed_files@) =~= views);
                    assert forall|p: int, q: int|
                        0 <= p < q < packed_files@.len() implies lex_le(
                        encode_utf8(#[trigger] packed_files@[p].path@),
                        encode_utf8(#[trigger] packed_files@[q].path@),
                    ) by {
                        assert(packed_files@[p].path == sorted_files[p].path);
                        assert(packed_files@[q].path == sorted_files[q].path);
                    }
                    if allmem {
                        assert(packed_files@[kf].spec_data() == sorted_files[kf].spec_data());
                        assert(packed_files@[kf].spec_data() is None);
                    }
                }
                return Err(e);
            },
        }
    }

    // Restore the files, now all memory-backed, in their sorted order.
    let mut datas: Vec<Vec<u8>> = Vec::new();
    while rev.len() > 0
        invariant
            ovm == spec_entry_views(old(packed_files)@).to_multiset(),
            views == spec_entry_views(sorted_files),
            views.to_multiset() == ovm,
            total == sorted_files.len() == old(packed_files)@.len(),
            spec_sorted_by_path(sorted_files),
            allmem == (forall|i: int|
                0 <= i < old(packed_files)@.len() ==> (#[trigger] old(packed_files)@[i]).spec_data_is_memory()),
            packed_files@.len() + rev@.len() == total,
            rev@.len() == datas_rev@.len(),
            datas@.len() == packed_files@.len(),
            forall|i: int|
                0 <= i < rev@.len() ==> spec_same_entry(#[trigger] rev@[i], sorted_files[total - 1 - i])
                    && rev@[i].wf() && rev@[i].spec_data() is Some && rev@[i].spec_data_is_memory(),
            forall|i: int| 0 <= i < rev@.len() ==> (#[trigger] datas_rev@[i])@ == views[total - 1 - i].data,
            forall|i: int|
                0 <= i < packed_files@.len() ==> spec_same_entry(
                    #[trigger] packed_files@[i],
                    sorted_files[i],
                ) && packed_files@[i].wf() && packed_files@[i].spec_data() is Some
                    && packed_files@[i].spec_data_is_memory(),
            forall|i: int| 0 <= i < datas@.len() ==> (#[trigger] datas@[i])@ == views[i].data,
        decreases rev@.len(),
    {
        let g = match rev.pop() {
            Some(g) => g,
            None => {
                proof {
                    assert(false);
                }
                return Err(Error::IOError);
            },
        };
        let d = match datas_rev.pop() {
            Some(d) => d,
            None => {
                proof {
                    assert(false);
                }
                return Err(Error::IOError);
            },
        };
        packed_files.push(g);
        datas.push(d);
    }
    proof {
        assert(packed_files@.len() == total);
        assert(spec_entry_views(packed_files@) =~= views);
        assert forall|p: int, q: int|
            0 <= p < q < packed_files@.len() implies lex_le(
            encode_utf8(#[trigger] packed_files@[p].path@),
            encode_utf8(#[trigger] packed_files@[q].path@),
        ) by {
            assert(packed_files@[p].path == sorted_files[p].path);
            assert(packed_files@[q].path == sorted_files[q].path);
        }
        assert forall|i: int| 0 <= i < total implies (#[trigger] packed_files@[i]).wf()
            && packed_files@[i].spec_data_is_memory() by {
            assert(packed_files@[i].spec_data() is Some);
        }
    }

    let with_ts = bitmask.contains(HAS_INDEX_WITH_TIMESTAMPS);
    let sep = version == PFHVersion::PFH5 && !bitmask.contains(HAS_BIG_HEADER);
    let big = bitmask.contains(HAS_BIG_HEADER);
    proof {
        assert(with_ts == spec_with_ts(bitmask.bits));
        assert(sep == spec_with_sep(version, bitmask.bits));
    }
    let ghost nviews = spec_name_views(pack_files@);

    // The sizes of the two indexes, refused early when they cannot be stored.
    if pack_files.len() as u64 > 0xFFFF_FFFF {
        return Err(Error::InvalidFileError);
    }
    let mut pf_size: u128 = 0;
    let mut i: usize = 0;
    proof {
        assert(nviews.take(0) =~= Seq::<Seq<u8>>::empty());
    }
    while i < pack_files.len()
        invariant
            packed_files@.len() == old(packed_files)@.len(),
            spec_entry_views(packed_files@).to_multiset() == spec_entry_views(
                old(packed_files)@,
            ).to_multiset(),
            spec_sorted_by_path(packed_files@),
            forall|m2: int| 0 <= m2 < packed_files@.len() ==> (#[trigger] packed_files@[m2]).wf(),
            nviews == spec_name_views(pack_files@),
            0 <= i <= pack_files@.len(),
            pf_size == spec_names_size(nviews.take(i as int)),
            pf_size <= u32::MAX,
        decreases pack_files@.len() - i,
    {
        proof {
            assert(nviews.take(i + 1) =~= nviews.take(i as int).push(nviews[i as int]));
            lemma_names_bytes_push(nviews.take(i as int), nviews[i as int]);
        }
        let name_len = pack_files[i].as_str().as_bytes().len();
        proof {
            assert(nviews[i as int] == encode_utf8(pack_files@[i as int]@));
            assert(name_len == nviews[i as int].len());
        }
        pf_size = pf_size + name_len as u128 + 1;
        if pf_size > 0xFFFF_FFFF {
            proof {
                lemma_names_size_prefix(nviews, i + 1);
            }
            return Err(Error::InvalidFileError);
        }
        i = i + 1;
    }
    proof {
        assert(nviews.take(pack_files@.len() as int) =~= nviews);
    }

    if packed_files.len() as u64 > 0xFFFF_FFFF {
        return Err(Error::InvalidFileError);
    }
    let mut pfi_size: u128 = 0;
    let mut j: usize = 0;
    proof {
        assert(views.take(0) =~= Seq::<BuildEntry>::empty());
    }
    while j < packed_files.len()
        invariant
            packed_files@.len() == old(packed_files)@.len(),
            spec_entry_views(packed_files@).to_multiset() == spec_entry_views(
                old(packed_files)@,
            ).to_multiset(),
            spec_sorted_by_path(packed_files@),
            forall|m2: int| 0 <= m2 < packed_files@.len() ==> (#[trigger] packed_files@[m2]).wf(),
            views == spec_entry_views(packed_files@),
            packed_files@.len() == total == datas@.len(),
            forall|m: int| 0 <= m < total ==> (#[trigger] datas@[m])@ == views[m].data,
            0 <= j <= total,
            with_ts == spec_with_ts(bitmask.bits),
            sep == spec_with_sep(version, bitmask.bits),
            pfi_size == spec_index_size(views.take(j as int), with_ts, sep),
            pfi_size <= u32::MAX,
            forall|m: int| 0 <= m < j ==> (#[trigger] views[m]).data.len() <= u32::MAX,
        decreases total - j,
    {
        proof {
            assert(views.take(j + 1) =~= views.take(j as int).push(views[j as int]));
            lemma_entries_push(views.take(j as int), views[j as int], with_ts, sep);
        }
        if datas[j].len() as u64 > 0xFFFF_FFFF {
            return Err(Error::InvalidFileError);
        }
        let path_len = packed_files[j].path.as_str().as_bytes().len();
        proof {
            assert(views[j as int] == spec_build_view(packed_files@[j as int]));
            assert(path_len == views[j as int].path.len());
        }
        let head: u128 = if with_ts {
            8
        } else {
            4
        };
        let sep_len: u128 = if sep {
            1
        } else {
            0
        };
        pfi_size = pfi_size + head + sep_len + path_len as u128 + 1;
        if pfi_size > 0xFFFF_FFFF {
            proof {
                lemma_index_size_prefix(views, j + 1, with_ts, sep);
            }
            return Err(Error::InvalidFileError);
        }
        j = j + 1;
    }
    proof {
        assert(views.take(total as int) =~= views);
    }

    // The static header.
    let mut out: Vec<u8> = Vec::new();
    push_u32_le(&mut out, version.get_preamble());
    push_u32_le(&mut out, bitmask.bits | file_type.get_value());
    push_u32_le(&mut out, pack_files.len() as u32);
    push_u32_le(&mut out, pf_size as u32);
    push_u32_le(&mut out, packed_files.len() as u32);
    push_u32_le(&mut out, pfi_size as u32);
    if version == PFHVersion::PFH4 {
        push_u32_le(&mut out, pfh_timestamp);
    } else if big {
        push_u32_le(&mut out, 0);
        push_u32_le(&mut out, 0);
        push_u32_le(&mut out, 0);
        push_u32_le(&mut out, 0);
        push_u32_le(&mut out, 0);
        push_u32_le(&mut out, 0);
    } else {
        push_u32_le(&mut out, pfh_timestamp);
    }
    let ghost header = spec_header_bytes(
        version,
        bitmask.bits,
        file_type.spec_value(),
        pfh_timestamp,
        pack_files@.len() as u32,
        spec_names_size(nviews) as u32,
        total as u32,
        spec_index_size(views, with_ts, sep) as u32,
    );
    proof {
        vstd::bytes::lemma_auto_spec_u32_to_from_le_bytes();
        assert(out@ =~= header);
    }

    // The pack-file-name index.
    let mut i2: usize = 0;
    while i2 < pack_files.len()
        invariant
            nviews == spec_name_views(pack_files@),
            0 <= i2 <= pack_files@.len(),
            out@ == header + spec_names_bytes(nviews.take(i2 as int)),
        decreases pack_files@.len() - i2,
    {
        proof {
            assert(nviews.take(i2 + 1) =~= nviews.take(i2 as int).push(nviews[i2 as int]));
            lemma_names_bytes_push(nviews.take(i2 as int), nviews[i2 as int]);
            assert(nviews[i2 as int] == encode_utf8(pack_files@[i2 as int]@));
        }
        push_bytes(&mut out, pack_files[i2].as_str().as_bytes());
        out.push(0u8);
        proof {
            let prev = spec_names_bytes(nviews.take(i2 as int));
            assert(out@ =~= header + (prev + nviews[i2 as int] + seq![0u8]));
            assert(out@ == header + spec_names_bytes(nviews.take(i2 + 1)));
        }
        i2 = i2 + 1;
    }
    let ghost names_done = header + spec_names_bytes(nviews);
    proof {
        assert(nviews.take(pack_files@.len() as int) =~= nviews);
    }

    // The packed-file index.
    let mut j2: usize = 0;
    while j2 < packed_files.len()
        invariant
            views == spec_entry_views(packed_files@),
            packed_files@.len() == total == datas@.len(),
            forall|m: int| 0 <= m < total ==> (#[trigger] datas@[m])@ == views[m].data,
            forall|m: int| 0 <= m < total ==> (#[trigger] views[m]).data.len() <= u32::MAX,
            0 <= j2 <= total,
            with_ts == spec_with_ts(bitmask.bits),
            sep == spec_with_sep(version, bitmask.bits),
            names_done == header + spec_names_bytes(nviews),
            out@ == names_done + spec_index_bytes(views.take(j2 as int), with_ts, sep),
        decreases total - j2,
    {
        proof {
            assert(views.take(j2 + 1) =~= views.take(j2 as int).push(views[j2 as int]));
            lemma_entries_push(views.take(j2 as int), views[j2 as int], with_ts, sep);
            assert(views[j2 as int] == spec_build_view(packed_files@[j2 as int]));
        }
        let dlen = datas[j2].len() as u32;
        push_u32_le(&mut out, dlen);
        if with_ts {
            let ts = match packed_files[j2].timestamp {
                Some(t) => t,
                None => 0,
            };
            push_u32_le(&mut out, ts);
        }
        if sep {
            out.push(0u8);
        }
        push_bytes(&mut out, packed_files[j2].path.as_str().as_bytes());
        out.push(0u8);
        proof {
            vstd::bytes::lemma_auto_spec_u32_to_from_le_bytes();
            let prev = spec_index_bytes(views.take(j2 as int), with_ts, sep);
            assert(out@ =~= names_done + (prev + spec_entry_bytes(
                views[j2 as int],
                with_ts,
                sep,
            )));
            assert(out@ == names_done + spec_index_bytes(views.take(j2 + 1), with_ts, sep));
        }
        j2 = j2 + 1;
    }
    let ghost index_done = names_done + spec_index_bytes(views, with_ts, sep);
    proof {
        assert(views.take(total as int) =~= views);
    }

    // The content region: every file's bytes, plaintext, back to back.
    let mut j3: usize = 0;
    while j3 < datas.len()
        invariant
            views == spec_entry_views(packed_files@),
            packed_files@.len() == total == datas@.len(),
            forall|m: int| 0 <= m < total ==> (#[trigger] datas@[m])@ == views[m].data,
            0 <= j3 <= total,
            index_done == names_done + spec_index_bytes(views, with_ts, sep),
            out@ == index_done + spec_content_bytes(views.take(j3 as int)),
            with_ts == spec_with_ts(bitmask.bits),
            sep == spec_with_sep(version, bitmask.bits),
        decreases total - j3,
    {
        proof {
            assert(views.take(j3 + 1) =~= views.take(j3 as int).push(views[j3 as int]));
            lemma_entries_push(views.take(j3 as int), views[j3 as int], with_ts, sep);
        }
        push_bytes(&mut out, datas[j3].as_slice());
        proof {
            let prev = spec_content_bytes(views.take(j3 as int));
            assert(out@ =~= index_done + (prev + views[j3 as int].data));
            assert(out@ == index_done + spec_content_bytes(views.take(j3 + 1)));
        }
        j3 = j3 + 1;
    }
    proof {
        assert(views.take(total as int) =~= views);
        assert(out@ =~= (header + spec_names_bytes(nviews)) + spec_index_bytes(
            views,
            with_ts,
            sep,
        ) + spec_content_bytes(views));
        assert(out@ == spec_build_bytes(
            nviews,
            views,
            version,
            bitmask.bits,
            file_type.spec_value(),
            pfh_timestamp,
        ));
    }
    Ok(out)
}

} // verus!
