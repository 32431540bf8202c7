//! The DAT layout: a little-endian entry count, a table holding the absolute
//! offset of each entry record, and then the records themselves, each a
//! content length, a path length, the path's UTF-8 bytes, and the content.
//!
//! [`dat_image`] states the exact bytes written for a package, and
//! [`dat_parse`] the exact result of reading any byte sequence; the writer
//! and reader are proved against them, and [`lemma_dat_round_trip`] proves
//! that reading a written image restores the package.

use vstd::prelude::*;
use vstd::slice::{slice_subrange, slice_to_vec};
use vstd::string::StrSliceExecFns;
use vstd::utf8::{encode_utf8, decode_utf8, valid_utf8};
use crate::bytes::{
    push_bytes, push_u32_le, read_u32_le, spec_le_u32, spec_u32_le, lemma_u32_le_roundtrip,
};
use crate::entry::{EntryView, PackageEntry};
use crate::error::{EntryWriteError, PackageReadError, PackageWriteError, ReadErrView};
use crate::mmap::SharedMmap;
use crate::package::{lemma_wf_paths_distinct, Package, paths_distinct, seq_has_path};

verus! {

/// The bytes of one entry record: content length, path length, path bytes,
/// content bytes.
pub open spec fn dat_record(e: EntryView) -> Seq<u8> {
    spec_u32_le(e.content->Some_0.len() as u32) + spec_u32_le(encode_utf8(e.path).len() as u32)
        + encode_utf8(e.path) + e.content->Some_0
}

/// The records of the first `k` entries, concatenated.
pub open spec fn dat_records_prefix(s: Seq<EntryView>, k: int) -> Seq<u8>
    decreases k,
{
    if k <= 0 {
        Seq::empty()
    } else {
        dat_records_prefix(s, k - 1) + dat_record(s[k - 1])
    }
}

/// The absolute offset at which entry `k`'s record stands: past the count,
/// the offset table, and the records before it.
pub open spec fn dat_offset_of(s: Seq<EntryView>, k: int) -> int {
    4 + 4 * s.len() as int + dat_records_prefix(s, k).len() as int
}

/// The offset table for the first `k` entries, concatenated.
pub open spec fn dat_offsets_prefix(s: Seq<EntryView>, k: int) -> Seq<u8>
    decreases k,
{
    if k <= 0 {
        Seq::empty()
    } else {
        dat_offsets_prefix(s, k - 1) + spec_u32_le(dat_offset_of(s, k - 1) as u32)
    }
}

/// The whole DAT image of the given entries.
pub open spec fn dat_image(s: Seq<EntryView>) -> Seq<u8> {
    spec_u32_le(s.len() as u32) + dat_offsets_prefix(s, s.len() as int) + dat_records_prefix(
        s,
        s.len() as int,
    )
}

/// The first capacity limit the writer hits on these entries, if any: the
/// entry count, then for each entry in order its content length, its encoded
/// path length, and its record's offset, each of which must fit the layout's
/// 32-bit fields.
pub open spec fn dat_capacity_error(s: Seq<EntryView>) -> Option<PackageWriteError> {
    if s.len() > u32::MAX {
        Some(PackageWriteError::EntryCountExceeded)
    } else {
        dat_entry_capacity_error(s, 0)
    }
}

/// The first capacity limit hit at or after entry `k`.
pub open spec fn dat_entry_capacity_error(s: Seq<EntryView>, k: int) -> Option<PackageWriteError>
    decreases s.len() - k,
{
    if k < 0 || k >= s.len() {
        None
    } else if s[k].content->Some_0.len() > u32::MAX {
        Some(PackageWriteError::EntryWrite(EntryWriteError::ContentSizeExceeded(
            s[k].content->Some_0.len() as usize,
        )))
    } else if encode_utf8(s[k].path).len() > u32::MAX {
        Some(PackageWriteError::EntryWrite(EntryWriteError::InnerPathSizeExceeded(
            encode_utf8(s[k].path).len() as usize,
        )))
    } else if dat_offset_of(s, k) > u32::MAX {
        Some(PackageWriteError::EntryWrite(EntryWriteError::OffsetExceeded))
    } else {
        dat_entry_capacity_error(s, k + 1)
    }
}

/// The result of parsing one entry record at absolute offset `off`: the
/// checks run in the order the record is read, so a record cut short before
/// its content is still rejected for an invalid path first.
pub open spec fn dat_parse_record(bytes: Seq<u8>, off: int) -> Result<EntryView, ReadErrView> {
    if !(0 <= off && off + 8 <= bytes.len()) {
        Err(ReadErrView::UnexpectedEnd)
    } else {
        let clen = spec_le_u32(bytes[off], bytes[off + 1], bytes[off + 2], bytes[off + 3]) as int;
        let plen = spec_le_u32(
            bytes[off + 4],
            bytes[off + 5],
            bytes[off + 6],
            bytes[off + 7],
        ) as int;
        if off + 8 + plen > bytes.len() {
            Err(ReadErrView::UnexpectedEnd)
        } else {
            let pbytes = bytes.subrange(off + 8, off + 8 + plen);
            if !valid_utf8(pbytes) {
                Err(ReadErrView::InvalidUtf8)
            } else if off + 8 + plen + clen > bytes.len() {
                Err(ReadErrView::UnexpectedEnd)
            } else {
                Ok(
                    EntryView {
                        path: decode_utf8(pbytes),
                        content: Some(bytes.subrange(off + 8 + plen, off + 8 + plen + clen)),
                    },
                )
            }
        }
    }
}

/// The result of parsing the records of entries `k` to `n` of the offset
/// table, having already parsed `acc`.
pub open spec fn dat_parse_entries(
    bytes: Seq<u8>,
    n: int,
    k: int,
    acc: Seq<EntryView>,
) -> Result<Seq<EntryView>, ReadErrView>
    decreases n - k,
{
    if k >= n {
        Ok(acc)
    } else {
        let off = spec_le_u32(
            bytes[4 + 4 * k],
            bytes[4 + 4 * k + 1],
            bytes[4 + 4 * k + 2],
            bytes[4 + 4 * k + 3],
        ) as int;
        match dat_parse_record(bytes, off) {
            Err(e) => Err(e),
            Ok(ev) => if seq_has_path(acc, ev.path) {
                Err(ReadErrView::DuplicatePath(ev.path))
            } else {
                dat_parse_entries(bytes, n, k + 1, acc.push(ev))
            },
        }
    }
}

/// The exact result of reading any byte sequence as a DAT archive.
pub open spec fn dat_parse(bytes: Seq<u8>) -> Result<Seq<EntryView>, ReadErrView> {
    if bytes.len() < 4 {
        Err(ReadErrView::UnexpectedEnd)
    } else {
        let n = spec_le_u32(bytes[0], bytes[1], bytes[2], bytes[3]) as int;
        if 4 + 4 * n > bytes.len() {
            Err(ReadErrView::UnexpectedEnd)
        } else {
            dat_parse_entries(bytes, n, 0, Seq::empty())
        }
    }
}

/// Parses a DAT archive held in `bytes`. Entries own copies of their
/// content, so the package outlives the input buffer.
pub fn read_from_bytes(bytes: &[u8]) -> (r: Result<Package, PackageReadError>)
    ensures
        match r {
            Ok(p) => {
                &&& p.wf()
                &&& p.all_content_resolved()
                &&& dat_parse(bytes@) == Ok::<Seq<EntryView>, ReadErrView>(p@)
            },
            Err(e) => dat_parse(bytes@) == Err::<Seq<EntryView>, ReadErrView>(e@),
        },
{
    read_entries_from(bytes, None)
}

/// Parses a DAT archive through a shared mapping of its file. Entries
/// reference ranges of the mapping rather than copying them, and each holds
/// a reference that keeps the mapping alive.
pub fn read_from_map(map: &SharedMmap) -> (r: Result<Package, PackageReadError>)
    ensures
        match r {
            Ok(p) => {
                &&& p.wf()
                &&& p.all_content_resolved()
                &&& dat_parse(map.bytes()) == Ok::<Seq<EntryView>, ReadErrView>(p@)
            },
            Err(e) => dat_parse(map.bytes()) == Err::<Seq<EntryView>, ReadErrView>(e@),
        },
{
    read_entries_from(map.as_bytes(), Some(map))
}

/// The shared body of the two readers: parses `bytes`, sourcing entry
/// content from `map` where one is given and from owned copies otherwise.
fn read_entries_from(bytes: &[u8], map: Option<&SharedMmap>) -> (r: Result<
    Package,
    PackageReadError,
>)
    requires
        match map {
            Some(m) => m.bytes() == bytes@,
            None => true,
        },
    ensures
        match r {
            Ok(p) => {
                &&& p.wf()
                &&& p.all_content_resolved()
                &&& dat_parse(bytes@) == Ok::<Seq<EntryView>, ReadErrView>(p@)
            },
            Err(e) => dat_parse(bytes@) == Err::<Seq<EntryView>, ReadErrView>(e@),
        },
{
    let len = bytes.len();
    if len < 4 {
        return Err(PackageReadError::UnexpectedEnd);
    }
    let n32 = read_u32_le(bytes, 0);
    let n = n32 as usize;
    if 4u64 + 4u64 * (n as u64) > len as u64 {
        return Err(PackageReadError::UnexpectedEnd);
    }
    let mut package = Package::with_capacity(n);
    let mut k: usize = 0;
    while k < n
        invariant
            len == bytes@.len(),
            4 + 4 * (n as int) <= len,
            k <= n,
            package.wf(),
            package.all_content_resolved(),
            match map {
                Some(m) => m.bytes() == bytes@,
                None => true,
            },
            dat_parse(bytes@) == dat_parse_entries(bytes@, n as int, k as int, package@),
        decreases n - k,
    {
        let off32 = read_u32_le(bytes, 4 + 4 * k);
        match read_record(bytes, map, off32, Ghost(package@)) {
            Err(e) => {
                return Err(e);
            }
            Ok(entry) => {
                match package.add_entry(entry) {
                    Err(e) => {
                        return Err(PackageReadError::InnerPathAlreadyExists(e));
                    }
                    Ok(()) => {}
                }
            }
        }
        k += 1;
    }
    Ok(package)
}

/// Reads the record at `off32`, returning an entry sourced from `map` where
/// one is given. The ghost argument carries the entries parsed so far, so
/// that a duplicate path can be rejected exactly as the parsing
/// specification does.
fn read_record(bytes: &[u8], map: Option<&SharedMmap>, off32: u32, acc: Ghost<Seq<EntryView>>) -> (r:
    Result<PackageEntry, PackageReadError>)
    requires
        match map {
            Some(m) => m.bytes() == bytes@,
            None => true,
        },
    ensures
        match r {
            Ok(entry) => {
                &&& dat_parse_record(bytes@, off32 as int) == Ok::<EntryView, ReadErrView>(entry@)
                &&& entry.wf()
                &&& entry@.content is Some
            },
            Err(e) => dat_parse_record(bytes@, off32 as int) == Err::<EntryView, ReadErrView>(e@),
        },
{
    let len = bytes.len();
    let off = off32 as usize;
    if off as u64 + 8u64 > len as u64 {
        return Err(PackageReadError::UnexpectedEnd);
    }
    let clen = read_u32_le(bytes, off) as usize;
    let plen = read_u32_le(bytes, off + 4) as usize;
    if off as u64 + 8u64 + plen as u64 > len as u64 {
        return Err(PackageReadError::UnexpectedEnd);
    }
    let pslice = slice_subrange(bytes, off + 8, off + 8 + plen);
    let path = match crate::text::string_from_utf8(slice_to_vec(pslice)) {
        Some(s) => s,
        None => {
            return Err(PackageReadError::InvalidUtf8);
        }
    };
    proof {
        vstd::utf8::encode_utf8_valid_utf8(path@);
        vstd::utf8::encode_utf8_decode_utf8(path@);
    }
    if off as u64 + 8u64 + plen as u64 + clen as u64 > len as u64 {
        return Err(PackageReadError::UnexpectedEnd);
    }
    let data_off = off + 8 + plen;
    let entry = match map {
        Some(m) => PackageEntry::from_memory_mapped_file(path.as_str(), m, data_off, clen),
        None => PackageEntry::from_byte_array(
            path.as_str(),
            slice_to_vec(slice_subrange(bytes, data_off, data_off + clen)),
        ),
    };
    Ok(entry)
}

/// Serializes a package into the DAT layout.
pub struct DatWriter;

impl DatWriter {
    /// The DAT image of `package`, or the first capacity error.
    pub fn write_package_to_bytes(&self, package: &Package) -> (r: Result<
        Vec<u8>,
        PackageWriteError,
    >)
        requires
            package.wf(),
            package.all_content_resolved(),
        ensures
            match r {
                Ok(v) => dat_capacity_error(package@) is None && v@ == dat_image(package@),
                Err(e) => dat_capacity_error(package@) == Some(e),
            },
    {
        let ghost s = package@;
        let n = package.len();
        if n as u64 > u32::MAX as u64 {
            return Err(PackageWriteError::EntryCountExceeded);
        }
        let entries = package.entries();
        let mut records: Vec<u8> = Vec::new();
        let mut offsets: Vec<u32> = Vec::new();
        let mut k: usize = 0;
        proof {
            assert(records@ =~= dat_records_prefix(s, 0));
        }
        while k < n
            invariant
                package.wf(),
                package.all_content_resolved(),
                s == package@,
                n == s.len(),
                n <= u32::MAX,
                entries@.len() == n,
                forall|i: int| 0 <= i < n ==> (#[trigger] entries@[i])@ == s[i],
                forall|i: int| 0 <= i < n ==> (#[trigger] entries@[i]).wf(),
                k <= n,
                records@ == dat_records_prefix(s, k as int),
                offsets@.len() == k,
                forall|i: int| 0 <= i < k ==> offsets@[i] == dat_offset_of(s, i) as u32,
                dat_entry_capacity_error(s, 0) == dat_entry_capacity_error(s, k as int),
                records@.len() <= 3 * (u32::MAX as int) + 8,
                4 + 4 * n + records@.len() == dat_offset_of(s, k as int),
            decreases n - k,
        {
            let ghost before = dat_entry_capacity_error(s, k as int);
            let content = match entries[k].content_bytes() {
                Some(c) => c,
                None => {
                    proof {
                        assert(s[k as int].content is Some);
                        assert(false);
                    }
                    unreached()
                }
            };
            if content.len() as u64 > u32::MAX as u64 {
                return Err(PackageWriteError::EntryWrite(EntryWriteError::ContentSizeExceeded(
                    content.len(),
                )));
            }
            let path_bytes = entries[k].inner_path().as_bytes();
            if path_bytes.len() as u64 > u32::MAX as u64 {
                return Err(PackageWriteError::EntryWrite(EntryWriteError::InnerPathSizeExceeded(
                    path_bytes.len(),
                )));
            }
            let offset_big: u64 = 4u64 + 4u64 * (n as u64) + (records.len() as u64);
            if offset_big > u32::MAX as u64 {
                return Err(PackageWriteError::EntryWrite(EntryWriteError::OffsetExceeded));
            }
            offsets.push(offset_big as u32);
            push_u32_le(&mut records, content.len() as u32);
            push_u32_le(&mut records, path_bytes.len() as u32);
            push_bytes(&mut records, path_bytes);
            push_bytes(&mut records, content.as_slice());
            proof {
                assert(records@ =~= dat_records_prefix(s, k as int) + dat_record(s[k as int]));
                assert(records@ =~= dat_records_prefix(s, k + 1));
            }
            k += 1;
        }
        let mut out: Vec<u8> = Vec::new();
        push_u32_le(&mut out, n as u32);
        let mut k2: usize = 0;
        proof {
            assert(out@ =~= spec_u32_le(n as u32) + dat_offsets_prefix(s, 0));
        }
        while k2 < n
            invariant
                n == s.len(),
                n <= u32::MAX,
                k2 <= n,
                offsets@.len() == n,
                forall|i: int| 0 <= i < n ==> offsets@[i] == dat_offset_of(s, i) as u32,
                out@ == spec_u32_le(n as u32) + dat_offsets_prefix(s, k2 as int),
            decreases n - k2,
        {
            push_u32_le(&mut out, offsets[k2]);
            proof {
                assert(out@ =~= spec_u32_le(n as u32) + dat_offsets_prefix(s, k2 + 1));
            }
            k2 += 1;
        }
        out.append(&mut records);
        proof {
            assert(out@ =~= dat_image(s));
        }
        Ok(out)
    }
}

/// The offset table of the first `k` entries occupies `4 * k` bytes.
proof fn lemma_dat_offsets_prefix_len(s: Seq<EntryView>, k: int)
    requires
        0 <= k,
    ensures
        dat_offsets_prefix(s, k).len() == 4 * k,
    decreases k,
{
    if k > 0 {
        lemma_dat_offsets_prefix_len(s, k - 1);
    }
}

/// Earlier record prefixes are never longer than later ones.
proof fn lemma_dat_records_prefix_mono(s: Seq<EntryView>, j: int, m: int)
    requires
        0 <= j <= m,
    ensures
        dat_records_prefix(s, j).len() <= dat_records_prefix(s, m).len(),
    decreases m - j,
{
    if j < m {
        lemma_dat_records_prefix_mono(s, j, m - 1);
    }
}

/// Record `j` stands unchanged inside any longer record prefix.
proof fn lemma_dat_record_extract(s: Seq<EntryView>, j: int, m: int)
    requires
        0 <= j < m,
    ensures
        dat_records_prefix(s, j).len() + dat_record(s[j]).len() <= dat_records_prefix(
            s,
            m,
        ).len(),
        dat_records_prefix(s, m).subrange(
            dat_records_prefix(s, j).len() as int,
            dat_records_prefix(s, j).len() + dat_record(s[j]).len() as int,
        ) == dat_record(s[j]),
    decreases m,
{
    let start = dat_records_prefix(s, j).len() as int;
    let size = dat_record(s[j]).len() as int;
    if j + 1 == m {
        assert(dat_records_prefix(s, m).subrange(start, start + size) =~= dat_record(s[j]));
    } else {
        lemma_dat_record_extract(s, j, m - 1);
        assert(dat_records_prefix(s, m).subrange(start, start + size) =~= dat_records_prefix(
            s,
            m - 1,
        ).subrange(start, start + size));
    }
}

/// The table slot of entry `j` holds its offset, inside any longer table
/// prefix.
proof fn lemma_dat_offset_extract(s: Seq<EntryView>, j: int, m: int)
    requires
        0 <= j < m,
    ensures
        4 * m <= dat_offsets_prefix(s, m).len(),
        dat_offsets_prefix(s, m).subrange(4 * j, 4 * j + 4) == spec_u32_le(
            dat_offset_of(s, j) as u32,
        ),
    decreases m,
{
    lemma_dat_offsets_prefix_len(s, m);
    if j + 1 == m {
        lemma_dat_offsets_prefix_len(s, j);
        assert(dat_offsets_prefix(s, m).subrange(4 * j, 4 * j + 4) =~= spec_u32_le(
            dat_offset_of(s, j) as u32,
        ));
    } else {
        lemma_dat_offset_extract(s, j, m - 1);
        assert(dat_offsets_prefix(s, m).subrange(4 * j, 4 * j + 4) =~= dat_offsets_prefix(
            s,
            m - 1,
        ).subrange(4 * j, 4 * j + 4));
    }
}

/// When no capacity limit is hit from entry `j` on, entry `k`'s lengths and
/// offset all fit their 32-bit fields.
proof fn lemma_dat_capacity_bounds(s: Seq<EntryView>, j: int, k: int)
    requires
        0 <= j <= k < s.len(),
        dat_entry_capacity_error(s, j) is None,
    ensures
        s[k].content->Some_0.len() <= u32::MAX,
        encode_utf8(s[k].path).len() <= u32::MAX,
        dat_offset_of(s, k) <= u32::MAX,
    decreases k - j,
{
    if j < k {
        lemma_dat_capacity_bounds(s, j + 1, k);
    }
}

/// Four bytes that are the little-endian encoding of `v` read back as `v`.
proof fn lemma_read_u32_at(bytes: Seq<u8>, x: int, v: u32)
    requires
        0 <= x,
        x + 4 <= bytes.len(),
        bytes.subrange(x, x + 4) == spec_u32_le(v),
    ensures
        spec_le_u32(bytes[x], bytes[x + 1], bytes[x + 2], bytes[x + 3]) == v,
{
    assert(bytes[x] == spec_u32_le(v)[0]);
    assert(bytes[x + 1] == spec_u32_le(v)[1]);
    assert(bytes[x + 2] == spec_u32_le(v)[2]);
    assert(bytes[x + 3] == spec_u32_le(v)[3]);
    lemma_u32_le_roundtrip(v);
}

/// Entry `k` of a written image parses back from its recorded offset, and
/// the offset table holds that offset.
#[verifier::rlimit(100)]
proof fn lemma_dat_entry_parses(s: Seq<EntryView>, k: int)
    requires
        0 <= k < s.len(),
        s.len() <= u32::MAX,
        (#[trigger] s[k]).content is Some,
        dat_entry_capacity_error(s, 0) is None,
    ensures
        spec_le_u32(
            dat_image(s)[4 + 4 * k],
            dat_image(s)[4 + 4 * k + 1],
            dat_image(s)[4 + 4 * k + 2],
            dat_image(s)[4 + 4 * k + 3],
        ) == dat_offset_of(s, k),
        dat_parse_record(dat_image(s), dat_offset_of(s, k)) == Ok::<EntryView, ReadErrView>(
            s[k],
        ),
{
    let img = dat_image(s);
    let n = s.len() as int;
    lemma_dat_offsets_prefix_len(s, n);
    lemma_dat_capacity_bounds(s, 0, k);
    let off = dat_offset_of(s, k);
    let e = s[k];
    let content = e.content->Some_0;
    let pbytes = encode_utf8(e.path);
    let clen = content.len() as int;
    let plen = pbytes.len() as int;
    let record = dat_record(e);
    let size = record.len() as int;
    assert(size == 8 + plen + clen);

    // The table slot at 4 + 4k holds the record's offset.
    lemma_dat_offset_extract(s, k, n);
    assert(img.subrange(4 + 4 * k, 4 + 4 * k + 4) =~= dat_offsets_prefix(s, n).subrange(
        4 * k,
        4 * k + 4,
    ));
    lemma_read_u32_at(img, 4 + 4 * k, off as u32);

    // The record itself stands at that offset.
    lemma_dat_record_extract(s, k, n);
    assert(off + size <= img.len());
    assert(img.subrange(off, off + size) =~= dat_records_prefix(s, n).subrange(
        dat_records_prefix(s, k).len() as int,
        dat_records_prefix(s, k).len() + dat_record(s[k]).len() as int,
    ));
    assert(img.subrange(off, off + size) == record);

    // Its fields read back as written.
    assert(img.subrange(off, off + 4) =~= record.subrange(0, 4));
    assert(record.subrange(0, 4) =~= spec_u32_le(clen as u32));
    lemma_read_u32_at(img, off, clen as u32);
    assert(img.subrange(off + 4, off + 8) =~= record.subrange(4, 8));
    assert(record.subrange(4, 8) =~= spec_u32_le(plen as u32));
    lemma_read_u32_at(img, off + 4, plen as u32);
    assert(img.subrange(off + 8, off + 8 + plen) =~= record.subrange(8, 8 + plen));
    assert(record.subrange(8, 8 + plen) =~= pbytes);
    assert(img.subrange(off + 8 + plen, off + 8 + plen + clen) =~= record.subrange(
        8 + plen,
        8 + plen + clen,
    ));
    assert(record.subrange(8 + plen, 8 + plen + clen) =~= content);

    vstd::utf8::encode_utf8_valid_utf8(e.path);
    vstd::utf8::encode_utf8_decode_utf8(e.path);
    assert(dat_parse_record(img, off) == Ok::<EntryView, ReadErrView>(
        EntryView { path: e.path, content: Some(content) },
    ));
    assert(EntryView { path: e.path, content: Some(content) } == e);
}

/// Parsing a written image from entry `k` on, with the first `k` entries
/// already recovered, recovers them all.
#[verifier::rlimit(100)]
proof fn lemma_dat_parse_entries_round(s: Seq<EntryView>, k: int)
    requires
        0 <= k <= s.len(),
        paths_distinct(s),
        forall|i: int| 0 <= i < s.len() ==> (#[trigger] s[i]).content is Some,
        s.len() <= u32::MAX,
        dat_entry_capacity_error(s, 0) is None,
    ensures
        dat_parse_entries(dat_image(s), s.len() as int, k, s.take(k)) == Ok::<
            Seq<EntryView>,
            ReadErrView,
        >(s),
    decreases s.len() - k,
{
    let img = dat_image(s);
    let n = s.len() as int;
    if k == n {
        assert(s.take(n) =~= s);
    } else {
        let e = s[k];
        lemma_dat_capacity_bounds(s, 0, k);
        lemma_dat_entry_parses(s, k);
        assert(!seq_has_path(s.take(k), e.path)) by {
            if seq_has_path(s.take(k), e.path) {
                let j = choose|j: int| 0 <= j < s.take(k).len() && s.take(k)[j].path == e.path;
                assert(s[j].path != s[k].path);
            }
        }
        assert(s.take(k).push(e) =~= s.take(k + 1));
        lemma_dat_parse_entries_round(s, k + 1);
    }
}

/// Round trip: reading back a written DAT image restores exactly the
/// entries that were written, in their order, with their content.
pub proof fn lemma_dat_round_trip(s: Seq<EntryView>)
    requires
        paths_distinct(s),
        forall|i: int| 0 <= i < s.len() ==> (#[trigger] s[i]).content is Some,
        dat_capacity_error(s) is None,
    ensures
        dat_parse(dat_image(s)) == Ok::<Seq<EntryView>, ReadErrView>(s),
{
    let img = dat_image(s);
    let n = s.len() as int;
    lemma_dat_offsets_prefix_len(s, n);
    assert(img.len() == 4 + 4 * n + dat_records_prefix(s, n).len());
    assert(img.subrange(0, 4) =~= spec_u32_le(n as u32));
    lemma_read_u32_at(img, 0, n as u32);
    assert(spec_le_u32(img[0], img[1], img[2], img[3]) as int == n);
    assert(s.take(0) =~= Seq::<EntryView>::empty());
    lemma_dat_parse_entries_round(s, 0);
}

/// Round trip at the package level: any well-formed package whose content
/// is in memory and which the layout's 32-bit fields can carry is restored
/// exactly, entry for entry and in order, by parsing the bytes the writer
/// produces for it.
pub proof fn lemma_dat_package_round_trip(p: &Package)
    requires
        p.wf(),
        p.all_content_resolved(),
        dat_capacity_error(p@) is None,
    ensures
        dat_parse(dat_image(p@)) == Ok::<Seq<EntryView>, ReadErrView>(p@),
{
    lemma_wf_paths_distinct(p);
    lemma_dat_round_trip(p@);
}

} // verus!
