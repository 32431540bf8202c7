//! The PKG layout, big-endian throughout: a `PKG\n` signature, two header
//! size constants, an entry count and the size of the path region; then one
//! fixed 20-byte header per entry holding a path hash, a flags byte, the
//! path's offset inside the path region, and the content's absolute offset
//! and size; then the null-terminated paths, padding to the next 4-byte
//! boundary, and the content bytes.
//!
//! [`pkg_image`] states the exact bytes written for a package and
//! [`pkg_parse`] the exact result of reading any byte sequence;
//! [`lemma_pkg_round_trip`] proves that reading a written image restores the
//! package. Each stored path is guarded by [`calculate_path_hash`], a
//! rotate-and-xor checksum of the lower-cased path, which the reader
//! recomputes and compares.

use vstd::prelude::*;
use vstd::slice::{slice_subrange, slice_to_vec};
use vstd::string::StrSliceExecFns;
use vstd::utf8::encode_utf8;
use crate::bytes::{
    push_bytes, push_u16_be, push_u24_be, push_u32_be, push_zeros, read_u16_be, read_u24_be,
    read_u32_be, spec_be_u16, spec_be_u24, spec_be_u32, spec_u16_be, spec_u24_be, spec_u32_be,
    lemma_u16_be_roundtrip, lemma_u24_be_roundtrip, lemma_u32_be_roundtrip,
};
use crate::entry::{EntryView, PackageEntry};
use crate::error::{
    EntryReadError, EntryWriteError, PackageReadError, PackageWriteError, ReadErrView,
};
use crate::mmap::SharedMmap;
use crate::package::{lemma_wf_paths_distinct, Package, paths_distinct, seq_has_path};
use crate::text::{latin1_chars, latin1_to_string, lower_of, lowercase};

verus! {

/// `hash` rotated right by five bits.
pub open spec fn spec_rot5(hash: u32) -> u32 {
    (hash >> 5) | (hash << 27)
}

/// The fold that hashes a character sequence: starting from zero, each
/// character in turn rotates the hash right by five bits and is xor-ed in as
/// its code point.
pub open spec fn spec_hash_chars(chars: Seq<char>) -> u32
    decreases chars.len(),
{
    if chars.len() == 0 {
        0
    } else {
        spec_rot5(spec_hash_chars(chars.drop_last())) ^ (chars.last() as u32)
    }
}

/// The PKG path hash: the fold above over the lower-cased path.
pub open spec fn spec_calculate_path_hash(path: Seq<char>) -> u32 {
    spec_hash_chars(lower_of(path))
}

/// The 32-bit integrity hash of an inner path: the path is lower-cased and
/// each character in turn rotates the hash right by five bits and is xor-ed
/// in.
pub fn calculate_path_hash(inner_path: &str) -> (r: u32)
    ensures
        r == spec_calculate_path_hash(inner_path@),
{
    let lower = lowercase(inner_path);
    let n = lower.as_str().unicode_len();
    let mut hash: u32 = 0;
    let mut i: usize = 0;
    proof {
        assert(lower@.subrange(0, 0) =~= Seq::<char>::empty());
    }
    while i < n
        invariant
            n == lower@.len(),
            i <= n,
            hash == spec_hash_chars(lower@.subrange(0, i as int)),
        decreases n - i,
    {
        let c = lower.as_str().get_char(i);
        hash = ((hash >> 5) | (hash << 27)) ^ (c as u32);
        proof {
            assert(lower@.subrange(0, i + 1).drop_last() =~= lower@.subrange(0, i as int));
            assert(lower@.subrange(0, i + 1).last() == lower@[i as int]);
        }
        i += 1;
    }
    proof {
        assert(lower@.subrange(0, n as int) =~= lower@);
    }
    hash
}

/// The position of the first zero byte at or after `off`, if there is one.
pub open spec fn nul_pos(region: Seq<u8>, off: int) -> Option<int>
    decreases region.len() - off,
{
    if off < 0 || off >= region.len() {
        None
    } else if region[off] == 0 {
        Some(off)
    } else {
        nul_pos(region, off + 1)
    }
}

/// Reads the string that starts at `off` in the path region and runs to the
/// next zero byte, one character per byte. Fails when no zero byte follows.
pub fn read_null_terminated_string(region: &[u8], off: usize) -> (r: Result<
    String,
    PackageReadError,
>)
    ensures
        match r {
            Ok(s) => {
                &&& nul_pos(region@, off as int) matches Some(p) && s@ == latin1_chars(
                    region@.subrange(off as int, p),
                )
            },
            Err(e) => nul_pos(region@, off as int) is None && e == PackageReadError::UnexpectedEnd,
        },
{
    let len = region.len();
    let mut j = off;
    while j < len
        invariant
            len == region@.len(),
            off <= j,
            nul_pos(region@, off as int) == nul_pos(region@, j as int),
        decreases len - j,
    {
        if region[j] == 0 {
            let s = latin1_to_string(slice_subrange(region, off, j));
            return Ok(s);
        }
        j += 1;
    }
    Err(PackageReadError::UnexpectedEnd)
}

/// The path region of the first `k` entries: each path's UTF-8 bytes
/// followed by a zero terminator, concatenated.
pub open spec fn pkg_paths_prefix(s: Seq<EntryView>, k: int) -> Seq<u8>
    decreases k,
{
    if k <= 0 {
        Seq::empty()
    } else {
        pkg_paths_prefix(s, k - 1) + encode_utf8(s[k - 1].path) + seq![0u8]
    }
}

/// Where entry `k`'s path starts, relative to the path region.
pub open spec fn pkg_path_offset(s: Seq<EntryView>, k: int) -> int {
    pkg_paths_prefix(s, k).len() as int
}

/// The size of the whole path region.
pub open spec fn pkg_path_region_size(s: Seq<EntryView>) -> int {
    pkg_paths_prefix(s, s.len() as int).len() as int
}

/// The padding emitted after the path region: one to four zero bytes, up to
/// the next multiple of four.
pub open spec fn pkg_pad(s: Seq<EntryView>) -> int {
    4 - (pkg_path_region_size(s) % 4)
}

/// The absolute offset at which the data region starts.
pub open spec fn pkg_data_start(s: Seq<EntryView>) -> int {
    16 + 20 * s.len() as int + pkg_path_region_size(s) + pkg_pad(s)
}

/// The content bytes of the first `k` entries, concatenated.
pub open spec fn pkg_data_prefix(s: Seq<EntryView>, k: int) -> Seq<u8>
    decreases k,
{
    if k <= 0 {
        Seq::empty()
    } else {
        pkg_data_prefix(s, k - 1) + s[k - 1].content->Some_0
    }
}

/// The absolute offset of entry `k`'s content.
pub open spec fn pkg_data_offset(s: Seq<EntryView>, k: int) -> int {
    pkg_data_start(s) + pkg_data_prefix(s, k).len() as int
}

/// The 20-byte header of entry `k`: path hash, a zero flags byte, the
/// path's offset in the path region, and the content's absolute offset and
/// size, the size stated twice since nothing is compressed.
pub open spec fn pkg_header_of(s: Seq<EntryView>, k: int) -> Seq<u8> {
    spec_u32_be(spec_calculate_path_hash(s[k].path)) + seq![0u8] + spec_u24_be(
        pkg_path_offset(s, k) as u32,
    ) + spec_u32_be(pkg_data_offset(s, k) as u32) + spec_u32_be(
        s[k].content->Some_0.len() as u32,
    ) + spec_u32_be(s[k].content->Some_0.len() as u32)
}

/// The headers of the first `k` entries, concatenated.
pub open spec fn pkg_headers_prefix(s: Seq<EntryView>, k: int) -> Seq<u8>
    decreases k,
{
    if k <= 0 {
        Seq::empty()
    } else {
        pkg_headers_prefix(s, k - 1) + pkg_header_of(s, k - 1)
    }
}

/// The whole PKG image of the given entries.
pub open spec fn pkg_image(s: Seq<EntryView>) -> Seq<u8> {
    seq![80u8, 75u8, 71u8, 10u8] + spec_u16_be(16) + spec_u16_be(20) + spec_u32_be(
        s.len() as u32,
    ) + spec_u32_be(pkg_path_region_size(s) as u32) + pkg_headers_prefix(s, s.len() as int)
        + pkg_paths_prefix(s, s.len() as int) + Seq::new(pkg_pad(s) as nat, |i: int| 0u8)
        + pkg_data_prefix(s, s.len() as int)
}

/// The first capacity limit hit at or after entry `k` while the path region
/// is assembled: each content length must fit its 32-bit field, and each
/// path offset the 24-bit offset field.
pub open spec fn pkg_entry_capacity_error(s: Seq<EntryView>, k: int) -> Option<PackageWriteError>
    decreases s.len() - k,
{
    if k < 0 || k >= s.len() {
        None
    } else if s[k].content->Some_0.len() > u32::MAX {
        Some(PackageWriteError::EntryWrite(EntryWriteError::ContentSizeExceeded(
            s[k].content->Some_0.len() as usize,
        )))
    } else if pkg_path_offset(s, k) > 0xFFFFFF {
        Some(PackageWriteError::EntryWrite(EntryWriteError::OffsetExceeded))
    } else {
        pkg_entry_capacity_error(s, k + 1)
    }
}

/// The first capacity limit hit at or after entry `k` while the headers are
/// assembled: each content's absolute offset must fit its 32-bit field.
pub open spec fn pkg_data_capacity_error(s: Seq<EntryView>, k: int) -> Option<PackageWriteError>
    decreases s.len() - k,
{
    if k < 0 || k >= s.len() {
        None
    } else if pkg_data_offset(s, k) > u32::MAX {
        Some(PackageWriteError::EntryWrite(EntryWriteError::OffsetExceeded))
    } else {
        pkg_data_capacity_error(s, k + 1)
    }
}

/// The first capacity limit the writer hits on these entries, if any, in
/// the order the writer works: the entry count, the per-entry limits of the
/// path region, the path region's total size, and the data offsets.
pub open spec fn pkg_capacity_error(s: Seq<EntryView>) -> Option<PackageWriteError> {
    if s.len() > u32::MAX {
        Some(PackageWriteError::EntryCountExceeded)
    } else if pkg_entry_capacity_error(s, 0) is Some {
        pkg_entry_capacity_error(s, 0)
    } else if pkg_path_region_size(s) > u32::MAX {
        Some(PackageWriteError::PathAreaSizeExceeded(pkg_path_region_size(s) as usize))
    } else {
        pkg_data_capacity_error(s, 0)
    }
}

/// Serializes a package into the PKG layout.
pub struct PkgWriter;

impl PkgWriter {
    /// The PKG image of `package`, or the first capacity error.
    pub fn write_package_to_bytes(&self, package: &Package) -> (r: Result<
        Vec<u8>,
        PackageWriteError,
    >)
        requires
            package.wf(),
            package.all_content_resolved(),
        ensures
            match r {
                Ok(v) => pkg_capacity_error(package@) is None && v@ == pkg_image(package@),
                Err(e) => pkg_capacity_error(package@) == Some(e),
            },
    {
        let ghost s = package@;
        let n = package.len();
        if n as u64 > u32::MAX as u64 {
            return Err(PackageWriteError::EntryCountExceeded);
        }
        let entries = package.entries();

        // Pass over the entries: collect hashes, lengths and contents, and
        // assemble the path region.
        let mut hashes: Vec<u32> = Vec::new();
        let mut path_offs: Vec<u32> = Vec::new();
        let mut contents: Vec<Vec<u8>> = Vec::new();
        let mut paths: Vec<u8> = Vec::new();
        let mut k: usize = 0;
        proof {
            assert(paths@ =~= pkg_paths_prefix(s, 0));
        }
        while k < n
            invariant
                package.wf(),
                package.all_content_resolved(),
                s == package@,
                n == s.len(),
                n <= u32::MAX,
                entries@.len() == n,
                forall|i: int| 0 <= i < n ==> (#[trigger] entries@[i])@ == s[i],
                forall|i: int| 0 <= i < n ==> (#[trigger] entries@[i]).wf(),
                k <= n,
                paths@ == pkg_paths_prefix(s, k as int),
                hashes@.len() == k,
                forall|i: int| 0 <= i < k ==> hashes@[i] == spec_calculate_path_hash(s[i].path),
                path_offs@.len() == k,
                forall|i: int| 0 <= i < k ==> path_offs@[i] == pkg_path_offset(s, i) as u32,
                contents@.len() == k,
                forall|i: int| 0 <= i < k ==> (#[trigger] contents@[i])@ == s[i].content->Some_0,
                forall|i: int| 0 <= i < k ==> (#[trigger] contents@[i])@.len() <= u32::MAX,
                pkg_entry_capacity_error(s, 0) == pkg_entry_capacity_error(s, k as int),
            decreases n - k,
        {
            let content = match entries[k].content_bytes() {
                Some(c) => c,
                None => {
                    proof {
                        assert(s[k as int].content is Some);
                        assert(false);
                    }
                    unreached()
                }
            };
            if content.len() as u64 > u32::MAX as u64 {
                return Err(PackageWriteError::EntryWrite(EntryWriteError::ContentSizeExceeded(
                    content.len(),
                )));
            }
            if paths.len() as u64 > 0xFFFFFFu64 {
                return Err(PackageWriteError::EntryWrite(EntryWriteError::OffsetExceeded));
            }
            hashes.push(calculate_path_hash(entries[k].inner_path()));
            path_offs.push(paths.len() as u32);
            push_bytes(&mut paths, entries[k].inner_path().as_bytes());
            paths.push(0u8);
            contents.push(content);
            proof {
                assert(paths@ =~= pkg_paths_prefix(s, k as int) + encode_utf8(s[k as int].path)
                    + seq![0u8]);
                assert(paths@ =~= pkg_paths_prefix(s, k + 1));
            }
            k += 1;
        }
        let prs = paths.len();
        if prs as u64 > u32::MAX as u64 {
            return Err(PackageWriteError::PathAreaSizeExceeded(prs));
        }
        let pad: usize = 4 - (prs % 4);
        let data_start: u64 = 16u64 + 20u64 * (n as u64) + (prs as u64) + (pad as u64);
        proof {
            assert(data_start == pkg_data_start(s));
        }

        // Second pass: assemble the entry headers, rebasing each content
        // offset to its absolute position.
        let mut headers: Vec<u8> = Vec::new();
        let mut data_off: u64 = data_start;
        let mut k2: usize = 0;
        proof {
            assert(headers@ =~= pkg_headers_prefix(s, 0));
            assert(pkg_data_prefix(s, 0) =~= Seq::<u8>::empty());
        }
        while k2 < n
            invariant
                s == package@,
                n == s.len(),
                n <= u32::MAX,
                k2 <= n,
                hashes@.len() == n,
                forall|i: int| 0 <= i < n ==> hashes@[i] == spec_calculate_path_hash(s[i].path),
                path_offs@.len() == n,
                forall|i: int| 0 <= i < n ==> path_offs@[i] == pkg_path_offset(s, i) as u32,
                contents@.len() == n,
                forall|i: int| 0 <= i < n ==> (#[trigger] contents@[i])@ == s[i].content->Some_0,
                forall|i: int| 0 <= i < n ==> (#[trigger] contents@[i])@.len() <= u32::MAX,
                headers@ == pkg_headers_prefix(s, k2 as int),
                data_off == pkg_data_offset(s, k2 as int),
                data_off < 0x10000000000u64,
                pkg_entry_capacity_error(s, 0) is None,
                pkg_path_region_size(s) <= u32::MAX,
                pkg_data_capacity_error(s, 0) == pkg_data_capacity_error(s, k2 as int),
            decreases n - k2,
        {
            if data_off > u32::MAX as u64 {
                proof {
                    assert(pkg_data_capacity_error(s, k2 as int) == Some(
                        PackageWriteError::EntryWrite(EntryWriteError::OffsetExceeded),
                    ));
                    assert(pkg_capacity_error(s) == Some(PackageWriteError::EntryWrite(
                        EntryWriteError::OffsetExceeded,
                    )));
                }
                return Err(PackageWriteError::EntryWrite(EntryWriteError::OffsetExceeded));
            }
            let clen = contents[k2].len();
            push_u32_be(&mut headers, hashes[k2]);
            headers.push(0u8);
            push_u24_be(&mut headers, path_offs[k2]);
            push_u32_be(&mut headers, data_off as u32);
            push_u32_be(&mut headers, clen as u32);
            push_u32_be(&mut headers, clen as u32);
            proof {
                assert(headers@ =~= pkg_headers_prefix(s, k2 as int) + pkg_header_of(
                    s,
                    k2 as int,
                ));
                assert(headers@ =~= pkg_headers_prefix(s, k2 + 1));
                assert(pkg_data_prefix(s, k2 + 1) =~= pkg_data_prefix(s, k2 as int)
                    + s[k2 as int].content->Some_0);
            }
            data_off = data_off + clen as u64;
            k2 += 1;
        }

        // Emit the image front to back.
        let mut out: Vec<u8> = Vec::new();
        out.push(80u8);
        out.push(75u8);
        out.push(71u8);
        out.push(10u8);
        push_u16_be(&mut out, 16u16);
        push_u16_be(&mut out, 20u16);
        push_u32_be(&mut out, n as u32);
        push_u32_be(&mut out, prs as u32);
        out.append(&mut headers);
        out.append(&mut paths);
        push_zeros(&mut out, pad);
        let ghost front = out@;
        proof {
            assert(front =~= seq![80u8, 75u8, 71u8, 10u8] + spec_u16_be(16) + spec_u16_be(20)
                + spec_u32_be(n as u32) + spec_u32_be(pkg_path_region_size(s) as u32)
                + pkg_headers_prefix(s, n as int) + pkg_paths_prefix(s, n as int) + Seq::new(
                pkg_pad(s) as nat,
                |i: int| 0u8,
            ));
        }
        let mut k3: usize = 0;
        while k3 < n
            invariant
                s == package@,
                n == s.len(),
                k3 <= n,
                contents@.len() == n,
                forall|i: int| 0 <= i < n ==> (#[trigger] contents@[i])@ == s[i].content->Some_0,
                pkg_capacity_error(s) is None,
                out@ == front + pkg_data_prefix(s, k3 as int),
            decreases n - k3,
        {
            push_bytes(&mut out, contents[k3].as_slice());
            proof {
                assert(out@ =~= front + pkg_data_prefix(s, k3 + 1));
            }
            k3 += 1;
        }
        proof {
            assert(out@ =~= pkg_image(s));
        }
        Ok(out)
    }
}

/// The first nonzero flags byte among the headers of entries `k` to `n`:
/// every set bit asks for a transformation, such as deflate compression,
/// that is not supported.
pub open spec fn pkg_check_flags(bytes: Seq<u8>, n: int, k: int) -> Option<ReadErrView>
    decreases n - k,
{
    if k >= n {
        None
    } else if bytes[16 + 20 * k + 4] != 0 {
        Some(ReadErrView::UnsupportedDeflatedEntry(bytes[16 + 20 * k + 4]))
    } else {
        pkg_check_flags(bytes, n, k + 1)
    }
}

/// The result of resolving entry `k` from its header: its path from the
/// path region, checked against the stored hash, and its content bytes.
/// `pro` and `prs` are the path region's offset and size.
pub open spec fn pkg_parse_entry(bytes: Seq<u8>, pro: int, prs: int, k: int) -> Result<
    EntryView,
    ReadErrView,
> {
    let h = 16 + 20 * k;
    let stored_hash = spec_be_u32(bytes[h], bytes[h + 1], bytes[h + 2], bytes[h + 3]);
    let poff = spec_be_u24(bytes[h + 5], bytes[h + 6], bytes[h + 7]) as int;
    let doff = spec_be_u32(bytes[h + 8], bytes[h + 9], bytes[h + 10], bytes[h + 11]) as int;
    let dsize = spec_be_u32(bytes[h + 12], bytes[h + 13], bytes[h + 14], bytes[h + 15]) as int;
    let region = bytes.subrange(pro, pro + prs);
    match nul_pos(region, poff) {
        None => Err(ReadErrView::UnexpectedEnd),
        Some(p) => {
            let path = latin1_chars(region.subrange(poff, p));
            let actual = spec_calculate_path_hash(path);
            if actual != stored_hash {
                Err(ReadErrView::PathHashMismatch { path, expected: stored_hash, actual })
            } else if doff + dsize > bytes.len() {
                Err(ReadErrView::UnexpectedEnd)
            } else {
                Ok(EntryView { path, content: Some(bytes.subrange(doff, doff + dsize)) })
            }
        }
    }
}

/// The result of resolving entries `k` to `n`, having already resolved
/// `acc`.
pub open spec fn pkg_parse_entries(
    bytes: Seq<u8>,
    pro: int,
    prs: int,
    n: int,
    k: int,
    acc: Seq<EntryView>,
) -> Result<Seq<EntryView>, ReadErrView>
    decreases n - k,
{
    if k >= n {
        Ok(acc)
    } else {
        match pkg_parse_entry(bytes, pro, prs, k) {
            Err(e) => Err(e),
            Ok(ev) => if seq_has_path(acc, ev.path) {
                Err(ReadErrView::DuplicatePath(ev.path))
            } else {
                pkg_parse_entries(bytes, pro, prs, n, k + 1, acc.push(ev))
            },
        }
    }
}

/// The exact result of reading any byte sequence as a PKG archive: the
/// signature bytes are compared one by one, then the two size constants,
/// then every entry header's flags byte, and only then are paths resolved,
/// hash-checked and contents located.
pub open spec fn pkg_parse(bytes: Seq<u8>) -> Result<Seq<EntryView>, ReadErrView> {
    if bytes.len() < 16 {
        Err(ReadErrView::UnexpectedEnd)
    } else if bytes[0] != 80 {
        Err(ReadErrView::SignatureMismatch { expected: 80, actual: bytes[0] })
    } else if bytes[1] != 75 {
        Err(ReadErrView::SignatureMismatch { expected: 75, actual: bytes[1] })
    } else if bytes[2] != 71 {
        Err(ReadErrView::SignatureMismatch { expected: 71, actual: bytes[2] })
    } else if bytes[3] != 10 {
        Err(ReadErrView::SignatureMismatch { expected: 10, actual: bytes[3] })
    } else if spec_be_u16(bytes[4], bytes[5]) != 16 {
        Err(ReadErrView::HeaderSizeMismatch { expected: 16, actual: spec_be_u16(bytes[4], bytes[5]) })
    } else if spec_be_u16(bytes[6], bytes[7]) != 20 {
        Err(
            ReadErrView::EntriesHeaderSizeMismatch {
                expected: 20,
                actual: spec_be_u16(bytes[6], bytes[7]),
            },
        )
    } else {
        let n = spec_be_u32(bytes[8], bytes[9], bytes[10], bytes[11]) as int;
        let prs = spec_be_u32(bytes[12], bytes[13], bytes[14], bytes[15]) as int;
        let pro = 16 + 20 * n;
        if pro > bytes.len() {
            Err(ReadErrView::UnexpectedEnd)
        } else {
            match pkg_check_flags(bytes, n, 0) {
                Some(e) => Err(e),
                None => if pro + prs > bytes.len() {
                    Err(ReadErrView::UnexpectedEnd)
                } else {
                    pkg_parse_entries(bytes, pro, prs, n, 0, Seq::empty())
                },
            }
        }
    }
}

/// Parses a PKG archive held in `bytes`. Entries own copies of their
/// content, so the package outlives the input buffer.
pub fn read_package_from_bytes(bytes: &[u8]) -> (r: Result<Package, PackageReadError>)
    ensures
        match r {
            Ok(p) => {
                &&& p.wf()
                &&& p.all_content_resolved()
                &&& pkg_parse(bytes@) == Ok::<Seq<EntryView>, ReadErrView>(p@)
            },
            Err(e) => pkg_parse(bytes@) == Err::<Seq<EntryView>, ReadErrView>(e@),
        },
{
    pkg_read_entries_from(bytes, None)
}

/// Parses a PKG archive through a shared mapping of its file. Entries
/// reference ranges of the mapping rather than copying them, and each holds
/// a reference that keeps the mapping alive.
pub fn read_package_from_map(map: &SharedMmap) -> (r: Result<Package, PackageReadError>)
    ensures
        match r {
            Ok(p) => {
                &&& p.wf()
                &&& p.all_content_resolved()
                &&& pkg_parse(map.bytes()) == Ok::<Seq<EntryView>, ReadErrView>(p@)
            },
            Err(e) => pkg_parse(map.bytes()) == Err::<Seq<EntryView>, ReadErrView>(e@),
        },
{
    pkg_read_entries_from(map.as_bytes(), Some(map))
}

/// The shared body of the two readers: parses `bytes`, sourcing entry
/// content from `map` where one is given and from owned copies otherwise.
fn pkg_read_entries_from(bytes: &[u8], map: Option<&SharedMmap>) -> (r: Result<
    Package,
    PackageReadError,
>)
    requires
        match map {
            Some(m) => m.bytes() == bytes@,
            None => true,
        },
    ensures
        match r {
            Ok(p) => {
                &&& p.wf()
                &&& p.all_content_resolved()
                &&& pkg_parse(bytes@) == Ok::<Seq<EntryView>, ReadErrView>(p@)
            },
            Err(e) => pkg_parse(bytes@) == Err::<Seq<EntryView>, ReadErrView>(e@),
        },
{
    let len = bytes.len();
    if len < 16 {
        return Err(PackageReadError::UnexpectedEnd);
    }
    if bytes[0] != 80 {
        return Err(PackageReadError::SignatureMismatch { expected: 80, actual: bytes[0] });
    }
    if bytes[1] != 75 {
        return Err(PackageReadError::SignatureMismatch { expected: 75, actual: bytes[1] });
    }
    if bytes[2] != 71 {
        return Err(PackageReadError::SignatureMismatch { expected: 71, actual: bytes[2] });
    }
    if bytes[3] != 10 {
        return Err(PackageReadError::SignatureMismatch { expected: 10, actual: bytes[3] });
    }
    let isz = read_u16_be(bytes, 4);
    if isz != 16 {
        return Err(PackageReadError::HeaderSizeMismatch { expected: 16, actual: isz });
    }
    let esz = read_u16_be(bytes, 6);
    if esz != 20 {
        return Err(PackageReadError::EntriesHeaderSizeMismatch { expected: 20, actual: esz });
    }
    let n = read_u32_be(bytes, 8) as usize;
    let prs = read_u32_be(bytes, 12) as usize;
    if 16u64 + 20u64 * (n as u64) > len as u64 {
        return Err(PackageReadError::UnexpectedEnd);
    }
    let pro: usize = 16 + 20 * n;

    // Every header's flags byte is inspected before any path is resolved.
    let mut k: usize = 0;
    while k < n
        invariant
            len == bytes@.len(),
            16 + 20 * (n as int) <= len,
            k <= n,
            pkg_check_flags(bytes@, n as int, 0) == pkg_check_flags(bytes@, n as int, k as int),
            pkg_parse(bytes@) == (match pkg_check_flags(bytes@, n as int, 0) {
                Some(e) => Err::<Seq<EntryView>, ReadErrView>(e),
                None => if 16 + 20 * (n as int) + (prs as int) > len {
                    Err::<Seq<EntryView>, ReadErrView>(ReadErrView::UnexpectedEnd)
                } else {
                    pkg_parse_entries(
                        bytes@,
                        16 + 20 * (n as int),
                        prs as int,
                        n as int,
                        0,
                        Seq::<EntryView>::empty(),
                    )
                },
            }),
        decreases n - k,
    {
        let flags = bytes[16 + 20 * k + 4];
        if flags != 0 {
            return Err(PackageReadError::EntryRead(EntryReadError::UnsupportedDeflatedEntry(
                flags,
            )));
        }
        k += 1;
    }

    if (pro as u64) + (prs as u64) > len as u64 {
        return Err(PackageReadError::UnexpectedEnd);
    }
    let region = slice_subrange(bytes, pro, pro + prs);

    let mut package = Package::with_capacity(n);
    let mut k2: usize = 0;
    while k2 < n
        invariant
            len == bytes@.len(),
            16 + 20 * (n as int) <= len,
            pro == 16 + 20 * n,
            pro + prs <= len,
            region@ == bytes@.subrange(pro as int, pro as int + prs as int),
            k2 <= n,
            package.wf(),
            package.all_content_resolved(),
            match map {
                Some(m) => m.bytes() == bytes@,
                None => true,
            },
            pkg_parse(bytes@) == pkg_parse_entries(
                bytes@,
                pro as int,
                prs as int,
                n as int,
                k2 as int,
                package@,
            ),
        decreases n - k2,
    {
        let h: usize = 16 + 20 * k2;
        let stored_hash = read_u32_be(bytes, h);
        let poff = read_u24_be(bytes, h + 5) as usize;
        let doff = read_u32_be(bytes, h + 8) as usize;
        let dsize = read_u32_be(bytes, h + 12) as usize;
        let path = match read_null_terminated_string(region, poff) {
            Ok(p) => p,
            Err(e) => {
                return Err(e);
            }
        };
        let actual = calculate_path_hash(path.as_str());
        if actual != stored_hash {
            return Err(PackageReadError::EntryRead(EntryReadError::PathHashMismatch {
                inner_path: path,
                expected: stored_hash,
                actual,
            }));
        }
        if (doff as u64) + (dsize as u64) > len as u64 {
            return Err(PackageReadError::UnexpectedEnd);
        }
        let entry = match map {
            Some(m) => PackageEntry::from_memory_mapped_file(path.as_str(), m, doff, dsize),
            None => PackageEntry::from_byte_array(
                path.as_str(),
                slice_to_vec(slice_subrange(bytes, doff, doff + dsize)),
            ),
        };
        match package.add_entry(entry) {
            Err(e) => {
                return Err(PackageReadError::InnerPathAlreadyExists(e));
            }
            Ok(()) => {}
        }
        k2 += 1;
    }
    Ok(package)
}

/// A path the PKG layout can store and read back: ASCII, with no zero
/// character, since the stored form ends at the first zero byte and is read
/// back one character per byte.
pub open spec fn pkg_storable_path(path: Seq<char>) -> bool {
    &&& vstd::utf8::is_ascii_chars(path)
    &&& forall|j: int| 0 <= j < path.len() ==> (#[trigger] path[j]) as u32 != 0
}

/// A storable path's stored bytes are its characters one byte each, none of
/// them zero, and read back as the same characters.
proof fn lemma_ascii_latin1_roundtrip(path: Seq<char>)
    requires
        pkg_storable_path(path),
    ensures
        encode_utf8(path).len() == path.len(),
        latin1_chars(encode_utf8(path)) == path,
        forall|i: int| 0 <= i < path.len() ==> (#[trigger] encode_utf8(path)[i]) != 0,
{
    vstd::utf8::is_ascii_chars_encode_utf8(path);
    assert forall|i: int| 0 <= i < path.len() implies ((#[trigger] encode_utf8(path)[i]) as char)
        == path[i] && encode_utf8(path)[i] != 0 by {
        let c = path[i];
        let u = c as u32;
        let b = encode_utf8(path)[i];
        assert('\0' <= c <= '\u{7f}');
        assert(b == c as u8);
        assert(c as u8 == u as u8);
        assert(u <= 0x7f);
        assert(u != 0);
        assert(b as u32 == u) by (bit_vector)
            requires b == u as u8 && u <= 0x7f;
        vstd::utf8::char_u32_cast(c, u);
        assert(b as char == u as char);
    }
    assert(latin1_chars(encode_utf8(path)) =~= path);
}

/// The headers of the first `k` entries occupy `20 * k` bytes.
proof fn lemma_pkg_headers_prefix_len(s: Seq<EntryView>, k: int)
    requires
        0 <= k,
    ensures
        pkg_headers_prefix(s, k).len() == 20 * k,
    decreases k,
{
    if k > 0 {
        lemma_pkg_headers_prefix_len(s, k - 1);
    }
}

/// The header of entry `j` stands unchanged inside any longer header
/// prefix.
proof fn lemma_pkg_header_extract(s: Seq<EntryView>, j: int, m: int)
    requires
        0 <= j < m,
    ensures
        20 * m <= pkg_headers_prefix(s, m).len(),
        pkg_headers_prefix(s, m).subrange(20 * j, 20 * j + 20) == pkg_header_of(s, j),
    decreases m,
{
    lemma_pkg_headers_prefix_len(s, m);
    if j + 1 == m {
        lemma_pkg_headers_prefix_len(s, j);
        assert(pkg_headers_prefix(s, m).subrange(20 * j, 20 * j + 20) =~= pkg_header_of(s, j));
    } else {
        lemma_pkg_header_extract(s, j, m - 1);
        assert(pkg_headers_prefix(s, m).subrange(20 * j, 20 * j + 20) =~= pkg_headers_prefix(
            s,
            m - 1,
        ).subrange(20 * j, 20 * j + 20));
    }
}

/// Earlier path-region prefixes are never longer than later ones.
proof fn lemma_pkg_paths_prefix_mono(s: Seq<EntryView>, j: int, m: int)
    requires
        0 <= j <= m,
    ensures
        pkg_paths_prefix(s, j).len() <= pkg_paths_prefix(s, m).len(),
    decreases m - j,
{
    if j < m {
        lemma_pkg_paths_prefix_mono(s, j, m - 1);
    }
}

/// The stored path of entry `j`, with its terminator, stands unchanged
/// inside any longer path-region prefix.
proof fn lemma_pkg_path_extract(s: Seq<EntryView>, j: int, m: int)
    requires
        0 <= j < m,
    ensures
        pkg_path_offset(s, j) + encode_utf8(s[j].path).len() + 1 <= pkg_paths_prefix(
            s,
            m,
        ).len(),
        pkg_paths_prefix(s, m).subrange(
            pkg_path_offset(s, j),
            pkg_path_offset(s, j) + encode_utf8(s[j].path).len() as int,
        ) == encode_utf8(s[j].path),
        pkg_paths_prefix(s, m)[pkg_path_offset(s, j) + encode_utf8(s[j].path).len() as int]
            == 0u8,
    decreases m,
{
    let start = pkg_path_offset(s, j);
    let plen = encode_utf8(s[j].path).len() as int;
    if j + 1 == m {
        assert(pkg_paths_prefix(s, m).subrange(start, start + plen) =~= encode_utf8(s[j].path));
    } else {
        lemma_pkg_path_extract(s, j, m - 1);
        assert(pkg_paths_prefix(s, m).subrange(start, start + plen) =~= pkg_paths_prefix(
            s,
            m - 1,
        ).subrange(start, start + plen));
    }
}

/// Earlier data-region prefixes are never longer than later ones.
proof fn lemma_pkg_data_prefix_mono(s: Seq<EntryView>, j: int, m: int)
    requires
        0 <= j <= m,
    ensures
        pkg_data_prefix(s, j).len() <= pkg_data_prefix(s, m).len(),
    decreases m - j,
{
    if j < m {
        lemma_pkg_data_prefix_mono(s, j, m - 1);
    }
}

/// The content of entry `j` stands unchanged inside any longer data-region
/// prefix.
proof fn lemma_pkg_data_extract(s: Seq<EntryView>, j: int, m: int)
    requires
        0 <= j < m,
    ensures
        pkg_data_prefix(s, j).len() + s[j].content->Some_0.len() <= pkg_data_prefix(
            s,
            m,
        ).len(),
        pkg_data_prefix(s, m).subrange(
            pkg_data_prefix(s, j).len() as int,
            pkg_data_prefix(s, j).len() + s[j].content->Some_0.len() as int,
        ) == s[j].content->Some_0,
    decreases m,
{
    let start = pkg_data_prefix(s, j).len() as int;
    let clen = s[j].content->Some_0.len() as int;
    if j + 1 == m {
        assert(pkg_data_prefix(s, m).subrange(start, start + clen) =~= s[j].content->Some_0);
    } else {
        lemma_pkg_data_extract(s, j, m - 1);
        assert(pkg_data_prefix(s, m).subrange(start, start + clen) =~= pkg_data_prefix(
            s,
            m - 1,
        ).subrange(start, start + clen));
    }
}

/// When no capacity limit is hit from entry `j` on, entry `k`'s content
/// length and path offset fit their fields.
proof fn lemma_pkg_entry_capacity_bounds(s: Seq<EntryView>, j: int, k: int)
    requires
        0 <= j <= k < s.len(),
        pkg_entry_capacity_error(s, j) is None,
    ensures
        s[k].content->Some_0.len() <= u32::MAX,
        pkg_path_offset(s, k) <= 0xFFFFFF,
    decreases k - j,
{
    if j < k {
        lemma_pkg_entry_capacity_bounds(s, j + 1, k);
    }
}

/// When no data offset overflows from entry `j` on, entry `k`'s data offset
/// fits its field.
proof fn lemma_pkg_data_capacity_bounds(s: Seq<EntryView>, j: int, k: int)
    requires
        0 <= j <= k < s.len(),
        pkg_data_capacity_error(s, j) is None,
    ensures
        pkg_data_offset(s, k) <= u32::MAX,
    decreases k - j,
{
    if j < k {
        lemma_pkg_data_capacity_bounds(s, j + 1, k);
    }
}

/// Two bytes that are the big-endian encoding of `v` read back as `v`.
proof fn lemma_read_u16_be_at(bytes: Seq<u8>, x: int, v: u16)
    requires
        0 <= x,
        x + 2 <= bytes.len(),
        bytes.subrange(x, x + 2) == spec_u16_be(v),
    ensures
        spec_be_u16(bytes[x], bytes[x + 1]) == v,
{
    assert(bytes[x] == spec_u16_be(v)[0]);
    assert(bytes[x + 1] == spec_u16_be(v)[1]);
    lemma_u16_be_roundtrip(v);
}

/// Three bytes that are the big-endian encoding of `v < 2^24` read back as
/// `v`.
proof fn lemma_read_u24_be_at(bytes: Seq<u8>, x: int, v: u32)
    requires
        0 <= x,
        x + 3 <= bytes.len(),
        v < 0x1000000,
        bytes.subrange(x, x + 3) == spec_u24_be(v),
    ensures
        spec_be_u24(bytes[x], bytes[x + 1], bytes[x + 2]) == v,
{
    assert(bytes[x] == spec_u24_be(v)[0]);
    assert(bytes[x + 1] == spec_u24_be(v)[1]);
    assert(bytes[x + 2] == spec_u24_be(v)[2]);
    lemma_u24_be_roundtrip(v);
}

/// Four bytes that are the big-endian encoding of `v` read back as `v`.
proof fn lemma_read_u32_be_at(bytes: Seq<u8>, x: int, v: u32)
    requires
        0 <= x,
        x + 4 <= bytes.len(),
        bytes.subrange(x, x + 4) == spec_u32_be(v),
    ensures
        spec_be_u32(bytes[x], bytes[x + 1], bytes[x + 2], bytes[x + 3]) == v,
{
    assert(bytes[x] == spec_u32_be(v)[0]);
    assert(bytes[x + 1] == spec_u32_be(v)[1]);
    assert(bytes[x + 2] == spec_u32_be(v)[2]);
    assert(bytes[x + 3] == spec_u32_be(v)[3]);
    lemma_u32_be_roundtrip(v);
}

/// Scanning from `off` over nonzero bytes up to a zero byte at `p` finds
/// exactly `p`.
proof fn lemma_nul_pos_found(region: Seq<u8>, off: int, p: int)
    requires
        0 <= off <= p < region.len(),
        region[p] == 0,
        forall|i: int| off <= i < p ==> (#[trigger] region[i]) != 0,
    ensures
        nul_pos(region, off) == Some(p),
    decreases p - off,
{
    if off < p {
        lemma_nul_pos_found(region, off + 1, p);
    }
}

/// Entry `k` of a written image resolves back from its header: the stored
/// hash, path, and content all read back as written.
#[verifier::rlimit(100)]
proof fn lemma_pkg_entry_parses(s: Seq<EntryView>, k: int)
    requires
        0 <= k < s.len(),
        (#[trigger] s[k]).content is Some,
        pkg_storable_path(s[k].path),
        s.len() <= u32::MAX,
        pkg_entry_capacity_error(s, 0) is None,
        pkg_path_region_size(s) <= u32::MAX,
        pkg_data_capacity_error(s, 0) is None,
    ensures
        pkg_parse_entry(
            pkg_image(s),
            16 + 20 * s.len() as int,
            pkg_path_region_size(s),
            k,
        ) == Ok::<EntryView, ReadErrView>(s[k]),
{
    let img = pkg_image(s);
    let n = s.len() as int;
    let pro = 16 + 20 * n;
    let prs = pkg_path_region_size(s);
    lemma_pkg_headers_prefix_len(s, n);
    assert(img.len() == pkg_data_start(s) + pkg_data_prefix(s, n).len());
    let e = s[k];
    let content = e.content->Some_0;
    let pbytes = encode_utf8(e.path);
    let clen = content.len() as int;
    let plen = pbytes.len() as int;
    lemma_pkg_entry_capacity_bounds(s, 0, k);
    lemma_pkg_data_capacity_bounds(s, 0, k);
    lemma_ascii_latin1_roundtrip(e.path);

    // The 20-byte header of entry k stands at 16 + 20k.
    lemma_pkg_header_extract(s, k, n);
    let h = 16 + 20 * k;
    assert(img.subrange(h, h + 20) =~= pkg_headers_prefix(s, n).subrange(20 * k, 20 * k + 20));
    let header = pkg_header_of(s, k);
    assert(img.subrange(h, h + 20) == header);

    // Its fields read back as written.
    assert(img.subrange(h, h + 4) =~= header.subrange(0, 4));
    assert(header.subrange(0, 4) =~= spec_u32_be(spec_calculate_path_hash(e.path)));
    lemma_read_u32_be_at(img, h, spec_calculate_path_hash(e.path));
    assert(img.subrange(h + 5, h + 8) =~= header.subrange(5, 8));
    assert(header.subrange(5, 8) =~= spec_u24_be(pkg_path_offset(s, k) as u32));
    lemma_read_u24_be_at(img, h + 5, pkg_path_offset(s, k) as u32);
    assert(img.subrange(h + 8, h + 12) =~= header.subrange(8, 12));
    assert(header.subrange(8, 12) =~= spec_u32_be(pkg_data_offset(s, k) as u32));
    lemma_read_u32_be_at(img, h + 8, pkg_data_offset(s, k) as u32);
    assert(img.subrange(h + 12, h + 16) =~= header.subrange(12, 16));
    assert(header.subrange(12, 16) =~= spec_u32_be(clen as u32));
    lemma_read_u32_be_at(img, h + 12, clen as u32);

    // The path region of the image is exactly the assembled one.
    let region = img.subrange(pro, pro + prs);
    assert(region =~= pkg_paths_prefix(s, n));

    // The stored path runs from its offset to its zero terminator.
    lemma_pkg_path_extract(s, k, n);
    let poff = pkg_path_offset(s, k);
    assert forall|i: int| poff <= i < poff + plen implies (#[trigger] region[i]) != 0 by {
        assert(region[i] == pbytes[i - poff]);
    }
    lemma_nul_pos_found(region, poff, poff + plen);
    assert(region.subrange(poff, poff + plen) =~= pbytes);
    assert(latin1_chars(region.subrange(poff, poff + plen)) == e.path);

    // The recomputed hash matches the stored one, and the content stands
    // at its recorded offset.
    let doff = pkg_data_offset(s, k);
    lemma_pkg_data_extract(s, k, n);
    assert(doff + clen <= img.len());
    assert(img.subrange(doff, doff + clen) =~= pkg_data_prefix(s, n).subrange(
        pkg_data_prefix(s, k).len() as int,
        pkg_data_prefix(s, k).len() + clen,
    ));
    assert(img.subrange(doff, doff + clen) == content);
    assert(pkg_parse_entry(img, pro, prs, k) == Ok::<EntryView, ReadErrView>(
        EntryView { path: e.path, content: Some(content) },
    ));
    assert(EntryView { path: e.path, content: Some(content) } == e);
}

/// Resolving a written image from entry `k` on, with the first `k` entries
/// already recovered, recovers them all.
#[verifier::rlimit(100)]
proof fn lemma_pkg_parse_entries_round(s: Seq<EntryView>, k: int)
    requires
        0 <= k <= s.len(),
        paths_distinct(s),
        forall|i: int| 0 <= i < s.len() ==> (#[trigger] s[i]).content is Some,
        forall|i: int| 0 <= i < s.len() ==> pkg_storable_path((#[trigger] s[i]).path),
        s.len() <= u32::MAX,
        pkg_entry_capacity_error(s, 0) is None,
        pkg_path_region_size(s) <= u32::MAX,
        pkg_data_capacity_error(s, 0) is None,
    ensures
        pkg_parse_entries(
            pkg_image(s),
            16 + 20 * s.len() as int,
            pkg_path_region_size(s),
            s.len() as int,
            k,
            s.take(k),
        ) == Ok::<Seq<EntryView>, ReadErrView>(s),
    decreases s.len() - k,
{
    let n = s.len() as int;
    if k == n {
        assert(s.take(n) =~= s);
    } else {
        let e = s[k];
        lemma_pkg_entry_parses(s, k);
        assert(!seq_has_path(s.take(k), e.path)) by {
            if seq_has_path(s.take(k), e.path) {
                let j = choose|j: int| 0 <= j < s.take(k).len() && s.take(k)[j].path == e.path;
                assert(s[j].path != s[k].path);
            }
        }
        assert(s.take(k).push(e) =~= s.take(k + 1));
        lemma_pkg_parse_entries_round(s, k + 1);
    }
}

/// The fixed front of a written image reads back field by field: the
/// signature, both size constants, the entry count and the path region
/// size.
proof fn lemma_pkg_image_front(s: Seq<EntryView>)
    requires
        s.len() <= u32::MAX,
        pkg_path_region_size(s) <= u32::MAX,
    ensures
        pkg_image(s).len() == pkg_data_start(s) + pkg_data_prefix(s, s.len() as int).len(),
        pkg_image(s)[0] == 80u8,
        pkg_image(s)[1] == 75u8,
        pkg_image(s)[2] == 71u8,
        pkg_image(s)[3] == 10u8,
        spec_be_u16(pkg_image(s)[4], pkg_image(s)[5]) == 16,
        spec_be_u16(pkg_image(s)[6], pkg_image(s)[7]) == 20,
        spec_be_u32(pkg_image(s)[8], pkg_image(s)[9], pkg_image(s)[10], pkg_image(s)[11])
            == s.len(),
        spec_be_u32(pkg_image(s)[12], pkg_image(s)[13], pkg_image(s)[14], pkg_image(s)[15])
            == pkg_path_region_size(s),
{
    let img = pkg_image(s);
    let n = s.len() as int;
    let prs = pkg_path_region_size(s);
    lemma_pkg_headers_prefix_len(s, n);
    assert(img.len() == pkg_data_start(s) + pkg_data_prefix(s, n).len());
    assert(img.subrange(4, 6) =~= spec_u16_be(16));
    lemma_read_u16_be_at(img, 4, 16);
    assert(img.subrange(6, 8) =~= spec_u16_be(20));
    lemma_read_u16_be_at(img, 6, 20);
    assert(img.subrange(8, 12) =~= spec_u32_be(n as u32));
    lemma_read_u32_be_at(img, 8, n as u32);
    assert(img.subrange(12, 16) =~= spec_u32_be(prs as u32));
    lemma_read_u32_be_at(img, 12, prs as u32);
}

/// Every flags byte of a written image is zero, so the flag scan accepts
/// it.
proof fn lemma_pkg_image_flags_clear(s: Seq<EntryView>)
    ensures
        pkg_check_flags(pkg_image(s), s.len() as int, 0) is None,
{
    let img = pkg_image(s);
    let n = s.len() as int;
    lemma_pkg_headers_prefix_len(s, n);
    assert forall|k: int| 0 <= k < n implies #[trigger] img[16 + 20 * k + 4] == 0u8 by {
        lemma_pkg_header_extract(s, k, n);
        assert(img.subrange(16 + 20 * k, 16 + 20 * k + 20) =~= pkg_headers_prefix(
            s,
            n,
        ).subrange(20 * k, 20 * k + 20));
        assert(img[16 + 20 * k + 4] == pkg_header_of(s, k)[4]);
        assert(pkg_header_of(s, k)[4] == 0u8);
    }
    lemma_pkg_check_flags_clear(img, n, 0);
}

/// Round trip: reading back a written PKG image restores exactly the
/// entries that were written, in their order, with their content. The
/// paths must be storable: ASCII and free of zero characters, which is what
/// the layout's null-terminated, byte-per-character path region can carry.
pub proof fn lemma_pkg_round_trip(s: Seq<EntryView>)
    requires
        paths_distinct(s),
        forall|i: int| 0 <= i < s.len() ==> (#[trigger] s[i]).content is Some,
        forall|i: int| 0 <= i < s.len() ==> pkg_storable_path((#[trigger] s[i]).path),
        pkg_capacity_error(s) is None,
    ensures
        pkg_parse(pkg_image(s)) == Ok::<Seq<EntryView>, ReadErrView>(s),
{
    let img = pkg_image(s);
    let n = s.len() as int;
    let pro = 16 + 20 * n;
    let prs = pkg_path_region_size(s);
    lemma_pkg_image_front(s);
    lemma_pkg_image_flags_clear(s);
    assert(s.take(0) =~= Seq::<EntryView>::empty());
    lemma_pkg_parse_entries_round(s, 0);
}

/// Flag scanning finds nothing when every flags byte is zero.
proof fn lemma_pkg_check_flags_clear(bytes: Seq<u8>, n: int, k: int)
    requires
        0 <= k,
        forall|i: int| 0 <= i < n ==> #[trigger] bytes[16 + 20 * i + 4] == 0u8,
    ensures
        pkg_check_flags(bytes, n, k) is None,
    decreases n - k,
{
    if k < n {
        lemma_pkg_check_flags_clear(bytes, n, k + 1);
    }
}

/// Round trip at the package level: any well-formed package whose content
/// is in memory, whose paths the layout can store, and which its 32-bit
/// fields can carry is restored exactly, entry for entry and in order, by
/// parsing the bytes the writer produces for it.
pub proof fn lemma_pkg_package_round_trip(p: &Package)
    requires
        p.wf(),
        p.all_content_resolved(),
        forall|i: int| 0 <= i < p@.len() ==> pkg_storable_path((#[trigger] p@[i]).path),
        pkg_capacity_error(p@) is None,
    ensures
        pkg_parse(pkg_image(p@)) == Ok::<Seq<EntryView>, ReadErrView>(p@),
{
    lemma_wf_paths_distinct(p);
    lemma_pkg_round_trip(p@);
}

} // verus!
