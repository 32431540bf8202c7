//! A single package member: a unique inner path together with the source of
//! its byte content.

use vstd::prelude::*;
use vstd::slice::{slice_subrange, slice_to_vec};
use vstd::string::{StringExecFns, StrSliceExecFns};
use crate::mmap::SharedMmap;

verus! {

/// What one entry denotes: its inner path, and its content bytes where the
/// library can resolve them without touching the file system. Content backed
/// by a file on disk is `None` here; the surrounding I/O layer resolves it.
pub ghost struct EntryView {
    pub path: Seq<char>,
    pub content: Option<Seq<u8>>,
}

/// Where an entry's bytes come from. Content is materialized only when it is
/// asked for; until then an entry holds either its own buffer, the path of a
/// file still on disk, or a range of a shared mapping of a source archive.
#[derive(Debug)]
enum DataSource {
    FileOnDisk(String),
    MemoryMappedFile(SharedMmap, usize, usize),
    InMemoryByteArray(Vec<u8>),
}

/// A file entry in a package: an inner path plus a content source.
#[derive(Debug)]
pub struct PackageEntry {
    inner_path: String,
    source: DataSource,
}

impl View for PackageEntry {
    type V = EntryView;

    closed spec fn view(&self) -> EntryView {
        EntryView {
            path: self.inner_path@,
            content: match self.source {
                DataSource::FileOnDisk(_) => None,
                DataSource::MemoryMappedFile(m, offset, length) => Some(
                    m.bytes().subrange(offset as int, offset + length),
                ),
                DataSource::InMemoryByteArray(v) => Some(v@),
            },
        }
    }
}

impl PackageEntry {
    /// A memory-map range stays inside its mapping; the other sources carry
    /// no side condition.
    pub closed spec fn wf(self) -> bool {
        match self.source {
            DataSource::MemoryMappedFile(m, offset, length) => offset + length
                <= m.bytes().len(),
            _ => true,
        }
    }

    /// An entry whose content is the file at `path`, read when asked for.
    pub fn from_file(inner_path: &str, path: &str) -> (r: PackageEntry)
        ensures
            r@.path == inner_path@,
            r@.content is None,
            r.disk_path() == Some(path@),
            r.wf(),
    {
        PackageEntry {
            inner_path: String::from_str(inner_path),
            source: DataSource::FileOnDisk(String::from_str(path)),
        }
    }

    /// An entry whose content is `length` bytes of the shared mapping `map`,
    /// starting at `offset`. Holds its own reference to the mapping.
    pub fn from_memory_mapped_file(
        inner_path: &str,
        map: &SharedMmap,
        offset: usize,
        length: usize,
    ) -> (r: PackageEntry)
        requires
            offset + length <= map.bytes().len(),
        ensures
            r@.path == inner_path@,
            r@.content == Some(map.bytes().subrange(offset as int, offset + length)),
            r.wf(),
    {
        PackageEntry {
            inner_path: String::from_str(inner_path),
            source: DataSource::MemoryMappedFile(map.share(), offset, length),
        }
    }

    /// An entry whose content is the UTF-8 bytes of `content`.
    pub fn from_string(inner_path: &str, content: &str) -> (r: PackageEntry)
        ensures
            r@.path == inner_path@,
            r@.content == Some(vstd::utf8::encode_utf8(content@)),
            r.wf(),
    {
        PackageEntry::from_byte_array(inner_path, content.as_bytes_vec())
    }

    /// An entry that owns its content bytes.
    pub fn from_byte_array(inner_path: &str, content: Vec<u8>) -> (r: PackageEntry)
        ensures
            r@.path == inner_path@,
            r@.content == Some(content@),
            r.wf(),
    {
        PackageEntry {
            inner_path: String::from_str(inner_path),
            source: DataSource::InMemoryByteArray(content),
        }
    }

    /// The disk path behind a file-backed entry, or `None` for the other
    /// sources.
    pub closed spec fn disk_path(&self) -> Option<Seq<char>> {
        match self.source {
            DataSource::FileOnDisk(p) => Some(p@),
            _ => None,
        }
    }

    /// The path of the file holding this entry's content, for the I/O layer
    /// to resolve; `None` for an entry whose content is already in memory.
    pub fn source_path(&self) -> (r: Option<&str>)
        ensures
            match r {
                Some(p) => self.disk_path() == Some(p@) && self@.content is None,
                None => self.disk_path() is None && self@.content is Some,
            },
    {
        match &self.source {
            DataSource::FileOnDisk(p) => Some(p.as_str()),
            _ => None,
        }
    }

    /// True exactly of an entry whose content is a file still on disk.
    pub fn is_file_backed(&self) -> (r: bool)
        ensures
            r == (self@.content is None),
    {
        match &self.source {
            DataSource::FileOnDisk(_) => true,
            _ => false,
        }
    }

    /// The inner path of this entry.
    pub fn inner_path(&self) -> (r: &str)
        ensures
            r@ == self@.path,
    {
        self.inner_path.as_str()
    }

    /// An owned copy of this entry's content bytes, or `None` for an entry
    /// whose content is a file on disk, which only the I/O layer can read.
    pub fn content_bytes(&self) -> (r: Option<Vec<u8>>)
        requires
            self.wf(),
        ensures
            match r {
                Some(v) => self@.content == Some(v@),
                None => self@.content is None,
            },
    {
        match &self.source {
            DataSource::FileOnDisk(_) => None,
            DataSource::MemoryMappedFile(map, offset, length) => {
                let all = map.as_bytes();
                assert(all@.len() == map.bytes().len());
                let part = slice_subrange(all, *offset, *offset + *length);
                Some(slice_to_vec(part))
            }
            DataSource::InMemoryByteArray(v) => Some(slice_to_vec(v.as_slice())),
        }
    }

    /// This entry's content decoded as UTF-8, or `None` where the content is
    /// on disk or is not valid UTF-8.
    pub fn content_string(&self) -> (r: Option<String>)
        requires
            self.wf(),
        ensures
            match r {
                Some(s) => {
                    &&& self@.content is Some
                    &&& vstd::utf8::encode_utf8(s@) == self@.content->Some_0
                },
                None => self@.content is None || !vstd::utf8::valid_utf8(
                    self@.content->Some_0,
                ),
            },
    {
        match self.content_bytes() {
            Some(v) => crate::text::string_from_utf8(v),
            None => None,
        }
    }
}

/// A package member that owns its content outright: the light form used
/// where nothing is left behind on disk or inside a mapping.
#[derive(Debug)]
pub struct Entry {
    inner_path: String,
    content: Vec<u8>,
}

impl View for Entry {
    type V = EntryView;

    closed spec fn view(&self) -> EntryView {
        EntryView { path: self.inner_path@, content: Some(self.content@) }
    }
}

impl Entry {
    /// An entry built from a path and text content; copies both strings.
    /// This constructor is primarily for testing convenience.
    pub fn _from(inner_path: &str, content: &str) -> (r: Entry)
        ensures
            r@.path == inner_path@,
            r@.content == Some(vstd::utf8::encode_utf8(content@)),
    {
        Entry {
            inner_path: String::from_str(inner_path),
            content: content.as_bytes_vec(),
        }
    }

    /// The inner path of this entry.
    pub fn inner_path(&self) -> (r: &str)
        ensures
            r@ == self@.path,
    {
        self.inner_path.as_str()
    }

    /// A view of this entry's content as bytes.
    pub fn content_bytes(&self) -> (r: &[u8])
        ensures
            r@ == self@.content->Some_0,
    {
        self.content.as_slice()
    }

    /// This entry's content as a string; the content must be valid UTF-8.
    pub fn content_string(&self) -> (r: String)
        requires
            vstd::utf8::valid_utf8(self@.content->Some_0),
        ensures
            vstd::utf8::encode_utf8(r@) == self@.content->Some_0,
    {
        match crate::text::string_from_utf8(slice_to_vec(self.content.as_slice())) {
            Some(s) => s,
            None => {
                proof {
                    assert(false);
                }
                unreached()
            }
        }
    }
}

} // verus!
