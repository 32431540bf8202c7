//! The in-memory archive: an ordered collection of entries whose inner paths
//! are unique.
//!
//! The order of `entries` is the order in which entries were inserted or, for
//! a package built by a codec, the order in which the source archive stored
//! them; a later write emits entries in exactly this order. Looking an entry
//! up by path walks the list, and removal shifts the following entries down,
//! so both are linear in the number of entries.

use vstd::prelude::*;
use vstd::string::StringExecFns;
use crate::entry::{EntryView, PackageEntry};
use crate::error::InnerPathAlreadyExistsError;
use crate::text::str_eq;

verus! {

/// An ordered, uniquely-keyed collection of package entries.
#[derive(Debug)]
pub struct Package {
    entries: Vec<PackageEntry>,
}

impl View for Package {
    type V = Seq<EntryView>;

    closed spec fn view(&self) -> Seq<EntryView> {
        Seq::new(self.entries@.len(), |i: int| self.entries@[i]@)
    }
}

/// No two entries of `s` carry the same path.
pub open spec fn paths_distinct(s: Seq<EntryView>) -> bool {
    forall|i: int, j: int| 0 <= i < j < s.len() ==> s[i].path != s[j].path
}

/// Some entry of `s` carries the path `p`.
pub open spec fn seq_has_path(s: Seq<EntryView>, p: Seq<char>) -> bool {
    exists|i: int| 0 <= i < s.len() && s[i].path == p
}

/// A well-formed package's entries carry pairwise distinct paths. Stated
/// as a lemma because well-formedness itself is opaque outside this module,
/// while the codecs' round-trip laws ask for distinctness.
pub proof fn lemma_wf_paths_distinct(p: &Package)
    requires
        p.wf(),
    ensures
        paths_distinct(p@),
{
}

impl Package {
    /// Paths are unique and every entry is internally consistent.
    pub closed spec fn wf(&self) -> bool {
        &&& paths_distinct(self@)
        &&& forall|i: int| 0 <= i < self.entries@.len() ==> (#[trigger] self.entries@[i]).wf()
    }

    /// Some entry carries the path `p`.
    pub open spec fn has_path(&self, p: Seq<char>) -> bool {
        seq_has_path(self@, p)
    }

    /// Every entry's content can be produced without touching the file
    /// system.
    pub open spec fn all_content_resolved(&self) -> bool {
        forall|i: int| 0 <= i < self@.len() ==> (#[trigger] self@[i]).content is Some
    }

    /// Creates a new empty package.
    pub fn new() -> (r: Package)
        ensures
            r@ == Seq::<EntryView>::empty(),
            r.wf(),
    {
        let r = Package { entries: Vec::new() };
        proof {
            assert(r@ =~= Seq::<EntryView>::empty());
        }
        r
    }

    /// Creates a new empty package whose backing vector starts with at least
    /// the given capacity.
    pub fn with_capacity(capacity: usize) -> (r: Package)
        ensures
            r@ == Seq::<EntryView>::empty(),
            r.wf(),
    {
        let r = Package { entries: Vec::with_capacity(capacity) };
        proof {
            assert(r@ =~= Seq::<EntryView>::empty());
        }
        r
    }

    /// The position of the entry under `inner_path`, or `None` if no entry
    /// carries that path.
    fn position_of(&self, inner_path: &str) -> (r: Option<usize>)
        ensures
            match r {
                Some(i) => i < self@.len() && self@[i as int].path == inner_path@,
                None => !self.has_path(inner_path@),
            },
    {
        let n = self.entries.len();
        let mut i: usize = 0;
        while i < n
            invariant
                n == self@.len(),
                i <= n,
                forall|j: int| 0 <= j < i ==> self@[j].path != inner_path@,
            decreases n - i,
        {
            if str_eq(self.entries[i].inner_path(), inner_path) {
                return Some(i);
            }
            i += 1;
        }
        None
    }

    /// Adds `entry` at the end, unless its inner path is already taken.
    ///
    /// On a conflict the package is left exactly as it was, and the error
    /// carries the conflicting path.
    pub fn add_entry(&mut self, entry: PackageEntry) -> (r: Result<
        (),
        InnerPathAlreadyExistsError,
    >)
        requires
            old(self).wf(),
            entry.wf(),
        ensures
            final(self).wf(),
            match r {
                Ok(()) => {
                    &&& !old(self).has_path(entry@.path)
                    &&& final(self)@ == old(self)@.push(entry@)
                },
                Err(e) => {
                    &&& old(self).has_path(entry@.path)
                    &&& *final(self) == *old(self)
                    &&& e.0@ == entry@.path
                },
            },
    {
        match self.position_of(entry.inner_path()) {
            Some(_) => Err(InnerPathAlreadyExistsError(String::from_str(entry.inner_path()))),
            None => {
                let ghost prev = self@;
                self.entries.push(entry);
                proof {
                    assert(self@ =~= prev.push(entry@));
                }
                Ok(())
            }
        }
    }

    /// Puts `entry` into the package: an entry already under that path is
    /// replaced in place, keeping its position; otherwise the entry is
    /// appended. Never fails.
    pub fn put_entry(&mut self, entry: PackageEntry)
        requires
            old(self).wf(),
            entry.wf(),
        ensures
            final(self).wf(),
            old(self).has_path(entry@.path) ==> exists|i: int|
                {
                    &&& 0 <= i < old(self)@.len()
                    &&& old(self)@[i].path == entry@.path
                    &&& final(self)@ == old(self)@.update(i, entry@)
                },
            !old(self).has_path(entry@.path) ==> final(self)@ == old(self)@.push(entry@),
    {
        let ghost prev = self@;
        match self.position_of(entry.inner_path()) {
            Some(i) => {
                self.entries.remove(i);
                self.entries.insert(i, entry);
                proof {
                    assert(self@ =~= prev.update(i as int, entry@));
                    assert forall|a: int, b: int| 0 <= a < b < self@.len() implies self@[a].path
                        != self@[b].path by {
                        assert(prev[a].path != prev[b].path);
                    }
                }
            }
            None => {
                self.entries.push(entry);
                proof {
                    assert(self@ =~= prev.push(entry@));
                }
            }
        }
    }

    /// Adds an entry built from a path and text content; fails like
    /// [`Package::add_entry`] when the path is taken.
    pub fn add_entry_from_string(&mut self, inner_path: &str, content: &str) -> (r: Result<
        (),
        InnerPathAlreadyExistsError,
    >)
        requires
            old(self).wf(),
        ensures
            final(self).wf(),
            match r {
                Ok(()) => {
                    &&& !old(self).has_path(inner_path@)
                    &&& final(self)@ == old(self)@.push(
                        EntryView {
                            path: inner_path@,
                            content: Some(vstd::utf8::encode_utf8(content@)),
                        },
                    )
                },
                Err(e) => {
                    &&& old(self).has_path(inner_path@)
                    &&& *final(self) == *old(self)
                    &&& e.0@ == inner_path@
                },
            },
    {
        self.add_entry(PackageEntry::from_string(inner_path, content))
    }

    /// Puts an entry built from a path and text content, like
    /// [`Package::put_entry`].
    pub fn put_entry_from_string(&mut self, inner_path: &str, content: &str)
        requires
            old(self).wf(),
        ensures
            final(self).wf(),
            old(self).has_path(inner_path@) ==> exists|i: int|
                {
                    &&& 0 <= i < old(self)@.len()
                    &&& old(self)@[i].path == inner_path@
                    &&& final(self)@ == old(self)@.update(
                        i,
                        EntryView {
                            path: inner_path@,
                            content: Some(vstd::utf8::encode_utf8(content@)),
                        },
                    )
                },
            !old(self).has_path(inner_path@) ==> final(self)@ == old(self)@.push(
                EntryView { path: inner_path@, content: Some(vstd::utf8::encode_utf8(content@)) },
            ),
    {
        self.put_entry(PackageEntry::from_string(inner_path, content))
    }

    /// A fresh copy of the content stored under `inner_path`, or `None` if
    /// no entry carries that path or its content is a file still on disk.
    pub fn content_by_path(&self, inner_path: &str) -> (r: Option<Vec<u8>>)
        requires
            self.wf(),
        ensures
            match r {
                Some(v) => exists|i: int|
                    {
                        &&& 0 <= i < self@.len()
                        &&& (#[trigger] self@[i]).path == inner_path@
                        &&& self@[i].content == Some(v@)
                    },
                None => forall|i: int| 0 <= i < self@.len() ==> ((#[trigger] self@[i]).path
                    != inner_path@ || self@[i].content is None),
            },
    {
        match self.position_of(inner_path) {
            Some(i) => {
                let r = self.entries[i].content_bytes();
                proof {
                    if r is None {
                        assert forall|j: int| 0 <= j < self@.len() implies ((#[trigger] self@[j]).path
                            != inner_path@ || self@[j].content is None) by {
                            if self@[j].path == inner_path@ && j != i {
                                assert(false);
                            }
                        }
                    }
                }
                r
            }
            None => None,
        }
    }

    /// The content stored under `inner_path` decoded as UTF-8, or `None` if
    /// no entry carries that path, its content is on disk, or its content is
    /// not valid UTF-8.
    pub fn string_content_by_path(&self, inner_path: &str) -> (r: Option<String>)
        requires
            self.wf(),
        ensures
            match r {
                Some(s) => exists|i: int|
                    {
                        &&& 0 <= i < self@.len()
                        &&& (#[trigger] self@[i]).path == inner_path@
                        &&& self@[i].content == Some(vstd::utf8::encode_utf8(s@))
                    },
                None => forall|i: int| 0 <= i < self@.len() ==> ((#[trigger] self@[i]).path
                    != inner_path@ || self@[i].content is None || !vstd::utf8::valid_utf8(
                    self@[i].content->Some_0,
                )),
            },
    {
        match self.position_of(inner_path) {
            Some(i) => {
                let r = self.entries[i].content_string();
                proof {
                    if r is None {
                        assert forall|j: int| 0 <= j < self@.len() implies ((#[trigger] self@[j]).path
                            != inner_path@ || self@[j].content is None || !vstd::utf8::valid_utf8(
                            self@[j].content->Some_0,
                        )) by {
                            if self@[j].path == inner_path@ && j != i as int {
                                assert(false);
                            }
                        }
                    }
                }
                r
            }
            None => None,
        }
    }

    /// Removes the entry under `inner_path`, shifting the entries after it
    /// down by one; linear in the number of entries. Returns whether an
    /// entry was removed.
    pub fn remove_entry(&mut self, inner_path: &str) -> (r: bool)
        requires
            old(self).wf(),
        ensures
            final(self).wf(),
            r == old(self).has_path(inner_path@),
            r ==> exists|i: int|
                {
                    &&& 0 <= i < old(self)@.len()
                    &&& old(self)@[i].path == inner_path@
                    &&& final(self)@ == old(self)@.remove(i)
                },
            !r ==> *final(self) == *old(self),
    {
        let ghost prev = self@;
        match self.position_of(inner_path) {
            Some(i) => {
                self.entries.remove(i);
                proof {
                    assert(self@ =~= prev.remove(i as int));
                    assert forall|a: int, b: int| 0 <= a < b < self@.len() implies self@[a].path
                        != self@[b].path by {
                        let pa = if a < i { a } else { a + 1 };
                        let pb = if b < i { b } else { b + 1 };
                        assert(prev[pa].path != prev[pb].path);
                    }
                }
                true
            }
            None => false,
        }
    }

    /// True if some entry carries `inner_path`.
    pub fn entry_exists(&self, inner_path: &str) -> (r: bool)
        ensures
            r == self.has_path(inner_path@),
    {
        match self.position_of(inner_path) {
            Some(_) => true,
            None => false,
        }
    }

    /// Removes every entry.
    pub fn clear(&mut self)
        ensures
            final(self)@ == Seq::<EntryView>::empty(),
            final(self).wf(),
    {
        self.entries.clear();
        proof {
            assert(self@ =~= Seq::<EntryView>::empty());
        }
    }

    /// The inner paths of all entries, in their stored order.
    pub fn inner_paths(&self) -> (r: Vec<String>)
        ensures
            r@.len() == self@.len(),
            forall|i: int| 0 <= i < r@.len() ==> (#[trigger] r@[i])@ == self@[i].path,
    {
        let n = self.entries.len();
        let mut r: Vec<String> = Vec::with_capacity(n);
        let mut i: usize = 0;
        while i < n
            invariant
                n == self@.len(),
                i <= n,
                r@.len() == i,
                forall|j: int| 0 <= j < i ==> (#[trigger] r@[j])@ == self@[j].path,
            decreases n - i,
        {
            r.push(String::from_str(self.entries[i].inner_path()));
            i += 1;
        }
        r
    }

    /// The number of entries.
    pub fn len(&self) -> (r: usize)
        ensures
            r == self@.len(),
    {
        self.entries.len()
    }

    /// The number of entries.
    pub fn entry_count(&self) -> (r: usize)
        ensures
            r == self@.len(),
    {
        self.entries.len()
    }

    /// The entries themselves, in their stored order.
    pub fn entries(&self) -> (r: &Vec<PackageEntry>)
        ensures
            r@.len() == self@.len(),
            forall|i: int| 0 <= i < r@.len() ==> (#[trigger] r@[i])@ == self@[i],
            self.wf() ==> forall|i: int| 0 <= i < r@.len() ==> (#[trigger] r@[i]).wf(),
    {
        &self.entries
    }

    /// True exactly when every entry's content can be produced without
    /// touching the file system, which the codec writers require.
    pub fn is_all_content_resolved(&self) -> (r: bool)
        ensures
            r == self.all_content_resolved(),
    {
        let n = self.entries.len();
        let mut i: usize = 0;
        while i < n
            invariant
                n == self@.len(),
                i <= n,
                forall|j: int| 0 <= j < i ==> (#[trigger] self@[j]).content is Some,
            decreases n - i,
        {
            if self.entries[i].is_file_backed() {
                assert(self@[i as int].content is None);
                return false;
            }
            i += 1;
        }
        true
    }
}

} // verus!
