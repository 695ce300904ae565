//! The documents on disk, as far as an operation needs them.
//!
//! An operation is handed the files it may look at, and what it writes is
//! appended. Whoever performs the operation reads the files before it and
//! carries the writes out after it.

use crate::text::{copy_bytes, same_str, text_from, text_in};
use vstd::prelude::*;

verus! {

/// One file.
#[derive(Debug)]
pub struct DiskFile {
    /// Canonical key.
    pub path: String,
    pub bytes: Vec<u8>,
    /// When it was last modified, in milliseconds since the Unix epoch.
    pub mtime: Option<i64>,
}

/// What a file holds.
pub struct FileModel {
    pub bytes: Seq<u8>,
    pub mtime: Option<i64>,
}

/// Files by path. Where a path occurs more than once, the last entry stands.
#[derive(Debug)]
pub struct Disk {
    pub files: Vec<DiskFile>,
}

/// The contents that a list of files amounts to.
pub open spec fn contents_of(files: Seq<DiskFile>) -> Map<Seq<char>, FileModel>
    decreases files.len(),
{
    if files.len() == 0 {
        Map::empty()
    } else {
        contents_of(files.drop_last()).insert(
            files.last().path@,
            FileModel { bytes: files.last().bytes@, mtime: files.last().mtime },
        )
    }
}

impl View for Disk {
    type V = Map<Seq<char>, FileModel>;

    open spec fn view(&self) -> Map<Seq<char>, FileModel> {
        contents_of(self.files@)
    }
}

/// The text at a path, if there is a file.
pub open spec fn text_at(disk: Map<Seq<char>, FileModel>, path: Seq<char>) -> Option<Seq<char>> {
    if disk.dom().contains(path) {
        Some(text_in(disk[path].bytes))
    } else {
        None
    }
}

/// Were files only added? What is written goes behind everything else, so the
/// entries behind the old ones are the writes, in their order.
pub open spec fn appended(before: Disk, after: Disk) -> bool {
    before.files@.is_prefix_of(after.files@)
}

impl Disk {
    pub fn new() -> (out: Disk)
        ensures
            out@ == Map::<Seq<char>, FileModel>::empty(),
    {
        Disk { files: Vec::new() }
    }

    /// The file at a path.
    pub fn find(&self, path: &str) -> (out: Option<&DiskFile>)
        ensures
            match out {
                Some(f) => f.path@ == path@ && self@.dom().contains(path@) && self@[path@] == (
                FileModel { bytes: f.bytes@, mtime: f.mtime }),
                None => !self@.dom().contains(path@),
            },
    {
        let mut n: usize = self.files.len();
        let ghost all = self.files@;
        assert(all.take(n as int) =~= all);
        while n > 0
            invariant
                n <= all.len(),
                all == self.files@,
                contents_of(all).dom().contains(path@) == contents_of(
                    all.take(n as int),
                ).dom().contains(path@),
                contents_of(all).dom().contains(path@) ==> contents_of(all)[path@] == contents_of(
                    all.take(n as int),
                )[path@],
            decreases n,
        {
            assert(all.take(n as int).drop_last() =~= all.take(n - 1));
            assert(all.take(n as int).last() == all[n - 1]);
            if same_str(self.files[n - 1].path.as_str(), path) {
                return Some(&self.files[n - 1]);
            }
            n -= 1;
        }
        assert(all.take(0) =~= Seq::empty());
        None
    }

    /// The text at a path, if there is a file.
    pub fn read_text(&self, path: &str) -> (out: Option<String>)
        ensures
            match out {
                Some(t) => text_at(self@, path@) == Some(t@) && t@.len()
                    <= self@[path@].bytes.len(),
                None => text_at(self@, path@) is None,
            },
    {
        match self.find(path) {
            Some(f) => Some(text_from(&f.bytes)),
            None => None,
        }
    }

    /// Puts content at a path, as of the time `now`.
    pub fn write(&mut self, path: &str, bytes: &[u8], now: i64)
        ensures
            final(self)@ == old(self)@.insert(
                path@,
                (FileModel { bytes: bytes@, mtime: Some(now) }),
            ),
            final(self).files@.len() == old(self).files@.len() + 1,
            final(self).files@.drop_last() == old(self).files@,
            final(self).files@.last().path@ == path@,
            final(self).files@.last().bytes@ == bytes@,
            final(self).files@.last().mtime == Some(now),
    {
        let ghost before = self.files@;
        self.files.push(
            DiskFile { path: path.to_owned(), bytes: copy_bytes(bytes), mtime: Some(now) },
        );
        assert(self.files@.drop_last() =~= before);
    }
}

/// What was written is what is read, and other paths keep what they hold.
pub proof fn law_write_then_read(
    disk: Map<Seq<char>, FileModel>,
    path: Seq<char>,
    text: Seq<char>,
    now: i64,
    other: Seq<char>,
)
    ensures
        ({
            let after = disk.insert(
                path,
                FileModel { bytes: vstd::utf8::encode_utf8(text), mtime: Some(now) },
            );
            &&& text_at(after, path) == Some(text)
            &&& other != path ==> text_at(after, other) == text_at(disk, other)
        }),
{
    crate::text::law_text_round_trip(text);
}

} // verus!
