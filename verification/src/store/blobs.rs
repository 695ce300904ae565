//! Content-addressed blobs: `blobs/ab/cd/<sha256>`.
//!
//! Every version of every tracked file is held exactly once. Two documents
//! with identical content share one blob, and re-saving a file with no change
//! adds nothing at all, which is what lets the version store sit under a
//! whole corpus without growing without bound.

use crate::error::{Error, ErrorModel, Result};
use crate::text::{chars_of, copy_bytes, part, same_str, string_of, text_from, text_in};
use crate::util::{hex_of, path_join, joined_path, sha256_hex, sha256_of};
use vstd::prelude::*;

verus! {

/// One blob and its address.
#[derive(Debug)]
pub struct Blob {
    pub hash: String,
    pub bytes: Vec<u8>,
}

/// The blobs, in the order in which they were added.
#[derive(Debug)]
pub struct BlobStore {
    pub blobs: Vec<Blob>,
}

/// The content that each address leads to.
pub open spec fn blob_map(blobs: Seq<Blob>) -> Map<Seq<char>, Seq<u8>>
    decreases blobs.len(),
{
    if blobs.len() == 0 {
        Map::empty()
    } else {
        blob_map(blobs.drop_last()).insert(blobs.last().hash@, blobs.last().bytes@)
    }
}

impl View for BlobStore {
    type V = Map<Seq<char>, Seq<u8>>;

    open spec fn view(&self) -> Map<Seq<char>, Seq<u8>> {
        blob_map(self.blobs@)
    }
}

/// The address of some content.
pub open spec fn address_of(bytes: Seq<u8>) -> Seq<char> {
    hex_of(sha256_of(bytes))
}

/// Is every content held under its own address?
pub open spec fn addressed(blobs: Map<Seq<char>, Seq<u8>>) -> bool {
    forall|h: Seq<char>| #[trigger] blobs.dom().contains(h) ==> address_of(blobs[h]) == h
}

/// The blobs after some content has been put in.
pub open spec fn with_blob(
    blobs: Map<Seq<char>, Seq<u8>>,
    bytes: Seq<u8>,
) -> Map<Seq<char>, Seq<u8>> {
    if blobs.dom().contains(address_of(bytes)) {
        blobs
    } else {
        blobs.insert(address_of(bytes), bytes)
    }
}

/// The text under an address.
pub open spec fn blob_text(blobs: Map<Seq<char>, Seq<u8>>, hash: Seq<char>) -> Option<Seq<char>> {
    if blobs.dom().contains(hash) {
        Some(text_in(blobs[hash]))
    } else {
        None
    }
}

/// The file in which a blob is kept below the blobs' directory: two levels of
/// fan-out keep any single directory small.
pub open spec fn blob_path(root: Seq<char>, hash: Seq<char>) -> Seq<char> {
    joined_path(
        joined_path(joined_path(root, hash.subrange(0, 2)), hash.subrange(2, 4)),
        hash,
    )
}

/// The file in which the blob with address `hash` is kept below `root`.
pub fn path_for(root: &str, hash: &str) -> (out: String)
    requires
        hash@.len() >= 4,
    ensures
        out@ == blob_path(root@, hash@),
{
    let h = chars_of(hash);
    let outer = string_of(part(&h, 0, 2));
    let inner = string_of(part(&h, 2, 4));
    let at = path_join(root, outer.as_str());
    let at = path_join(at.as_str(), inner.as_str());
    path_join(at.as_str(), hash)
}

impl BlobStore {
    pub fn new() -> (out: BlobStore)
        ensures
            out@ == Map::<Seq<char>, Seq<u8>>::empty(),
            addressed(out@),
    {
        BlobStore { blobs: Vec::new() }
    }

    fn find(&self, hash: &str) -> (out: Option<&Blob>)
        ensures
            match out {
                Some(b) => self@.dom().contains(hash@) && self@[hash@] == b.bytes@,
                None => !self@.dom().contains(hash@),
            },
    {
        let mut n: usize = self.blobs.len();
        let ghost all = self.blobs@;
        assert(all.take(n as int) =~= all);
        while n > 0
            invariant
                n <= all.len(),
                all == self.blobs@,
                blob_map(all).dom().contains(hash@) == blob_map(all.take(n as int)).dom().contains(
                    hash@,
                ),
                blob_map(all).dom().contains(hash@) ==> blob_map(all)[hash@] == blob_map(
                    all.take(n as int),
                )[hash@],
            decreases n,
        {
            assert(all.take(n as int).drop_last() =~= all.take(n - 1));
            assert(all.take(n as int).last() == all[n - 1]);
            if same_str(self.blobs[n - 1].hash.as_str(), hash) {
                return Some(&self.blobs[n - 1]);
            }
            n -= 1;
        }
        assert(all.take(0) =~= Seq::empty());
        None
    }

    /// Is there content under this address?
    pub fn contains(&self, hash: &str) -> (out: bool)
        ensures
            out == self@.dom().contains(hash@),
    {
        self.find(hash).is_some()
    }

    /// Holds `bytes`, returning its content address. Putting content that is
    /// already present is a no-op, so this is safe to call unconditionally.
    pub fn put(&mut self, bytes: &[u8]) -> (out: String)
        ensures
            out@ == address_of(bytes@),
            final(self)@ == with_blob(old(self)@, bytes@),
            final(self)@.dom().contains(out@),
            addressed(old(self)@) ==> addressed(final(self)@),
    {
        let hash = sha256_hex(bytes);
        if self.contains(hash.as_str()) {
            return hash;
        }
        let ghost before = self.blobs@;
        self.blobs.push(Blob { hash: hash.clone(), bytes: copy_bytes(bytes) });
        assert(self.blobs@.drop_last() =~= before);
        hash
    }

    /// The content under an address.
    pub fn get(&self, hash: &str) -> (out: Result<Vec<u8>>)
        ensures
            match out {
                Ok(bytes) => self@.dom().contains(hash@) && bytes@ == self@[hash@],
                Err(e) => !self@.dom().contains(hash@) && e@ == ErrorModel::NotFound(
                    "blob "@ + hash@,
                ),
            },
    {
        match self.find(hash) {
            Some(b) => Ok(copy_bytes(&b.bytes)),
            None => {
                let mut m = "blob ".to_owned();
                m.append(hash);
                Err(Error::NotFound(m))
            },
        }
    }

    /// The text under an address. Invalid UTF-8 is replaced rather than
    /// refused: a tracked asset should never make the timeline unreadable.
    pub fn get_text(&self, hash: &str) -> (out: Result<String>)
        ensures
            match out {
                Ok(text) => blob_text(self@, hash@) == Some(text@) && text@.len()
                    <= self@[hash@].len(),
                Err(e) => blob_text(self@, hash@) is None && e@ == ErrorModel::NotFound(
                    "blob "@ + hash@,
                ),
            },
    {
        match self.get(hash) {
            Ok(bytes) => Ok(text_from(&bytes)),
            Err(e) => Err(e),
        }
    }

    /// How many bytes the blobs hold in all.
    pub fn total_size(&self) -> (out: u64)
        ensures
            out == crate::diff::hunks::least(total_of(self.blobs@) as int, u64::MAX as int),
    {
        let mut sum: u64 = 0;
        let mut i: usize = 0;
        let ghost all = self.blobs@;
        assert(all.take(0) =~= Seq::empty());
        while i < self.blobs.len()
            invariant
                i <= all.len(),
                all == self.blobs@,
                sum == crate::diff::hunks::least(total_of(all.take(i as int)) as int, u64::MAX as int),
            decreases all.len() - i,
        {
            assert(all.take(i + 1).drop_last() =~= all.take(i as int));
            sum = sum.saturating_add(self.blobs[i].bytes.len() as u64);
            i += 1;
        }
        assert(all.take(i as int) =~= all);
        sum
    }
}

/// The bytes of a list of blobs, counted.
pub open spec fn total_of(blobs: Seq<Blob>) -> nat
    decreases blobs.len(),
{
    if blobs.len() == 0 {
        0
    } else {
        total_of(blobs.drop_last()) + blobs.last().bytes@.len()
    }
}

/// Putting content in loses nothing that was there, and putting it in again
/// changes nothing.
pub proof fn law_put_keeps(blobs: Map<Seq<char>, Seq<u8>>, bytes: Seq<u8>, hash: Seq<char>)
    ensures
        blobs.dom().contains(hash) ==> with_blob(blobs, bytes).dom().contains(hash) && with_blob(
            blobs,
            bytes,
        )[hash] == blobs[hash],
        with_blob(with_blob(blobs, bytes), bytes) == with_blob(blobs, bytes),
        with_blob(blobs, bytes).dom().contains(address_of(bytes)),
{
}

/// What is read under the address of some content has that address: it is the
/// content itself wherever different contents have different addresses.
pub proof fn law_put_then_get(blobs: Map<Seq<char>, Seq<u8>>, bytes: Seq<u8>)
    requires
        addressed(blobs),
    ensures
        addressed(with_blob(blobs, bytes)),
        address_of(with_blob(blobs, bytes)[address_of(bytes)]) == address_of(bytes),
        !blobs.dom().contains(address_of(bytes)) ==> with_blob(blobs, bytes)[address_of(bytes)]
            == bytes,
{
}

} // verus!
