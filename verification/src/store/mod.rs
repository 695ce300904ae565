//! The private store: an index beside content-addressed blobs.
//!
//! The tables are held as lists, in the order in which their rows were added.
//! On disk (under the platform's local data directory by default) they are:
//!
//! ```text
//! store.db     the index: roots, snapshots, proposals, comments
//! blobs/       content-addressed: blobs/ab/cd/<sha256>
//! token        random secret for the local socket
//! ipc.json     {port, token}: how the MCP bridge finds a running app
//! ```

pub mod blobs;
pub mod clients;

use crate::comment::Comment;
use crate::corpus::{PathPolicy, Root};
use crate::error::{Error, ErrorModel, Result};
use crate::instrumentation::{is_enabled, UsageEvent};
use crate::proposal::Proposal;
use crate::text::{
    among, byte_len, bytes_in, chars_of, contains, is_among, lower_of, lowercase, occurs,
    opt_str_view, opt_view, same_str,
    string_of, trim, trim_of, views,
};
use crate::util::{is_hex_digit, joined_path, path_join, random_suffix, Host, HostModel};
use crate::version::Snapshot;
use blobs::BlobStore;
use clients::{Client, RateEvent};
use vstd::prelude::*;

verus! {

/// Everything that is kept.
#[derive(Debug)]
pub struct Store {
    /// Where the store lives.
    pub dir: String,
    /// The system that the documents live on.
    pub host: Host,
    /// Settings by key. Where a key occurs more than once, the last stands.
    pub meta: Vec<(String, String)>,
    pub blobs: BlobStore,
    pub roots: Vec<Root>,
    pub path_policies: Vec<PathPolicy>,
    pub snapshots: Vec<Snapshot>,
    pub proposals: Vec<Proposal>,
    pub comments: Vec<Comment>,
    pub clients: Vec<Client>,
    pub rate_events: Vec<RateEvent>,
    pub usage_events: Vec<UsageEvent>,
}

/// The settings that a list of entries amounts to.
pub open spec fn meta_map(entries: Seq<(String, String)>) -> Map<Seq<char>, Seq<char>>
    decreases entries.len(),
{
    if entries.len() == 0 {
        Map::empty()
    } else {
        meta_map(entries.drop_last()).insert(entries.last().0@, entries.last().1@)
    }
}

/// The value of a setting.
pub open spec fn setting(meta: Map<Seq<char>, Seq<char>>, key: Seq<char>) -> Option<Seq<char>> {
    if meta.dom().contains(key) {
        Some(meta[key])
    } else {
        None
    }
}

/// The names that betray a folder which is synchronised with a cloud.
pub open spec fn cloud_names() -> Seq<Seq<char>> {
    seq![
        "dropbox"@,
        "onedrive"@,
        "google drive"@,
        "googledrive"@,
        "icloud"@,
        "sync.com"@,
        "box sync"@,
    ]
}

/// The first of the names, from the given one on, that occurs in a text.
pub open spec fn first_name_in(text: Seq<char>, names: Seq<Seq<char>>) -> Option<Seq<char>>
    decreases names.len(),
{
    if names.len() == 0 {
        None
    } else if occurs(text, names[0]) {
        Some(names[0])
    } else {
        first_name_in(text, names.skip(1))
    }
}

/// The cloud that a directory seems to be synchronised with.
pub open spec fn cloud_hit_of(dir: Seq<char>) -> Option<Seq<char>> {
    first_name_in(lower_of(dir), cloud_names())
}

/// The cloud that a directory seems to be synchronised with. A database in
/// such a folder gets corrupted, so the reader is warned.
pub fn cloud_hit(dir: &str) -> (out: Option<&'static str>)
    ensures
        (match out {
            Some(name) => Some(name@),
            None => None,
        }) == cloud_hit_of(dir@),
{
    let lowered = lowercase(dir);
    let text = chars_of(lowered.as_str());
    let names: [&'static str; 7] = [
        "dropbox",
        "onedrive",
        "google drive",
        "googledrive",
        "icloud",
        "sync.com",
        "box sync",
    ];
    let ghost all = cloud_names();
    let mut i: usize = 0;
    assert(all.skip(0) =~= all);
    while i < 7
        invariant
            i <= 7,
            names@.len() == 7,
            all == cloud_names(),
            text@ == lower_of(dir@),
            forall|k: int| 0 <= k < 7 ==> (#[trigger] names@[k])@ == all[k],
            cloud_hit_of(dir@) == first_name_in(text@, all.skip(i as int)),
        decreases 7 - i,
    {
        assert(all.skip(i as int).skip(1) =~= all.skip(i + 1));
        let name: &'static str = names[i];
        if contains(&text, &chars_of(name)) {
            return Some(name);
        }
        i += 1;
    }
    None
}

/// `prefix_` with `n` hexadecimal digits behind it.
pub open spec fn id_of_form(id: Seq<char>, prefix: Seq<char>, n: nat) -> bool {
    &&& id.len() == prefix.len() + 1 + n
    &&& id.take((prefix.len() + 1) as int) == prefix + "_"@
    &&& forall|i: int| prefix.len() + 1 <= i < id.len() ==> is_hex_digit(#[trigger] id[i])
}

/// An identifier such as the store hands out.
pub open spec fn is_id(id: Seq<char>, prefix: Seq<char>) -> bool {
    id_of_form(id, prefix, 4) || id_of_form(id, prefix, 12)
}

/// Are identifiers of both lengths taken? Only then can none be found.
pub open spec fn crowded(taken: Seq<Seq<char>>, prefix: Seq<char>) -> bool {
    &&& exists|i: int| 0 <= i < taken.len() && id_of_form(#[trigger] taken[i], prefix, 4)
    &&& exists|i: int| 0 <= i < taken.len() && id_of_form(#[trigger] taken[i], prefix, 12)
}

/// The identifier with a given suffix, unless it is taken.
pub fn free_id(taken: &[String], prefix: &str, suffix: &str) -> (out: Option<String>)
    ensures
        match out {
            Some(id) => id@ == prefix@ + "_"@ + suffix@ && !among(views(taken@), id@),
            None => among(views(taken@), prefix@ + "_"@ + suffix@),
        },
{
    let mut id = prefix.to_owned();
    id.append("_");
    id.append(suffix);
    if is_among(taken, id.as_str()) {
        None
    } else {
        Some(id)
    }
}

/// The store that was asked for by name, unless the name is blank.
pub open spec fn asked_dir(asked: Option<Seq<char>>, home: Option<Seq<char>>) -> Option<Seq<char>> {
    match asked {
        Some(a) if trim_of(a).len() > 0 => Some(crate::util::tilde_of(a, home)),
        _ => None,
    }
}

/// The directory `Folio` among the user's local data.
pub open spec fn usual_dir(data: Option<Seq<char>>) -> Seq<char> {
    joined_path(
        match data {
            Some(d) => d,
            None => "."@,
        },
        "Folio"@,
    )
}

/// The store that was asked for by name, if one was. The difference matters to
/// a bridge: told nothing, it follows whichever app is running; told a store,
/// it uses that one.
pub fn store_dir_override(asked: Option<&str>, home: Option<&str>) -> (out: Option<String>)
    ensures
        opt_view(out) == asked_dir(opt_str_view(asked), opt_str_view(home)),
{
    match asked {
        Some(a) => {
            if trim(&chars_of(a)).len() > 0 {
                Some(crate::util::expand_tilde(a, home))
            } else {
                None
            }
        },
        None => None,
    }
}

/// Where the data is kept when nobody says otherwise.
pub fn standard_store_dir(data: Option<&str>) -> (out: String)
    ensures
        out@ == usual_dir(opt_str_view(data)),
{
    match data {
        Some(d) => path_join(d, "Folio"),
        None => path_join(".", "Folio"),
    }
}

/// Where the store lives.
pub fn default_store_dir(asked: Option<&str>, data: Option<&str>, home: Option<&str>) -> (out: String)
    ensures
        out@ == (match asked_dir(opt_str_view(asked), opt_str_view(home)) {
            Some(dir) => dir,
            None => usual_dir(opt_str_view(data)),
        }),
{
    match store_dir_override(asked, home) {
        Some(dir) => dir,
        None => standard_store_dir(data),
    }
}

/// Is a text that was found in the token file fit for use?
pub open spec fn token_fits(found: Seq<char>) -> bool {
    byte_len(trim_of(found)) >= 32
}

/// The token that authenticates the local socket: the one found, or a new one
/// of 48 hexadecimal digits, which is then to be kept.
pub fn ipc_token(found: Option<&str>) -> (out: (String, bool))
    ensures
        match found {
            Some(f) if token_fits(f@) => out.0@ == trim_of(f@) && !out.1,
            _ => out.1 && out.0@.len() == 48 && forall|i: int|
                0 <= i < 48 ==> is_hex_digit(#[trigger] out.0@[i]),
        },
{
    if let Some(f) = found {
        let chars = chars_of(f);
        let trimmed = string_of(trim(&chars));
        if bytes_in(trimmed.as_str()) >= 32 {
            return (trimmed, false);
        }
    }
    (random_suffix(48), true)
}

impl Store {
    /// An empty store for a directory, with two settings: the version of its
    /// schema, and the cloud that the directory seems to be synchronised with.
    /// Nobody has opted in to instrumentation.
    pub fn open(dir: &str, home: Option<&str>) -> (out: Store)
        ensures
            out.dir@ == dir@,
            out.host@ == (HostModel { home: opt_str_view(home), drives: false }),
            meta_map(out.meta@) == Map::<Seq<char>, Seq<char>>::empty().insert(
                "schema_version"@,
                "2"@,
            ).insert(
                "cloud_sync_warning"@,
                match cloud_hit_of(dir@) {
                    Some(name) => name,
                    None => ""@,
                },
            ),
            !is_enabled(meta_map(out.meta@)),
            out.blobs@ == Map::<Seq<char>, Seq<u8>>::empty(),
            out.roots@.len() == 0,
            out.path_policies@.len() == 0,
            out.snapshots@.len() == 0,
            out.proposals@.len() == 0,
            out.comments@.len() == 0,
            out.clients@.len() == 0,
            out.rate_events@.len() == 0,
            out.usage_events@.len() == 0,
    {
        let mut store = Store {
            dir: dir.to_owned(),
            host: Host::new(home, false),
            meta: Vec::new(),
            blobs: BlobStore::new(),
            roots: Vec::new(),
            path_policies: Vec::new(),
            snapshots: Vec::new(),
            proposals: Vec::new(),
            comments: Vec::new(),
            clients: Vec::new(),
            rate_events: Vec::new(),
            usage_events: Vec::new(),
        };
        store.set_meta("schema_version", "2");
        match cloud_hit(dir) {
            Some(name) => store.set_meta("cloud_sync_warning", name),
            None => store.set_meta("cloud_sync_warning", ""),
        }
        proof {
            reveal_strlit("schema_version");
            reveal_strlit("cloud_sync_warning");
            reveal_strlit("instrumentation.enabled");
            assert("schema_version"@.len() != "cloud_sync_warning"@.len());
            assert("schema_version"@.len() != "instrumentation.enabled"@.len());
            assert("cloud_sync_warning"@.len() != "instrumentation.enabled"@.len());
        }
        store
    }

    /// Where the store lives.
    pub fn dir(&self) -> (out: &str)
        ensures
            out@ == self.dir@,
    {
        self.dir.as_str()
    }

    /// The contents that are kept.
    pub fn blobs(&self) -> (out: &BlobStore)
        ensures
            *out == self.blobs,
    {
        &self.blobs
    }

    /// The value of a setting.
    pub fn get_meta(&self, key: &str) -> (out: Option<String>)
        ensures
            opt_view(out) == setting(meta_map(self.meta@), key@),
    {
        let mut n: usize = self.meta.len();
        let ghost all = self.meta@;
        assert(all.take(n as int) =~= all);
        while n > 0
            invariant
                n <= all.len(),
                all == self.meta@,
                setting(meta_map(all), key@) == setting(meta_map(all.take(n as int)), key@),
            decreases n,
        {
            assert(all.take(n as int).drop_last() =~= all.take(n - 1));
            assert(all.take(n as int).last() == all[n - 1]);
            if same_str(self.meta[n - 1].0.as_str(), key) {
                return Some(self.meta[n - 1].1.clone());
            }
            n -= 1;
        }
        assert(all.take(0) =~= Seq::empty());
        None
    }

    /// Gives a setting a value.
    pub fn set_meta(&mut self, key: &str, value: &str)
        ensures
            meta_map(final(self).meta@) == meta_map(old(self).meta@).insert(key@, value@),
            *final(self) == (Store { meta: final(self).meta, ..*old(self) }),
    {
        let ghost before = self.meta@;
        self.meta.push((key.to_owned(), value.to_owned()));
        assert(self.meta@.drop_last() =~= before);
    }

    /// The cloud that the store's folder seems to be synchronised with.
    pub fn cloud_sync_warning(&self) -> (out: Option<String>)
        ensures
            opt_view(out) == (match setting(
                meta_map(self.meta@),
                "cloud_sync_warning"@,
            ) {
                Some(s) if s.len() > 0 => Some(s),
                _ => None,
            }),
    {
        match self.get_meta("cloud_sync_warning") {
            Some(s) => {
                if chars_of(s.as_str()).len() > 0 {
                    Some(s)
                } else {
                    None
                }
            },
            None => None,
        }
    }

    /// Bytes the store occupies: an index of `index_bytes`, and the blobs.
    pub fn size_bytes(&self, index_bytes: u64) -> (out: u64)
        ensures
            out == crate::diff::hunks::least(
                index_bytes + crate::diff::hunks::least(
                    blobs::total_of(self.blobs.blobs@) as int,
                    u64::MAX as int,
                ),
                u64::MAX as int,
            ),
    {
        index_bytes.saturating_add(self.blobs.total_size())
    }

    /// Allocates a short, quotable identifier (`prop_8f3a`) that is not taken.
    /// Widens the suffix rather than looping forever if the space is crowded.
    pub fn alloc_id(taken: &[String], prefix: &str) -> (out: Result<String>)
        ensures
            match out {
                Ok(id) => is_id(id@, prefix@) && !among(views(taken@), id@),
                Err(e) => crowded(views(taken@), prefix@) && e@ == ErrorModel::Other(
                    "could not allocate a unique "@ + prefix@ + " id"@,
                ),
            },
            taken@.len() == 0 ==> out is Ok && id_of_form(out->Ok_0@, prefix@, 4),
    {
        let ghost names = views(taken@);
        let mut attempt: usize = 0;
        while attempt < 40
            invariant
                attempt <= 40,
                taken@.len() == 0 ==> attempt == 0,
                names == views(taken@),
                attempt > 0 ==> exists|i: int|
                    0 <= i < names.len() && id_of_form(#[trigger] names[i], prefix@, 4),
                attempt > 24 ==> exists|i: int|
                    0 <= i < names.len() && id_of_form(#[trigger] names[i], prefix@, 12),
            decreases 40 - attempt,
        {
            let width: usize = if attempt < 24 {
                4
            } else {
                12
            };
            let suffix = random_suffix(width);
            let ghost drawn = prefix@ + "_"@ + suffix@;
            proof {
                reveal_strlit("_");
                assert(drawn.take((prefix@.len() + 1) as int) =~= prefix@ + "_"@);
                assert forall|i: int| prefix@.len() + 1 <= i < drawn.len() implies is_hex_digit(
                    #[trigger] drawn[i],
                ) by {
                    assert(drawn[i] == suffix@[i - prefix@.len() - 1]);
                }
                assert(id_of_form(drawn, prefix@, width as nat));
            }
            if let Some(id) = free_id(taken, prefix, suffix.as_str()) {
                return Ok(id);
            }
            proof {
                let k = choose|k: int| 0 <= k < names.len() && names[k] == drawn;
                assert(id_of_form(names[k], prefix@, width as nat));
            }
            attempt += 1;
        }
        let mut m = "could not allocate a unique ".to_owned();
        m.append(prefix);
        m.append(" id");
        Err(Error::Other(m))
    }
}

/// What was set is what is read, and other settings keep their values.
pub proof fn law_meta_round_trip(
    meta: Map<Seq<char>, Seq<char>>,
    key: Seq<char>,
    value: Seq<char>,
    other: Seq<char>,
)
    ensures
        setting(meta.insert(key, value), key) == Some(value),
        other != key ==> setting(meta.insert(key, value), other) == setting(meta, other),
{
}

} // verus!
