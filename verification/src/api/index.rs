//! Indexing: recording what a root holds.

use crate::comment::threads::dated;
use crate::config::Config;
use crate::corpus::roots::{added_earlier, list_roots};
use crate::corpus::types::{root_models, Resolved, ResolvedModel, RootModel};
use crate::corpus::typing::{is_markdown_path, markdown_path};
use crate::corpus::{Root, RootKind};
use crate::diff::hunks::least;
use crate::disk::{Disk, FileModel};
use crate::error::{Error, ErrorModel, Result};
use crate::order::sorted;
use crate::store::blobs::address_of;
use crate::store::Store;
use crate::text::{copy_texts, views};
use crate::util::{same_key, HostModel};
use crate::version::record::{
    fresh_or_none, record_result, records_as, unchanged, window_of, RequestModel,
};
use crate::version::restore::{lemma_in_window, record_from_disk, request_of};
use crate::version::types::{snapshot_models, SnapshotModel, Source};
use vstd::prelude::*;

verus! {

/// A file that a walk of a root came across.
#[derive(Debug)]
pub struct WalkedFile {
    /// Canonical key.
    pub path: String,
    /// Names of the directories beside it.
    pub dirs: Vec<String>,
}

/// What a walk came across.
pub struct WalkedModel {
    pub path: Seq<char>,
    pub dirs: Seq<Seq<char>>,
}

impl View for WalkedFile {
    type V = WalkedModel;

    open spec fn view(&self) -> WalkedModel {
        WalkedModel { path: self.path@, dirs: views(self.dirs@) }
    }
}

pub open spec fn walked_models(files: Seq<WalkedFile>) -> Seq<WalkedModel> {
    Seq::new(files.len(), |i: int| files[i]@)
}

/// Does a root keep the history of a file? A directory keeps that of its
/// markdown; a root that is a file keeps its own, whatever it is.
pub open spec fn tracks(kind: RootKind, path: Seq<char>) -> bool {
    kind == RootKind::File || markdown_path(path)
}

/// Does a root keep the history of a file?
pub fn is_tracked(kind: RootKind, path: &str) -> (out: bool)
    ensures
        out == tracks(kind, path@),
{
    kind == RootKind::File || is_markdown_path(path)
}

/// The identifier and the time under which one file is recorded.
pub struct Step {
    pub id: std::result::Result<Seq<char>, ErrorModel>,
    pub now: i64,
    pub iso: Seq<char>,
}

/// How a store looks after an indexing run, and what the run answers.
pub struct Indexed {
    pub snapshots: Seq<SnapshotModel>,
    pub blobs: Map<Seq<char>, Seq<u8>>,
    pub out: std::result::Result<nat, ErrorModel>,
}

/// The request with which a walked file is recorded.
pub open spec fn index_request(root: RootModel, f: WalkedModel, file: FileModel) -> RequestModel {
    request_of(
        ResolvedModel { root: root, path: f.path, dirs: f.dirs },
        file.bytes,
        Source::External,
        None,
        None,
        None,
        file.mtime,
    )
}

/// One more file. One that is too large, or that vanished, does not end the
/// run.
pub open spec fn index_step(
    was: Indexed,
    host: HostModel,
    cfg: Config,
    root: RootModel,
    disk: Map<Seq<char>, FileModel>,
    f: WalkedModel,
    step: Step,
) -> Indexed {
    if was.out is Err || !takes_part(root, disk, f) {
        was
    } else {
        let want = record_result(
            was.snapshots,
            was.blobs,
            host,
            cfg,
            index_request(root, f, disk[f.path]),
            step.id,
            step.now,
            step.iso,
        );
        Indexed {
            snapshots: want.0,
            blobs: want.1,
            out: match want.2 {
                Ok((_, created)) => if created {
                    Ok((was.out->Ok_0 + 1) as nat)
                } else {
                    was.out
                },
                Err(ErrorModel::TooLarge(_)) => was.out,
                Err(ErrorModel::Io(_)) => was.out,
                Err(e) => Err(e),
            },
        }
    }
}

/// The files one after the other.
pub open spec fn index_run(
    start: Indexed,
    host: HostModel,
    cfg: Config,
    root: RootModel,
    disk: Map<Seq<char>, FileModel>,
    files: Seq<WalkedModel>,
    steps: Seq<Step>,
) -> Indexed
    decreases files.len(),
{
    if files.len() == 0 {
        start
    } else {
        index_step(
            index_run(start, host, cfg, root, disk, files.drop_last(), steps),
            host,
            cfg,
            root,
            disk,
            files.last(),
            steps[files.len() - 1],
        )
    }
}

/// Does a file take part in a run: is it tracked, and still there?
pub open spec fn takes_part(
    root: RootModel,
    disk: Map<Seq<char>, FileModel>,
    f: WalkedModel,
) -> bool {
    tracks(root.kind, f.path) && disk.dom().contains(f.path)
}

/// Are the identifiers new, and do the times have their dates?
pub open spec fn proper_steps(
    start: Indexed,
    host: HostModel,
    cfg: Config,
    root: RootModel,
    disk: Map<Seq<char>, FileModel>,
    files: Seq<WalkedModel>,
    steps: Seq<Step>,
) -> bool {
    forall|i: int|
        0 <= i < steps.len() && takes_part(root, disk, files[i]) ==> dated(
            (#[trigger] steps[i]).now,
            steps[i].iso,
        ) && fresh_or_none(
            index_run(start, host, cfg, root, disk, files.take(i), steps).snapshots,
            steps[i].id,
        )
}

/// A run that starts with a store.
pub open spec fn from_store(store: Store) -> Indexed {
    Indexed {
        snapshots: snapshot_models(store.snapshots@),
        blobs: store.blobs@,
        out: Ok(0),
    }
}


proof fn lemma_run_prefix(
    start: Indexed,
    host: HostModel,
    cfg: Config,
    root: RootModel,
    disk: Map<Seq<char>, FileModel>,
    files: Seq<WalkedModel>,
    steps: Seq<Step>,
    more: Seq<Step>,
)
    requires
        forall|i: int| 0 <= i < files.len() ==> #[trigger] steps[i] == more[i],
    ensures
        index_run(start, host, cfg, root, disk, files, steps) == index_run(
            start,
            host,
            cfg,
            root,
            disk,
            files,
            more,
        ),
    decreases files.len(),
{
    if files.len() > 0 {
        lemma_run_prefix(start, host, cfg, root, disk, files.drop_last(), steps, more);
        assert(steps[files.len() - 1] == more[files.len() - 1]);
    }
}

/// One more proper step.
proof fn lemma_one_more(
    start: Indexed,
    host: HostModel,
    cfg: Config,
    root: RootModel,
    disk: Map<Seq<char>, FileModel>,
    files: Seq<WalkedModel>,
    steps: Seq<Step>,
    step: Step,
)
    requires
        steps.len() < files.len(),
        proper_steps(start, host, cfg, root, disk, files, steps),
        takes_part(root, disk, files[steps.len() as int]) ==> dated(step.now, step.iso)
            && fresh_or_none(
            index_run(
                start,
                host,
                cfg,
                root,
                disk,
                files.take(steps.len() as int),
                steps,
            ).snapshots,
            step.id,
        ),
    ensures
        proper_steps(start, host, cfg, root, disk, files, steps.push(step)),
        index_run(
            start,
            host,
            cfg,
            root,
            disk,
            files.take((steps.len() + 1) as int),
            steps.push(step),
        ) == index_step(
            index_run(start, host, cfg, root, disk, files.take(steps.len() as int), steps),
            host,
            cfg,
            root,
            disk,
            files[steps.len() as int],
            step,
        ),
{
    let more = steps.push(step);
    assert forall|i: int|
        0 <= i < more.len() && takes_part(root, disk, files[i]) implies dated(
        (#[trigger] more[i]).now,
        more[i].iso,
    ) && fresh_or_none(
        index_run(start, host, cfg, root, disk, files.take(i), more).snapshots,
        more[i].id,
    ) by {
        lemma_run_prefix(start, host, cfg, root, disk, files.take(i), steps, more);
        if i < steps.len() {
            assert(steps[i] == more[i]);
        }
    }
    let n = steps.len() as int;
    assert(files.take(n + 1).drop_last() =~= files.take(n));
    lemma_run_prefix(start, host, cfg, root, disk, files.take(n), steps, more);
}

/// A step that records nothing.
pub open spec fn idle_step() -> Step {
    Step {
        id: Err(crate::comment::threads::no_id("snap"@)),
        now: 0,
        iso: Seq::empty(),
    }
}

/// Is this how a run over some files ends? It stops at the first file that
/// fails for any other reason than its size or its absence.
pub open spec fn runs(
    was: Store,
    is: Store,
    cfg: Config,
    root: RootModel,
    disk: Map<Seq<char>, FileModel>,
    files: Seq<WalkedModel>,
    steps: Seq<Step>,
    out: Result<usize>,
) -> bool {
    let host = was.host@;
    let end = index_run(
        from_store(was),
        host,
        cfg,
        root,
        disk,
        files.take(steps.len() as int),
        steps,
    );
    &&& proper_steps(from_store(was), host, cfg, root, disk, files, steps)
    &&& snapshot_models(is.snapshots@) == end.snapshots
    &&& is.blobs@ == end.blobs
    &&& match out {
        Ok(n) => steps.len() == files.len() && end.out == Ok::<nat, ErrorModel>(n as nat),
        Err(e) => 0 < steps.len() <= files.len() && end.out == Err::<nat, ErrorModel>(e@),
    }
}

/// Is this how the files of a root are recorded?
pub open spec fn root_indexed(
    prior: Store,
    later: Store,
    disk: Disk,
    cfg: Config,
    root: RootModel,
    files: Seq<WalkedFile>,
    out: Result<usize>,
) -> bool {
    &&& exists|steps: Seq<Step>| #[trigger]
            runs(
                prior,
                later,
                cfg,
                root,
                disk@,
                walked_models(files),
                steps,
                out,
            )
    &&& later == (Store {
        snapshots: later.snapshots,
        blobs: later.blobs,
        ..prior
    })
}

/// Records everything that a walk of a root came across and that is not
/// already recorded, and says how many files that were. Cheap on a second run:
/// unchanged files hash to the version already stored and write nothing.
pub fn index_root(
    store: &mut Store,
    disk: &Disk,
    cfg: &Config,
    root: &Root,
    files: &[WalkedFile],
) -> (out: Result<usize>)
    ensures
        root_indexed(
            *old(store),
            *final(store),
            *disk,
            *cfg,
            root@,
            files@,
            out,
        ),
{
    let ghost all = walked_models(files@);
    let ghost start = from_store(*store);
    let ghost host = store.host@;
    let ghost mut steps = Seq::<Step>::empty();
    let mut count: usize = 0;
    let mut i: usize = 0;
    while i < files.len()
        invariant
            i <= files@.len(),
            count <= i,
            all == walked_models(files@),
            start == from_store(*old(store)),
            host == old(store).host@,
            steps.len() == i,
            proper_steps(start, host, *cfg, root@, disk@, all, steps),
            index_run(start, host, *cfg, root@, disk@, all.take(i as int), steps) == (Indexed {
                snapshots: snapshot_models(store.snapshots@),
                blobs: store.blobs@,
                out: Ok(count as nat),
            }),
            *store == (Store {
                snapshots: store.snapshots,
                blobs: store.blobs,
                ..*old(store)
            }),
        decreases files@.len() - i,
    {
        let f = &files[i];
        let ghost was = index_run(start, host, *cfg, root@, disk@, all.take(i as int), steps);
        assert(all[i as int] == f@);
        if !is_tracked(root.kind, f.path.as_str()) || disk.find(f.path.as_str()).is_none() {
            proof {
                lemma_one_more(start, host, *cfg, root@, disk@, all, steps, idle_step());
                steps = steps.push(idle_step());
            }
        } else {
            let at = Resolved {
                root: root.copy(),
                path: f.path.clone(),
                dirs: copy_texts(&f.dirs),
            };
            assert(at@ == ResolvedModel { root: root@, path: f@.path, dirs: f@.dirs });
            let ghost before = snapshot_models(store.snapshots@);
            let ghost blobs = store.blobs@;
            let outcome = record_from_disk(
                store,
                disk,
                cfg,
                &at,
                Source::External,
                None,
                None,
                None,
            );
            proof {
                let req = index_request(root@, f@, disk@[f@.path]);
                let (id, now, iso): (
                    std::result::Result<Seq<char>, ErrorModel>,
                    i64,
                    Seq<char>,
                ) = choose|id: std::result::Result<Seq<char>, ErrorModel>, now: i64, iso: Seq<char>|
                    ({
                        let want = #[trigger] record_result(
                            before,
                            blobs,
                            host,
                            *cfg,
                            req,
                            id,
                            now,
                            iso,
                        );
                        &&& fresh_or_none(before, id)
                        &&& dated(now, iso)
                        &&& snapshot_models(store.snapshots@) == want.0
                        &&& store.blobs@ == want.1
                        &&& records_as(outcome, want.2)
                    });
                let step = Step { id: id, now: now, iso: iso };
                lemma_one_more(start, host, *cfg, root@, disk@, all, steps, step);
                steps = steps.push(step);
            }
            match outcome {
                Ok(o) => {
                    if o.created {
                        count += 1;
                    }
                },
                Err(e) => {
                    let skip = match &e {
                        Error::TooLarge(_) => true,
                        Error::Io(_) => true,
                        _ => false,
                    };
                    if !skip {
                        let out: Result<usize> = Err(e);
                        assert(runs(*old(store), *store, *cfg, root@, disk@, all, steps, out));
                        return out;
                    }
                },
            }
        }
        i += 1;
    }
    let out: Result<usize> = Ok(count);
    assert(runs(*old(store), *store, *cfg, root@, disk@, all, steps, out));
    out
}

/// The sum of some counts.
pub open spec fn sum_of(counts: Seq<usize>) -> nat
    decreases counts.len(),
{
    if counts.len() == 0 {
        0
    } else {
        sum_of(counts.drop_last()) + counts.last() as nat
    }
}

/// Does each root, one after the other, take the store from one state to the
/// next?
pub open spec fn each_indexed(
    states: Seq<Store>,
    disk: Disk,
    cfg: Config,
    roots: Seq<RootModel>,
    walks: Seq<Vec<WalkedFile>>,
    counts: Seq<usize>,
) -> bool {
    &&& states.len() == counts.len() + 1
    &&& forall|i: int|
        0 <= i < counts.len() ==> root_indexed(
            #[trigger] states[i],
            states[i + 1],
            disk,
            cfg,
            roots[i],
            walks[i]@,
            Ok(counts[i]),
        )
}

/// Is this how the whole corpus is recorded? A root that fails ends it.
pub open spec fn corpus_indexed(
    prior: Store,
    later: Store,
    disk: Disk,
    cfg: Config,
    walks: Seq<Vec<WalkedFile>>,
    states: Seq<Store>,
    counts: Seq<usize>,
    out: Result<usize>,
) -> bool {
    let roots = sorted(root_models(prior.roots@), added_earlier());
    &&& each_indexed(states, disk, cfg, roots, walks, counts)
    &&& states[0] == prior
    &&& match out {
        Ok(n) => counts.len() == roots.len() && states.last() == later && n == least(
            sum_of(counts) as int,
            usize::MAX as int,
        ),
        Err(e) => counts.len() < roots.len() && root_indexed(
            states.last(),
            later,
            disk,
            cfg,
            roots[counts.len() as int],
            walks[counts.len() as int]@,
            Err(e),
        ),
    }
}

/// Records everything in the corpus that is not already recorded. There is one
/// walk for each root, in the order in which the roots are listed.
pub fn index_all(store: &mut Store, disk: &Disk, cfg: &Config, walks: &[Vec<WalkedFile>]) -> (out:
    Result<usize>)
    requires
        walks@.len() == old(store).roots@.len(),
    ensures
        exists|states: Seq<Store>, counts: Seq<usize>| #[trigger]
            corpus_indexed(
                *old(store),
                *final(store),
                *disk,
                *cfg,
                walks@,
                states,
                counts,
                out,
            ),
{
    let roots = list_roots(store);
    let ghost all = root_models(roots@);
    let ghost mut states = seq![*store];
    let ghost mut counts = Seq::<usize>::empty();
    proof {
        crate::order::lemma_sorted_multiset(root_models(store.roots@), added_earlier());
    }
    let mut total: usize = 0;
    let mut i: usize = 0;
    while i < roots.len()
        invariant
            i <= roots@.len(),
            walks@.len() == roots@.len(),
            all == root_models(roots@),
            all == sorted(root_models(old(store).roots@), added_earlier()),
            counts.len() == i,
            each_indexed(states, *disk, *cfg, all, walks@, counts),
            states[0] == *old(store),
            states.last() == *store,
            total == least(sum_of(counts) as int, usize::MAX as int),
        decreases roots@.len() - i,
    {
        let ghost was = *store;
        assert(all[i as int] == roots@[i as int]@);
        match index_root(store, disk, cfg, &roots[i], &walks[i]) {
            Ok(n) => {
                proof {
                    let before = states;
                    let had = counts;
                    states = states.push(*store);
                    counts = counts.push(n);
                    assert(counts.drop_last() =~= had);
                    assert forall|k: int| 0 <= k < counts.len() implies root_indexed(
                        #[trigger] states[k],
                        states[k + 1],
                        *disk,
                        *cfg,
                        all[k],
                        walks@[k]@,
                        Ok(counts[k]),
                    ) by {
                        if k < had.len() {
                            assert(before[k] == states[k]);
                            assert(before[k + 1] == states[k + 1]);
                        }
                    }
                }
                total = total.saturating_add(n);
            },
            Err(e) => {
                let out: Result<usize> = Err(e);
                assert(corpus_indexed(
                    *old(store),
                    *store,
                    *disk,
                    *cfg,
                    walks@,
                    states,
                    counts,
                    out,
                ));
                return out;
            },
        }
        i += 1;
    }
    let out: Result<usize> = Ok(total);
    assert(corpus_indexed(*old(store), *store, *disk, *cfg, walks@, states, counts, out));
    out
}

/// Indexing again right away finds nothing to do: where every tracked file's
/// newest version has what is on disk, a run changes nothing and counts none,
/// provided no file is too large to be kept.
pub proof fn law_index_is_idempotent(
    start: Indexed,
    host: HostModel,
    cfg: Config,
    root: RootModel,
    disk: Map<Seq<char>, FileModel>,
    files: Seq<WalkedModel>,
    steps: Seq<Step>,
)
    requires
        start.out is Ok,
        forall|i: int|
            0 <= i < files.len() && tracks(root.kind, (#[trigger] files[i]).path)
                && disk.dom().contains(files[i].path) ==> disk[files[i].path].bytes.len()
                <= cfg.max_blob_bytes && unchanged(
                start.snapshots,
                index_request(root, files[i], disk[files[i].path]),
                host.drives,
            ) is Some,
    ensures
        index_run(start, host, cfg, root, disk, files, steps) == start,
    decreases files.len(),
{
    if files.len() > 0 {
        let d = files.drop_last();
        assert forall|i: int|
            0 <= i < d.len() && tracks(root.kind, (#[trigger] d[i]).path) && disk.dom().contains(
                d[i].path,
            ) implies disk[d[i].path].bytes.len() <= cfg.max_blob_bytes
            && unchanged(
            start.snapshots,
            index_request(root, d[i], disk[d[i].path]),
            host.drives,
        ) is Some by {
            assert(files[i] == d[i]);
        }
        law_index_is_idempotent(start, host, cfg, root, disk, d, steps);
        assert(files[files.len() - 1] == files.last());
    }
}

/// Has some version of a document this content?
pub open spec fn holds_content(
    s: Seq<SnapshotModel>,
    path: Seq<char>,
    content: Seq<u8>,
    any_case: bool,
) -> bool {
    exists|k: int|
        0 <= k < s.len() && same_key((#[trigger] s[k]).path, path, any_case) && s[k].blob_hash
            == address_of(content)
}

/// What is recorded is there afterwards, and so is everything before.
proof fn lemma_recorded(
    was: Seq<SnapshotModel>,
    blobs: Map<Seq<char>, Seq<u8>>,
    host: HostModel,
    cfg: Config,
    req: RequestModel,
    id: std::result::Result<Seq<char>, ErrorModel>,
    now: i64,
    iso: Seq<char>,
)
    ensures
        ({
            let after = record_result(was, blobs, host, cfg, req, id, now, iso);
            &&& was.is_prefix_of(after.0)
            &&& after.2 matches Ok((_, created)) ==> holds_content(
                after.0,
                req.resolved.path,
                req.content,
                host.drives,
            ) && after.0.len() == was.len() + (if created {
                1int
            } else {
                0int
            })
            &&& after.2 is Err ==> after.0 == was
        }),
{
    let after = record_result(was, blobs, host, cfg, req, id, now, iso);
    crate::version::history::law_newest(was, req.resolved.path, host.drives);
    assert(was.subrange(0, was.len() as int) =~= was);
    if let Ok((s, created)) = after.2 {
        if created {
            assert(after.0.subrange(0, was.len() as int) =~= was);
            assert(after.0[was.len() as int] == s);
        } else if unchanged(was, req, host.drives) is None {
            lemma_in_window(
                was,
                req.resolved.path,
                address_of(req.content),
                window_of(now, cfg) as i64,
                host.drives,
            );
        }
    }
}

proof fn lemma_still_holds(
    a: Seq<SnapshotModel>,
    b: Seq<SnapshotModel>,
    path: Seq<char>,
    content: Seq<u8>,
    any_case: bool,
)
    requires
        a.is_prefix_of(b),
        holds_content(a, path, content, any_case),
    ensures
        holds_content(b, path, content, any_case),
{
    let k = choose|k: int|
        0 <= k < a.len() && same_key((#[trigger] a[k]).path, path, any_case) && a[k].blob_hash
            == address_of(content);
    assert(b.subrange(0, a.len() as int)[k] == b[k]);
}

/// Indexing misses nothing: after a run that succeeds, every markdown file that
/// was walked, and every file that is a root by itself, has a version with what
/// it holds on disk, unless it was gone or too large. No version is lost, and
/// the run counts the versions that it added.
pub proof fn law_index_records_every_file(
    start: Indexed,
    host: HostModel,
    cfg: Config,
    root: RootModel,
    disk: Map<Seq<char>, FileModel>,
    files: Seq<WalkedModel>,
    steps: Seq<Step>,
)
    requires
        start.out is Ok,
        index_run(start, host, cfg, root, disk, files, steps).out is Ok,
        forall|i: int| 0 <= i < files.len() ==> (#[trigger] steps[i]).id is Ok,
    ensures
        ({
            let after = index_run(start, host, cfg, root, disk, files, steps);
            &&& start.snapshots.is_prefix_of(after.snapshots)
            &&& after.out->Ok_0 - start.out->Ok_0 == after.snapshots.len() - start.snapshots.len()
            &&& forall|i: int|
                0 <= i < files.len() && (root.kind == RootKind::File || markdown_path(
                    (#[trigger] files[i]).path,
                )) && disk.dom().contains(files[i].path) && disk[files[i].path].bytes.len()
                    <= cfg.max_blob_bytes ==> holds_content(
                    after.snapshots,
                    files[i].path,
                    disk[files[i].path].bytes,
                    host.drives,
                )
        }),
    decreases files.len(),
{
    if files.len() == 0 {
        assert(start.snapshots.subrange(0, start.snapshots.len() as int) =~= start.snapshots);
    } else {
        let d = files.drop_last();
        let n = files.len() - 1;
        let f = files.last();
        let was = index_run(start, host, cfg, root, disk, d, steps);
        let after = index_run(start, host, cfg, root, disk, files, steps);
        assert(was.out is Ok);
        law_index_records_every_file(start, host, cfg, root, disk, d, steps);
        let step = steps[n];
        if takes_part(root, disk, f) {
            let req = index_request(root, f, disk[f.path]);
            lemma_recorded(
                was.snapshots,
                was.blobs,
                host,
                cfg,
                req,
                step.id,
                step.now,
                step.iso,
            );
        } else {
            assert(after == was);
            assert(was.snapshots.subrange(0, was.snapshots.len() as int) =~= was.snapshots);
        }
        assert(was.snapshots.is_prefix_of(after.snapshots));
        assert(start.snapshots.is_prefix_of(after.snapshots)) by {
            let m = start.snapshots.len() as int;
            assert(after.snapshots.subrange(0, m) =~= was.snapshots.subrange(0, m)) by {
                assert forall|k: int| 0 <= k < m implies after.snapshots.subrange(0, m)[k]
                    == was.snapshots.subrange(0, m)[k] by {
                    assert(after.snapshots.subrange(0, was.snapshots.len() as int)[k]
                        == was.snapshots[k]);
                }
            }
        }
        assert forall|i: int|
            0 <= i < files.len() && (root.kind == RootKind::File || markdown_path(
                (#[trigger] files[i]).path,
            )) && disk.dom().contains(files[i].path) && disk[files[i].path].bytes.len()
                <= cfg.max_blob_bytes implies holds_content(
            after.snapshots,
            files[i].path,
            disk[files[i].path].bytes,
            host.drives,
        ) by {
            if i < n {
                assert(d[i] == files[i]);
                lemma_still_holds(
                    was.snapshots,
                    after.snapshots,
                    files[i].path,
                    disk[files[i].path].bytes,
                    host.drives,
                );
            } else {
                assert(takes_part(root, disk, f));
            }
        }
    }
}

} // verus!
