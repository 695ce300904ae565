//! What agents write, and what artifacts are.

use crate::api::docs::{current_text, read_current, rows_of, summaries};
use crate::api::edit::{edit_proposed, propose_edit};
use crate::api::notices::{
    after_task_write, after_tick, after_write, event_models, task_notices, write_notice,
};
use crate::api::request::Caller;
use crate::api::tasks::{
    tags_of, task_add, task_docs, task_list, task_put, task_set_status, task_ticked, tasks_over,
    StatusWrite,
};
use crate::api::turn::{
    fail, quiet, refused, rendered_in, task_added_in, task_ticked_in, telling, written_in, Answer,
    ReportsView, Turn, World,
};
use crate::api::views::{
    errors_in, prompt_rendered, readable, readable_models, render_prompt, to_validate, totals,
    warnings_in, ReadableModel,
};
use crate::artifact::finding::is_validation;
use crate::artifact::task::{task_models, Filter};
use crate::artifact::validate::{findings_of, validate};
use crate::artifact::Validation;
use crate::config::Config;
use crate::corpus::roots::{places_in, resolve, resolved_in};
use crate::corpus::sandbox::found_models;
use crate::corpus::types::ResolvedModel;
use crate::corpus::typing::type_of;
use crate::corpus::ArtifactType;
use crate::diff::hunks::least;
use crate::disk::{appended, Disk};
use crate::error::ErrorModel;
use crate::json::{Json, JsonModel};
use crate::store::Store;
use crate::text::{lend, opt_view, views};
use crate::version::types::snapshot_models;
use vstd::prelude::*;

verus! {

// ---------------------------------------------------------------------------
// Writing
// ---------------------------------------------------------------------------

pub open spec fn propose_edit_turn(
    prior: Store,
    later: Store,
    old_disk: Disk,
    new_disk: Disk,
    cfg: Config,
    caller: Caller,
    world: World,
    path: Seq<char>,
    content: Option<Seq<char>>,
    patch: Option<Seq<char>>,
    base_version: Option<Seq<char>>,
    intent: Option<Seq<char>>,
    addressing: Option<Seq<char>>,
    t: Turn,
) -> bool {
    match resolved_in(prior, path, found_models(world.found@)) {
        Err(why) => refused(t, why) && later == prior && new_disk == old_disk,
        Ok(at) => {
            &&& t.answer matches Ok(a) ==> a is Written
            &&& edit_proposed(
                prior,
                later,
                old_disk,
                new_disk,
                cfg,
                caller,
                at,
                content,
                patch,
                base_version,
                intent,
                addressing,
                written_in(t),
            )
            &&& event_models(t.events@) == (match written_in(t) {
                Ok(w) => seq![write_notice(w)],
                Err(_) => seq![],
            })
        },
    }
}

pub fn propose_edit_op(
    store: &mut Store,
    disk: &mut Disk,
    cfg: &Config,
    caller: &Caller,
    world: &World,
    path: String,
    content: Option<String>,
    patch: Option<String>,
    base_version: Option<String>,
    intent: Option<String>,
    addressing: Option<String>,
) -> (out: Turn)
    requires
        world.found@.len() == places_in(*old(store), path@).len(),
    ensures
        appended(*old(disk), *final(disk)),
        propose_edit_turn(
            *old(store),
            *final(store),
            *old(disk),
            *final(disk),
            *cfg,
            *caller,
            *world,
            path@,
            opt_view(content),
            opt_view(patch),
            opt_view(base_version),
            opt_view(intent),
            opt_view(addressing),
            out,
        ),
{
    let at = match resolve(store, path.as_str(), &world.found) {
        Ok(at) => at,
        Err(e) => {
            return fail(e);
        },
    };
    match propose_edit(
        store,
        disk,
        cfg,
        caller,
        &at,
        lend(&content),
        lend(&patch),
        lend(&base_version),
        lend(&intent),
        lend(&addressing),
    ) {
        Ok(w) => {
            let event = after_write(&w);
            let out = telling(Ok(Answer::Written(w)), event);
            assert(event_models(out.events@) =~= seq![write_notice(w)]);
            out
        },
        Err(e) => {
            let out = fail(e);
            assert(event_models(out.events@) =~= seq![]);
            out
        },
    }
}

/// The document that tasks are listed of, or what is wrong with its path.
pub open spec fn task_source(
    store: Store,
    world: World,
    doc: Option<Seq<char>>,
) -> std::result::Result<
    Option<ResolvedModel>,
    ErrorModel,
> {
    match doc {
        None => Ok(None),
        Some(path) => match resolved_in(store, path, found_models(world.found@)) {
            Ok(at) => Ok(Some(at)),
            Err(why) => Err(why),
        },
    }
}

pub open spec fn task_list_turn(
    store: Store,
    disk: Disk,
    cfg: Config,
    world: World,
    doc: Option<Seq<char>>,
    filter: Filter,
    t: Turn,
) -> bool {
    match task_source(store, world, doc) {
        Err(why) => refused(t, why),
        Ok(source) => t.answer matches Ok(Answer::Tasks(v)) && task_models(v@) == tasks_over(
            task_docs(store, disk@, source),
            disk@,
            cfg,
            filter,
        ) && t.events@.len() == 0,
    }
}

pub fn task_list_op(
    store: &Store,
    disk: &Disk,
    cfg: &Config,
    world: &World,
    doc: Option<String>,
    filter: Filter,
) -> (out: Turn)
    requires
        opt_view(doc) matches Some(path) ==> world.found@.len() == places_in(*store, path).len(),
    ensures
        task_list_turn(*store, *disk, *cfg, *world, opt_view(doc), filter, out),
{
    match doc {
        Some(path) => match resolve(store, path.as_str(), &world.found) {
            Ok(at) => {
                let found = task_list(store, disk, cfg, Some(&at), &filter);
                quiet(Answer::Tasks(found))
            },
            Err(e) => fail(e),
        },
        None => quiet(Answer::Tasks(task_list(store, disk, cfg, None, &filter))),
    }
}

pub open spec fn task_add_turn(
    prior: Store,
    later: Store,
    old_disk: Disk,
    new_disk: Disk,
    cfg: Config,
    caller: Caller,
    world: World,
    doc: Seq<char>,
    text: Option<Seq<char>>,
    owner: Option<Seq<char>>,
    tags: Seq<Seq<char>>,
    message: Option<Seq<char>>,
    t: Turn,
) -> bool {
    match resolved_in(prior, doc, found_models(world.found@)) {
        Err(why) => refused(t, why) && later == prior && new_disk == old_disk,
        Ok(at) => {
            &&& t.answer matches Ok(a) ==> a is TaskAdded
            &&& task_put(
                prior,
                later,
                old_disk,
                new_disk,
                cfg,
                caller,
                at,
                text,
                owner,
                tags,
                message,
                task_added_in(t),
            )
            &&& event_models(t.events@) == (match task_added_in(t) {
                Ok((w, _)) => task_notices(w),
                Err(_) => seq![],
            })
        },
    }
}

pub fn task_add_op(
    store: &mut Store,
    disk: &mut Disk,
    cfg: &Config,
    caller: &Caller,
    world: &World,
    doc: String,
    text: Option<String>,
    owner: Option<String>,
    tags: Option<Vec<String>>,
    message: Option<String>,
) -> (out: Turn)
    requires
        world.found@.len() == places_in(*old(store), doc@).len(),
    ensures
        appended(*old(disk), *final(disk)),
        task_add_turn(
            *old(store),
            *final(store),
            *old(disk),
            *final(disk),
            *cfg,
            *caller,
            *world,
            doc@,
            opt_view(text),
            opt_view(owner),
            tags_of(tags),
            opt_view(message),
            out,
        ),
{
    let at = match resolve(store, doc.as_str(), &world.found) {
        Ok(at) => at,
        Err(e) => {
            return fail(e);
        },
    };
    match task_add(store, disk, cfg, caller, &at, text, lend(&owner), tags, message) {
        Ok((w, line)) => {
            let events = after_task_write(&w);
            Turn { answer: Ok(Answer::TaskAdded((w, line))), events: events }
        },
        Err(e) => {
            let out = fail(e);
            assert(event_models(out.events@) =~= seq![]);
            out
        },
    }
}

pub open spec fn task_set_status_turn(
    prior: Store,
    later: Store,
    old_disk: Disk,
    new_disk: Disk,
    cfg: Config,
    caller: Caller,
    world: World,
    doc: Seq<char>,
    task_id: Option<Seq<char>>,
    version: Option<Seq<char>>,
    status: Option<Seq<char>>,
    text: Option<Seq<char>>,
    t: Turn,
) -> bool {
    match resolved_in(prior, doc, found_models(world.found@)) {
        Err(why) => refused(t, why) && later == prior && new_disk == old_disk,
        Ok(at) => {
            &&& t.answer matches Ok(a) ==> a is TaskTicked
            &&& task_ticked(
                prior,
                later,
                old_disk,
                new_disk,
                cfg,
                caller,
                at,
                task_id,
                version,
                status,
                text,
                task_ticked_in(t),
            )
            &&& event_models(t.events@) == (match task_ticked_in(t) {
                Ok(StatusWrite::Unchanged { .. }) => seq![],
                Ok(StatusWrite::Written(w)) => task_notices(w),
                Err(_) => seq![],
            })
        },
    }
}

pub fn task_set_status_op(
    store: &mut Store,
    disk: &mut Disk,
    cfg: &Config,
    caller: &Caller,
    world: &World,
    doc: String,
    task_id: Option<String>,
    version: Option<String>,
    status: Option<String>,
    text: Option<String>,
) -> (out: Turn)
    requires
        world.found@.len() == places_in(*old(store), doc@).len(),
    ensures
        appended(*old(disk), *final(disk)),
        task_set_status_turn(
            *old(store),
            *final(store),
            *old(disk),
            *final(disk),
            *cfg,
            *caller,
            *world,
            doc@,
            opt_view(task_id),
            opt_view(version),
            opt_view(status),
            opt_view(text),
            out,
        ),
{
    let at = match resolve(store, doc.as_str(), &world.found) {
        Ok(at) => at,
        Err(e) => {
            return fail(e);
        },
    };
    match task_set_status(store, disk, cfg, caller, &at, task_id, version, status, text) {
        Ok(w) => {
            let events = after_tick(&w);
            Turn { answer: Ok(Answer::TaskTicked(w)), events: events }
        },
        Err(e) => {
            let out = fail(e);
            assert(event_models(out.events@) =~= seq![]);
            out
        },
    }
}

// ---------------------------------------------------------------------------
// Artifacts
// ---------------------------------------------------------------------------

pub open spec fn validate_doc_turn(
    store: Store,
    disk: Disk,
    cfg: Config,
    world: World,
    path: Seq<char>,
    t: Turn,
) -> bool {
    match resolved_in(store, path, found_models(world.found@)) {
        Err(why) => refused(t, why),
        Ok(at) => match current_text(store, disk@, cfg, at.path) {
            Err(why) => refused(t, why),
            Ok(text) => {
                let ty = type_of(at.path, text, at.dirs);
                t.answer matches Ok(Answer::Report(v)) && is_validation(
                    v,
                    at.path,
                    ty,
                    findings_of(at.path, text, ty, world.trees@[0]),
                    store.host@,
                ) && t.events@.len() == 0
            },
        },
    }
}

pub fn validate_doc_op(
    store: &Store,
    disk: &Disk,
    cfg: &Config,
    world: &World,
    path: String,
) -> (out: Turn)
    requires
        world.found@.len() == places_in(*store, path@).len(),
        world.trees@.len() > 0,
    ensures
        validate_doc_turn(*store, *disk, *cfg, *world, path@, out),
{
    let at = match resolve(store, path.as_str(), &world.found) {
        Ok(at) => at,
        Err(e) => {
            return fail(e);
        },
    };
    let text = match read_current(store, disk, cfg, &at) {
        Ok(text) => text,
        Err(e) => {
            return fail(e);
        },
    };
    let report = validate(
        at.path.as_str(),
        text.as_str(),
        &at.dirs,
        &world.trees[0],
        &store.host,
    );
    quiet(Answer::Report(report))
}

/// The documents of a type that can be validated.
pub open spec fn validated_docs(
    store: Store,
    disk: Disk,
    cfg: Config,
    ty: ArtifactType,
) -> Seq<ReadableModel> {
    readable(
        summaries(
            store,
            disk@,
            rows_of(snapshot_models(store.snapshots@), store.host.drives),
            None,
            Some(ty),
        ),
        disk@,
        cfg,
    )
}

/// Is it the report on a document, given what stands around it?
pub open spec fn is_report(
    v: Validation,
    doc: ReadableModel,
    store: Store,
    world: World,
    i: int,
) -> bool {
    let ty = type_of(doc.path, doc.text, views(world.siblings@[i]@));
    is_validation(
        v,
        doc.path,
        ty,
        findings_of(doc.path, doc.text, ty, world.trees@[i]),
        store.host@,
    )
}

pub open spec fn validate_all_turn(
    store: Store,
    disk: Disk,
    cfg: Config,
    world: World,
    ty: ArtifactType,
    t: Turn,
) -> bool {
    let docs = validated_docs(store, disk, cfg, ty);
    t.answer matches Ok(Answer::Reports(v)) && v.reports@.len() == docs.len() && (forall|i: int|
        0 <= i < docs.len() ==> is_report(#[trigger] v.reports@[i], docs[i], store, world, i))
        && v.errors == least(errors_in(v.reports@) as int, usize::MAX as int) && v.warnings
        == least(warnings_in(v.reports@) as int, usize::MAX as int) && t.events@.len() == 0
}

pub fn validate_all_op(
    store: &Store,
    disk: &Disk,
    cfg: &Config,
    world: &World,
    ty: ArtifactType,
) -> (out: Turn)
    requires
        world.trees@.len() == validated_docs(*store, *disk, *cfg, ty).len(),
        world.siblings@.len() == world.trees@.len(),
    ensures
        validate_all_turn(*store, *disk, *cfg, *world, ty, out),
{
    let docs = to_validate(store, disk, cfg, ty);
    let ghost all = readable_models(docs@);
    let mut reports: Vec<Validation> = Vec::new();
    let mut i: usize = 0;
    while i < docs.len()
        invariant
            i <= docs@.len(),
            all == readable_models(docs@),
            world.trees@.len() == docs@.len(),
            world.siblings@.len() == docs@.len(),
            reports@.len() == i,
            forall|k: int|
                0 <= k < i ==> is_report(#[trigger] reports@[k], all[k], *store, *world, k),
        decreases docs@.len() - i,
    {
        let v = validate(
            docs[i].path.as_str(),
            docs[i].text.as_str(),
            &world.siblings[i],
            &world.trees[i],
            &store.host,
        );
        assert(is_report(v, all[i as int], *store, *world, i as int));
        reports.push(v);
        i += 1;
    }
    let (errors, warnings) = totals(&reports);
    quiet(Answer::Reports(ReportsView { reports: reports, errors: errors, warnings: warnings }))
}

pub open spec fn render_prompt_turn(
    store: Store,
    disk: Disk,
    cfg: Config,
    world: World,
    path: Seq<char>,
    variables: Option<JsonModel>,
    t: Turn,
) -> bool {
    match resolved_in(store, path, found_models(world.found@)) {
        Err(why) => refused(t, why),
        Ok(at) => {
            &&& t.events@.len() == 0
            &&& t.answer matches Ok(a) ==> a is Rendered
            &&& prompt_rendered(store, disk, cfg, at, variables, rendered_in(t))
        },
    }
}

pub fn render_prompt_op(
    store: &Store,
    disk: &Disk,
    cfg: &Config,
    world: &World,
    path: String,
    variables: Option<Json>,
) -> (out: Turn)
    requires
        world.found@.len() == places_in(*store, path@).len(),
    ensures
        render_prompt_turn(
            *store,
            *disk,
            *cfg,
            *world,
            path@,
            crate::api::request::opt_model(variables),
            out,
        ),
{
    let at = match resolve(store, path.as_str(), &world.found) {
        Ok(at) => at,
        Err(e) => {
            return fail(e);
        },
    };
    match render_prompt(store, disk, cfg, &at, variables) {
        Ok(r) => quiet(Answer::Rendered(r)),
        Err(e) => fail(e),
    }
}

} // verus!
