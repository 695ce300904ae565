//! Registered roots and the write policies of their paths.

use super::glob::{
    bad_glob, check_glob, glob_hits, glob_match_of, glob_problem_of, matches_either,
};
use super::sandbox::{
    found_models, places, places_of, relative_of, relative_to_root, resolution, resolve_within,
    resolves_as, Found, FoundModel,
};
use super::types::{
    path_policy_models, resolved_policy, root_models, ArtifactType, PathPolicy, PathPolicyModel,
    Policy, Resolved, ResolvedModel, Root, RootKind, RootModel,
};
use crate::comment::threads::no_id;
use crate::error::{Error, ErrorModel, Result};
use crate::order::{sorted, stable_sort};
use crate::store::{crowded, is_id, Store};
use crate::table::{lemma_place, listed, place_of};
use crate::text::{
    among, chars_of, opt_str_view, opt_view, push_text, same_str, split, split_on, string_of, trim,
    trim_of, views,
};
use crate::util::{
    display_of, display_path, expand_tilde, is_under, now_ms, tilde_of, under, Host, HostModel,
    slashed,
};
use vstd::prelude::*;

verus! {

pub open spec fn root_ids(roots: Seq<RootModel>) -> Seq<Seq<char>> {
    Seq::new(roots.len(), |i: int| roots[i].id)
}

/// What a reader is told who asks for a root that is not there.
pub open spec fn no_root(id: Seq<char>) -> ErrorModel {
    ErrorModel::NotFound("root "@ + id)
}

fn missing(id: &str) -> (out: Error)
    ensures
        out@ == no_root(id@),
{
    let mut m = "root ".to_owned();
    m.append(id);
    Error::NotFound(m)
}

fn find(roots: &[Root], id: &str) -> (out: usize)
    ensures
        out == place_of(root_ids(root_models(roots@)), id@),
        out <= roots@.len(),
{
    let ghost ids = root_ids(root_models(roots@));
    let mut i: usize = 0;
    while i < roots.len() && !same_str(roots[i].id.as_str(), id)
        invariant
            i <= roots@.len(),
            ids == root_ids(root_models(roots@)),
            forall|k: int| 0 <= k < i ==> #[trigger] ids[k] != id@,
        decreases roots@.len() - i,
    {
        i += 1;
    }
    proof {
        lemma_place(ids, id@, i as int);
    }
    i
}

/// Roots that were added earlier first.
pub open spec fn added_earlier() -> spec_fn(RootModel, RootModel) -> bool {
    |a: RootModel, b: RootModel| a.added_at <= b.added_at
}

fn added_no_later(a: &Root, b: &Root) -> (out: bool)
    ensures
        out == (a.added_at <= b.added_at),
{
    a.added_at <= b.added_at
}

/// The registered roots, oldest first.
pub fn list_roots(store: &Store) -> (out: Vec<Root>)
    ensures
        root_models(out@) == sorted(root_models(store.roots@), added_earlier()),
{
    let ghost all = root_models(store.roots@);
    let mut copied: Vec<Root> = Vec::new();
    let mut i: usize = 0;
    while i < store.roots.len()
        invariant
            i <= store.roots@.len(),
            all == root_models(store.roots@),
            root_models(copied@) == all.take(i as int),
        decreases store.roots@.len() - i,
    {
        let r = store.roots[i].copy();
        let ghost before = copied@;
        copied.push(r);
        assert(root_models(copied@) =~= root_models(before).push(r@));
        assert(all.take(i + 1) =~= all.take(i as int).push(all[i as int]));
        i += 1;
    }
    assert(all.take(i as int) =~= all);
    let ghost unsorted = copied@;
    let ghost rel = |a: Root, b: Root| a.added_at <= b.added_at;
    let out = stable_sort(copied, added_no_later, Ghost(rel));
    proof {
        let f = |r: Root| r@;
        crate::order::lemma_sorted_map(unsorted, f, rel, added_earlier());
        assert(root_models(unsorted) =~= unsorted.map_values(f));
        assert(root_models(out@) =~= out@.map_values(f));
    }
    out
}

/// The root with an identifier.
pub fn get_root(store: &Store, id: &str) -> (out: Result<Root>)
    ensures
        ({
            let all = root_models(store.roots@);
            match out {
                Ok(r) => listed(root_ids(all), id@) && r@ == all[place_of(root_ids(all), id@)],
                Err(e) => !listed(root_ids(all), id@) && e@ == no_root(id@),
            }
        }),
{
    let at: usize = find(&store.roots, id);
    if at < store.roots.len() {
        Ok(store.roots[at].copy())
    } else {
        Err(missing(id))
    }
}

/// The file name at the end of a path, unless that is `..` or nothing.
pub open spec fn last_name(pieces: Seq<Seq<char>>) -> Option<Seq<char>>
    decreases pieces.len(),
{
    if pieces.len() == 0 || pieces.last() == ".."@ {
        None
    } else if pieces.last() == ""@ || pieces.last() == "."@ {
        last_name(pieces.drop_last())
    } else {
        Some(pieces.last())
    }
}

/// The names that a path is made of. With `drives` a backslash separates them
/// too, and a drive is none of them.
pub open spec fn names_in(path: Seq<char>, drives: bool) -> Seq<Seq<char>> {
    if !drives {
        split_on(path, '/')
    } else if path.len() >= 2 && path[1] == ':' {
        split_on(slashed(path.skip(2)), '/')
    } else {
        split_on(slashed(path), '/')
    }
}

/// The names that a path is made of.
fn path_names(path: &str, drives: bool) -> (out: Vec<String>)
    ensures
        views(out@) == names_in(path@, drives),
{
    let chars = chars_of(path);
    if !drives {
        return split(&chars, '/');
    }
    let from: usize = if chars.len() >= 2 && chars[1] == ':' {
        2
    } else {
        0
    };
    let ghost rest = path@.skip(from as int);
    let ghost goal = slashed(rest);
    assert(from == 0 ==> rest =~= path@);
    let mut plain: Vec<char> = Vec::new();
    let mut i: usize = from;
    while i < chars.len()
        invariant
            from <= i <= chars@.len(),
            chars@ == path@,
            rest == path@.skip(from as int),
            goal == slashed(rest),
            plain@ == goal.take(i - from),
        decreases chars@.len() - i,
    {
        if chars[i] == '\\' {
            plain.push('/');
        } else {
            plain.push(chars[i]);
        }
        assert(goal.take(i - from + 1) =~= goal.take(i - from).push(goal[i - from]));
        i += 1;
    }
    assert(plain@ =~= goal);
    split(&plain, '/')
}

fn name_at_end(path: &str, drives: bool) -> (out: Option<String>)
    ensures
        opt_view(out) == last_name(names_in(path@, drives)),
{
    let pieces = path_names(path, drives);
    let ghost all = views(pieces@);
    let mut n: usize = pieces.len();
    assert(all.take(n as int) =~= all);
    while n > 0
        invariant
            n <= pieces@.len(),
            all == views(pieces@),
            all == names_in(path@, drives),
            last_name(all) == last_name(all.take(n as int)),
        decreases n,
    {
        assert(all.take(n as int).drop_last() =~= all.take(n - 1));
        assert(all.take(n as int).last() == all[n - 1]);
        let piece = pieces[n - 1].as_str();
        if same_str(piece, "..") {
            return None;
        }
        if !same_str(piece, "") && !same_str(piece, ".") {
            return Some(piece.to_owned());
        }
        n -= 1;
    }
    None
}

/// What a root is called: the label asked for unless it is blank, else the
/// name of the file or directory, else its key.
pub open spec fn label_of(
    asked: Option<Seq<char>>,
    expanded: Seq<char>,
    key: Seq<char>,
    drives: bool,
) -> Seq<char> {
    match asked {
        Some(l) if trim_of(l).len() > 0 => l,
        _ => match last_name(names_in(expanded, drives)) {
            Some(name) => name,
            None => key,
        },
    }
}

/// The complaint about a new root that lies in another or holds one, by the
/// first of the roots that it clashes with.
pub open spec fn nesting(
    roots: Seq<RootModel>,
    key: Seq<char>,
    host: HostModel,
) -> Option<Seq<char>>
    decreases roots.len(),
{
    if roots.len() == 0 {
        None
    } else if under(roots[0].path, key, host.drives) {
        Some(display_of(key, host) + " is already covered by the root "@ + roots[0].display)
    } else if under(key, roots[0].path, host.drives) {
        Some(
            display_of(key, host) + " contains the existing root "@ + roots[0].display
                + "; remove that one first"@,
        )
    } else {
        nesting(roots.skip(1), key, host)
    }
}

fn clash(roots: &[Root], key: &str, host: &Host) -> (out: Option<String>)
    ensures
        opt_view(out) == nesting(root_models(roots@), key@, host@),
{
    let ghost all = root_models(roots@);
    let mut i: usize = 0;
    assert(all.skip(0) =~= all);
    while i < roots.len()
        invariant
            i <= roots@.len(),
            all == root_models(roots@),
            nesting(all, key@, host@) == nesting(
                all.skip(i as int),
                key@,
                host@,
            ),
        decreases roots@.len() - i,
    {
        assert(all.skip(i as int)[0] == all[i as int]);
        assert(all.skip(i as int).skip(1) =~= all.skip(i + 1));
        if is_under(roots[i].path.as_str(), key, host.drives) {
            let mut m = display_path(key, host);
            m.append(" is already covered by the root ");
            m.append(roots[i].display.as_str());
            return Some(m);
        }
        if is_under(key, roots[i].path.as_str(), host.drives) {
            let mut m = display_path(key, host);
            m.append(" contains the existing root ");
            m.append(roots[i].display.as_str());
            m.append("; remove that one first");
            return Some(m);
        }
        i += 1;
    }
    None
}

/// A file or directory that was found: its key and what it is.
#[derive(Debug)]
pub struct Place {
    pub key: String,
    pub is_dir: bool,
}

fn ids_of(roots: &[Root]) -> (out: Vec<String>)
    ensures
        views(out@) == root_ids(root_models(roots@)),
{
    let mut out: Vec<String> = Vec::new();
    let ghost ids = root_ids(root_models(roots@));
    let mut i: usize = 0;
    while i < roots.len()
        invariant
            i <= roots@.len(),
            ids == root_ids(root_models(roots@)),
            views(out@) == ids.take(i as int),
        decreases roots@.len() - i,
    {
        push_text(&mut out, roots[i].id.clone());
        assert(ids.take(i + 1) =~= ids.take(i as int).push(ids[i as int]));
        i += 1;
    }
    assert(ids.take(i as int) =~= ids);
    out
}

/// What a new root is turned down for, if anything.
pub open spec fn refusal(
    roots: Seq<RootModel>,
    input: Seq<char>,
    host: HostModel,
    place: Option<Seq<char>>,
) -> Option<ErrorModel> {
    match place {
        None => Some(
            ErrorModel::NotFound(tilde_of(trim_of(input), host.home) + " does not exist"@),
        ),
        Some(key) => match nesting(sorted(roots, added_earlier()), key, host) {
            Some(m) => Some(ErrorModel::Invalid(m)),
            None => None,
        },
    }
}

/// Is this how a root is registered?
pub open spec fn root_added(
    prior: Store,
    later: Store,
    input: Seq<char>,
    policy: Policy,
    label: Option<Seq<char>>,
    place: Option<Place>,
    out: Result<Root>,
) -> bool {
    &&& ({
        let was = root_models(prior.roots@);
        let is = root_models(later.roots@);
        let host = prior.host@;
        let key = match place {
            Some(p) => Some(p.key@),
            None => None,
        };
        match out {
            Ok(r) => {
                &&& refusal(was, input, host, key) is None
                &&& is == was.push(r@)
                &&& is_id(r@.id, "root"@) && !among(root_ids(was), r@.id)
                &&& place matches Some(p) && r@ == (RootModel {
                    id: r@.id,
                    path: p.key@,
                    display: display_of(p.key@, host),
                    kind: if p.is_dir {
                        RootKind::Dir
                    } else {
                        RootKind::File
                    },
                    policy: policy,
                    label: label_of(
                        label,
                        tilde_of(trim_of(input), host.home),
                        p.key@,
                        host.drives,
                    ),
                    added_at: r@.added_at,
                })
            },
            Err(e) => {
                &&& later.roots == prior.roots
                &&& match refusal(was, input, host, key) {
                    Some(why) => e@ == why,
                    None => crowded(root_ids(was), "root"@) && e@ == no_id("root"@),
                }
            },
        }
    })
    &&& later == (Store { roots: later.roots, ..prior })
}

/// A root as it is first kept.
pub open spec fn new_root(
    id: Seq<char>,
    input: Seq<char>,
    policy: Policy,
    label: Option<Seq<char>>,
    place: Place,
    host: HostModel,
    now: i64,
) -> RootModel {
    RootModel {
        id: id,
        path: place.key@,
        display: display_of(place.key@, host),
        kind: if place.is_dir {
            RootKind::Dir
        } else {
            RootKind::File
        },
        policy: policy,
        label: label_of(label, tilde_of(trim_of(input), host.home), place.key@, host.drives),
        added_at: now,
    }
}

/// Registers a root as of a moment, under an identifier if one could be found,
/// given what was found at the path that `input` means. Nesting one root
/// inside another would double-watch and double-snapshot, so it is refused.
pub fn add_root_at(
    store: &mut Store,
    input: &str,
    policy: Policy,
    label: Option<&str>,
    place: Option<Place>,
    id: Result<String>,
    now: i64,
) -> (out: Result<Root>)
    ensures
        ({
            let was = root_models(old(store).roots@);
            let host = old(store).host@;
            let key = match place {
                Some(p) => Some(p.key@),
                None => None,
            };
            match (refusal(was, input@, host, key), id) {
                (Some(why), _) => out matches Err(e) && e@ == why && *final(store) == *old(store),
                (None, Err(cause)) => out == Err::<Root, Error>(cause) && *final(store) == *old(
                    store,
                ),
                (None, Ok(name)) => {
                    let r = new_root(
                        name@,
                        input@,
                        policy,
                        opt_str_view(label),
                        place->Some_0,
                        host,
                        now,
                    );
                    &&& out matches Ok(root) && root@ == r
                    &&& root_models(final(store).roots@) == was.push(r)
                },
            }
        }),
        *final(store) == (Store { roots: final(store).roots, ..*old(store) }),
{
    let trimmed = string_of(trim(&chars_of(input)));
    let expanded = expand_tilde(trimmed.as_str(), store.host.home());
    let place = match place {
        Some(p) => p,
        None => {
            let mut m = expanded;
            m.append(" does not exist");
            return Err(Error::NotFound(m));
        },
    };
    if let Some(m) = clash(&list_roots(store), place.key.as_str(), &store.host) {
        return Err(Error::Invalid(m));
    }
    let asked = match label {
        Some(l) => trim(&chars_of(l)).len() > 0,
        None => false,
    };
    let name = match (label, asked) {
        (Some(l), true) => l.to_owned(),
        _ => match name_at_end(expanded.as_str(), store.host.drives) {
            Some(n) => n,
            None => place.key.clone(),
        },
    };
    let id = match id {
        Ok(id) => id,
        Err(e) => {
            return Err(e);
        },
    };
    let root = Root {
        id: id,
        display: display_path(place.key.as_str(), &store.host),
        path: place.key,
        kind: if place.is_dir {
            RootKind::Dir
        } else {
            RootKind::File
        },
        policy: policy,
        label: name,
        added_at: now,
    };
    let out = root.copy();
    let ghost was = root_models(store.roots@);
    store.roots.push(root);
    assert(root_models(store.roots@) =~= was.push(out@));
    Ok(out)
}

/// Registers a root now.
pub fn add_root(
    store: &mut Store,
    input: &str,
    policy: Policy,
    label: Option<&str>,
    place: Option<Place>,
) -> (out: Result<Root>)
    ensures
        root_added(
            *old(store),
            *final(store),
            input@,
            policy,
            opt_str_view(label),
            place,
            out,
        ),
{
    let taken = ids_of(&store.roots);
    let id = Store::alloc_id(&taken, "root");
    let now = now_ms();
    add_root_at(store, input, policy, label, place, id, now)
}

/// The policies that do not belong to a root.
pub open spec fn policies_without(p: Seq<PathPolicyModel>, root_id: Seq<char>) -> Seq<
    PathPolicyModel,
>
    decreases p.len(),
{
    if p.len() == 0 {
        Seq::empty()
    } else if p.last().root_id == root_id {
        policies_without(p.drop_last(), root_id)
    } else {
        policies_without(p.drop_last(), root_id).push(p.last())
    }
}

fn copy_policy(p: &PathPolicy) -> (out: PathPolicy)
    ensures
        out@ == p@,
{
    PathPolicy {
        id: p.id.clone(),
        root_id: p.root_id.clone(),
        pattern: p.pattern.clone(),
        policy: p.policy,
    }
}

/// Is this how a root is taken out of the corpus?
pub open spec fn root_removed(
    prior: Store,
    later: Store,
    id: Seq<char>,
    out: Result<()>,
) -> bool {
    &&& ({
        let was = root_models(prior.roots@);
        let at = place_of(root_ids(was), id);
        if at < was.len() {
            &&& out is Ok
            &&& root_models(later.roots@) == was.remove(at)
            &&& path_policy_models(later.path_policies@) == policies_without(
                path_policy_models(prior.path_policies@),
                id,
            )
        } else {
            &&& out matches Err(e) && e@ == no_root(id)
            &&& later == prior
        }
    })
    &&& later == (Store {
        roots: later.roots,
        path_policies: later.path_policies,
        ..prior
    })
}

/// Forgets a root and its path policies. History is kept: the snapshots stay
/// in the store, so re-adding the root re-attaches its timeline instead of
/// starting over.
pub fn remove_root(store: &mut Store, id: &str) -> (out: Result<()>)
    ensures
        root_removed(
            *old(store),
            *final(store),
            id@,
            out,
        ),
{
    let at: usize = find(&store.roots, id);
    if at >= store.roots.len() {
        return Err(missing(id));
    }
    let ghost all = path_policy_models(store.path_policies@);
    let mut kept: Vec<PathPolicy> = Vec::new();
    let mut i: usize = 0;
    assert(path_policy_models(kept@) =~= policies_without(all.take(0), id@));
    while i < store.path_policies.len()
        invariant
            i <= store.path_policies@.len(),
            *store == *old(store),
            all == path_policy_models(store.path_policies@),
            path_policy_models(kept@) == policies_without(all.take(i as int), id@),
        decreases store.path_policies@.len() - i,
    {
        assert(all.take(i + 1).drop_last() =~= all.take(i as int));
        if !same_str(store.path_policies[i].root_id.as_str(), id) {
            let p = copy_policy(&store.path_policies[i]);
            let ghost before = kept@;
            kept.push(p);
            assert(path_policy_models(kept@) =~= path_policy_models(before).push(p@));
        }
        i += 1;
    }
    assert(all.take(i as int) =~= all);
    let ghost was = root_models(store.roots@);
    let _ = store.roots.remove(at);
    assert(root_models(store.roots@) =~= was.remove(at as int));
    store.path_policies = kept;
    Ok(())
}

/// Is this how a root gets another policy?
pub open spec fn root_policy_set(
    prior: Store,
    later: Store,
    id: Seq<char>,
    policy: Policy,
    out: Result<Root>,
) -> bool {
    &&& ({
        let was = root_models(prior.roots@);
        let at = place_of(root_ids(was), id);
        if at < was.len() {
            let set = RootModel { policy: policy, ..was[at] };
            &&& out matches Ok(r) && r@ == set
            &&& root_models(later.roots@) == was.update(at, set)
        } else {
            &&& out matches Err(e) && e@ == no_root(id)
            &&& later == prior
        }
    })
    &&& later == (Store { roots: later.roots, ..prior })
}

/// Gives a root another write policy.
pub fn set_root_policy(store: &mut Store, id: &str, policy: Policy) -> (out: Result<Root>)
    ensures
        root_policy_set(
            *old(store),
            *final(store),
            id@,
            policy,
            out,
        ),
{
    let at: usize = find(&store.roots, id);
    if at >= store.roots.len() {
        return Err(missing(id));
    }
    let ghost was = root_models(store.roots@);
    let mut r = store.roots[at].copy();
    r.policy = policy;
    let out = r.copy();
    store.roots.set(at, r);
    assert(root_models(store.roots@) =~= was.update(at as int, out@));
    Ok(out)
}

// ---------------------------------------------------------------------------
// Path policies
// ---------------------------------------------------------------------------

pub open spec fn policy_ids(p: Seq<PathPolicyModel>) -> Seq<Seq<char>> {
    Seq::new(p.len(), |i: int| p[i].id)
}

/// The policies apart from one root's policy for one pattern.
pub open spec fn policies_apart(
    p: Seq<PathPolicyModel>,
    root_id: Seq<char>,
    pattern: Seq<char>,
) -> Seq<PathPolicyModel>
    decreases p.len(),
{
    if p.len() == 0 {
        Seq::empty()
    } else if p.last().root_id == root_id && p.last().pattern == pattern {
        policies_apart(p.drop_last(), root_id, pattern)
    } else {
        policies_apart(p.drop_last(), root_id, pattern).push(p.last())
    }
}

fn ids_of_policies(p: &[PathPolicy]) -> (out: Vec<String>)
    ensures
        views(out@) == policy_ids(path_policy_models(p@)),
{
    let mut out: Vec<String> = Vec::new();
    let ghost ids = policy_ids(path_policy_models(p@));
    let mut i: usize = 0;
    while i < p.len()
        invariant
            i <= p@.len(),
            ids == policy_ids(path_policy_models(p@)),
            views(out@) == ids.take(i as int),
        decreases p@.len() - i,
    {
        push_text(&mut out, p[i].id.clone());
        assert(ids.take(i + 1) =~= ids.take(i as int).push(ids[i as int]));
        i += 1;
    }
    assert(ids.take(i as int) =~= ids);
    out
}

/// What a caller is told of a policy for a root that is not registered.
pub open spec fn dangling() -> ErrorModel {
    ErrorModel::Db("FOREIGN KEY constraint failed"@)
}

/// Is this how a pattern gets a policy?
pub open spec fn path_policy_set(
    prior: Store,
    later: Store,
    root_id: Seq<char>,
    pattern: Seq<char>,
    policy: Policy,
    out: Result<PathPolicy>,
) -> bool {
    &&& ({
        let was = path_policy_models(prior.path_policies@);
        let is = path_policy_models(later.path_policies@);
        let kept = policies_apart(was, root_id, pattern);
        let known = listed(root_ids(root_models(prior.roots@)), root_id);
        match out {
            Ok(p) => {
                &&& glob_problem_of(pattern) is None
                &&& known
                &&& is_id(p@.id, "pol"@) && !among(policy_ids(kept), p@.id)
                &&& p@ == (PathPolicyModel {
                    id: p@.id,
                    root_id: root_id,
                    pattern: pattern,
                    policy: policy,
                })
                &&& is == kept.push(p@)
            },
            Err(e) => {
                match glob_problem_of(pattern) {
                    Some(problem) => e@ == bad_glob(pattern, problem) && is == was,
                    None => if known {
                        crowded(policy_ids(kept), "pol"@) && e@ == no_id("pol"@) && is == kept
                    } else {
                        e@ == dangling() && is == was
                    },
                }
            },
        }
    })
    &&& later == (Store { path_policies: later.path_policies, ..prior })
}

/// Copies the overrides but the one of a root's pattern.
fn others(p: &[PathPolicy], root_id: &str, pattern: &str) -> (out: Vec<PathPolicy>)
    ensures
        path_policy_models(out@) == policies_apart(path_policy_models(p@), root_id@, pattern@),
{
    let ghost all = path_policy_models(p@);
    let mut kept: Vec<PathPolicy> = Vec::new();
    let mut i: usize = 0;
    assert(path_policy_models(kept@) =~= policies_apart(all.take(0), root_id@, pattern@));
    while i < p.len()
        invariant
            i <= p@.len(),
            all == path_policy_models(p@),
            path_policy_models(kept@) == policies_apart(all.take(i as int), root_id@, pattern@),
        decreases p@.len() - i,
    {
        assert(all.take(i + 1).drop_last() =~= all.take(i as int));
        if !(same_str(p[i].root_id.as_str(), root_id) && same_str(p[i].pattern.as_str(), pattern)) {
            let c = copy_policy(&p[i]);
            let ghost before = kept@;
            kept.push(c);
            assert(path_policy_models(kept@) =~= path_policy_models(before).push(c@));
        }
        i += 1;
    }
    assert(all.take(i as int) =~= all);
    kept
}

/// Overrides a root's write policy for the paths that match a pattern, under
/// an identifier if one could be found. An earlier override for the same
/// pattern is replaced.
pub fn set_path_policy_as(
    store: &mut Store,
    root_id: &str,
    pattern: &str,
    policy: Policy,
    id: Result<String>,
) -> (out: Result<PathPolicy>)
    ensures
        ({
            let was = path_policy_models(old(store).path_policies@);
            let is = path_policy_models(final(store).path_policies@);
            let kept = policies_apart(was, root_id@, pattern@);
            match (glob_problem_of(pattern@), id) {
                (Some(problem), _) => {
                    &&& out matches Err(e) && e@ == bad_glob(pattern@, problem)
                    &&& is == was
                },
                (None, id) => if !listed(root_ids(root_models(old(store).roots@)), root_id@) {
                    (out matches Err(e) && e@ == dangling()) && is == was
                } else {
                    match id {
                        Err(cause) => out == Err::<PathPolicy, Error>(cause) && is == kept,
                        Ok(name) => {
                            let p = PathPolicyModel {
                                id: name@,
                                root_id: root_id@,
                                pattern: pattern@,
                                policy: policy,
                            };
                            (out matches Ok(x) && x@ == p) && is == kept.push(p)
                        },
                    }
                },
            }
        }),
        *final(store) == (Store { path_policies: final(store).path_policies, ..*old(store) }),
{
    if let Err(e) = check_glob(pattern) {
        return Err(e);
    }
    if find(&store.roots, root_id) >= store.roots.len() {
        return Err(Error::Db("FOREIGN KEY constraint failed".to_owned()));
    }
    let mut kept = others(&store.path_policies, root_id, pattern);
    match id {
        Ok(id) => {
            let p = PathPolicy {
                id: id,
                root_id: root_id.to_owned(),
                pattern: pattern.to_owned(),
                policy: policy,
            };
            let out = copy_policy(&p);
            let ghost before = kept@;
            kept.push(p);
            assert(path_policy_models(kept@) =~= path_policy_models(before).push(out@));
            store.path_policies = kept;
            Ok(out)
        },
        Err(e) => {
            store.path_policies = kept;
            Err(e)
        },
    }
}

/// Overrides a root's write policy for the paths that match a pattern.
pub fn set_path_policy(store: &mut Store, root_id: &str, pattern: &str, policy: Policy) -> (out:
    Result<PathPolicy>)
    ensures
        path_policy_set(*old(store), *final(store), root_id@, pattern@, policy, out),
{
    let taken = ids_of_policies(&others(&store.path_policies, root_id, pattern));
    let id = Store::alloc_id(&taken, "pol");
    set_path_policy_as(store, root_id, pattern, policy, id)
}

/// The policies without the first one that has an identifier.
pub open spec fn policies_less(p: Seq<PathPolicyModel>, id: Seq<char>) -> Seq<PathPolicyModel> {
    let at = place_of(policy_ids(p), id);
    if at < p.len() {
        p.remove(at)
    } else {
        p
    }
}

/// Takes an override away. One that is not there is no error.
pub fn remove_path_policy(store: &mut Store, id: &str)
    ensures
        path_policy_models(final(store).path_policies@) == policies_less(
            path_policy_models(old(store).path_policies@),
            id@,
        ),
        *final(store) == (Store { path_policies: final(store).path_policies, ..*old(store) }),
{
    let ghost was = path_policy_models(store.path_policies@);
    let ghost ids = policy_ids(was);
    let mut i: usize = 0;
    while i < store.path_policies.len() && !same_str(store.path_policies[i].id.as_str(), id)
        invariant
            i <= store.path_policies@.len(),
            *store == *old(store),
            was == path_policy_models(store.path_policies@),
            ids == policy_ids(was),
            forall|k: int| 0 <= k < i ==> #[trigger] ids[k] != id@,
        decreases store.path_policies@.len() - i,
    {
        i += 1;
    }
    proof {
        lemma_place(ids, id@, i as int);
    }
    if i < store.path_policies.len() {
        let _ = store.path_policies.remove(i);
        assert(path_policy_models(store.path_policies@) =~= was.remove(i as int));
    }
}

/// The policies of one root.
pub open spec fn policies_of(p: Seq<PathPolicyModel>, root_id: Seq<char>) -> Seq<PathPolicyModel>
    decreases p.len(),
{
    if p.len() == 0 {
        Seq::empty()
    } else if p.last().root_id == root_id {
        policies_of(p.drop_last(), root_id).push(p.last())
    } else {
        policies_of(p.drop_last(), root_id)
    }
}

/// Longer patterns first: the most specific override wins.
pub open spec fn more_specific() -> spec_fn(PathPolicyModel, PathPolicyModel) -> bool {
    |a: PathPolicyModel, b: PathPolicyModel| a.pattern.len() >= b.pattern.len()
}

fn no_less_specific(a: &PathPolicy, b: &PathPolicy) -> (out: bool)
    ensures
        out == (a.pattern@.len() >= b.pattern@.len()),
{
    chars_of(a.pattern.as_str()).len() >= chars_of(b.pattern.as_str()).len()
}

/// The overrides of a root, longest pattern first.
pub fn list_path_policies(store: &Store, root_id: &str) -> (out: Vec<PathPolicy>)
    ensures
        path_policy_models(out@) == sorted(
            policies_of(path_policy_models(store.path_policies@), root_id@),
            more_specific(),
        ),
{
    let ghost all = path_policy_models(store.path_policies@);
    let mut mine: Vec<PathPolicy> = Vec::new();
    let mut i: usize = 0;
    assert(path_policy_models(mine@) =~= policies_of(all.take(0), root_id@));
    while i < store.path_policies.len()
        invariant
            i <= store.path_policies@.len(),
            all == path_policy_models(store.path_policies@),
            path_policy_models(mine@) == policies_of(all.take(i as int), root_id@),
        decreases store.path_policies@.len() - i,
    {
        assert(all.take(i + 1).drop_last() =~= all.take(i as int));
        if same_str(store.path_policies[i].root_id.as_str(), root_id) {
            let p = copy_policy(&store.path_policies[i]);
            let ghost before = mine@;
            mine.push(p);
            assert(path_policy_models(mine@) =~= path_policy_models(before).push(p@));
        }
        i += 1;
    }
    assert(all.take(i as int) =~= all);
    let ghost unsorted = mine@;
    let ghost rel = |a: PathPolicy, b: PathPolicy| a.pattern@.len() >= b.pattern@.len();
    let out = stable_sort(mine, no_less_specific, Ghost(rel));
    proof {
        let f = |p: PathPolicy| p@;
        crate::order::lemma_sorted_map(unsorted, f, rel, more_specific());
        assert(path_policy_models(unsorted) =~= unsorted.map_values(f));
        assert(path_policy_models(out@) =~= out@.map_values(f));
    }
    out
}

/// The policy of the first override that a document matches, else the root's.
pub open spec fn override_of(
    p: Seq<PathPolicyModel>,
    hits: Seq<bool>,
    otherwise: Policy,
) -> Policy
    decreases p.len(),
{
    if p.len() == 0 {
        otherwise
    } else if hits[0] {
        p[0].policy
    } else {
        override_of(p.skip(1), hits.skip(1), otherwise)
    }
}

/// Picks the policy of the first override that is hit, else the root's, and
/// resolves it against the artifact's type.
pub fn pick_policy(
    overrides: &[PathPolicy],
    hits: &[bool],
    otherwise: Policy,
    ty: ArtifactType,
) -> (out: Policy)
    requires
        hits@.len() == overrides@.len(),
    ensures
        out == resolved_policy(
            override_of(path_policy_models(overrides@), hits@, otherwise),
            ty,
        ),
{
    let ghost all = path_policy_models(overrides@);
    let mut i: usize = 0;
    assert(all.skip(0) =~= all && hits@.skip(0) =~= hits@);
    while i < overrides.len()
        invariant
            i <= overrides@.len(),
            hits@.len() == overrides@.len(),
            all == path_policy_models(overrides@),
            override_of(all, hits@, otherwise) == override_of(
                all.skip(i as int),
                hits@.skip(i as int),
                otherwise,
            ),
        decreases overrides@.len() - i,
    {
        assert(all.skip(i as int)[0] == all[i as int]);
        assert(all.skip(i as int).skip(1) =~= all.skip(i + 1));
        assert(hits@.skip(i as int).skip(1) =~= hits@.skip(i + 1));
        if hits[i] {
            return overrides[i].policy.resolve(ty);
        }
        i += 1;
    }
    otherwise.resolve(ty)
}

/// Which of some overrides a document matches.
pub open spec fn hits_of(
    p: Seq<PathPolicyModel>,
    relative: Seq<char>,
    key: Seq<char>,
) -> Seq<bool> {
    Seq::new(p.len(), |i: int| glob_hits(p[i].pattern, relative, key))
}

/// The write policy of a document.
pub open spec fn effective_policy(
    policies: Seq<PathPolicyModel>,
    at: ResolvedModel,
    ty: ArtifactType,
    any_case: bool,
) -> Policy {
    let mine = sorted(policies_of(policies, at.root.id), more_specific());
    let relative = relative_of(at.root.path, at.path, any_case);
    resolved_policy(override_of(mine, hits_of(mine, relative, at.path), at.root.policy), ty)
}

/// The effective write policy for one path: an explicit per-path glob wins,
/// then the root's setting, and `auto` finally resolves by artifact type.
pub fn policy_for(store: &Store, resolved: &Resolved, ty: ArtifactType) -> (out: Policy)
    ensures
        out == effective_policy(
            path_policy_models(store.path_policies@),
            resolved@,
            ty,
            store.host.drives,
        ),
        out != Policy::Auto,
{
    let relative = relative_to_root(&resolved.root, resolved.path.as_str(), store.host.drives);
    let mine = list_path_policies(store, resolved.root.id.as_str());
    let ghost want = hits_of(path_policy_models(mine@), relative@, resolved.path@);
    let mut hits: Vec<bool> = Vec::new();
    let mut i: usize = 0;
    while i < mine.len()
        invariant
            i <= mine@.len(),
            want == hits_of(path_policy_models(mine@), relative@, resolved.path@),
            hits@ == want.take(i as int),
        decreases mine@.len() - i,
    {
        hits.push(
            matches_either(mine[i].pattern.as_str(), relative.as_str(), resolved.path.as_str()),
        );
        assert(want.take(i + 1) =~= want.take(i as int).push(want[i as int]));
        i += 1;
    }
    assert(want.take(i as int) =~= want);
    pick_policy(&mine, &hits, resolved.root.policy, ty)
}

/// The paths to look up for an input, given the roots of a store.
pub open spec fn places_in(store: Store, input: Seq<char>) -> Seq<Seq<char>> {
    places_of(
        sorted(root_models(store.roots@), added_earlier()),
        input,
        store.host@,
    )
}

/// What an input resolves to among the roots of a store, given what is at the
/// places to look up.
pub open spec fn resolved_in(
    store: Store,
    input: Seq<char>,
    found: Seq<FoundModel>,
) -> std::result::Result<ResolvedModel, ErrorModel> {
    if store.roots@.len() == 0 {
        Err(ErrorModel::OutsideRoot(input + ": no roots are registered yet"@))
    } else {
        resolution(
            sorted(root_models(store.roots@), added_earlier()),
            input,
            store.host@,
            found,
        )
    }
}

/// The paths to look up for an input.
pub fn lookups(store: &Store, input: &str) -> (out: Vec<String>)
    ensures
        views(out@) == places_in(*store, input@),
{
    places(&list_roots(store), input, &store.host)
}

/// Resolves a path against the corpus, given what was found at its places.
pub fn resolve(store: &Store, input: &str, found: &[Found]) -> (out: Result<Resolved>)
    requires
        found@.len() == places_in(*store, input@).len(),
    ensures
        resolves_as(out, resolved_in(*store, input@, found_models(found@))),
{
    if store.roots.len() == 0 {
        let mut m = input.to_owned();
        m.append(": no roots are registered yet");
        return Err(Error::OutsideRoot(m));
    }
    let roots = list_roots(store);
    resolve_within(&roots, input, found, &store.host)
}

// ---------------------------------------------------------------------------
// Laws
// ---------------------------------------------------------------------------

/// Does no root lie in another?
pub open spec fn apart(roots: Seq<RootModel>, any_case: bool) -> bool {
    forall|i: int, j: int|
        0 <= i < roots.len() && 0 <= j < roots.len() && i != j ==> !under(
            (#[trigger] roots[i]).path,
            (#[trigger] roots[j]).path,
            any_case,
        )
}

/// Roots never nest: a root that is not turned down lies apart from all that
/// are registered, and with it they still all lie apart.
pub proof fn law_roots_never_nest(
    roots: Seq<RootModel>,
    new: RootModel,
    input: Seq<char>,
    host: HostModel,
)
    requires
        apart(roots, host.drives),
        refusal(roots, input, host, Some(new.path)) is None,
    ensures
        apart(roots.push(new), host.drives),
{
    let order = sorted(roots, added_earlier());
    lemma_not_nested(order, new.path, host);
    crate::order::lemma_sorted_multiset(roots, added_earlier());
    assert forall|i: int, j: int|
        0 <= i < roots.push(new).len() && 0 <= j < roots.push(new).len() && i
            != j implies !under(
        (#[trigger] roots.push(new)[i]).path,
        (#[trigger] roots.push(new)[j]).path,
        host.drives,
    ) by {
        if i < roots.len() && j < roots.len() {
            assert(!under(roots[i].path, roots[j].path, host.drives));
        } else {
            let k = if i < roots.len() {
                i
            } else {
                j
            };
            broadcast use vstd::seq_lib::group_to_multiset_ensures;

            assert(roots.to_multiset().count(roots[k]) > 0) by {
                assert(roots.contains(roots[k]));
            }
            assert(order.contains(roots[k]));
            let m = choose|m: int| 0 <= m < order.len() && order[m] == roots[k];
            assert(order[m].path == roots[k].path);
        }
    }
}

proof fn lemma_not_nested(roots: Seq<RootModel>, key: Seq<char>, host: HostModel)
    requires
        nesting(roots, key, host) is None,
    ensures
        forall|i: int|
            0 <= i < roots.len() ==> !under((#[trigger] roots[i]).path, key, host.drives) && !under(
                key,
                roots[i].path,
                host.drives,
            ),
    decreases roots.len(),
{
    if roots.len() > 0 {
        lemma_not_nested(roots.skip(1), key, host);
        assert forall|i: int| 0 <= i < roots.len() implies !under(
            (#[trigger] roots[i]).path,
            key,
            host.drives,
        ) && !under(key, roots[i].path, host.drives) by {
            if i > 0 {
                assert(roots.skip(1)[i - 1] == roots[i]);
            }
        }
    }
}

/// Does an override speak of a document: is it of its root, and does its pattern
/// match the document's path there, or its whole path?
pub open spec fn speaks_of(p: PathPolicyModel, at: ResolvedModel, any_case: bool) -> bool {
    p.root_id == at.root.id && (glob_match_of(
        p.pattern,
        relative_of(at.root.path, at.path, any_case),
    ) == Some(true) || glob_match_of(p.pattern, at.path) == Some(true))
}

proof fn lemma_policies_of(p: Seq<PathPolicyModel>, root_id: Seq<char>, x: PathPolicyModel)
    ensures
        policies_of(p, root_id).contains(x) <==> p.contains(x) && x.root_id == root_id,
    decreases p.len(),
{
    if p.len() > 0 {
        let d = p.drop_last();
        lemma_policies_of(d, root_id, x);
        let before = policies_of(d, root_id);
        let out = policies_of(p, root_id);
        assert(p.contains(x) <==> d.contains(x) || x == p.last()) by {
            if p.contains(x) && x != p.last() {
                let k = choose|k: int| 0 <= k < p.len() && p[k] == x;
                assert(d[k] == x);
            }
            if d.contains(x) {
                let k = choose|k: int| 0 <= k < d.len() && d[k] == x;
                assert(p[k] == x);
            }
            assert(p[p.len() - 1] == p.last());
        }
        if p.last().root_id == root_id {
            if before.contains(x) {
                let k = choose|k: int| 0 <= k < before.len() && before[k] == x;
                assert(out[k] == x);
            }
            assert(out[before.len() as int] == p.last());
            if out.contains(x) && x != p.last() {
                let k = choose|k: int| 0 <= k < out.len() && out[k] == x;
                assert(before[k] == x);
            }
        }
    }
}

proof fn lemma_override(p: Seq<PathPolicyModel>, hits: Seq<bool>, otherwise: Policy)
    requires
        hits.len() == p.len(),
    ensures
        (forall|i: int| 0 <= i < p.len() ==> !#[trigger] hits[i]) ==> override_of(
            p,
            hits,
            otherwise,
        ) == otherwise,
        (exists|i: int| 0 <= i < p.len() && #[trigger] hits[i]) ==> exists|i: int|
            0 <= i < p.len() && #[trigger] hits[i] && (forall|j: int|
                0 <= j < i ==> !#[trigger] hits[j]) && override_of(p, hits, otherwise)
                == p[i].policy,
    decreases p.len(),
{
    if p.len() > 0 && !hits[0] {
        let q = p.skip(1);
        let h = hits.skip(1);
        lemma_override(q, h, otherwise);
        if forall|i: int| 0 <= i < p.len() ==> !#[trigger] hits[i] {
            assert forall|i: int| 0 <= i < q.len() implies !#[trigger] h[i] by {
                assert(h[i] == hits[i + 1]);
            }
        }
        if exists|i: int| 0 <= i < p.len() && #[trigger] hits[i] {
            let i = choose|i: int| 0 <= i < p.len() && #[trigger] hits[i];
            assert(h[i - 1]);
            let k = choose|k: int|
                0 <= k < q.len() && #[trigger] h[k] && (forall|j: int|
                    0 <= j < k ==> !#[trigger] h[j]) && override_of(q, h, otherwise) == q[k].policy;
            assert(hits[k + 1]);
            assert forall|j: int| 0 <= j < k + 1 implies !#[trigger] hits[j] by {
                if j > 0 {
                    assert(h[j - 1] == hits[j]);
                }
            }
            assert(p[k + 1] == q[k]);
        }
    }
}

/// The most specific override wins: where some overrides speak of a document,
/// its policy is that of one of them with the longest pattern, and where none
/// does, it is the root's; `auto` goes by the type of the document.
pub proof fn law_most_specific_override_wins(
    policies: Seq<PathPolicyModel>,
    at: ResolvedModel,
    ty: ArtifactType,
    any_case: bool,
)
    ensures
        (forall|i: int|
            0 <= i < policies.len() ==> !speaks_of(#[trigger] policies[i], at, any_case))
            ==> effective_policy(policies, at, ty, any_case) == resolved_policy(
            at.root.policy,
            ty,
        ),
        (exists|i: int| 0 <= i < policies.len() && speaks_of(#[trigger] policies[i], at, any_case))
            ==> exists|i: int|
            0 <= i < policies.len() && speaks_of(#[trigger] policies[i], at, any_case)
                && effective_policy(policies, at, ty, any_case) == resolved_policy(
                policies[i].policy,
                ty,
            ) && forall|j: int|
                0 <= j < policies.len() && speaks_of(#[trigger] policies[j], at, any_case)
                    ==> policies[j].pattern.len() <= policies[i].pattern.len(),
{
    let own = policies_of(policies, at.root.id);
    let mine = sorted(own, more_specific());
    let relative = relative_of(at.root.path, at.path, any_case);
    let hits = hits_of(mine, relative, at.path);
    crate::order::lemma_sorted_same(own, more_specific());
    assert(crate::order::is_total_order(more_specific()));
    crate::order::lemma_sorted_in_order(own, more_specific());
    lemma_override(mine, hits, at.root.policy);
    assert forall|k: int| 0 <= k < mine.len() implies policies.contains(#[trigger] mine[k])
        && mine[k].root_id == at.root.id && hits[k] == speaks_of(mine[k], at, any_case) by {
        assert(mine.contains(mine[k]));
        assert(own.contains(mine[k]));
        lemma_policies_of(policies, at.root.id, mine[k]);
    }
    assert forall|j: int|
        0 <= j < policies.len() && speaks_of(#[trigger] policies[j], at, any_case) implies exists|
        k: int,
    |
        0 <= k < mine.len() && #[trigger] mine[k] == policies[j] by {
        lemma_policies_of(policies, at.root.id, policies[j]);
        assert(policies.contains(policies[j]));
        assert(own.contains(policies[j]));
        assert(mine.contains(policies[j]));
        let k = choose|k: int| 0 <= k < mine.len() && mine[k] == policies[j];
        assert(mine[k] == policies[j]);
    }
    if forall|i: int| 0 <= i < policies.len() ==> !speaks_of(#[trigger] policies[i], at, any_case) {
        assert forall|k: int| 0 <= k < mine.len() implies !#[trigger] hits[k] by {
            assert(policies.contains(mine[k]));
            let i = choose|i: int| 0 <= i < policies.len() && policies[i] == mine[k];
            assert(!speaks_of(policies[i], at, any_case));
        }
    }
    if exists|i: int| 0 <= i < policies.len() && speaks_of(#[trigger] policies[i], at, any_case) {
        let i = choose|i: int|
            0 <= i < policies.len() && speaks_of(#[trigger] policies[i], at, any_case);
        let k = choose|k: int| 0 <= k < mine.len() && #[trigger] mine[k] == policies[i];
        assert(hits[k]);
        let m = choose|m: int|
            0 <= m < mine.len() && #[trigger] hits[m] && (forall|j: int|
                0 <= j < m ==> !#[trigger] hits[j]) && override_of(mine, hits, at.root.policy)
                == mine[m].policy;
        assert(policies.contains(mine[m]));
        let w = choose|w: int| 0 <= w < policies.len() && policies[w] == mine[m];
        assert(speaks_of(policies[w], at, any_case));
        assert forall|j: int|
            0 <= j < policies.len() && speaks_of(#[trigger] policies[j], at, any_case) implies
            policies[j].pattern.len() <= policies[w].pattern.len() by {
            let q = choose|q: int| 0 <= q < mine.len() && #[trigger] mine[q] == policies[j];
            assert(hits[q]);
            if q > m {
                assert(more_specific()(mine[m], mine[q]));
            }
        }
    }
}

} // verus!
