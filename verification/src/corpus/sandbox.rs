//! Sandboxing: which paths belong to the corpus.
//!
//! Resolving a path takes two steps around the file system: `places` says
//! which paths to look up, and `resolve_within` decides by what was found
//! there. A key that was looked up has its links resolved, so a link out of a
//! root fails the containment test.

use super::types::{root_models, Resolved, ResolvedModel, Root, RootKind, RootModel};
use super::typing::{after_last, file_name_of};
use crate::error::{Error, ErrorModel, Result};
use crate::text::{
    ascii_lower, ascii_lower_of, chars_of, copy_texts, decimal, decimal_of, equal_ignoring_case,
    part, push_text, same_ignoring_case, same_str, starts_with, string_of, trim, trim_front,
    trim_front_of, trim_of, views,
};
use crate::util::{
    display_of, display_path, expand_tilde, is_under, joined_path, path_eq, path_join, same_path,
    tilde_of, under, Host, HostModel,
};
use vstd::prelude::*;

verus! {

/// A path's part below a root; for a path outside it, the file's name.
pub open spec fn relative_of(root: Seq<char>, path: Seq<char>, any_case: bool) -> Seq<char> {
    if path.len() > root.len() && under(root, path, any_case) {
        trim_front_of(path.skip(root.len() as int), '/')
    } else {
        after_last(path, '/')
    }
}

/// A path's part below a root; for a path outside it, the file's name.
pub fn relative_to_root(root: &Root, path: &str, any_case: bool) -> (out: String)
    ensures
        out@ == relative_of(root@.path, path@, any_case),
{
    relative_to(root.path.as_str(), path, any_case)
}

/// A path's part below the directory with key `root`.
pub fn relative_to(root: &str, path: &str, any_case: bool) -> (out: String)
    ensures
        out@ == relative_of(root@, path@, any_case),
{
    let p = chars_of(path);
    let n: usize = chars_of(root).len();
    if p.len() > n && is_under(root, path, any_case) {
        let rest = part(&p, n, p.len());
        assert(rest@ =~= path@.skip(n as int));
        string_of(trim_front(rest, '/'))
    } else {
        file_name_of(path)
    }
}

/// A text without the copies of `lead` in front of it.
pub open spec fn without_lead(s: Seq<char>, lead: Seq<char>) -> Seq<char>
    decreases s.len(),
{
    if lead.len() > 0 && lead.is_prefix_of(s) {
        without_lead(s.skip(lead.len() as int), lead)
    } else {
        s
    }
}

/// Drops the copies of `lead` in front of a text.
pub fn strip_lead(s: &str, lead: &str) -> (out: String)
    requires
        lead@.len() > 0,
    ensures
        out@ == without_lead(s@, lead@),
{
    let all = chars_of(s);
    let n: usize = chars_of(lead).len();
    let mut i: usize = 0;
    assert(all@.skip(0) =~= all@);
    while starts_with(part(&all, i, all.len()), lead)
        invariant
            i <= all@.len(),
            n == lead@.len(),
            n > 0,
            all@ == s@,
            without_lead(s@, lead@) == without_lead(all@.skip(i as int), lead@),
        decreases all@.len() - i,
    {
        assert(all@.subrange(i as int, all@.len() as int) =~= all@.skip(i as int));
        assert(all@.skip(i as int).skip(n as int) =~= all@.skip(i + n));
        i += n;
    }
    assert(all@.subrange(i as int, all@.len() as int) =~= all@.skip(i as int));
    string_of(part(&all, i, all.len()))
}

/// Is a path absolute? With `drives` it starts with a drive, as in `C:/`, or
/// with two separators; without, with `/`.
pub open spec fn absolute(path: Seq<char>, drives: bool) -> bool {
    if drives {
        ||| path.len() >= 3 && ('a' <= ascii_lower_of(path[0]) <= 'z') && path[1] == ':' && (path[2]
            == '/' || path[2] == '\\')
        ||| path.len() >= 2 && (path[0] == '/' || path[0] == '\\') && (path[1] == '/' || path[1]
            == '\\')
    } else {
        path.len() >= 1 && path[0] == '/'
    }
}

/// Is a path absolute?
pub fn is_absolute(path: &str, drives: bool) -> (out: bool)
    ensures
        out == absolute(path@, drives),
{
    let p = chars_of(path);
    if drives {
        if p.len() >= 3 && p[1] == ':' && (p[2] == '/' || p[2] == '\\') {
            let drive: char = ascii_lower(p[0]);
            if 'a' <= drive && drive <= 'z' {
                return true;
            }
        }
        p.len() >= 2 && (p[0] == '/' || p[0] == '\\') && (p[1] == '/' || p[1] == '\\')
    } else {
        p.len() >= 1 && p[0] == '/'
    }
}

/// The paths that an input may mean: the path itself where it is absolute,
/// else one below each root.
pub open spec fn places_of(
    roots: Seq<RootModel>,
    input: Seq<char>,
    host: HostModel,
) -> Seq<Seq<char>> {
    let trimmed = trim_of(input);
    let expanded = tilde_of(trimmed, host.home);
    if absolute(expanded, host.drives) {
        seq![expanded]
    } else {
        let cleaned = without_lead(without_lead(trimmed, "./"@), ".\\"@);
        Seq::new(roots.len(), |i: int| joined_path(roots[i].path, cleaned))
    }
}

/// The paths to look up for an input: itself where it is absolute, else one
/// below each root.
pub fn places(roots: &[Root], input: &str, host: &Host) -> (out: Vec<String>)
    ensures
        views(out@) == places_of(root_models(roots@), input@, host@),
{
    let trimmed = string_of(trim(&chars_of(input)));
    let expanded = expand_tilde(trimmed.as_str(), host.home());
    let mut out: Vec<String> = Vec::new();
    let ghost goal = places_of(root_models(roots@), input@, host@);
    if is_absolute(expanded.as_str(), host.drives) {
        out.push(expanded);
        assert(views(out@) =~= goal);
        return out;
    }
    proof {
        reveal_strlit("./");
        reveal_strlit(".\\");
    }
    let cleaned = strip_lead(strip_lead(trimmed.as_str(), "./").as_str(), ".\\");
    let mut i: usize = 0;
    while i < roots.len()
        invariant
            i <= roots@.len(),
            goal.len() == roots@.len(),
            forall|k: int|
                0 <= k < roots@.len() ==> #[trigger] goal[k] == joined_path(
                    roots@[k].path@,
                    cleaned@,
                ),
            views(out@) == goal.take(i as int),
        decreases roots@.len() - i,
    {
        push_text(&mut out, path_join(roots[i].path.as_str(), cleaned.as_str()));
        assert(goal.take(i + 1) =~= goal.take(i as int).push(goal[i as int]));
        i += 1;
    }
    assert(goal.take(i as int) =~= goal);
    out
}

/// What was found at a place: the key with its links resolved, and whether
/// there is anything.
#[derive(Debug)]
pub struct Found {
    pub key: String,
    pub exists: bool,
    /// Names of the directories beside it.
    pub dirs: Vec<String>,
}

/// What a finding is.
#[verifier::ext_equal]
pub struct FoundModel {
    pub key: Seq<char>,
    pub exists: bool,
    pub dirs: Seq<Seq<char>>,
}

impl View for Found {
    type V = FoundModel;

    open spec fn view(&self) -> FoundModel {
        FoundModel { key: self.key@, exists: self.exists, dirs: views(self.dirs@) }
    }
}

pub open spec fn found_models(f: Seq<Found>) -> Seq<FoundModel> {
    Seq::new(f.len(), |i: int| f[i]@)
}

/// Does a root admit a key? A file root admits exactly itself.
pub open spec fn admits(root: RootModel, key: Seq<char>, any_case: bool) -> bool {
    match root.kind {
        RootKind::Dir => under(root.path, key, any_case),
        RootKind::File => same_path(root.path, key, any_case),
    }
}

/// The first root that admits a key; the number of roots where none does.
pub open spec fn first_admitting(roots: Seq<RootModel>, key: Seq<char>, any_case: bool) -> int
    decreases roots.len(),
{
    if roots.len() == 0 || admits(roots[0], key, any_case) {
        0
    } else {
        1 + first_admitting(roots.skip(1), key, any_case)
    }
}

/// Is a key among those found?
pub open spec fn key_among(found: Seq<FoundModel>, key: Seq<char>) -> bool {
    exists|i: int| 0 <= i < found.len() && (#[trigger] found[i]).key == key
}

/// What was found below the root that each place belongs to, each key once.
pub open spec fn contained(
    roots: Seq<RootModel>,
    found: Seq<FoundModel>,
    n: int,
    any_case: bool,
) -> Seq<FoundModel>
    decreases n,
{
    if n <= 0 {
        Seq::empty()
    } else {
        let front = contained(roots, found, n - 1, any_case);
        if under(roots[n - 1].path, found[n - 1].key, any_case) && !key_among(
            front,
            found[n - 1].key,
        ) {
            front.push(found[n - 1])
        } else {
            front
        }
    }
}

/// Those that exist.
pub open spec fn existing_of(found: Seq<FoundModel>) -> Seq<FoundModel>
    decreases found.len(),
{
    if found.len() == 0 {
        Seq::empty()
    } else if found.last().exists {
        existing_of(found.drop_last()).push(found.last())
    } else {
        existing_of(found.drop_last())
    }
}

pub open spec fn ambiguous_message(trimmed: Seq<char>, n: nat) -> Seq<char> {
    "`"@ + trimmed + "` is ambiguous; it matches "@ + decimal_of(n)
        + " roots. Pass an absolute path."@
}

pub open spec fn creatable_message(trimmed: Seq<char>, n: nat) -> Seq<char> {
    "`"@ + trimmed + "` could be created under "@ + decimal_of(n)
        + " different roots. Pass an absolute path."@
}

/// The decision on one finding.
pub open spec fn decided(
    roots: Seq<RootModel>,
    found: FoundModel,
    host: HostModel,
) -> std::result::Result<ResolvedModel, ErrorModel> {
    let at = first_admitting(roots, found.key, host.drives);
    if at < roots.len() {
        Ok(ResolvedModel { root: roots[at], path: found.key, dirs: found.dirs })
    } else {
        Err(ErrorModel::OutsideRoot(display_of(found.key, host)))
    }
}

/// What an input resolves to, given what was found at its places.
pub open spec fn resolution(
    roots: Seq<RootModel>,
    input: Seq<char>,
    host: HostModel,
    found: Seq<FoundModel>,
) -> std::result::Result<ResolvedModel, ErrorModel> {
    let trimmed = trim_of(input);
    if trimmed.len() == 0 {
        Err(ErrorModel::Invalid("path is empty"@))
    } else if absolute(tilde_of(trimmed, host.home), host.drives) {
        decided(roots, found[0], host)
    } else {
        let inside = contained(roots, found, roots.len() as int, host.drives);
        let there = existing_of(inside);
        if there.len() > 1 {
            Err(ErrorModel::Invalid(ambiguous_message(trimmed, there.len())))
        } else if there.len() == 1 {
            decided(roots, there[0], host)
        } else if inside.len() > 1 {
            Err(ErrorModel::Invalid(creatable_message(trimmed, inside.len())))
        } else if inside.len() == 1 {
            decided(roots, inside[0], host)
        } else {
            Err(ErrorModel::OutsideRoot(display_of(trimmed, host)))
        }
    }
}

/// An executable outcome against a stated one.
pub open spec fn resolves_as(
    out: Result<Resolved>,
    want: std::result::Result<ResolvedModel, ErrorModel>,
) -> bool {
    match out {
        Ok(r) => want == Ok::<ResolvedModel, ErrorModel>(r@),
        Err(e) => want == Err::<ResolvedModel, ErrorModel>(e@),
    }
}

fn decide(roots: &[Root], found: &Found, host: &Host) -> (out: Result<Resolved>)
    ensures
        resolves_as(out, decided(root_models(roots@), found@, host@)),
{
    let key = found.key.as_str();
    let ghost all = root_models(roots@);
    let mut i: usize = 0;
    assert(all.skip(0) =~= all);
    while i < roots.len()
        invariant
            i <= roots@.len(),
            all == root_models(roots@),
            key@ == found@.key,
            first_admitting(all, key@, host.drives) == i + first_admitting(
                all.skip(i as int),
                key@,
                host.drives,
            ),
        decreases roots@.len() - i,
    {
        assert(all.skip(i as int)[0] == all[i as int]);
        assert(all.skip(i as int).skip(1) =~= all.skip(i + 1));
        let root = &roots[i];
        let admitted = match root.kind {
            RootKind::Dir => is_under(root.path.as_str(), key, host.drives),
            RootKind::File => path_eq(root.path.as_str(), key, host.drives),
        };
        if admitted {
            return Ok(
                Resolved {
                    root: root.copy(),
                    path: key.to_owned(),
                    dirs: copy_texts(&found.dirs),
                },
            );
        }
        i += 1;
    }
    Err(Error::OutsideRoot(display_path(key, host)))
}

fn has_key(found: &[&Found], key: &str) -> (out: bool)
    ensures
        out == exists|i: int| 0 <= i < found@.len() && (#[trigger] found@[i]).key@ == key@,
{
    let mut i: usize = 0;
    while i < found.len()
        invariant
            i <= found@.len(),
            forall|k: int| 0 <= k < i ==> (#[trigger] found@[k]).key@ != key@,
        decreases found@.len() - i,
    {
        if same_str(found[i].key.as_str(), key) {
            return true;
        }
        i += 1;
    }
    false
}

pub open spec fn ref_models(f: Seq<&Found>) -> Seq<FoundModel> {
    Seq::new(f.len(), |i: int| f[i]@)
}

/// Decides what an input means, given what was found at its places.
///
/// Accepts an absolute path, a `~`-relative path, or a path relative to a
/// registered root. Rejects anything that lands outside every root, including
/// `..` traversal and links that escape. A relative path has to mean exactly
/// one place, so a bare `SKILL.md` can never silently target the wrong skill.
pub fn resolve_within(
    roots: &[Root],
    input: &str,
    found: &[Found],
    host: &Host,
) -> (out: Result<Resolved>)
    requires
        found@.len() == places_of(root_models(roots@), input@, host@).len(),
    ensures
        resolves_as(
            out,
            resolution(
                root_models(roots@),
                input@,
                host@,
                found_models(found@),
            ),
        ),
{
    let trimmed = string_of(trim(&chars_of(input)));
    if chars_of(trimmed.as_str()).len() == 0 {
        return Err(Error::invalid("path is empty"));
    }
    let expanded = expand_tilde(trimmed.as_str(), host.home());
    if is_absolute(expanded.as_str(), host.drives) {
        return decide(roots, &found[0], host);
    }
    let ghost all = root_models(roots@);
    let ghost seen = found_models(found@);
    let mut inside: Vec<&Found> = Vec::new();
    let mut i: usize = 0;
    assert(ref_models(inside@) =~= contained(all, seen, 0, host.drives));
    while i < roots.len()
        invariant
            i <= roots@.len(),
            roots@.len() == found@.len(),
            all == root_models(roots@),
            seen == found_models(found@),
            ref_models(inside@) == contained(all, seen, i as int, host.drives),
        decreases roots@.len() - i,
    {
        let ghost before = inside@;
        let f: &Found = &found[i];
        let known = has_key(&inside, f.key.as_str());
        proof {
            let front = ref_models(inside@);
            assert(known == key_among(front, f@.key)) by {
                if known {
                    let k = choose|k: int|
                        0 <= k < inside@.len() && (#[trigger] inside@[k]).key@ == f.key@;
                    assert(front[k].key == f@.key);
                }
                if key_among(front, f@.key) {
                    let k = choose|k: int|
                        0 <= k < front.len() && (#[trigger] front[k]).key == f@.key;
                    assert(inside@[k].key@ == f.key@);
                }
            }
        }
        if is_under(roots[i].path.as_str(), f.key.as_str(), host.drives) && !known {
            inside.push(f);
            assert(ref_models(inside@) =~= ref_models(before).push(f@));
        }
        i += 1;
    }
    let ghost kept = ref_models(inside@);
    let mut there: Vec<&Found> = Vec::new();
    let mut j: usize = 0;
    assert(ref_models(there@) =~= existing_of(kept.take(0)));
    while j < inside.len()
        invariant
            j <= inside@.len(),
            kept == ref_models(inside@),
            ref_models(there@) == existing_of(kept.take(j as int)),
        decreases inside@.len() - j,
    {
        assert(kept.take(j + 1).drop_last() =~= kept.take(j as int));
        let f: &Found = inside[j];
        if f.exists {
            let ghost before = there@;
            there.push(f);
            assert(ref_models(there@) =~= ref_models(before).push(f@));
        }
        j += 1;
    }
    assert(kept.take(j as int) =~= kept);
    if there.len() > 1 {
        let mut m = "`".to_owned();
        m.append(trimmed.as_str());
        m.append("` is ambiguous; it matches ");
        m.append(decimal(there.len() as u64).as_str());
        m.append(" roots. Pass an absolute path.");
        return Err(Error::Invalid(m));
    }
    if there.len() == 1 {
        assert(ref_models(there@)[0] == there@[0]@);
        return decide(roots, there[0], host);
    }
    if inside.len() > 1 {
        let mut m = "`".to_owned();
        m.append(trimmed.as_str());
        m.append("` could be created under ");
        m.append(decimal(inside.len() as u64).as_str());
        m.append(" different roots. Pass an absolute path.");
        return Err(Error::Invalid(m));
    }
    if inside.len() == 1 {
        assert(ref_models(inside@)[0] == inside@[0]@);
        return decide(roots, inside[0], host);
    }
    Err(Error::OutsideRoot(display_path(trimmed.as_str(), host)))
}

/// Whatever resolves lies in the corpus: it is one of the findings' keys, and
/// the root it came with is registered and admits it.
pub proof fn law_resolved_is_admitted(
    roots: Seq<RootModel>,
    input: Seq<char>,
    host: HostModel,
    found: Seq<FoundModel>,
)
    requires
        found.len() == places_of(roots, input, host).len(),
    ensures
        resolution(roots, input, host, found) matches Ok(r) ==> admits(
            r.root,
            r.path,
            host.drives,
        ) && roots.contains(r.root) && under(r.root.path, r.path, host.drives) && key_among(
            found,
            r.path,
        ),
{
    if resolution(roots, input, host, found) is Ok {
        let r = resolution(roots, input, host, found)->Ok_0;
        let inside = contained(roots, found, roots.len() as int, host.drives);
        let key = r.path;
        lemma_first_admitting(roots, key, host.drives);
        if !absolute(tilde_of(trim_of(input), host.home), host.drives) {
            lemma_contained(roots, found, roots.len() as int, host.drives);
            lemma_existing(inside);
        }
        assert(roots[first_admitting(roots, key, host.drives)] == r.root);
    }
}

proof fn lemma_first_admitting(roots: Seq<RootModel>, key: Seq<char>, any_case: bool)
    ensures
        0 <= first_admitting(roots, key, any_case) <= roots.len(),
        first_admitting(roots, key, any_case) < roots.len() ==> admits(
            roots[first_admitting(roots, key, any_case)],
            key,
            any_case,
        ),
    decreases roots.len(),
{
    if roots.len() > 0 && !admits(roots[0], key, any_case) {
        lemma_first_admitting(roots.skip(1), key, any_case);
    }
}

proof fn lemma_contained(
    roots: Seq<RootModel>,
    found: Seq<FoundModel>,
    n: int,
    any_case: bool,
)
    requires
        0 <= n <= roots.len(),
        n <= found.len(),
    ensures
        forall|i: int|
            0 <= i < contained(roots, found, n, any_case).len() ==> key_among(
                found,
                (#[trigger] contained(roots, found, n, any_case)[i]).key,
            ),
    decreases n,
{
    if n > 0 {
        lemma_contained(roots, found, n - 1, any_case);
        let front = contained(roots, found, n - 1, any_case);
        let all = contained(roots, found, n, any_case);
        assert forall|i: int| 0 <= i < all.len() implies key_among(
            found,
            (#[trigger] all[i]).key,
        ) by {
            if i < front.len() {
                assert(key_among(found, front[i].key));
            } else {
                assert(found[n - 1].key == all[i].key);
            }
        }
    }
}

proof fn lemma_existing(found: Seq<FoundModel>)
    ensures
        forall|i: int|
            0 <= i < existing_of(found).len() ==> key_among(
                found,
                (#[trigger] existing_of(found)[i]).key,
            ),
    decreases found.len(),
{
    if found.len() > 0 {
        let d = found.drop_last();
        lemma_existing(d);
        assert forall|i: int| 0 <= i < existing_of(found).len() implies key_among(
            found,
            (#[trigger] existing_of(found)[i]).key,
        ) by {
            if i < existing_of(d).len() {
                assert(key_among(d, existing_of(d)[i].key));
                let k = choose|k: int|
                    0 <= k < d.len() && (#[trigger] d[k]).key == existing_of(d)[i].key;
                assert(found[k].key == existing_of(found)[i].key);
            } else {
                assert(found[found.len() - 1].key == existing_of(found)[i].key);
            }
        }
    }
}

// ---------------------------------------------------------------------------
// Walking
// ---------------------------------------------------------------------------

/// Directories that are never part of a corpus. `.git` is among them because
/// no repository is ever read or written: export, not entangle.
pub open spec fn skipped_dir(name: Seq<char>) -> bool {
    exists|i: int| 0 <= i < skip_dirs().len() && same_ignoring_case(name, #[trigger] skip_dirs()[i])
}

pub open spec fn skip_dirs() -> Seq<Seq<char>> {
    seq![
        ".git"@,
        "node_modules"@,
        "target"@,
        "__pycache__"@,
        ".venv"@,
        "venv"@,
        ".idea"@,
        ".vscode"@,
        "dist"@,
        "build"@,
        ".next"@,
        ".cache"@,
        ".mypy_cache"@,
        ".pytest_cache"@,
    ]
}

/// Is a directory with this name left out of the corpus?
pub fn is_skipped_dir(name: &str) -> (out: bool)
    ensures
        out == skipped_dir(name@),
{
    let names: [&'static str; 14] = [
        ".git",
        "node_modules",
        "target",
        "__pycache__",
        ".venv",
        "venv",
        ".idea",
        ".vscode",
        "dist",
        "build",
        ".next",
        ".cache",
        ".mypy_cache",
        ".pytest_cache",
    ];
    let mut i: usize = 0;
    while i < 14
        invariant
            i <= 14,
            names@.len() == 14,
            forall|k: int| 0 <= k < 14 ==> (#[trigger] names@[k])@ == skip_dirs()[k],
            forall|k: int| 0 <= k < i ==> !same_ignoring_case(name@, #[trigger] skip_dirs()[k]),
        decreases 14 - i,
    {
        if equal_ignoring_case(name, names[i]) {
            assert(same_ignoring_case(name@, skip_dirs()[i as int]));
            return true;
        }
        assert(names@[i as int]@ == skip_dirs()[i as int]);
        i += 1;
    }
    false
}

/// Is an entry below a root walked into, or taken as a file of the corpus?
/// Temporary files of an unfinished write are not.
pub open spec fn keeps(name: Seq<char>, is_dir: bool) -> bool {
    if is_dir {
        !skipped_dir(name)
    } else {
        !".folio-tmp-"@.is_prefix_of(name) && !".folio-tmp"@.is_suffix_of(name)
    }
}

/// Does a walk keep an entry below a root?
pub fn keeps_entry(name: &str, is_dir: bool) -> (out: bool)
    ensures
        out == keeps(name@, is_dir),
{
    if is_dir {
        !is_skipped_dir(name)
    } else {
        let chars = chars_of(name);
        !starts_with(&chars, ".folio-tmp-") && !crate::text::ends_with(&chars, ".folio-tmp")
    }
}

/// A document's text, unless it is too large to edit sensibly.
pub fn read_text(shown: &str, bytes: &[u8], max_bytes: u64) -> (out: Result<String>)
    ensures
        match out {
            Ok(text) => bytes@.len() <= max_bytes && text@ == crate::text::text_in(bytes@)
                && text@.len() <= bytes@.len(),
            Err(e) => bytes@.len() > max_bytes && e@ == ErrorModel::TooLarge(
                shown@ + " is "@ + decimal_of(bytes@.len()) + " bytes; the editor limit is "@
                    + decimal_of(max_bytes as nat),
            ),
        },
{
    if bytes.len() as u64 > max_bytes {
        let mut m = shown.to_owned();
        m.append(" is ");
        m.append(decimal(bytes.len() as u64).as_str());
        m.append(" bytes; the editor limit is ");
        m.append(decimal(max_bytes).as_str());
        return Err(Error::TooLarge(m));
    }
    Ok(crate::text::text_from(bytes))
}

/// A path that is made of a root, a slash and a rest lies in the root, and the
/// rest is its path there.
pub proof fn law_relative_path(root: Seq<char>, rest: Seq<char>, any_case: bool)
    requires
        !"/"@.is_suffix_of(root),
        rest.len() > 0,
        rest[0] != '/',
    ensures
        under(root, root + "/"@ + rest, any_case),
        relative_of(root, root + "/"@ + rest, any_case) == rest,
{
    reveal_strlit("/");
    let path = root + "/"@ + rest;
    let n = root.len() as int;
    assert(path.take(n + 1) =~= root + "/"@);
    assert(path.skip(n) =~= "/"@ + rest);
    assert(path.skip(n)[0] == '/');
    assert(path.skip(n).skip(1) =~= rest);
    assert(trim_front_of(rest, '/') == rest);
}

/// An absolute path resolves exactly when some root admits the key that was
/// found for it, and it resolves to that key.
pub proof fn law_absolute_paths_resolve(
    roots: Seq<RootModel>,
    input: Seq<char>,
    host: HostModel,
    found: Seq<FoundModel>,
)
    requires
        trim_of(input).len() > 0,
        absolute(tilde_of(trim_of(input), host.home), host.drives),
        found.len() == 1,
    ensures
        resolution(roots, input, host, found) is Ok <==> exists|i: int|
            0 <= i < roots.len() && admits(#[trigger] roots[i], found[0].key, host.drives),
        resolution(roots, input, host, found) matches Ok(r) ==> r.path == found[0].key,
{
    lemma_first_admitting(roots, found[0].key, host.drives);
    if exists|i: int|
        0 <= i < roots.len() && admits(#[trigger] roots[i], found[0].key, host.drives) {
        let i = choose|i: int|
            0 <= i < roots.len() && admits(#[trigger] roots[i], found[0].key, host.drives);
        lemma_admitting_found(roots, found[0].key, host.drives, i);
    }
}

proof fn lemma_admitting_found(roots: Seq<RootModel>, key: Seq<char>, any_case: bool, i: int)
    requires
        0 <= i < roots.len(),
        admits(roots[i], key, any_case),
    ensures
        first_admitting(roots, key, any_case) < roots.len(),
    decreases roots.len(),
{
    if !admits(roots[0], key, any_case) {
        assert(roots.skip(1)[i - 1] == roots[i]);
        lemma_admitting_found(roots.skip(1), key, any_case, i - 1);
    }
}

/// Is place `i` one where a relative path is looked for: inside its own root?
pub open spec fn inside_its_root(
    roots: Seq<RootModel>,
    found: Seq<FoundModel>,
    i: int,
    any_case: bool,
) -> bool {
    0 <= i < roots.len() && under(roots[i].path, found[i].key, any_case)
}

proof fn lemma_inside(
    roots: Seq<RootModel>,
    found: Seq<FoundModel>,
    n: int,
    any_case: bool,
)
    requires
        0 <= n <= roots.len(),
        found.len() == roots.len(),
        forall|i: int, j: int|
            0 <= i < j < found.len() ==> (#[trigger] found[i]).key != (#[trigger] found[j]).key,
    ensures
        ({
            let all = contained(roots, found, n, any_case);
            &&& forall|k: int|
                0 <= k < all.len() ==> exists|i: int|
                    0 <= i < n && inside_its_root(roots, found, i, any_case) && #[trigger] found[i]
                        == #[trigger] all[k]
            &&& forall|i: int|
                0 <= i < n && inside_its_root(roots, found, i, any_case) ==> all.contains(
                    #[trigger] found[i],
                )
        }),
    decreases n,
{
    if n > 0 {
        lemma_inside(roots, found, n - 1, any_case);
        let front = contained(roots, found, n - 1, any_case);
        let all = contained(roots, found, n, any_case);
        let last = found[n - 1];
        assert(!key_among(front, last.key)) by {
            if key_among(front, last.key) {
                let k = choose|k: int| 0 <= k < front.len() && (#[trigger] front[k]).key == last.key;
                let i = choose|i: int|
                    0 <= i < n - 1 && inside_its_root(roots, found, i, any_case)
                        && #[trigger] found[i] == front[k];
                assert(found[i].key != found[n - 1].key);
            }
        }
        assert forall|k: int| 0 <= k < all.len() implies exists|i: int|
            0 <= i < n && inside_its_root(roots, found, i, any_case) && #[trigger] found[i]
                == #[trigger] all[k] by {
            if k < front.len() {
                assert(all[k] == front[k]);
                let i = choose|i: int|
                    0 <= i < n - 1 && inside_its_root(roots, found, i, any_case)
                        && #[trigger] found[i] == front[k];
                assert(found[i] == all[k]);
            } else {
                assert(inside_its_root(roots, found, n - 1, any_case));
                assert(found[n - 1] == all[k]);
            }
        }
        assert forall|i: int|
            0 <= i < n && inside_its_root(roots, found, i, any_case) implies all.contains(
            #[trigger] found[i],
        ) by {
            if i < n - 1 {
                assert(front.contains(found[i]));
                let k = choose|k: int| 0 <= k < front.len() && front[k] == found[i];
                assert(all[k] == found[i]);
            } else {
                assert(all[front.len() as int] == found[i]);
            }
        }
    }
}

proof fn lemma_existing_are(found: Seq<FoundModel>)
    ensures
        forall|x: FoundModel| #[trigger]
            existing_of(found).contains(x) <==> found.contains(x) && x.exists,
    decreases found.len(),
{
    if found.len() > 0 {
        let d = found.drop_last();
        let last = found.last();
        lemma_existing_are(d);
        let before = existing_of(d);
        let out = existing_of(found);
        assert(found[found.len() - 1] == last);
        assert forall|x: FoundModel| #[trigger]
            out.contains(x) <==> found.contains(x) && x.exists by {
            assert(before.contains(x) <==> d.contains(x) && x.exists);
            assert(found.contains(x) <==> d.contains(x) || x == last) by {
                if found.contains(x) && x != last {
                    let k = choose|k: int| 0 <= k < found.len() && found[k] == x;
                    assert(d[k] == x);
                }
                if d.contains(x) {
                    let k = choose|k: int| 0 <= k < d.len() && d[k] == x;
                    assert(found[k] == x);
                }
            }
            if last.exists {
                assert(out[before.len() as int] == last);
                if before.contains(x) {
                    let k = choose|k: int| 0 <= k < before.len() && before[k] == x;
                    assert(out[k] == x);
                }
                if out.contains(x) && x != last {
                    let k = choose|k: int| 0 <= k < out.len() && out[k] == x;
                    assert(before[k] == x);
                }
            }
        }
    }
}

/// A relative path is never guessed at: where it names files in two roots it is
/// refused, and where it names a file in one it resolves, if at all, to a file
/// that is there.
pub proof fn law_relative_paths_are_not_guessed(
    roots: Seq<RootModel>,
    input: Seq<char>,
    host: HostModel,
    found: Seq<FoundModel>,
    i: int,
    j: int,
)
    requires
        trim_of(input).len() > 0,
        !absolute(tilde_of(trim_of(input), host.home), host.drives),
        found.len() == roots.len(),
        forall|a: int, b: int|
            0 <= a < b < found.len() ==> (#[trigger] found[a]).key != (#[trigger] found[b]).key,
        inside_its_root(roots, found, i, host.drives),
        found[i].exists,
    ensures
        i != j && inside_its_root(roots, found, j, host.drives) && found[j].exists ==> (resolution(
            roots,
            input,
            host,
            found,
        ) matches Err(ErrorModel::Invalid(_))),
        resolution(roots, input, host, found) matches Ok(r) ==> exists|k: int|
            inside_its_root(roots, found, k, host.drives) && (#[trigger] found[k]).exists
                && found[k].key == r.path,
{
    let n = roots.len() as int;
    let inside = contained(roots, found, n, host.drives);
    let there = existing_of(inside);
    lemma_inside(roots, found, n, host.drives);
    lemma_existing_are(inside);
    assert(inside.contains(found[i]));
    assert(there.contains(found[i]));
    let p = choose|p: int| 0 <= p < there.len() && there[p] == found[i];
    if i != j && inside_its_root(roots, found, j, host.drives) && found[j].exists {
        assert(inside.contains(found[j]));
        assert(there.contains(found[j]));
        let q = choose|q: int| 0 <= q < there.len() && there[q] == found[j];
        if i < j {
            assert(found[i].key != found[j].key);
        } else {
            assert(found[j].key != found[i].key);
        }
        assert(p != q);
        assert(there.len() > 1);
    }
    if resolution(roots, input, host, found) is Ok {
        assert(there.len() == 1);
        assert(there.contains(there[0]));
        assert(inside.contains(there[0]));
        let m = choose|m: int| 0 <= m < inside.len() && inside[m] == there[0];
        let k = choose|k: int|
            0 <= k < n && inside_its_root(roots, found, k, host.drives) && #[trigger] found[k]
                == inside[m];
        assert(found[k].exists);
    }
}

} // verus!
