//! A document's history as a patch series.

use super::history::{
    at_most, law_timeline, list_versions, no_history, timeline, with_deltas,
};
use super::types::{snapshot_models, source_name, Snapshot, SnapshotModel};
use crate::corpus::sandbox::{strip_lead, without_lead};
use crate::diff::changes::{can_compare, cannot_compare, comparable, line_pieces, unwieldy};
use crate::diff::patch::patch_outcome;
use crate::diff::replay::{law_unified_then_apply, paired};
use crate::diff::unified::{follows, grouped_diff, unified, unified_of};
use crate::error::{Error, ErrorModel, Result};
use crate::store::blobs::blob_text;
use crate::store::Store;
use crate::text::{
    chars_of, decimal, decimal_of, lines, lower_of, lowercase, text_lines, trim, trim_of,
};
use crate::util::{
    display_of, display_path, document_of, ends_in_newline, lines_of, newline_of, one_line,
    HostModel,
};
use vstd::prelude::*;

verus! {

/// A text with dashes for its spaces.
pub open spec fn dashed(s: Seq<char>) -> Seq<char> {
    s.map_values(
        |c: char|
            if c == ' ' {
                '-'
            } else {
                c
            },
    )
}

fn with_dashes(s: &str) -> (out: String)
    ensures
        out@ == dashed(s@),
{
    let chars = chars_of(s);
    let mut out = String::new();
    let mut i: usize = 0;
    while i < chars.len()
        invariant
            i <= chars@.len(),
            chars@ == s@,
            out@ == dashed(s@).take(i as int),
        decreases chars@.len() - i,
    {
        let c: char = chars[i];
        out.push(if c == ' ' {
            '-'
        } else {
            c
        });
        assert(dashed(s@).take(i + 1) =~= dashed(s@).take(i as int).push(dashed(s@)[i as int]));
        i += 1;
    }
    assert(dashed(s@).take(i as int) =~= dashed(s@));
    out
}

/// The subject of a patch: the first line of the version's message, or what
/// was done to the document.
pub open spec fn subject_of(s: SnapshotModel, relative: Seq<char>) -> Seq<char> {
    let full = match s.message {
        Some(m) if trim_of(m).len() > 0 => m,
        _ => source_name(s.source) + " change to "@ + relative,
    };
    if text_lines(full).len() > 0 {
        text_lines(full)[0]
    } else {
        "change"@
    }
}

fn subject(s: &Snapshot, relative: &str) -> (out: String)
    ensures
        out@ == subject_of(s@, relative@),
{
    let mut full = s.source.as_str().to_owned();
    full.append(" change to ");
    full.append(relative);
    if let Some(m) = &s.message {
        if trim(&chars_of(m.as_str())).len() > 0 {
            full = m.clone();
        }
    }
    let rows = lines(&chars_of(full.as_str()));
    assert(crate::text::views(rows@).len() == rows@.len());
    if rows.len() > 0 {
        assert(crate::text::views(rows@)[0] == rows@[0]@);
        rows[0].clone()
    } else {
        "change".to_owned()
    }
}

/// One patch of a series.
pub open spec fn patch_of(
    index: nat,
    total: nat,
    s: SnapshotModel,
    relative: Seq<char>,
    changes: Seq<char>,
) -> Seq<char> {
    "From "@ + s.blob_hash + " Mon Sep 17 00:00:00 2001\nFrom: "@ + s.author + " <"@ + lower_of(
        dashed(s.author),
    ) + "@folio.local>\nDate: "@ + s.created_at_iso + "\nSubject: [PATCH "@ + decimal_of(index)
        + "/"@ + decimal_of(total) + "] "@ + subject_of(s, relative)
        + "\n\nRecorded by Folio: source="@ + source_name(s.source) + " author="@ + s.author
        + " version="@ + s.id + "\n---\ndiff --git a/"@ + relative + " b/"@ + relative + "\n"@
        + changes + "-- \nFolio\n\n"@
}

/// The content of the version at a place, empty where it cannot be read; and
/// before the first.
pub open spec fn text_of_row(
    rows: Seq<SnapshotModel>,
    blobs: Map<Seq<char>, Seq<u8>>,
    i: int,
) -> Seq<char> {
    if i < 0 {
        Seq::empty()
    } else {
        match blob_text(blobs, rows[i].blob_hash) {
            Some(text) => text,
            None => Seq::empty(),
        }
    }
}

/// The first `n` patches of a series over versions, oldest first.
pub open spec fn series_of(
    rows: Seq<SnapshotModel>,
    blobs: Map<Seq<char>, Seq<u8>>,
    relative: Seq<char>,
    n: int,
) -> Seq<char>
    decreases n,
{
    if n <= 0 {
        Seq::empty()
    } else {
        series_of(rows, blobs, relative, n - 1) + patch_of(
            n as nat,
            rows.len(),
            rows[n - 1],
            relative,
            unified_of(
                grouped_diff(
                    text_of_row(rows, blobs, n - 2),
                    text_of_row(rows, blobs, n - 1),
                    3,
                ),
                "a/"@ + relative,
                "b/"@ + relative,
            ),
        )
    }
}

fn write_patch(
    out: &mut String,
    index: usize,
    total: usize,
    s: &Snapshot,
    relative: &str,
    changes: &str,
)
    ensures
        final(out)@ == old(out)@ + patch_of(
            index as nat,
            total as nat,
            s@,
            relative@,
            changes@,
        ),
{
    let mut p = "From ".to_owned();
    p.append(s.blob_hash.as_str());
    p.append(" Mon Sep 17 00:00:00 2001\nFrom: ");
    p.append(s.author.as_str());
    p.append(" <");
    p.append(lowercase(with_dashes(s.author.as_str()).as_str()).as_str());
    p.append("@folio.local>\nDate: ");
    p.append(s.created_at_iso.as_str());
    p.append("\nSubject: [PATCH ");
    p.append(decimal(index as u64).as_str());
    p.append("/");
    p.append(decimal(total as u64).as_str());
    p.append("] ");
    p.append(subject(s, relative).as_str());
    p.append("\n\nRecorded by Folio: source=");
    p.append(s.source.as_str());
    p.append(" author=");
    p.append(s.author.as_str());
    p.append(" version=");
    p.append(s.id.as_str());
    p.append("\n---\ndiff --git a/");
    p.append(relative);
    p.append(" b/");
    p.append(relative);
    p.append("\n");
    p.append(changes);
    p.append("-- \nFolio\n\n");
    out.append(p.as_str());
}

/// A document's versions, oldest first, as many as are exported.
pub open spec fn exported_rows(
    s: Seq<SnapshotModel>,
    path: Seq<char>,
    any_case: bool,
) -> Seq<SnapshotModel> {
    with_deltas(at_most(timeline(s, path, any_case), 100_000)).reverse()
}

/// The path under which a document is exported.
pub open spec fn exported_path(path: Seq<char>, host: HostModel) -> Seq<char> {
    without_lead(display_of(path, host), "~/"@)
}

/// Can version `k` be compared with the one before it?
pub open spec fn row_fits(
    rows: Seq<SnapshotModel>,
    blobs: Map<Seq<char>, Seq<u8>>,
    k: int,
) -> bool {
    comparable(text_of_row(rows, blobs, k - 1), text_of_row(rows, blobs, k))
}

/// Can each of the first `n` versions be compared with the one before it?
pub open spec fn series_fits(
    rows: Seq<SnapshotModel>,
    blobs: Map<Seq<char>, Seq<u8>>,
    n: int,
) -> bool {
    forall|k: int| 0 <= k < n ==> #[trigger] row_fits(rows, blobs, k)
}

/// Is this the history of a document as patches?
pub open spec fn history_exported(
    store: Store,
    path: Seq<char>,
    out: Result<String>,
) -> bool {
    let rows = exported_rows(snapshot_models(store.snapshots@), path, store.host.drives);
    match out {
        Ok(text) => rows.len() > 0 && series_fits(rows, store.blobs@, rows.len() as int) && text@
            == series_of(
            rows,
            store.blobs@,
            exported_path(path, store.host@),
            rows.len() as int,
        ),
        Err(e) => if rows.len() == 0 {
            e@ == no_history(path)
        } else {
            !series_fits(rows, store.blobs@, rows.len() as int) && e@ == unwieldy()
        },
    }
}

/// Exports a document's history as a patch series, oldest first.
///
/// Export, do not entangle: this is the whole of the git interop. It produces
/// something `git am` understands without ever touching a repository.
pub fn export_history(store: &Store, path: &str) -> (out: Result<String>)
    ensures
        history_exported(
            *store,
            path@,
            out,
        ),
{
    let versions = list_versions(store, path, 100_000);
    let ghost rows = exported_rows(snapshot_models(store.snapshots@), path@, store.host.drives);
    let ghost back = snapshot_models(versions@);
    assert(rows =~= back.reverse());
    let total: usize = versions.len();
    if total == 0 {
        let mut m = "no versions recorded for ".to_owned();
        m.append(path);
        return Err(Error::NotFound(m));
    }
    let display = display_path(path, &store.host);
    proof {
        reveal_strlit("~/");
    }
    let relative = strip_lead(display.as_str(), "~/");
    let mut old_label = "a/".to_owned();
    old_label.append(relative.as_str());
    let mut new_label = "b/".to_owned();
    new_label.append(relative.as_str());
    let mut out = String::new();
    let mut previous = String::new();
    let mut i: usize = 0;
    assert(previous@ =~= Seq::<char>::empty());
    assert(out@ =~= Seq::<char>::empty());
    while i < total
        invariant
            i <= total,
            total == versions@.len(),
            back == snapshot_models(versions@),
            rows == back.reverse(),
            rows == exported_rows(snapshot_models(store.snapshots@), path@, store.host.drives),
            series_fits(rows, store.blobs@, i as int),
            relative@ == exported_path(path@, store.host@),
            old_label@ == "a/"@ + relative@,
            new_label@ == "b/"@ + relative@,
            previous@ == text_of_row(rows, store.blobs@, i - 1),
            out@ == series_of(rows, store.blobs@, relative@, i as int),
        decreases total - i,
    {
        let s = &versions[total - 1 - i];
        assert(s@ == rows[i as int]);
        let current = match store.blobs.get_text(s.blob_hash.as_str()) {
            Ok(text) => text,
            Err(_) => String::new(),
        };
        assert(current@ =~= text_of_row(rows, store.blobs@, i as int));
        if !can_compare(previous.as_str(), current.as_str()) {
            assert(!row_fits(rows, store.blobs@, i as int));
            return Err(cannot_compare());
        }
        let changes = unified(
            previous.as_str(),
            current.as_str(),
            old_label.as_str(),
            new_label.as_str(),
            3,
        );
        write_patch(&mut out, i + 1, total, s, relative.as_str(), changes.as_str());
        previous = current;
        i += 1;
    }
    Ok(out)
}

/// A history is exported from the oldest version to the newest: the series runs
/// over the document's timeline backwards.
pub proof fn law_export_starts_with_the_oldest(
    s: Seq<SnapshotModel>,
    path: Seq<char>,
    any_case: bool,
)
    requires
        timeline(s, path, any_case).len() <= 100_000,
    ensures
        ({
            let rows = exported_rows(s, path, any_case);
            let line = timeline(s, path, any_case);
            &&& rows.len() == line.len()
            &&& forall|i: int|
                0 <= i < rows.len() ==> (#[trigger] rows[i]).id == line[line.len() - 1 - i].id
                    && rows[i].blob_hash == line[line.len() - 1 - i].blob_hash
            &&& forall|i: int, j: int|
                0 <= i < j < rows.len() ==> (#[trigger] rows[i]).created_at <= (
                #[trigger] rows[j]).created_at
        }),
{
    law_timeline(s, path, any_case);
    let line = timeline(s, path, any_case);
    let shown = with_deltas(line);
    let rows = exported_rows(s, path, any_case);
    assert(rows =~= shown.reverse());
    assert forall|i: int, j: int| 0 <= i < j < rows.len() implies (#[trigger] rows[i]).created_at
        <= (#[trigger] rows[j]).created_at by {
        assert(rows[i] == shown[shown.len() - 1 - i]);
        assert(rows[j] == shown[shown.len() - 1 - j]);
        assert(line[line.len() - 1 - j].created_at >= line[line.len() - 1 - i].created_at);
    }
}

/// Each patch of a series leads from the version before to its own: the series
/// grows by a head, a patch and a signature, and the patch, applied to what the
/// document held before, gives what it holds then, in the newlines that it had.
/// The first one starts from an empty document. Left out are pairs of versions
/// whose changes do not follow the two texts, or in which a carriage return
/// ends a line by itself.
pub proof fn law_patches_lead_from_version_to_version(
    rows: Seq<SnapshotModel>,
    blobs: Map<Seq<char>, Seq<u8>>,
    relative: Seq<char>,
    k: int,
) -> (out: (Seq<char>, Seq<char>))
    requires
        0 <= k < rows.len(),
        row_fits(rows, blobs, k),
        one_line(relative),
        ({
            let old = text_of_row(rows, blobs, k - 1);
            let new = text_of_row(rows, blobs, k);
            let groups = grouped_diff(old, new, 3);
            &&& groups.len() > 0
            &&& follows(
                groups,
                line_pieces(old),
                line_pieces(new),
                line_pieces(old).len() as int,
                line_pieces(new).len() as int,
            )
            &&& paired(old)
            &&& paired(new)
        }),
    ensures
        ({
            let (head, patch) = out;
            let old = if k == 0 {
                Seq::empty()
            } else {
                text_of_row(rows, blobs, k - 1)
            };
            let new = text_of_row(rows, blobs, k);
            &&& series_of(rows, blobs, relative, k + 1) == series_of(rows, blobs, relative, k)
                + head + patch + "-- \nFolio\n\n"@
            &&& patch_outcome(old, patch) == Ok::<Seq<char>, ErrorModel>(
                document_of(lines_of(new), ends_in_newline(new), newline_of(old)),
            )
        }),
{
    let old = text_of_row(rows, blobs, k - 1);
    let new = text_of_row(rows, blobs, k);
    let groups = grouped_diff(old, new, 3);
    let a = "a/"@ + relative;
    let b = "b/"@ + relative;
    reveal_strlit("a/");
    reveal_strlit("b/");
    assert(one_line(a)) by {
        assert forall|i: int| 0 <= i < a.len() implies a[i] != '\n' && a[i] != '\r' by {
            if i >= 2 {
                assert(a[i] == relative[i - 2]);
            }
        }
    }
    assert(one_line(b)) by {
        assert forall|i: int| 0 <= i < b.len() implies b[i] != '\n' && b[i] != '\r' by {
            if i >= 2 {
                assert(b[i] == relative[i - 2]);
            }
        }
    }
    law_unified_then_apply(old, new, groups, a, b);
    let patch = unified_of(groups, a, b);
    let whole = patch_of((k + 1) as nat, rows.len(), rows[k], relative, patch);
    let tail = "-- \nFolio\n\n"@;
    let head = whole.take(whole.len() - tail.len() - patch.len());
    assert(whole =~= head + patch + tail);
    let before = series_of(rows, blobs, relative, k);
    assert(before + whole =~= before + head + patch + tail);
    (head, patch)
}

} // verus!
