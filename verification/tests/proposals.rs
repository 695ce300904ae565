//! Proposing, accepting, rejecting, rebasing.

use folio_core::corpus::{self, Policy, Resolved, Root, RootKind};
use folio_core::disk::Disk;
use folio_core::proposal::{
    accept, get, list, pending_counts, proposed_content, rebase, reject, review_diff, Change,
    CreateRequest, ListFilter, Proposal, Status, WriteOutcome,
};
use folio_core::store::Store;
use folio_core::version::{record_from_disk, Source};
use folio_core::Config;

struct Fixture {
    store: Store,
    disk: Disk,
    cfg: Config,
    resolved: Resolved,
}

fn root(policy: Policy) -> Root {
    Root {
        id: "root_t".into(),
        display: "/work".into(),
        path: "/work".into(),
        kind: RootKind::Dir,
        policy,
        label: "work".into(),
        added_at: 0,
    }
}

fn at(policy: Policy) -> Resolved {
    Resolved { root: root(policy), path: "/work/PLAN.md".into(), dirs: vec![] }
}

fn fixture(initial: &str) -> Fixture {
    let mut store = Store::open("/store", None);
    store.roots.push(root(Policy::Propose));
    let mut f = Fixture {
        store,
        disk: Disk::new(),
        cfg: Config::default(),
        resolved: at(Policy::Propose),
    };
    f.outside_edit(initial);
    f
}

impl Fixture {
    /// Somebody else edits the file, and the change is noticed.
    fn outside_edit(&mut self, text: &str) {
        self.disk.write("/work/PLAN.md", text.as_bytes(), 0);
        record_from_disk(
            &mut self.store,
            &self.disk,
            &self.cfg,
            &self.resolved,
            Source::External,
            None,
            None,
            None,
        )
        .unwrap();
    }

    fn on_disk(&self) -> String {
        self.disk.read_text("/work/PLAN.md").unwrap()
    }

    fn propose(&mut self, content: &str) -> Proposal {
        let request = CreateRequest {
            resolved: &self.resolved,
            change: Change::Content(content),
            base_version: None,
            author: "sonnet-4.6",
            client: "alpha-code",
            message: Some("Tighten the threshold"),
            addressing: None,
        };
        match folio_core::proposal::create::write(&mut self.store, &mut self.disk, &self.cfg, &request).unwrap() {
            WriteOutcome::Proposed { proposal } => *proposal,
            other => panic!("expected a proposal, got {other:?}"),
        }
    }

    fn status(&self, p: &Proposal) -> Status {
        get(&self.store, &self.disk, &p.id).unwrap().status
    }
}

#[test]
fn a_propose_policy_queues_rather_than_writing() {
    let mut f = fixture("one\n\ntwo\n");
    let p = f.propose("one\n\nTWO\n");
    assert_eq!(p.status, Status::Pending);
    assert_eq!(f.on_disk(), "one\n\ntwo\n");
    assert_eq!(p.stats.as_ref().unwrap().added, 1);
}

#[test]
fn accepting_applies_to_disk_and_snapshots_with_the_agent_as_author() {
    let mut f = fixture("one\n\ntwo\n");
    let p = f.propose("one\n\nTWO\n");
    let decision =
        accept(&mut f.store, &mut f.disk, &f.cfg, &f.resolved, &p.id, None).unwrap();
    assert_eq!(f.on_disk(), "one\n\nTWO\n");
    let snap = decision.snapshot.unwrap();
    assert_eq!(snap.author, "sonnet-4.6");
    assert_eq!(snap.source, Source::Proposal);
    assert_eq!(decision.proposal.status, Status::Accepted);
}

#[test]
fn mod_hunk_level_accept_applies_exactly_the_accepted_hunks() {
    let mut f = fixture("one\n\ntwo\n\nthree\n");
    let p = f.propose("ONE\n\ntwo\n\nTHREE\n");
    let (_, _, d) = review_diff(&f.store, &f.disk, &p).unwrap();
    assert_eq!(d.hunks.len(), 2);
    let decision =
        accept(&mut f.store, &mut f.disk, &f.cfg, &f.resolved, &p.id, Some(&[1])).unwrap();
    assert_eq!(f.on_disk(), "one\n\ntwo\n\nTHREE\n");
    assert_eq!(decision.applied_hunks, Some(vec![1]));
}

#[test]
fn rejecting_records_a_note_the_agent_can_read_back() {
    let mut f = fixture("one\n");
    let p = f.propose("ONE\n");
    reject(&mut f.store, &f.disk, &p.id, Some("Keep 4+; 3-row tables are fine inline.")).unwrap();
    let filter = ListFilter { status: Some(Status::Rejected), ..Default::default() };
    let rejected = list(&f.store, &f.disk, &filter);
    assert_eq!(rejected.len(), 1);
    assert!(rejected[0].decision_note.as_ref().unwrap().contains("3-row tables"));
    assert_eq!(f.on_disk(), "one\n");
}

#[test]
fn a_file_that_moved_under_a_proposal_reads_as_a_conflict_and_rebases() {
    let mut f = fixture("alpha\n\nbeta\n\ngamma\n");
    let p = f.propose("alpha\n\nBETA\n\ngamma\n");

    // Someone else edits a different paragraph on disk.
    f.outside_edit("ALPHA\n\nbeta\n\ngamma\n");
    assert_eq!(f.status(&p), Status::Conflict);

    let rebased = rebase(&mut f.store, &f.disk, &p.id).unwrap();
    assert_eq!(rebased.status, Status::Pending, "rebase clears the conflict");
    let merged = proposed_content(&f.store, &rebased).unwrap();
    assert_eq!(merged, "ALPHA\n\nBETA\n\ngamma\n", "both changes survive the merge");
}

#[test]
fn a_task_list_takes_the_direct_path_and_writes_immediately() {
    let mut f = fixture("# TODO\n\n- [ ] one @carlos\n- [ ] two @carlos\n");
    // The root is `propose`; switch it to `auto` so type decides.
    corpus::set_root_policy(&mut f.store, "root_t", Policy::Auto).unwrap();
    let resolved = at(Policy::Auto);

    let request = CreateRequest {
        resolved: &resolved,
        change: Change::Content("# TODO\n\n- [ ] one @carlos\n- [x] two @carlos\n"),
        base_version: None,
        author: "sonnet-4.6",
        client: "alpha-code",
        message: Some("tick two"),
        addressing: None,
    };
    let outcome = folio_core::proposal::create::write(&mut f.store, &mut f.disk, &f.cfg, &request).unwrap();
    assert!(matches!(outcome, WriteOutcome::Applied { .. }));
    assert!(f.on_disk().contains("- [x] two"));
}

#[test]
fn a_patch_change_applies_against_the_recorded_base() {
    let mut f = fixture("one\ntwo\nthree\n");
    let request = CreateRequest {
        resolved: &f.resolved,
        change: Change::Patch("@@ -1,3 +1,3 @@\n one\n-two\n+TWO\n three\n"),
        base_version: None,
        author: "codex",
        client: "codex-cli",
        message: Some("uppercase"),
        addressing: None,
    };
    let outcome = folio_core::proposal::create::write(&mut f.store, &mut f.disk, &f.cfg, &request).unwrap();
    let WriteOutcome::Proposed { proposal } = outcome else { panic!("expected a proposal") };
    assert_eq!(proposed_content(&f.store, &proposal).unwrap(), "one\nTWO\nthree\n");
}

#[test]
fn same_client_proposals_queue_and_both_edits_survive_acceptance() {
    let mut f = fixture("one\n\ntwo\n\nthree\n");
    let first = f.propose("ONE\n\ntwo\n\nthree\n");
    let second = f.propose("one\n\ntwo\n\nTHREE\n");

    assert_eq!(f.status(&first), Status::Pending);
    assert_eq!(f.status(&second), Status::Pending);
    let counts = pending_counts(&f.store);
    assert_eq!(counts.iter().find(|t| t.key == f.resolved.path).unwrap().count, 2);

    accept(&mut f.store, &mut f.disk, &f.cfg, &f.resolved, &second.id, None).unwrap();
    accept(&mut f.store, &mut f.disk, &f.cfg, &f.resolved, &first.id, None).unwrap();
    assert_eq!(f.on_disk(), "ONE\n\ntwo\n\nTHREE\n");
    assert_eq!(f.status(&first), Status::Accepted);
    assert_eq!(f.status(&second), Status::Accepted);
}

#[test]
fn overlapping_queued_edits_conflict_instead_of_dropping_the_first() {
    let mut f = fixture("one\n");
    let first = f.propose("ONE\n");
    let second = f.propose("One!\n");

    accept(&mut f.store, &mut f.disk, &f.cfg, &f.resolved, &first.id, None).unwrap();
    let err =
        accept(&mut f.store, &mut f.disk, &f.cfg, &f.resolved, &second.id, None).unwrap_err();

    assert_eq!(err.code(), "conflict");
    assert_eq!(f.on_disk(), "ONE\n");
    assert_eq!(f.status(&second), Status::Conflict);
}

#[test]
fn the_pending_queue_is_capped() {
    let mut f = fixture("one\n");
    f.propose("ONE\n");
    f.cfg.max_pending_proposals = 1;
    let request = CreateRequest {
        resolved: &f.resolved,
        change: Change::Content("one!\n"),
        base_version: None,
        author: "a",
        client: "other-client",
        message: None,
        addressing: None,
    };
    let err = folio_core::proposal::create::write(&mut f.store, &mut f.disk, &f.cfg, &request).unwrap_err();
    assert_eq!(err.code(), "queue_full");
}

#[test]
fn a_no_op_proposal_is_refused() {
    let mut f = fixture("one\n");
    let request = CreateRequest {
        resolved: &f.resolved,
        change: Change::Content("one\n"),
        base_version: None,
        author: "a",
        client: "c",
        message: None,
        addressing: None,
    };
    let err = folio_core::proposal::create::write(&mut f.store, &mut f.disk, &f.cfg, &request).unwrap_err();
    assert_eq!(err.code(), "invalid");
}

#[test]
fn a_stale_base_is_refused_with_the_version_that_stands() {
    let mut f = fixture("one\n");
    let base = folio_core::version::latest(&f.store, "/work/PLAN.md").unwrap().id;
    f.outside_edit("two\n");
    let request = CreateRequest {
        resolved: &f.resolved,
        change: Change::Content("three\n"),
        base_version: Some(&base),
        author: "a",
        client: "c",
        message: None,
        addressing: None,
    };
    let err = folio_core::proposal::create::write(&mut f.store, &mut f.disk, &f.cfg, &request).unwrap_err();
    assert_eq!(err.code(), "stale");
}

#[test]
fn a_decision_is_taken_once() {
    let mut f = fixture("one\n");
    let p = f.propose("ONE\n");
    accept(&mut f.store, &mut f.disk, &f.cfg, &f.resolved, &p.id, None).unwrap();
    let again = accept(&mut f.store, &mut f.disk, &f.cfg, &f.resolved, &p.id, None).unwrap_err();
    assert_eq!(again.code(), "invalid");
    assert_eq!(reject(&mut f.store, &f.disk, &p.id, None).unwrap_err().code(), "invalid");
    assert_eq!(f.on_disk(), "ONE\n");
    assert_eq!(get(&f.store, &f.disk, "prop_none").unwrap_err().code(), "not_found");
}

#[test]
fn a_hunk_that_is_not_there_is_refused() {
    let mut f = fixture("one\n");
    let p = f.propose("ONE\n");
    let err =
        accept(&mut f.store, &mut f.disk, &f.cfg, &f.resolved, &p.id, Some(&[7])).unwrap_err();
    assert_eq!(err.code(), "invalid");
    assert_eq!(f.on_disk(), "one\n");
}

#[test]
fn chosen_hunks_are_put_on_the_file_as_it_stands() {
    let mut f = fixture("one\n\ntwo\n\nthree\n");
    let p = f.propose("ONE\n\ntwo\n\nTHREE\n");
    f.outside_edit("one\n\ntwo\n\nthree\n\nfour\n\nfive\n");
    let (current, proposed, d) = review_diff(&f.store, &f.disk, &p).unwrap();
    assert_eq!(current, "one\n\ntwo\n\nthree\n\nfour\n\nfive\n");
    assert_eq!(proposed, "ONE\n\ntwo\n\nTHREE\n");
    assert_eq!(d.hunks.len(), 2);
    let decision =
        accept(&mut f.store, &mut f.disk, &f.cfg, &f.resolved, &p.id, Some(&[0])).unwrap();
    assert_eq!(f.on_disk(), "ONE\n\ntwo\n\nthree\n\nfour\n\nfive\n");
    assert_eq!(decision.applied_hunks, Some(vec![0]));
    assert_eq!(decision.proposal.status, Status::Accepted);
}

#[test]
fn a_whole_proposal_is_not_accepted_over_a_file_that_moved_in_the_same_place() {
    let mut f = fixture("one\n\ntwo\n");
    let p = f.propose("one\n\nTWO\n");
    f.outside_edit("one\n\nzwei\n");
    let err = accept(&mut f.store, &mut f.disk, &f.cfg, &f.resolved, &p.id, None).unwrap_err();
    assert_eq!(err.code(), "conflict");
    assert_eq!(f.on_disk(), "one\n\nzwei\n");
}

#[test]
fn proposals_are_found_under_every_spelling_where_case_does_not_count() {
    let mut f = fixture("one\n");
    f.store.host.drives = true;
    f.propose("two\n");
    f.resolved.path = "/work/plan.md".into();
    f.disk.write("/work/plan.md", b"one\n", 0);
    f.propose("three\n");
    let filter = ListFilter { path: Some("/WORK/plan.md".into()), ..Default::default() };
    assert_eq!(list(&f.store, &f.disk, &filter).len(), 2);
    let counts = pending_counts(&f.store);
    assert_eq!(counts.len(), 1);
    assert_eq!((counts[0].key.as_str(), counts[0].count), ("/work/plan.md", 2));
    f.store.host.drives = false;
    assert_eq!(list(&f.store, &f.disk, &filter).len(), 0);
    assert_eq!(pending_counts(&f.store).len(), 2);
}
