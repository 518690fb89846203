use hypha::admin::{answer, route, Health, Route};
use hypha::auth::{AuthError, SingleKeyAuth};
use hypha::backend::{
    add_parts, after_creation, after_second_look, backend_bucket, batch_failures, batch_outcome,
    client_bucket, copy_source, encode_copy_source_key, ensure_bucket, etag_of_listed,
    list_buckets, next_marker, size_of_listed, url_decode, EnsureStep, ListedBucket,
    ListedObject, ListedPart, RemotePart, ReportedFailure,
};
use hypha::background::{
    after_shadow, after_shadow_check, after_single, begin, judge, Background, Landed,
    NextTransition, RehydrateStep, TombLookup, Transition,
};
use hypha::bucket::actor::{
    BucketActor, LifecycleRequest, ProvisionStep, Recovery, MAX_QUEUED_BUCKET_REQUESTS,
};
use hypha::bucket::ctl::{
    after_bucket_delete, after_page, after_pass, after_provision, after_sync_marker, begin_delete,
    create, delete, drain_and_delete_if_exists, drain_page, marker_present, namespace_empty,
    resolve, run_recovery, take_marker, CreateStep, DeleteAction, DeleteEvent, DrainStep,
    Emptiness, RecoveryStep, Resolution,
};
use hypha::bucket::gate::BucketStatus;
use hypha::bucket::rebuild::{
    after_comparison, confirm_remote_lost_object, is_present, owes_marker, pending_set,
    raise_upload_marker, recover_remote_only, step, Cursor, Lookup, Owes, Sighting, WalkStep,
};
use hypha::bucket::restore::{namespace, probe_for_native_objects};
use hypha::bucket::states::{BucketStates, Memo};
use hypha::error::Error;
use hypha::halt::{
    exit_if_marked, foreign_object, record, Halt, Invariant, MarkerLookup, RecordStep, Startup,
    Violation, EXIT_INVARIANT_VIOLATION,
};
use hypha::keylocks::{lock_fqn, part_fqn, LockTable};
use hypha::markers::{
    judge_write, should_write, AfterBatch, DrainVerdict, MarkerActor, MarkerMsg, OwedMarker,
    WriteFate,
};
use hypha::meta::metadata::Metadata;
use hypha::meta::sentinel::{delete_marker_body, delete_marker_etag, evict_sentinel_etag, TombKind};
use hypha::pressure::{Backpressure, Pressure};
use hypha::replication::{
    add_bucket, discharges, may_reconcile, operation_of, reconcile_page, Reconcile, UploadOutcome,
};
use hypha::serve::{Phase, ServeAction, ServeEvent, ServeState};

fn object(key: &str, size: i64, etag: &str) -> ListedObject {
    ListedObject {
        key: Some(key.to_string()),
        size: Some(size),
        etag: Some(format!("\"{etag}\"")),
        last_modified_ms: Some(1_000),
    }
}

fn metadata(entries: &[(&str, &str)]) -> Metadata {
    let mut md = Metadata::new();
    for (name, value) in entries {
        md.insert(name.to_string(), value.to_string());
    }
    md
}

// ---- pressure ---------------------------------------------------------------------------------

fn gate(max_pending: usize, max_age_ms: u64) -> Pressure {
    Pressure::new(&Backpressure { max_pending, max_age_ms })
}

#[test]
fn a_disabled_gate_admits_everything() {
    let mut p = gate(0, 0);
    assert!(!p.enabled());
    assert!(p.admits());
    p.raised();
    p.raised();
    assert!(p.admits(), "a disabled limit admits under any count");
}

#[test]
fn count_gate_admits_below_the_threshold() {
    let mut p = gate(2, 0);
    p.raised();
    p.raised();
    assert!(p.admits(), "at the threshold is not pressured");
}

#[test]
fn a_count_over_the_threshold_is_refused_immediately() {
    let mut p = gate(1, 0);
    p.raised();
    p.raised();
    assert!(!p.admits(), "an over-threshold set must refuse the next write at once");
}

#[test]
fn an_age_over_the_threshold_is_refused_immediately() {
    let mut p = gate(0, 100);
    p.publish_age(1_000);
    assert!(!p.admits());
}

#[test]
fn a_clear_that_crosses_the_threshold_reopens_the_gate() {
    let mut p = gate(1, 0);
    p.raised();
    p.raised();
    assert!(!p.admits());
    p.cleared();
    assert!(p.admits());
}

#[test]
fn a_wholesale_drain_reopens_the_gate() {
    let mut p = gate(1, 0);
    p.raised();
    p.raised();
    p.raised();
    assert!(!p.admits());
    p.drained(2);
    assert!(p.admits());
}

#[test]
fn a_published_pass_replaces_what_was_counted() {
    let mut p = gate(1, 100);
    p.publish(5, 50);
    assert!(!p.admits());
    p.publish(1, 50);
    assert!(p.admits());
    p.drained(7);
    p.cleared();
    assert!(p.admits(), "a count never goes below nothing");
}

// ---- halts ------------------------------------------------------------------------------------

#[test]
fn rendered_marker_names_the_invariant_and_the_key() {
    let body = String::from_utf8(
        Violation {
            invariant: Invariant::RemoteLostObject,
            bucket: "b".into(),
            key: Some("k".into()),
            detail: "d".into(),
        }
        .render(),
    )
    .unwrap();
    assert!(body.contains("invariant: remote-lost-object"));
    assert!(body.contains("bucket: b"));
    assert!(body.contains("key: k"));
    assert_eq!(body, "invariant: remote-lost-object\nbucket: b\nkey: k\ndetail: d\n");
}

#[test]
fn a_violation_without_a_key_renders_a_dash() {
    let v = Violation {
        invariant: Invariant::ForeignBucket,
        bucket: "b".into(),
        key: None,
        detail: "d".into(),
    };
    assert_eq!(v.render(), b"invariant: foreign-bucket\nbucket: b\nkey: -\ndetail: d\n");
    assert_eq!(foreign_object("b", "k").invariant.as_str(), "foreign-object");
}

#[test]
fn only_the_first_violation_is_recorded_and_a_record_stops_the_next_run() {
    let mut halt = Halt::new();
    assert!(halt.raise());
    assert!(!halt.raise());
    assert!(matches!(exit_if_marked(MarkerLookup::Present), Startup::Exit));
    assert!(matches!(exit_if_marked(MarkerLookup::Failed(Error::NotFound)), Startup::Continue));
    assert!(matches!(
        exit_if_marked(MarkerLookup::Failed(Error::AccessDenied)),
        Startup::Fail(Error::AccessDenied)
    ));
    assert_eq!(EXIT_INVARIANT_VIOLATION, 86);
    assert_eq!(record(false), RecordStep::Retry(2_000));
    assert_eq!(record(true), RecordStep::Exit(86));
}

// ---- locks ------------------------------------------------------------------------------------

#[test]
fn drop_evicts_idle_key() {
    let mut locks = LockTable::new();
    let epoch = locks.enter(lock_fqn("b", "k"));
    assert_eq!(locks.len(), 1);
    locks.leave(&lock_fqn("b", "k"), epoch);
    assert_eq!(locks.len(), 0, "sole holder must evict its entry on drop");
}

#[test]
fn distinct_keys_dont_block_or_share() {
    let mut locks = LockTable::new();
    let a = locks.enter(lock_fqn("b", "a"));
    let b = locks.enter(lock_fqn("b", "b"));
    assert_ne!(a, b);
    assert_eq!(locks.len(), 2);
    locks.leave(&lock_fqn("b", "a"), a);
    assert_eq!(locks.len(), 1);
    locks.leave(&lock_fqn("b", "b"), b);
    assert_eq!(locks.len(), 0);
}

#[test]
fn same_key_different_buckets_dont_share() {
    let mut locks = LockTable::new();
    let a = locks.enter(lock_fqn("b1", "k"));
    let b = locks.enter(lock_fqn("b2", "k"));
    assert_eq!(locks.len(), 2);
    locks.leave(&lock_fqn("b1", "k"), a);
    locks.leave(&lock_fqn("b2", "k"), b);
    assert_eq!(locks.len(), 0);
}

#[test]
fn waiter_keeps_entry_until_last_release() {
    let mut locks = LockTable::new();
    let held = locks.enter(lock_fqn("b", "k"));
    let waiter = locks.enter(lock_fqn("b", "k"));
    assert_eq!(held, waiter, "a waiter shares the lock that it waits for");
    locks.leave(&lock_fqn("b", "k"), held);
    assert_eq!(locks.len(), 1);
    locks.leave(&lock_fqn("b", "k"), waiter);
    assert_eq!(locks.len(), 0);
    let fresh = locks.enter(lock_fqn("b", "k"));
    assert_ne!(fresh, held);
    locks.leave(&lock_fqn("b", "k"), held);
    assert_eq!(locks.len(), 1, "a late release leaves a newer lock alone");
}

#[test]
fn part_locks_are_keyed_by_part_identity() {
    let mut locks = LockTable::new();
    let a = locks.enter(part_fqn("b", "u1", 1));
    let b = locks.enter(part_fqn("b", "u1", 2));
    assert_eq!(locks.len(), 2);
    locks.leave(&part_fqn("b", "u1", 1), a);
    locks.leave(&part_fqn("b", "u1", 2), b);
    assert_eq!(locks.len(), 0);

    assert_ne!(part_fqn("b", "u", 1), part_fqn("b", "u", 2));
    assert_ne!(part_fqn("b", "u", 1), part_fqn("b", "v", 1));
    assert_ne!(part_fqn("a", "u", 1), part_fqn("b", "u", 1));
    assert_eq!(part_fqn("b", "u", -12), "b\0u\0-12");
}

// ---- background transitions -------------------------------------------------------------------

fn rehydrate(key: &str) -> Transition {
    Transition::Rehydrate {
        bucket: "b".to_string(),
        key: key.to_string(),
        cetag: "g".to_string(),
        plen: 1,
    }
}

fn started(next: NextTransition) -> Transition {
    match next {
        NextTransition::Start(t) => t,
        _ => panic!("a transition was due"),
    }
}

#[test]
fn submit_dedups_by_key() {
    let mut background = Background::new(8);
    background.submit(rehydrate("k"));
    background.submit(rehydrate("k"));
    background.submit(rehydrate("other"));
    let first = started(background.next());
    assert_eq!(first, rehydrate("k"));
    let second = started(background.next());
    assert_eq!(second, rehydrate("other"), "a distinct key must be queued");
    assert!(
        matches!(background.next(), NextTransition::Idle),
        "a second transition of a live key must be dropped"
    );
    background.finished(&first);
    assert!(!background.is_live("b", "k"));
    assert!(background.is_live("b", "other"));
}

#[test]
fn full_queue_sheds_and_leaves_no_registry_entry() {
    let mut background = Background::new(1);
    background.submit(rehydrate("first"));
    background.submit(rehydrate("shed"));
    assert!(background.is_live("b", "first"), "the queued transition stays live");
    assert!(!background.is_live("b", "shed"), "a shed transition must leave no entry");
}

#[test]
fn cancel_trips_the_queued_jobs_token() {
    let mut background = Background::new(4);
    background.submit(rehydrate("k"));
    background.cancel("b", "k");
    assert!(background.is_cancelled("b", "k"));
    assert!(matches!(background.next(), NextTransition::Dropped));
    assert!(!background.is_live("b", "k"));
}

#[test]
fn cancel_of_an_unknown_key_is_a_noop() {
    let mut background = Background::new(4);
    background.cancel("b", "never-submitted");
    assert!(!background.is_live("b", "never-submitted"));
}

#[test]
fn what_is_queued_at_shutdown_is_abandoned() {
    let mut background = Background::new(8);
    background.submit(rehydrate("running"));
    let t = started(background.next());
    background.submit(rehydrate("queued"));
    background.abandon_queued();
    assert!(!background.is_live("b", "queued"));
    assert!(background.is_live("b", "running"));
    background.finished(&t);
    background.submit(rehydrate("late"));
    assert!(!background.is_live("b", "late"), "a closed queue takes nothing");
}

#[test]
fn a_rehydration_lands_only_the_generation_that_was_read() {
    assert!(begin(false));
    assert!(!begin(true));
    let tomb = |cetag: &str| TombLookup::Found(Some(metadata(&[("tomb", "evict"), ("cetag", cetag), ("sc", "GLACIER")])));
    match judge(tomb("g"), "g") {
        RehydrateStep::LandSingle(kept) => {
            assert_eq!(kept.get("sc").map(|s| s.as_str()), Some("GLACIER"));
            assert!(kept.get("cetag").is_none());
        }
        _ => panic!("the body was to be landed"),
    }
    assert!(matches!(judge(tomb("h"), "g"), RehydrateStep::Stop));
    assert!(matches!(judge(tomb("g-2"), "g-2"), RehydrateStep::CheckShadow));
    assert!(matches!(judge(TombLookup::Found(None), "g"), RehydrateStep::Stop));
    assert!(matches!(judge(TombLookup::Failed(Error::NotFound), "g"), RehydrateStep::Stop));
    assert!(matches!(
        judge(TombLookup::Failed(Error::SlowDown), "g"),
        RehydrateStep::Fail(Error::SlowDown)
    ));
    assert!(matches!(after_shadow_check(true), RehydrateStep::Stop));
    assert!(matches!(after_shadow_check(false), RehydrateStep::LandShadow));
    assert!(matches!(after_single(Landed::Done), RehydrateStep::DeleteTwins));
    assert!(matches!(after_single(Landed::Cancelled), RehydrateStep::Stop));
    assert!(matches!(after_shadow(Landed::Done), RehydrateStep::Stop));
    assert!(matches!(after_shadow(Landed::Failed(Error::SlowDown)), RehydrateStep::Fail(_)));
}

// ---- markers ----------------------------------------------------------------------------------

fn owed(bucket: &str, key: &str, body: &str) -> OwedMarker {
    OwedMarker { bucket: bucket.to_string(), key: key.to_string(), marker_body: body.to_string() }
}

#[test]
fn a_later_marker_replaces_an_earlier_one_of_its_key() {
    let mut actor = MarkerActor::new();
    let after = actor.receive(vec![
        MarkerMsg::Owed(owed("b", "k", "one")),
        MarkerMsg::Owed(owed("b", "k", "two")),
        MarkerMsg::Owed(owed("c", "k", "three")),
    ]);
    assert_eq!(after, AfterBatch::Continue);
    assert_eq!(actor.owed_count(), 2);
    let mut bodies: Vec<String> =
        actor.take_owed().into_iter().map(|m| m.marker_body).collect();
    bodies.sort();
    assert_eq!(bodies, ["three", "two"]);
}

#[test]
fn keys_that_run_together_with_their_buckets_stay_apart() {
    let mut actor = MarkerActor::new();
    actor.receive(vec![
        MarkerMsg::Owed(owed("a\0b", "c", "one")),
        MarkerMsg::Owed(owed("a", "b\0c", "two")),
        MarkerMsg::Owed(owed("a", "bc", "three")),
        MarkerMsg::Owed(owed("ab", "c", "four")),
        MarkerMsg::Owed(owed("a", "bc", "five")),
    ]);
    assert_eq!(actor.owed_count(), 4);
    let mut markers: Vec<(String, String, String)> = actor
        .take_owed()
        .into_iter()
        .map(|m| (m.bucket, m.key, m.marker_body))
        .collect();
    markers.sort();
    let want: Vec<(String, String, String)> = [
        ("a", "b\0c", "two"),
        ("a", "bc", "five"),
        ("a\0b", "c", "one"),
        ("ab", "c", "four"),
    ]
    .iter()
    .map(|(b, k, m)| (b.to_string(), k.to_string(), m.to_string()))
    .collect();
    assert_eq!(markers, want);
}

#[test]
fn only_a_sealed_and_empty_queue_is_clean() {
    let mut actor = MarkerActor::new();
    assert_eq!(actor.receive(Vec::new()), AfterBatch::Drain);
    assert_eq!(actor.verdict(true), DrainVerdict::NotSealed);
    assert_eq!(actor.dirty_at_drain(5, 3), 5);
    assert_eq!(
        actor.receive(vec![MarkerMsg::Owed(owed("b", "k", "one")), MarkerMsg::Seal]),
        AfterBatch::Drain
    );
    assert_eq!(actor.verdict(true), DrainVerdict::StillOwed);
    let markers = actor.take_owed();
    assert_eq!(markers, vec![owed("b", "k", "one")]);
    assert_eq!(actor.verdict(true), DrainVerdict::MarkClean);
    assert_eq!(actor.verdict(false), DrainVerdict::NothingToVouchFor);
    assert_eq!(actor.dirty_at_drain(5, 3), 2);
}

#[test]
fn a_marker_whose_bucket_is_gone_is_dropped_and_a_lost_volume_is_a_violation() {
    let marker = owed("b", "k", "one");
    assert!(should_write(false));
    assert!(!should_write(true));
    assert!(matches!(judge_write(&marker, None, false), WriteFate::Settled));
    assert!(matches!(
        judge_write(&marker, Some(&Error::SlowDown), false),
        WriteFate::Retry
    ));
    assert!(matches!(
        judge_write(&marker, Some(&Error::NoSuchBucket), true),
        WriteFate::Settled
    ));
    match judge_write(&marker, Some(&Error::NoSuchBucket), false) {
        WriteFate::Violated(v) => assert_eq!(v.invariant, Invariant::CacheVolumeLost),
        _ => panic!("a lost volume was to be reported"),
    }
}

// ---- replication ------------------------------------------------------------------------------

#[test]
fn a_page_of_markers_is_tallied_by_age() {
    let mut old = object("old", 1, "a");
    old.last_modified_ms = Some(100);
    let page = vec![object("new", 1, "b"), old, object("\u{1}\u{1}s", 0, "c")];
    let tally = reconcile_page(&page, 1_500, 0);
    assert_eq!(tally.markers.len(), 2);
    assert_eq!(tally.markers[1].etag, "a");
    assert_eq!(tally.oldest_age_ms, 1_400);
    assert_eq!(add_bucket(3, 10, Some((4, 50))), (7, 50));
    assert_eq!(add_bucket(3, 10, None), (3, 10));
}

#[test]
fn a_marker_says_what_it_is_for() {
    assert_eq!(operation_of(&delete_marker_etag()), Reconcile::PropagateDelete);
    assert_eq!(operation_of("abcd"), Reconcile::Upload);
    assert!(discharges(UploadOutcome::Uploaded));
    assert!(may_reconcile(true, true));
    assert!(!may_reconcile(true, false));
    assert!(!may_reconcile(false, true));
}

#[test]
fn outcomes_clear_their_markers_or_leave_them() {
    assert!(discharges(UploadOutcome::SkippedTombstone(TombKind::Evict)));
    assert!(!discharges(UploadOutcome::SkippedTombstone(TombKind::Transit)));
}

// ---- the pending-set rebuild ------------------------------------------------------------------

fn walk(cache: Vec<ListedObject>, remote: Vec<ListedObject>) -> Vec<Sighting> {
    let (mut c, mut r) = (Cursor::new(), Cursor::new());
    c.add_page(cache, None);
    r.add_page(remote, None);
    let mut seen = Vec::new();
    loop {
        match step(&mut c, &mut r) {
            WalkStep::Found(sighting) => seen.push(sighting),
            WalkStep::End => return seen,
            _ => panic!("both listings are whole"),
        }
    }
}

fn name(s: &Sighting) -> (String, bool) {
    match s {
        Sighting::Cached { key, remote_framed, .. } => (key.clone(), remote_framed.is_some()),
        Sighting::RemoteOnly { key } => (key.clone(), true),
    }
}

#[test]
fn a_walk_shows_every_key_of_either_side_once() {
    let seen = walk(
        vec![object("a", 1, "x"), object("c", 2, "y")],
        vec![object("b", 10, "r"), object("c", 20, "r"), object("\u{1}\u{1}h", 0, "r")],
    );
    let names: Vec<(String, bool)> = seen.iter().map(name).collect();
    assert_eq!(
        names,
        [("a".to_string(), false), ("b".to_string(), true), ("c".to_string(), true)]
    );
}

#[test]
fn a_cursor_asks_for_its_pages() {
    let mut cursor = Cursor::new();
    assert!(cursor.needs_page());
    cursor.add_page(Vec::new(), Some("t".to_string()));
    assert!(cursor.needs_page());
    assert_eq!(cursor.take_token(), Some("t".to_string()));
    cursor.add_page(vec![object("a", 1, "x")], None);
    assert!(!cursor.needs_page());
    let mut empty = Cursor::new();
    assert!(matches!(step(&mut cursor, &mut empty), WalkStep::FillRemote));
}

fn cached(size: u64, etag: &str, remote_framed: Option<u64>) -> Sighting {
    Sighting::Cached { key: "k".into(), size, etag: etag.into(), remote_framed }
}

#[test]
fn a_body_owes_its_marker_where_the_remote_lacks_it() {
    assert_eq!(owes_marker(&cached(5, "e", None), None), Owes::Upload);
    assert_eq!(owes_marker(&cached(5, "e", Some(9)), Some(8)), Owes::Upload);
    assert_eq!(owes_marker(&cached(5, "e", Some(9)), Some(9)), Owes::CompareGeneration);
    assert_eq!(owes_marker(&cached(16, &evict_sentinel_etag(), Some(9)), None), Owes::Nothing);
    assert_eq!(
        owes_marker(&cached(16, &evict_sentinel_etag(), None), None),
        Owes::ConfirmRemoteLost
    );
    assert_eq!(
        owes_marker(&Sighting::RemoteOnly { key: "k".into() }, None),
        Owes::RecoverRemoteOnly
    );
    assert_eq!(after_comparison(true), Owes::Nothing);
    assert_eq!(after_comparison(false), Owes::Upload);
}

#[test]
fn a_rebuild_judges_from_a_fresh_look() {
    let found = |etag: &str, md: &[(&str, &str)]| Lookup::Found {
        etag: Some(format!("\"{etag}\"")),
        metadata: metadata(md),
    };
    assert_eq!(is_present(&found("e", &[])), Ok(true));
    assert_eq!(is_present(&Lookup::Failed(Error::NotFound)), Ok(false));
    assert_eq!(raise_upload_marker(&found("e", &[]), "e"), Ok(true));
    assert_eq!(raise_upload_marker(&found("f", &[]), "e"), Ok(false));
    assert_eq!(raise_upload_marker(&Lookup::Failed(Error::NotFound), "e"), Ok(false));
    assert_eq!(recover_remote_only(false, true), Some(delete_marker_body()));
    assert_eq!(recover_remote_only(true, true), None);
    assert_eq!(recover_remote_only(false, false), None);
    let lost = confirm_remote_lost_object("b", "k", false, &found("e", &[("tomb", "evict")]));
    assert_eq!(lost.unwrap().map(|v| v.invariant), Some(Invariant::RemoteLostObject));
    assert!(confirm_remote_lost_object("b", "k", true, &found("e", &[("tomb", "evict")]))
        .unwrap()
        .is_none());
    assert!(pending_set(true, "b").is_none());
    assert_eq!(
        pending_set(false, "b").map(|v| v.invariant),
        Some(Invariant::PendingRebuildInDurableMode)
    );
}

#[test]
fn a_restore_lists_client_keys_and_refuses_bodies() {
    let page = vec![object("a", 5, "x"), object("\u{1}\u{1}h", 0, "y"), object("b", 1, "z")];
    assert_eq!(namespace(&page), vec!["a", "b"]);
    let tombs = vec![object("a", 16, &evict_sentinel_etag())];
    assert!(probe_for_native_objects("b", &tombs).is_none());
    let found = probe_for_native_objects("b", &page).expect("a body was to be reported");
    assert_eq!(found.invariant, Invariant::PlaintextDuringRestore);
}

// ---- the life of a bucket ---------------------------------------------------------------------

#[test]
fn a_bucket_is_resolved_from_its_markers() {
    assert_eq!(
        resolve(true, false, true, true),
        Resolution {
            status: BucketStatus::Restoring,
            accounted: false,
            recovery: Some(Recovery::Restore),
            shadows_accounted: false,
            sweep: false,
        }
    );
    let dirty = resolve(true, true, false, false);
    assert_eq!(dirty.status, BucketStatus::Ready);
    assert_eq!(dirty.recovery, Some(Recovery::RebuildPending));
    assert!(dirty.sweep && !dirty.accounted);
    let clean = resolve(true, true, true, true);
    assert!(clean.accounted && clean.shadows_accounted && clean.recovery.is_none() && !clean.sweep);
    let durable = resolve(false, true, false, false);
    assert!(!durable.accounted && durable.recovery.is_none() && !durable.sweep);
    assert_eq!(marker_present(Ok(())), Ok(true));
    assert_eq!(marker_present(Err(Error::NoSuchBucket)), Ok(false));
    assert_eq!(marker_present(Err(Error::SlowDown)), Err(Error::SlowDown));
    assert_eq!(take_marker(false, None), Ok(false));
    assert_eq!(take_marker(true, Some(Ok(()))), Ok(true));
    assert_eq!(take_marker(true, Some(Err(Error::SlowDown))), Err(Error::SlowDown));
}

#[test]
fn a_create_commits_on_the_remote() {
    assert!(matches!(
        create("b", Err(Error::NoSuchBucket), BucketStatus::Absent),
        CreateStep::ResetThenCreate
    ));
    assert!(matches!(create("b", Ok(()), BucketStatus::Ready), CreateStep::CreateRemote));
    assert!(matches!(
        create("b", Err(Error::SlowDown), BucketStatus::Absent),
        CreateStep::Fail(Error::SlowDown)
    ));
    match create("b", Ok(()), BucketStatus::Absent) {
        CreateStep::Halt(v) => {
            assert_eq!(v.invariant, Invariant::ForeignBucket);
            assert!(v.detail.starts_with("the remote holds a bucket hypha did not create"));
        }
        _ => panic!("a foreign bucket was to halt the deployment"),
    }
}

#[test]
fn a_delete_closes_what_it_listed_as_empty() {
    assert_eq!(begin_delete(false), DeleteAction::Refused(Error::NoSuchBucket));
    assert_eq!(begin_delete(true), DeleteAction::LookAtGate);
    assert_eq!(delete(DeleteEvent::GateSeen(true)), DeleteAction::ListNamespace);
    assert_eq!(
        delete(DeleteEvent::GateSeen(false)),
        DeleteAction::Refused(Error::OperationAborted)
    );
    assert_eq!(
        delete(DeleteEvent::Listed(Ok(false))),
        DeleteAction::Refused(Error::BucketNotEmpty)
    );
    assert_eq!(delete(DeleteEvent::Listed(Ok(true))), DeleteAction::CloseGate);
    assert_eq!(
        delete(DeleteEvent::Closed(false)),
        DeleteAction::Refused(Error::OperationAborted)
    );
    assert_eq!(delete(DeleteEvent::Closed(true)), DeleteAction::DrainRemote);
    assert_eq!(delete(DeleteEvent::RemoteDrained(Ok(()))), DeleteAction::Commit);
    assert_eq!(
        delete(DeleteEvent::RemoteDrained(Err(Error::SlowDown))),
        DeleteAction::Reopen(Error::SlowDown)
    );
    assert_eq!(delete(DeleteEvent::Committed), DeleteAction::DrainData);
    assert_eq!(delete(DeleteEvent::DataDrained), DeleteAction::DrainMeta);
    assert_eq!(delete(DeleteEvent::MetaDrained), DeleteAction::Deleted);
}

#[test]
fn reserved_keys_do_not_hold_a_bucket_open() {
    let reserved = vec![object("\u{1}\u{1}h", 0, "x")];
    assert_eq!(namespace_empty(true, &reserved, None, None), Emptiness::Occupied);
    assert_eq!(namespace_empty(true, &Vec::new(), None, None), Emptiness::Empty);
    assert_eq!(
        namespace_empty(false, &reserved, Some(true), Some("t".into())),
        Emptiness::ReadOn("t".into())
    );
    assert_eq!(namespace_empty(false, &reserved, Some(true), None), Emptiness::Empty);
    assert_eq!(
        namespace_empty(false, &vec![object("k", 1, "x")], None, None),
        Emptiness::Occupied
    );
}

#[test]
fn a_drain_counts_the_markers_that_it_deletes() {
    assert_eq!(drain_and_delete_if_exists(Ok(())), DrainStep::List);
    assert_eq!(drain_and_delete_if_exists(Err(Error::NoSuchBucket)), DrainStep::Done(0));
    let (keys, markers) = drain_page(&vec![
        object("k", 1, "x"),
        object("\u{1}k\u{1}facts", 0, "y"),
        object("l", 1, "z"),
    ]);
    assert_eq!(keys.len(), 3);
    assert_eq!(markers, 2);
    assert_eq!(after_page(3, Some(true)), DrainStep::List);
    assert_eq!(after_page(0, Some(true)), DrainStep::DeleteBucket);
    assert_eq!(after_page(3, None), DrainStep::DeleteBucket);
    assert_eq!(after_bucket_delete(Err(Error::NoSuchBucket), 2), DrainStep::Done(2));
    assert_eq!(
        after_bucket_delete(Err(Error::SlowDown), 2),
        DrainStep::Fail(Error::SlowDown)
    );
}

#[test]
fn a_recovery_that_cannot_run_is_retried() {
    assert_eq!(run_recovery(&Ok(())), RecoveryStep::Provision);
    assert_eq!(run_recovery(&Err(Error::NoSuchBucket)), RecoveryStep::Retire);
    assert_eq!(run_recovery(&Err(Error::SlowDown)), RecoveryStep::Retry);
    assert_eq!(
        after_provision(true, Recovery::Restore),
        RecoveryStep::Run(Recovery::Restore)
    );
    assert_eq!(after_provision(false, Recovery::Restore), RecoveryStep::Retry);
    assert_eq!(after_pass(Recovery::Restore, true), RecoveryStep::WriteSyncMarker);
    assert_eq!(after_pass(Recovery::RebuildPending, true), RecoveryStep::Account);
    assert_eq!(after_pass(Recovery::RebuildPending, false), RecoveryStep::Retry);
    assert_eq!(after_sync_marker(true), RecoveryStep::FlipAndAccount);
    assert_eq!(after_sync_marker(false), RecoveryStep::Retry);
}

#[test]
fn requests_wait_in_order_behind_one_task() {
    let mut actor = BucketActor::new();
    assert!(actor.enqueue_request("b".into(), LifecycleRequest::Create(1)));
    assert!(actor.enqueue_request("b".into(), LifecycleRequest::Delete(2)));
    actor.enqueue_recovery("b".into(), Recovery::Restore);
    let (bucket, work) = actor.dispatch().expect("the bucket has work");
    assert_eq!(bucket, "b");
    assert_eq!(work.requests, vec![LifecycleRequest::Create(1), LifecycleRequest::Delete(2)]);
    assert_eq!(work.recovery, Some(Recovery::Restore));
    assert!(actor.enqueue_request("b".into(), LifecycleRequest::Create(3)));
    assert!(actor.dispatch().is_none(), "a task already works on the bucket");
    actor.finish_batch("b");
    assert_eq!(actor.dispatch().unwrap().1.requests, vec![LifecycleRequest::Create(3)]);
    actor.close();
    assert!(!actor.is_done());
    actor.finish_batch("b");
    assert!(actor.is_done());
}

#[test]
fn a_full_backlog_is_refused() {
    let mut actor = BucketActor::new();
    for i in 0..MAX_QUEUED_BUCKET_REQUESTS {
        assert!(actor.enqueue_request("b".into(), LifecycleRequest::Create(i as u64)));
    }
    assert!(!actor.enqueue_request("b".into(), LifecycleRequest::Create(9)));
    assert!(actor.enqueue_request("c".into(), LifecycleRequest::Create(9)));
}

#[test]
fn callers_share_one_provisioning() {
    let mut actor = BucketActor::new();
    assert_eq!(actor.provision("b", 1, true), ProvisionStep::Answer);
    assert_eq!(actor.provision("b", 1, false), ProvisionStep::Start);
    assert_eq!(actor.provision("b", 2, false), ProvisionStep::Wait);
    assert_eq!(actor.provision("c", 3, false), ProvisionStep::Start);
    assert_eq!(actor.finish_provision("b"), vec![1, 2]);
    assert!(actor.finish_provision("b").is_empty());
    assert_eq!(actor.provision("b", 4, false), ProvisionStep::Start);
}

#[test]
fn a_bucket_remembers_only_what_there_is_evidence_for() {
    let mut states: BucketStates<u32> = BucketStates::new();
    states.account_for("b");
    assert!(states.gate("b").is_none(), "a bucket that is not published stays so");
    states.birth("b".into(), 7);
    states.birth("b".into(), 8);
    assert_eq!(states.gate("b"), Some(&7));
    assert!(!states.holds("b", Memo::Accounted));
    states.account_for("b");
    states.account_shadows_for("b");
    states.created("c".into(), 9);
    assert!(states.holds("c", Memo::Provisioned) && states.holds("c", Memo::Accounted));
    let mut accounted = states.having(Memo::Accounted);
    accounted.sort();
    assert_eq!(accounted, ["b", "c"]);
    assert_eq!(states.having(Memo::ShadowsAccounted), vec!["b"]);
    states.unaccount("b");
    states.unaccount_shadows("b");
    states.update("b", Memo::Provisioned, true);
    assert_eq!(states.having(Memo::Accounted), vec!["c"]);
    assert!(states.having(Memo::ShadowsAccounted).is_empty());
    states.retire("c");
    assert_eq!(states.buckets(), vec!["b"]);
}

// ---- the run ----------------------------------------------------------------------------------

#[test]
fn a_run_ends_in_three_phases() {
    let mut run = ServeState::new();
    assert_eq!(run.serve(ServeEvent::Accepted), ServeAction::ServeConnection);
    assert_eq!(run.serve(ServeEvent::Shutdown), ServeAction::DrainConnections);
    assert_eq!(run.serve(ServeEvent::Settled), ServeAction::Wait);
    assert_eq!(run.serve(ServeEvent::ConnectionsDrained), ServeAction::Seal);
    assert_eq!(run.serve(ServeEvent::Settled), ServeAction::Quiesce);
    assert_eq!(run.serve(ServeEvent::Quiesced), ServeAction::Return);
    assert_eq!(run.phase, Phase::Ended);
}

#[test]
fn a_drain_that_times_out_seals_nothing() {
    let mut run = ServeState::new();
    run.serve(ServeEvent::Shutdown);
    assert_eq!(run.serve(ServeEvent::DrainFailed), ServeAction::AbortAndQuiesce);
    assert_eq!(run.serve(ServeEvent::Quiesced), ServeAction::Return);
}

#[test]
fn failed_accepts_back_off_and_a_good_one_resets() {
    let mut run = ServeState::new();
    let mut waits = Vec::new();
    for _ in 0..9 {
        match run.serve(ServeEvent::AcceptFailed) {
            ServeAction::RetryAccept(ms) => waits.push(ms),
            other => panic!("{other:?}"),
        }
        assert_eq!(run.serve(ServeEvent::BackoffElapsed), ServeAction::Accept);
    }
    assert_eq!(waits, [10, 20, 40, 80, 160, 320, 640, 1000, 1000]);
    run.serve(ServeEvent::Accepted);
    assert_eq!(run.serve(ServeEvent::AcceptFailed), ServeAction::RetryAccept(10));
}

#[test]
fn a_halt_holds_the_run_for_ever() {
    let mut run = ServeState::new();
    assert_eq!(run.serve(ServeEvent::Halt), ServeAction::AwaitExit);
    for event in [ServeEvent::Shutdown, ServeEvent::Quiesced, ServeEvent::Halt] {
        assert_eq!(run.serve(event), ServeAction::Wait);
    }
    assert_eq!(run.phase, Phase::Halted);
}

#[test]
fn probes_are_answered_by_path() {
    let mut health = Health::new();
    assert!(!health.ready(true));
    health.started();
    assert!(health.ready(true));
    assert!(!health.ready(false));
    assert_eq!(answer(route("/readyz"), true, String::new()), (200, "ready".to_string()));
    assert_eq!(answer(route("/readyz"), false, String::new()), (503, "not ready".to_string()));
    assert_eq!(answer(route("/healthz"), false, String::new()), (200, "ok".to_string()));
    assert_eq!(answer(route("/metrics"), false, "m".to_string()), (200, "m".to_string()));
    assert_eq!(route("/other"), Route::Unknown);
    assert_eq!(answer(Route::Unknown, true, String::new()).0, 404);
    health.stopping();
    assert!(!health.ready(true));
}

#[test]
fn one_access_key_is_known() {
    let auth = SingleKeyAuth::new("ak".to_string(), "sk".to_string());
    assert_eq!(auth.get_secret_key("ak"), Ok("sk".to_string()));
    assert_eq!(
        auth.get_secret_key("other"),
        Err(AuthError { code: "InvalidAccessKeyId", message: "unknown access key" })
    );
}

// ---- backends and errors ----------------------------------------------------------------------

#[test]
fn backend_errors_keep_their_meaning() {
    let e = |status, code: Option<&str>| Error::from_sdk(status, code, "detail".to_string());
    assert_eq!(e(Some(403), Some("NoSuchKey")), Error::AccessDenied);
    assert_eq!(e(Some(404), Some("NoSuchKey")), Error::NotFound);
    assert_eq!(e(Some(404), Some("NoSuchBucket")), Error::NoSuchBucket);
    assert_eq!(e(Some(412), Some("PreconditionFailed")), Error::PreconditionFailed);
    assert_eq!(e(Some(500), Some("InternalError")), Error::Backend("detail".to_string()));
    assert_eq!(Error::NotFound.of_bucket(), Error::NoSuchBucket);
    assert!(Error::NotFound.is_absence());
    assert!(!Error::AccessDenied.is_absence());
    assert_eq!(Error::NotFound.s3_code(), "NoSuchKey");
    assert_eq!(Error::Invalid("why".into()).duplicate(), Error::Invalid("why".into()));
    assert!(Error::Backend("broken".into()).message().contains("broken"));
}

#[test]
fn bucket_names_carry_the_prefix() {
    assert_eq!(backend_bucket("h-", "b"), "h-b");
    assert_eq!(client_bucket("h-", "h-b"), Some("b".to_string()));
    assert_eq!(client_bucket("h-", "x-b"), None);
    let listed = vec![
        ListedBucket { name: Some("h-a".into()), created_ms: Some(5) },
        ListedBucket { name: Some("other".into()), created_ms: None },
        ListedBucket { name: None, created_ms: None },
    ];
    assert_eq!(list_buckets("h-", &listed), vec![("a".to_string(), Some(5))]);
}

#[test]
fn keys_of_listings_and_copy_sources_are_encoded() {
    assert_eq!(url_decode("a%20b%2Fc"), "a b/c");
    assert_eq!(url_decode("%ff"), "\u{fffd}");
    assert_eq!(encode_copy_source_key("a b/\u{e9}"), "a%20b/%C3%A9");
    assert_eq!(url_decode(&encode_copy_source_key("a b%/\u{e9}+~")), "a b%/\u{e9}+~");
    assert_eq!(copy_source("h-", "b", "k 1"), "h-b/k%201");
    assert_eq!(size_of_listed(Some(-1)), 0);
    assert_eq!(etag_of_listed(&Some("\"e\"".into())), "e");
    assert_eq!(etag_of_listed(&None), "");
}

#[test]
fn parts_and_batch_failures_are_read_page_by_page() {
    let mut parts = Vec::new();
    add_parts(
        &mut parts,
        &vec![
            ListedPart {
                number: Some(2),
                etag: Some("\"p\"".into()),
                size: Some(9),
                last_modified_ms: Some(4),
            },
            ListedPart { number: None, etag: None, size: None, last_modified_ms: None },
        ],
    );
    assert_eq!(
        parts,
        vec![RemotePart { number: 2, etag: "p".into(), size: 9, last_modified_ms: 4 }]
    );
    assert_eq!(next_marker(Some(true), Some("m".into())), Some("m".to_string()));
    assert_eq!(next_marker(None, Some("m".into())), None);
    let failed = batch_failures(vec![ReportedFailure {
        key: Some("k".into()),
        code: Some("AccessDenied".into()),
        message: Some("no".into()),
    }]);
    assert_eq!(failed.len(), 1);
    assert_eq!(failed[0].key, "k");
    assert_eq!(batch_outcome(&Vec::new(), 3), Ok(()));
    match batch_outcome(&failed, 3) {
        Err(Error::Backend(why)) => assert!(why.contains('3') && why.contains('k'), "{why}"),
        other => panic!("{other:?}"),
    }
}

#[test]
fn a_bucket_that_another_created_will_do() {
    assert_eq!(ensure_bucket(Ok(())), EnsureStep::Ready);
    assert_eq!(ensure_bucket(Err(Error::NoSuchBucket)), EnsureStep::Create);
    assert_eq!(ensure_bucket(Err(Error::SlowDown)), EnsureStep::Failed(Error::SlowDown));
    assert_eq!(after_creation(&Ok(())), EnsureStep::Ready);
    assert_eq!(after_creation(&Err(Error::SlowDown)), EnsureStep::LookAgain);
    assert_eq!(after_second_look(Error::SlowDown, true), EnsureStep::Ready);
    assert_eq!(
        after_second_look(Error::SlowDown, false),
        EnsureStep::Failed(Error::SlowDown)
    );
}
