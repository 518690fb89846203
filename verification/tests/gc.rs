use std::collections::HashSet;

use hypha::backend::ListedObject;
use hypha::config::{Fraction, Gc, Recency};
use hypha::error::Error;
use hypha::gc::age::Age;
use hypha::gc::debris::{
    has_record, is_orphan_twin, next_upload_page, reclaimed, KeyLookup, LiveUpload, Swept,
    UploadRecord, UploadSweep,
};
use hypha::gc::evict::{begin_eviction, evict, EvictAction, EvictEvent};
use hypha::gc::ladder::{Ladder, Rung};
use hypha::gc::orphans::{
    drop_shadow, hand_over, has_shadow, judge_listing, reads_on, reclaim, should_list,
    still_reachable, sweep, Handover, ListingFate, OrphanActor, OrphanMsg, ShadowLookup,
    ShadowStep, Superseded, RANGE_PAGES,
};
use hypha::gc::pass::{
    after_sweep, byte_target, evictable, probe, report, round_end, settle, touch, Aged,
    EvictionRun, PassReport, Plaintext, Reading, Schedule,
};
use hypha::gc::ring::{qualified, RecencyRing, RetiredSlice};
use hypha::gc::scan::{
    fill_position, leading, meta_position, probe_bodies, probe_meta, random_digest_position,
    random_key_position, random_meta_position, shaped_position, Artifact, Candidate,
    PageRequest, Sample, SampledEntry, POSITION_LEN,
};
use hypha::gc::store::{load, prune, slice_keys};
use hypha::gc::usage::{
    master_address, total_usage, DataCenter, DataNode, DirStatus, DiskStatus, Rack, Topology,
    Usage, VolumeStatus,
};
use hypha::markers::{AfterBatch, DrainVerdict};
use hypha::meta::admission::validate_client_key;
use hypha::meta::keyspace::{
    encode_shadow_client_key, mpu_part_key, mpu_upload_key, recency_slice_key, shadow_key,
    shadow_scan_prefix, MpuPart, SHADOW_CLIENT_KEY,
};
use hypha::meta::metadata::Metadata;
use hypha::meta::sentinel::{evict_sentinel_etag, transit_sentinel_etag};
use hypha::meta::twin::Facts;
use hypha::meta::user::CETAG;

const CTRL: char = '\u{1}';

fn listed(key: &str, size: i64, etag: &str, at: i64) -> ListedObject {
    ListedObject {
        key: Some(key.to_string()),
        size: Some(size),
        etag: Some(format!("\"{etag}\"")),
        last_modified_ms: Some(at),
    }
}

fn metadata(entries: &[(&str, &str)]) -> Metadata {
    let mut md = Metadata::new();
    for (name, value) in entries {
        md.insert(name.to_string(), value.to_string());
    }
    md
}

// ---- the ring ---------------------------------------------------------------------------------

fn fresh_ring(fill_target: usize, depth: usize) -> RecencyRing {
    let shape = fastbloom::BloomFilter::with_false_pos(0.01).expected_items(fill_target);
    let cfg = Recency {
        fill_target,
        depth,
        false_positive_rate: Fraction { bits: 0.01f64.to_bits(), text: "0.01".to_string() },
    };
    RecencyRing::new(&cfg, shape.num_bits(), shape.num_hashes())
}

fn record(ring: &mut RecencyRing, bucket: &str, key: &str) -> Option<RetiredSlice> {
    ring.record(qualified(bucket, key))
}

fn age(ring: &RecencyRing, bucket: &str, key: &str) -> Age {
    ring.probe(&qualified(bucket, key))
}

#[test]
fn duplicate_touches_do_not_advance_fill() {
    let mut ring = fresh_ring(8, 2);
    for _ in 0..100 {
        assert!(
            record(&mut ring, "b", "hot").is_none(),
            "one key touched 100 times must not rotate a slice sized for 8"
        );
    }
    assert_eq!(age(&ring, "b", "hot"), Age::Window(0));
}

#[test]
fn fill_rotates_and_ages_by_slice() {
    let mut ring = fresh_ring(4, 3);
    for i in 0..3 {
        assert!(record(&mut ring, "b", &format!("k{i}")).is_none());
    }
    assert!(
        record(&mut ring, "b", "k3").is_some(),
        "reaching the fill target rotates a slice"
    );

    assert_eq!(age(&ring, "b", "k0"), Age::Window(1));
    record(&mut ring, "b", "fresh");
    assert_eq!(age(&ring, "b", "fresh"), Age::Window(0));
    assert_eq!(age(&ring, "b", "never-touched"), Age::Miss);
}

#[test]
fn keys_fall_off_the_end_by_displacement() {
    let mut ring = fresh_ring(2, 1);
    record(&mut ring, "b", "old0");
    record(&mut ring, "b", "old1");
    for i in 0..4 {
        record(&mut ring, "b", &format!("new{i}"));
    }
    assert_eq!(age(&ring, "b", "old0"), Age::Miss);
}

#[test]
fn keys_are_qualified_by_bucket() {
    let mut ring = fresh_ring(64, 2);
    record(&mut ring, "a", "k");
    assert_eq!(age(&ring, "a", "k"), Age::Window(0));
    assert_eq!(age(&ring, "b", "k"), Age::Miss);
}

#[test]
fn retired_slice_round_trips_into_a_separate_ring() {
    let mut ring = fresh_ring(4, 3);
    let retired = (0..4)
        .find_map(|i| record(&mut ring, "b", &format!("k{i}")))
        .expect("slice retired");

    let mut reloaded = fresh_ring(4, 3);
    reloaded.install(vec![(retired.seq, retired.body)]);
    assert_eq!(age(&reloaded, "b", "k0"), Age::Window(1));
    assert_eq!(age(&reloaded, "b", "absent"), Age::Miss);
}

#[test]
fn slice_from_another_geometry_is_ignored_not_misread() {
    let mut ring = fresh_ring(4, 3);
    let retired = (0..4)
        .find_map(|i| record(&mut ring, "b", &format!("k{i}")))
        .expect("slice retired");

    let mut wider = fresh_ring(4096, 3);
    wider.install(vec![(retired.seq, retired.body)]);
    assert_eq!(age(&wider, "b", "k0"), Age::Miss);
}

#[test]
fn restored_slices_do_not_reuse_a_sequence() {
    let mut ring = fresh_ring(2, 4);
    ring.install(vec![(41, Vec::new())]);
    record(&mut ring, "b", "k0");
    let retired = record(&mut ring, "b", "k1").expect("slice retired");
    assert_eq!(retired.seq, 42);
}

#[test]
fn false_positive_rate_holds_at_the_fill_target() {
    let mut ring = fresh_ring(1000, 1);
    for i in 0..1000 {
        record(&mut ring, "b", &format!("present{i}"));
    }
    let positives = (0..10_000)
        .filter(|i| age(&ring, "b", &format!("absent{i}")) != Age::Miss)
        .count();
    assert!(positives < 300, "{positives} false positives in 10k probes");
}

#[test]
fn a_retired_slice_carries_its_geometry_and_its_count() {
    let mut ring = fresh_ring(3, 2);
    let mut body = Vec::new();
    for i in 0..3 {
        if let Some(retired) = record(&mut ring, "b", &format!("k{i}")) {
            assert_eq!(retired.seq, 0);
            body = retired.body;
        }
    }
    let shape = fastbloom::BloomFilter::with_false_pos(0.01).expected_items(3);
    assert_eq!(body.len(), 21 + shape.num_bits() / 8);
    assert_eq!(body[1..5], shape.num_hashes().to_le_bytes());
    assert_eq!(body[5..13], (shape.num_bits() as u64).to_le_bytes());
    assert_eq!(body[13..21], 3u64.to_le_bytes());
    assert_eq!(ring.depth(), 2);
}

// ---- touches and planning ---------------------------------------------------------------------

#[test]
fn a_composite_etag_puts_the_plaintext_in_the_shadow() {
    assert_eq!(Plaintext::of(&"ab".repeat(16)), Plaintext::AtKey);
    assert_eq!(
        Plaintext::of(&format!("{}-7", "ab".repeat(16))),
        Plaintext::InShadow
    );
}

#[test]
fn a_touch_names_what_could_be_evicted() {
    assert_eq!(touch("b", "k", Plaintext::AtKey), "b/k");
    assert_eq!(
        touch("b", "k", Plaintext::InShadow),
        format!("b/{}", shadow_key("k"))
    );
}

#[test]
fn only_accounted_buckets_are_evicted_from() {
    let ready: Vec<String> = vec!["a".into(), "b".into(), "c".into()];
    let accounted: Vec<String> = vec!["c".into(), "x".into(), "a".into()];
    assert_eq!(evictable(true, &ready, &accounted), vec!["a", "c"]);
    assert!(evictable(false, &ready, &accounted).is_empty());
}

#[test]
fn rounds_cover_everything_and_are_never_empty() {
    assert_eq!(round_end(0, 5, 2), 2);
    assert_eq!(round_end(4, 5, 2), 5);
    assert_eq!(round_end(0, 5, 0), 1);
    assert_eq!(round_end(5, 5, 3), 5);
    assert_eq!(round_end(1, usize::MAX, usize::MAX), usize::MAX);
}

fn reading(used: u64, high: bool, low: bool, excess: u64) -> Reading {
    Reading {
        usage: Usage { used, capacity: 1000 },
        at_high_water: high,
        below_low_water: low,
        excess,
    }
}

#[test]
fn a_pass_has_a_target_only_under_pressure() {
    assert_eq!(byte_target(Some(reading(900, true, false, 200))), 200);
    assert_eq!(byte_target(Some(reading(800, false, false, 100))), 0);
    assert_eq!(byte_target(None), 0);
}

#[test]
fn debris_that_meets_the_target_evicts_nothing() {
    let met = after_sweep(100, 100);
    assert!(met.compact);
    assert_eq!(met.evict, None);
    assert_eq!(after_sweep(100, 40).evict, Some(60));
    let idle = after_sweep(0, 0);
    assert!(!idle.compact);
    assert_eq!(idle.evict, None);
}

// ---- the order of eviction --------------------------------------------------------------------

fn candidate(key: &str, bytes: u64, mtime_ms: i64) -> Candidate {
    Candidate {
        bucket: "b".to_string(),
        artifact: Artifact::Body(key.to_string()),
        etag: "e".to_string(),
        bytes,
        mtime_ms,
    }
}

fn key_of(c: &Candidate) -> &str {
    match &c.artifact {
        Artifact::Body(key) | Artifact::Shadow(key) => key,
    }
}

#[test]
fn candidates_come_coldest_first_and_then_oldest_first() {
    let mut ring = fresh_ring(2, 4);
    record(&mut ring, "b", "older");
    record(&mut ring, "b", "filler0");
    record(&mut ring, "b", "hot");
    let sorted = probe(
        &ring,
        vec![
            candidate("hot", 1, 0),
            candidate("late", 2, 20),
            candidate("older", 3, 5),
            candidate("early", 4, 10),
            candidate("early-too", 5, 10),
        ],
    );
    let keys: Vec<&str> = sorted.iter().map(|a| key_of(&a.candidate)).collect();
    assert_eq!(keys, ["early", "early-too", "late", "older", "hot"]);
    assert_eq!(sorted[0].age, Age::Miss);
    assert_eq!(sorted[3].age, Age::Window(1));
    assert_eq!(sorted[4].age, Age::Window(0));
}

fn aged(key: &str, bytes: u64, age: Age) -> Aged {
    Aged { candidate: candidate(key, bytes, 0), age }
}

#[test]
fn an_eviction_run_takes_rounds_until_the_target_and_then_misses() {
    let list = vec![
        aged("m0", 10, Age::Miss),
        aged("m1", 10, Age::Miss),
        aged("m2", 10, Age::Miss),
        aged("m3", 10, Age::Miss),
        aged("w3", 10, Age::Window(3)),
        aged("w1", 10, Age::Window(1)),
    ];
    let mut run = EvictionRun::new(list, Age::Window(2), 2, 1, 20);
    assert_eq!(run.next_round(), vec![0, 1]);
    assert_eq!(key_of(run.candidate(1)), "m1");
    // One of the two was declined, so the target is not met yet.
    run.settle_round(&vec![10, 0]);
    assert_eq!(run.next_round(), vec![2, 3]);
    run.settle_round(&vec![10, 10]);
    assert_eq!(run.total(), 30);
    // The target is met and only a miss could still go; there is none left.
    assert!(run.next_round().is_empty());
    assert!(run.next_round().is_empty());
}

#[test]
fn opportunistic_evictions_are_bounded() {
    let list: Vec<Aged> = (0..6).map(|i| aged(&format!("m{i}"), 10, Age::Miss)).collect();
    let mut run = EvictionRun::new(list, Age::Miss, 1, 2, 10);
    assert_eq!(run.next_round(), vec![0]);
    run.settle_round(&vec![10]);
    assert_eq!(run.next_round(), vec![1]);
    run.settle_round(&vec![10]);
    assert_eq!(run.next_round(), vec![2]);
    run.settle_round(&vec![10]);
    assert!(run.next_round().is_empty());
    assert_eq!(run.total(), 30);
}

#[test]
fn a_threshold_keeps_what_is_too_warm() {
    let list = vec![aged("cold", 1, Age::Window(5)), aged("warm", 1, Age::Window(1))];
    let mut run = EvictionRun::new(list, Age::Window(4), 0, 0, 100);
    assert_eq!(run.next_round(), vec![0]);
    assert!(run.next_round().is_empty());
}

// ---- what a pass changes ----------------------------------------------------------------------

fn ladder() -> Ladder {
    Ladder::new(
        &Gc {
            interval_ms: 8_000,
            min_interval_ms: 1_000,
            concurrency: 2,
            max_concurrency: 8,
            ..Gc::default()
        },
        2,
    )
}

fn passed(target: u64, reclaimed: u64, before: Reading, after: Reading) -> PassReport {
    report(Some(before), Some(after), target, reclaimed)
}

#[test]
fn a_missed_target_takes_a_rung_and_a_met_one_gives_it_back() {
    let mut l = ladder();
    let (b, a) = (reading(900, true, false, 200), reading(900, true, false, 200));
    assert!(!settle(&mut l, &passed(200, 100, b, a)));
    assert_eq!(l.rung(), Rung::Interval);
    assert!(!settle(&mut l, &passed(200, 200, b, a)));
    assert_eq!(l.rung(), Rung::Unpressured);
}

#[test]
fn no_evidence_moves_nothing_and_low_water_resets() {
    let mut l = ladder();
    let b = reading(900, true, false, 200);
    settle(&mut l, &passed(200, 0, b, b));
    settle(&mut l, &passed(200, 0, b, b));
    let at = l.current();
    settle(&mut l, &report(Some(b), None, 200, 0));
    assert_eq!(l.current(), at);
    settle(&mut l, &passed(200, 200, b, reading(100, false, true, 0)));
    assert_eq!(l.rung(), Rung::Unpressured);
}

#[test]
fn a_cache_that_fills_during_a_pass_jumps_over_the_work_rungs_only() {
    let mut l = ladder();
    let (b, a) = (reading(900, true, false, 200), reading(950, true, false, 250));
    settle(&mut l, &passed(0, 0, b, a));
    assert_eq!(l.rung(), Rung::Concurrency);
    assert_eq!(l.current().concurrency, 8);
}

#[test]
fn a_clamped_ladder_with_an_unmet_target_says_so() {
    let mut l = ladder();
    let b = reading(990, true, false, 200);
    let mut undersized = false;
    for _ in 0..20 {
        undersized = settle(&mut l, &passed(200, 0, b, b));
    }
    assert!(l.clamped());
    assert!(undersized);
}

#[test]
fn one_pass_runs_at_a_time_and_the_clock_follows_the_ladder() {
    let mut l = ladder();
    let mut schedule = Schedule::new(&l);
    assert!(schedule.tick());
    assert!(!schedule.tick());
    schedule.finished();
    assert!(schedule.tick());
    assert_eq!(schedule.retime(&l), None);
    l.escalate();
    assert_eq!(schedule.retime(&l), Some(4_000_000_000));
    assert_eq!(schedule.retime(&l), None);
}

// ---- sampling ---------------------------------------------------------------------------------

#[test]
fn random_positions_are_key_shaped_and_vary() {
    let positions: HashSet<String> = (0..200).map(|_| random_key_position()).collect();
    assert!(
        positions.len() > 100,
        "a cursor-free scan needs fresh positions, got {} distinct in 200",
        positions.len()
    );
    for position in &positions {
        assert_eq!(position.len(), POSITION_LEN);
        assert!(validate_client_key(position).is_ok());
    }
}

#[test]
fn shadow_positions_stay_inside_the_shadow_range() {
    let prefix = shadow_scan_prefix();
    for _ in 0..200 {
        let position = format!("{prefix}{}", random_digest_position());
        assert!(position.starts_with(&prefix));
        assert!(position > prefix);
        assert!(position < format!("{prefix}\u{7f}"));
    }
}

#[test]
fn body_and_shadow_ring_keys_cannot_collide() {
    let candidate = |artifact| Candidate {
        bucket: "b".into(),
        artifact,
        etag: "e".into(),
        bytes: 1,
        mtime_ms: 0,
    };
    let body = candidate(Artifact::Body("k".into()));
    let shadow = candidate(Artifact::Shadow(shadow_key("k")));
    assert_ne!(body.qualified(), shadow.qualified());
    assert!(shadow.qualified().contains(CTRL));
    assert!(
        !body.qualified().contains(CTRL),
        "a client key cannot contain the control byte, which is what keeps the two apart"
    );
}

#[test]
fn meta_positions_aim_at_both_ranges() {
    let mut shadows = 0;
    let mut twins = 0;
    for _ in 0..400 {
        let position = random_meta_position();
        if position.starts_with(&shadow_scan_prefix()) {
            shadows += 1;
        } else {
            assert!(position.starts_with(CTRL));
            assert_eq!(position.chars().count(), 1 + POSITION_LEN);
            assert!(validate_client_key(&position[1..]).is_ok());
            twins += 1;
        }
    }
    assert!(shadows > 100 && twins > 100, "{shadows} and {twins}");
    assert!(meta_position(true).starts_with(&shadow_scan_prefix()));
    assert!(!meta_position(false).starts_with(&shadow_scan_prefix()));
}

#[test]
fn a_shaped_position_keeps_its_head() {
    for head in ["a", "zz", "0-", "\u{e9}t", "\u{4e2d}\u{6587}", ""] {
        let position = fill_position(head);
        assert!(position.starts_with(head));
        assert_eq!(position.chars().count(), POSITION_LEN);
        assert!(validate_client_key(&position).is_ok());
    }
    assert_eq!(fill_position("long/"), "long/");
    assert_eq!(shaped_position("lo", &vec![0x67]), "log");
}

#[test]
fn leads_are_whole_characters() {
    assert_eq!(leading("logs/a"), "lo");
    assert_eq!(leading("a"), "a");
    assert_eq!(leading(""), "");
    assert_eq!(leading("\u{4e2d}\u{6587}/y"), "\u{4e2d}\u{6587}");
}

fn entry(key: &str, etag: &str, bytes: u64) -> SampledEntry {
    SampledEntry { key: key.to_string(), etag: etag.to_string(), bytes, mtime_ms: 7 }
}

#[test]
fn a_data_probe_parts_bodies_from_marks() {
    let entries = vec![
        entry("live", "aa", 10),
        entry("evicted", &evict_sentinel_etag(), 16),
        entry("marked", &transit_sentinel_etag(), 16),
        entry("same-etag-other-size", &evict_sentinel_etag(), 17),
        entry("lively", "bb", u64::MAX),
    ];
    let probed = probe_bodies("b", &entries, 3);
    let keys: Vec<&str> = probed.candidates.iter().map(key_of).collect();
    assert_eq!(keys, ["live", "same-etag-other-size", "lively"]);
    assert_eq!(probed.others, vec!["marked"]);
    assert_eq!(probed.yielded.candidates, 3);
    assert_eq!(probed.yielded.pages, 3);
    assert_eq!(probed.yielded.bucket, "b");
    assert_eq!(probed.yielded.prefixes.get("li"), Some(&2));
    assert_eq!(probed.yielded.prefixes.get("ma"), Some(&1));
    assert_eq!(probed.yielded.prefixes.get("xx"), None);
}

fn facts(etag: &str) -> Facts {
    Facts { client_etag: etag.to_string(), plen: 5, mtime_ms: 1_700_000_000_000 }
}

#[test]
fn a_meta_probe_parts_shadows_from_twins() {
    let twin = facts(&"ab".repeat(16)).twin_key("k").expect("the facts pack");
    let entries = vec![
        entry(&shadow_key("k"), "aa", 10),
        entry(&twin, "bb", 0),
        entry(&mpu_upload_key("upload"), "cc", 0),
    ];
    let probed = probe_meta("b", &entries, 1);
    assert_eq!(probed.candidates.len(), 1);
    assert_eq!(probed.candidates[0].artifact, Artifact::Shadow(shadow_key("k")));
    assert_eq!(probed.others, vec![twin]);
    assert_eq!(probed.yielded.prefixes.len(), 0);
}

#[test]
fn a_sample_reads_its_pages_from_its_position() {
    let mut sample = Sample::new("mid".to_string(), 2);
    assert_eq!(
        sample.next_page(),
        Some(PageRequest { token: None, start_after: Some("mid".to_string()) })
    );
    sample.add_page(&vec![listed("n", 5, "e", 9)], Some("t".to_string()));
    assert_eq!(
        sample.next_page(),
        Some(PageRequest { token: Some("t".to_string()), start_after: None })
    );
    sample.add_page(&vec![listed("o", -5, "f", 0)], Some("u".to_string()));
    assert_eq!(sample.next_page(), None, "the budget is spent");
    let (entries, pages) = sample.finish();
    assert_eq!(pages, 2);
    assert_eq!(entries[0], SampledEntry { key: "n".into(), etag: "e".into(), bytes: 5, mtime_ms: 9 });
    assert_eq!(entries[1].bytes, 0);
}

#[test]
fn only_an_overshoot_begins_anew_and_only_once() {
    let mut sample = Sample::new("~~~".to_string(), 3);
    assert!(sample.next_page().is_some());
    sample.add_page(&Vec::new(), None);
    assert_eq!(sample.next_page(), Some(PageRequest { token: None, start_after: None }));
    sample.add_page(&Vec::new(), None);
    assert_eq!(sample.next_page(), None);

    let mut tombstones = Sample::new("a".to_string(), 3);
    assert!(tombstones.next_page().is_some());
    tombstones.add_page(&vec![listed("t", 16, &evict_sentinel_etag(), 0)], None);
    assert_eq!(tombstones.next_page(), None, "a page of tombstones is evidence, not an overshoot");
}

// ---- the eviction of one candidate ------------------------------------------------------------

#[test]
fn a_durable_body_is_tombstoned() {
    let c = candidate("k", 77, 0);
    assert_eq!(begin_eviction(&c), EvictAction::FindMarker);
    let framed = Some(500u64);
    assert_eq!(
        evict(&c, framed, EvictEvent::MarkerLookup(Err(Error::NotFound))),
        EvictAction::HeadRemote
    );
    assert_eq!(
        evict(&c, framed, EvictEvent::RemoteHead(Ok(Some(500)))),
        EvictAction::CompareGeneration
    );
    assert_eq!(evict(&c, framed, EvictEvent::Comparison(Ok(true))), EvictAction::Tombstone);
    assert_eq!(evict(&c, framed, EvictEvent::Reclaimed(Ok(()))), EvictAction::Done(77));
}

#[test]
fn what_the_remote_does_not_hold_raises_its_marker() {
    let c = candidate("k", 77, 0);
    for event in [
        EvictEvent::RemoteHead(Ok(Some(499))),
        EvictEvent::RemoteHead(Ok(None)),
        EvictEvent::RemoteHead(Err(Error::NotFound)),
        EvictEvent::Comparison(Ok(false)),
        EvictEvent::Comparison(Err(Error::NoSuchBucket)),
    ] {
        assert_eq!(evict(&c, Some(500), event), EvictAction::RaiseMarker);
    }
    assert_eq!(
        evict(&c, None, EvictEvent::RemoteHead(Ok(Some(500)))),
        EvictAction::RaiseMarker
    );
    assert_eq!(evict(&c, None, EvictEvent::MarkerRaised(Ok(()))), EvictAction::Done(0));
}

#[test]
fn a_declined_eviction_gives_nothing_back() {
    let c = candidate("k", 77, 0);
    assert_eq!(evict(&c, None, EvictEvent::MarkerLookup(Ok(()))), EvictAction::Done(0));
    assert_eq!(
        evict(&c, None, EvictEvent::Reclaimed(Err(Error::PreconditionFailed))),
        EvictAction::Done(0)
    );
    assert_eq!(
        evict(&c, None, EvictEvent::Reclaimed(Err(Error::SlowDown))),
        EvictAction::Failed(Error::SlowDown)
    );
    assert_eq!(
        evict(&c, None, EvictEvent::MarkerLookup(Err(Error::AccessDenied))),
        EvictAction::Failed(Error::AccessDenied)
    );
}

#[test]
fn a_shadow_needs_no_look_at_the_remote_and_a_composite_no_length() {
    let mut shadow = candidate("k", 77, 0);
    shadow.artifact = Artifact::Shadow(shadow_key("k"));
    assert_eq!(begin_eviction(&shadow), EvictAction::DropShadow);
    let mut composite = candidate("k", 77, 0);
    composite.etag = format!("{}-2", "ab".repeat(16));
    assert_eq!(
        evict(&composite, None, EvictEvent::MarkerLookup(Err(Error::NoSuchBucket))),
        EvictAction::CompareGeneration
    );
}

// ---- stored slices ----------------------------------------------------------------------------

#[test]
fn the_newest_slices_are_read_back_and_the_oldest_expire() {
    let mut keys = Vec::new();
    slice_keys(
        &mut keys,
        &vec![
            listed(&recency_slice_key(2), 1, "e", 0),
            listed("recency/other", 1, "e", 0),
            listed(&recency_slice_key(11), 1, "e", 0),
            ListedObject { key: None, size: None, etag: None, last_modified_ms: None },
        ],
    );
    slice_keys(&mut keys, &vec![listed(&recency_slice_key(300), 1, "e", 0)]);
    assert_eq!(keys.len(), 4);
    assert_eq!(load(&keys, 2), vec![300, 11]);
    assert_eq!(load(&keys, 9), vec![300, 11, 2]);
    assert_eq!(prune(5, 3), 2);
    assert_eq!(prune(3, 5), 0);
}

// ---- usage ------------------------------------------------------------------------------------

fn node(url: Option<&str>, public_url: Option<&str>, id: Option<&str>) -> DataNode {
    DataNode {
        url: url.map(str::to_string),
        public_url: public_url.map(str::to_string),
        id: id.map(str::to_string),
    }
}

fn status(nodes: Vec<DataNode>) -> DirStatus {
    DirStatus {
        topology: Some(Topology {
            data_centers: vec![DataCenter { racks: vec![Rack { nodes }] }],
        }),
    }
}

#[test]
fn topology_yields_absolute_volume_server_urls() {
    let status = status(vec![
        node(None, None, Some("10.0.0.1:8080")),
        node(Some("http://vol-1:8080"), None, None),
    ]);
    assert_eq!(status.volume_servers(), vec!["http://10.0.0.1:8080", "http://vol-1:8080"]);
}

#[test]
fn topology_reads_the_unsuffixed_spelling_too() {
    let status = status(vec![node(Some("vol-1:8080"), Some("vol-1:8080"), None)]);
    assert_eq!(status.volume_servers(), vec!["http://vol-1:8080"]);
}

#[test]
fn a_topology_missing_every_field_names_no_servers() {
    let status = DirStatus { topology: None };
    assert!(status.volume_servers().is_empty());
    assert_eq!(
        status.servers_to_ask(),
        Err(Error::Backend("seaweedfs topology named no volume servers".to_string()))
    );
}

#[test]
fn disk_statuses_sum_across_servers() {
    let status = VolumeStatus {
        disk_statuses: vec![
            DiskStatus { all: Some(100), used: Some(40) },
            DiskStatus { all: Some(100), used: Some(10) },
        ],
    };
    let used: u64 = status.disk_statuses.iter().map(|d| d.used.unwrap()).sum();
    assert_eq!(used, 50);
    let bare = VolumeStatus { disk_statuses: vec![DiskStatus { all: Some(7), used: None }] };
    assert_eq!(total_usage(&vec![status, bare]), Usage { used: 50, capacity: 207 });
}

#[test]
fn an_empty_field_is_no_address() {
    let status = status(vec![node(Some(""), Some("https://v"), Some("x")), node(None, None, Some(""))]);
    assert_eq!(status.volume_servers(), vec!["https://v"]);
    assert_eq!(status.servers_to_ask().unwrap(), vec!["https://v"]);
    assert_eq!(master_address("http://m:9333//"), "http://m:9333");
    assert_eq!(master_address("///"), "");
}

// ---- orphaned shadows -------------------------------------------------------------------------

fn superseded(bucket: &str, key: &str) -> Superseded {
    Superseded { bucket: bucket.to_string(), key: key.to_string() }
}

#[test]
fn obligations_are_owed_once_and_grouped_by_bucket() {
    let mut actor = OrphanActor::new();
    let after = actor.receive(vec![
        OrphanMsg::Owed(superseded("a", "k")),
        OrphanMsg::Owed(superseded("b", "k")),
        OrphanMsg::Owed(superseded("a", "k")),
        OrphanMsg::Owed(superseded("a", "l")),
    ]);
    assert_eq!(after, AfterBatch::Continue);
    assert!(actor.wants_retry());
    let groups = actor.resolve_all();
    assert_eq!(groups.len(), 2);
    let mut keys: Vec<&str> = groups.get("a").unwrap().iter().map(|s| s.key.as_str()).collect();
    keys.sort();
    assert_eq!(keys, ["k", "l"]);
    assert_eq!(groups.get("b").unwrap().len(), 1);
    assert!(!actor.wants_retry());
}

#[test]
fn obligations_whose_names_run_together_stay_apart() {
    let mut actor = OrphanActor::new();
    actor.receive(vec![
        OrphanMsg::Owed(superseded("a\0b", "c")),
        OrphanMsg::Owed(superseded("a", "b\0c")),
    ]);
    let groups = actor.resolve_all();
    assert_eq!(groups.len(), 2);
    assert_eq!(groups.get("a").unwrap(), &vec![superseded("a", "b\0c")]);
    assert_eq!(groups.get("a\0b").unwrap(), &vec![superseded("a\0b", "c")]);
}

#[test]
fn only_a_sealed_and_settled_queue_vouches_for_shadows() {
    let mut actor = OrphanActor::new();
    assert_eq!(actor.verdict(true), DrainVerdict::NotSealed);
    assert_eq!(
        actor.receive(vec![OrphanMsg::Owed(superseded("a", "k")), OrphanMsg::Seal]),
        AfterBatch::Drain
    );
    assert_eq!(actor.verdict(true), DrainVerdict::StillOwed);
    let _ = actor.resolve_all();
    assert_eq!(actor.verdict(true), DrainVerdict::MarkClean);
    assert_eq!(actor.verdict(false), DrainVerdict::NothingToVouchFor);
    let mut closed = OrphanActor::new();
    assert_eq!(closed.receive(Vec::new()), AfterBatch::Drain);
    assert_eq!(closed.verdict(true), DrainVerdict::NotSealed);
}

#[test]
fn a_write_hands_its_key_over_where_there_are_shadows() {
    assert_eq!(hand_over(false, true), Handover::Nothing);
    assert_eq!(hand_over(true, true), Handover::Queue);
    assert_eq!(hand_over(true, false), Handover::Unaccount);
    assert!(should_list(false));
    assert!(!should_list(true));
    assert_eq!(judge_listing(None), ListingFate::Judge);
    assert_eq!(judge_listing(Some(&Error::NoSuchBucket)), ListingFate::Dropped);
    assert_eq!(judge_listing(Some(&Error::SlowDown)), ListingFate::Retained);
    assert!(reads_on(RANGE_PAGES - 1, true));
    assert!(!reads_on(RANGE_PAGES, true));
    assert!(!reads_on(0, false));
}

#[test]
fn a_key_without_a_shadow_left_nothing_behind() {
    let shadows = vec![shadow_key("other"), shadow_key("k")];
    assert_eq!(has_shadow(&superseded("a", "k"), &shadows), Some(shadow_key("k")));
    assert_eq!(has_shadow(&superseded("a", "none"), &shadows), None);
}

fn shadow(entries: &[(&str, &str)]) -> ShadowLookup {
    ShadowLookup::Found { etag: Some("\"e\"".to_string()), metadata: metadata(entries) }
}

#[test]
fn a_shadow_is_judged_by_its_generation() {
    let s = superseded("a", "k");
    match reclaim(&s, &shadow(&[(CETAG, "g")])) {
        ShadowStep::LookAtKey { key, cetag, etag } => {
            assert_eq!((key.as_str(), cetag.as_str(), etag.as_str()), ("k", "g", "e"));
        }
        other => panic!("{other:?}"),
    }
    assert!(matches!(reclaim(&s, &shadow(&[])), ShadowStep::Leave));
    assert!(matches!(
        reclaim(&s, &ShadowLookup::Failed(Error::NoSuchBucket)),
        ShadowStep::Leave
    ));
    assert!(matches!(
        reclaim(&s, &ShadowLookup::Failed(Error::SlowDown)),
        ShadowStep::Fail(Error::SlowDown)
    ));
}

#[test]
fn a_sweep_reads_the_key_back_from_the_shadow() {
    let encoded = encode_shadow_client_key("dir/k");
    match sweep(&shadow(&[(CETAG, "g"), (SHADOW_CLIENT_KEY, &encoded)])) {
        ShadowStep::LookAtKey { key, .. } => assert_eq!(key, "dir/k"),
        other => panic!("{other:?}"),
    }
    assert!(matches!(sweep(&shadow(&[(CETAG, "g")])), ShadowStep::Leave));
    assert!(matches!(
        sweep(&shadow(&[(CETAG, "g"), (SHADOW_CLIENT_KEY, "!!")])),
        ShadowStep::Leave
    ));
    assert!(matches!(
        sweep(&ShadowLookup::Failed(Error::NoSuchBucket)),
        ShadowStep::Fail(Error::NoSuchBucket)
    ));
}

#[test]
fn a_shadow_is_reachable_only_from_its_generation() {
    let tomb = |kind: &str, cetag: &str| {
        KeyLookup::Found(metadata(&[("tomb", kind), (CETAG, cetag)]))
    };
    assert_eq!(still_reachable(&tomb("evict", "g"), "g"), Ok(true));
    assert_eq!(still_reachable(&tomb("evict", "h"), "g"), Ok(false));
    assert_eq!(still_reachable(&tomb("transit", "h"), "g"), Ok(true));
    assert_eq!(still_reachable(&KeyLookup::Found(metadata(&[(CETAG, "g")])), "g"), Ok(false));
    assert_eq!(still_reachable(&KeyLookup::Failed(Error::NotFound), "g"), Ok(false));
    assert_eq!(
        still_reachable(&KeyLookup::Failed(Error::SlowDown), "g"),
        Err(Error::SlowDown)
    );
    assert_eq!(drop_shadow(Err(Error::PreconditionFailed)), Ok(()));
    assert_eq!(drop_shadow(Err(Error::NotFound)), Ok(()));
    assert_eq!(drop_shadow(Err(Error::SlowDown)), Err(Error::SlowDown));
}

// ---- debris -----------------------------------------------------------------------------------

#[test]
fn records_of_live_uploads_are_kept_and_the_others_reclaimed() {
    let part = MpuPart { part_number: 3, retag: "r", pmd5: "ab", stash_nonce: "" };
    let mut sweep = UploadSweep::new();
    sweep.cache_ranges(&vec![
        listed(&mpu_upload_key("live"), 10, "e", 0),
        listed(&mpu_upload_key("dead"), 20, "e", 0),
        listed(&mpu_part_key("dead", part), 4, "e", 0),
        listed("not-a-record", 5, "e", 0),
    ]);
    assert_eq!(sweep.live_upload("live"), LiveUpload::Shielded);
    assert_eq!(sweep.live_upload("unknown"), LiveUpload::TryCreateLock);
    sweep.aborted(Some(&Error::NotFound));
    sweep.aborted(Some(&Error::SlowDown));
    sweep.aborted(None);
    assert_eq!(sweep.swept().orphaned, 2);
    assert_eq!(sweep.swept().uploads, 0);
    let left = sweep.leftovers();
    assert_eq!(left.len(), 1);
    assert_eq!(left[0][0], UploadRecord { key: mpu_upload_key("dead"), bytes: 20 });
    let mut swept = Swept::default();
    assert!(!swept.any());
    reclaimed(&mut swept, &left[0]);
    assert_eq!(swept.uploads, 1);
    assert_eq!(swept.bytes, 24);
    assert!(swept.any());
    let mut total = Swept::default();
    total.add_assign(swept);
    assert_eq!(total.bytes, 24);
}

#[test]
fn an_upload_listing_that_goes_nowhere_ends() {
    assert!(next_upload_page(Some(true), &Some("k".to_string()), &None));
    assert!(!next_upload_page(Some(true), &None, &None));
    assert!(!next_upload_page(None, &Some("k".to_string()), &None));
    assert_eq!(has_record(None), Ok(true));
    assert_eq!(has_record(Some(&Error::NotFound)), Ok(false));
    assert_eq!(has_record(Some(&Error::SlowDown)), Err(Error::SlowDown));
}

#[test]
fn a_twin_that_its_key_would_not_be_given_now_is_an_orphan() {
    let f = facts(&"ab".repeat(16));
    let twin = f.twin_key("k").expect("the facts pack");
    let tomb = metadata(&[
        ("tomb", "evict"),
        (CETAG, &"ab".repeat(16)),
        ("plen", "5"),
        ("mtime", "1700000000000"),
    ]);
    assert!(!is_orphan_twin(&twin, &KeyLookup::Found(tomb)));
    let other = metadata(&[
        ("tomb", "evict"),
        (CETAG, &"cd".repeat(16)),
        ("plen", "5"),
        ("mtime", "1700000000000"),
    ]);
    assert!(is_orphan_twin(&twin, &KeyLookup::Found(other)));
    assert!(is_orphan_twin(&twin, &KeyLookup::Found(metadata(&[]))));
    assert!(is_orphan_twin(&twin, &KeyLookup::Failed(Error::NotFound)));
    assert!(!is_orphan_twin(&twin, &KeyLookup::Failed(Error::SlowDown)));
    assert!(!is_orphan_twin("plain", &KeyLookup::Failed(Error::NotFound)));
}
