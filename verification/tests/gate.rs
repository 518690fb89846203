use hypha::bucket::gate::{
    admission, admit_write, leave_write, pack_word, set_closed, set_ready, take_ticket,
    unpack_word, word_status, Admission, BucketStatus, Gate, GateFields, Readout, Refusal,
    WriteGuard, COUNT_LIMIT, EPOCHS,
};
use std::sync::atomic::{AtomicUsize, Ordering};
use std::sync::{Arc, Mutex};

/// A bucket mid-restore.
fn restoring() -> Gate {
    Gate::new(BucketStatus::Restoring)
}

/// A bucket serving from its cache.
fn ready() -> Gate {
    Gate::new(BucketStatus::Ready)
}

fn admitted(gate: &mut Gate) -> (WriteGuard, Admission) {
    gate.enter_write().expect("an open gate admits")
}

#[test]
fn a_write_in_flight_refuses_the_delete_without_touching_the_gate() {
    let mut gate = ready();
    let held = admitted(&mut gate);

    assert!(gate.quiescent().is_none(), "a live write is visible");
    gate.finish_write(held.0);

    let again = gate.enter_write();
    assert!(again.is_ok(), "the bucket was never closed");
    gate.finish_write(again.unwrap().0);
    assert!(gate.quiescent().is_some(), "and it is quiescent again");
}

#[test]
fn a_write_admitted_during_the_listing_defeats_the_close() {
    let mut gate = ready();
    let seen = gate.quiescent().expect("an idle bucket is quiescent");
    let racer = admitted(&mut gate);
    assert!(gate.close(seen).is_none(), "the listing is stale; the delete must refuse");
    gate.finish_write(racer.0);
    assert!(gate.enter_write().is_ok(), "a defeated close must leave the bucket open");
}

#[test]
fn a_write_that_starts_and_finishes_during_the_listing_defeats_the_close() {
    let mut gate = ready();
    let seen = gate.quiescent().expect("an idle bucket is quiescent");
    let racer = admitted(&mut gate);
    gate.finish_write(racer.0);
    assert!(
        gate.close(seen).is_none(),
        "a write that came and went still invalidates the listing"
    );
}

#[test]
fn readers_never_defeat_the_close() {
    let mut gate = restoring();
    let seen = gate.quiescent().expect("an idle bucket is quiescent");
    let Ok(Readout::Remote(held)) = gate.read_ticket() else {
        panic!("a restoring bucket hands out a ticket");
    };
    let Ok(Readout::Remote(brief)) = gate.read_ticket() else {
        panic!("a restoring bucket hands out a ticket");
    };
    gate.finish_read(brief);
    assert!(
        gate.close(seen).is_some(),
        "a delete must not wait on readers, however they overlap it"
    );
    gate.finish_read(held);
}

#[test]
fn a_closed_gate_refuses_every_op_and_further_deletes() {
    let mut gate = ready();
    let seen = gate.quiescent().expect("an idle bucket is quiescent");
    let closed = gate.close(seen).expect("an idle gate closes");
    gate.commit(closed);

    assert!(
        matches!(gate.enter_write(), Err(Refusal::Closed)),
        "a closed gate admits no write"
    );
    assert_eq!(gate.read_ticket().err(), Some(Refusal::Closed), "and no read");
    assert_eq!(gate.status(), BucketStatus::Deleting);
    assert!(gate.quiescent().is_none(), "and is not quiescent");
}

#[test]
fn an_uncommitted_close_reopens() {
    let mut gate = ready();
    let seen = gate.quiescent().expect("an idle bucket is quiescent");
    let closed = gate.close(seen).expect("an idle gate closes");
    gate.abandon(closed);
    assert!(
        gate.enter_write().is_ok(),
        "a delete that failed to commit must return the bucket to service"
    );
    assert_eq!(gate.status(), BucketStatus::Ready);
}

#[test]
fn the_flip_is_one_way_and_refuses_a_closing_bucket() {
    let mut gate = restoring();
    assert_eq!(gate.status(), BucketStatus::Restoring);
    gate.flip();
    gate.flip();
    assert_eq!(gate.status(), BucketStatus::Ready, "the flip never reverts");

    let mut closing = restoring();
    let seen = closing.quiescent().expect("an idle bucket is quiescent");
    let closed = closing.close(seen).expect("an idle gate closes");
    closing.flip();
    assert_eq!(
        closing.status(),
        BucketStatus::Deleting,
        "a flip must not contradict the delete's emptiness listing"
    );
    closing.abandon(closed);
}

#[test]
fn a_restoring_read_is_redirected_to_the_cache_once_the_flip_lands() {
    let mut gate = restoring();
    gate.flip();
    assert!(matches!(gate.read_ticket(), Ok(Readout::Cache)));
}

#[test]
fn a_reader_in_flight_defers_the_cached_write_to_durable() {
    let mut gate = restoring();
    let Ok(Readout::Remote(ticket)) = gate.read_ticket() else {
        panic!("a restoring bucket hands out a ticket");
    };
    let (guard, what) = admitted(&mut gate);
    assert_eq!(what, Admission::Durable, "a write admitted before the flip commits remotely");
    gate.finish_write(guard);

    gate.flip();
    let (guard, what) = admitted(&mut gate);
    assert_eq!(what, Admission::Durable, "the straggler's ticket forces the stronger semantics");
    gate.finish_write(guard);

    gate.finish_read(ticket);
    let (guard, what) = admitted(&mut gate);
    assert_eq!(
        what,
        Admission::CachedEligible,
        "and cache-first returns the moment it drops"
    );
    gate.finish_write(guard);
}

#[test]
fn the_flip_keeps_the_writes_already_counted() {
    let mut gate = restoring();
    let held = admitted(&mut gate);
    gate.flip();
    assert!(gate.quiescent().is_none(), "the flip must not lose the writes in flight");
    gate.finish_write(held.0);
    assert!(gate.quiescent().is_some());
}

/// Writers and closers take turns in every order that a small schedule allows; a close that wins has
/// no write inside, and some do win.
#[test]
fn no_small_schedule_lets_a_close_win_against_a_live_write() {
    let mut wins = 0;
    for schedule in 0u32..4096 {
        let mut gate = ready();
        let mut inside: Vec<WriteGuard> = Vec::new();
        let mut seen = None;
        let mut turns = schedule;
        for _ in 0..6 {
            match turns % 4 {
                0 => inside.push(admitted(&mut gate).0),
                1 => {
                    if let Some(guard) = inside.pop() {
                        gate.finish_write(guard);
                    }
                }
                2 => seen = gate.quiescent(),
                _ => {
                    if let Some(quiescent) = seen.take() {
                        if let Some(closed) = gate.close(quiescent) {
                            assert!(inside.is_empty(), "a close won with a write inside");
                            wins += 1;
                            gate.abandon(closed);
                        }
                    }
                }
            }
            turns /= 4;
        }
    }
    assert!(wins > 0);
}

#[test]
fn a_close_never_wins_against_a_live_write() {
    const WRITERS: usize = 6;
    let runtime = tokio::runtime::Builder::new_multi_thread().worker_threads(4).build().unwrap();
    let gate = Arc::new(Mutex::new(ready()));
    let inside = Arc::new(AtomicUsize::new(0));
    let closes = Arc::new(AtomicUsize::new(0));
    let retired = Arc::new(AtomicUsize::new(0));

    let mut tasks = Vec::new();
    for _ in 0..WRITERS {
        let (gate, inside, retired) = (gate.clone(), inside.clone(), retired.clone());
        tasks.push(runtime.spawn(async move {
            for _ in 0..2_000 {
                let entered = gate.lock().unwrap().enter_write();
                if let Ok((guard, _)) = entered {
                    inside.fetch_add(1, Ordering::AcqRel);
                    tokio::task::yield_now().await;
                    inside.fetch_sub(1, Ordering::AcqRel);
                    gate.lock().unwrap().finish_write(guard);
                }
                // Leaves quiescent windows for a closer to find.
                tokio::task::yield_now().await;
            }
            retired.fetch_add(1, Ordering::AcqRel);
        }));
    }
    for _ in 0..3 {
        let (gate, inside, closes, retired) =
            (gate.clone(), inside.clone(), closes.clone(), retired.clone());
        tasks.push(runtime.spawn(async move {
            while retired.load(Ordering::Acquire) < WRITERS {
                let seen = gate.lock().unwrap().quiescent();
                let Some(seen) = seen else {
                    tokio::task::yield_now().await;
                    continue;
                };
                // The window that a listing for emptiness takes.
                tokio::task::yield_now().await;
                let closed = gate.lock().unwrap().close(seen);
                let Some(closed) = closed else {
                    continue;
                };
                assert_eq!(
                    inside.load(Ordering::Acquire),
                    0,
                    "a close succeeded with a write inside the bucket"
                );
                closes.fetch_add(1, Ordering::AcqRel);
                gate.lock().unwrap().abandon(closed);
            }
        }));
    }
    runtime.block_on(async {
        for task in tasks {
            task.await.unwrap();
        }
    });
    assert!(closes.load(Ordering::Acquire) > 0, "no close ever succeeded");
}

#[test]
fn another_deletes_close_and_reopen_does_not_hide_a_write_since_the_look() {
    let mut gate = ready();
    let seen = gate.quiescent().expect("an idle bucket is quiescent");
    let racer = admitted(&mut gate);
    gate.finish_write(racer.0);
    let later = gate.quiescent().expect("the write is over");
    let closed = gate.close(later).expect("nothing happened since the later look");
    gate.abandon(closed);
    assert!(gate.close(seen).is_none(), "the earlier look is stale");

    // With no write in between, a close that was given up leaves the look good.
    let seen = gate.quiescent().expect("the bucket is idle");
    let other = gate.quiescent().expect("the bucket is idle");
    let closed = gate.close(other).expect("nothing happened since the look");
    gate.abandon(closed);
    assert!(gate.close(seen).is_some());
}

#[test]
fn a_word_packs_and_unpacks() {
    let fields = GateFields {
        ready: true,
        closed: false,
        epoch: EPOCHS - 1,
        readers: 3,
        writers: COUNT_LIMIT,
    };
    let word = pack_word(fields);
    assert_eq!(unpack_word(word), fields);
    assert_eq!(word >> 63, 1);
    assert_eq!(word & 0xffff, COUNT_LIMIT as u64);
}

#[test]
fn an_epoch_wraps_and_a_full_count_refuses() {
    let last = pack_word(GateFields {
        ready: true,
        closed: false,
        epoch: EPOCHS - 1,
        readers: 0,
        writers: 0,
    });
    let next = admit_write(last).expect("an open word admits");
    assert_eq!(unpack_word(next).epoch, 0);
    assert_eq!(unpack_word(leave_write(next)).writers, 0);
    assert_eq!(word_status(next), BucketStatus::Ready);
    assert_eq!(admission(next), Admission::CachedEligible);
    assert!(take_ticket(next).is_none(), "a ready bucket is read from its cache");
    assert!(set_closed(last, next).is_none());
    assert!(set_closed(next, leave_write(next)).is_none());
    let full = pack_word(GateFields {
        ready: true,
        closed: false,
        epoch: 0,
        readers: 0,
        writers: COUNT_LIMIT,
    });
    assert!(admit_write(full).is_none());
    assert_eq!(set_ready(0).map(word_status), Some(BucketStatus::Ready));
}
