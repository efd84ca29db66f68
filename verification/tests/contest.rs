//! Claiming, yielding, renewing and fencing.

use std::time::Duration;

use orbit::contest::guard::holder_from_state;
use orbit::contest::shm::{shm_segment_size, ContestStateHeader};
use orbit::contest::state::{ContestStateStore, LeaseState, StateClaim};
use orbit::{
    Claim, Contest, ContestOwner, ContestSubject, ContestType, Error, Fence, FenceToken, Fleet,
    Guard, IoErrorKind, NetId64, NodeId, CONTEST_STATE_CAPACITY, CONTEST_STATE_PAYLOAD_MAX,
};

struct OriginProbe;

impl ContestType for OriginProbe {
    const KIND: u8 = 1;
}

struct OtherProbe;

impl ContestType for OtherProbe {
    const KIND: u8 = 2;
}

fn secs(n: u64) -> u128 {
    Duration::from_secs(n).as_millis()
}

fn millis(n: u64) -> u128 {
    Duration::from_millis(n).as_millis()
}

fn claim(fleet: &mut Fleet, subject: &str, owner: &str, ttl_ms: u128, now_ms: u64) -> Claim {
    Contest::new()
        .try_claim_at::<OriginProbe>(fleet, subject, owner.into(), ttl_ms, now_ms)
        .expect("claim")
}

fn claimed(fleet: &mut Fleet, subject: &str, owner: &str, ttl_ms: u128, now_ms: u64) -> Guard {
    match claim(fleet, subject, owner, ttl_ms, now_ms) {
        Claim::Claimed(guard) => guard,
        Claim::YieldTo(holder) => panic!("expected a claim, yielded to {:?}", holder),
    }
}

#[test]
fn admits_monotonic_and_rejects_stale() {
    let mut fence = Fence::new();
    assert!(fence.try_admit(FenceToken::new(5)));
    assert!(fence.try_admit(FenceToken::new(5)));
    assert!(fence.try_admit(FenceToken::new(9)));
    assert!(!fence.try_admit(FenceToken::new(7)));
    assert!(!fence.try_admit(FenceToken::new(5)));
    assert_eq!(fence.high_water(), 9);
}

#[test]
fn restored_fence_keeps_rejecting_below_persisted_mark() {
    let mut fence = Fence::with_high_water(42);
    assert!(!fence.try_admit(FenceToken::new(41)));
    assert!(fence.try_admit(FenceToken::new(42)));
    assert!(fence.try_admit(FenceToken::new(100)));
}

#[test]
fn fence_tokens_show_their_value() {
    assert_eq!(FenceToken::new(42).to_text(), "fence:42");
    assert_eq!(FenceToken::new(42).get(), 42);
    assert!(FenceToken::new(2) > FenceToken::new(1));
}

#[test]
fn first_claim_is_claimed_for_subject() {
    let mut fleet = Fleet::join("first_claim_is_claimed", 2).ok().expect("fleet");
    let claims = Contest::new();

    let first = claims
        .try_claim_at::<OriginProbe>(&mut fleet, "origin:tcp_1", "worker:1".into(), secs(30), 1_000)
        .expect("contest");
    let second = claims
        .try_claim_at::<OriginProbe>(&mut fleet, "origin:tcp_1", "worker:2".into(), secs(30), 1_001)
        .expect("second claim");

    assert!(matches!(first, Claim::Claimed(_)));
    let Claim::YieldTo(holder) = second else {
        panic!("second claimant should yield");
    };
    assert_eq!(holder.owner.as_str(), "worker:1");
}

#[test]
fn different_subject_labels_do_not_compete() {
    let mut fleet = Fleet::join("first_claim_subjects", 2).ok().expect("fleet");
    let claims = Contest::new();

    let first = claims
        .try_claim_at::<OriginProbe>(&mut fleet, "origin:tcp_1", "worker:1".into(), secs(30), 1_000)
        .expect("first subject");
    let second = claims
        .try_claim_at::<OriginProbe>(&mut fleet, "origin:tcp_2", "worker:2".into(), secs(30), 1_001)
        .expect("second subject");

    assert!(first.is_claimed());
    assert!(second.is_claimed());
}

#[test]
fn different_subject_types_do_not_compete() {
    let mut fleet = Fleet::join("first_claim_subject_types", 2).ok().expect("fleet");
    let claims = Contest::new();

    let first = claims
        .try_claim_at::<OriginProbe>(&mut fleet, "same-label", "worker:1".into(), secs(30), 1_000)
        .expect("first type");
    let second = claims
        .try_claim_at::<OtherProbe>(&mut fleet, "same-label", "worker:2".into(), secs(30), 1_001)
        .expect("second type");

    assert!(first.is_claimed());
    assert!(second.is_claimed());
}

#[test]
fn releasing_claim_guard_allows_next_claim() {
    let mut fleet = Fleet::join("first_claim_release", 2).ok().expect("fleet");

    let guard = claimed(&mut fleet, "origin:tcp_1", "worker:1", secs(30), 1_000);
    guard.release(&mut fleet).expect("release");

    let next = claim(&mut fleet, "origin:tcp_1", "worker:2", secs(30), 1_100);
    let Claim::Claimed(guard) = next else {
        panic!("released claim should not block");
    };
    assert_eq!(guard.owner().as_str(), "worker:2");
}

#[test]
fn expired_claim_does_not_block_next_claim() {
    let mut fleet = Fleet::join("first_claim_expiry", 2).ok().expect("fleet");

    let first = claim(&mut fleet, "origin:tcp_1", "worker:1", millis(5), 1_000);
    let second = claim(&mut fleet, "origin:tcp_1", "worker:2", secs(30), 1_006);

    assert!(first.is_claimed());
    let Claim::Claimed(guard) = second else {
        panic!("expired claim should not block");
    };
    assert_eq!(guard.owner().as_str(), "worker:2");
}

#[test]
fn yielding_claim_releases_itself() {
    let mut fleet = Fleet::join("yielding_claim_release", 2).ok().expect("fleet");

    let first_guard = claimed(&mut fleet, "origin:tcp_1", "worker:1", secs(30), 1_000);
    let second = claim(&mut fleet, "origin:tcp_1", "worker:2", secs(30), 1_001);
    assert!(matches!(second, Claim::YieldTo(_)));

    first_guard.release(&mut fleet).expect("release first");
    let third = claim(&mut fleet, "origin:tcp_1", "worker:3", secs(30), 1_100);

    let Claim::Claimed(guard) = third else {
        panic!("released yielding claim should not block");
    };
    assert_eq!(guard.owner().as_str(), "worker:3");
}

#[test]
fn renewed_claim_survives_past_original_ttl() {
    let mut fleet = Fleet::join("contest_renew", 2).ok().expect("fleet");

    let mut guard = claimed(&mut fleet, "origin:tcp_1", "worker:1", millis(10), 1_000);

    guard.renew_at(&mut fleet, millis(10), 1_005).expect("renew");
    assert_eq!(guard.expires_at_ms(), 1_015);

    let second = claim(&mut fleet, "origin:tcp_1", "worker:2", secs(30), 1_012);
    let Claim::YieldTo(holder) = second else {
        panic!("renewed claim must still hold the subject");
    };
    assert_eq!(holder.owner.as_str(), "worker:1");
    assert_eq!(holder.expires_at_ms, 1_015);

    let third = claim(&mut fleet, "origin:tcp_1", "worker:3", secs(30), 1_020);
    let Claim::Claimed(guard3) = third else {
        panic!("expired renewed claim should not block");
    };
    assert_eq!(guard3.owner().as_str(), "worker:3");
}

#[test]
fn fence_rejects_superseded_holder() {
    let mut fleet = Fleet::join("contest_fence", 2).ok().expect("fleet");
    let mut fence = Fence::new();

    let mut g1 = claimed(&mut fleet, "origin:tcp_1", "worker:1", millis(5), 1_000);
    let t1 = g1.fence_token();
    assert!(fence.try_admit(t1));

    // The first holder stalls and loses the lease.
    assert!(g1.relinquish(&mut fleet).is_none());
    let g2 = claimed(&mut fleet, "origin:tcp_1", "worker:2", secs(30), 1_010);
    let t2 = g2.fence_token();
    assert!(t2 > t1, "a successive winner must carry a higher token");
    assert!(fence.try_admit(t2));

    assert!(
        !fence.try_admit(t1),
        "a superseded holder must be fenced out at the resource"
    );
}

#[test]
fn active_claim_survives_churn_beyond_old_ring_capacity() {
    let mut fleet = Fleet::join("contest_state_churn", 2).ok().expect("fleet");

    let mut long_lived = claimed(&mut fleet, "long-lived", "holder", secs(30), 1_000);

    let mut now = 1_000u64;
    for index in 0..2_000 {
        let subject = format!("churn:{}", index);
        if let Claim::Claimed(g) = claim(&mut fleet, &subject, "w", secs(30), now) {
            g.release(&mut fleet).expect("churn release");
        }
        now += 1;
    }

    long_lived
        .renew_at(&mut fleet, secs(30), now)
        .expect("renew after churn");
    let contender = claim(&mut fleet, "long-lived", "contender", secs(30), now + 1);
    let Claim::YieldTo(holder) = contender else {
        panic!("unrelated churn must not evict an active claim");
    };
    assert_eq!(holder.claim_id, long_lived.claim_id());
    assert_eq!(holder.owner.as_str(), "holder");
}

#[test]
fn stale_guard_cannot_renew_or_release_successor() {
    let mut fleet = Fleet::join("contest_stale_guard", 2).ok().expect("fleet");

    let mut stale = claimed(&mut fleet, "subject", "first", millis(5), 1_000);
    let successor = claimed(&mut fleet, "subject", "second", secs(30), 1_006);

    assert!(
        stale.renew_at(&mut fleet, secs(30), 1_007).is_err(),
        "an expired, superseded guard must not resurrect its lease"
    );
    let _ = stale.relinquish(&mut fleet);

    let contender = claim(&mut fleet, "subject", "third", secs(30), 1_008);
    let Claim::YieldTo(holder) = contender else {
        panic!("a stale guard must not release the successor");
    };
    assert_eq!(holder.claim_id, successor.claim_id());
    assert_eq!(holder.owner.as_str(), "second");
}

#[test]
fn full_state_table_does_not_evict_live_subjects() {
    let mut fleet = Fleet::join("contest_state_full", 1).ok().expect("fleet");
    let mut guards = Vec::with_capacity(CONTEST_STATE_CAPACITY);

    for index in 0..CONTEST_STATE_CAPACITY {
        let subject = format!("subject:{}", index);
        guards.push(claimed(&mut fleet, &subject, "owner", secs(30), 1_000));
    }

    let error = Contest::new()
        .try_claim_at::<OriginProbe>(&mut fleet, "one-too-many", "owner".into(), secs(30), 1_001)
        .expect_err("a full table must fail instead of evicting a live lease");
    assert!(matches!(
        error,
        Error::ContestStateFull {
            capacity: CONTEST_STATE_CAPACITY
        }
    ));

    // A lease that has run out makes room.
    assert!(claim(&mut fleet, "one-too-many", "owner", secs(30), 31_001).is_claimed());
}

#[test]
fn two_members_claiming_at_one_time_have_one_winner() {
    let mut first = Fleet::join_as("contest_members", 2, NodeId::new(0)).ok().expect("fleet");
    let winner = claimed(&mut first, "same-subject", "node:0", secs(30), 1_000);
    let mut second = Fleet::attach(first.detach(), NodeId::new(1)).ok().expect("attach");
    let Claim::YieldTo(follower) = claim(&mut second, "same-subject", "node:1", secs(30), 1_000)
    else {
        panic!("exactly one claimant must win");
    };
    assert_eq!(follower.claim_id, winner.claim_id());
    assert_eq!(winner.claim_id().counter(), 0);
    assert_eq!(winner.claim_id().node(), 0);
}

#[test]
fn a_guard_shows_its_claim() {
    let mut fleet = Fleet::join("contest_guard", 1).ok().expect("fleet");
    let guard = claimed(&mut fleet, "größe", "arbeiter:1", secs(30), 1_000);
    assert_eq!(guard.subject().kind(), OriginProbe::KIND);
    assert_eq!(guard.subject().label(), "größe");
    assert_eq!(guard.owner().as_str(), "arbeiter:1");
    assert_eq!(guard.expires_at_ms(), 31_000);
    assert_eq!(guard.holder().claimed_at_ms, 1_000);
    assert_eq!(guard.fence_token().get(), guard.claim_id().counter());
}

#[test]
fn a_holder_can_be_guarded_and_released_again() {
    let mut fleet = Fleet::join("contest_reentrant", 1).ok().expect("fleet");
    let contest = Contest::new();
    let guard = claimed(&mut fleet, "subject", "me", secs(30), 1_000);
    let Claim::YieldTo(holder) = claim(&mut fleet, "subject", "me", secs(30), 1_001) else {
        panic!("the subject is held");
    };
    let again = contest.guard_holder(holder.clone());
    assert_eq!(again.claim_id(), guard.claim_id());
    assert_eq!(contest.release_holder(&mut fleet, &holder), Ok(guard.claim_id()));
    assert!(claim(&mut fleet, "subject", "other", secs(30), 1_002).is_claimed());
}

#[test]
fn a_lease_without_a_term_is_held_by_nobody() {
    let mut fleet = Fleet::join("contest_born_expired", 1).ok().expect("fleet");
    let Claim::YieldTo(holder) = claim(&mut fleet, "subject", "me", 0, 1_000) else {
        panic!("a lease that has run out before it began holds nothing");
    };
    assert_eq!(holder.expires_at_ms, 1_000);
    assert!(claim(&mut fleet, "subject", "other", secs(30), 1_000).is_claimed());
}

#[test]
fn labels_must_fit_a_slot() {
    let mut fleet = Fleet::join("contest_labels", 1).ok().expect("fleet");
    let fitting = "s".repeat(CONTEST_STATE_PAYLOAD_MAX - 2);
    assert!(claim(&mut fleet, &fitting, "me", secs(30), 1_000).is_claimed());
    let long = "s".repeat(CONTEST_STATE_PAYLOAD_MAX - 1);
    let error = Contest::new()
        .try_claim_at::<OriginProbe>(&mut fleet, &long, "me".into(), secs(30), 1_000)
        .expect_err("one byte too many");
    assert_eq!(
        error,
        Error::ContestEntryTooLarge { subject_len: 234, owner_len: 2, max_payload: 235 }
    );
    assert_eq!(
        error.message(),
        "orbit contest entry too large: subject_len=234 owner_len=2 max_payload=235"
    );
}

#[test]
fn resetting_the_contest_frees_every_subject() {
    let mut fleet = Fleet::join("contest_reset", 1).ok().expect("fleet");
    let contest = Contest::new();
    let mut guard = claimed(&mut fleet, "subject", "me", secs(30), 1_000);
    contest.reset(&mut fleet).expect("reset");
    let error = guard.renew_at(&mut fleet, secs(30), 1_001).expect_err("the lease is gone");
    assert_eq!(error, Error::ContestLeaseLost { claim_id: guard.claim_id() });
    assert_eq!(error.message(), "orbit contest lease 222:0:0 is no longer active");
    assert!(claim(&mut fleet, "subject", "other", secs(30), 1_001).is_claimed());
    contest.reset_ring(&mut fleet).expect("reset");
    contest.unlink(&mut fleet).expect("unlink");
    assert!(claim(&mut fleet, "subject", "third", secs(30), 1_001).is_claimed());
}

#[test]
fn claims_on_the_wall_clock_are_granted() {
    let mut fleet = Fleet::join("contest_clock", 1).ok().expect("fleet");
    let contest = Contest::new();
    let first = contest
        .try_claim::<OriginProbe>(&mut fleet, "subject", "me".into(), secs(30))
        .expect("claim");
    let Claim::Claimed(mut guard) = first else {
        panic!("a free subject is granted");
    };
    guard.renew(&mut fleet, secs(60)).expect("renew");
    let subject = ContestSubject::new::<OtherProbe>("subject");
    let second = contest
        .try_claim_subject(&mut fleet, subject, String::from("me").into(), secs(30))
        .expect("claim of another type");
    assert!(second.is_claimed());
    assert_eq!(guard.release(&mut fleet).expect("release").kind(), 222);
}

#[test]
fn owners_come_from_text() {
    let text = String::from("worker");
    assert_eq!(ContestOwner::from(&text), ContestOwner::new("worker"));
    assert_eq!(ContestOwner::from(text).as_str(), "worker");
    assert_eq!(ContestOwner::from("worker").as_str(), "worker");
}

#[test]
fn a_table_survives_being_taken_apart() {
    let mut store = ContestStateStore::in_memory();
    let Ok(StateClaim::Claimed(lease)) =
        store.claim(NodeId::new(3), 1, b"subject", b"owner", 1_000, 2_000)
    else {
        panic!("a free subject is granted");
    };
    assert_eq!(lease.claim_id, NetId64::make(222, 3, 0));
    assert_eq!(lease.subject, b"subject".to_vec());
    let (next_claim, slots) = store.into_parts();
    assert_eq!(next_claim, 1);
    let mut store = ContestStateStore::restore(next_claim, slots).expect("a sound table");
    let Ok(StateClaim::Occupied(held)) =
        store.claim(NodeId::new(0), 1, b"subject", b"other", 1_500, 3_000)
    else {
        panic!("the lease is still there");
    };
    assert_eq!(held, lease);
    store.release(1, b"subject", lease.claim_id).expect("release");
    let again = store.claim(NodeId::new(0), 1, b"subject", b"other", 1_500, 3_000);
    assert!(matches!(again, Ok(StateClaim::Claimed(_))));
}

#[test]
fn a_subject_stands_in_the_slot_of_its_hash() {
    let mut store = ContestStateStore::in_memory();
    assert!(store.claim(NodeId::new(0), 1, b"subject", b"owner", 1_000, 2_000).is_ok());
    let (_, slots) = store.into_parts();
    let occupied: Vec<usize> = (0..slots.len()).filter(|at| slots[*at].state == 1).collect();
    assert_eq!(occupied, vec![340]);
    assert_eq!(slots[340].subject_hash, 0xb00b_2174_e8db_3154);
    assert_eq!(&slots[340].payload[..12], b"subjectowner");
}

#[test]
fn tables_of_another_shape_are_refused() {
    assert!(ContestStateStore::restore(0, Vec::new()).is_none());
    let (next_claim, mut slots) = ContestStateStore::in_memory().into_parts();
    slots[7].payload.pop();
    assert!(ContestStateStore::restore(next_claim, slots).is_none());
}

/// A table with a lease of `subject` whose labels are said to have these lengths.
fn mislabelled(subject_len: u16, owner_len: u16) -> (ContestStateStore, NetId64) {
    let mut store = ContestStateStore::in_memory();
    let Ok(StateClaim::Claimed(lease)) =
        store.claim(NodeId::new(0), 1, b"subject", b"owner", 1_000, 9_000)
    else {
        panic!("a free subject is granted");
    };
    let (next_claim, mut slots) = store.into_parts();
    slots[340].subject_len = subject_len;
    slots[340].owner_len = owner_len;
    let store = ContestStateStore::restore(next_claim, slots).expect("a table");
    (store, lease.claim_id)
}

#[test]
fn a_subject_label_beyond_its_slot_costs_only_that_slot() {
    let (mut store, claim_id) = mislabelled(236, 0);
    // Other subjects are served, and the slot is used again once its time is over.
    let other = store.claim(NodeId::new(1), 1, b"other", b"owner", 2_000, 3_000);
    assert!(matches!(other, Ok(StateClaim::Claimed(_))));
    let lost = store.renew(2, b"subject", claim_id, 9_500, 2_000);
    assert_eq!(lost, Err(Error::ContestLeaseLost { claim_id }));
    let again = store.claim(NodeId::new(1), 1, b"subject", b"owner", 9_000, 9_500);
    assert!(matches!(again, Ok(StateClaim::Claimed(_))));
    let (_, slots) = store.into_parts();
    assert_eq!((slots[340].state, slots[340].subject_len), (1, 7));
}

#[test]
fn an_owner_label_beyond_its_slot_does_not_hide_the_lease() {
    let (mut store, claim_id) = mislabelled(7, 229);
    let other = store.claim(NodeId::new(1), 1, b"other", b"owner", 2_000, 3_000);
    assert!(matches!(other, Ok(StateClaim::Claimed(_))));
    let stale = NetId64::make(222, 5, 77);
    let lost = store.renew(1, b"subject", stale, 9_500, 2_000);
    assert_eq!(lost, Err(Error::ContestLeaseLost { claim_id: stale }));
    store.release(1, b"subject", claim_id).expect("release");
    let (_, slots) = store.into_parts();
    assert_eq!(slots[340].state, 2);
}

#[test]
fn a_table_left_in_the_middle_of_a_reset_goes_on_working() {
    let mut store = ContestStateStore::in_memory();
    let Ok(StateClaim::Claimed(lease)) =
        store.claim(NodeId::new(0), 1, b"subject", b"owner", 1_000, 9_000)
    else {
        panic!("a free subject is granted");
    };
    let (_, mut slots) = store.into_parts();
    // The lease has moved to the slot behind its own, and its own has been cleared.
    slots.swap(340, 341);
    let mut store = ContestStateStore::restore(7, slots).expect("a table");
    let lost = store.renew(1, b"subject", lease.claim_id, 9_500, 2_000);
    assert_eq!(lost, Err(Error::ContestLeaseLost { claim_id: lease.claim_id }));
    let Ok(StateClaim::Claimed(again)) =
        store.claim(NodeId::new(1), 1, b"subject", b"other", 2_000, 9_000)
    else {
        panic!("the lease is not found");
    };
    assert_eq!(again.claim_id, NetId64::make(222, 1, 7));
    let (_, slots) = store.into_parts();
    assert_eq!((slots[340].state, slots[341].state), (1, 1));
}

#[test]
fn slots_of_an_unknown_state_are_passed_over() {
    let (next_claim, mut slots) = ContestStateStore::in_memory().into_parts();
    slots[340].state = 9;
    let mut store = ContestStateStore::restore(next_claim, slots).expect("a table");
    let claim = store.claim(NodeId::new(0), 1, b"subject", b"owner", 1_000, 9_000);
    assert!(matches!(claim, Ok(StateClaim::Claimed(_))));
    let claim = store.claim(NodeId::new(1), 1, b"subject", b"other", 2_000, 9_000);
    assert!(matches!(claim, Ok(StateClaim::Occupied(_))));
    let (_, slots) = store.into_parts();
    assert_eq!((slots[340].state, slots[341].state), (9, 1));
}

#[test]
fn a_lease_under_another_hash_blocks_its_slot_until_it_expires() {
    let mut store = ContestStateStore::in_memory();
    assert!(store.claim(NodeId::new(0), 1, b"subject", b"owner", 1_000, 2_000).is_ok());
    let (next_claim, mut slots) = store.into_parts();
    slots[340].subject_hash = 0;
    let mut store = ContestStateStore::restore(next_claim, slots).expect("a table");
    let claim = store.claim(NodeId::new(1), 1, b"subject", b"other", 1_500, 1_600);
    assert!(matches!(claim, Ok(StateClaim::Claimed(_))));
    let claim = store.claim(NodeId::new(1), 1, b"subject", b"other", 3_000, 4_000);
    assert!(matches!(claim, Ok(StateClaim::Claimed(_))));
    let (_, slots) = store.into_parts();
    assert_eq!((slots[340].state, slots[341].state), (1, 2));
}

#[test]
fn the_claim_counter_runs_out() {
    let (_, slots) = ContestStateStore::in_memory().into_parts();
    let mut store = ContestStateStore::restore(1 << 40, slots).expect("a sound table");
    let error = store
        .claim(NodeId::new(0), 1, b"subject", b"owner", 1_000, 2_000)
        .err()
        .expect("no token is left");
    assert_eq!(error, Error::ContestIdExhausted);
    assert_eq!(error.message(), "orbit contest exhausted its 40-bit claim counter");
}

#[test]
fn contest_segments_are_checked() {
    let header = ContestStateHeader::new();
    assert!(header.check("/orbit-x-222-0").is_ok());
    assert_eq!(shm_segment_size(), 64 + 1024 * 320);

    let mut wrong = header;
    wrong.magic = 0;
    let error = wrong.check("/orbit-x-222-0").expect_err("wrong magic");
    assert_eq!(error.kind, IoErrorKind::InvalidData);
    assert_eq!(
        error.message,
        "SHM segment /orbit-x-222-0 has wrong magic 0x00000000 (expected 0x4F435354)"
    );

    let mut wrong = header;
    wrong.capacity = 1;
    let error = wrong.check("/orbit-x-222-0").expect_err("another layout");
    assert_eq!(
        error.message,
        "SHM segment /orbit-x-222-0 has an incompatible Contest state layout"
    );
}

#[test]
fn label_bytes_that_are_no_text_are_shown_lossily() {
    let holder = holder_from_state(LeaseState {
        claim_id: NetId64::make(222, 0, 5),
        subject_kind: 1,
        subject: b"a\xffb".to_vec(),
        owner: "größe".as_bytes().to_vec(),
        claimed_at_ms: 1_000,
        expires_at_ms: 2_000,
    });
    assert_eq!(holder.subject.label(), "a\u{fffd}b");
    assert_eq!(holder.owner.as_str(), "größe");
    assert_eq!(holder.subject.kind(), 1);
}
