//! The single-flight registry: leader election, slot lifecycle, isolation.

use imaged::singleflight::{Group, Role};

#[test]
fn fifty_concurrent_callers_get_one_leader() {
    let mut group = Group::new();
    let mut leaders = 0;
    let mut followers = 0;
    for _ in 0..50 {
        match group.enter(b"fingerprint-bytes") {
            Role::Leader => leaders += 1,
            Role::Follower => followers += 1,
        }
    }
    assert_eq!(leaders, 1, "the computation must be invoked exactly once");
    assert_eq!(followers, 49);
}

#[test]
fn slot_removal_lets_a_new_flight_start() {
    let mut group = Group::new();
    assert_eq!(group.enter(b"k"), Role::Leader);
    group.exit(b"k");
    // the slot is gone before followers settle: a new arrival leads again
    assert_eq!(group.enter(b"k"), Role::Leader);
}

#[test]
fn abandoned_leader_frees_the_slot() {
    let mut group = Group::new();
    assert_eq!(group.enter(b"k"), Role::Leader);
    assert_eq!(group.enter(b"k"), Role::Follower);
    // the leader is cancelled; its guard removes the slot
    group.exit(b"k");
    // a retrying follower becomes the new leader
    assert_eq!(group.enter(b"k"), Role::Leader);
}

#[test]
fn distinct_keys_do_not_serialize() {
    let mut group = Group::new();
    assert_eq!(group.enter(b"k1"), Role::Leader);
    assert_eq!(group.enter(b"k2"), Role::Leader);
    assert_eq!(group.enter(b"k1"), Role::Follower);
    assert_eq!(group.enter(b"k2"), Role::Follower);
    group.exit(b"k1");
    // exiting one key leaves the other's flight alone
    assert_eq!(group.enter(b"k2"), Role::Follower);
    assert_eq!(group.enter(b"k1"), Role::Leader);
}

#[test]
fn exit_of_absent_key_is_harmless() {
    let mut group = Group::new();
    group.exit(b"never-entered");
    assert_eq!(group.enter(b"never-entered"), Role::Leader);
}
