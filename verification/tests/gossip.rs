//! Scenarios for the gossip failure detector: the wire codec, the merge
//! rule, failure and leave detection, and mode switching.

use maplejuice::membership::{MemberEntry, MembershipList, PeerStatus};
use maplejuice::wire::{
    apply_datagram, build_datagram, populate_entry_bytes, read_entry_bytes, DATAGRAM_LEN,
    ENTRY_LEN,
};

fn peer(hostname: &[u8], port: u16, timestamp: u64, now: u64) -> MembershipList {
    MembershipList::new(hostname.to_vec(), port, timestamp, now)
}

fn entry(hostname: &[u8], heartbeat: u32, status: PeerStatus, inc_num: u32) -> MemberEntry {
    MemberEntry {
        hostname: hostname.to_vec(),
        port: 50001,
        timestamp: 7,
        heartbeat,
        local_time: 0,
        status,
        inc_num,
    }
}

#[test]
fn entry_bytes_round_trip() {
    let e = entry(b"node-three.example", 42, PeerStatus::Suspected, 9);
    let bytes = populate_entry_bytes(&e, 1);
    assert_eq!(bytes.len(), ENTRY_LEN);
    let (mode, back) = read_entry_bytes(&bytes, 0, 1234);
    assert_eq!(mode, 1);
    assert_eq!(back.hostname, e.hostname);
    assert_eq!(back.port, 50001);
    assert_eq!(back.timestamp, 7);
    assert_eq!(back.heartbeat, 42);
    assert_eq!(back.status, PeerStatus::Suspected);
    assert_eq!(back.inc_num, 9);
    assert_eq!(back.local_time, 1234);
}

#[test]
fn newer_heartbeat_refreshes_entry() {
    let mut list = peer(b"self.host", 50001, 1, 1000);
    list.upsert(entry(b"other.host", 5, PeerStatus::Alive, 1), 1000);
    assert_eq!(list.entries.len(), 2);

    // A higher heartbeat refreshes; a lower one is ignored.
    list.upsert(entry(b"other.host", 9, PeerStatus::Alive, 1), 2000);
    assert_eq!(list.entries[1].heartbeat, 9);
    assert_eq!(list.entries[1].local_time, 2000);
    list.upsert(entry(b"other.host", 7, PeerStatus::Alive, 1), 3000);
    assert_eq!(list.entries[1].heartbeat, 9);
    assert_eq!(list.entries[1].local_time, 2000);
}

#[test]
fn failure_detection_normal_mode() {
    let mut list = peer(b"self.host", 50001, 1, 1000);
    list.upsert(entry(b"victim.host", 3, PeerStatus::Alive, 1), 1000);

    // Within T_FAIL nothing happens.
    list.sweep(2000);
    assert_eq!(list.entries.len(), 2);
    assert_eq!(list.entries[1].status, PeerStatus::Alive);

    // After T_FAIL the peer is marked failed.
    list.sweep(4200);
    assert_eq!(list.entries[1].status, PeerStatus::Failed);

    // After T_FAIL + T_CLEANUP the entry is removed.
    list.sweep(8200);
    assert_eq!(list.entries.len(), 1);
}

#[test]
fn failure_detection_suspicion_mode() {
    let mut list = peer(b"self.host", 50001, 1, 1000);
    list.set_suspicion(true, 1000);
    list.upsert(entry(b"victim.host", 3, PeerStatus::Alive, 1), 1000);

    list.sweep(4200);
    assert_eq!(list.entries[1].status, PeerStatus::Suspected);
    list.sweep(9100);
    assert_eq!(list.entries[1].status, PeerStatus::Failed);
    list.sweep(13100);
    assert_eq!(list.entries.len(), 1);
}

#[test]
fn voluntary_leave_is_detected() {
    let mut list = peer(b"self.host", 50001, 1, 1000);
    list.upsert(entry(b"leaver.host", 8, PeerStatus::Alive, 1), 1000);

    // The leaver announces heartbeat 0; the merge adopts it, and the next
    // sweep marks the entry failed even though no timeout passed.
    list.upsert(entry(b"leaver.host", 0, PeerStatus::Alive, 1), 1400);
    assert_eq!(list.entries[1].heartbeat, 0);
    list.sweep(1500);
    assert_eq!(list.entries[1].status, PeerStatus::Failed);
}

#[test]
fn leave_sets_own_heartbeat_to_zero() {
    let mut list = peer(b"self.host", 50001, 1, 1000);
    assert_eq!(list.self_heartbeat(), 1);
    list.leave();
    assert_eq!(list.self_heartbeat(), 0);
}

#[test]
fn suspicion_self_defense_raises_incarnation() {
    let mut list = peer(b"self.host", 50001, 1, 1000);
    list.set_suspicion(true, 1000);
    let before = list.entries[list.self_index].inc_num;

    // A crafted datagram claims this very peer is suspected.
    let mut accusation = entry(b"self.host", 1, PeerStatus::Suspected, before);
    accusation.port = 50001;
    accusation.timestamp = 1;
    let slot = populate_entry_bytes(&accusation, 1);
    let mut datagram = slot.clone();
    datagram.resize(DATAGRAM_LEN, 0);
    apply_datagram(&mut list, &datagram, 2000);

    let own = &list.entries[list.self_index];
    assert_eq!(own.inc_num, before + 1);
    assert_eq!(own.status, PeerStatus::Alive);

    // The next outgoing gossip carries the raised incarnation.
    let out = build_datagram(&list);
    let (_, first) = read_entry_bytes(&out, 0, 0);
    assert_eq!(first.hostname, b"self.host".to_vec());
    assert_eq!(first.inc_num, before + 1);
}

#[test]
fn failed_entries_stay_out_of_datagrams() {
    let mut list = peer(b"self.host", 50001, 1, 1000);
    list.upsert(entry(b"dead.host", 2, PeerStatus::Failed, 1), 1000);
    list.upsert(entry(b"live.host", 2, PeerStatus::Alive, 1), 1000);
    let out = build_datagram(&list);
    assert_eq!(out.len(), DATAGRAM_LEN);
    let (_, first) = read_entry_bytes(&out, 0, 0);
    let (_, second) = read_entry_bytes(&out, ENTRY_LEN, 0);
    let (_, third) = read_entry_bytes(&out, 2 * ENTRY_LEN, 0);
    assert_eq!(first.hostname, b"self.host".to_vec());
    assert_eq!(second.hostname, b"live.host".to_vec());
    // The dead peer's slot is the all-zero sentinel.
    assert!(third.hostname.is_empty());
}

#[test]
fn mode_switch_respects_cooldown() {
    let mut list = peer(b"self.host", 50001, 1, 1000);
    assert!(!list.suspicion);

    // A datagram carrying suspicion mode arrives too soon after start.
    let other = entry(b"other.host", 3, PeerStatus::Alive, 1);
    let slot = populate_entry_bytes(&other, 1);
    let mut datagram = slot.clone();
    datagram.resize(DATAGRAM_LEN, 0);
    apply_datagram(&mut list, &datagram, 5000);
    assert!(!list.suspicion);

    // Once the cooldown has passed, the mode is adopted.
    apply_datagram(&mut list, &datagram, 12000);
    assert!(list.suspicion);
}

#[test]
fn gossip_targets_are_live_peers() {
    let mut list = peer(b"self.host", 50001, 1, 1000);
    list.upsert(entry(b"a.host", 2, PeerStatus::Alive, 1), 1000);
    list.upsert(entry(b"b.host", 2, PeerStatus::Alive, 1), 1000);

    // With two candidates, both are contacted.
    let targets = list.gossip_tick(1400);
    assert_eq!(targets.len(), 2);
    for &t in &targets {
        let host = &list.entries[t].hostname;
        assert!(host == &b"a.host".to_vec() || host == &b"b.host".to_vec());
        assert_eq!(list.entries[t].port, 50001);
    }
    assert_eq!(list.entries[list.self_index].heartbeat, 2);

    // With five, a random three distinct peers are picked — never the
    // peer itself, never a failed peer.
    list.upsert(entry(b"c.host", 2, PeerStatus::Alive, 1), 1000);
    list.upsert(entry(b"d.host", 2, PeerStatus::Alive, 1), 1000);
    list.upsert(entry(b"e.host", 2, PeerStatus::Failed, 1), 1000);
    list.upsert(entry(b"f.host", 2, PeerStatus::Alive, 1), 1000);
    let targets = list.gossip_tick(1800);
    assert_eq!(targets.len(), 3);
    for (i, &t) in targets.iter().enumerate() {
        assert_ne!(list.entries[t].hostname, b"self.host".to_vec());
        assert_ne!(list.entries[t].hostname, b"e.host".to_vec());
        for &u in &targets[i + 1..] {
            assert_ne!(t, u);
        }
    }
}

#[test]
fn leave_survives_the_final_gossip_pass() {
    let mut list = peer(b"self.host", 50001, 1, 1000);
    list.upsert(entry(b"a.host", 2, PeerStatus::Alive, 1), 1000);
    list.leave();
    assert_eq!(list.self_heartbeat(), 0);

    // The final gossip pass must not raise the zero heartbeat, and the
    // outgoing datagram carries the leave announcement.
    let targets = list.gossip_tick(1400);
    assert_eq!(targets.len(), 1);
    assert_eq!(list.self_heartbeat(), 0);
    let out = build_datagram(&list);
    let (_, first) = read_entry_bytes(&out, 0, 0);
    assert_eq!(first.hostname, b"self.host".to_vec());
    assert_eq!(first.heartbeat, 0);
}

#[test]
fn alive_snapshot_marks_live_hosts() {
    let mut list = peer(b"h1", 50001, 1, 1000);
    list.upsert(entry(b"h2", 2, PeerStatus::Alive, 1), 1000);
    list.upsert(entry(b"h3", 2, PeerStatus::Failed, 1), 1000);
    let hosts: Vec<Vec<u8>> = vec![b"h1".to_vec(), b"h2".to_vec(), b"h3".to_vec(), b"h4".to_vec()];
    let snapshot = list.alive_snapshot(&hosts);
    assert_eq!(snapshot, vec![1, 1, 0, 0]);
}

#[test]
fn datagrams_refresh_known_peers() {
    let mut list = peer(b"self.host", 50001, 1, 1000);
    list.upsert(entry(b"other.host", 5, PeerStatus::Alive, 1), 1000);

    // A datagram carrying a higher heartbeat for a known run refreshes
    // that entry in place.
    let newer = entry(b"other.host", 9, PeerStatus::Alive, 1);
    let slot = populate_entry_bytes(&newer, 0);
    let mut datagram = slot.clone();
    datagram.resize(DATAGRAM_LEN, 0);
    apply_datagram(&mut list, &datagram, 2500);
    assert_eq!(list.entries.len(), 2);
    assert_eq!(list.entries[1].heartbeat, 9);
    assert_eq!(list.entries[1].local_time, 2500);

    // Slots past the end-of-payload sentinel are never folded in: a
    // well-formed entry hidden behind an empty slot is ignored.
    let stale = populate_entry_bytes(&entry(b"ghost.host", 1, PeerStatus::Alive, 1), 0);
    let mut tricky = vec![0u8; ENTRY_LEN];
    tricky.extend_from_slice(&stale);
    tricky.resize(DATAGRAM_LEN, 0);
    apply_datagram(&mut list, &tricky, 3000);
    assert_eq!(list.entries.len(), 2);
}
