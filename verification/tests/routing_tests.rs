use kademlia::routing::{RoutingTable, AddResult};
use kademlia::ident::BUCKET_SIZE;

fn addr(s: &[u8]) -> Vec<Vec<u8>> {
    vec![s.to_vec()]
}

#[test]
fn insert_and_find() {
    let mut t = RoutingTable::new(0);
    assert!(matches!(t.add_or_update(1, addr(b"/a"), 10), AddResult::Inserted));
    assert!(t.has_entry(1));
    assert!(!t.has_entry(2));
}

#[test]
fn self_is_never_inserted() {
    let mut t = RoutingTable::new(7);
    assert!(matches!(t.add_or_update(7, addr(b"/a"), 10), AddResult::SelfEntry));
    assert!(!t.has_entry(7));
}

#[test]
fn merge_addresses_of_one_peer() {
    // two discovery events for one peer leave one entry with both addresses
    let mut t = RoutingTable::new(0);
    assert!(matches!(t.add_or_update(1, addr(b"/a"), 10), AddResult::Inserted));
    assert!(matches!(t.add_or_update(1, addr(b"/b"), 20), AddResult::Updated));
    assert_eq!(t.entries.len(), 1);
    let mut addrs: Vec<Vec<u8>> = t.entries[0].addrs.clone();
    addrs.sort();
    assert_eq!(addrs, vec![b"/a".to_vec(), b"/b".to_vec()]);
    assert_eq!(t.entries[0].last_seen, 20);
}

#[test]
fn duplicate_address_is_kept_once() {
    let mut t = RoutingTable::new(0);
    t.add_or_update(1, addr(b"/a"), 10);
    t.add_or_update(1, addr(b"/a"), 20);
    assert_eq!(t.entries[0].addrs.len(), 1);
}

#[test]
fn full_bucket_asks_for_probe_of_least_recent() {
    // peers 32..=63 all share the highest set bit, hence one bucket
    let mut t = RoutingTable::new(0);
    for p in 32u64..(32 + BUCKET_SIZE as u64) {
        assert!(matches!(t.add_or_update(p, vec![], 10), AddResult::Inserted));
    }
    match t.add_or_update(32 + BUCKET_SIZE as u64, vec![], 11) {
        AddResult::BucketFull { probe } => assert_eq!(probe, 32),
        other => panic!("unexpected: {:?}", other),
    }
    assert_eq!(t.entries.len(), BUCKET_SIZE);
}

#[test]
fn failed_probe_promotes_the_newcomer() {
    let mut t = RoutingTable::new(0);
    for p in 32u64..(32 + BUCKET_SIZE as u64) {
        t.add_or_update(p, vec![], 10);
    }
    let newcomer = 32 + BUCKET_SIZE as u64;
    assert!(matches!(t.add_or_update(newcomer, vec![], 11), AddResult::BucketFull { .. }));
    t.on_probe(32, false, 12);
    assert!(!t.has_entry(32));
    assert!(t.has_entry(newcomer));
    assert_eq!(t.entries.len(), BUCKET_SIZE);
}

#[test]
fn answered_probe_keeps_the_bucket_stable() {
    let mut t = RoutingTable::new(0);
    for p in 32u64..(32 + BUCKET_SIZE as u64) {
        t.add_or_update(p, vec![], 10);
    }
    let newcomer = 32 + BUCKET_SIZE as u64;
    assert!(matches!(t.add_or_update(newcomer, vec![], 11), AddResult::BucketFull { .. }));
    t.on_probe(32, true, 12);
    assert!(t.has_entry(32));
    assert!(!t.has_entry(newcomer));
    // the answering entry moved to most-recently-seen
    assert_eq!(t.entries[t.entries.len() - 1].peer, 32);
}

#[test]
fn find_closest_orders_by_xor_distance() {
    let mut t = RoutingTable::new(0);
    for p in [9u64, 1, 12, 3, 7] {
        t.add_or_update(p, vec![], 10);
    }
    let out: Vec<u64> = t.find_closest(0, 10).iter().map(|e| e.peer).collect();
    assert_eq!(out, vec![1, 3, 7, 9, 12]);
}

#[test]
fn find_closest_caps_at_n_and_has_no_duplicates() {
    let mut t = RoutingTable::new(0);
    for p in [9u64, 1, 12, 3, 7] {
        t.add_or_update(p, vec![], 10);
    }
    let out: Vec<u64> = t.find_closest(0, 3).iter().map(|e| e.peer).collect();
    assert_eq!(out, vec![1, 3, 7]);
    let mut dedup = out.clone();
    dedup.dedup();
    assert_eq!(dedup, out);
}

#[test]
fn find_closest_uses_the_target_metric() {
    let mut t = RoutingTable::new(0);
    for p in [1u64, 2, 3, 8] {
        t.add_or_update(p, vec![], 10);
    }
    // distances to 8: 8^8=0, 3^8=11, 2^8=10, 1^8=9
    let out: Vec<u64> = t.find_closest(8, 2).iter().map(|e| e.peer).collect();
    assert_eq!(out, vec![8, 1]);
}

#[test]
fn remove_peer_drops_the_entry() {
    let mut t = RoutingTable::new(0);
    t.add_or_update(1, vec![], 10);
    t.add_or_update(2, vec![], 10);
    t.remove_peer(1);
    assert!(!t.has_entry(1));
    assert!(t.has_entry(2));
}

#[test]
fn bucket_never_exceeds_capacity() {
    let mut t = RoutingTable::new(0);
    for p in 32u64..64 {
        t.add_or_update(p, vec![], 10);
    }
    assert_eq!(t.entries.len(), BUCKET_SIZE);
}
