use kademlia::store::{Record, RecordStore, ProviderRecord, ProviderStore};

fn rec(key: u64, value: &[u8], expires: Option<u64>) -> Record {
    Record { key, value: value.to_vec(), publisher: None, expires }
}

#[test]
fn put_then_get_round_trip() {
    let mut s = RecordStore::new();
    assert!(s.put(rec(7, b"bar", Some(100))));
    assert_eq!(s.get(7, 50), Some(b"bar".to_vec()));
}

#[test]
fn get_after_expiry_is_absent() {
    let mut s = RecordStore::new();
    assert!(s.put(rec(7, b"bar", Some(100))));
    assert_eq!(s.get(7, 100), None);
    assert_eq!(s.get(7, 150), None);
}

#[test]
fn get_missing_key_is_absent() {
    let s = RecordStore::new();
    assert_eq!(s.get(9, 0), None);
}

#[test]
fn later_expiry_replaces() {
    let mut s = RecordStore::new();
    assert!(s.put(rec(7, b"old", Some(100))));
    assert!(s.put(rec(7, b"new", Some(200))));
    assert_eq!(s.get(7, 50), Some(b"new".to_vec()));
}

#[test]
fn earlier_expiry_does_not_replace() {
    let mut s = RecordStore::new();
    assert!(s.put(rec(7, b"old", Some(200))));
    assert!(!s.put(rec(7, b"new", Some(100))));
    assert_eq!(s.get(7, 50), Some(b"old".to_vec()));
}

#[test]
fn no_expiry_always_replaces() {
    let mut s = RecordStore::new();
    assert!(s.put(rec(7, b"old", None)));
    assert!(s.put(rec(7, b"new", None)));
    assert_eq!(s.get(7, 50), Some(b"new".to_vec()));
}

#[test]
fn expiry_never_replaces_no_expiry() {
    let mut s = RecordStore::new();
    assert!(s.put(rec(7, b"old", None)));
    assert!(!s.put(rec(7, b"new", Some(u64::MAX))));
    assert_eq!(s.get(7, 50), Some(b"old".to_vec()));
}

#[test]
fn sweep_drops_only_dead_records() {
    let mut s = RecordStore::new();
    assert!(s.put(rec(1, b"a", Some(10))));
    assert!(s.put(rec(2, b"b", Some(100))));
    assert!(s.put(rec(3, b"c", None)));
    s.sweep(50);
    assert_eq!(s.get(1, 50), None);
    assert_eq!(s.get(2, 50), Some(b"b".to_vec()));
    assert_eq!(s.get(3, 50), Some(b"c".to_vec()));
}

#[test]
fn provider_listed_until_expiry_and_not_after() {
    let mut p = ProviderStore::new();
    p.add_provider(ProviderRecord { key: 5, provider: 42, expires: 100 });
    let before: Vec<u64> = p.get_providers(5, 99).iter().map(|r| r.provider).collect();
    assert_eq!(before, vec![42]);
    let at: Vec<u64> = p.get_providers(5, 100).iter().map(|r| r.provider).collect();
    assert!(at.is_empty());
    let after: Vec<u64> = p.get_providers(5, 150).iter().map(|r| r.provider).collect();
    assert!(after.is_empty());
}

#[test]
fn providers_deduplicate_by_peer() {
    let mut p = ProviderStore::new();
    p.add_provider(ProviderRecord { key: 5, provider: 42, expires: 100 });
    p.add_provider(ProviderRecord { key: 5, provider: 42, expires: 200 });
    p.add_provider(ProviderRecord { key: 5, provider: 43, expires: 200 });
    let mut peers: Vec<u64> = p.get_providers(5, 50).iter().map(|r| r.provider).collect();
    peers.sort();
    assert_eq!(peers, vec![42, 43]);
}

#[test]
fn remove_provider_withdraws_claim() {
    let mut p = ProviderStore::new();
    p.add_provider(ProviderRecord { key: 5, provider: 42, expires: 100 });
    p.remove_provider(5, 42);
    assert!(p.get_providers(5, 50).is_empty());
}

#[test]
fn provider_sweep_drops_dead_claims() {
    let mut p = ProviderStore::new();
    p.add_provider(ProviderRecord { key: 5, provider: 42, expires: 10 });
    p.add_provider(ProviderRecord { key: 5, provider: 43, expires: 100 });
    p.sweep(50);
    let peers: Vec<u64> = p.get_providers(5, 50).iter().map(|r| r.provider).collect();
    assert_eq!(peers, vec![43]);
}

#[test]
fn provided_by_lists_own_claims() {
    let mut p = ProviderStore::new();
    p.add_provider(ProviderRecord { key: 5, provider: 42, expires: 100 });
    p.add_provider(ProviderRecord { key: 6, provider: 42, expires: 100 });
    p.add_provider(ProviderRecord { key: 7, provider: 9, expires: 100 });
    let mut keys: Vec<u64> = p.provided_by(42, 50).iter().map(|r| r.key).collect();
    keys.sort();
    assert_eq!(keys, vec![5, 6]);
}
