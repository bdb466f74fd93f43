use kademlia::query::{Query, QueryKind, CandState};
use kademlia::ident::{ALPHA, key_id_of, bucket_index, xor_distance, bytes_eq};

#[test]
fn batch_is_capped_at_alpha() {
    let seeds: Vec<u64> = vec![1, 2, 3, 4, 5];
    let mut q = Query::new(0, QueryKind::FindNode, 0, 1, &seeds);
    let batch = q.next_batch();
    assert_eq!(batch, vec![1, 2, 3]);
    assert_eq!(batch.len(), ALPHA);
}

#[test]
fn empty_seed_query_is_exhausted_at_once() {
    let seeds: Vec<u64> = vec![];
    let mut q = Query::new(0, QueryKind::GetValue, 9, 1, &seeds);
    assert!(q.exhausted());
    assert!(q.next_batch().is_empty());
}

#[test]
fn responses_free_slots_for_more_requests() {
    let seeds: Vec<u64> = vec![1, 2, 3, 4, 5];
    let mut q = Query::new(0, QueryKind::FindNode, 0, 1, &seeds);
    let first = q.next_batch();
    assert_eq!(first, vec![1, 2, 3]);
    assert!(q.next_batch().is_empty());
    q.on_response(1);
    let second = q.next_batch();
    assert_eq!(second, vec![4]);
}

#[test]
fn failure_prunes_without_retry() {
    let seeds: Vec<u64> = vec![1, 2];
    let mut q = Query::new(0, QueryKind::FindNode, 0, 1, &seeds);
    let first = q.next_batch();
    assert_eq!(first, vec![1, 2]);
    q.on_failure(1);
    q.on_response(2);
    assert!(q.next_batch().is_empty());
    assert!(q.exhausted());
    assert_eq!(q.candidates[0].state, CandState::Failed);
}

#[test]
fn new_candidates_are_asked_closest_first() {
    let seeds: Vec<u64> = vec![1];
    let mut q = Query::new(0, QueryKind::FindNode, 0, 1, &seeds);
    let _ = q.next_batch();
    q.on_response(1);
    q.add_candidate(12);
    q.add_candidate(2);
    q.add_candidate(5);
    let batch = q.next_batch();
    assert_eq!(batch, vec![2, 5, 12]);
}

#[test]
fn duplicate_candidates_are_ignored() {
    let seeds: Vec<u64> = vec![1];
    let mut q = Query::new(0, QueryKind::FindNode, 0, 1, &seeds);
    q.add_candidate(1);
    assert_eq!(q.candidates.len(), 1);
}

#[test]
fn key_hash_is_deterministic_and_spreads() {
    assert_eq!(key_id_of(b"foo"), key_id_of(b"foo"));
    assert_ne!(key_id_of(b"foo"), key_id_of(b"bar"));
    assert_ne!(key_id_of(b""), key_id_of(b"a"));
}

#[test]
fn bucket_index_is_the_highest_set_bit() {
    assert_eq!(bucket_index(0), 0);
    assert_eq!(bucket_index(1), 0);
    assert_eq!(bucket_index(2), 1);
    assert_eq!(bucket_index(3), 1);
    assert_eq!(bucket_index(4), 2);
    assert_eq!(bucket_index(u64::MAX), 63);
}

#[test]
fn xor_distance_is_symmetric_and_zero_on_self() {
    assert_eq!(xor_distance(5, 5), 0);
    assert_eq!(xor_distance(5, 9), xor_distance(9, 5));
}

#[test]
fn bytes_eq_compares_contents() {
    assert!(bytes_eq(b"abc", b"abc"));
    assert!(!bytes_eq(b"abc", b"abd"));
    assert!(!bytes_eq(b"abc", b"ab"));
}
