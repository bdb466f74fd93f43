use kademlia::node::{Node, Effect, Outcome, Request, Response};
use kademlia::parse::CommandError;
use kademlia::ident::key_id_of;

fn new_node(peer: u64) -> Node {
    Node::new(peer, 1_000, 1_000)
}

#[test]
fn malformed_get_changes_nothing() {
    let mut n = new_node(1);
    let effects = n.handle_command(b"GET", 0);
    assert_eq!(effects.len(), 1);
    match &effects[0] {
        Effect::CommandFailed { error } => assert_eq!(*error, CommandError::ExpectedKey),
        other => panic!("unexpected: {:?}", other),
    }
    assert_eq!(n.routing.entries.len(), 0);
    assert_eq!(n.records.records.len(), 0);
    assert_eq!(n.providers.providers.len(), 0);
    assert_eq!(n.queries.len(), 0);
}

#[test]
fn unknown_verb_changes_nothing() {
    let mut n = new_node(1);
    let effects = n.handle_command(b"BANANA", 0);
    assert_eq!(effects.len(), 1);
    assert!(matches!(effects[0], Effect::CommandFailed { error: CommandError::UnknownCommand }));
    assert_eq!(n.queries.len(), 0);
}

#[test]
fn empty_table_get_terminates_with_failure() {
    // a query against an empty routing table ends at once, without a send
    let mut n = new_node(1);
    let effects = n.handle_command(b"GET foo", 0);
    assert_eq!(effects.len(), 1);
    assert!(matches!(
        effects[0],
        Effect::Report { outcome: Outcome::NotFound, .. }
    ));
    assert_eq!(n.queries.len(), 0);
}

#[test]
fn empty_table_closest_peers_terminates() {
    let mut n = new_node(1);
    let effects = n.handle_command(b"CLOSEST_PEERS foo", 0);
    assert_eq!(effects.len(), 1);
    assert!(matches!(effects[0], Effect::Report { .. }));
}

#[test]
fn put_with_empty_key_fails_locally() {
    let mut n = new_node(1);
    let effects = n.handle_command(b"PUT  v", 0);
    assert_eq!(effects.len(), 1);
    assert!(matches!(effects[0], Effect::StoreFailed));
    assert_eq!(n.records.records.len(), 0);
}

#[test]
fn get_answers_from_the_local_store() {
    // put then get on one node: the local record satisfies quorum one at once
    let mut n = new_node(1);
    let _ = n.handle_command(b"PUT foo bar", 0);
    let effects = n.handle_command(b"GET foo", 1);
    assert_eq!(effects.len(), 1);
    assert!(effects.iter().any(|e| matches!(
        e,
        Effect::Report { outcome: Outcome::ValueFound { value }, .. } if value == &b"bar".to_vec()
    )));
}

#[test]
fn local_get_after_expiry_is_not_found() {
    let mut n = new_node(1);
    let _ = n.handle_command(b"PUT foo bar", 0);
    // the record's ttl is 1_000; past its expiry the local copy is dead
    let effects = n.handle_command(b"GET foo", 5_000);
    assert!(effects.iter().any(|e| matches!(
        e,
        Effect::Report { outcome: Outcome::NotFound, .. }
    )));
}

#[test]
fn empty_table_put_reports_quorum_failure() {
    // with zero known peers a PUT stores locally but cannot meet its quorum
    let mut n = new_node(1);
    let effects = n.handle_command(b"PUT foo bar", 0);
    assert_eq!(effects.len(), 1);
    assert!(matches!(
        effects[0],
        Effect::Report { outcome: Outcome::StoreQuorumFailed, .. }
    ));
    let kid = key_id_of(b"foo");
    assert_eq!(n.records.get(kid, 10), Some(b"bar".to_vec()));
}

#[test]
fn put_stores_locally() {
    let mut n = new_node(1);
    let _ = n.handle_command(b"PUT foo bar", 0);
    let kid = key_id_of(b"foo");
    assert_eq!(n.records.get(kid, 10), Some(b"bar".to_vec()));
}

#[test]
fn put_provider_records_self() {
    let mut n = new_node(1);
    let _ = n.handle_command(b"PUT_PROVIDER k1", 0);
    let kid = key_id_of(b"k1");
    let peers: Vec<u64> = n.providers.get_providers(kid, 10).iter().map(|r| r.provider).collect();
    assert_eq!(peers, vec![1]);
}

#[test]
fn discovery_feeds_the_routing_table() {
    let mut n = new_node(1);
    let effects = n.handle_discovery(2, vec![b"/a".to_vec()], 5);
    assert!(effects.is_empty());
    assert!(n.routing.has_entry(2));
}

#[test]
fn two_discoveries_merge_into_one_entry() {
    let mut n = new_node(1);
    let _ = n.handle_discovery(2, vec![b"/a".to_vec()], 5);
    let _ = n.handle_discovery(2, vec![b"/b".to_vec()], 6);
    assert_eq!(n.routing.entries.len(), 1);
    let mut addrs = n.routing.entries[0].addrs.clone();
    addrs.sort();
    assert_eq!(addrs, vec![b"/a".to_vec(), b"/b".to_vec()]);
}

#[test]
fn two_node_put_then_get() {
    // node A stores foo=bar; node B, which discovered A, gets it over the wire
    let mut a = new_node(1);
    let mut b = new_node(2);
    let _ = a.handle_command(b"PUT foo bar", 0);

    let _ = b.handle_discovery(1, vec![b"/a".to_vec()], 0);
    let effects = b.handle_command(b"GET foo", 1);
    assert_eq!(effects.len(), 1);
    let (to, query_id, request) = match effects.into_iter().next().unwrap() {
        Effect::Send { to, query_id, request } => (to, query_id, request),
        other => panic!("unexpected: {:?}", other),
    };
    assert_eq!(to, 1);
    assert!(matches!(request, Request::GetValue { .. }));

    let response = a.handle_request(2, request, 1);
    match &response {
        Response::Value { value, .. } => assert_eq!(value, &b"bar".to_vec()),
        other => panic!("unexpected: {:?}", other),
    }

    let results = b.handle_response(query_id, 1, response, 2);
    assert!(results.iter().any(|e| matches!(
        e,
        Effect::Report { outcome: Outcome::ValueFound { value }, .. } if value == &b"bar".to_vec()
    )));
}

#[test]
fn get_for_missing_key_reports_not_found() {
    let mut a = new_node(1);
    let mut b = new_node(2);
    let _ = b.handle_discovery(1, vec![], 0);
    let effects = b.handle_command(b"GET nothing", 1);
    let (query_id, request) = match effects.into_iter().next().unwrap() {
        Effect::Send { query_id, request, .. } => (query_id, request),
        other => panic!("unexpected: {:?}", other),
    };
    let response = a.handle_request(2, request, 1);
    assert!(matches!(response, Response::NoValue { .. }));
    let results = b.handle_response(query_id, 1, response, 2);
    assert!(results.iter().any(|e| matches!(
        e,
        Effect::Report { outcome: Outcome::NotFound, .. }
    )));
}

#[test]
fn store_request_lands_in_the_local_store() {
    let mut a = new_node(1);
    let record = kademlia::store::Record {
        key: 77,
        value: b"v".to_vec(),
        publisher: Some(2),
        expires: Some(100),
    };
    let resp = a.handle_request(2, Request::Store { record }, 0);
    assert!(matches!(resp, Response::StoreAck));
    assert_eq!(a.records.get(77, 10), Some(b"v".to_vec()));
}

#[test]
fn add_provider_request_lands_in_the_provider_store() {
    let mut a = new_node(1);
    let resp = a.handle_request(
        2,
        Request::AddProvider { key: 9, provider: 2, expires: 50 },
        0,
    );
    assert!(matches!(resp, Response::ProviderAck));
    let peers: Vec<u64> = a.providers.get_providers(9, 10).iter().map(|r| r.provider).collect();
    assert_eq!(peers, vec![2]);
}

#[test]
fn request_failure_prunes_and_finishes() {
    let mut b = new_node(2);
    let _ = b.handle_discovery(1, vec![], 0);
    let effects = b.handle_command(b"GET foo", 1);
    let query_id = match &effects[0] {
        Effect::Send { query_id, .. } => *query_id,
        other => panic!("unexpected: {:?}", other),
    };
    let results = b.handle_request_failure(query_id, 1, 2);
    assert!(results.iter().any(|e| matches!(
        e,
        Effect::Report { outcome: Outcome::NotFound, .. }
    )));
    assert_eq!(b.queries.len(), 0);
}

#[test]
fn tick_sweeps_and_republends_own_records() {
    let mut n = new_node(1);
    let _ = n.handle_command(b"PUT foo bar", 0);
    let _ = n.handle_command(b"PUT_PROVIDER k1", 0);
    let effects = n.tick(10);
    assert!(effects.iter().any(|e| matches!(e, Effect::RepublishRecord { .. })));
    assert!(effects.iter().any(|e| matches!(e, Effect::RepublishProvider { .. })));
    // after the ttl has lapsed everything is swept and nothing republishes
    let effects = n.tick(2_000);
    assert!(effects.is_empty());
    let kid = key_id_of(b"foo");
    assert_eq!(n.records.get(kid, 2_000), None);
}
