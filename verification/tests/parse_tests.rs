use kademlia::parse::{parse_command, Command, CommandError};

#[test]
fn get_with_key_parses() {
    match parse_command(b"GET foo") {
        Ok(Command::Get { key }) => assert_eq!(key, b"foo".to_vec()),
        other => panic!("unexpected: {:?}", other),
    }
}

#[test]
fn get_without_key_is_error() {
    match parse_command(b"GET") {
        Err(e) => assert_eq!(e, CommandError::ExpectedKey),
        other => panic!("unexpected: {:?}", other),
    }
}

#[test]
fn put_parses_key_and_value() {
    match parse_command(b"PUT foo bar") {
        Ok(Command::Put { key, value }) => {
            assert_eq!(key, b"foo".to_vec());
            assert_eq!(value, b"bar".to_vec());
        },
        other => panic!("unexpected: {:?}", other),
    }
}

#[test]
fn put_without_value_is_error() {
    match parse_command(b"PUT foo") {
        Err(e) => assert_eq!(e, CommandError::ExpectedValue),
        other => panic!("unexpected: {:?}", other),
    }
}

#[test]
fn unknown_verb_is_error() {
    match parse_command(b"FROB foo") {
        Err(e) => assert_eq!(e, CommandError::UnknownCommand),
        other => panic!("unexpected: {:?}", other),
    }
}

#[test]
fn empty_line_is_error() {
    match parse_command(b"") {
        Err(e) => assert_eq!(e, CommandError::UnknownCommand),
        other => panic!("unexpected: {:?}", other),
    }
}

#[test]
fn extra_tokens_are_ignored() {
    match parse_command(b"GET_PROVIDERS k1 extra words") {
        Ok(Command::GetProviders { key }) => assert_eq!(key, b"k1".to_vec()),
        other => panic!("unexpected: {:?}", other),
    }
}

#[test]
fn closest_peers_parses() {
    match parse_command(b"CLOSEST_PEERS abc") {
        Ok(Command::ClosestPeers { key }) => assert_eq!(key, b"abc".to_vec()),
        other => panic!("unexpected: {:?}", other),
    }
}

#[test]
fn put_provider_parses() {
    match parse_command(b"PUT_PROVIDER k1") {
        Ok(Command::PutProvider { key }) => assert_eq!(key, b"k1".to_vec()),
        other => panic!("unexpected: {:?}", other),
    }
}

#[test]
fn double_space_gives_empty_key() {
    // split at every space: the token between two spaces is empty
    match parse_command(b"GET  foo") {
        Ok(Command::Get { key }) => assert_eq!(key, b"".to_vec()),
        other => panic!("unexpected: {:?}", other),
    }
}
