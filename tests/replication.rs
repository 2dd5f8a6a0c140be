use redis_lite::replication::{
    contains_id, snapshot_transfer, Handshake, HandshakeFailure, HandshakeState, ReplicaRegistry,
    SnapshotError,
};

#[test]
fn registry_hands_out_fresh_ids() {
    let mut reg = ReplicaRegistry::new();
    assert_eq!(reg.replicas(), Vec::<u64>::new());
    let a = reg.register().unwrap();
    let b = reg.register().unwrap();
    assert_ne!(a, b);
    assert_eq!(reg.replicas(), vec![a, b]);
}

#[test]
fn failed_replica_is_removed_and_others_stay() {
    let mut reg = ReplicaRegistry::new();
    let a = reg.register().unwrap();
    let b = reg.register().unwrap();
    let c = reg.register().unwrap();
    reg.remove_failed(&vec![b]);
    assert_eq!(reg.replicas(), vec![a, c]);
    reg.remove_failed(&vec![]);
    assert_eq!(reg.replicas(), vec![a, c]);
    reg.remove_failed(&vec![a, c, 99]);
    assert_eq!(reg.replicas(), Vec::<u64>::new());
    let d = reg.register().unwrap();
    assert!(d != a && d != b && d != c);
}

#[test]
fn contains_id_finds_members() {
    assert!(contains_id(&vec![3, 5, 7], 5));
    assert!(!contains_id(&vec![3, 5, 7], 4));
    assert!(!contains_id(&vec![], 0));
}

#[test]
fn handshake_runs_in_order() {
    let mut hs = Handshake::new(6380);
    assert_eq!(hs.start(), b"*1\r\n$4\r\nPING\r\n".to_vec());
    assert_eq!(hs.state, HandshakeState::SentPing);
    assert_eq!(
        hs.on_reply(b"PONG"),
        Ok(Some(b"*3\r\n$8\r\nREPLCONF\r\n$14\r\nlistening-port\r\n$4\r\n6380\r\n".to_vec()))
    );
    assert_eq!(
        hs.on_reply(b"OK"),
        Ok(Some(b"*3\r\n$8\r\nREPLCONF\r\n$4\r\ncapa\r\n$6\r\npsync2\r\n".to_vec()))
    );
    assert_eq!(hs.on_reply(b"OK"), Ok(Some(b"*3\r\n$5\r\nPSYNC\r\n$1\r\n?\r\n$2\r\n-1\r\n".to_vec())));
    assert_eq!(hs.on_reply(b"FULLRESYNC 8371b4fb1155b71f4a04d3e1bc3e18c4a990aeeb 0"), Ok(None));
    assert_eq!(hs.state, HandshakeState::AwaitSnapshot);
    hs.on_snapshot();
    assert_eq!(hs.state, HandshakeState::Streaming);
}

#[test]
fn handshake_fails_on_unexpected_reply() {
    let mut hs = Handshake::new(6380);
    hs.start();
    assert_eq!(hs.on_reply(b"PONG"), Ok(Some(b"*3\r\n$8\r\nREPLCONF\r\n$14\r\nlistening-port\r\n$4\r\n6380\r\n".to_vec())));
    assert_eq!(hs.on_reply(b"NO"), Err(HandshakeFailure { state: HandshakeState::SentPort }));
    assert_eq!(hs.state, HandshakeState::Failed);
    assert_eq!(hs.on_reply(b"OK"), Err(HandshakeFailure { state: HandshakeState::Failed }));
}

#[test]
fn handshake_wants_pong_first() {
    let mut hs = Handshake::new(1);
    hs.start();
    assert_eq!(hs.on_reply(b"pong"), Err(HandshakeFailure { state: HandshakeState::SentPing }));
}

#[test]
fn snapshot_is_decoded_and_framed() {
    // "aGVsbG8=" is the base64 text of "hello"
    assert_eq!(snapshot_transfer(b"aGVsbG8="), Ok(b"$5\r\nhello".to_vec()));
    assert_eq!(snapshot_transfer(b""), Ok(b"$0\r\n".to_vec()));
    assert_eq!(snapshot_transfer(b"not base64!"), Err(SnapshotError::NotBase64));
}

#[test]
fn registry_ids_count_up_from_zero() {
    let mut reg = ReplicaRegistry::new();
    assert_eq!(reg.register(), Some(0));
    assert_eq!(reg.register(), Some(1));
    reg.remove_failed(&vec![0, 1]);
    assert_eq!(reg.register(), Some(2));
}
