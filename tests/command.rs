use redis_lite::codec::{decode_frame, Decoded};
use redis_lite::command::{
    apply_from_leader, execute, handle_frame, matches_word, parse_command, parse_millis, Command,
    CommandError,
};
use redis_lite::codec::encode_reply;
use redis_lite::identity::{Role, ServerIdentity};
use redis_lite::store::Keyspace;

fn frame(parts: &[&str]) -> Vec<Vec<u8>> {
    parts.iter().map(|p| p.as_bytes().to_vec()).collect()
}

fn leader() -> ServerIdentity {
    ServerIdentity::new(Role::Leader, b"8371b4fb1155b71f4a04d3e1bc3e18c4a990aeeb".to_vec())
}

#[test]
fn words_match_in_any_case() {
    assert!(matches_word(b"PiNg", b"ping"));
    assert!(!matches_word(b"pin", b"ping"));
    assert!(!matches_word(b"pinh", b"ping"));
}

#[test]
fn millis_are_decimal_digits() {
    assert_eq!(parse_millis(b"50"), Some(50));
    assert_eq!(parse_millis(b"0"), Some(0));
    assert_eq!(parse_millis(b"18446744073709551615"), Some(u64::MAX));
    assert_eq!(parse_millis(b"18446744073709551616"), None);
    assert_eq!(parse_millis(b"050"), Some(50));
    assert_eq!(parse_millis(b"00018446744073709551615"), Some(u64::MAX));
    assert_eq!(parse_millis(b"99999999999999999999"), None);
    assert_eq!(parse_millis(b""), None);
    assert_eq!(parse_millis(b"-1"), None);
    assert_eq!(parse_millis(b"5x"), None);
}

#[test]
fn parses_each_command() {
    assert_eq!(parse_command(&frame(&["PING"])), Ok(Command::Ping));
    assert_eq!(parse_command(&frame(&["echo", "hi"])), Ok(Command::Echo(b"hi".to_vec())));
    assert_eq!(
        parse_command(&frame(&["SET", "k", "v"])),
        Ok(Command::SetKey { key: b"k".to_vec(), value: b"v".to_vec(), px: None })
    );
    assert_eq!(
        parse_command(&frame(&["set", "k", "v", "px", "100"])),
        Ok(Command::SetKey { key: b"k".to_vec(), value: b"v".to_vec(), px: Some(100) })
    );
    assert_eq!(
        parse_command(&frame(&["SET", "k", "v", "PX", "050"])),
        Ok(Command::SetKey { key: b"k".to_vec(), value: b"v".to_vec(), px: Some(50) })
    );
    assert_eq!(parse_command(&frame(&["GET", "k"])), Ok(Command::GetKey(b"k".to_vec())));
    assert_eq!(parse_command(&frame(&["INFO", "replication"])), Ok(Command::Info));
    assert_eq!(parse_command(&frame(&["REPLCONF", "capa", "psync2"])), Ok(Command::ReplConf));
    assert_eq!(parse_command(&frame(&["PSYNC", "?", "-1"])), Ok(Command::Psync));
}

#[test]
fn parse_errors() {
    assert_eq!(parse_command(&vec![]), Err(CommandError::Empty));
    assert_eq!(parse_command(&frame(&["FOO"])), Err(CommandError::Unknown(b"FOO".to_vec())));
    assert_eq!(parse_command(&frame(&["GET"])), Err(CommandError::WrongArity(b"GET".to_vec())));
    assert_eq!(parse_command(&frame(&["ping", "x"])), Err(CommandError::WrongArity(b"ping".to_vec())));
    assert_eq!(parse_command(&frame(&["SET", "k"])), Err(CommandError::WrongArity(b"SET".to_vec())));
    assert_eq!(parse_command(&frame(&["SET", "k", "v", "EX", "1"])), Err(CommandError::Syntax));
    assert_eq!(parse_command(&frame(&["SET", "k", "v", "PX", "soon"])), Err(CommandError::NotAnInteger));
}

#[test]
fn executes_commands() {
    let mut ks = Keyspace::new();
    let id = leader();
    let r = execute(Command::Ping, &mut ks, &id, 0);
    assert_eq!(encode_reply(&r), b"+PONG\r\n".to_vec());
    let r = execute(Command::Echo(b"hey".to_vec()), &mut ks, &id, 0);
    assert_eq!(encode_reply(&r), b"$3\r\nhey\r\n".to_vec());
    let r = execute(Command::GetKey(b"k".to_vec()), &mut ks, &id, 0);
    assert_eq!(encode_reply(&r), b"$-1\r\n".to_vec());
    let r = execute(Command::SetKey { key: b"k".to_vec(), value: b"v".to_vec(), px: Some(50) }, &mut ks, &id, 0);
    assert_eq!(encode_reply(&r), b"+OK\r\n".to_vec());
    let r = execute(Command::GetKey(b"k".to_vec()), &mut ks, &id, 49);
    assert_eq!(encode_reply(&r), b"$1\r\nv\r\n".to_vec());
    let r = execute(Command::GetKey(b"k".to_vec()), &mut ks, &id, 50);
    assert_eq!(encode_reply(&r), b"$-1\r\n".to_vec());
    let r = execute(Command::ReplConf, &mut ks, &id, 0);
    assert_eq!(encode_reply(&r), b"+OK\r\n".to_vec());
    let r = execute(Command::Psync, &mut ks, &id, 0);
    assert_eq!(encode_reply(&r), b"+FULLRESYNC 8371b4fb1155b71f4a04d3e1bc3e18c4a990aeeb 0\r\n".to_vec());
}

#[test]
fn info_reports_role_id_and_offset() {
    let mut ks = Keyspace::new();
    let id = leader();
    let text = b"role:leader:master_replid:8371b4fb1155b71f4a04d3e1bc3e18c4a990aeeb:master_repl_offset:0";
    let mut want = format!("${}\r\n", text.len()).into_bytes();
    want.extend_from_slice(text);
    want.extend_from_slice(b"\r\n");
    assert_eq!(encode_reply(&execute(Command::Info, &mut ks, &id, 0)), want);

    let mut follower = ServerIdentity::new(Role::Follower(b"localhost 6379".to_vec()), b"abc".to_vec());
    follower.advance_offset(31);
    follower.advance_offset(6);
    assert_eq!(follower.info(), b"role:follower:master_replid:abc:master_repl_offset:37".to_vec());
    assert_eq!(follower.fullresync(), b"FULLRESYNC abc 37".to_vec());
    assert!(!follower.is_leader());
    follower.advance_offset(usize::MAX);
    assert_eq!(follower.offset, u64::MAX);
}

#[test]
fn unknown_command_then_ping() {
    let mut ks = Keyspace::new();
    let id = leader();
    let out = handle_frame(&frame(&["FOO"]), &mut ks, &id, 0);
    assert_eq!(out.reply, b"-ERR unknown command 'FOO'\r\n".to_vec());
    assert!(out.propagate.is_none());
    assert!(!out.hand_off);
    let out = handle_frame(&frame(&["PING"]), &mut ks, &id, 0);
    assert_eq!(out.reply, b"+PONG\r\n".to_vec());
}

#[test]
fn error_replies_name_the_fault() {
    let mut ks = Keyspace::new();
    let id = leader();
    assert_eq!(handle_frame(&vec![], &mut ks, &id, 0).reply, b"-ERR empty command\r\n".to_vec());
    assert_eq!(
        handle_frame(&frame(&["get"]), &mut ks, &id, 0).reply,
        b"-ERR wrong number of arguments for 'get' command\r\n".to_vec()
    );
    assert_eq!(
        handle_frame(&frame(&["set", "k", "v", "xx", "1"]), &mut ks, &id, 0).reply,
        b"-ERR syntax error\r\n".to_vec()
    );
    assert_eq!(
        handle_frame(&frame(&["set", "k", "v", "px", "x"]), &mut ks, &id, 0).reply,
        b"-ERR value is not an integer or out of range\r\n".to_vec()
    );
}

#[test]
fn writes_are_forwarded_as_their_own_bytes() {
    let mut ks = Keyspace::new();
    let id = leader();
    let wire = b"*3\r\n$3\r\nset\r\n$1\r\na\r\n$1\r\n1\r\n".to_vec();
    let f = match decode_frame(&wire) {
        Decoded::Frame(f, _) => f,
        other => panic!("{:?}", other),
    };
    let out = handle_frame(&f, &mut ks, &id, 0);
    assert_eq!(out.reply, b"+OK\r\n".to_vec());
    assert_eq!(out.propagate, Some(wire));
    let get = handle_frame(&frame(&["GET", "a"]), &mut ks, &id, 0);
    assert_eq!(get.reply, b"$1\r\n1\r\n".to_vec());
    assert!(get.propagate.is_none());
}

#[test]
fn psync_hands_the_connection_off() {
    let mut ks = Keyspace::new();
    let id = leader();
    let out = handle_frame(&frame(&["PSYNC", "?", "-1"]), &mut ks, &id, 0);
    assert!(out.hand_off);
    assert!(out.propagate.is_none());
    assert_eq!(out.reply, b"+FULLRESYNC 8371b4fb1155b71f4a04d3e1bc3e18c4a990aeeb 0\r\n".to_vec());
}

#[test]
fn follower_converges_on_forwarded_write() {
    let mut leader_store = Keyspace::new();
    let mut follower_store = Keyspace::new();
    let id = leader();
    let out = handle_frame(&frame(&["SET", "a", "1"]), &mut leader_store, &id, 0);
    let forwarded = out.propagate.unwrap();
    let f = match decode_frame(&forwarded) {
        Decoded::Frame(f, used) => {
            assert_eq!(used, forwarded.len());
            f
        }
        other => panic!("{:?}", other),
    };
    apply_from_leader(&f, &mut follower_store, 0);
    assert_eq!(follower_store.get(b"a", 10), Some(b"1".to_vec()));
    assert_eq!(leader_store.get(b"a", 10), Some(b"1".to_vec()));
    // other forwarded commands change nothing
    apply_from_leader(&frame(&["GET", "a"]), &mut follower_store, 0);
    apply_from_leader(&frame(&["PING"]), &mut follower_store, 0);
    assert_eq!(follower_store.get(b"a", 10), Some(b"1".to_vec()));
}

#[test]
fn value_survives_commands_on_other_keys() {
    let mut ks = Keyspace::new();
    let id = leader();
    handle_frame(&frame(&["SET", "a", "1"]), &mut ks, &id, 0);
    handle_frame(&frame(&["SET", "b", "2", "PX", "1"]), &mut ks, &id, 1);
    handle_frame(&frame(&["GET", "b"]), &mut ks, &id, 5);
    handle_frame(&frame(&["ECHO", "x"]), &mut ks, &id, 6);
    assert_eq!(handle_frame(&frame(&["GET", "a"]), &mut ks, &id, 7).reply, b"$1\r\n1\r\n".to_vec());
}

#[test]
fn follower_stream_matches_leader() {
    let mut leader_store = Keyspace::new();
    let mut follower_store = Keyspace::new();
    let id = leader();
    let writes = [
        frame(&["SET", "a", "1"]),
        frame(&["SET", "b", "2", "PX", "100"]),
        frame(&["set", "a", "3"]),
    ];
    let mut stream = Vec::new();
    for (t, w) in writes.iter().enumerate() {
        let out = handle_frame(w, &mut leader_store, &id, t as u64);
        stream.extend_from_slice(&out.propagate.unwrap());
    }
    let mut pos = 0;
    let mut t = 0u64;
    while pos < stream.len() {
        match decode_frame(&stream[pos..]) {
            Decoded::Frame(f, used) => {
                apply_from_leader(&f, &mut follower_store, t);
                pos += used;
                t += 1;
            }
            other => panic!("{:?}", other),
        }
    }
    for key in [&b"a"[..], &b"b"[..], &b"c"[..]] {
        assert_eq!(follower_store.get(key, 50), leader_store.get(key, 50));
    }
    assert_eq!(follower_store.get(b"a", 50), Some(b"3".to_vec()));
}
