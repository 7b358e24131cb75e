use miniredis::redis_commands::Command;
use miniredis::redis_db::RedisDB;
use miniredis::redis_server::{
    empty_rdb_frame, empty_rdb_payload, handshake_step, split_host_port, HandshakeState, Redis,
    RedisCliArgs, Role,
};

fn args(role: Role) -> RedisCliArgs {
    RedisCliArgs {
        dir: None,
        file_name: None,
        port: b"6379".to_vec(),
        master_host: None,
        master_port: None,
        role,
    }
}

fn primary() -> Redis {
    Redis::new(args(Role::Primary))
}

/// Feeds one request buffer through parse and dispatch, collecting the
/// reply bytes in order.
fn roundtrip(server: &mut Redis, req: &[u8], now: u64) -> Vec<u8> {
    let commands = Command::deserialize(&req.to_vec(), now);
    let mut out = Vec::new();
    for c in &commands {
        let outcome = server.execute(c, now);
        out.extend_from_slice(&outcome.reply);
    }
    out
}

fn contains(haystack: &[u8], needle: &[u8]) -> bool {
    haystack.windows(needle.len()).any(|w| w == needle)
}

#[test]
fn ping_replies_bulk_pong() {
    let mut s = primary();
    assert_eq!(roundtrip(&mut s, b"*1\r\n$4\r\nPING\r\n", 0), b"$4\r\nPONG\r\n".to_vec());
}

#[test]
fn echo_replies_message() {
    let mut s = primary();
    assert_eq!(
        roundtrip(&mut s, b"*2\r\n$4\r\nECHO\r\n$5\r\nhello\r\n", 0),
        b"$5\r\nhello\r\n".to_vec()
    );
}

#[test]
fn set_then_get() {
    let mut s = primary();
    assert_eq!(
        roundtrip(&mut s, b"*3\r\n$3\r\nSET\r\n$3\r\nfoo\r\n$3\r\nbar\r\n", 0),
        b"+OK\r\n".to_vec()
    );
    assert_eq!(
        roundtrip(&mut s, b"*2\r\n$3\r\nGET\r\n$3\r\nfoo\r\n", 0),
        b"$3\r\nbar\r\n".to_vec()
    );
}

#[test]
fn get_miss_replies_null_bulk() {
    let mut s = primary();
    assert_eq!(
        roundtrip(&mut s, b"*2\r\n$3\r\nGET\r\n$3\r\nfoo\r\n", 0),
        b"$-1\r\n".to_vec()
    );
}

#[test]
fn set_px_expires() {
    let mut s = primary();
    let now: u64 = 1_000;
    assert_eq!(
        roundtrip(&mut s, b"*5\r\n$3\r\nSET\r\n$1\r\nk\r\n$1\r\nv\r\n$2\r\nPX\r\n$2\r\n50\r\n", now),
        b"+OK\r\n".to_vec()
    );
    // Still there just before the expiry.
    assert_eq!(
        roundtrip(&mut s, b"*2\r\n$3\r\nGET\r\n$1\r\nk\r\n", now + 40),
        b"$1\r\nv\r\n".to_vec()
    );
    // Gone 100 ms later.
    assert_eq!(
        roundtrip(&mut s, b"*2\r\n$3\r\nGET\r\n$1\r\nk\r\n", now + 100),
        b"$-1\r\n".to_vec()
    );
}

#[test]
fn info_replication_on_primary() {
    let mut s = primary();
    let reply = roundtrip(&mut s, b"*2\r\n$4\r\nINFO\r\n$11\r\nreplication\r\n", 0);
    assert!(reply.starts_with(b"$"));
    let body_at = reply.iter().position(|&b| b == b'\n').unwrap() + 1;
    let payload = &reply[body_at..];
    assert!(payload.starts_with(b"# Replication \r\nrole:master\r\n"));
    assert!(contains(payload, b"master_replid:"));
    assert!(contains(payload, b"master_repl_offset:0"));
}

#[test]
fn info_on_replica_says_slave() {
    let mut s = Redis::new(RedisCliArgs {
        master_host: Some(b"127.0.0.1".to_vec()),
        master_port: Some(b"6379".to_vec()),
        ..args(Role::Replica)
    });
    let reply = roundtrip(&mut s, b"*2\r\n$4\r\nINFO\r\n$11\r\nreplication\r\n", 0);
    assert!(contains(&reply, b"role:slave\r\n"));
    assert!(!contains(&reply, b"master_replid:"));
}

#[test]
fn keys_lists_both_keys_in_some_order() {
    let mut s = primary();
    roundtrip(&mut s, b"*3\r\n$3\r\nSET\r\n$1\r\na\r\n$1\r\n1\r\n", 0);
    roundtrip(&mut s, b"*3\r\n$3\r\nSET\r\n$1\r\nb\r\n$1\r\n2\r\n", 0);
    let reply = roundtrip(&mut s, b"*2\r\n$4\r\nKEYS\r\n$1\r\n*\r\n", 0);
    let ab = b"*2\r\n$1\r\na\r\n$1\r\nb\r\n".to_vec();
    let ba = b"*2\r\n$1\r\nb\r\n$1\r\na\r\n".to_vec();
    assert!(reply == ab || reply == ba);
}

#[test]
fn config_get_hit_and_miss() {
    let mut s = Redis::new(RedisCliArgs {
        dir: Some(b"/tmp".to_vec()),
        file_name: Some(b"dump.rdb".to_vec()),
        ..args(Role::Primary)
    });
    assert_eq!(
        roundtrip(&mut s, b"*3\r\n$6\r\nCONFIG\r\n$3\r\nGET\r\n$3\r\ndir\r\n", 0),
        b"*2\r\n$3\r\ndir\r\n$4\r\n/tmp\r\n".to_vec()
    );
    assert_eq!(
        roundtrip(&mut s, b"*3\r\n$6\r\nCONFIG\r\n$3\r\nGET\r\n$4\r\nport\r\n", 0),
        b"$-1\r\n".to_vec()
    );
}

#[test]
fn replconf_replies_ok() {
    let mut s = primary();
    assert_eq!(
        roundtrip(&mut s, b"*3\r\n$8\r\nREPLCONF\r\n$4\r\ncapa\r\n$6\r\npsync2\r\n", 0),
        b"+OK\r\n".to_vec()
    );
}

#[test]
fn psync_on_primary_starts_full_resync() {
    let mut s = primary();
    let cmds = Command::deserialize(&b"*3\r\n$5\r\nPSYNC\r\n$1\r\n?\r\n$2\r\n-1\r\n".to_vec(), 0);
    let outcome = s.execute(&cmds[0], 0);
    assert_eq!(
        outcome.reply,
        b"+FULLRESYNC 8371b4fb1155b71f4a04d3e1bc3e18c4a990aeeb 0\r\n".to_vec()
    );
    assert!(outcome.full_resync);
    assert!(!outcome.replicate);
}

#[test]
fn psync_on_replica_replies_null_bulk() {
    let mut s = Redis::new(args(Role::Replica));
    let cmds = Command::deserialize(&b"*3\r\n$5\r\nPSYNC\r\n$1\r\n?\r\n$2\r\n-1\r\n".to_vec(), 0);
    let outcome = s.execute(&cmds[0], 0);
    assert_eq!(outcome.reply, b"$-1\r\n".to_vec());
    assert!(!outcome.full_resync);
}

#[test]
fn set_asks_for_replication() {
    let mut s = primary();
    let cmds = Command::deserialize(&b"*3\r\n$3\r\nSET\r\n$1\r\nk\r\n$1\r\nv\r\n".to_vec(), 0);
    let outcome = s.execute(&cmds[0], 0);
    assert!(outcome.replicate);
    let cmds = Command::deserialize(&b"*1\r\n$4\r\nPING\r\n".to_vec(), 0);
    assert!(!s.execute(&cmds[0], 0).replicate);
}

#[test]
fn fanout_sends_identical_copies_of_the_write() {
    let input = b"*3\r\n$3\r\nSET\r\n$3\r\nfoo\r\n$3\r\nbar\r\n".to_vec();
    let cmds = Command::deserialize(&input, 0);
    let msgs = Redis::fanout_messages(&cmds[0], 3);
    assert_eq!(msgs.len(), 3);
    for m in &msgs {
        assert_eq!(m, &input);
    }
}

#[test]
fn handshake_walks_the_four_steps() {
    let port = b"6380".to_vec();
    let mut state = HandshakeState::Disconnected;
    let mut sent: Vec<Vec<u8>> = Vec::new();
    loop {
        let (msg, next) = handshake_step(&state, &port);
        match msg {
            Some(m) => sent.push(m),
            None => break,
        }
        state = next;
    }
    assert_eq!(
        sent,
        vec![
            b"*1\r\n$4\r\nPING\r\n".to_vec(),
            b"*3\r\n$8\r\nREPLCONF\r\n$14\r\nlistening-port\r\n$4\r\n6380\r\n".to_vec(),
            b"*3\r\n$8\r\nREPLCONF\r\n$4\r\ncapa\r\n$6\r\npsync2\r\n".to_vec(),
            b"*3\r\n$5\r\nPSYNC\r\n$1\r\n?\r\n$2\r\n-1\r\n".to_vec(),
        ]
    );
    assert_eq!(state, HandshakeState::PsyncSent);
    let (_, done) = handshake_step(&state, &port);
    assert_eq!(done, HandshakeState::Streaming);
}

#[test]
fn empty_rdb_payload_is_the_decoded_image() {
    let p = empty_rdb_payload();
    assert_eq!(p.len(), 88);
    assert!(p.starts_with(b"REDIS0011"));
    assert_eq!(p[p.len() - 1], 0xA2);
}

#[test]
fn empty_rdb_frame_has_no_trailing_crlf() {
    let f = empty_rdb_frame();
    assert!(f.starts_with(b"$88\r\n"));
    assert_eq!(f.len(), 5 + 88);
    assert!(!f.ends_with(b"\r\n"));
}

#[test]
fn split_host_port_accepts_one_space() {
    let r = split_host_port(&b"127.0.0.1 6379".to_vec());
    assert_eq!(r, Some((b"127.0.0.1".to_vec(), b"6379".to_vec())));
}

#[test]
fn split_host_port_rejects_other_shapes() {
    assert_eq!(split_host_port(&b"127.0.0.1".to_vec()), None);
    assert_eq!(split_host_port(&b"a b c".to_vec()), None);
}

#[test]
fn role_names() {
    assert_eq!(Role::Primary.name(), b"master".to_vec());
    assert_eq!(Role::Replica.name(), b"slave".to_vec());
}

#[test]
fn snapshot_loads_into_server() {
    let mut img = b"REDIS0011".to_vec();
    img.extend_from_slice(&[0xFE, 0x00, 0xFB, 0x01, 0x00, 0x00, 0x01, b'k', 0x01, b'v', 0xFF]);
    let rdb = RedisDB::new("d".to_string(), "f".to_string());
    let ks = rdb.read_rdb(&img, 0).expect("valid image");
    let mut s = primary();
    s.install_keyspace(ks);
    assert_eq!(
        roundtrip(&mut s, b"*2\r\n$3\r\nGET\r\n$1\r\nk\r\n", 0),
        b"$1\r\nv\r\n".to_vec()
    );
}
