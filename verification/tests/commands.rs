use miniredis::command::Command as LegacyCommand;
use miniredis::redis_commands::{Command, SetExpiry};

const NOW: u64 = 1_000_000;

fn parse(req: &[u8]) -> Vec<Command> {
    Command::deserialize(&req.to_vec(), NOW)
}

#[test]
fn deserialize_ping() {
    let cmds = parse(b"*1\r\n$4\r\nPING\r\n");
    assert_eq!(cmds.len(), 1);
    assert!(matches!(cmds[0], Command::Ping));
}

#[test]
fn deserialize_echo() {
    let cmds = parse(b"*2\r\n$4\r\nECHO\r\n$5\r\nhello\r\n");
    assert_eq!(cmds.len(), 1);
    match &cmds[0] {
        Command::Echo(m) => assert_eq!(m, &b"hello".to_vec()),
        _ => panic!("expected ECHO"),
    }
}

#[test]
fn deserialize_is_case_insensitive() {
    let cmds = parse(b"*1\r\n$4\r\nPing\r\n");
    assert_eq!(cmds.len(), 1);
    assert!(matches!(cmds[0], Command::Ping));
}

#[test]
fn deserialize_set_without_expiry() {
    let cmds = parse(b"*3\r\n$3\r\nSET\r\n$3\r\nfoo\r\n$3\r\nbar\r\n");
    assert_eq!(cmds.len(), 1);
    match &cmds[0] {
        Command::SetCmd(k, v, e) => {
            assert_eq!(k, &b"foo".to_vec());
            assert_eq!(v, &b"bar".to_vec());
            assert!(e.is_none());
        }
        _ => panic!("expected SET"),
    }
}

#[test]
fn deserialize_set_with_px() {
    let cmds = parse(b"*5\r\n$3\r\nSET\r\n$1\r\nk\r\n$1\r\nv\r\n$2\r\nPX\r\n$2\r\n50\r\n");
    assert_eq!(cmds.len(), 1);
    match &cmds[0] {
        Command::SetCmd(_, _, Some(SetExpiry { px_ms, at_ms })) => {
            assert_eq!(*px_ms, 50);
            assert_eq!(*at_ms, NOW + 50);
        }
        _ => panic!("expected SET with expiry"),
    }
}

#[test]
fn deserialize_set_with_bad_px_fails_parse() {
    // A non-numeric PX count abandons the rest of that array; a later
    // top-level array is still read.
    let cmds = parse(b"*6\r\n$3\r\nSET\r\n$1\r\nk\r\n$1\r\nv\r\n$2\r\nPX\r\n$2\r\nxy\r\n$4\r\nPING\r\n");
    assert_eq!(cmds.len(), 0);
    let cmds = parse(b"*5\r\n$3\r\nSET\r\n$1\r\nk\r\n$1\r\nv\r\n$2\r\nPX\r\n$2\r\nxy\r\n*1\r\n$4\r\nPING\r\n");
    assert_eq!(cmds.len(), 1);
    assert!(matches!(cmds[0], Command::Ping));
}

#[test]
fn deserialize_unknown_verb_is_skipped() {
    let cmds = parse(b"*2\r\n$5\r\nHELLO\r\n$4\r\nPING\r\n");
    assert_eq!(cmds.len(), 1);
    assert!(matches!(cmds[0], Command::Ping));
}

#[test]
fn deserialize_echo_missing_message_abandons() {
    let cmds = parse(b"*1\r\n$4\r\nECHO\r\n");
    assert_eq!(cmds.len(), 0);
}

#[test]
fn deserialize_config_get() {
    let cmds = parse(b"*3\r\n$6\r\nCONFIG\r\n$3\r\nGET\r\n$3\r\ndir\r\n");
    assert_eq!(cmds.len(), 1);
    match &cmds[0] {
        Command::ConfigGet(p) => assert_eq!(p, &b"dir".to_vec()),
        _ => panic!("expected CONFIG GET"),
    }
}

#[test]
fn deserialize_keys() {
    let cmds = parse(b"*2\r\n$4\r\nKEYS\r\n$1\r\n*\r\n");
    assert_eq!(cmds.len(), 1);
    match &cmds[0] {
        Command::Keys(p) => assert_eq!(p, &b"*".to_vec()),
        _ => panic!("expected KEYS"),
    }
}

#[test]
fn deserialize_info_sections() {
    let cmds = parse(b"*2\r\n$4\r\nINFO\r\n$11\r\nreplication\r\n");
    assert_eq!(cmds.len(), 1);
    match &cmds[0] {
        Command::Info(s) => assert_eq!(s, &b"replication".to_vec()),
        _ => panic!("expected INFO"),
    }
    let cmds = parse(b"*2\r\n$4\r\nINFO\r\n$6\r\nserver\r\n");
    assert!(matches!(&cmds[0], Command::Info(s) if s == &b"all".to_vec()));
}

#[test]
fn deserialize_replconf_and_psync() {
    let cmds = parse(b"*3\r\n$8\r\nREPLCONF\r\n$4\r\ncapa\r\n$6\r\npsync2\r\n");
    assert!(matches!(&cmds[0], Command::ReplConf(k, v)
        if k == &b"capa".to_vec() && v == &b"psync2".to_vec()));
    let cmds = parse(b"*3\r\n$5\r\nPSYNC\r\n$1\r\n?\r\n$2\r\n-1\r\n");
    assert!(matches!(&cmds[0], Command::Psync(k, v)
        if k == &b"?".to_vec() && v == &b"-1".to_vec()));
}

#[test]
fn deserialize_pipelined_commands() {
    let cmds = parse(b"*1\r\n$4\r\nPING\r\n*2\r\n$4\r\nECHO\r\n$2\r\nhi\r\n");
    assert_eq!(cmds.len(), 2);
    assert!(matches!(cmds[0], Command::Ping));
    assert!(matches!(&cmds[1], Command::Echo(m) if m == &b"hi".to_vec()));
}

#[test]
fn serialize_ping() {
    assert_eq!(Command::Ping.serialize(), b"*1\r\n$4\r\nPING\r\n".to_vec());
}

#[test]
fn serialize_echo() {
    let c = Command::Echo(b"hey".to_vec());
    assert_eq!(c.serialize(), b"*2\r\n$4\r\nECHO\r\n$3\r\nhey\r\n".to_vec());
}

#[test]
fn serialize_replconf() {
    let c = Command::ReplConf(b"listening-port".to_vec(), b"6380".to_vec());
    assert_eq!(
        c.serialize(),
        b"*3\r\n$8\r\nREPLCONF\r\n$14\r\nlistening-port\r\n$4\r\n6380\r\n".to_vec()
    );
}

#[test]
fn serialize_psync() {
    let c = Command::Psync(b"?".to_vec(), b"-1".to_vec());
    assert_eq!(c.serialize(), b"*3\r\n$5\r\nPSYNC\r\n$1\r\n?\r\n$2\r\n-1\r\n".to_vec());
}

#[test]
fn serialize_set_round_trips_through_parse() {
    let input = b"*3\r\n$3\r\nSET\r\n$3\r\nfoo\r\n$3\r\nbar\r\n".to_vec();
    let cmds = Command::deserialize(&input, NOW);
    assert_eq!(cmds.len(), 1);
    assert_eq!(cmds[0].serialize(), input);
}

#[test]
fn serialize_set_with_px_keeps_relative_count() {
    let input = b"*5\r\n$3\r\nSET\r\n$1\r\nk\r\n$1\r\nv\r\n$2\r\nPX\r\n$2\r\n50\r\n".to_vec();
    let cmds = Command::deserialize(&input, NOW);
    assert_eq!(cmds.len(), 1);
    assert_eq!(cmds[0].serialize(), input);
}

#[test]
fn legacy_ping_reply_is_bulk_pong() {
    let cmds = LegacyCommand::deserialize(&b"*1\r\n$4\r\nPING\r\n".to_vec());
    assert_eq!(cmds.len(), 1);
    assert_eq!(cmds[0].execute(), b"$4\r\nPONG\r\n".to_vec());
}

#[test]
fn legacy_echo_reply() {
    let cmds = LegacyCommand::deserialize(&b"*2\r\n$4\r\nECHO\r\n$5\r\nhello\r\n".to_vec());
    assert_eq!(cmds.len(), 1);
    assert_eq!(cmds[0].execute(), b"$5\r\nhello\r\n".to_vec());
}

#[test]
fn legacy_ignores_other_verbs() {
    let cmds = LegacyCommand::deserialize(&b"*3\r\n$3\r\nSET\r\n$1\r\nk\r\n$1\r\nv\r\n".to_vec());
    assert_eq!(cmds.len(), 0);
}

#[test]
fn deserialize_prefix_keeps_incomplete_tail() {
    let buf = b"*1\r\n$4\r\nPING\r\n*2\r\n$4\r\nECHO\r\n$5\r\nhel".to_vec();
    let (cmds, used) = Command::deserialize_prefix(&buf, NOW);
    assert_eq!(cmds.len(), 1);
    assert!(matches!(cmds[0], Command::Ping));
    assert_eq!(used, 14);
    // The tail completes once the rest arrives.
    let mut rest = buf[used..].to_vec();
    rest.extend_from_slice(b"lo\r\n");
    let (cmds, used2) = Command::deserialize_prefix(&rest, NOW);
    assert_eq!(cmds.len(), 1);
    assert!(matches!(&cmds[0], Command::Echo(m) if m == &b"hello".to_vec()));
    assert_eq!(used2, rest.len());
}

#[test]
fn info_consumes_its_section_element() {
    // The section element is consumed with the verb, so it is not read
    // again as a command of its own.
    let cmds = parse(b"*3\r\n$4\r\nINFO\r\n$3\r\nGET\r\n$1\r\nk\r\n");
    assert_eq!(cmds.len(), 1);
    assert!(matches!(&cmds[0], Command::Info(s) if s == &b"all".to_vec()));
}
