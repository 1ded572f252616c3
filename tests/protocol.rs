use prio_queue::connection::{Command, Connection, ProtocolParser};
use prio_queue::hash_storage::HashStorage;
use prio_queue::simple_storage::SimpleStorage;
use prio_queue::storage::Storage;

fn parse(s: &str) -> Result<Command, String> {
    ProtocolParser::parse_line(&s.to_string())
}

#[test]
fn parses_push_with_payload_verbatim() {
    match parse("PUSH 5 hello world") {
        Ok(Command::Push { priority, data }) => {
            assert_eq!(priority, 5);
            assert_eq!(*data, b"hello world".to_vec());
        }
        _ => panic!("expected a push"),
    }
}

#[test]
fn keyword_is_case_insensitive() {
    assert!(matches!(parse("pUsH 7 x"), Ok(Command::Push { priority: 7, .. })));
    assert!(matches!(parse("Pop"), Ok(Command::Pop { count: 1 })));
    assert!(matches!(parse("cLeAr"), Ok(Command::Clear)));
}

#[test]
fn push_accepts_plus_sign_and_empty_payload() {
    match parse("PUSH +65535 ") {
        Ok(Command::Push { priority, data }) => {
            assert_eq!(priority, 65535);
            assert!(data.is_empty());
        }
        _ => panic!("expected a push"),
    }
}

#[test]
fn push_errors() {
    assert_eq!(parse("PUSH 5").err().unwrap(), "Unrecognized push command PUSH 5");
    assert_eq!(parse("PUSH 65536 x").err().unwrap(), "Unrecognized push command PUSH 65536 x");
    assert_eq!(parse("push -1 x").err().unwrap(), "Unrecognized push command push -1 x");
    assert_eq!(parse("PUSH  x").err().unwrap(), "Unrecognized push command PUSH  x");
}

#[test]
fn unknown_and_empty_lines_are_errors() {
    assert_eq!(parse("").err().unwrap(), "Unrecognized command ");
    assert_eq!(parse("PEEK 3").err().unwrap(), "Unrecognized command PEEK 3");
    assert_eq!(parse(" POP").err().unwrap(), "Unrecognized command  POP");
}

#[test]
fn pop_count_defaults_to_one() {
    assert!(matches!(parse("POP"), Ok(Command::Pop { count: 1 })));
    assert!(matches!(parse("POP 3"), Ok(Command::Pop { count: 3 })));
    assert!(matches!(parse("POP abc"), Ok(Command::Pop { count: 1 })));
    assert!(matches!(parse("POP 0"), Ok(Command::Pop { count: 0 })));
    assert!(matches!(parse("POP 4 more"), Ok(Command::Pop { count: 4 })));
    assert!(matches!(parse("POP 99999999999999999999999"), Ok(Command::Pop { count: 1 })));
}

#[test]
fn clear_ignores_trailing_tokens() {
    assert!(matches!(parse("CLEAR now please"), Ok(Command::Clear)));
}

#[test]
fn wire_scenario_push_then_two_pops() {
    let mut conn = Connection::new();
    let mut s = HashStorage::new();
    let r1 = conn.execute(parse("PUSH 5 hello").ok().unwrap(), &mut s);
    assert_eq!(r1, b"OK\n".to_vec());
    let r2 = conn.execute(parse("POP").ok().unwrap(), &mut s);
    assert_eq!(r2, b"hello\n".to_vec());
    let r3 = conn.execute(parse("POP").ok().unwrap(), &mut s);
    assert_eq!(r3, b"\n".to_vec());
}

#[test]
fn pop_reply_has_one_line_per_item() {
    let mut conn = Connection::new();
    let mut s = SimpleStorage::new();
    conn.execute(parse("PUSH 1 low").ok().unwrap(), &mut s);
    conn.execute(parse("PUSH 9 high").ok().unwrap(), &mut s);
    conn.execute(parse("PUSH 1 last").ok().unwrap(), &mut s);
    let r = conn.execute(parse("POP 5").ok().unwrap(), &mut s);
    assert_eq!(r, b"high\nlow\nlast\n".to_vec());
}

#[test]
fn clear_command_replies_ok_and_empties() {
    let mut conn = Connection::new();
    let mut s = HashStorage::new();
    conn.execute(parse("PUSH 1 a").ok().unwrap(), &mut s);
    assert_eq!(conn.execute(parse("CLEAR").ok().unwrap(), &mut s), b"OK\n".to_vec());
    assert_eq!(s.max_priority(), None);
    assert_eq!(conn.execute(parse("POP 0").ok().unwrap(), &mut s), b"\n".to_vec());
}
