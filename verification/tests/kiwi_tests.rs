use kiwi::cmds;
use kiwi::conn::{handle_buffer, Step};
use kiwi::db::Db;
use kiwi::error::DBError;
use kiwi::parser::{decode, parse_command, parse_int, parse_message, read_until_crlf, Parsed};
use kiwi::res::Val;

fn bulk(s: &str) -> Val {
    Val::BulkString(s.to_string())
}

#[test]
fn serialize_simple_string() {
    assert_eq!(Val::SimpleString("OK".to_string()).serialize(), "+OK\r\n");
}

#[test]
fn serialize_null_string() {
    assert_eq!(Val::NullString().serialize(), "$-1\r\n");
}

#[test]
fn serialize_null_array() {
    assert_eq!(Val::NullArr().serialize(), "*-1\r\n");
}

#[test]
fn serialize_bulk_string() {
    assert_eq!(bulk("hello").serialize(), "$5\r\nhello\r\n");
}

#[test]
fn serialize_integers() {
    assert_eq!(Val::Int(0).serialize(), ":0\r\n");
    assert_eq!(Val::Int(1234).serialize(), ":1234\r\n");
    assert_eq!(Val::Int(-7).serialize(), ":-7\r\n");
    assert_eq!(Val::Int(i64::MIN).serialize(), ":-9223372036854775808\r\n");
    assert_eq!(Val::Int(i64::MAX).serialize(), ":9223372036854775807\r\n");
}

#[test]
fn serialize_error() {
    assert_eq!(Val::Error("Parse error".to_string()).serialize(), "-Parse error\r\n");
}

#[test]
fn serialize_array() {
    let v = Val::Arr(vec![bulk("foo"), bulk("bar")]);
    assert_eq!(v.serialize(), "*2\r\n$3\r\nfoo\r\n$3\r\nbar\r\n");
}

#[test]
fn round_trip_nested_value() {
    let v = Val::Arr(vec![
        Val::SimpleString("hi".to_string()),
        bulk("payload with \r\n inside"),
        Val::Int(-42),
        Val::NullString(),
        Val::Arr(vec![Val::Int(7)]),
        Val::NullArr(),
        Val::Error("boom".to_string()),
    ]);
    let encoded = v.serialize_bytes();
    let n = encoded.len();
    match parse_message(&encoded) {
        Ok((decoded, consumed)) => {
            assert_eq!(consumed, n);
            // the decoded value must re-encode to exactly the same bytes
            assert_eq!(decoded.serialize_bytes(), encoded);
        }
        Err(_) => panic!("round trip failed to decode"),
    }
}

#[test]
fn round_trip_simple_string_with_lone_carriage_return() {
    // a lone carriage return is not a line terminator: it survives the trip
    let v = Val::SimpleString("a\rb\nc".to_string());
    let encoded = v.serialize_bytes();
    match parse_message(&encoded) {
        Ok((decoded, consumed)) => {
            assert_eq!(consumed, encoded.len());
            match decoded {
                Val::SimpleString(s) => assert_eq!(s, "a\rb\nc"),
                _ => panic!("wrong variant"),
            }
        }
        Err(_) => panic!("failed to decode"),
    }
}

#[test]
fn round_trip_unicode_bulk() {
    let v = bulk("héllo wörld ✓");
    let encoded = v.serialize_bytes();
    match parse_message(&encoded) {
        Ok((decoded, consumed)) => {
            assert_eq!(consumed, encoded.len());
            match decoded {
                Val::BulkString(s) => assert_eq!(s, "héllo wörld ✓"),
                _ => panic!("wrong variant"),
            }
        }
        Err(_) => panic!("unicode bulk string failed to decode"),
    }
}

#[test]
fn parse_int_values() {
    assert_eq!(parse_int(b"123"), Ok(123));
    assert_eq!(parse_int(b"-45"), Ok(-45));
    assert_eq!(parse_int(b"0"), Ok(0));
    assert_eq!(parse_int(b"9223372036854775807"), Ok(i64::MAX));
    assert_eq!(parse_int(b"-9223372036854775808"), Ok(i64::MIN));
}

#[test]
fn parse_int_rejects() {
    assert_eq!(parse_int(b""), Err(DBError::ParseError));
    assert_eq!(parse_int(b"-"), Err(DBError::ParseError));
    assert_eq!(parse_int(b"12a"), Err(DBError::ParseError));
    assert_eq!(parse_int(b"9223372036854775808"), Err(DBError::ParseError));
    assert_eq!(parse_int(b"-9223372036854775809"), Err(DBError::ParseError));
}

#[test]
fn read_until_crlf_finds_first_pair() {
    assert_eq!(read_until_crlf(b"ab\r\ncd\r\n", 0), Some(2));
    assert_eq!(read_until_crlf(b"ab\r\ncd\r\n", 3), Some(6));
    assert_eq!(read_until_crlf(b"abc", 0), None);
}

#[test]
fn decode_truncated_bulk_is_incomplete() {
    // declared length runs past the supplied payload: more bytes are needed
    assert!(matches!(decode(b"$10\r\nabc"), Parsed::Incomplete));
    // no terminator yet
    assert!(matches!(decode(b"$3\r\nabc"), Parsed::Incomplete));
    // empty buffer
    assert!(matches!(decode(b""), Parsed::Incomplete));
    // and parse_message reports it as a parse failure without panicking
    assert_eq!(
        parse_message(b"$10\r\nabc").err(),
        Some(DBError::ParseError)
    );
}

#[test]
fn decode_malformed_inputs() {
    assert!(matches!(decode(b"abc\r\n"), Parsed::Malformed));
    assert!(matches!(decode(b"$-5\r\n"), Parsed::Malformed));
    assert!(matches!(decode(b"$x\r\nabc\r\n"), Parsed::Malformed));
    assert!(matches!(decode(b"$3\r\nabcXX"), Parsed::Malformed));
}

#[test]
fn decode_simple_and_array() {
    match decode(b"+PONG\r\ntrailing") {
        Parsed::Complete(v, n) => {
            assert_eq!(n, 7);
            match v {
                Val::SimpleString(s) => assert_eq!(s, "PONG"),
                _ => panic!("wrong variant"),
            }
        }
        _ => panic!("expected a complete frame"),
    }
    match decode(b"*0\r\n") {
        Parsed::Complete(v, n) => {
            assert_eq!(n, 4);
            assert!(matches!(v, Val::Arr(items) if items.is_empty()));
        }
        _ => panic!("expected a complete frame"),
    }
}

#[test]
fn parse_command_get() {
    let v = Val::Arr(vec![bulk("GET"), bulk("foo")]);
    let (name, args) = parse_command(v).expect("well-shaped request");
    assert_eq!(name, "GET");
    assert_eq!(args, vec!["foo".to_string()]);
}

#[test]
fn parse_command_rejects_bad_shapes() {
    assert_eq!(
        parse_command(Val::Int(3)).err(),
        Some(DBError::InvalidArg)
    );
    assert_eq!(
        parse_command(Val::Arr(vec![])).err(),
        Some(DBError::InvalidArg)
    );
    assert_eq!(
        parse_command(Val::Arr(vec![bulk("GET"), Val::Int(1)])).err(),
        Some(DBError::InvalidArg)
    );
}

#[test]
fn unpack_bulk_string_variants() {
    assert_eq!(
        kiwi::parser::unpack_bulk_string(bulk("x")),
        Ok("x".to_string())
    );
    assert_eq!(
        kiwi::parser::unpack_bulk_string(Val::Int(1)),
        Err(DBError::ParseError)
    );
}

#[test]
fn store_set_zero_ttl_never_expires() {
    let mut db = Db::new();
    db.set_at("k", "v".to_string(), 0, 100);
    let got = db.get_at("k", i64::MAX).expect("still there");
    assert_eq!(got.expect("present").value, "v");
}

#[test]
fn store_ttl_window() {
    let mut db = Db::new();
    let c = db.set_at("k", "v".to_string(), 5, 100);
    assert!(c.exp);
    assert_eq!(c.created_at, 100);
    assert_eq!(c.exp_at, 105);
    // within the time-to-live the value is served
    assert_eq!(db.get_at("k", 104).unwrap().unwrap().value, "v");
    // at the expiry moment itself the record still lives
    assert_eq!(db.get_at("k", 105).unwrap().unwrap().value, "v");
    // past it, the record is reported expired and evicted
    assert_eq!(db.get_at("k", 106).err(), Some(DBError::Expired));
    assert_eq!(db.get_at("k", 106).err(), Some(DBError::NotFound));
}

#[test]
fn store_delete_semantics() {
    let mut db = Db::new();
    assert_eq!(db.del("absent").err(), Some(DBError::NotFound));
    db.set_at("k", "v".to_string(), 0, 1);
    assert_eq!(db.del("k"), Ok(()));
    assert_eq!(db.get_at("k", 2).err(), Some(DBError::NotFound));
}

#[test]
fn store_set_replaces() {
    let mut db = Db::new();
    db.set_at("k", "a".to_string(), 0, 1);
    db.set_at("k", "b".to_string(), 0, 2);
    assert_eq!(db.get_at("k", 3).unwrap().unwrap().value, "b");
}

#[test]
fn clocked_store_roundtrip() {
    let mut db = Db::new();
    db.set("k", "v".to_string(), 0).expect("set succeeds");
    let got = db.get("k").expect("no premature expiry");
    assert_eq!(got.expect("present").value, "v");
}

#[test]
fn cmd_get_missing_key_is_null() {
    let mut db = Db::new();
    let v = cmds::get(vec!["nope".to_string()], &mut db, 0).unwrap();
    assert_eq!(v.serialize(), "$-1\r\n");
}

#[test]
fn cmd_get_no_args_is_invalid() {
    let mut db = Db::new();
    assert_eq!(
        cmds::get(vec![], &mut db, 0).err(),
        Some(DBError::InvalidArg)
    );
}

#[test]
fn cmd_set_with_ex_case_insensitive() {
    let mut db = Db::new();
    let args = vec![
        "k".to_string(),
        "v".to_string(),
        "ex".to_string(),
        "9".to_string(),
    ];
    let v = cmds::set(args, &mut db, 100).unwrap();
    assert_eq!(v.serialize(), "+OK\r\n");
    assert_eq!(db.get_at("k", 109).unwrap().unwrap().value, "v");
    assert_eq!(db.get_at("k", 110).err(), Some(DBError::Expired));
}

#[test]
fn cmd_set_bad_ttl_is_invalid() {
    let mut db = Db::new();
    let args = vec![
        "k".to_string(),
        "v".to_string(),
        "EX".to_string(),
        "abc".to_string(),
    ];
    assert_eq!(cmds::set(args, &mut db, 0).err(), Some(DBError::InvalidArg));
    let short = vec!["k".to_string()];
    assert_eq!(cmds::set(short, &mut db, 0).err(), Some(DBError::InvalidArg));
    let missing = vec!["k".to_string(), "v".to_string(), "EX".to_string()];
    assert_eq!(
        cmds::set(missing, &mut db, 0).err(),
        Some(DBError::InvalidArg)
    );
}

#[test]
fn cmd_del_counts_removed_keys() {
    let mut db = Db::new();
    db.set_at("a", "1".to_string(), 0, 0);
    db.set_at("b", "2".to_string(), 0, 0);
    let args = vec!["a".to_string(), "b".to_string(), "c".to_string()];
    let v = cmds::del(args, &mut db).unwrap();
    assert_eq!(v.serialize(), ":2\r\n");
}

#[test]
fn cmd_ping_quit_echo() {
    assert_eq!(cmds::ping().serialize(), "+PONG\r\n");
    assert_eq!(cmds::quit().serialize(), "+OK\r\n");
    assert_eq!(cmds::echo(vec!["hey".to_string()]).serialize(), "$3\r\nhey\r\n");
    assert_eq!(cmds::echo(vec![]).serialize(), "$-1\r\n");
}

#[test]
fn error_messages() {
    assert_eq!(DBError::NotFound.message(), "Key not found");
    assert_eq!(DBError::Expired.message(), "Key has expired");
    assert_eq!(DBError::Internal.message(), "Internal error");
    assert_eq!(DBError::ParseError.message(), "Parse error");
    assert_eq!(DBError::InvalidArg.message(), "Invalid argument");
}

fn expect_reply(db: &mut Db, input: &[u8], expected: &[u8], expect_close: bool) {
    match handle_buffer(db, input, 0) {
        Step::Reply(consumed, out, close) => {
            assert_eq!(consumed, input.len());
            assert_eq!(out, expected.to_vec());
            assert_eq!(close, expect_close);
        }
        _ => panic!("expected a reply"),
    }
}

#[test]
fn end_to_end_set_then_get() {
    let mut db = Db::new();
    expect_reply(
        &mut db,
        b"*3\r\n$3\r\nSET\r\n$3\r\nfoo\r\n$3\r\nbar\r\n",
        b"+OK\r\n",
        false,
    );
    expect_reply(
        &mut db,
        b"*2\r\n$3\r\nGET\r\n$3\r\nfoo\r\n",
        b"$3\r\nbar\r\n",
        false,
    );
}

#[test]
fn end_to_end_del_twice() {
    let mut db = Db::new();
    expect_reply(
        &mut db,
        b"*3\r\n$3\r\nSET\r\n$3\r\nfoo\r\n$3\r\nbar\r\n",
        b"+OK\r\n",
        false,
    );
    expect_reply(&mut db, b"*2\r\n$3\r\nDEL\r\n$3\r\nfoo\r\n", b":1\r\n", false);
    expect_reply(&mut db, b"*2\r\n$3\r\nDEL\r\n$3\r\nfoo\r\n", b":0\r\n", false);
}

#[test]
fn end_to_end_ping() {
    let mut db = Db::new();
    expect_reply(&mut db, b"*1\r\n$4\r\nPING\r\n", b"+PONG\r\n", false);
}

#[test]
fn end_to_end_quit_closes() {
    let mut db = Db::new();
    expect_reply(&mut db, b"*1\r\n$4\r\nQUIT\r\n", b"+OK\r\n", true);
}

#[test]
fn end_to_end_unknown_command() {
    let mut db = Db::new();
    expect_reply(
        &mut db,
        b"*1\r\n$4\r\nNOPE\r\n",
        b"-Invalid argument\r\n",
        false,
    );
}

#[test]
fn end_to_end_partial_then_malformed() {
    let mut db = Db::new();
    // a frame cut short asks for more bytes
    assert!(matches!(
        handle_buffer(&mut db, b"*2\r\n$3\r\nGET\r\n$3\r\nfo", 0),
        Step::NeedMore
    ));
    // garbage is answered with an error and the connection closes
    match handle_buffer(&mut db, b"garbage", 0) {
        Step::Corrupt(out) => assert_eq!(out, b"-Parse error\r\n".to_vec()),
        _ => panic!("expected a protocol error"),
    }
}
