//! The record codec seen from outside: exact encodings, streaming decode
//! of concatenated records, escaping, and rejection of malformed text.

use kvs::command::{DbCommand, KvsCommand};
use kvs::store::KvsEntry;
use kvs::stream::{decode_command, decode_db_command, encode_command, encode_db_command};

#[test]
fn set_record_encoding_is_exact() {
    let s = encode_command(&KvsCommand::set("k".to_string(), "v".to_string(), 3));
    assert_eq!(s.as_str(), "{\"Set\":[\"k\",\"v\",3]}");
}

#[test]
fn rm_record_encoding_is_exact() {
    let s = encode_command(&KvsCommand::rm("key".to_string(), 1234567890123456789012345678901_u128));
    assert_eq!(s.as_str(), "{\"Rm\":[\"key\",1234567890123456789012345678901]}");
}

#[test]
fn quotes_and_backslashes_are_escaped() {
    let s = encode_command(&KvsCommand::set("a\"b".to_string(), "c\\d".to_string(), 0));
    assert_eq!(s.as_str(), "{\"Set\":[\"a\\\"b\",\"c\\\\d\",0]}");
}

#[test]
fn decode_round_trips_records() {
    let cmd = KvsCommand::set("spaced key".to_string(), "a \"value\"\\with\nnoise".to_string(), 42);
    let text = encode_command(&cmd);
    let (back, used) = decode_command(&text).unwrap();
    assert_eq!(used, text.chars().count());
    match back {
        KvsCommand::SetCmd(k, v, t) => {
            assert_eq!(k.as_str(), "spaced key");
            assert_eq!(v.as_str(), "a \"value\"\\with\nnoise");
            assert_eq!(t, 42);
        },
        _ => panic!("decoded the wrong variant"),
    }
}

#[test]
fn decode_consumes_exactly_one_record() {
    let one = encode_command(&KvsCommand::set("a".to_string(), "1".to_string(), 1));
    let two = encode_command(&KvsCommand::rm("a".to_string(), 2));
    let both = format!("{}{}", one, two);
    let (first, used) = decode_command(&both).unwrap();
    assert_eq!(used, one.chars().count());
    assert!(matches!(first, KvsCommand::SetCmd(_, _, _)));
    let rest: String = both.chars().skip(used).collect();
    let (second, used2) = decode_command(&rest).unwrap();
    assert_eq!(used2, two.chars().count());
    assert!(matches!(second, KvsCommand::Rm(_, _)));
}

#[test]
fn decode_parses_literal_text() {
    let (cmd, used) = decode_command(&"{\"Rm\":[\"k\",7]}".to_string()).unwrap();
    assert_eq!(used, 14);
    match cmd {
        KvsCommand::Rm(k, t) => {
            assert_eq!(k.as_str(), "k");
            assert_eq!(t, 7);
        },
        _ => panic!("decoded the wrong variant"),
    }
}

#[test]
fn decode_rejects_garbage() {
    assert!(decode_command(&"hello".to_string()).is_none());
    assert!(decode_command(&"".to_string()).is_none());
    assert!(decode_command(&"{\"Put\":[\"k\",\"v\",1]}".to_string()).is_none());
}

#[test]
fn decode_rejects_leading_zero_timestamps() {
    assert!(decode_command(&"{\"Rm\":[\"k\",07]}".to_string()).is_none());
    assert!(decode_command(&"{\"Rm\":[\"k\",0]}".to_string()).is_some());
}

#[test]
fn decode_rejects_incomplete_records() {
    let whole = encode_command(&KvsCommand::set("k".to_string(), "v".to_string(), 1));
    let n = whole.chars().count();
    let cut: String = whole.chars().take(n - 1).collect();
    assert!(decode_command(&cut).is_none());
}

#[test]
fn decode_rejects_oversized_timestamp() {
    // one more than u128::MAX
    let text = "{\"Rm\":[\"k\",340282366920938463463374607431768211456]}".to_string();
    assert!(decode_command(&text).is_none());
    let max = "{\"Rm\":[\"k\",340282366920938463463374607431768211455]}".to_string();
    assert!(decode_command(&max).is_some());
}

#[test]
fn wire_encodings_are_exact() {
    assert_eq!(
        encode_db_command(&DbCommand::SetCmd("foo".to_string(), "bar".to_string())).as_str(),
        "{\"Set\":[\"foo\",\"bar\"]}",
    );
    assert_eq!(encode_db_command(&DbCommand::Get("foo".to_string())).as_str(), "{\"Get\":[\"foo\"]}");
    assert_eq!(encode_db_command(&DbCommand::Rm("foo".to_string())).as_str(), "{\"Rm\":[\"foo\"]}");
    assert_eq!(
        encode_db_command(&DbCommand::SetResult("foo".to_string())).as_str(),
        "{\"SetResult\":[\"foo\"]}",
    );
    assert_eq!(
        encode_db_command(&DbCommand::GetResult("bar".to_string())).as_str(),
        "{\"GetResult\":[\"bar\"]}",
    );
    assert_eq!(encode_db_command(&DbCommand::RmResult).as_str(), "{\"RmResult\":[]}");
    assert_eq!(
        encode_db_command(&DbCommand::Error("boom".to_string())).as_str(),
        "{\"Error\":[\"boom\"]}",
    );
}

#[test]
fn wire_records_round_trip() {
    let all = vec![
        DbCommand::SetCmd("k".to_string(), "v".to_string()),
        DbCommand::Get("k".to_string()),
        DbCommand::Rm("k".to_string()),
        DbCommand::SetResult("k".to_string()),
        DbCommand::GetResult("v".to_string()),
        DbCommand::RmResult,
        DbCommand::Error("Key not found".to_string()),
    ];
    for cmd in all {
        let text = encode_db_command(&cmd);
        let (back, used) = decode_db_command(&text).unwrap();
        assert_eq!(used, text.chars().count());
        assert_eq!(encode_db_command(&back), text);
    }
}

#[test]
fn wire_decode_distinguishes_similar_tags() {
    let (cmd, _) = decode_db_command(&"{\"SetResult\":[\"x\"]}".to_string()).unwrap();
    assert!(matches!(cmd, DbCommand::SetResult(_)));
    let (cmd2, _) = decode_db_command(&"{\"Set\":[\"x\",\"y\"]}".to_string()).unwrap();
    assert!(matches!(cmd2, DbCommand::SetCmd(_, _)));
}

#[test]
fn entry_carries_its_timestamp() {
    let e = KvsEntry::new(3, 77, 140);
    assert_eq!(e.get_timestamp(), 77);
}
