//! The service seen over the wire, with the connection simulated: one
//! request record in, one response record out; and the engine lock-in
//! decision.

use kvs::command::DbCommand;
use kvs::engine::{engine_lockin, EngineDecision, KvsEngine};
use kvs::server::{client_outcome, handle_request, handle_request_text};
use kvs::store::KvStore;
use kvs::stream::{decode_db_command, encode_db_command};

fn fresh() -> KvStore {
    KvStore::open(Vec::new()).unwrap()
}

fn roundtrip(st: &mut KvStore, req: DbCommand) -> DbCommand {
    let wire = encode_db_command(&req);
    let resp_text = handle_request_text(st, &wire);
    let (resp, used) = decode_db_command(&resp_text).unwrap();
    assert_eq!(used, resp_text.chars().count());
    resp
}

#[test]
fn set_then_get_over_wire() {
    let mut st = fresh();
    let resp = roundtrip(&mut st, DbCommand::SetCmd("foo".to_string(), "bar".to_string()));
    match resp {
        DbCommand::SetResult(k) => assert_eq!(k.as_str(), "foo"),
        _ => panic!("wrong response to set"),
    }
    let resp2 = roundtrip(&mut st, DbCommand::Get("foo".to_string()));
    match resp2 {
        DbCommand::GetResult(v) => assert_eq!(v.as_str(), "bar"),
        _ => panic!("wrong response to get"),
    }
}

#[test]
fn get_absent_over_wire_is_key_not_found() {
    let mut st = fresh();
    let req = DbCommand::Get("absent".to_string());
    let resp = roundtrip(&mut st, DbCommand::Get("absent".to_string()));
    match &resp {
        DbCommand::Error(m) => assert_eq!(m.as_str(), "Key not found"),
        _ => panic!("wrong response to get of an absent key"),
    }
    // the client prints the message and still exits zero
    let outcome = client_outcome(&req, resp);
    assert!(outcome.ok);
    assert_eq!(outcome.output, Some("Key not found".to_string()));
}

#[test]
fn rm_absent_over_wire_fails_the_client() {
    let mut st = fresh();
    let req = DbCommand::Rm("absent".to_string());
    let resp = roundtrip(&mut st, DbCommand::Rm("absent".to_string()));
    match &resp {
        DbCommand::Error(m) => assert_eq!(m.as_str(), "Key not found"),
        _ => panic!("wrong response to rm of an absent key"),
    }
    let outcome = client_outcome(&req, resp);
    assert!(!outcome.ok);
    assert_eq!(outcome.output, Some("Key not found".to_string()));
}

#[test]
fn rm_present_over_wire() {
    let mut st = fresh();
    roundtrip(&mut st, DbCommand::SetCmd("a".to_string(), "1".to_string()));
    let req = DbCommand::Rm("a".to_string());
    let resp = roundtrip(&mut st, DbCommand::Rm("a".to_string()));
    assert!(matches!(resp, DbCommand::RmResult));
    let outcome = client_outcome(&req, resp);
    assert!(outcome.ok);
    assert_eq!(outcome.output, None);
}

#[test]
fn malformed_request_gets_unknown_command() {
    let mut st = fresh();
    let resp_text = handle_request_text(&mut st, &"this is not a record".to_string());
    let (resp, _) = decode_db_command(&resp_text).unwrap();
    match resp {
        DbCommand::Error(m) => assert_eq!(m.as_str(), "Unknown Command"),
        _ => panic!("malformed request must answer Unknown Command"),
    }
}

#[test]
fn response_variant_as_request_is_unknown_command() {
    let mut st = fresh();
    let resp = roundtrip(&mut st, DbCommand::RmResult);
    match resp {
        DbCommand::Error(m) => assert_eq!(m.as_str(), "Unknown Command"),
        _ => panic!("a response variant is not a request"),
    }
}

#[test]
fn successful_set_outcome_prints_nothing() {
    let mut st = fresh();
    let req = DbCommand::SetCmd("k".to_string(), "v".to_string());
    let resp = handle_request(&mut st, DbCommand::SetCmd("k".to_string(), "v".to_string()));
    let outcome = client_outcome(&req, resp);
    assert!(outcome.ok);
    assert_eq!(outcome.output, None);
}

#[test]
fn engine_used_through_the_trait() {
    let mut st = fresh();
    KvsEngine::set(&mut st, "k".to_string(), "v".to_string()).unwrap();
    assert_eq!(KvsEngine::get(&mut st, "k".to_string()).unwrap(), Some("v".to_string()));
    KvsEngine::remove(&mut st, "k".to_string()).unwrap();
    assert_eq!(KvsEngine::get(&mut st, "k".to_string()).unwrap(), None);
}

#[test]
fn lockin_mismatch_is_rejected() {
    let sidecar = "engine=kvs\n".to_string();
    let d = engine_lockin(Some(&sidecar), &"sled".to_string());
    assert!(matches!(d, EngineDecision::Reject));
}

#[test]
fn lockin_match_proceeds() {
    let sidecar = "engine=kvs\n".to_string();
    let d = engine_lockin(Some(&sidecar), &"kvs".to_string());
    assert!(matches!(d, EngineDecision::Proceed));
}

#[test]
fn lockin_without_sidecar_writes_one() {
    let d = engine_lockin(None, &"sled".to_string());
    match d {
        EngineDecision::WriteSidecar(text) => assert_eq!(text.as_str(), "engine=sled\n"),
        _ => panic!("a first start must record the engine"),
    }
}

#[test]
fn lockin_scans_past_other_lines() {
    let sidecar = "color=blue\nengine=kvs\nmore=stuff\n".to_string();
    let d = engine_lockin(Some(&sidecar), &"sled".to_string());
    assert!(matches!(d, EngineDecision::Reject));
    let d2 = engine_lockin(Some(&sidecar), &"kvs".to_string());
    assert!(matches!(d2, EngineDecision::Proceed));
}

#[test]
fn lockin_engine_line_without_value_proceeds() {
    let sidecar = "engine\n".to_string();
    let d = engine_lockin(Some(&sidecar), &"kvs".to_string());
    assert!(matches!(d, EngineDecision::Proceed));
}

#[test]
fn lockin_sidecar_without_engine_line_writes_one() {
    let sidecar = "something=else\n".to_string();
    let d = engine_lockin(Some(&sidecar), &"kvs".to_string());
    match d {
        EngineDecision::WriteSidecar(text) => assert_eq!(text.as_str(), "engine=kvs\n"),
        _ => panic!("a sidecar without an engine line decides nothing"),
    }
}
