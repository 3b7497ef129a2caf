//! The server's dispatch — from one decoded request to one response and
//! the next engine state — and the client's reading of a response.  The
//! shell around these functions only moves text across the connection.

use vstd::prelude::*;
use crate::command::{DbCommand, DbModel};
use crate::record::{enc_db, parse_db};
use crate::store::KvStore;
use crate::stream::{decode_db_command, encode_db_command};

verus! {

/// The response the current state prescribes for a request.  A lookup of
/// an absent key and a removal of an absent key both answer
/// `Error("Key not found")`; a record that is not a request answers
/// `Error("Unknown Command")`.
pub open spec fn response_of(m: Map<Seq<char>, Seq<char>>, req: DbModel) -> DbModel {
    match req {
        DbModel::SetCmd { key, .. } => DbModel::SetResult { key },
        DbModel::Get { key } => if m.contains_key(key) {
            DbModel::GetResult { value: m[key] }
        } else {
            DbModel::Error { message: "Key not found"@ }
        },
        DbModel::Rm { key } => if m.contains_key(key) {
            DbModel::RmResult
        } else {
            DbModel::Error { message: "Key not found"@ }
        },
        _ => DbModel::Error { message: "Unknown Command"@ },
    }
}

/// The state after a request has been served.
pub open spec fn state_after(m: Map<Seq<char>, Seq<char>>, req: DbModel) -> Map<
    Seq<char>,
    Seq<char>,
> {
    match req {
        DbModel::SetCmd { key, value } => m.insert(key, value),
        DbModel::Rm { key } => if m.contains_key(key) {
            m.remove(key)
        } else {
            m
        },
        _ => m,
    }
}

/// Serves one decoded request against the engine.
pub fn handle_request(store: &mut KvStore, req: DbCommand) -> (resp: DbCommand)
    requires
        old(store).wf(),
        old(store).clock() < u128::MAX,
    ensures
        final(store).wf(),
        final(store)@ == state_after(old(store)@, req@),
        resp@ == response_of(old(store)@, req@),
        !(req@ is SetCmd) && !(req@ is Rm) ==> *final(store) == *old(store),
{
    match req {
        DbCommand::SetCmd(k, v) => {
            let echo = k.clone();
            match store.set(k, v) {
                Ok(_) => DbCommand::SetResult(echo),
                Err(e) => {
                    proof {
                        assert(false);
                    }
                    DbCommand::Error(e.message())
                },
            }
        },
        DbCommand::Get(k) => {
            match store.get(k) {
                Ok(Some(v)) => DbCommand::GetResult(v),
                Ok(None) => DbCommand::Error("Key not found".to_owned()),
                Err(e) => {
                    proof {
                        assert(false);
                    }
                    DbCommand::Error(e.message())
                },
            }
        },
        DbCommand::Rm(k) => {
            match store.remove(k) {
                Ok(_) => DbCommand::RmResult,
                Err(e) => DbCommand::Error(e.message()),
            }
        },
        _ => DbCommand::Error("Unknown Command".to_owned()),
    }
}

/// Serves one connection's worth of text: decodes one request record,
/// dispatches it, and encodes the one response record.  Text that does
/// not decode as a request is answered with `Error("Unknown Command")`.
pub fn handle_request_text(store: &mut KvStore, request: &String) -> (resp: String)
    requires
        old(store).wf(),
        old(store).clock() < u128::MAX,
    ensures
        final(store).wf(),
        match parse_db(request@) {
            Some((req, _n)) => {
                &&& final(store)@ == state_after(old(store)@, req)
                &&& resp@ == enc_db(response_of(old(store)@, req))
            },
            None => {
                &&& *final(store) == *old(store)
                &&& resp@ == enc_db(DbModel::Error { message: "Unknown Command"@ })
            },
        },
{
    match decode_db_command(request) {
        Some((req, _n)) => {
            let resp = handle_request(store, req);
            encode_db_command(&resp)
        },
        None => encode_db_command(&DbCommand::Error("Unknown Command".to_owned())),
    }
}

/// What the client does with the one response to its request: what it
/// prints, and whether it exits with status zero.
pub struct ClientOutcome {
    pub output: Option<String>,
    pub ok: bool,
}

/// What the client prints for a given request and response.
pub open spec fn client_output(req: DbModel, resp: DbModel) -> Option<Seq<char>> {
    match resp {
        DbModel::GetResult { value } => if req is Get {
            Some(value)
        } else {
            None
        },
        DbModel::Error { message } => Some(message),
        _ => None,
    }
}

/// Whether the client exits with status zero: yes on the matching success
/// response, and also when a lookup reports `Key not found`, which is an
/// answer, not a failure.
pub open spec fn client_ok(req: DbModel, resp: DbModel) -> bool {
    match req {
        DbModel::SetCmd { .. } => resp is SetResult,
        DbModel::Get { .. } => resp is GetResult || (resp matches DbModel::Error { message }
            && message == "Key not found"@),
        DbModel::Rm { .. } => resp is RmResult,
        _ => false,
    }
}

/// Reads one response on the client's side.
pub fn client_outcome(req: &DbCommand, resp: DbCommand) -> (r: ClientOutcome)
    ensures
        r.ok == client_ok(req@, resp@),
        match r.output {
            Some(s) => client_output(req@, resp@) == Some(s@),
            None => client_output(req@, resp@) is None,
        },
{
    match resp {
        DbCommand::SetResult(_k) => ClientOutcome { output: None, ok: matches!(req, DbCommand::SetCmd(_, _)) },
        DbCommand::GetResult(v) => {
            match req {
                DbCommand::Get(_) => ClientOutcome { output: Some(v), ok: true },
                _ => ClientOutcome { output: None, ok: false },
            }
        },
        DbCommand::RmResult => ClientOutcome { output: None, ok: matches!(req, DbCommand::Rm(_)) },
        DbCommand::Error(m) => {
            let ok = match req {
                DbCommand::Get(_) => {
                    let expected = "Key not found".to_owned();
                    m.eq(&expected)
                },
                _ => false,
            };
            ClientOutcome { output: Some(m), ok }
        },
        _ => ClientOutcome { output: None, ok: false },
    }
}

} // verus!
