//! The two tagged record types: `KvsCommand`, the unit persisted to the log,
//! and `DbCommand`, the unit exchanged between client and server.
//!
//! Each has a ghost model (`CommandModel`, `DbModel`) that carries the same
//! data as sequences of characters; contracts speak of the models.

use vstd::prelude::*;

verus! {

/// A command record as persisted to a log segment.
///
/// The `u128` is the record's logical timestamp; replay resolves conflicts
/// between records for the same key by "greatest timestamp wins".
pub enum KvsCommand {
    /// An assignment of a value to a key.
    SetCmd(String, String, u128),
    /// A deletion of a key (a tombstone).
    Rm(String, u128),
}

/// The ghost model of a `KvsCommand`.
pub enum CommandModel {
    SetCmd { key: Seq<char>, value: Seq<char>, ts: u128 },
    Rm { key: Seq<char>, ts: u128 },
}

impl View for KvsCommand {
    type V = CommandModel;

    open spec fn view(&self) -> CommandModel {
        match self {
            KvsCommand::SetCmd(k, v, t) => CommandModel::SetCmd { key: k@, value: v@, ts: *t },
            KvsCommand::Rm(k, t) => CommandModel::Rm { key: k@, ts: *t },
        }
    }
}

impl CommandModel {
    /// The key the record is about.
    pub open spec fn key(self) -> Seq<char> {
        match self {
            CommandModel::SetCmd { key, .. } => key,
            CommandModel::Rm { key, .. } => key,
        }
    }

    /// The record's logical timestamp.
    pub open spec fn ts(self) -> u128 {
        match self {
            CommandModel::SetCmd { ts, .. } => ts,
            CommandModel::Rm { ts, .. } => ts,
        }
    }

    /// The value assigned, or `None` for a tombstone.
    pub open spec fn live(self) -> Option<Seq<char>> {
        match self {
            CommandModel::SetCmd { value, .. } => Some(value),
            CommandModel::Rm { .. } => None,
        }
    }
}

impl KvsCommand {
    /// Builds an assignment record.
    pub fn set(key: String, value: String, timestamp: u128) -> (r: KvsCommand)
        ensures
            r@ == (CommandModel::SetCmd { key: key@, value: value@, ts: timestamp }),
    {
        KvsCommand::SetCmd(key, value, timestamp)
    }

    /// Builds a tombstone record.
    pub fn rm(key: String, timestamp: u128) -> (r: KvsCommand)
        ensures
            r@ == (CommandModel::Rm { key: key@, ts: timestamp }),
    {
        KvsCommand::Rm(key, timestamp)
    }
}

/// A request or response on the wire.  A connection carries exactly one
/// request record followed by exactly one response record.
pub enum DbCommand {
    /// Request: assign `value` to `key`.
    SetCmd(String, String),
    /// Request: look `key` up.
    Get(String),
    /// Request: delete `key`.
    Rm(String),
    /// Response: the set succeeded; echoes the key.
    SetResult(String),
    /// Response: the get succeeded with this value.
    GetResult(String),
    /// Response: the remove succeeded.
    RmResult,
    /// Response: the engine or the protocol failed; carries the diagnostic.
    Error(String),
}

/// The ghost model of a `DbCommand`.
pub enum DbModel {
    SetCmd { key: Seq<char>, value: Seq<char> },
    Get { key: Seq<char> },
    Rm { key: Seq<char> },
    SetResult { key: Seq<char> },
    GetResult { value: Seq<char> },
    RmResult,
    Error { message: Seq<char> },
}

impl View for DbCommand {
    type V = DbModel;

    open spec fn view(&self) -> DbModel {
        match self {
            DbCommand::SetCmd(k, v) => DbModel::SetCmd { key: k@, value: v@ },
            DbCommand::Get(k) => DbModel::Get { key: k@ },
            DbCommand::Rm(k) => DbModel::Rm { key: k@ },
            DbCommand::SetResult(k) => DbModel::SetResult { key: k@ },
            DbCommand::GetResult(v) => DbModel::GetResult { value: v@ },
            DbCommand::RmResult => DbModel::RmResult,
            DbCommand::Error(m) => DbModel::Error { message: m@ },
        }
    }
}

} // verus!
