//! The commands, one type each, with their arguments as they were parsed.

use vstd::prelude::*;

verus! {

/// `GET key`.
#[derive(Debug, PartialEq)]
pub struct Get {
    pub key: Vec<u8>,
}

/// `SET key value [EX seconds | PX milliseconds]`.
#[derive(Debug, PartialEq)]
pub struct SetCmd {
    pub key: Vec<u8>,
    pub value: Vec<u8>,
    /// Time to live, in milliseconds.
    pub expiry: Option<u64>,
}

/// `INCR key`.
#[derive(Debug, PartialEq)]
pub struct Incr {
    pub key: Vec<u8>,
}

/// `PING [message]`.
#[derive(Debug, PartialEq)]
pub struct Ping {
    pub value: Option<Vec<u8>>,
}

/// `ECHO message`.
#[derive(Debug, PartialEq)]
pub struct Echo {
    pub value: Option<Vec<u8>>,
}

/// `SAVE`.
#[derive(Debug, PartialEq)]
pub struct Save;

/// `KEYS pattern`.
#[derive(Debug, PartialEq)]
pub struct Keys {
    pub arg: Vec<u8>,
}

/// `REPLCONF ...`: the subcommand, in lower case, and its arguments.
#[derive(Debug, PartialEq)]
pub struct Replconf {
    pub args: Vec<Vec<u8>>,
}

/// `PSYNC replid offset`: its arguments.
#[derive(Debug, PartialEq)]
pub struct Psync {
    pub args: Vec<Vec<u8>>,
}

/// `WAIT numreplicas timeout`.
#[derive(Debug, PartialEq)]
pub struct Wait {
    pub numreplicas: u64,
    /// In milliseconds.
    pub timeout: u64,
}

/// `TYPE key`.
#[derive(Debug, PartialEq)]
pub struct Type {
    pub key: Vec<u8>,
}

/// `XADD key id field value ...`.
#[derive(Debug, PartialEq)]
pub struct Xadd {
    pub key: Vec<u8>,
    pub entry_id: Vec<u8>,
    pub args: Vec<(Vec<u8>, Vec<u8>)>,
}

/// `XRANGE key start end`.
#[derive(Debug, PartialEq)]
pub struct Xrange {
    pub key: Vec<u8>,
    pub start: Vec<u8>,
    pub end: Vec<u8>,
}

/// `XREAD [BLOCK milliseconds] STREAMS key ... id ...`.
#[derive(Debug, PartialEq)]
pub struct Xread {
    pub block: Option<u64>,
    pub keys: Vec<Vec<u8>>,
    pub entry_ids: Vec<Vec<u8>>,
}

/// `MULTI`.
#[derive(Debug, PartialEq)]
pub struct Multi;

/// `EXEC`.
#[derive(Debug, PartialEq)]
pub struct Exec;

/// `DISCARD`.
#[derive(Debug, PartialEq)]
pub struct Discard;

} // verus!
