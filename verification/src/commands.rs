//! The commands of the small server: `PING`, `ECHO`, `INFO`, `SET`
//! and `GET`.

use crate::text::copy_bytes;
use vstd::prelude::*;

verus! {

/// A section of `INFO`.
#[derive(Debug, PartialEq)]
pub enum Section {
    Custom(Vec<u8>),
    All,
}

/// `ECHO message`.
#[derive(Debug, PartialEq)]
pub struct EchoCommand {
    pub message: Vec<u8>,
}

/// `INFO [section]`.
#[derive(Debug, PartialEq)]
pub struct InfoCommand {
    pub section: Section,
}

impl InfoCommand {
    /// A command that reports `section`.
    pub fn new(section: Section) -> (r: Self)
        ensures
            r.section == section,
    {
        InfoCommand { section }
    }
}

/// `SET key value [PX milliseconds]`.
#[derive(Debug, PartialEq)]
pub struct SetCommand {
    pub key: Vec<u8>,
    pub value: Vec<u8>,
    /// Time to live, in milliseconds.
    pub px: Option<i64>,
}

/// `GET key`.
#[derive(Debug, PartialEq)]
pub struct GetCommand {
    pub key: Vec<u8>,
}

/// A command of the small server.
#[derive(Debug, PartialEq)]
pub enum Command {
    Ping,
    ECHO(EchoCommand),
    INFO(InfoCommand),
    SET(SetCommand),
    GET(GetCommand),
}

impl EchoCommand {
    /// A command that echoes `message`.
    pub fn new(message: &[u8]) -> (r: Self)
        ensures
            r.message@ == message@,
    {
        EchoCommand { message: copy_bytes(message) }
    }
}

impl SetCommand {
    /// A command that binds `key` to `value`, for `px` milliseconds where given.
    pub fn new(key: &[u8], value: &[u8], px: Option<i64>) -> (r: Self)
        ensures
            r.key@ == key@,
            r.value@ == value@,
            r.px == px,
    {
        SetCommand { key: copy_bytes(key), value: copy_bytes(value), px }
    }
}

impl GetCommand {
    /// A command that reads `key`.
    pub fn new(key: &[u8]) -> (r: Self)
        ensures
            r.key@ == key@,
    {
        GetCommand { key: copy_bytes(key) }
    }
}

} // verus!
