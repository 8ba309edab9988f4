//! Parsed commands and the errors of parsing them.

pub mod command;
pub mod config;
pub mod info;

pub use command::{
    Discard, Echo, Exec, Get, Incr, Keys, Multi, Ping, Psync, Replconf, Save, SetCmd, Type, Wait,
    Xadd, Xrange, Xread,
};
pub use config::{Config, SubCommand};
pub use info::{Info, InfoSubCommand};

use crate::text::append_bytes;
use vstd::prelude::*;
use vstd::string::StringSliceAdditionalSpecFns;

verus! {

/// A command, parsed.
#[derive(Debug, PartialEq)]
pub enum Command {
    Discard(Discard),
    Get(Get),
    SetCmd(SetCmd),
    Incr(Incr),
    Ping(Ping),
    Echo(Echo),
    Multi(Multi),
    Config(Config),
    Exec(Exec),
    Save(Save),
    Keys(Keys),
    Info(Info),
    Replconf(Replconf),
    Psync(Psync),
    Type(Type),
    Wait(Wait),
    Xadd(Xadd),
    Xrange(Xrange),
    Xread(Xread),
}

/// Why an array of arguments is no command.
#[derive(Debug, PartialEq)]
pub enum CommandError {
    /// Malformed options; holds the command's name.
    SyntaxError(&'static str),
    /// Too few or too many arguments; holds the command's name.
    WrongNumberOfArguments(&'static str),
    /// No such command.
    NotSupported,
    /// An argument of the wrong kind; holds the command's name.
    NotValidType(&'static str),
    /// No such subcommand; holds the subcommand as it was received.
    UnknownSubCommand(Vec<u8>),
}

impl CommandError {
    /// The text of the error as the client reads it.
    pub open spec fn text(self) -> Seq<u8> {
        match self {
            CommandError::SyntaxError(_) => "ERR syntax error".spec_bytes(),
            CommandError::WrongNumberOfArguments(x) => "ERR wrong number of arguments for '".spec_bytes()
                + x.spec_bytes() + "' command".spec_bytes(),
            CommandError::NotSupported => "ERR Command Not Supported".spec_bytes(),
            CommandError::NotValidType(x) => "ERR Not a valid type for the command '".spec_bytes()
                + x.spec_bytes() + "'".spec_bytes(),
            CommandError::UnknownSubCommand(x) => "ERR Unknown subcommand '".spec_bytes() + x@
                + "'".spec_bytes(),
        }
    }

    /// The text of the error; see `text`.
    pub fn message(&self) -> (r: Vec<u8>)
        ensures
            r@ == self.text(),
    {
        let mut r: Vec<u8> = Vec::new();
        match self {
            CommandError::SyntaxError(_) => {
                append_bytes(&mut r, "ERR syntax error".as_bytes());
            },
            CommandError::WrongNumberOfArguments(x) => {
                append_bytes(&mut r, "ERR wrong number of arguments for '".as_bytes());
                append_bytes(&mut r, x.as_bytes());
                append_bytes(&mut r, "' command".as_bytes());
            },
            CommandError::NotSupported => {
                append_bytes(&mut r, "ERR Command Not Supported".as_bytes());
            },
            CommandError::NotValidType(x) => {
                append_bytes(&mut r, "ERR Not a valid type for the command '".as_bytes());
                append_bytes(&mut r, x.as_bytes());
                append_bytes(&mut r, "'".as_bytes());
            },
            CommandError::UnknownSubCommand(x) => {
                append_bytes(&mut r, "ERR Unknown subcommand '".as_bytes());
                append_bytes(&mut r, x.as_slice());
                append_bytes(&mut r, "'".as_bytes());
            },
        }
        assert(r@ =~= self.text());
        r
    }
}

} // verus!
