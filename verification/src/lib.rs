//! An in-memory data server that speaks the Redis wire protocol: the codec,
//! the stores, the commands, transactions and replication, as functions
//! from state and input to state and output.

pub mod bytemap;
pub mod cli;
pub mod cmds;
pub mod command_handling;
pub mod commands;
pub mod connection;
pub mod database;
pub mod follower;
pub mod global;
pub mod helpers;
pub mod parse;
pub mod protocol_parser;
pub mod rdb;
pub mod reply;
pub mod resp;
pub mod server;
pub mod stages;
pub mod storage;
pub mod text;
pub mod token;

pub use cli::Cli;
pub use database::KeyValueStore;
pub use follower::Follower;
pub use rdb::load_from_rdb;

use crate::database::{has_client, Client, ClientView, SharedState};
use crate::global::{config_value, lemma_first_value_stays, GlobalConfig};
use crate::text::{byte_seqs, copy_bytes, dec_digits, split_words, u128_to_dec, words};
use rand::Rng;
use vstd::prelude::*;
use vstd::string::StringSliceAdditionalSpecFns;

verus! {

/// A request to a store of keys.
#[derive(Debug)]
pub enum Request {
    Get(String),
    SetKey(String, String),
    Delete(String),
}

/// The answer to a `Request`.
#[derive(Debug)]
pub enum Response {
    Value(Option<String>),
    Acknowledged,
    Error(String),
}

/// A leader: where it listens, and where it keeps its snapshot.
#[derive(Debug)]
pub struct Leader {
    pub bind_address: Vec<u8>,
    pub listening_port: u16,
    pub dir_name: Option<Vec<u8>>,
    pub dbfilename: Option<Vec<u8>>,
}

/// The number of characters of a replication id.
pub const REPLID_LEN: usize = 40;

/// A letter or a digit.
pub open spec fn is_alphanumeric(b: u8) -> bool {
    (48 <= b <= 57) || (65 <= b <= 90) || (97 <= b <= 122)
}

/// A replication id: forty letters and digits.
pub open spec fn is_replid(id: Seq<u8>) -> bool {
    id.len() == REPLID_LEN && forall|i: int| 0 <= i < id.len() ==> is_alphanumeric(#[trigger] id[i])
}

/// `len` samples of `rand::distributions::Alphanumeric` from
/// `rand::thread_rng()`: each is an ASCII letter or digit.
#[verifier::external_body]
pub(crate) fn random_alphanumeric(len: usize) -> (r: Vec<u8>)
    ensures
        r@.len() == len,
        forall|i: int| 0 <= i < r@.len() ==> is_alphanumeric(#[trigger] r@[i]),
{
    rand::thread_rng().sample_iter(&rand::distributions::Alphanumeric).take(len).collect()
}

impl Leader {
    /// A leader that listens on `bind_address` and `listening_port`, or on
    /// `127.0.0.1` and 6379 where they are not given.
    pub fn new(
        bind_address: Option<Vec<u8>>,
        listening_port: Option<u16>,
        dir_name: Option<Vec<u8>>,
        dbfilename: Option<Vec<u8>>,
    ) -> (r: Leader)
        ensures
            r.bind_address@ == (match bind_address {
                Some(a) => a@,
                None => "127.0.0.1".spec_bytes(),
            }),
            r.listening_port == (match listening_port {
                Some(p) => p,
                None => cli::DEFAULT_PORT,
            }),
            r.dir_name == dir_name,
            r.dbfilename == dbfilename,
    {
        let bind_address = match bind_address {
            Some(a) => a,
            None => copy_bytes("127.0.0.1".as_bytes()),
        };
        let listening_port = match listening_port {
            Some(p) => p,
            None => cli::DEFAULT_PORT,
        };
        Leader { bind_address, listening_port, dir_name, dbfilename }
    }

    /// Whether the leader has a snapshot to load at startup: both the
    /// directory and the file name are given.
    pub fn has_snapshot(&self) -> (r: bool)
        ensures
            r == (self.dir_name is Some && self.dbfilename is Some),
    {
        self.dir_name.is_some() && self.dbfilename.is_some()
    }

    /// Takes note of a connection that was accepted. Where the
    /// configuration names no replication id yet, a fresh one and the
    /// offset 0 go to it, so that it names one from now on; and the
    /// connection gets a client record unless it has one.
    pub fn accept(&self, config: &mut GlobalConfig, state: &mut SharedState, socket_addr: u64)
        requires
            old(state).wf(),
        ensures
            final(state).wf(),
            if config_value(old(config)@, "master_replid".spec_bytes()) is Some {
                final(config)@ == old(config)@
            } else {
                exists|id: Seq<u8>|
                    is_replid(id) && #[trigger] final(config)@ == old(config)@.push(
                        ("master_replid".spec_bytes(), id),
                    ).push(("master_repl_offset".spec_bytes(), dec_digits(0)))
            },
            config_value(final(config)@, "master_replid".spec_bytes()) matches Some(id) && (
            config_value(old(config)@, "master_replid".spec_bytes()) is None ==> is_replid(id)),
            final(state)@.clients == (if has_client(old(state)@.clients, socket_addr) {
                old(state)@.clients
            } else {
                old(state)@.clients.push(
                    ClientView {
                        addr: socket_addr,
                        multi_lock: false,
                        multi_queue: Seq::<database::Queued>::empty(),
                    },
                )
            }),
            final(state)@.kv == old(state)@.kv,
            final(state)@.streams == old(state)@.streams,
            final(state)@.peers == old(state)@.peers,
    {
        if !config.contains("master_replid".as_bytes()) {
            let id = random_alphanumeric(REPLID_LEN);
            assert(is_replid(id@));
            let ghost named = old(config)@.push(("master_replid".spec_bytes(), id@));
            proof {
                lemma_first_value_stays(old(config)@, "master_replid".spec_bytes(), named.last());
                lemma_first_value_stays(
                    named,
                    "master_replid".spec_bytes(),
                    ("master_repl_offset".spec_bytes(), dec_digits(0)),
                );
            }
            config.push((copy_bytes("master_replid".as_bytes()), id));
            config.push((copy_bytes("master_repl_offset".as_bytes()), u128_to_dec(0)));
        }
        state.insert_client(socket_addr, Client::new(socket_addr));
    }
}

/// The server that the options call for.
#[derive(Debug)]
pub enum Instance {
    Leader(Leader),
    Follower(Follower),
}

/// Why the server cannot start.
#[derive(Debug, Clone, Copy, PartialEq, Eq, Structural)]
pub enum StartError {
    /// `replicaof` is not a host and a port.
    LeaderAddress,
    /// A follower without a port to listen on.
    MissingPort,
}

/// The bytes of an option, where there is one.
pub open spec fn opt_seq(v: Option<Vec<u8>>) -> Option<Seq<u8>> {
    match v {
        Some(b) => Some(b@),
        None => None,
    }
}

/// `pairs` with `name` and `value` behind them, where there is a value.
pub open spec fn noted(pairs: Seq<(Seq<u8>, Seq<u8>)>, name: Seq<u8>, value: Option<Seq<u8>>) -> Seq<
    (Seq<u8>, Seq<u8>),
> {
    match value {
        Some(v) => pairs.push((name, v)),
        None => pairs,
    }
}

/// The address that a server binds: the one given, or `127.0.0.1`.
pub open spec fn bound_to(bind_address: Option<Seq<u8>>) -> Seq<u8> {
    match bind_address {
        Some(a) => a,
        None => "127.0.0.1".spec_bytes(),
    }
}

/// The address of the leader that `replicaof` names: its two words, the
/// host and the port, with a colon between them.
pub open spec fn leader_address(replicaof: Seq<u8>) -> Option<Seq<u8>> {
    let w = words(replicaof, 0);
    if w.len() == 2 {
        Some(w[0] + seq![58u8] + w[1])
    } else {
        None
    }
}

/// The configuration after the options were noted, in this order: the
/// address to bind, the port, the directory and the file of the snapshot.
pub open spec fn noted_options(
    pairs: Seq<(Seq<u8>, Seq<u8>)>,
    bind_address: Option<Seq<u8>>,
    listening_port: Option<u16>,
    dir_name: Option<Seq<u8>>,
    dbfilename: Option<Seq<u8>>,
) -> Seq<(Seq<u8>, Seq<u8>)> {
    noted(
        noted(
            noted(
                noted(pairs, "bind_address".spec_bytes(), bind_address),
                "listening_port".spec_bytes(),
                match listening_port {
                    Some(p) => Some(dec_digits(p as nat)),
                    None => None,
                },
            ),
            "dir".spec_bytes(),
            dir_name,
        ),
        "dbfilename".spec_bytes(),
        dbfilename,
    )
}

fn note(config: &mut GlobalConfig, name: &str, value: &Option<Vec<u8>>)
    ensures
        final(config)@ == noted(old(config)@, name.spec_bytes(), opt_seq(*value)),
{
    match value {
        Some(v) => {
            config.push((copy_bytes(name.as_bytes()), copy_bytes(v.as_slice())));
        },
        None => {},
    }
}

/// Notes the options in the configuration and says which server they call
/// for: a follower where `replicaof` is given, under the name `LEADER`, and
/// a leader otherwise.
pub fn start_server(
    config: &mut GlobalConfig,
    bind_address: Option<Vec<u8>>,
    listening_port: Option<u16>,
    dir_name: Option<Vec<u8>>,
    dbfilename: Option<Vec<u8>>,
    replicaof: Option<Vec<u8>>,
) -> (r: Result<Instance, StartError>)
    ensures
        ({
            let options = noted_options(
                old(config)@,
                opt_seq(bind_address),
                listening_port,
                opt_seq(dir_name),
                opt_seq(dbfilename),
            );
            match replicaof {
                None => {
                    &&& final(config)@ == options
                    &&& r matches Ok(Instance::Leader(l))
                    &&& l.bind_address@ == bound_to(opt_seq(bind_address))
                    &&& l.listening_port == (match listening_port {
                        Some(p) => p,
                        None => cli::DEFAULT_PORT,
                    })
                    &&& opt_seq(l.dir_name) == opt_seq(dir_name)
                    &&& opt_seq(l.dbfilename) == opt_seq(dbfilename)
                },
                Some(text) => match leader_address(text@) {
                    None => final(config)@ == options && r == Err::<Instance, StartError>(
                        StartError::LeaderAddress,
                    ),
                    Some(addr) => {
                        &&& final(config)@ == options.push(("LEADER".spec_bytes(), addr))
                        &&& match listening_port {
                            None => r == Err::<Instance, StartError>(StartError::MissingPort),
                            Some(port) => {
                                &&& r matches Ok(Instance::Follower(f))
                                &&& f.bind_address@ == bound_to(opt_seq(bind_address))
                                &&& f.listening_port == port
                                &&& f.leader_addr@ == addr
                                &&& f.bytes_received == 0
                            },
                        }
                    },
                },
            }
        }),
{
    note(config, "bind_address", &bind_address);
    let port_text = match listening_port {
        Some(p) => Some(u128_to_dec(p as u128)),
        None => None,
    };
    note(config, "listening_port", &port_text);
    note(config, "dir", &dir_name);
    note(config, "dbfilename", &dbfilename);
    match replicaof {
        None => Ok(Instance::Leader(Leader::new(bind_address, listening_port, dir_name, dbfilename))),
        Some(text) => {
            let w = split_words(text.as_slice());
            if w.len() != 2 {
                return Err(StartError::LeaderAddress);
            }
            assert(byte_seqs(w@)[0] == w@[0]@);
            assert(byte_seqs(w@)[1] == w@[1]@);
            let mut addr = copy_bytes(w[0].as_slice());
            addr.push(58);
            crate::text::append_bytes(&mut addr, w[1].as_slice());
            assert(addr@ =~= w@[0]@ + seq![58u8] + w@[1]@);
            config.push((copy_bytes("LEADER".as_bytes()), copy_bytes(addr.as_slice())));
            match Follower::new(bind_address, listening_port, Some(addr)) {
                Ok(follower) => Ok(Instance::Follower(follower)),
                Err(_) => Err(StartError::MissingPort),
            }
        },
    }
}

} // verus!
