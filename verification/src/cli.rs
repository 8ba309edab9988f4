//! The options of the command line.

use crate::text::{byte_seqs, copy_bytes, is_word, lower_seq, nat_value, parse_u16};
use vstd::prelude::*;
use vstd::string::StringSliceAdditionalSpecFns;

verus! {

/// The port on which the server listens where none is given.
pub const DEFAULT_PORT: u16 = 6379;

/// The options, as given or by default.
#[derive(Debug, PartialEq)]
pub struct Cli {
    pub listening_port: Option<u16>,
    pub bind_address: Option<Vec<u8>>,
    pub dir_name: Option<Vec<u8>>,
    pub db_filename: Option<Vec<u8>>,
    pub replicaof: Option<Vec<u8>>,
}

/// Why the command line was refused.
#[derive(Debug, Clone, Copy, PartialEq, Eq, Structural)]
pub enum CliError {
    /// What follows `--port` is no port.
    InvalidPort,
}

/// What a `Cli` stands for.
pub struct CliView {
    pub listening_port: Option<u16>,
    pub bind_address: Option<Seq<u8>>,
    pub dir_name: Option<Seq<u8>>,
    pub db_filename: Option<Seq<u8>>,
    pub replicaof: Option<Seq<u8>>,
}

/// The bytes of an option, where there is one.
pub open spec fn opt_view(v: Option<Vec<u8>>) -> Option<Seq<u8>> {
    match v {
        Some(b) => Some(b@),
        None => None,
    }
}

impl View for Cli {
    type V = CliView;

    open spec fn view(&self) -> CliView {
        CliView {
            listening_port: self.listening_port,
            bind_address: opt_view(self.bind_address),
            dir_name: opt_view(self.dir_name),
            db_filename: opt_view(self.db_filename),
            replicaof: opt_view(self.replicaof),
        }
    }
}

/// The options before any argument was read.
pub open spec fn defaults() -> CliView {
    CliView {
        listening_port: Some(DEFAULT_PORT),
        bind_address: Some("127.0.0.1".spec_bytes()),
        dir_name: None,
        db_filename: None,
        replicaof: None,
    }
}

/// The port that a text names.
pub open spec fn port_value(text: Seq<u8>) -> Option<u16> {
    match nat_value(text) {
        Some(n) if n <= u16::MAX => Some(n as u16),
        _ => None,
    }
}

/// The options after the arguments from index `i` on were read. A flag is
/// known by its name in whatever case and takes the argument behind it; a
/// flag that stands last takes none, and an argument that is no flag is
/// passed over.
pub open spec fn scanned(args: Seq<Seq<u8>>, i: int, acc: CliView) -> Result<CliView, CliError>
    decreases args.len() - i,
{
    if i < 0 || i >= args.len() {
        Ok(acc)
    } else {
        let flag = lower_seq(args[i]);
        let last = i + 1 >= args.len();
        if flag == "--port".spec_bytes() {
            if last {
                scanned(
                    args,
                    i + 1,
                    CliView {
                        listening_port: Some(DEFAULT_PORT),
                        bind_address: acc.bind_address,
                        dir_name: acc.dir_name,
                        db_filename: acc.db_filename,
                        replicaof: acc.replicaof,
                    },
                )
            } else {
                match port_value(args[i + 1]) {
                    Some(p) => scanned(
                        args,
                        i + 2,
                        CliView {
                            listening_port: Some(p),
                            bind_address: acc.bind_address,
                            dir_name: acc.dir_name,
                            db_filename: acc.db_filename,
                            replicaof: acc.replicaof,
                        },
                    ),
                    None => Err(CliError::InvalidPort),
                }
            }
        } else if last {
            scanned(args, i + 1, acc)
        } else if flag == "--bind".spec_bytes() {
            scanned(
                args,
                i + 2,
                CliView {
                    listening_port: acc.listening_port,
                    bind_address: Some(args[i + 1]),
                    dir_name: acc.dir_name,
                    db_filename: acc.db_filename,
                    replicaof: acc.replicaof,
                },
            )
        } else if flag == "--dir".spec_bytes() {
            scanned(
                args,
                i + 2,
                CliView {
                    listening_port: acc.listening_port,
                    bind_address: acc.bind_address,
                    dir_name: Some(args[i + 1]),
                    db_filename: acc.db_filename,
                    replicaof: acc.replicaof,
                },
            )
        } else if flag == "--dbfilename".spec_bytes() {
            scanned(
                args,
                i + 2,
                CliView {
                    listening_port: acc.listening_port,
                    bind_address: acc.bind_address,
                    dir_name: acc.dir_name,
                    db_filename: Some(args[i + 1]),
                    replicaof: acc.replicaof,
                },
            )
        } else if flag == "--replicaof".spec_bytes() {
            scanned(
                args,
                i + 2,
                CliView {
                    listening_port: acc.listening_port,
                    bind_address: acc.bind_address,
                    dir_name: acc.dir_name,
                    db_filename: acc.db_filename,
                    replicaof: Some(args[i + 1]),
                },
            )
        } else {
            scanned(args, i + 1, acc)
        }
    }
}

impl Cli {
    /// Reads the arguments of the command line; see `scanned`.
    pub fn new(args: &Vec<Vec<u8>>) -> (r: Result<Cli, CliError>)
        ensures
            match r {
                Ok(cli) => scanned(byte_seqs(args@), 0, defaults()) == Ok::<CliView, CliError>(
                    cli@,
                ),
                Err(e) => scanned(byte_seqs(args@), 0, defaults()) == Err::<CliView, CliError>(e),
            },
    {
        let ghost a = byte_seqs(args@);
        let mut cli = Cli {
            listening_port: Some(DEFAULT_PORT),
            bind_address: Some(copy_bytes("127.0.0.1".as_bytes())),
            dir_name: None,
            db_filename: None,
            replicaof: None,
        };
        let mut i: usize = 0;
        while i < args.len()
            invariant
                i <= args@.len(),
                a == byte_seqs(args@),
                scanned(a, 0, defaults()) == scanned(a, i as int, cli@),
            decreases args@.len() - i,
        {
            assert(a[i as int] == args@[i as int]@);
            let flag = args[i].as_slice();
            let last = args.len() - i <= 1;
            if is_word(flag, "--port".as_bytes()) {
                if last {
                    cli.listening_port = Some(DEFAULT_PORT);
                    i += 1;
                } else {
                    assert(a[i + 1] == args@[i + 1]@);
                    match parse_u16(args[i + 1].as_slice()) {
                        Some(p) => {
                            cli.listening_port = Some(p);
                            i += 2;
                        },
                        None => {
                            return Err(CliError::InvalidPort);
                        },
                    }
                }
            } else if last {
                i += 1;
            } else {
                assert(a[i + 1] == args@[i + 1]@);
                if is_word(flag, "--bind".as_bytes()) {
                    cli.bind_address = Some(copy_bytes(args[i + 1].as_slice()));
                    i += 2;
                } else if is_word(flag, "--dir".as_bytes()) {
                    cli.dir_name = Some(copy_bytes(args[i + 1].as_slice()));
                    i += 2;
                } else if is_word(flag, "--dbfilename".as_bytes()) {
                    cli.db_filename = Some(copy_bytes(args[i + 1].as_slice()));
                    i += 2;
                } else if is_word(flag, "--replicaof".as_bytes()) {
                    cli.replicaof = Some(copy_bytes(args[i + 1].as_slice()));
                    i += 2;
                } else {
                    i += 1;
                }
            }
        }
        Ok(cli)
    }
}

} // verus!
