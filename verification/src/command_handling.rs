//! What the small server answers to its commands.

use crate::commands::{Command, Section};
use crate::reply::{bulk, ok, reply_bulk, reply_ok, reply_simple, simple};
use crate::server::{expired_at, expiry_after, replication_lines, CacheValue, Session};
use crate::text::{append_bytes, byte_seqs, bytes_eq, copy_bytes, crlf, CR, LF};
use vstd::prelude::*;
use vstd::string::StringSliceAdditionalSpecFns;

verus! {

/// The handler of the commands of the small server.
pub struct CommandHandler;

/// The first `n` lines with a line end between one and the next.
pub open spec fn lines_joined(lines: Seq<Seq<u8>>, n: nat) -> Seq<u8>
    decreases n,
{
    if n == 0 || n > lines.len() {
        Seq::<u8>::empty()
    } else if n == 1 {
        lines[0]
    } else {
        lines_joined(lines, (n - 1) as nat) + crlf() + lines[n - 1]
    }
}

/// The lines with a line end between one and the next.
pub fn join_lines(lines: &Vec<Vec<u8>>) -> (r: Vec<u8>)
    ensures
        r@ == lines_joined(byte_seqs(lines@), lines@.len()),
{
    let mut r: Vec<u8> = Vec::new();
    let mut i: usize = 0;
    let ghost l = byte_seqs(lines@);
    while i < lines.len()
        invariant
            i <= lines@.len(),
            l == byte_seqs(lines@),
            r@ == lines_joined(l, i as nat),
        decreases lines@.len() - i,
    {
        assert(l[i as int] == lines@[i as int]@);
        if i > 0 {
            r.push(CR);
            r.push(LF);
        }
        append_bytes(&mut r, lines[i].as_slice());
        i += 1;
        assert(r@ =~= lines_joined(l, i as nat));
    }
    r
}

/// What `INFO` reports for a section: the replication of the server for
/// the section `replication` and where none is named, nothing for any
/// other.
pub open spec fn info_lines(session: Session, section: Section) -> Seq<Seq<u8>> {
    match section {
        Section::Custom(s) => if s@ == "replication".spec_bytes() {
            replication_lines(session.server_info)
        } else {
            Seq::<Seq<u8>>::empty()
        },
        Section::All => replication_lines(session.server_info),
    }
}

/// The answer to a command at the time `now`; empty where there is none.
pub open spec fn answer_of(session: Session, command: Command, now: i64) -> Seq<u8> {
    match command {
        Command::Ping => simple("PONG".spec_bytes()),
        Command::ECHO(cmd) => bulk(cmd.message@),
        Command::INFO(cmd) => {
            let lines = info_lines(session, cmd.section);
            bulk(lines_joined(lines, lines.len()))
        },
        Command::SET(_) => ok(),
        Command::GET(cmd) => if session.storage.map().contains_key(cmd.key@) && !expired_at(
            session.storage.map()[cmd.key@].expiry(),
            now,
        ) {
            bulk(session.storage.map()[cmd.key@].value@)
        } else {
            Seq::<u8>::empty()
        },
    }
}

/// Whether the values of a session after a command are what the command
/// makes of them: `SET` binds its key to its value, which expires as
/// `expiry_after` says; nothing else changes them.
pub open spec fn stored(before: Session, command: Command, now: i64, after: Session) -> bool {
    &&& after.server_info == before.server_info
    &&& match command {
        Command::SET(cmd) => {
            &&& after.storage.map().dom() == before.storage.map().dom().insert(cmd.key@)
            &&& after.storage.map()[cmd.key@].value@ == cmd.value@
            &&& after.storage.map()[cmd.key@].expiry() == expiry_after(now, cmd.px)
            &&& forall|k: Seq<u8>|
                k != cmd.key@ && before.storage.map().contains_key(k) ==> #[trigger] after.storage.map()[k]
                    == before.storage.map()[k]
        },
        _ => after.storage.map() == before.storage.map(),
    }
}

impl CommandHandler {
    /// Handles a command now, by the wall clock; hands back what to write to
    /// the client.
    pub fn handle(&mut self, session: &mut Session, command: Command) -> (r: Vec<u8>)
        requires
            old(session).storage.wf(),
        ensures
            final(session).storage.wf(),
            exists|now: i64|
                r@ == answer_of(*old(session), command, now) && #[trigger] stored(
                    *old(session),
                    command,
                    now,
                    *final(session),
                ),
    {
        let now = crate::server::utc_now_millis();
        let r = self.handle_at(session, command, now);
        assert(r@ == answer_of(*old(session), command, now) && stored(
            *old(session),
            command,
            now,
            *final(session),
        ));
        r
    }

    /// Handles a command at the time `now`; hands back what to write to the
    /// client.
    pub fn handle_at(&mut self, session: &mut Session, command: Command, now: i64) -> (r: Vec<u8>)
        requires
            old(session).storage.wf(),
        ensures
            final(session).storage.wf(),
            r@ == answer_of(*old(session), command, now),
            stored(*old(session), command, now, *final(session)),
    {
        match command {
            Command::Ping => reply_simple("PONG".as_bytes()),
            Command::ECHO(cmd) => reply_bulk(cmd.message.as_slice()),
            Command::INFO(cmd) => {
                let lines = match &cmd.section {
                    Section::Custom(s) => {
                        if bytes_eq(s.as_slice(), "replication".as_bytes()) {
                            session.server_info.replication_info()
                        } else {
                            let none: Vec<Vec<u8>> = Vec::new();
                            assert(byte_seqs(none@) =~= Seq::<Seq<u8>>::empty());
                            none
                        }
                    },
                    Section::All => session.server_info.replication_info(),
                };
                let text = join_lines(&lines);
                reply_bulk(text.as_slice())
            },
            Command::SET(cmd) => {
                let value = CacheValue::at(cmd.value.as_slice(), cmd.px, now);
                let _ = session.storage.insert(copy_bytes(cmd.key.as_slice()), value);
                reply_ok()
            },
            Command::GET(cmd) => {
                match session.storage.get(cmd.key.as_slice()) {
                    Some(cv) => {
                        if !cv.is_expired_at(now) {
                            reply_bulk(cv.value.as_slice())
                        } else {
                            Vec::new()
                        }
                    },
                    None => Vec::new(),
                }
            },
        }
    }
}

} // verus!
