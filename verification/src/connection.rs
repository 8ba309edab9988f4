//! What a connection does with the bytes it receives: the commands, one by
//! one, against the shared state.

pub mod laws;

use crate::cmds::{Command, CommandError, SubCommand, Xadd};
use crate::database::kv::{after_get, deadline, lookup, KvValue};
use crate::database::stream::{
    entries_of, id_text, last_of, new_id, range_of, selected, EntryView,
};
use crate::database::{
    broadcast, has_client, has_peer, wait_count, ClientView, Peer, PeerView, Queued, SharedState,
    StateView,
};
use crate::global::{config_value, GlobalConfig};
use crate::reply::{
    array_header, bulk, bulk_or_null, count, entries_data, entries_value, error_line, integer,
    null_bulk, ok, queued, reply_array_header, reply_bulk, reply_bulk_or_null, reply_count,
    reply_error, reply_integer, reply_null, reply_ok, reply_queued, reply_simple, simple,
};
use crate::resp::{
    decode_all, decode_at, encode, frame_values, lemma_array_view, tiles, views, Frame, RespData,
    RespError, RespValue,
};
use crate::text::{
    append_bytes, byte_seqs, bytes_eq, copy_bytes, copy_list, copy_range, i64_to_dec, i64_value, int_digits,
    nat_value, parse_i64, parse_u16, parse_usize, PLUS,
};
use std::collections::VecDeque;
use vstd::prelude::*;
use vstd::string::StringSliceAdditionalSpecFns;

verus! {

/// How far a connection has come in the sequence by which a follower
/// introduces itself: `PING`, `REPLCONF listening-port <port>`, `REPLCONF
/// capa psync2`, `PSYNC ? -1`.
#[derive(Debug, Clone, Copy, PartialEq, Eq, Structural)]
pub enum HandshakeStage {
    Normal,
    SawPing,
    SawPort,
    SawCapa,
    Identified,
}

/// The clocks at the time a command is handled.
#[derive(Debug, Clone, Copy)]
pub struct Env {
    /// A clock that never goes back, in milliseconds; deadlines go by it.
    pub now: u64,
    /// The wall clock, in milliseconds since the epoch; new entry ids go by
    /// it.
    pub wall_clock_ms: u128,
}

/// What is left for the caller to do once a command was handled.
#[derive(Debug, PartialEq)]
pub enum Action {
    /// Nothing but to send the reply.
    Nothing,
    /// Write a snapshot of the store to disk.
    Save,
    /// Let `timeout` milliseconds pass, then send what `wait_finish`
    /// answers.
    Sleep { timeout: u64 },
    /// Wait for an entry to be appended to one of the streams, for at most
    /// `timeout` milliseconds (for ever where it is 0), then send what
    /// `xread_resume` answers.
    Block { keys: Vec<Vec<u8>>, entry_ids: Vec<Vec<u8>>, timeout: u64 },
}

/// The answer to one command.
#[derive(Debug, PartialEq)]
pub struct Reply {
    /// What to send to the client now; may be empty.
    pub bytes: Vec<u8>,
    pub action: Action,
}

// ---------------------------------------------------------------------------
// The records of the clients
// ---------------------------------------------------------------------------

/// Whether the connection has a transaction open.
pub open spec fn in_multi(clients: Seq<ClientView>, addr: u64) -> bool {
    exists|i: int|
        0 <= i < clients.len() && (#[trigger] clients[i]).addr == addr && clients[i].multi_lock
}

/// The records with the transaction of `addr` opened or closed.
pub open spec fn with_lock(clients: Seq<ClientView>, addr: u64, flag: bool) -> Seq<ClientView> {
    Seq::new(
        clients.len(),
        |i: int|
            if clients[i].addr == addr {
                ClientView { addr, multi_lock: flag, multi_queue: clients[i].multi_queue }
            } else {
                clients[i]
            },
    )
}

/// The records with the transaction of `addr` closed and its queue empty.
pub open spec fn closed_out(clients: Seq<ClientView>, addr: u64) -> Seq<ClientView> {
    Seq::new(
        clients.len(),
        |i: int|
            if clients[i].addr == addr {
                ClientView { addr, multi_lock: false, multi_queue: Seq::<Queued>::empty() }
            } else {
                clients[i]
            },
    )
}

/// The commands that wait in the transaction of `addr`.
pub open spec fn queue_of(clients: Seq<ClientView>, addr: u64) -> Seq<Queued> {
    if has_client(clients, addr) {
        clients[choose|i: int| 0 <= i < clients.len() && (#[trigger] clients[i]).addr == addr].multi_queue
    } else {
        Seq::<Queued>::empty()
    }
}

/// `post` is `pre` with `cmd`, which arrived as `raw`, at the end of the
/// queue of `addr`.
pub open spec fn enqueued(
    pre: Seq<ClientView>,
    addr: u64,
    cmd: Command,
    raw: Seq<u8>,
    post: Seq<ClientView>,
) -> bool {
    &&& post.len() == pre.len()
    &&& forall|i: int|
        0 <= i < pre.len() ==> if (#[trigger] pre[i]).addr == addr {
            &&& post[i].addr == addr
            &&& post[i].multi_lock == pre[i].multi_lock
            &&& post[i].multi_queue.len() == pre[i].multi_queue.len() + 1
            &&& post[i].multi_queue.drop_last() == pre[i].multi_queue
            &&& post[i].multi_queue.last().command == cmd
            &&& post[i].multi_queue.last().raw@ == raw
        } else {
            post[i] == pre[i]
        }
}

/// The records without that of `addr`.
pub open spec fn without_client(clients: Seq<ClientView>, addr: u64) -> Seq<ClientView> {
    if has_client(clients, addr) {
        clients.remove(choose|i: int| 0 <= i < clients.len() && (#[trigger] clients[i]).addr == addr)
    } else {
        clients
    }
}

/// The followers' records with one for `addr`, which is new unless there is
/// one.
pub open spec fn with_peer(peers: Seq<PeerView>, addr: u64) -> Seq<PeerView> {
    if has_peer(peers, addr) {
        peers
    } else {
        peers.push(
            PeerView {
                addr,
                sender: Seq::<Seq<u8>>::empty(),
                bytes_sent: 0,
                bytes_written: 0,
                commands_processed: Seq::<Seq<u8>>::empty(),
            },
        )
    }
}

// ---------------------------------------------------------------------------
// Reads and writes of keys, which a transaction can hold back
// ---------------------------------------------------------------------------

/// What `INCR` makes of the value under `key`: 1 where there is none, one
/// more where it is an integer with room above it, and nothing otherwise.
pub open spec fn incremented(kv: Map<Seq<u8>, KvValue>, key: Seq<u8>, now: u64) -> Option<i64> {
    match lookup(kv, key, now) {
        None => Some(1i64),
        Some(v) => match i64_value(v) {
            Some(n) if n < i64::MAX => Some((n + 1) as i64),
            _ => None,
        },
    }
}

/// The text of the error of an `INCR` that found no integer.
pub open spec fn not_an_integer() -> Seq<u8> {
    "ERR value is not an integer or out of range".spec_bytes()
}

/// The keys after a command of a transaction ran.
pub open spec fn applied_kv(cmd: Command, kv: Map<Seq<u8>, KvValue>, now: u64) -> Map<
    Seq<u8>,
    KvValue,
> {
    match cmd {
        Command::Get(g) => after_get(kv, g.key@, now),
        Command::SetCmd(s) => kv.insert(
            s.key@,
            KvValue { value: s.value@, expires_at: deadline(now, s.expiry) },
        ),
        Command::Incr(i) => match incremented(kv, i.key@, now) {
            Some(n) => kv.insert(i.key@, KvValue { value: int_digits(n as int), expires_at: None }),
            None => after_get(kv, i.key@, now),
        },
        _ => kv,
    }
}

/// The followers' records after a command of a transaction ran: a write
/// goes to every follower in the bytes in which it arrived.
pub open spec fn applied_peers(cmd: Command, raw: Seq<u8>, peers: Seq<PeerView>) -> Seq<PeerView> {
    match cmd {
        Command::SetCmd(_) => broadcast(peers, raw),
        Command::Incr(_) => broadcast(peers, raw),
        _ => peers,
    }
}

/// The reply of a command of a transaction.
pub open spec fn applied_reply(cmd: Command, kv: Map<Seq<u8>, KvValue>, now: u64) -> Seq<u8> {
    match cmd {
        Command::Get(g) => bulk_or_null(lookup(kv, g.key@, now)),
        Command::SetCmd(_) => ok(),
        Command::Incr(i) => match incremented(kv, i.key@, now) {
            Some(n) => integer(n),
            None => error_line(not_an_integer()),
        },
        _ => Seq::<u8>::empty(),
    }
}

/// The keys, the followers' records and the replies after the first `n`
/// commands of a queue ran, one after the other.
pub open spec fn ran(
    queue: Seq<Queued>,
    n: nat,
    kv: Map<Seq<u8>, KvValue>,
    peers: Seq<PeerView>,
    now: u64,
) -> (Map<Seq<u8>, KvValue>, Seq<PeerView>, Seq<u8>)
    decreases n,
{
    if n == 0 || n > queue.len() {
        (kv, peers, Seq::<u8>::empty())
    } else {
        let before = ran(queue, (n - 1) as nat, kv, peers, now);
        let q = queue[n - 1];
        (
            applied_kv(q.command, before.0, now),
            applied_peers(q.command, q.raw@, before.1),
            before.2 + applied_reply(q.command, before.0, now),
        )
    }
}

impl SharedState {
    /// Runs a read or a write of keys right away.
    pub fn apply(&mut self, cmd: &Command, raw: &[u8], now: u64) -> (r: Vec<u8>)
        requires
            old(self).wf(),
        ensures
            final(self).wf(),
            final(self)@.kv == applied_kv(*cmd, old(self)@.kv, now),
            final(self)@.peers == applied_peers(*cmd, raw@, old(self)@.peers),
            r@ == applied_reply(*cmd, old(self)@.kv, now),
            final(self)@.streams == old(self)@.streams,
            final(self)@.clients == old(self)@.clients,
    {
        match cmd {
            Command::Get(g) => {
                let v = self.kv_store_get(g.key.as_slice(), now);
                reply_bulk_or_null(&v)
            },
            Command::SetCmd(s) => {
                self.kv_store_insert(
                    copy_bytes(s.key.as_slice()),
                    copy_bytes(s.value.as_slice()),
                    s.expiry,
                    now,
                );
                self.broadcast_peers(raw);
                reply_ok()
            },
            Command::Incr(i) => {
                let ghost kv0 = self@.kv;
                let found = self.kv_store_get(i.key.as_slice(), now);
                let next: Option<i64> = match found {
                    None => Some(1i64),
                    Some(v) => match parse_i64(v.as_slice()) {
                        Some(n) => if n < i64::MAX {
                            Some(n + 1)
                        } else {
                            None
                        },
                        None => None,
                    },
                };
                let r = match next {
                    Some(n) => {
                        self.kv_store_insert(copy_bytes(i.key.as_slice()), i64_to_dec(n), None, now);
                        assert(self@.kv =~= kv0.insert(
                            i.key@,
                            KvValue { value: int_digits(n as int), expires_at: None },
                        ));
                        reply_integer(n)
                    },
                    None => reply_error("ERR value is not an integer or out of range".as_bytes()),
                };
                self.broadcast_peers(raw);
                r
            },
            _ => Vec::new(),
        }
    }

    /// Opens or closes the transaction of the client at `addr`.
    pub fn set_multi_lock(&mut self, addr: u64, flag: bool)
        requires
            old(self).wf(),
        ensures
            final(self).wf(),
            final(self)@.clients == with_lock(old(self)@.clients, addr, flag),
            final(self)@.kv == old(self)@.kv,
            final(self)@.streams == old(self)@.streams,
            final(self)@.peers == old(self)@.peers,
    {
        let ghost before = self@.clients;
        match self.client_index(addr) {
            Some(i) => {
                let ghost cur = self.clients@;
                self.clients[i].multi_lock = flag;
                assert(forall|j: int| 0 <= j < cur.len() && j != i ==> self.clients@[j] == cur[j]);
                assert(self@.clients =~= with_lock(before, addr, flag)) by {
                    assert forall|j: int| 0 <= j < before.len() implies self@.clients[j]
                        == with_lock(before, addr, flag)[j] by {
                        assert(before[j] == cur[j]@);
                        if j < i {
                            assert(before[j].addr != before[i as int].addr);
                        } else if i < j {
                            assert(before[i as int].addr != before[j].addr);
                        }
                    }
                }
                assert(self@.peers =~= old(self)@.peers);
                assert forall|a: int, b: int| 0 <= a < b < self@.clients.len() implies (
                #[trigger] self@.clients[a]).addr != (#[trigger] self@.clients[b]).addr by {
                    assert(before[a].addr != before[b].addr);
                }
            },
            None => {
                assert(before =~= with_lock(before, addr, flag));
            },
        }
    }

    /// Whether the client at `addr` has a transaction open.
    pub fn is_in_multi(&self, addr: u64) -> (r: bool)
        requires
            self.wf(),
        ensures
            r == in_multi(self@.clients, addr),
    {
        match self.client_index(addr) {
            Some(i) => {
                let r = self.clients[i].multi_lock;
                proof {
                    let cs = self@.clients;
                    assert(cs[i as int] == self.clients@[i as int]@);
                    if !r {
                        assert forall|j: int| 0 <= j < cs.len() && (#[trigger] cs[j]).addr
                            == addr implies !cs[j].multi_lock by {
                            if j < i {
                                assert(cs[j].addr != cs[i as int].addr);
                            } else if i < j {
                                assert(cs[i as int].addr != cs[j].addr);
                            }
                        }
                    }
                }
                r
            },
            None => false,
        }
    }

    /// Puts a command at the end of the transaction of the client at `addr`.
    pub fn enqueue(&mut self, addr: u64, cmd: Command, raw: &[u8])
        requires
            old(self).wf(),
        ensures
            final(self).wf(),
            enqueued(old(self)@.clients, addr, cmd, raw@, final(self)@.clients),
            final(self)@.kv == old(self)@.kv,
            final(self)@.streams == old(self)@.streams,
            final(self)@.peers == old(self)@.peers,
    {
        let ghost before = self@.clients;
        match self.client_index(addr) {
            Some(i) => {
                let ghost cur = self.clients@;
                let q = Queued { command: cmd, raw: copy_bytes(raw) };
                self.clients[i].multi_queue.push_back(q);
                assert(forall|j: int| 0 <= j < cur.len() && j != i ==> self.clients@[j] == cur[j]);
                let ghost after = self@.clients;
                assert(after[i as int].multi_queue.drop_last() =~= before[i as int].multi_queue) by {
                    assert(before[i as int] == cur[i as int]@);
                }
                assert forall|j: int| 0 <= j < before.len() implies (if (#[trigger] before[j]).addr
                    == addr {
                    &&& after[j].addr == addr
                    &&& after[j].multi_lock == before[j].multi_lock
                    &&& after[j].multi_queue.len() == before[j].multi_queue.len() + 1
                    &&& after[j].multi_queue.drop_last() == before[j].multi_queue
                    &&& after[j].multi_queue.last().command == cmd
                    &&& after[j].multi_queue.last().raw@ == raw@
                } else {
                    after[j] == before[j]
                }) by {
                    assert(before[j] == cur[j]@);
                    if j < i {
                        assert(before[j].addr != before[i as int].addr);
                    } else if i < j {
                        assert(before[i as int].addr != before[j].addr);
                    }
                }
                assert(self@.peers =~= old(self)@.peers);
                assert forall|a: int, b: int| 0 <= a < b < self@.clients.len() implies (
                #[trigger] self@.clients[a]).addr != (#[trigger] self@.clients[b]).addr by {
                    assert(before[a].addr != before[b].addr);
                }
            },
            None => {},
        }
    }

    /// Closes the transaction of the client at `addr` and takes its queue.
    pub fn take_queue(&mut self, addr: u64) -> (r: VecDeque<Queued>)
        requires
            old(self).wf(),
        ensures
            final(self).wf(),
            r@ == queue_of(old(self)@.clients, addr),
            final(self)@.clients == closed_out(old(self)@.clients, addr),
            final(self)@.kv == old(self)@.kv,
            final(self)@.streams == old(self)@.streams,
            final(self)@.peers == old(self)@.peers,
    {
        let ghost before = self@.clients;
        match self.client_index(addr) {
            Some(i) => {
                let ghost cur = self.clients@;
                let mut queue: VecDeque<Queued> = VecDeque::new();
                core::mem::swap(&mut self.clients[i].multi_queue, &mut queue);
                self.clients[i].multi_lock = false;
                assert(forall|j: int| 0 <= j < cur.len() && j != i ==> self.clients@[j] == cur[j]);
                proof {
                    let w = choose|k: int|
                        0 <= k < before.len() && (#[trigger] before[k]).addr == addr;
                    assert(before[i as int] == cur[i as int]@);
                    if w < i {
                        assert(before[w].addr != before[i as int].addr);
                    } else if i < w {
                        assert(before[i as int].addr != before[w].addr);
                    }
                    assert(self@.clients =~= closed_out(before, addr)) by {
                        assert forall|j: int| 0 <= j < before.len() implies self@.clients[j]
                            == closed_out(before, addr)[j] by {
                            assert(before[j] == cur[j]@);
                            if j < i {
                                assert(before[j].addr != before[i as int].addr);
                            } else if i < j {
                                assert(before[i as int].addr != before[j].addr);
                            }
                        }
                    }
                    assert(self@.peers =~= old(self)@.peers);
                    assert forall|a: int, b: int| 0 <= a < b < self@.clients.len() implies (
                    #[trigger] self@.clients[a]).addr != (#[trigger] self@.clients[b]).addr by {
                        assert(before[a].addr != before[b].addr);
                    }
                }
                queue
            },
            None => {
                assert(before =~= closed_out(before, addr));
                VecDeque::new()
            },
        }
    }

    /// Runs the commands of a queue, the oldest first; hands back their
    /// replies, one after the other.
    pub fn run_queue(&mut self, queue: VecDeque<Queued>, now: u64) -> (r: Vec<u8>)
        requires
            old(self).wf(),
        ensures
            final(self).wf(),
            (final(self)@.kv, final(self)@.peers, r@) == ran(
                queue@,
                queue@.len(),
                old(self)@.kv,
                old(self)@.peers,
                now,
            ),
            final(self)@.streams == old(self)@.streams,
            final(self)@.clients == old(self)@.clients,
    {
        let mut out: Vec<u8> = Vec::new();
        let mut queue = queue;
        let ghost all = queue@;
        let ghost mut done: nat = 0;
        while queue.len() > 0
            invariant
                self.wf(),
                done <= all.len(),
                queue@ == all.skip(done as int),
                (self@.kv, self@.peers, out@) == ran(all, done, old(self)@.kv, old(self)@.peers, now),
                self@.streams == old(self)@.streams,
                self@.clients == old(self)@.clients,
            decreases queue@.len(),
        {
            match queue.pop_front() {
                Some(q) => {
                    assert(q == all[done as int]);
                    let reply = self.apply(&q.command, q.raw.as_slice(), now);
                    append_bytes(&mut out, reply.as_slice());
                    proof {
                        done = done + 1;
                        assert(queue@ =~= all.skip(done as int));
                    }
                },
                None => {},
            }
        }
        out
    }
}

// ---------------------------------------------------------------------------
// The commands
// ---------------------------------------------------------------------------

/// What an `Action` stands for.
pub enum ActionView {
    Nothing,
    Save,
    Sleep { timeout: u64 },
    Block { keys: Seq<Seq<u8>>, entry_ids: Seq<Seq<u8>>, timeout: u64 },
}

impl View for Action {
    type V = ActionView;

    open spec fn view(&self) -> ActionView {
        match self {
            Action::Nothing => ActionView::Nothing,
            Action::Save => ActionView::Save,
            Action::Sleep { timeout } => ActionView::Sleep { timeout: *timeout },
            Action::Block { keys, entry_ids, timeout } => ActionView::Block {
                keys: byte_seqs(keys@),
                entry_ids: byte_seqs(entry_ids@),
                timeout: *timeout,
            },
        }
    }
}

/// The state, the reply and what is left to do after a command.
pub struct Outcome {
    pub state: StateView,
    pub bytes: Seq<u8>,
    pub action: ActionView,
}

/// An outcome that leaves the state as it is and leaves nothing to do.
pub open spec fn answer(pre: StateView, bytes: Seq<u8>) -> Outcome {
    Outcome { state: pre, bytes, action: ActionView::Nothing }
}

/// The message that asks the followers for an acknowledgement.
pub open spec fn getack_message() -> Seq<u8> {
    encode(
        RespValue::Array(
            seq![
                RespValue::BulkStr("REPLCONF".spec_bytes()),
                RespValue::BulkStr("GETACK".spec_bytes()),
                RespValue::BulkStr("*".spec_bytes()),
            ],
        ),
    )
}

/// The value of `name` in the configuration, or the empty text.
pub open spec fn value_or_empty(cfg: Seq<(Seq<u8>, Seq<u8>)>, name: Seq<u8>) -> Seq<u8> {
    match config_value(cfg, name) {
        Some(v) => v,
        None => Seq::<u8>::empty(),
    }
}

/// What `INFO` reports: the role, and for a leader its replication id and
/// offset.
pub open spec fn info_text(cfg: Seq<(Seq<u8>, Seq<u8>)>) -> Seq<u8> {
    if config_value(cfg, "LEADER".spec_bytes()) is Some {
        "role:slave".spec_bytes()
    } else {
        "role:master\r\nmaster_replid:".spec_bytes() + value_or_empty(
            cfg,
            "master_replid".spec_bytes(),
        ) + "\r\nmaster_repl_offset:".spec_bytes() + value_or_empty(
            cfg,
            "master_repl_offset".spec_bytes(),
        )
    }
}

/// The answer to `PSYNC ? -1`: the line that announces a full
/// resynchronisation, then the empty snapshot, framed as a bulk string
/// without the closing line end.
pub open spec fn full_resync(cfg: Seq<(Seq<u8>, Seq<u8>)>) -> Seq<u8> {
    simple(
        "FULLRESYNC ".spec_bytes() + value_or_empty(cfg, "master_replid".spec_bytes())
            + " 0".spec_bytes(),
    ) + seq![crate::text::DOLLAR] + crate::text::dec_digits(crate::rdb::empty_snapshot().len())
        + crate::text::crlf() + crate::rdb::empty_snapshot()
}

/// Whether a stream stands under a beginning of `key`.
pub open spec fn names_stream(streams: Map<Seq<u8>, Seq<EntryView>>, key: Seq<u8>) -> bool {
    exists|p: Seq<u8>| crate::text::is_prefix(p, key) && #[trigger] streams.contains_key(p)
}

/// The answer to `XRANGE`: the entries of the range, or the null bulk string
/// where the stream, the range or the entries are missing.
pub open spec fn xrange_reply(
    streams: Map<Seq<u8>, Seq<EntryView>>,
    key: Seq<u8>,
    start: Seq<u8>,
    end: Seq<u8>,
) -> Seq<u8> {
    match after(streams, key, start, end) {
        Some(entries) => encode(entries_value(entries)),
        None => null_bulk(),
    }
}

/// The entries of the stream under `key` that the range covers, where there
/// are any.
pub open spec fn after(
    streams: Map<Seq<u8>, Seq<EntryView>>,
    key: Seq<u8>,
    start: Seq<u8>,
    end: Seq<u8>,
) -> Option<Seq<EntryView>> {
    if !streams.contains_key(key) {
        None
    } else {
        match range_of(start, end, last_of(streams[key])) {
            None => None,
            Some(range) => {
                let found = selected(streams[key], range, streams[key].len());
                if found.len() == 0 {
                    None
                } else {
                    Some(found)
                }
            },
        }
    }
}

/// The text `++`, which ends a range at the latest entry and leaves its
/// start out.
pub open spec fn past() -> Seq<u8> {
    seq![PLUS, PLUS]
}

/// What `XREAD` finds for the first `n` pairs of key and id: for each stream
/// that holds entries past its id, the key and those entries.
pub open spec fn xread_items(
    streams: Map<Seq<u8>, Seq<EntryView>>,
    keys: Seq<Seq<u8>>,
    ids: Seq<Seq<u8>>,
    n: nat,
) -> Seq<RespValue>
    decreases n,
{
    if n == 0 || n > keys.len() || n > ids.len() {
        Seq::<RespValue>::empty()
    } else {
        let before = xread_items(streams, keys, ids, (n - 1) as nat);
        match after(streams, keys[n - 1], ids[n - 1], past()) {
            Some(entries) => before.push(
                RespValue::Array(seq![RespValue::BulkStr(keys[n - 1]), entries_value(entries)]),
            ),
            None => before,
        }
    }
}

/// The number of pairs of key and id.
pub open spec fn pairs(keys: Seq<Seq<u8>>, ids: Seq<Seq<u8>>) -> nat {
    if keys.len() <= ids.len() {
        keys.len()
    } else {
        ids.len()
    }
}

/// The ids with `$` replaced by the last id of its stream.
pub open spec fn resolved(
    streams: Map<Seq<u8>, Seq<EntryView>>,
    keys: Seq<Seq<u8>>,
    ids: Seq<Seq<u8>>,
) -> Seq<Seq<u8>> {
    Seq::new(
        ids.len(),
        |i: int|
            if ids[i] == seq![crate::text::DOLLAR] && i < keys.len() {
                id_text(last_of(entries_of(streams, keys[i])))
            } else {
                ids[i]
            },
    )
}

/// The outcome of a command that no transaction holds back, but for `KEYS`.
#[verifier::opaque]
pub open spec fn outcome(
    pre: StateView,
    stage: HandshakeStage,
    addr: u64,
    cmd: Command,
    raw: Seq<u8>,
    cfg: Seq<(Seq<u8>, Seq<u8>)>,
    env: Env,
) -> Outcome {
    match cmd {
        Command::Get(_) | Command::SetCmd(_) | Command::Incr(_) => Outcome {
            state: StateView {
                kv: applied_kv(cmd, pre.kv, env.now),
                streams: pre.streams,
                peers: applied_peers(cmd, raw, pre.peers),
                clients: pre.clients,
            },
            bytes: applied_reply(cmd, pre.kv, env.now),
            action: ActionView::Nothing,
        },
        Command::Ping(p) => answer(
            pre,
            match p.value {
                Some(m) => simple(m@),
                None => simple("PONG".spec_bytes()),
            },
        ),
        Command::Echo(e) => answer(
            pre,
            match e.value {
                Some(m) => simple(m@),
                None => error_line(CommandError::WrongNumberOfArguments("echo").text()),
            },
        ),
        Command::Multi(_) => Outcome {
            state: StateView {
                kv: pre.kv,
                streams: pre.streams,
                peers: pre.peers,
                clients: with_lock(pre.clients, addr, true),
            },
            bytes: ok(),
            action: ActionView::Nothing,
        },
        Command::Discard(_) => if in_multi(pre.clients, addr) {
            Outcome {
                state: StateView {
                    kv: pre.kv,
                    streams: pre.streams,
                    peers: pre.peers,
                    clients: closed_out(pre.clients, addr),
                },
                bytes: ok(),
                action: ActionView::Nothing,
            }
        } else {
            answer(pre, error_line("ERR DISCARD without MULTI".spec_bytes()))
        },
        Command::Exec(_) => if in_multi(pre.clients, addr) {
            let queue = queue_of(pre.clients, addr);
            let end = ran(queue, queue.len(), pre.kv, pre.peers, env.now);
            Outcome {
                state: StateView {
                    kv: end.0,
                    streams: pre.streams,
                    peers: end.1,
                    clients: closed_out(pre.clients, addr),
                },
                bytes: array_header(queue.len()) + end.2,
                action: ActionView::Nothing,
            }
        } else {
            answer(pre, error_line("ERR EXEC without MULTI".spec_bytes()))
        },
        Command::Config(c) => match c.sub_command {
            SubCommand::Get(name) => answer(
                pre,
                match config_value(cfg, name@) {
                    Some(v) => encode(
                        RespValue::Array(seq![RespValue::BulkStr(name@), RespValue::BulkStr(v)]),
                    ),
                    None => Seq::<u8>::empty(),
                },
            ),
        },
        Command::Save(_) => Outcome { state: pre, bytes: ok(), action: ActionView::Save },
        Command::Keys(_) => answer(pre, Seq::<u8>::empty()),
        Command::Info(_) => answer(pre, bulk(info_text(cfg))),
        Command::Replconf(r) => {
            let a = byte_seqs(r.args@);
            if a.len() >= 2 && a[0] == "capa".spec_bytes() && a[1] == "psync2".spec_bytes() {
                answer(pre, ok())
            } else if a.len() >= 2 && a[0] == "listening-port".spec_bytes() && (nat_value(
                a[1],
            ) matches Some(port) && port <= u16::MAX) {
                answer(pre, ok())
            } else if a.len() >= 2 && a[0] == "ack".spec_bytes() && (nat_value(a[1]) matches Some(n)
                && n <= usize::MAX) {
                Outcome {
                    state: StateView {
                        kv: pre.kv,
                        streams: pre.streams,
                        peers: crate::database::acknowledged(
                            pre.peers,
                            addr,
                            nat_value(a[1]).unwrap() as usize,
                        ),
                        clients: pre.clients,
                    },
                    bytes: Seq::<u8>::empty(),
                    action: ActionView::Nothing,
                }
            } else {
                answer(pre, Seq::<u8>::empty())
            }
        },
        Command::Psync(p) => if byte_seqs(p.args@) == seq!["?".spec_bytes(), "-1".spec_bytes()] {
            if stage == HandshakeStage::SawCapa {
                Outcome {
                    state: StateView {
                        kv: pre.kv,
                        streams: pre.streams,
                        peers: with_peer(pre.peers, addr),
                        clients: without_client(pre.clients, addr),
                    },
                    bytes: full_resync(cfg),
                    action: ActionView::Nothing,
                }
            } else {
                answer(pre, full_resync(cfg))
            }
        } else {
            answer(pre, Seq::<u8>::empty())
        },
        Command::Type(t) => Outcome {
            state: StateView {
                kv: after_get(pre.kv, t.key@, env.now),
                streams: pre.streams,
                peers: pre.peers,
                clients: pre.clients,
            },
            bytes: if lookup(pre.kv, t.key@, env.now) is Some {
                simple("string".spec_bytes())
            } else if names_stream(pre.streams, t.key@) {
                simple("stream".spec_bytes())
            } else {
                simple("none".spec_bytes())
            },
            action: ActionView::Nothing,
        },
        Command::Wait(w) => if w.numreplicas == 0 {
            answer(pre, count(pre.peers.len()))
        } else {
            Outcome {
                state: StateView {
                    kv: pre.kv,
                    streams: pre.streams,
                    peers: broadcast(pre.peers, getack_message()),
                    clients: pre.clients,
                },
                bytes: Seq::<u8>::empty(),
                action: ActionView::Sleep { timeout: w.timeout },
            }
        },
        Command::Xadd(x) => match new_id(
            x.entry_id@,
            last_of(entries_of(pre.streams, x.key@)),
            env.wall_clock_ms,
        ) {
            Ok(id) => Outcome {
                state: StateView {
                    kv: pre.kv,
                    streams: pre.streams.insert(
                        x.key@,
                        entries_of(pre.streams, x.key@).push(
                            EntryView {
                                key: x.key@,
                                entry_id: id,
                                data: crate::text::pair_seqs(x.args@),
                            },
                        ),
                    ),
                    peers: pre.peers,
                    clients: pre.clients,
                },
                bytes: bulk(id_text(id)),
                action: ActionView::Nothing,
            },
            Err(e) => answer(pre, error_line(e.text())),
        },
        Command::Xrange(x) => answer(pre, xrange_reply(pre.streams, x.key@, x.start@, x.end@)),
        Command::Xread(x) => {
            let keys = byte_seqs(x.keys@);
            let ids = byte_seqs(x.entry_ids@);
            let items = xread_items(pre.streams, keys, ids, pairs(keys, ids));
            if items.len() > 0 {
                answer(pre, encode(RespValue::Array(items)))
            } else {
                match x.block {
                    Some(timeout) => Outcome {
                        state: pre,
                        bytes: Seq::<u8>::empty(),
                        action: ActionView::Block {
                            keys,
                            entry_ids: resolved(pre.streams, keys, ids),
                            timeout,
                        },
                    },
                    None => answer(pre, null_bulk()),
                }
            }
        },
    }
}

/// Where a connection stands in the sequence by which a follower
/// introduces itself, after a command. Each step must follow the one
/// before it; any other command starts over; a follower stays one.
pub open spec fn next_stage(stage: HandshakeStage, cmd: Command) -> HandshakeStage {
    if stage == HandshakeStage::Identified {
        HandshakeStage::Identified
    } else {
        match cmd {
            Command::Ping(_) => HandshakeStage::SawPing,
            Command::Replconf(r) => {
                let a = byte_seqs(r.args@);
                if stage == HandshakeStage::SawPing && a.len() >= 2 && a[0]
                    == "listening-port".spec_bytes() && (nat_value(a[1]) matches Some(port) && port
                    <= u16::MAX) {
                    HandshakeStage::SawPort
                } else if stage == HandshakeStage::SawPort && a.len() >= 2 && a[0]
                    == "capa".spec_bytes() && a[1] == "psync2".spec_bytes() {
                    HandshakeStage::SawCapa
                } else {
                    HandshakeStage::Normal
                }
            },
            Command::Psync(p) => if stage == HandshakeStage::SawCapa && byte_seqs(p.args@) == seq![
                "?".spec_bytes(),
                "-1".spec_bytes(),
            ] {
                HandshakeStage::Identified
            } else {
                HandshakeStage::Normal
            },
            _ => HandshakeStage::Normal,
        }
    }
}

/// Whether a transaction holds the command back.
pub open spec fn held_back(pre: StateView, addr: u64, cmd: Command) -> bool {
    in_multi(pre.clients, addr) && (cmd is Get || cmd is SetCmd || cmd is Incr)
}

/// A list of every key of the store, each once, in some order.
pub open spec fn lists_keys(kv: Map<Seq<u8>, KvValue>, order: Seq<Seq<u8>>) -> bool {
    order.no_duplicates() && order.to_set() == kv.dom()
}

/// The answer to `KEYS`: the keys as bulk strings, in the given order.
pub open spec fn keys_reply(order: Seq<Seq<u8>>) -> Seq<u8> {
    encode(RespValue::Array(Seq::new(order.len(), |i: int| RespValue::BulkStr(order[i]))))
}

/// What handling `cmd`, which arrived as `raw` on the connection `addr`,
/// makes of the state `pre`: the state `post`, the reply `bytes` and what
/// is left to do.
///
/// A read or a write of keys that a transaction holds back joins the queue
/// and is answered `QUEUED`: the keys, the streams and the followers stay
/// as they are. `KEYS` lists every key once. Every other outcome is
/// `outcome`.
pub open spec fn executed(
    pre: StateView,
    stage: HandshakeStage,
    addr: u64,
    cmd: Command,
    raw: Seq<u8>,
    cfg: Seq<(Seq<u8>, Seq<u8>)>,
    env: Env,
    post: StateView,
    bytes: Seq<u8>,
    action: ActionView,
) -> bool {
    if held_back(pre, addr, cmd) {
        &&& post.kv == pre.kv
        &&& post.streams == pre.streams
        &&& post.peers == pre.peers
        &&& enqueued(pre.clients, addr, cmd, raw, post.clients)
        &&& bytes == queued()
        &&& action == ActionView::Nothing
    } else if cmd is Keys {
        &&& post == pre
        &&& action == ActionView::Nothing
        &&& exists|order: Seq<Seq<u8>>| lists_keys(pre.kv, order) && bytes == keys_reply(order)
    } else {
        Outcome { state: post, bytes, action } == outcome(pre, stage, addr, cmd, raw, cfg, env)
    }
}

// ---------------------------------------------------------------------------
// Handling a command
// ---------------------------------------------------------------------------

/// A connection, as far as the commands are concerned.
#[derive(Debug)]
pub struct Connection {
    pub socket_addr: u64,
    pub stage: HandshakeStage,
}

fn list_is(args: &Vec<Vec<u8>>, first: &str, second: &str) -> (r: bool)
    ensures
        r == (byte_seqs(args@) == seq![first.spec_bytes(), second.spec_bytes()]),
{
    if args.len() != 2 {
        assert(seq![first.spec_bytes(), second.spec_bytes()].len() == 2);
        return false;
    }
    assert(byte_seqs(args@)[0] == args@[0]@);
    assert(byte_seqs(args@)[1] == args@[1]@);
    let r = bytes_eq(args[0].as_slice(), first.as_bytes()) && bytes_eq(
        args[1].as_slice(),
        second.as_bytes(),
    );
    proof {
        if r {
            assert(byte_seqs(args@) =~= seq![first.spec_bytes(), second.spec_bytes()]);
        }
    }
    r
}

/// Whether the list begins with `first` and goes on with something.
fn begins_with(args: &Vec<Vec<u8>>, first: &str) -> (r: bool)
    ensures
        r == (byte_seqs(args@).len() >= 2 && byte_seqs(args@)[0] == first.spec_bytes()),
{
    if args.len() < 2 {
        return false;
    }
    assert(byte_seqs(args@)[0] == args@[0]@);
    bytes_eq(args[0].as_slice(), first.as_bytes())
}

/// See `next_stage`.
pub fn stage_after(stage: HandshakeStage, cmd: &Command) -> (r: HandshakeStage)
    ensures
        r == next_stage(stage, *cmd),
{
    match stage {
        HandshakeStage::Identified => {
            return HandshakeStage::Identified;
        },
        _ => {},
    }
    match cmd {
        Command::Ping(_) => HandshakeStage::SawPing,
        Command::Replconf(r) => {
            let saw_ping = match stage {
                HandshakeStage::SawPing => true,
                _ => false,
            };
            let saw_port = match stage {
                HandshakeStage::SawPort => true,
                _ => false,
            };
            if begins_with(&r.args, "listening-port") {
                assert(byte_seqs(r.args@)[1] == r.args@[1]@);
                if saw_ping && parse_u16(r.args[1].as_slice()).is_some() {
                    return HandshakeStage::SawPort;
                }
            }
            if saw_port && begins_with(&r.args, "capa") {
                assert(byte_seqs(r.args@)[1] == r.args@[1]@);
                if bytes_eq(r.args[1].as_slice(), "psync2".as_bytes()) {
                    return HandshakeStage::SawCapa;
                }
            }
            HandshakeStage::Normal
        },
        Command::Psync(p) => {
            let saw_capa = match stage {
                HandshakeStage::SawCapa => true,
                _ => false,
            };
            if saw_capa && list_is(&p.args, "?", "-1") {
                HandshakeStage::Identified
            } else {
                HandshakeStage::Normal
            }
        },
        _ => HandshakeStage::Normal,
    }
}

fn config_text(config: &GlobalConfig, name: &str) -> (r: Vec<u8>)
    ensures
        r@ == value_or_empty(config@, name.spec_bytes()),
{
    match config.get_val(name.as_bytes()) {
        Some(v) => copy_bytes(v.as_slice()),
        None => Vec::new(),
    }
}

/// The text that `INFO` reports.
pub fn info_report(config: &GlobalConfig) -> (r: Vec<u8>)
    ensures
        r@ == info_text(config@),
{
    if config.contains("LEADER".as_bytes()) {
        copy_bytes("role:slave".as_bytes())
    } else {
        let mut r = copy_bytes("role:master\r\nmaster_replid:".as_bytes());
        append_bytes(&mut r, config_text(config, "master_replid").as_slice());
        append_bytes(&mut r, "\r\nmaster_repl_offset:".as_bytes());
        append_bytes(&mut r, config_text(config, "master_repl_offset").as_slice());
        assert(r@ =~= info_text(config@));
        r
    }
}

/// The answer to `PSYNC ? -1`.
pub fn full_resync_reply(config: &GlobalConfig) -> (r: Vec<u8>)
    ensures
        r@ == full_resync(config@),
{
    let mut line = copy_bytes("FULLRESYNC ".as_bytes());
    append_bytes(&mut line, config_text(config, "master_replid").as_slice());
    append_bytes(&mut line, " 0".as_bytes());
    assert(line@ =~= "FULLRESYNC ".spec_bytes() + value_or_empty(
        config@,
        "master_replid".spec_bytes(),
    ) + " 0".spec_bytes());
    let mut r = reply_simple(line.as_slice());
    let snapshot = crate::rdb::empty_rdb();
    r.push(crate::text::DOLLAR);
    crate::text::push_dec(&mut r, snapshot.len() as u128);
    r.push(crate::text::CR);
    r.push(crate::text::LF);
    append_bytes(&mut r, snapshot.as_slice());
    assert(r@ =~= full_resync(config@));
    r
}

/// The message that asks the followers for an acknowledgement.
pub fn getack_request() -> (r: Vec<u8>)
    ensures
        r@ == getack_message(),
{
    let mut items: Vec<RespData> = Vec::new();
    items.push(RespData::BulkStr(copy_bytes("REPLCONF".as_bytes())));
    items.push(RespData::BulkStr(copy_bytes("GETACK".as_bytes())));
    items.push(RespData::BulkStr(copy_bytes("*".as_bytes())));
    assert(views(items@) =~= seq![
        RespValue::BulkStr("REPLCONF".spec_bytes()),
        RespValue::BulkStr("GETACK".spec_bytes()),
        RespValue::BulkStr("*".spec_bytes()),
    ]);
    proof {
        lemma_array_view(items);
    }
    RespData::Array(items).encode()
}

fn past_bytes() -> (r: Vec<u8>)
    ensures
        r@ == past(),
{
    let mut r: Vec<u8> = Vec::new();
    r.push(PLUS);
    r.push(PLUS);
    assert(r@ =~= past());
    r
}

impl SharedState {
    /// Forgets the client record of `addr`.
    pub fn remove_client(&mut self, addr: u64)
        requires
            old(self).wf(),
        ensures
            final(self).wf(),
            final(self)@.clients == without_client(old(self)@.clients, addr),
            final(self)@.kv == old(self)@.kv,
            final(self)@.streams == old(self)@.streams,
            final(self)@.peers == old(self)@.peers,
    {
        let ghost before = self@.clients;
        match self.client_index(addr) {
            Some(i) => {
                let _ = self.clients.remove(i);
                proof {
                    let w = choose|k: int|
                        0 <= k < before.len() && (#[trigger] before[k]).addr == addr;
                    if w < i {
                        assert(before[w].addr != before[i as int].addr);
                    } else if i < w {
                        assert(before[i as int].addr != before[w].addr);
                    }
                    assert(self@.clients =~= before.remove(i as int));
                    assert(self@.peers =~= old(self)@.peers);
                    assert forall|a: int, b: int| 0 <= a < b < self@.clients.len() implies (
                    #[trigger] self@.clients[a]).addr != (#[trigger] self@.clients[b]).addr by {
                        let a0 = if a < i { a } else { a + 1 };
                        let b0 = if b < i { b } else { b + 1 };
                        assert(before[a0].addr != before[b0].addr);
                    }
                }
            },
            None => {},
        }
    }

    /// The entries of the stream under `key` that the range covers.
    pub fn entries_after(&self, key: &[u8], start: &[u8], end: &[u8]) -> (r: Option<RespData>)
        requires
            self.wf(),
        ensures
            match r {
                Some(d) => after(self@.streams, key@, start@, end@) matches Some(entries) && d@
                    == entries_value(entries),
                None => after(self@.streams, key@, start@, end@) is None,
            },
    {
        match self.stream_store.xrange(key, start, end) {
            Ok(found) => Some(entries_data(&found)),
            Err(_) => None,
        }
    }

    /// What `XREAD` finds for the pairs of key and id; see `xread_items`.
    pub fn xread_found(&self, keys: &Vec<Vec<u8>>, ids: &Vec<Vec<u8>>) -> (r: Vec<RespData>)
        requires
            self.wf(),
        ensures
            views(r@) == xread_items(
                self@.streams,
                byte_seqs(keys@),
                byte_seqs(ids@),
                pairs(byte_seqs(keys@), byte_seqs(ids@)),
            ),
    {
        let n = if keys.len() <= ids.len() {
            keys.len()
        } else {
            ids.len()
        };
        let end = past_bytes();
        let mut found: Vec<RespData> = Vec::new();
        let mut i: usize = 0;
        let ghost ks = byte_seqs(keys@);
        let ghost is = byte_seqs(ids@);
        assert(views(found@) =~= Seq::<RespValue>::empty());
        while i < n
            invariant
                self.wf(),
                i <= n,
                n == pairs(ks, is),
                ks == byte_seqs(keys@),
                is == byte_seqs(ids@),
                end@ == past(),
                views(found@) == xread_items(self@.streams, ks, is, i as nat),
            decreases n - i,
        {
            assert(ks[i as int] == keys@[i as int]@);
            assert(is[i as int] == ids@[i as int]@);
            match self.entries_after(keys[i].as_slice(), ids[i].as_slice(), end.as_slice()) {
                Some(entries) => {
                    let mut pair: Vec<RespData> = Vec::new();
                    pair.push(RespData::BulkStr(copy_bytes(keys[i].as_slice())));
                    pair.push(entries);
                    assert(views(pair@) =~= seq![RespValue::BulkStr(ks[i as int]), entries@]);
                    proof {
                        lemma_array_view(pair);
                    }
                    let ghost before = views(found@);
                    let item = RespData::Array(pair);
                    found.push(item);
                    assert(views(found@) =~= before.push(item@));
                },
                None => {},
            }
            i += 1;
        }
        found
    }

    /// The ids with `$` replaced by the last id of its stream.
    pub fn resolve_ids(&self, keys: &Vec<Vec<u8>>, ids: &Vec<Vec<u8>>) -> (r: Vec<Vec<u8>>)
        requires
            self.wf(),
        ensures
            byte_seqs(r@) == resolved(self@.streams, byte_seqs(keys@), byte_seqs(ids@)),
    {
        let mut r: Vec<Vec<u8>> = Vec::new();
        let mut i: usize = 0;
        let ghost ks = byte_seqs(keys@);
        let ghost is = byte_seqs(ids@);
        while i < ids.len()
            invariant
                self.wf(),
                i <= ids@.len(),
                ks == byte_seqs(keys@),
                is == byte_seqs(ids@),
                r@.len() == i,
                forall|j: int|
                    0 <= j < i ==> (#[trigger] r@[j])@ == resolved(self@.streams, ks, is)[j],
            decreases ids@.len() - i,
        {
            assert(is[i as int] == ids@[i as int]@);
            let id = ids[i].as_slice();
            let is_last = id.len() == 1 && id[0] == crate::text::DOLLAR;
            proof {
                if is_last {
                    assert(id@ =~= seq![crate::text::DOLLAR]);
                }
            }
            if is_last && i < keys.len() {
                assert(ks[i as int] == keys@[i as int]@);
                r.push(self.stream_store.last_id(keys[i].as_slice()).print());
            } else {
                r.push(copy_bytes(id));
            }
            i += 1;
        }
        assert(byte_seqs(r@) =~= resolved(self@.streams, ks, is));
        r
    }
}

impl Connection {
    /// A connection that has sent nothing yet.
    pub fn new(socket_addr: u64) -> (r: Connection)
        ensures
            r.socket_addr == socket_addr,
            r.stage == HandshakeStage::Normal,
    {
        Connection { socket_addr, stage: HandshakeStage::Normal }
    }

    /// Handles one command, which arrived in the bytes `raw`; see
    /// `executed` and `next_stage`.
    pub fn execute(
        &mut self,
        state: &mut SharedState,
        cmd: Command,
        raw: &[u8],
        config: &GlobalConfig,
        env: Env,
    ) -> (r: Reply)
        requires
            old(state).wf(),
        ensures
            final(state).wf(),
            executed(
                old(state)@,
                old(self).stage,
                old(self).socket_addr,
                cmd,
                raw@,
                config@,
                env,
                final(state)@,
                r.bytes@,
                r.action@,
            ),
            final(self).stage == next_stage(old(self).stage, cmd),
            final(self).socket_addr == old(self).socket_addr,
    {
        proof {
            reveal(outcome);
        }
        let addr = self.socket_addr;
        let stage = self.stage;
        self.stage = stage_after(stage, &cmd);
        let multi = state.is_in_multi(addr);
        let ghost pre = state@;
        match cmd {
            Command::Get(_) | Command::SetCmd(_) | Command::Incr(_) => {
                if multi {
                    state.enqueue(addr, cmd, raw);
                    Reply { bytes: reply_queued(), action: Action::Nothing }
                } else {
                    let bytes = state.apply(&cmd, raw, env.now);
                    Reply { bytes, action: Action::Nothing }
                }
            },
            Command::Ping(p) => {
                let bytes = match &p.value {
                    Some(m) => reply_simple(m.as_slice()),
                    None => reply_simple("PONG".as_bytes()),
                };
                Reply { bytes, action: Action::Nothing }
            },
            Command::Echo(e) => {
                let bytes = match &e.value {
                    Some(m) => reply_simple(m.as_slice()),
                    None => reply_error(
                        CommandError::WrongNumberOfArguments("echo").message().as_slice(),
                    ),
                };
                Reply { bytes, action: Action::Nothing }
            },
            Command::Multi(_) => {
                state.set_multi_lock(addr, true);
                Reply { bytes: reply_ok(), action: Action::Nothing }
            },
            Command::Discard(_) => {
                if multi {
                    let _ = state.take_queue(addr);
                    Reply { bytes: reply_ok(), action: Action::Nothing }
                } else {
                    Reply {
                        bytes: reply_error("ERR DISCARD without MULTI".as_bytes()),
                        action: Action::Nothing,
                    }
                }
            },
            Command::Exec(_) => {
                if multi {
                    let queue = state.take_queue(addr);
                    let mut bytes = reply_array_header(queue.len());
                    let replies = state.run_queue(queue, env.now);
                    append_bytes(&mut bytes, replies.as_slice());
                    Reply { bytes, action: Action::Nothing }
                } else {
                    Reply {
                        bytes: reply_error("ERR EXEC without MULTI".as_bytes()),
                        action: Action::Nothing,
                    }
                }
            },
            Command::Config(c) => {
                let bytes = match &c.sub_command {
                    SubCommand::Get(name) => match config.get_val(name.as_slice()) {
                        Some(v) => {
                            let mut pair: Vec<RespData> = Vec::new();
                            pair.push(RespData::BulkStr(copy_bytes(name.as_slice())));
                            pair.push(RespData::BulkStr(copy_bytes(v.as_slice())));
                            assert(views(pair@) =~= seq![
                                RespValue::BulkStr(name@),
                                RespValue::BulkStr(v@),
                            ]);
                            proof {
                                lemma_array_view(pair);
                            }
                            RespData::Array(pair).encode()
                        },
                        None => Vec::new(),
                    },
                };
                Reply { bytes, action: Action::Nothing }
            },
            Command::Save(_) => Reply { bytes: reply_ok(), action: Action::Save },
            Command::Keys(_) => {
                let keys = state.kv_store.key_list();
                let mut items: Vec<RespData> = Vec::new();
                let mut i: usize = 0;
                let ghost order = byte_seqs(keys@);
                while i < keys.len()
                    invariant
                        i <= keys@.len(),
                        order == byte_seqs(keys@),
                        items@.len() == i,
                        forall|j: int|
                            0 <= j < i ==> (#[trigger] items@[j])@ == RespValue::BulkStr(order[j]),
                    decreases keys@.len() - i,
                {
                    assert(order[i as int] == keys@[i as int]@);
                    items.push(RespData::BulkStr(copy_bytes(keys[i].as_slice())));
                    i += 1;
                }
                assert(views(items@) =~= Seq::new(
                    order.len(),
                    |i: int| RespValue::BulkStr(order[i]),
                ));
                proof {
                    lemma_array_view(items);
                    state.kv_store.lemma_bindings();
                    assert(lists_keys(pre.kv, order));
                }
                let bytes = RespData::Array(items).encode();
                assert(bytes@ == keys_reply(order));
                Reply { bytes, action: Action::Nothing }
            },
            Command::Info(_) => {
                let text = info_report(config);
                Reply { bytes: reply_bulk(text.as_slice()), action: Action::Nothing }
            },
            Command::Replconf(r) => {
                let ghost a = byte_seqs(r.args@);
                if r.args.len() >= 2 {
                    assert(a[0] == r.args@[0]@);
                    assert(a[1] == r.args@[1]@);
                    let sub = r.args[0].as_slice();
                    let value = r.args[1].as_slice();
                    if bytes_eq(sub, "capa".as_bytes()) && bytes_eq(value, "psync2".as_bytes()) {
                        return Reply { bytes: reply_ok(), action: Action::Nothing };
                    }
                    if bytes_eq(sub, "listening-port".as_bytes()) && parse_u16(value).is_some() {
                        return Reply { bytes: reply_ok(), action: Action::Nothing };
                    }
                    if bytes_eq(sub, "ack".as_bytes()) {
                        match parse_usize(value) {
                            Some(n) => {
                                state.update_peers_bytes_written(addr, n);
                                return Reply { bytes: Vec::new(), action: Action::Nothing };
                            },
                            None => {},
                        }
                    }
                }
                Reply { bytes: Vec::new(), action: Action::Nothing }
            },
            Command::Psync(p) => {
                if list_is(&p.args, "?", "-1") {
                    let bytes = full_resync_reply(config);
                    let promote = match stage {
                        HandshakeStage::SawCapa => true,
                        _ => false,
                    };
                    if promote {
                        state.insert_peer(addr, Peer::new(addr));
                        state.remove_client(addr);
                    }
                    Reply { bytes, action: Action::Nothing }
                } else {
                    Reply { bytes: Vec::new(), action: Action::Nothing }
                }
            },
            Command::Type(t) => {
                let found = state.kv_store_get(t.key.as_slice(), env.now);
                let bytes = if found.is_some() {
                    reply_simple("string".as_bytes())
                } else {
                    let stream = state.stream_store.check_key(t.key.as_slice());
                    proof {
                        if stream is Some {
                            let k = stream->0;
                            assert(crate::text::is_prefix(k@, t.key@) && pre.streams.contains_key(
                                k@,
                            ));
                        }
                    }
                    if stream.is_some() {
                        reply_simple("stream".as_bytes())
                    } else {
                        reply_simple("none".as_bytes())
                    }
                };
                Reply { bytes, action: Action::Nothing }
            },
            Command::Wait(w) => {
                if w.numreplicas == 0 {
                    Reply { bytes: reply_count(state.peers.len()), action: Action::Nothing }
                } else {
                    let msg = getack_request();
                    state.broadcast_peers(msg.as_slice());
                    Reply { bytes: Vec::new(), action: Action::Sleep { timeout: w.timeout } }
                }
            },
            Command::Xadd(x) => {
                let Xadd { key, entry_id, args } = x;
                match state.stream_store_insert(
                    key.as_slice(),
                    entry_id.as_slice(),
                    args,
                    env.wall_clock_ms,
                ) {
                    Ok(id) => Reply {
                        bytes: reply_bulk(id.print().as_slice()),
                        action: Action::Nothing,
                    },
                    Err(e) => Reply {
                        bytes: reply_error(e.message().as_slice()),
                        action: Action::Nothing,
                    },
                }
            },
            Command::Xrange(x) => {
                let bytes = match state.entries_after(
                    x.key.as_slice(),
                    x.start.as_slice(),
                    x.end.as_slice(),
                ) {
                    Some(d) => d.encode(),
                    None => reply_null(),
                };
                Reply { bytes, action: Action::Nothing }
            },
            Command::Xread(x) => {
                let items = state.xread_found(&x.keys, &x.entry_ids);
                if items.len() > 0 {
                    proof {
                        lemma_array_view(items);
                    }
                    Reply { bytes: RespData::Array(items).encode(), action: Action::Nothing }
                } else {
                    match x.block {
                        Some(timeout) => {
                            let entry_ids = state.resolve_ids(&x.keys, &x.entry_ids);
                            let keys = copy_list(&x.keys);
                            Reply {
                                bytes: Vec::new(),
                                action: Action::Block { keys, entry_ids, timeout },
                            }
                        },
                        None => Reply { bytes: reply_null(), action: Action::Nothing },
                    }
                }
            },
        }
    }
}

// ---------------------------------------------------------------------------
// A buffer of commands
// ---------------------------------------------------------------------------

/// What handling the value `value`, which arrived as `raw`, makes of the
/// state: the value is an array, its items parse to a command or to an
/// error, and the command is executed or the error is reported.
#[verifier::opaque]
pub open spec fn handled(
    pre: StateView,
    stage: HandshakeStage,
    addr: u64,
    value: RespValue,
    raw: Seq<u8>,
    cfg: Seq<(Seq<u8>, Seq<u8>)>,
    env: Env,
    post: StateView,
    stage_after: HandshakeStage,
    bytes: Seq<u8>,
    action: ActionView,
) -> bool {
    &&& value is Array
    &&& exists|parsed: Result<Command, CommandError>| #[trigger]
        crate::parse::command_parsed(value->Array_0, parsed) && match parsed {
            Ok(cmd) => executed(pre, stage, addr, cmd, raw, cfg, env, post, bytes, action)
                && stage_after == next_stage(stage, cmd),
            Err(e) => post == pre && bytes == error_line(e.text()) && action == ActionView::Nothing
                && stage_after == (if stage == HandshakeStage::Identified {
                HandshakeStage::Identified
            } else {
                HandshakeStage::Normal
            }),
        }
}

/// What the replies stand for.
pub open spec fn reply_views(replies: Seq<Reply>) -> Seq<(Seq<u8>, ActionView)> {
    Seq::new(replies.len(), |i: int| (replies[i].bytes@, replies[i].action@))
}

/// The values of the buffer `s` up to `pos` were handled one after the
/// other, each from the state that the one before it left, with these
/// replies; none but the last left anything to do; the state is now `post`.
pub open spec fn trace(
    pre: StateView,
    first_stage: HandshakeStage,
    addr: u64,
    s: Seq<u8>,
    cfg: Seq<(Seq<u8>, Seq<u8>)>,
    env: Env,
    replies: Seq<(Seq<u8>, ActionView)>,
    pos: int,
    post: StateView,
    stage: HandshakeStage,
) -> bool
    decreases replies.len(),
{
    if replies.len() == 0 {
        pos == 0 && post == pre && stage == first_stage
    } else {
        exists|mid: StateView, mid_stage: HandshakeStage, start: int|
            trace(pre, first_stage, addr, s, cfg, env, replies.drop_last(), start, mid, mid_stage)
                && (replies.len() >= 2 ==> replies[replies.len() - 2].1 == ActionView::Nothing)
                && 0 <= start < pos <= s.len() && decode_at(s, start) is Some && decode_at(
                s,
                start,
            ).unwrap().1 == pos && #[trigger] handled(
                mid,
                mid_stage,
                addr,
                decode_at(s, start).unwrap().0,
                s.subrange(start, pos),
                cfg,
                env,
                post,
                stage,
                replies.last().0,
                replies.last().1,
            )
    }
}

/// One more value handled makes a longer trace.
pub proof fn lemma_trace_step(
    pre: StateView,
    first_stage: HandshakeStage,
    addr: u64,
    s: Seq<u8>,
    cfg: Seq<(Seq<u8>, Seq<u8>)>,
    env: Env,
    replies: Seq<(Seq<u8>, ActionView)>,
    start: int,
    mid: StateView,
    mid_stage: HandshakeStage,
    end: int,
    post: StateView,
    stage: HandshakeStage,
    reply: (Seq<u8>, ActionView),
)
    requires
        trace(pre, first_stage, addr, s, cfg, env, replies, start, mid, mid_stage),
        replies.len() > 0 ==> replies.last().1 == ActionView::Nothing,
        0 <= start < end <= s.len(),
        decode_at(s, start) is Some,
        decode_at(s, start).unwrap().1 == end,
        handled(
            mid,
            mid_stage,
            addr,
            decode_at(s, start).unwrap().0,
            s.subrange(start, end),
            cfg,
            env,
            post,
            stage,
            reply.0,
            reply.1,
        ),
    ensures
        trace(pre, first_stage, addr, s, cfg, env, replies.push(reply), end, post, stage),
{
    let after = replies.push(reply);
    assert(after.drop_last() =~= replies);
    assert(after.last() == reply);
    if after.len() >= 2 {
        assert(after[after.len() - 2] == replies.last());
    }
    assert(trace(pre, first_stage, addr, s, cfg, env, after.drop_last(), start, mid, mid_stage));
}

/// What comes of a read that is accepted: the values of the buffer `s` up
/// to `consumed` were handled, as `trace` has it, and the rest of the
/// buffer is left over only where the last reply leaves something to do.
pub open spec fn read_through(
    pre: StateView,
    first_stage: HandshakeStage,
    addr: u64,
    s: Seq<u8>,
    cfg: Seq<(Seq<u8>, Seq<u8>)>,
    env: Env,
    replies: Seq<(Seq<u8>, ActionView)>,
    consumed: int,
    post: StateView,
    stage: HandshakeStage,
) -> bool {
    &&& trace(pre, first_stage, addr, s, cfg, env, replies, consumed, post, stage)
    &&& (consumed == s.len() || (replies.len() > 0 && replies.last().1 != ActionView::Nothing))
}

/// A buffer that holds arrays, one after another, and nothing else.
pub open spec fn well_framed(s: Seq<u8>) -> bool {
    decode_all(s, 0) matches Some(values) && forall|i: int|
        0 <= i < values.len() ==> (#[trigger] values[i]) is Array
}

/// The replies to the commands of a buffer, and how far the buffer was
/// handled.
#[derive(Debug, PartialEq)]
pub struct Processed {
    pub replies: Vec<Reply>,
    /// The number of bytes of the buffer that were handled. It is short of
    /// the buffer only where the last reply leaves something to do; the
    /// rest of the buffer is for after that.
    pub consumed: usize,
}

fn is_nothing(action: &Action) -> (r: bool)
    ensures
        r == (action@ == ActionView::Nothing),
{
    match action {
        Action::Nothing => true,
        _ => false,
    }
}

/// Handles one array of arguments, which arrived as `raw`; see `handled`.
fn handle_value(
    value: RespData,
    raw: &[u8],
    state: &mut SharedState,
    conn: &mut Connection,
    config: &GlobalConfig,
    env: Env,
) -> (r: Reply)
    requires
        old(state).wf(),
        value@ is Array,
    ensures
        final(state).wf(),
        final(conn).socket_addr == old(conn).socket_addr,
        handled(
            old(state)@,
            old(conn).stage,
            old(conn).socket_addr,
            value@,
            raw@,
            config@,
            env,
            final(state)@,
            final(conn).stage,
            r.bytes@,
            r.action@,
        ),
{
    proof {
        reveal(handled);
    }
    match value {
        RespData::Array(items) => {
            proof {
                lemma_array_view(items);
            }
            let parsed = crate::parse::parse_command(items);
            match parsed {
                Ok(cmd) => {
                    let reply = conn.execute(state, cmd, raw, config, env);
                    assert(crate::parse::command_parsed(value@->Array_0, parsed));
                    reply
                },
                Err(e) => {
                    let text = e.message();
                    let stage = conn.stage;
                    conn.stage = match stage {
                        HandshakeStage::Identified => HandshakeStage::Identified,
                        _ => HandshakeStage::Normal,
                    };
                    assert(crate::parse::command_parsed(value@->Array_0, parsed));
                    Reply { bytes: reply_error(text.as_slice()), action: Action::Nothing }
                },
            }
        },
        _ => Reply { bytes: Vec::new(), action: Action::Nothing },
    }
}

/// Handles the commands of a buffer, in order, until the buffer ends or a
/// command leaves something to do. A buffer that is not well framed is
/// `Invalid`, and nothing of it is handled.
pub fn process_socket_read(
    str_from_network: &[u8],
    state: &mut SharedState,
    conn: &mut Connection,
    config: &GlobalConfig,
    env: Env,
) -> (r: Result<Processed, RespError>)
    requires
        old(state).wf(),
    ensures
        final(state).wf(),
        final(conn).socket_addr == old(conn).socket_addr,
        r is Ok <==> well_framed(str_from_network@),
        match r {
            Ok(p) => read_through(
                old(state)@,
                old(conn).stage,
                old(conn).socket_addr,
                str_from_network@,
                config@,
                env,
                reply_views(p.replies@),
                p.consumed as int,
                final(state)@,
                final(conn).stage,
            ),
            Err(e) => e == RespError::Invalid && final(state)@ == old(state)@ && final(conn).stage
                == old(conn).stage,
        },
{
    let ghost s = str_from_network@;
    let mut frames = match RespData::parse_frames(str_from_network) {
        Ok(frames) => frames,
        Err(e) => {
            return Err(e);
        },
    };
    let ghost all = frames@;
    let mut i: usize = 0;
    while i < frames.len()
        invariant
            i <= frames@.len(),
            frames@ == all,
            state.wf(),
            state@ == old(state)@,
            *conn == *old(conn),
            decode_all(str_from_network@, 0) == Some(frame_values(all)),
            forall|j: int| 0 <= j < i ==> (#[trigger] all[j]).value@ is Array,
        decreases frames@.len() - i,
    {
        match &frames[i].value {
            RespData::Array(_) => {},
            _ => {
                assert(frame_values(all)[i as int] == all[i as int].value@);
                return Err(RespError::Invalid);
            },
        }
        i += 1;
    }
    assert(well_framed(s)) by {
        assert forall|j: int| 0 <= j < frame_values(all).len() implies (#[trigger] frame_values(
            all,
        )[j]) is Array by {
            assert(all[j].value@ is Array);
        }
    }
    let mut replies: Vec<Reply> = Vec::new();
    let mut pos: usize = 0;
    let ghost mut done: int = 0;
    assert(reply_views(replies@) =~= Seq::<(Seq<u8>, ActionView)>::empty());
    while frames.len() > 0
        invariant
            state.wf(),
            conn.socket_addr == old(conn).socket_addr,
            s == str_from_network@,
            0 <= done <= all.len(),
            frames@ == all.skip(done),
            tiles(s, all, 0),
            well_framed(s),
            forall|j: int| 0 <= j < all.len() ==> (#[trigger] all[j]).value@ is Array,
            pos == (if done == 0 {
                0
            } else {
                all[done - 1].end as int
            }),
            replies@.len() > 0 ==> replies@.last().action@ == ActionView::Nothing,
            trace(
                old(state)@,
                old(conn).stage,
                old(conn).socket_addr,
                s,
                config@,
                env,
                reply_views(replies@),
                pos as int,
                state@,
                conn.stage,
            ),
        decreases frames@.len(),
    {
        let frame = frames.pop_front().unwrap();
        assert(frame == all[done]);
        assert(frames@ =~= all.skip(done + 1));
        assert(frame.start == pos) by {
            if done > 0 {
                assert(all[done].start == all[done - 1].end);
            }
        }
        let ghost mid = state@;
        let ghost mid_stage = conn.stage;
        let ghost before = reply_views(replies@);
        let Frame { value, start, end } = frame;
        let ghost v = value@;
        let raw = copy_range(str_from_network, start, end);
        assert(raw@ == s.subrange(start as int, end as int));
        let reply = handle_value(value, raw.as_slice(), state, conn, config, env);
        let stop = !is_nothing(&reply.action);
        replies.push(reply);
        proof {
            let after = reply_views(replies@);
            assert(after =~= before.push((reply.bytes@, reply.action@)));
            assert(decode_at(s, start as int) == Some((v, end as int)));
            lemma_trace_step(
                old(state)@,
                old(conn).stage,
                conn.socket_addr,
                s,
                config@,
                env,
                before,
                start as int,
                mid,
                mid_stage,
                end as int,
                state@,
                conn.stage,
                (reply.bytes@, reply.action@),
            );
            done = done + 1;
        }
        pos = end;
        if stop {
            return Ok(Processed { replies, consumed: pos });
        }
    }
    proof {
        if all.len() > 0 {
            assert(frames@.len() == 0);
            assert(done == all.len());
        }
    }
    Ok(Processed { replies, consumed: pos })
}

impl SharedState {
    /// What `WAIT` answers once its time is up; see `wait_count`.
    pub fn wait_finish(&self) -> (r: Vec<u8>)
        ensures
            r@ == count(wait_count(self@.peers, getack_message().len() as usize)),
            wait_count(self@.peers, getack_message().len() as usize) <= self@.peers.len(),
    {
        proof {
            crate::database::lemma_counts_bound(
                self@.peers,
                getack_message().len() as usize,
                self@.peers.len(),
            );
        }
        let offset_len = getack_request().len();
        let n = if self.count_peers_commands_processed() == 0 {
            self.peers.len()
        } else {
            self.verify_peers_propagation(offset_len)
        };
        reply_count(n)
    }

    /// What a blocked `XREAD` answers after an entry was appended, or after
    /// its time is up: the entries where there are any by now, the null
    /// bulk string where the time is up, and nothing yet otherwise.
    pub fn xread_resume(&self, keys: &Vec<Vec<u8>>, entry_ids: &Vec<Vec<u8>>, timed_out: bool) -> (r:
        Option<Vec<u8>>)
        requires
            self.wf(),
        ensures
            ({
                let items = xread_items(
                    self@.streams,
                    byte_seqs(keys@),
                    byte_seqs(entry_ids@),
                    pairs(byte_seqs(keys@), byte_seqs(entry_ids@)),
                );
                match r {
                    Some(bytes) => if items.len() > 0 {
                        bytes@ == encode(RespValue::Array(items))
                    } else {
                        timed_out && bytes@ == null_bulk()
                    },
                    None => items.len() == 0 && !timed_out,
                }
            }),
    {
        let items = self.xread_found(keys, entry_ids);
        if items.len() > 0 {
            proof {
                lemma_array_view(items);
            }
            Some(RespData::Array(items).encode())
        } else if timed_out {
            Some(reply_null())
        } else {
            None
        }
    }
}

// ---------------------------------------------------------------------------
// Transactions
// ---------------------------------------------------------------------------

/// While a transaction is open, a read or a write of keys from its
/// connection changes neither the keys nor what the followers are sent: no
/// other connection can see it. It is answered `QUEUED`.
pub proof fn lemma_queued_write_is_invisible(
    pre: StateView,
    stage: HandshakeStage,
    addr: u64,
    cmd: Command,
    raw: Seq<u8>,
    cfg: Seq<(Seq<u8>, Seq<u8>)>,
    env: Env,
    post: StateView,
    bytes: Seq<u8>,
    action: ActionView,
)
    requires
        executed(pre, stage, addr, cmd, raw, cfg, env, post, bytes, action),
        in_multi(pre.clients, addr),
        cmd is SetCmd || cmd is Incr || cmd is Get,
    ensures
        post.kv == pre.kv,
        post.streams == pre.streams,
        post.peers == pre.peers,
        bytes == queued(),
        forall|k: Seq<u8>, t: u64| lookup(post.kv, k, t) == lookup(pre.kv, k, t),
{
}

/// `DISCARD` writes nothing: the keys and what the followers are sent stay
/// as they are, and the queue of the transaction is dropped.
pub proof fn lemma_discard_writes_nothing(
    pre: StateView,
    stage: HandshakeStage,
    addr: u64,
    cmd: Command,
    raw: Seq<u8>,
    cfg: Seq<(Seq<u8>, Seq<u8>)>,
    env: Env,
    post: StateView,
    bytes: Seq<u8>,
    action: ActionView,
)
    requires
        executed(pre, stage, addr, cmd, raw, cfg, env, post, bytes, action),
        cmd is Discard,
    ensures
        post.kv == pre.kv,
        post.streams == pre.streams,
        post.peers == pre.peers,
        !in_multi(post.clients, addr),
        in_multi(pre.clients, addr) ==> post.clients == closed_out(pre.clients, addr),
{
    reveal(outcome);
    if in_multi(pre.clients, addr) {
        assert forall|i: int| 0 <= i < post.clients.len() && (#[trigger] post.clients[i]).addr
            == addr implies !post.clients[i].multi_lock by {}
    } else {
        assert(post.clients == pre.clients);
    }
}

impl Connection {
    /// Takes what a read of the socket brought: `num_bytes_read` bytes, which
    /// begin `buffer`. A read of nothing ends the connection: cleanly
    /// (`None`) where the buffer is empty, with `Invalid` where it is not.
    /// Anything else is handled by `process_socket_read`.
    pub fn handle(
        &mut self,
        state: &mut SharedState,
        num_bytes_read: usize,
        buffer: &[u8],
        config: &GlobalConfig,
        env: Env,
    ) -> (r: Result<Option<Processed>, RespError>)
        requires
            old(state).wf(),
            num_bytes_read <= buffer@.len(),
        ensures
            final(state).wf(),
            final(self).socket_addr == old(self).socket_addr,
            num_bytes_read == 0 ==> {
                &&& final(state)@ == old(state)@
                &&& final(self).stage == old(self).stage
                &&& if buffer@.len() == 0 {
                    r matches Ok(None)
                } else {
                    r == Err::<Option<Processed>, RespError>(RespError::Invalid)
                }
            },
            num_bytes_read > 0 ==> {
                let read = buffer@.subrange(0, num_bytes_read as int);
                &&& r is Ok <==> well_framed(read)
                &&& match r {
                    Ok(Some(p)) => read_through(
                        old(state)@,
                        old(self).stage,
                        old(self).socket_addr,
                        read,
                        config@,
                        env,
                        reply_views(p.replies@),
                        p.consumed as int,
                        final(state)@,
                        final(self).stage,
                    ),
                    Ok(None) => false,
                    Err(e) => {
                        &&& e == RespError::Invalid
                        &&& final(state)@ == old(state)@
                        &&& final(self).stage == old(self).stage
                    },
                }
            },
    {
        if num_bytes_read == 0 {
            if buffer.len() == 0 {
                Ok(None)
            } else {
                Err(RespError::Invalid)
            }
        } else {
            let read = vstd::slice::slice_subrange(buffer, 0, num_bytes_read);
            match process_socket_read(read, state, self, config, env) {
                Ok(p) => Ok(Some(p)),
                Err(e) => Err(e),
            }
        }
    }
}

// ---------------------------------------------------------------------------
// Writes, reads and their order
// ---------------------------------------------------------------------------

/// A value that was set with a time to live is read back while less than
/// that time has passed, and is absent once more has.
pub proof fn lemma_set_then_get(
    kv: Map<Seq<u8>, KvValue>,
    set: Command,
    get: Command,
    ttl: u64,
    now: u64,
    later: u64,
)
    requires
        set is SetCmd,
        get is Get,
        set->SetCmd_0.expiry == Some(ttl),
        get->Get_0.key@ == set->SetCmd_0.key@,
        now <= later,
    ensures
        later - now < ttl ==> applied_reply(get, applied_kv(set, kv, now), later) == bulk(
            set->SetCmd_0.value@,
        ),
        later - now > ttl ==> applied_reply(get, applied_kv(set, kv, now), later) == null_bulk(),
{
}

/// A value that was set without a time to live is read back at any time.
pub proof fn lemma_set_then_get_for_ever(
    kv: Map<Seq<u8>, KvValue>,
    set: Command,
    get: Command,
    now: u64,
    later: u64,
)
    requires
        set is SetCmd,
        get is Get,
        set->SetCmd_0.expiry is None,
        get->Get_0.key@ == set->SetCmd_0.key@,
    ensures
        applied_reply(get, applied_kv(set, kv, now), later) == bulk(set->SetCmd_0.value@),
{
}

/// Two writes that are applied one after the other reach every follower in
/// that order: their bytes stand next to each other at the end of its
/// queue, behind all that waited there.
pub proof fn lemma_writes_reach_followers_in_order(
    peers: Seq<PeerView>,
    first: Command,
    first_raw: Seq<u8>,
    second: Command,
    second_raw: Seq<u8>,
)
    requires
        first is SetCmd || first is Incr,
        second is SetCmd || second is Incr,
    ensures
        applied_peers(second, second_raw, applied_peers(first, first_raw, peers)).len()
            == peers.len(),
        forall|i: int|
            0 <= i < peers.len() ==> (#[trigger] applied_peers(
                second,
                second_raw,
                applied_peers(first, first_raw, peers),
            )[i]).sender == peers[i].sender + seq![first_raw, second_raw],
{
    crate::database::lemma_broadcast_order(peers, first_raw, second_raw);
}

} // verus!
