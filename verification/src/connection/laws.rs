//! What holds of a read of the socket that brings one command.

use crate::cmds::{Command, CommandError, Discard, Exec};
use crate::connection::{
    closed_out, executed, full_resync, getack_message, handled, in_multi, next_stage, outcome,
    queue_of, read_through, trace, well_framed, with_peer, without_client, ActionView, Env,
    HandshakeStage,
};
use crate::database::{
    broadcast, has_peer, lemma_counts_bound, wait_count, PeerView, Queued, StateView,
};
use crate::global::config_value;
use crate::parse::{all_text, command_parsed, texts_of, texts_parsed};
use crate::rdb::empty_snapshot;
use crate::reply::{count, error_line, ok, simple};
use crate::resp::{
    bulk_values, command_encoding, decode_at, encode, lemma_decode_at_advances,
    lemma_decode_encode, lemma_round_trip, RespValue,
};
use crate::text::{byte_seqs, crlf, dec_digits, lower_seq, nat_value, DOLLAR};
use vstd::prelude::*;
use vstd::string::StringSliceAdditionalSpecFns;

verus! {

/// One read of the socket of a connection, and what came of it: the state
/// and the stage of the connection before it, the buffer, the items of the
/// array that the buffer holds, the clocks, the replies, how far the buffer
/// was handled, and the state and the stage after it.
pub struct OneRead {
    pub pre: StateView,
    pub first_stage: HandshakeStage,
    pub s: Seq<u8>,
    pub items: Seq<RespValue>,
    pub env: Env,
    pub replies: Seq<(Seq<u8>, ActionView)>,
    pub consumed: int,
    pub post: StateView,
    pub stage: HandshakeStage,
}

/// The buffer of `r` holds the array of `r.items` and nothing else, and
/// `process_socket_read`, called for the connection `addr` under the
/// configuration `cfg`, accepted it with what `r` holds.
pub open spec fn one_read(r: OneRead, addr: u64, cfg: Seq<(Seq<u8>, Seq<u8>)>) -> bool {
    &&& decode_at(r.s, 0) == Some((RespValue::Array(r.items), r.s.len() as int))
    &&& read_through(
        r.pre,
        r.first_stage,
        addr,
        r.s,
        cfg,
        r.env,
        r.replies,
        r.consumed,
        r.post,
        r.stage,
    )
}

/// The items are texts, and they read `words`.
pub open spec fn spells(items: Seq<RespValue>, words: Seq<Seq<u8>>) -> bool {
    all_text(items) && texts_of(items) == words
}

/// `text` reads `word`, in whatever case.
pub open spec fn is_word(text: Seq<u8>, word: &str) -> bool {
    lower_seq(text) == word.spec_bytes()
}

/// The words of a command, sent as `command_encoding` writes them, are read
/// as the array of these words, to the end of the buffer: a read of these
/// bytes is accepted.
pub proof fn lemma_command_on_the_wire(words: Seq<Seq<u8>>)
    ensures
        decode_at(command_encoding(words), 0) == Some(
            (RespValue::Array(bulk_values(words)), command_encoding(words).len() as int),
        ),
        spells(bulk_values(words), words),
        well_framed(command_encoding(words)),
{
    assert(texts_of(bulk_values(words)) =~= words);
    let v = RespValue::Array(bulk_values(words));
    let s = command_encoding(words);
    assert forall|i: int| 0 <= i < bulk_values(words).len() implies crate::resp::wf(
        #[trigger] bulk_values(words)[i],
    ) by {}
    assert(crate::resp::wf(v));
    assert(s.subrange(0, s.len() as int) =~= encode(v));
    lemma_decode_encode(s, 0, v);
    lemma_round_trip(v);
}

/// A trace with a reply ends behind the first value of the buffer, and
/// one with two replies or more ends past it.
proof fn lemma_trace_reach(
    pre: StateView,
    first_stage: HandshakeStage,
    addr: u64,
    s: Seq<u8>,
    cfg: Seq<(Seq<u8>, Seq<u8>)>,
    env: Env,
    replies: Seq<(Seq<u8>, ActionView)>,
    pos: int,
    post: StateView,
    stage: HandshakeStage,
)
    requires
        trace(pre, first_stage, addr, s, cfg, env, replies, pos, post, stage),
        replies.len() > 0,
    ensures
        decode_at(s, 0) is Some,
        pos <= s.len(),
        replies.len() == 1 ==> pos == decode_at(s, 0).unwrap().1 && handled(
            pre,
            first_stage,
            addr,
            decode_at(s, 0).unwrap().0,
            s.subrange(0, pos),
            cfg,
            env,
            post,
            stage,
            replies[0].0,
            replies[0].1,
        ),
        replies.len() >= 2 ==> pos > decode_at(s, 0).unwrap().1,
    decreases replies.len(),
{
    let (mid, mid_stage, start): (StateView, HandshakeStage, int) = choose|
        mid: StateView,
        mid_stage: HandshakeStage,
        start: int,
    |
        trace(pre, first_stage, addr, s, cfg, env, replies.drop_last(), start, mid, mid_stage)
            && 0 <= start < pos <= s.len() && decode_at(s, start) is Some && decode_at(
            s,
            start,
        ).unwrap().1 == pos && #[trigger] handled(
            mid,
            mid_stage,
            addr,
            decode_at(s, start).unwrap().0,
            s.subrange(start, pos),
            cfg,
            env,
            post,
            stage,
            replies.last().0,
            replies.last().1,
        );
    if replies.len() >= 2 {
        lemma_trace_reach(
            pre,
            first_stage,
            addr,
            s,
            cfg,
            env,
            replies.drop_last(),
            start,
            mid,
            mid_stage,
        );
    }
}

/// A read of a buffer that holds one array and nothing else handles that
/// array, with one reply, to the end of the buffer: its items parse to a
/// command that is executed, or to an error that leaves the state as it
/// is.
pub proof fn lemma_one_read(r: OneRead, addr: u64, cfg: Seq<(Seq<u8>, Seq<u8>)>) -> (parsed: Result<
    Command,
    CommandError,
>)
    requires
        one_read(r, addr, cfg),
    ensures
        r.replies.len() == 1,
        r.consumed == r.s.len(),
        command_parsed(r.items, parsed),
        match parsed {
            Ok(cmd) => executed(
                r.pre,
                r.first_stage,
                addr,
                cmd,
                r.s,
                cfg,
                r.env,
                r.post,
                r.replies[0].0,
                r.replies[0].1,
            ) && r.stage == next_stage(r.first_stage, cmd),
            Err(e) => r.post == r.pre && r.replies[0] == (error_line(e.text()), ActionView::Nothing),
        },
{
    lemma_decode_at_advances(r.s, 0);
    if r.replies.len() > 0 {
        lemma_trace_reach(
            r.pre,
            r.first_stage,
            addr,
            r.s,
            cfg,
            r.env,
            r.replies,
            r.consumed,
            r.post,
            r.stage,
        );
        assert(r.s.subrange(0, r.s.len() as int) =~= r.s);
    }
    reveal(handled);
    let bytes = r.replies[0].0;
    let action = r.replies[0].1;
    choose|parsed: Result<Command, CommandError>| #[trigger]
        command_parsed(r.items, parsed) && match parsed {
            Ok(cmd) => executed(r.pre, r.first_stage, addr, cmd, r.s, cfg, r.env, r.post, bytes, action)
                && r.stage == next_stage(r.first_stage, cmd),
            Err(e) => r.post == r.pre && bytes == error_line(e.text()) && action
                == ActionView::Nothing && r.stage == (if r.first_stage
                == HandshakeStage::Identified {
                HandshakeStage::Identified
            } else {
                HandshakeStage::Normal
            }),
        }
}

/// What `read` brought, where it spells the words of a command whose name
/// is `name`: the result of the parse of these words.
proof fn lemma_read_words(
    r: OneRead,
    addr: u64,
    cfg: Seq<(Seq<u8>, Seq<u8>)>,
    words: Seq<Seq<u8>>,
    name: &str,
) -> (parsed: Result<Command, CommandError>)
    requires
        one_read(r, addr, cfg),
        spells(r.items, words),
        words.len() > 0,
        is_word(words[0], name),
        crate::parse::known(name.spec_bytes()),
    ensures
        r.replies.len() == 1,
        r.consumed == r.s.len(),
        texts_parsed(words, parsed),
        match parsed {
            Ok(cmd) => executed(
                r.pre,
                r.first_stage,
                addr,
                cmd,
                r.s,
                cfg,
                r.env,
                r.post,
                r.replies[0].0,
                r.replies[0].1,
            ) && r.stage == next_stage(r.first_stage, cmd),
            Err(e) => r.post == r.pre && r.replies[0] == (error_line(e.text()), ActionView::Nothing),
        },
{
    let parsed = lemma_one_read(r, addr, cfg);
    assert(crate::parse::text_of(r.items[0]) is Some);
    assert(texts_of(r.items)[0] == crate::parse::text_of(r.items[0]).unwrap());
    parsed
}

/// The names of the commands, as far as it takes to tell them apart.
proof fn lemma_names()
    ensures
        "set".spec_bytes().len() == 3,
        "get".spec_bytes().len() == 3,
        "incr".spec_bytes().len() == 4 && "incr".spec_bytes()[0] == 105,
        "ping".spec_bytes().len() == 4 && "ping".spec_bytes()[0] == 112,
        "echo".spec_bytes().len() == 4 && "echo".spec_bytes()[0] == 101 && "echo".spec_bytes()[1]
            == 99,
        "exec".spec_bytes().len() == 4 && "exec".spec_bytes()[0] == 101 && "exec".spec_bytes()[1]
            == 120,
        "multi".spec_bytes().len() == 5 && "multi".spec_bytes()[0] == 109,
        "discard".spec_bytes().len() == 7,
        "config".spec_bytes().len() == 6,
        "keys".spec_bytes().len() == 4 && "keys".spec_bytes()[0] == 107,
        "info".spec_bytes().len() == 4 && "info".spec_bytes()[0] == 105,
        "save".spec_bytes().len() == 4 && "save".spec_bytes()[0] == 115,
        "replconf".spec_bytes().len() == 8,
        "psync".spec_bytes().len() == 5 && "psync".spec_bytes()[0] == 112,
        "type".spec_bytes().len() == 4 && "type".spec_bytes()[0] == 116,
        "wait".spec_bytes().len() == 4 && "wait".spec_bytes()[0] == 119,
        "listening-port".spec_bytes().len() == 14,
        "capa".spec_bytes().len() == 4 && "capa".spec_bytes()[0] == 99,
        "getack".spec_bytes().len() == 6,
        "ack".spec_bytes().len() == 3,
{
    reveal_strlit("set");
    reveal_strlit("get");
    reveal_strlit("incr");
    reveal_strlit("ping");
    reveal_strlit("echo");
    reveal_strlit("exec");
    reveal_strlit("multi");
    reveal_strlit("discard");
    reveal_strlit("config");
    reveal_strlit("keys");
    reveal_strlit("info");
    reveal_strlit("save");
    reveal_strlit("replconf");
    reveal_strlit("psync");
    reveal_strlit("type");
    reveal_strlit("wait");
    reveal_strlit("listening-port");
    reveal_strlit("capa");
    reveal_strlit("getack");
    reveal_strlit("ack");
    vstd::string::is_ascii_spec_bytes("set");
    vstd::string::is_ascii_spec_bytes("get");
    vstd::string::is_ascii_spec_bytes("incr");
    vstd::string::is_ascii_spec_bytes("ping");
    vstd::string::is_ascii_spec_bytes("echo");
    vstd::string::is_ascii_spec_bytes("exec");
    vstd::string::is_ascii_spec_bytes("multi");
    vstd::string::is_ascii_spec_bytes("discard");
    vstd::string::is_ascii_spec_bytes("config");
    vstd::string::is_ascii_spec_bytes("keys");
    vstd::string::is_ascii_spec_bytes("info");
    vstd::string::is_ascii_spec_bytes("save");
    vstd::string::is_ascii_spec_bytes("replconf");
    vstd::string::is_ascii_spec_bytes("psync");
    vstd::string::is_ascii_spec_bytes("type");
    vstd::string::is_ascii_spec_bytes("wait");
    vstd::string::is_ascii_spec_bytes("listening-port");
    vstd::string::is_ascii_spec_bytes("capa");
    vstd::string::is_ascii_spec_bytes("getack");
    vstd::string::is_ascii_spec_bytes("ack");
}

// ---------------------------------------------------------------------------
// Transactions
// ---------------------------------------------------------------------------

/// `DISCARD`, read from the socket, in every state: the keys, the streams
/// and what the followers are sent stay as they are, whatever the queue
/// held, and the connection has no transaction open afterwards. Where it
/// had one, the answer is `OK`, the transaction is closed and its queue is
/// empty; where it had none, the answer is an error and nothing changes.
pub proof fn lemma_discard_read(r: OneRead, addr: u64, cfg: Seq<(Seq<u8>, Seq<u8>)>, name: Seq<u8>)
    requires
        one_read(r, addr, cfg),
        spells(r.items, seq![name]),
        is_word(name, "discard"),
    ensures
        r.consumed == r.s.len(),
        r.post.kv == r.pre.kv,
        r.post.streams == r.pre.streams,
        r.post.peers == r.pre.peers,
        !in_multi(r.post.clients, addr),
        in_multi(r.pre.clients, addr) ==> {
            &&& r.replies == seq![(ok(), ActionView::Nothing)]
            &&& r.post.clients == closed_out(r.pre.clients, addr)
            &&& queue_of(r.post.clients, addr) == Seq::<Queued>::empty()
        },
        !in_multi(r.pre.clients, addr) ==> {
            &&& r.replies == seq![
                (error_line("ERR DISCARD without MULTI".spec_bytes()), ActionView::Nothing),
            ]
            &&& r.post == r.pre
        },
{
    lemma_names();
    let parsed = lemma_read_words(r, addr, cfg, seq![name], "discard");
    assert(parsed == Ok::<Command, CommandError>(Command::Discard(Discard)));
    reveal(outcome);
    if in_multi(r.pre.clients, addr) {
        assert(r.replies =~= seq![(ok(), ActionView::Nothing)]);
        assert forall|i: int| 0 <= i < r.post.clients.len() && (#[trigger] r.post.clients[i]).addr
            == addr implies !r.post.clients[i].multi_lock by {}
    } else {
        assert(r.replies =~= seq![
            (error_line("ERR DISCARD without MULTI".spec_bytes()), ActionView::Nothing),
        ]);
    }
}

/// `EXEC`, read from the socket of a connection without a transaction
/// open, is answered with an error, and nothing changes.
pub proof fn lemma_exec_without_multi_read(
    r: OneRead,
    addr: u64,
    cfg: Seq<(Seq<u8>, Seq<u8>)>,
    name: Seq<u8>,
)
    requires
        one_read(r, addr, cfg),
        spells(r.items, seq![name]),
        is_word(name, "exec"),
        !in_multi(r.pre.clients, addr),
    ensures
        r.replies == seq![
            (error_line("ERR EXEC without MULTI".spec_bytes()), ActionView::Nothing),
        ],
        r.consumed == r.s.len(),
        r.post == r.pre,
{
    lemma_names();
    let parsed = lemma_read_words(r, addr, cfg, seq![name], "exec");
    assert(parsed == Ok::<Command, CommandError>(Command::Exec(Exec)));
    reveal(outcome);
    assert(r.replies =~= seq![
        (error_line("ERR EXEC without MULTI".spec_bytes()), ActionView::Nothing),
    ]);
}

/// After a `DISCARD`, an `EXEC` on the same connection finds no
/// transaction: it is answered with the error, and the keys, the streams
/// and what the followers are sent are what they were before the
/// `DISCARD`. Nothing of what the transaction held was applied.
pub proof fn lemma_discard_then_exec(
    discard: OneRead,
    exec: OneRead,
    addr: u64,
    cfg: Seq<(Seq<u8>, Seq<u8>)>,
    discard_name: Seq<u8>,
    exec_name: Seq<u8>,
)
    requires
        one_read(discard, addr, cfg),
        spells(discard.items, seq![discard_name]),
        is_word(discard_name, "discard"),
        one_read(exec, addr, cfg),
        spells(exec.items, seq![exec_name]),
        is_word(exec_name, "exec"),
        exec.pre == discard.post,
    ensures
        exec.replies == seq![
            (error_line("ERR EXEC without MULTI".spec_bytes()), ActionView::Nothing),
        ],
        exec.post == discard.post,
        exec.post.kv == discard.pre.kv,
        exec.post.streams == discard.pre.streams,
        exec.post.peers == discard.pre.peers,
{
    lemma_discard_read(discard, addr, cfg, discard_name);
    lemma_exec_without_multi_read(exec, addr, cfg, exec_name);
}

// ---------------------------------------------------------------------------
// Waiting for the followers
// ---------------------------------------------------------------------------

/// `WAIT <numreplicas> <timeout>`, read from the socket. For no followers
/// asked, the answer is the number of followers, at once, and nothing is
/// sent. For one or more, every follower is sent the request for an
/// acknowledgement, once, behind what waits for it; nothing is answered
/// yet, and what is left to do is to sleep for the time given, after which
/// `wait_finish` answers `wait_count`, which never exceeds the number of
/// followers. The keys, the streams and the clients stay as they are.
pub proof fn lemma_wait_read(
    r: OneRead,
    addr: u64,
    cfg: Seq<(Seq<u8>, Seq<u8>)>,
    name: Seq<u8>,
    numreplicas: Seq<u8>,
    timeout: Seq<u8>,
)
    requires
        one_read(r, addr, cfg),
        spells(r.items, seq![name, numreplicas, timeout]),
        is_word(name, "wait"),
        nat_value(numreplicas) matches Some(n) && n <= u64::MAX,
        nat_value(timeout) matches Some(t) && t <= u64::MAX,
    ensures
        r.consumed == r.s.len(),
        r.post.kv == r.pre.kv,
        r.post.streams == r.pre.streams,
        r.post.clients == r.pre.clients,
        nat_value(numreplicas) == Some(0nat) ==> r.post.peers == r.pre.peers && r.replies == seq![
            (count(r.pre.peers.len()), ActionView::Nothing),
        ],
        nat_value(numreplicas) != Some(0nat) ==> {
            &&& r.replies == seq![
                (
                    Seq::<u8>::empty(),
                    ActionView::Sleep { timeout: nat_value(timeout).unwrap() as u64 },
                ),
            ]
            &&& r.post.peers == broadcast(r.pre.peers, getack_message())
            &&& r.post.peers.len() == r.pre.peers.len()
            &&& forall|i: int|
                0 <= i < r.pre.peers.len() ==> (#[trigger] r.post.peers[i]).sender
                    == r.pre.peers[i].sender.push(getack_message())
            &&& wait_count(r.post.peers, getack_message().len() as usize) <= r.pre.peers.len()
        },
{
    lemma_names();
    let words = seq![name, numreplicas, timeout];
    let parsed = lemma_read_words(r, addr, cfg, words, "wait");
    assert(words[1] == numreplicas && words[2] == timeout);
    assert(parsed matches Ok(Command::Wait(w)) && w.numreplicas == nat_value(numreplicas).unwrap()
        && w.timeout == nat_value(timeout).unwrap());
    reveal(outcome);
    if nat_value(numreplicas) == Some(0nat) {
        assert(r.replies =~= seq![(count(r.pre.peers.len()), ActionView::Nothing)]);
    } else {
        assert(r.replies =~= seq![
            (
                Seq::<u8>::empty(),
                ActionView::Sleep { timeout: nat_value(timeout).unwrap() as u64 },
            ),
        ]);
        lemma_counts_bound(r.post.peers, getack_message().len() as usize, r.post.peers.len());
    }
}

// ---------------------------------------------------------------------------
// A follower introduces itself
// ---------------------------------------------------------------------------

/// The stage of a connection after a step of the introduction: a follower
/// stays one; a connection that was due for the step has made it; and any
/// other starts over.
pub open spec fn stepped(first_stage: HandshakeStage, due: HandshakeStage, next: HandshakeStage)
    -> HandshakeStage {
    if first_stage == HandshakeStage::Identified {
        HandshakeStage::Identified
    } else if first_stage == due {
        next
    } else {
        HandshakeStage::Normal
    }
}

/// `PING` without a message, read from the socket, is answered `PONG` and
/// changes nothing; a connection that is no follower has then made the
/// first step of the introduction.
pub proof fn lemma_ping_read(r: OneRead, addr: u64, cfg: Seq<(Seq<u8>, Seq<u8>)>, name: Seq<u8>)
    requires
        one_read(r, addr, cfg),
        spells(r.items, seq![name]),
        is_word(name, "ping"),
    ensures
        r.replies == seq![(simple("PONG".spec_bytes()), ActionView::Nothing)],
        r.consumed == r.s.len(),
        r.post == r.pre,
        r.stage == (if r.first_stage == HandshakeStage::Identified {
            HandshakeStage::Identified
        } else {
            HandshakeStage::SawPing
        }),
{
    lemma_names();
    let parsed = lemma_read_words(r, addr, cfg, seq![name], "ping");
    assert(parsed matches Ok(Command::Ping(p)) && p.value is None);
    reveal(outcome);
    assert(r.replies =~= seq![(simple("PONG".spec_bytes()), ActionView::Nothing)]);
}

/// `REPLCONF listening-port <port>`, read from the socket, is answered `OK`
/// and changes nothing; it is the second step of the introduction where
/// `PING` came before it.
pub proof fn lemma_port_read(
    r: OneRead,
    addr: u64,
    cfg: Seq<(Seq<u8>, Seq<u8>)>,
    name: Seq<u8>,
    sub: Seq<u8>,
    port: Seq<u8>,
)
    requires
        one_read(r, addr, cfg),
        spells(r.items, seq![name, sub, port]),
        is_word(name, "replconf"),
        is_word(sub, "listening-port"),
        nat_value(port) matches Some(p) && p <= u16::MAX,
    ensures
        r.replies == seq![(ok(), ActionView::Nothing)],
        r.consumed == r.s.len(),
        r.post == r.pre,
        r.stage == stepped(r.first_stage, HandshakeStage::SawPing, HandshakeStage::SawPort),
{
    lemma_names();
    let words = seq![name, sub, port];
    let parsed = lemma_read_words(r, addr, cfg, words, "replconf");
    assert(words[1] == sub && words[2] == port);
    assert(crate::text::i64_value(port) is Some);
    assert(parsed matches Ok(Command::Replconf(c)) && byte_seqs(c.args@) == seq![
        "listening-port".spec_bytes(),
        port,
    ]);
    let a = byte_seqs(parsed->Ok_0->Replconf_0.args@);
    assert(a.len() == 2 && a[0] == "listening-port".spec_bytes() && a[1] == port);
    reveal(outcome);
    assert(r.replies =~= seq![(ok(), ActionView::Nothing)]);
}

/// `REPLCONF capa psync2`, read from the socket, is answered `OK` and
/// changes nothing; it is the third step of the introduction where the
/// port came before it.
pub proof fn lemma_capa_read(
    r: OneRead,
    addr: u64,
    cfg: Seq<(Seq<u8>, Seq<u8>)>,
    name: Seq<u8>,
    sub: Seq<u8>,
)
    requires
        one_read(r, addr, cfg),
        spells(r.items, seq![name, sub, "psync2".spec_bytes()]),
        is_word(name, "replconf"),
        is_word(sub, "capa"),
    ensures
        r.replies == seq![(ok(), ActionView::Nothing)],
        r.consumed == r.s.len(),
        r.post == r.pre,
        r.stage == stepped(r.first_stage, HandshakeStage::SawPort, HandshakeStage::SawCapa),
{
    lemma_names();
    let words = seq![name, sub, "psync2".spec_bytes()];
    let parsed = lemma_read_words(r, addr, cfg, words, "replconf");
    assert(words[1] == sub && words[2] == "psync2".spec_bytes());
    assert(parsed matches Ok(Command::Replconf(c)) && byte_seqs(c.args@) == seq![
        "capa".spec_bytes(),
        "psync2".spec_bytes(),
    ]);
    let a = byte_seqs(parsed->Ok_0->Replconf_0.args@);
    assert(a.len() == 2 && a[0] == "capa".spec_bytes() && a[1] == "psync2".spec_bytes());
    reveal(outcome);
    assert(r.replies =~= seq![(ok(), ActionView::Nothing)]);
}

/// The record of a follower that has just introduced itself: nothing
/// waits for it, nothing was sent to it, and it acknowledged nothing.
pub open spec fn new_peer(addr: u64) -> PeerView {
    PeerView {
        addr,
        sender: Seq::<Seq<u8>>::empty(),
        bytes_sent: 0,
        bytes_written: 0,
        commands_processed: Seq::<Seq<u8>>::empty(),
    }
}

/// `PSYNC ? -1`, read from the socket, is answered with the full
/// resynchronisation under every configuration, and the keys and the
/// streams stay as they are. Where the three steps of the introduction came
/// before it, the connection is a follower from now on: it has a record
/// among the followers, a new one unless it had one, and none among the
/// clients. Otherwise nothing changes.
pub proof fn lemma_psync_read(r: OneRead, addr: u64, cfg: Seq<(Seq<u8>, Seq<u8>)>, name: Seq<u8>)
    requires
        one_read(r, addr, cfg),
        spells(r.items, seq![name, "?".spec_bytes(), "-1".spec_bytes()]),
        is_word(name, "psync"),
    ensures
        r.replies == seq![(full_resync(cfg), ActionView::Nothing)],
        r.consumed == r.s.len(),
        r.post.kv == r.pre.kv,
        r.post.streams == r.pre.streams,
        r.stage == stepped(r.first_stage, HandshakeStage::SawCapa, HandshakeStage::Identified),
        r.first_stage == HandshakeStage::SawCapa ==> {
            &&& r.post.peers == with_peer(r.pre.peers, addr)
            &&& r.post.clients == without_client(r.pre.clients, addr)
            &&& has_peer(r.post.peers, addr)
            &&& !has_peer(r.pre.peers, addr) ==> r.post.peers == r.pre.peers.push(new_peer(addr))
        },
        r.first_stage != HandshakeStage::SawCapa ==> r.post == r.pre,
{
    lemma_names();
    let words = seq![name, "?".spec_bytes(), "-1".spec_bytes()];
    let parsed = lemma_read_words(r, addr, cfg, words, "psync");
    assert(words.skip(1) =~= seq!["?".spec_bytes(), "-1".spec_bytes()]);
    assert(parsed matches Ok(Command::Psync(c)) && byte_seqs(c.args@) == seq![
        "?".spec_bytes(),
        "-1".spec_bytes(),
    ]);
    reveal(outcome);
    assert(r.replies =~= seq![(full_resync(cfg), ActionView::Nothing)]);
    if r.first_stage == HandshakeStage::SawCapa {
        if !has_peer(r.pre.peers, addr) {
            let last = r.pre.peers.len() as int;
            assert(r.post.peers[last].addr == addr);
        }
    }
}

/// The full resynchronisation on the wire, for a configuration that holds
/// the replication id `id`: the line `+FULLRESYNC <id> 0`, then `$`, the
/// length of the empty snapshot and a line end, then the 88 bytes of the
/// empty snapshot, which begin `REDIS`, and no line end behind them.
pub proof fn lemma_full_resync_bytes(cfg: Seq<(Seq<u8>, Seq<u8>)>, id: Seq<u8>)
    requires
        config_value(cfg, "master_replid".spec_bytes()) == Some(id),
    ensures
        full_resync(cfg) == simple("FULLRESYNC ".spec_bytes() + id + " 0".spec_bytes()) + seq![
            DOLLAR,
        ] + dec_digits(88) + crlf() + empty_snapshot(),
        empty_snapshot().len() == 88,
        empty_snapshot().subrange(0, 5) == "REDIS".spec_bytes(),
{
    reveal_strlit("REDIS");
    vstd::string::is_ascii_spec_bytes("REDIS");
    assert(empty_snapshot().subrange(0, 5) =~= "REDIS".spec_bytes());
}

/// The introduction of a follower, read by read: `PING`, `REPLCONF
/// listening-port <port>`, `REPLCONF capa psync2` and `PSYNC ? -1`, in
/// that order on one connection that was no follower, with nothing else
/// from it in between. They are answered `PONG`, `OK`, `OK` and the full
/// resynchronisation; the first three change nothing; and with the fourth
/// the connection becomes a follower.
pub proof fn lemma_follower_is_introduced(
    ping: OneRead,
    port: OneRead,
    capa: OneRead,
    psync: OneRead,
    addr: u64,
    cfg: Seq<(Seq<u8>, Seq<u8>)>,
    port_text: Seq<u8>,
)
    requires
        one_read(ping, addr, cfg),
        spells(ping.items, seq!["PING".spec_bytes()]),
        ping.first_stage != HandshakeStage::Identified,
        one_read(port, addr, cfg),
        spells(
            port.items,
            seq!["REPLCONF".spec_bytes(), "listening-port".spec_bytes(), port_text],
        ),
        nat_value(port_text) matches Some(p) && p <= u16::MAX,
        port.first_stage == ping.stage,
        one_read(capa, addr, cfg),
        spells(
            capa.items,
            seq!["REPLCONF".spec_bytes(), "capa".spec_bytes(), "psync2".spec_bytes()],
        ),
        capa.first_stage == port.stage,
        one_read(psync, addr, cfg),
        spells(psync.items, seq!["PSYNC".spec_bytes(), "?".spec_bytes(), "-1".spec_bytes()]),
        psync.first_stage == capa.stage,
    ensures
        ping.replies == seq![(simple("PONG".spec_bytes()), ActionView::Nothing)],
        port.replies == seq![(ok(), ActionView::Nothing)],
        capa.replies == seq![(ok(), ActionView::Nothing)],
        psync.replies == seq![(full_resync(cfg), ActionView::Nothing)],
        ping.post == ping.pre,
        port.post == port.pre,
        capa.post == capa.pre,
        psync.stage == HandshakeStage::Identified,
        psync.post.kv == psync.pre.kv,
        psync.post.streams == psync.pre.streams,
        psync.post.peers == with_peer(psync.pre.peers, addr),
        psync.post.clients == without_client(psync.pre.clients, addr),
        has_peer(psync.post.peers, addr),
        !has_peer(psync.pre.peers, addr) ==> psync.post.peers == psync.pre.peers.push(
            new_peer(addr),
        ),
{
    lemma_capital_names();
    lemma_ping_read(ping, addr, cfg, "PING".spec_bytes());
    lemma_port_read(
        port,
        addr,
        cfg,
        "REPLCONF".spec_bytes(),
        "listening-port".spec_bytes(),
        port_text,
    );
    lemma_capa_read(capa, addr, cfg, "REPLCONF".spec_bytes(), "capa".spec_bytes());
    lemma_psync_read(psync, addr, cfg, "PSYNC".spec_bytes());
}

/// The names of these commands in capital letters read as the names.
pub proof fn lemma_capital_names()
    ensures
        is_word("PING".spec_bytes(), "ping"),
        is_word("REPLCONF".spec_bytes(), "replconf"),
        is_word("PSYNC".spec_bytes(), "psync"),
        is_word("DISCARD".spec_bytes(), "discard"),
        is_word("EXEC".spec_bytes(), "exec"),
        is_word("WAIT".spec_bytes(), "wait"),
        is_word("listening-port".spec_bytes(), "listening-port"),
        is_word("capa".spec_bytes(), "capa"),
{
    reveal_strlit("PING");
    reveal_strlit("ping");
    reveal_strlit("REPLCONF");
    reveal_strlit("replconf");
    reveal_strlit("PSYNC");
    reveal_strlit("psync");
    reveal_strlit("DISCARD");
    reveal_strlit("discard");
    reveal_strlit("EXEC");
    reveal_strlit("exec");
    reveal_strlit("WAIT");
    reveal_strlit("wait");
    reveal_strlit("listening-port");
    reveal_strlit("capa");
    vstd::string::is_ascii_spec_bytes("PING");
    vstd::string::is_ascii_spec_bytes("ping");
    vstd::string::is_ascii_spec_bytes("REPLCONF");
    vstd::string::is_ascii_spec_bytes("replconf");
    vstd::string::is_ascii_spec_bytes("PSYNC");
    vstd::string::is_ascii_spec_bytes("psync");
    vstd::string::is_ascii_spec_bytes("DISCARD");
    vstd::string::is_ascii_spec_bytes("discard");
    vstd::string::is_ascii_spec_bytes("EXEC");
    vstd::string::is_ascii_spec_bytes("exec");
    vstd::string::is_ascii_spec_bytes("WAIT");
    vstd::string::is_ascii_spec_bytes("wait");
    vstd::string::is_ascii_spec_bytes("listening-port");
    vstd::string::is_ascii_spec_bytes("capa");
    assert(lower_seq("PING".spec_bytes()) =~= "ping".spec_bytes());
    assert(lower_seq("REPLCONF".spec_bytes()) =~= "replconf".spec_bytes());
    assert(lower_seq("PSYNC".spec_bytes()) =~= "psync".spec_bytes());
    assert(lower_seq("DISCARD".spec_bytes()) =~= "discard".spec_bytes());
    assert(lower_seq("EXEC".spec_bytes()) =~= "exec".spec_bytes());
    assert(lower_seq("WAIT".spec_bytes()) =~= "wait".spec_bytes());
    assert(lower_seq("listening-port".spec_bytes()) =~= "listening-port".spec_bytes());
    assert(lower_seq("capa".spec_bytes()) =~= "capa".spec_bytes());
}

} // verus!
