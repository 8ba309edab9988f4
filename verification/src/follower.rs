//! The follower's side of replication: how it introduces itself to the
//! leader, and what it does with the commands that the leader sends.

use crate::cmds::{Command, CommandError};
use crate::database::kv::{deadline, KvValue};
use crate::database::{wrap_add, SharedState};
use crate::parse::{command_parsed, parse_command};
use crate::resp::{
    command_bytes, command_encoding, decode_at, lemma_array_view, tiles, Frame, RespData,
    RespError, RespValue,
};
use crate::text::{
    byte_seqs, bytes_eq, contains, contains_seq, copy_bytes, dec_digits, lower_seq, nat_value,
    parse_usize, to_ascii_lowercase, u128_to_dec, CR, DOLLAR, LF,
};
use vstd::prelude::*;
use vstd::slice::slice_subrange;
use vstd::string::StringSliceAdditionalSpecFns;

verus! {

// ---------------------------------------------------------------------------
// Reaching the leader
// ---------------------------------------------------------------------------

/// The longest pause between two attempts to reach the leader, in seconds.
pub const BACKOFF_CAP: u64 = 64;

/// What to do after an attempt to reach the leader failed.
#[derive(Debug, Clone, Copy, PartialEq, Eq, Structural)]
pub enum Retry {
    /// Pause for `seconds`, then try again; after the next failure the
    /// pause is `next`.
    After { seconds: u64, next: u64 },
    /// Give up.
    GiveUp,
}

/// The pauses start at one second and double; once a pause would exceed the
/// cap, the follower gives up.
pub open spec fn retry_after(backoff: u64) -> Retry {
    if backoff > BACKOFF_CAP {
        Retry::GiveUp
    } else {
        Retry::After { seconds: backoff, next: (backoff * 2) as u64 }
    }
}

/// What to do after an attempt failed, where the pause now stands at
/// `backoff` seconds; see `retry_after`.
pub fn follower_connect(backoff: u64) -> (r: Retry)
    ensures
        r == retry_after(backoff),
{
    if backoff > BACKOFF_CAP {
        Retry::GiveUp
    } else {
        Retry::After { seconds: backoff, next: backoff * 2 }
    }
}

// ---------------------------------------------------------------------------
// The handshake
// ---------------------------------------------------------------------------

/// Where the handshake stands: what was sent last, or what is awaited.
#[derive(Debug, Clone, Copy, PartialEq, Eq, Structural)]
pub enum HandshakeState {
    SentPing,
    SentPort,
    SentCapa,
    SentPsync,
    /// The line that frames the snapshot is awaited.
    AwaitLength,
    /// The snapshot, of `len` bytes, is awaited.
    AwaitSnapshot { len: usize },
    Done,
    Failed,
}

/// What the follower reads next.
#[derive(Debug, Clone, Copy, PartialEq, Eq, Structural)]
pub enum Expect {
    /// Whatever arrives next.
    Reply,
    /// That many bytes, no more and no fewer.
    Exactly(usize),
    /// Bytes up to a line feed, which is the last of them.
    Line,
    /// Nothing: the handshake is over.
    Nothing,
}

/// The number of bytes of the line that announces a full
/// resynchronisation.
pub const FULLRESYNC_LEN: usize = 56;

/// `PING`.
pub open spec fn ping_message() -> Seq<u8> {
    command_encoding(seq!["PING".spec_bytes()])
}

/// `REPLCONF listening-port <port>`.
pub open spec fn port_message(port: u16) -> Seq<u8> {
    command_encoding(
        seq!["REPLCONF".spec_bytes(), "listening-port".spec_bytes(), dec_digits(port as nat)],
    )
}

/// `REPLCONF capa psync2`.
pub open spec fn capa_message() -> Seq<u8> {
    command_encoding(seq!["REPLCONF".spec_bytes(), "capa".spec_bytes(), "psync2".spec_bytes()])
}

/// `PSYNC ? -1`.
pub open spec fn psync_message() -> Seq<u8> {
    command_encoding(seq!["PSYNC".spec_bytes(), "?".spec_bytes(), "-1".spec_bytes()])
}

/// The length that the line `$<len>\r\n` announces.
pub open spec fn announced_length(line: Seq<u8>) -> Option<usize> {
    if line.len() >= 3 && line[0] == DOLLAR && line[line.len() - 2] == CR && line[line.len() - 1]
        == LF {
        match nat_value(line.subrange(1, line.len() - 2)) {
            Some(n) if n <= usize::MAX => Some(n as usize),
            _ => None,
        }
    } else {
        None
    }
}

/// Whether a snapshot begins with the magic string.
pub open spec fn has_magic(snapshot: Seq<u8>) -> bool {
    snapshot.len() >= 5 && snapshot.subrange(0, 5) == "REDIS".spec_bytes()
}

/// The next step of the handshake once `input` has arrived: the state, what
/// to send, and what to read.
///
/// `PING` must be answered with `+PONG`, the two `REPLCONF` with `+OK`, and
/// `PSYNC` with a line that names a full resynchronisation; then comes the
/// line that frames the snapshot, and the snapshot, which must begin with
/// the magic string. Anything else fails the handshake.
pub open spec fn handshake_next(state: HandshakeState, port: u16, input: Seq<u8>) -> (
    HandshakeState,
    Seq<u8>,
    Expect,
) {
    let failed = (HandshakeState::Failed, Seq::<u8>::empty(), Expect::Nothing);
    match state {
        HandshakeState::SentPing => if contains_seq(input, "+PONG\r\n".spec_bytes()) {
            (HandshakeState::SentPort, port_message(port), Expect::Reply)
        } else {
            failed
        },
        HandshakeState::SentPort => if contains_seq(input, "+OK\r\n".spec_bytes()) {
            (HandshakeState::SentCapa, capa_message(), Expect::Reply)
        } else {
            failed
        },
        HandshakeState::SentCapa => if contains_seq(input, "+OK\r\n".spec_bytes()) {
            (HandshakeState::SentPsync, psync_message(), Expect::Exactly(FULLRESYNC_LEN))
        } else {
            failed
        },
        HandshakeState::SentPsync => if contains_seq(lower_seq(input), "fullresync".spec_bytes()) {
            (HandshakeState::AwaitLength, Seq::<u8>::empty(), Expect::Line)
        } else {
            failed
        },
        HandshakeState::AwaitLength => match announced_length(input) {
            Some(len) => (
                HandshakeState::AwaitSnapshot { len },
                Seq::<u8>::empty(),
                Expect::Exactly(len),
            ),
            None => failed,
        },
        HandshakeState::AwaitSnapshot { len } => if input.len() == len && has_magic(input) {
            (HandshakeState::Done, Seq::<u8>::empty(), Expect::Nothing)
        } else {
            failed
        },
        HandshakeState::Done => (HandshakeState::Done, Seq::<u8>::empty(), Expect::Nothing),
        HandshakeState::Failed => failed,
    }
}

/// One step of the handshake: what to send and what to read next.
#[derive(Debug, PartialEq)]
pub struct HandshakeStep {
    pub send: Vec<u8>,
    pub expect: Expect,
}

/// The handshake of a follower that listens on `port`.
#[derive(Debug)]
pub struct Handshake {
    pub state: HandshakeState,
    pub port: u16,
}

fn words3(a: &str, b: &str, c: Vec<u8>) -> (r: Vec<Vec<u8>>)
    ensures
        byte_seqs(r@) == seq![a.spec_bytes(), b.spec_bytes(), c@],
{
    let mut words: Vec<Vec<u8>> = Vec::new();
    words.push(copy_bytes(a.as_bytes()));
    words.push(copy_bytes(b.as_bytes()));
    words.push(c);
    assert(byte_seqs(words@) =~= seq![a.spec_bytes(), b.spec_bytes(), c@]);
    words
}

fn read_announced_length(line: &[u8]) -> (r: Option<usize>)
    ensures
        r == announced_length(line@),
{
    let n = line.len();
    if n >= 3 && line[0] == DOLLAR && line[n - 2] == CR && line[n - 1] == LF {
        parse_usize(slice_subrange(line, 1, n - 2))
    } else {
        None
    }
}

fn check_magic(snapshot: &[u8]) -> (r: bool)
    ensures
        r == has_magic(snapshot@),
{
    if snapshot.len() < 5 {
        return false;
    }
    bytes_eq(slice_subrange(snapshot, 0, 5), "REDIS".as_bytes())
}

impl Handshake {
    /// Starts the handshake: `PING` is to be sent, and its answer read.
    pub fn follower_handshake(port: u16) -> (r: (Handshake, HandshakeStep))
        ensures
            r.0.state == HandshakeState::SentPing,
            r.0.port == port,
            r.1.send@ == ping_message(),
            r.1.expect == Expect::Reply,
    {
        let mut words: Vec<Vec<u8>> = Vec::new();
        words.push(copy_bytes("PING".as_bytes()));
        assert(byte_seqs(words@) =~= seq!["PING".spec_bytes()]);
        (
            Handshake { state: HandshakeState::SentPing, port },
            HandshakeStep { send: command_bytes(&words), expect: Expect::Reply },
        )
    }

    /// Takes what the leader sent and says how the handshake goes on; see
    /// `handshake_next`.
    pub fn advance(&mut self, input: &[u8]) -> (r: HandshakeStep)
        ensures
            final(self).port == old(self).port,
            (final(self).state, r.send@, r.expect) == handshake_next(
                old(self).state,
                old(self).port,
                input@,
            ),
    {
        let state = self.state;
        let mut send: Vec<u8> = Vec::new();
        let mut expect = Expect::Nothing;
        self.state = HandshakeState::Failed;
        match state {
            HandshakeState::SentPing => {
                if contains(input, "+PONG\r\n".as_bytes()) {
                    self.state = HandshakeState::SentPort;
                    send = command_bytes(
                        &words3("REPLCONF", "listening-port", u128_to_dec(self.port as u128)),
                    );
                    expect = Expect::Reply;
                }
            },
            HandshakeState::SentPort => {
                if contains(input, "+OK\r\n".as_bytes()) {
                    self.state = HandshakeState::SentCapa;
                    send = command_bytes(
                        &words3("REPLCONF", "capa", copy_bytes("psync2".as_bytes())),
                    );
                    expect = Expect::Reply;
                }
            },
            HandshakeState::SentCapa => {
                if contains(input, "+OK\r\n".as_bytes()) {
                    self.state = HandshakeState::SentPsync;
                    send = command_bytes(&words3("PSYNC", "?", copy_bytes("-1".as_bytes())));
                    expect = Expect::Exactly(FULLRESYNC_LEN);
                }
            },
            HandshakeState::SentPsync => {
                let folded = to_ascii_lowercase(input);
                if contains(folded.as_slice(), "fullresync".as_bytes()) {
                    self.state = HandshakeState::AwaitLength;
                    expect = Expect::Line;
                }
            },
            HandshakeState::AwaitLength => {
                match read_announced_length(input) {
                    Some(len) => {
                        self.state = HandshakeState::AwaitSnapshot { len };
                        expect = Expect::Exactly(len);
                    },
                    None => {},
                }
            },
            HandshakeState::AwaitSnapshot { len } => {
                if input.len() == len && check_magic(input) {
                    self.state = HandshakeState::Done;
                }
            },
            HandshakeState::Done => {
                self.state = HandshakeState::Done;
            },
            HandshakeState::Failed => {},
        }
        HandshakeStep { send, expect }
    }
}

// ---------------------------------------------------------------------------
// The commands of the leader
// ---------------------------------------------------------------------------

/// The answer to a request for an acknowledgement: `REPLCONF ACK <offset>`.
pub open spec fn ack_message(offset: usize) -> Seq<u8> {
    command_encoding(seq!["REPLCONF".spec_bytes(), "ACK".spec_bytes(), dec_digits(offset as nat)])
}

/// Whether a command asks for an acknowledgement: `REPLCONF GETACK *`.
pub open spec fn asks_ack(cmd: Command) -> bool {
    cmd matches Command::Replconf(r) && byte_seqs(r.args@) == seq![
        "getack".spec_bytes(),
        "*".spec_bytes(),
    ]
}

/// What a command of the leader makes of the follower's keys: `SET` binds
/// its key; nothing else changes them.
pub open spec fn followed_kv(kv: Map<Seq<u8>, KvValue>, cmd: Command, now: u64) -> Map<
    Seq<u8>,
    KvValue,
> {
    match cmd {
        Command::SetCmd(s) => kv.insert(
            s.key@,
            KvValue { value: s.value@, expires_at: deadline(now, s.expiry) },
        ),
        _ => kv,
    }
}

/// What handling one value of the leader, `len` bytes long, makes of the
/// follower: the keys, the count of bytes received, and the reply. The count
/// grows by `len` whatever the value holds; a request for an acknowledgement
/// is answered with the count as it stood before; nothing else is answered.
#[verifier::opaque]
pub open spec fn followed(
    kv: Map<Seq<u8>, KvValue>,
    offset: usize,
    value: RespValue,
    len: usize,
    now: u64,
    kv_after: Map<Seq<u8>, KvValue>,
    offset_after: usize,
    reply: Seq<u8>,
) -> bool {
    &&& value is Array
    &&& offset_after == wrap_add(offset, len)
    &&& exists|parsed: Result<Command, CommandError>| #[trigger]
        command_parsed(value->Array_0, parsed) && match parsed {
            Ok(cmd) => kv_after == followed_kv(kv, cmd, now) && reply == (if asks_ack(cmd) {
                ack_message(offset)
            } else {
                Seq::<u8>::empty()
            }),
            Err(_) => kv_after == kv && reply == Seq::<u8>::empty(),
        }
}

/// The values of the buffer `s` up to `pos` were handled one after the
/// other, with these replies.
pub open spec fn follow_trace(
    kv: Map<Seq<u8>, KvValue>,
    offset: usize,
    s: Seq<u8>,
    now: u64,
    replies: Seq<Seq<u8>>,
    pos: int,
    kv_after: Map<Seq<u8>, KvValue>,
    offset_after: usize,
) -> bool
    decreases replies.len(),
{
    if replies.len() == 0 {
        pos == 0 && kv_after == kv && offset_after == offset
    } else {
        exists|mid: Map<Seq<u8>, KvValue>, mid_offset: usize, start: int|
            follow_trace(kv, offset, s, now, replies.drop_last(), start, mid, mid_offset) && 0
                <= start < pos <= s.len() && decode_at(s, start) is Some && decode_at(
                s,
                start,
            ).unwrap().1 == pos && #[trigger] followed(
                mid,
                mid_offset,
                decode_at(s, start).unwrap().0,
                (pos - start) as usize,
                now,
                kv_after,
                offset_after,
                replies.last(),
            )
    }
}

/// One more value handled makes a longer trace.
pub proof fn lemma_follow_step(
    kv: Map<Seq<u8>, KvValue>,
    offset: usize,
    s: Seq<u8>,
    now: u64,
    replies: Seq<Seq<u8>>,
    start: int,
    mid: Map<Seq<u8>, KvValue>,
    mid_offset: usize,
    end: int,
    kv_after: Map<Seq<u8>, KvValue>,
    offset_after: usize,
    reply: Seq<u8>,
)
    requires
        follow_trace(kv, offset, s, now, replies, start, mid, mid_offset),
        0 <= start < end <= s.len(),
        decode_at(s, start) is Some,
        decode_at(s, start).unwrap().1 == end,
        followed(
            mid,
            mid_offset,
            decode_at(s, start).unwrap().0,
            (end - start) as usize,
            now,
            kv_after,
            offset_after,
            reply,
        ),
    ensures
        follow_trace(kv, offset, s, now, replies.push(reply), end, kv_after, offset_after),
{
    let after = replies.push(reply);
    assert(after.drop_last() =~= replies);
    assert(after.last() == reply);
}

/// Why there is no follower.
#[derive(Debug, Clone, Copy, PartialEq, Eq, Structural)]
pub enum FollowerError {
    /// No port to listen on.
    MissingPort,
    /// No leader to follow.
    MissingLeader,
}

/// A follower: where it listens, whom it follows, and how many bytes of
/// commands it has received from the leader.
#[derive(Debug)]
pub struct Follower {
    pub bind_address: Vec<u8>,
    pub listening_port: u16,
    pub leader_addr: Vec<u8>,
    /// The bytes of commands received from the leader; the count wraps.
    pub bytes_received: usize,
}

impl Follower {
    /// A follower that listens on `bind_address`, or on `127.0.0.1` where
    /// none is given. There is none without a port to listen on, and none
    /// without a leader to follow.
    pub fn new(bind_address: Option<Vec<u8>>, listening_port: Option<u16>, leader_addr: Option<
        Vec<u8>,
    >) -> (r: Result<Follower, FollowerError>)
        ensures
            match (listening_port, leader_addr) {
                (None, _) => r == Err::<Follower, FollowerError>(FollowerError::MissingPort),
                (Some(_), None) => r == Err::<Follower, FollowerError>(
                    FollowerError::MissingLeader,
                ),
                (Some(port), Some(leader)) => {
                    &&& r matches Ok(f)
                    &&& f.bind_address@ == (match bind_address {
                        Some(a) => a@,
                        None => "127.0.0.1".spec_bytes(),
                    })
                    &&& f.listening_port == port
                    &&& f.leader_addr@ == leader@
                    &&& f.bytes_received == 0
                },
            },
    {
        let listening_port = match listening_port {
            Some(p) => p,
            None => {
                return Err(FollowerError::MissingPort);
            },
        };
        let leader_addr = match leader_addr {
            Some(a) => a,
            None => {
                return Err(FollowerError::MissingLeader);
            },
        };
        let bind_address = match bind_address {
            Some(a) => a,
            None => copy_bytes("127.0.0.1".as_bytes()),
        };
        Ok(Follower { bind_address, listening_port, leader_addr, bytes_received: 0 })
    }

    /// Counts `len` more bytes as received; hands back the count as it stood
    /// before.
    pub fn calculate_bytes(&mut self, len: usize) -> (r: usize)
        ensures
            r == old(self).bytes_received,
            final(self).bytes_received == wrap_add(old(self).bytes_received, len),
            final(self).bind_address == old(self).bind_address,
            final(self).listening_port == old(self).listening_port,
            final(self).leader_addr == old(self).leader_addr,
    {
        let before = self.bytes_received;
        self.bytes_received = if len > usize::MAX - before {
            len - (usize::MAX - before) - 1
        } else {
            before + len
        };
        before
    }

    /// Handles one value that the leader sent, `len` bytes long; see
    /// `followed`.
    fn apply(&mut self, state: &mut SharedState, value: RespData, len: usize, now: u64) -> (r:
        Vec<u8>)
        requires
            old(state).wf(),
            value@ is Array,
        ensures
            final(state).wf(),
            followed(
                old(state)@.kv,
                old(self).bytes_received,
                value@,
                len,
                now,
                final(state)@.kv,
                final(self).bytes_received,
                r@,
            ),
            final(state)@.streams == old(state)@.streams,
            final(state)@.peers == old(state)@.peers,
            final(state)@.clients == old(state)@.clients,
            final(self).bind_address == old(self).bind_address,
            final(self).listening_port == old(self).listening_port,
            final(self).leader_addr == old(self).leader_addr,
    {
        proof {
            reveal(followed);
        }
        let offset = self.calculate_bytes(len);
        match value {
            RespData::Array(items) => {
                proof {
                    lemma_array_view(items);
                }
                let parsed = parse_command(items);
                assert(command_parsed(value@->Array_0, parsed));
                match parsed {
                    Ok(Command::SetCmd(s)) => {
                        let ghost cmd = Command::SetCmd(s);
                        state.kv_store_insert(
                            copy_bytes(s.key.as_slice()),
                            copy_bytes(s.value.as_slice()),
                            s.expiry,
                            now,
                        );
                        assert(!asks_ack(cmd));
                        Vec::new()
                    },
                    Ok(Command::Replconf(r)) => {
                        let ghost a = byte_seqs(r.args@);
                        let asks = r.args.len() == 2 && bytes_eq(
                            r.args[0].as_slice(),
                            "getack".as_bytes(),
                        ) && bytes_eq(r.args[1].as_slice(), "*".as_bytes());
                        proof {
                            if r.args@.len() == 2 {
                                assert(a[0] == r.args@[0]@);
                                assert(a[1] == r.args@[1]@);
                                if asks {
                                    assert(a =~= seq!["getack".spec_bytes(), "*".spec_bytes()]);
                                }
                            } else {
                                assert(seq!["getack".spec_bytes(), "*".spec_bytes()].len() == 2);
                            }
                        }
                        if asks {
                            command_bytes(&words3("REPLCONF", "ACK", u128_to_dec(offset as u128)))
                        } else {
                            Vec::new()
                        }
                    },
                    Ok(_) => Vec::new(),
                    Err(_) => Vec::new(),
                }
            },
            _ => Vec::new(),
        }
    }

    /// Handles the commands of a buffer that the leader sent, in order, and
    /// hands back the replies, one for each command; most are empty. A
    /// buffer that is not well framed is `Invalid`, and nothing of it is
    /// handled.
    pub fn follower_thread(&mut self, state: &mut SharedState, received: &[u8], now: u64) -> (r:
        Result<Vec<Vec<u8>>, RespError>)
        requires
            old(state).wf(),
        ensures
            final(state).wf(),
            r is Ok <==> crate::connection::well_framed(received@),
            match r {
                Ok(replies) => follow_trace(
                    old(state)@.kv,
                    old(self).bytes_received,
                    received@,
                    now,
                    byte_seqs(replies@),
                    received@.len() as int,
                    final(state)@.kv,
                    final(self).bytes_received,
                ),
                Err(e) => {
                    &&& e == RespError::Invalid
                    &&& final(state)@ == old(state)@
                    &&& final(self).bytes_received == old(self).bytes_received
                },
            },
            final(state)@.streams == old(state)@.streams,
            final(state)@.peers == old(state)@.peers,
            final(state)@.clients == old(state)@.clients,
            final(self).bind_address == old(self).bind_address,
            final(self).listening_port == old(self).listening_port,
            final(self).leader_addr == old(self).leader_addr,
    {
        let ghost s = received@;
        let mut frames = match RespData::parse_frames(received) {
            Ok(frames) => frames,
            Err(e) => {
                return Err(e);
            },
        };
        let ghost all = frames@;
        let mut i: usize = 0;
        while i < frames.len()
            invariant
                i <= frames@.len(),
                frames@ == all,
                state.wf(),
                state@ == old(state)@,
                *self == *old(self),
                crate::resp::decode_all(received@, 0) == Some(crate::resp::frame_values(all)),
                forall|j: int| 0 <= j < i ==> (#[trigger] all[j]).value@ is Array,
            decreases frames@.len() - i,
        {
            match &frames[i].value {
                RespData::Array(_) => {},
                _ => {
                    assert(crate::resp::frame_values(all)[i as int] == all[i as int].value@);
                    return Err(RespError::Invalid);
                },
            }
            i += 1;
        }
        assert(crate::connection::well_framed(s)) by {
            assert forall|j: int| 0 <= j < crate::resp::frame_values(all).len() implies (
            #[trigger] crate::resp::frame_values(all)[j]) is Array by {
                assert(all[j].value@ is Array);
            }
        }
        let mut replies: Vec<Vec<u8>> = Vec::new();
        let mut pos: usize = 0;
        let ghost mut done: int = 0;
        assert(byte_seqs(replies@) =~= Seq::<Seq<u8>>::empty());
        while frames.len() > 0
            invariant
                state.wf(),
                s == received@,
                0 <= done <= all.len(),
                frames@ == all.skip(done),
                tiles(s, all, 0),
                crate::connection::well_framed(s),
                forall|j: int| 0 <= j < all.len() ==> (#[trigger] all[j]).value@ is Array,
                pos == (if done == 0 {
                    0
                } else {
                    all[done - 1].end as int
                }),
                follow_trace(
                    old(state)@.kv,
                    old(self).bytes_received,
                    s,
                    now,
                    byte_seqs(replies@),
                    pos as int,
                    state@.kv,
                    self.bytes_received,
                ),
                state@.streams == old(state)@.streams,
                state@.peers == old(state)@.peers,
                state@.clients == old(state)@.clients,
                self.bind_address == old(self).bind_address,
                self.listening_port == old(self).listening_port,
                self.leader_addr == old(self).leader_addr,
            decreases frames@.len(),
        {
            let frame = frames.pop_front().unwrap();
            assert(frame == all[done]);
            assert(frames@ =~= all.skip(done + 1));
            assert(frame.start == pos) by {
                if done > 0 {
                    assert(all[done].start == all[done - 1].end);
                }
            }
            let ghost mid = state@.kv;
            let ghost mid_offset = self.bytes_received;
            let ghost before = byte_seqs(replies@);
            let Frame { value, start, end } = frame;
            let ghost v = value@;
            let reply = self.apply(state, value, end - start, now);
            replies.push(reply);
            proof {
                assert(byte_seqs(replies@) =~= before.push(reply@));
                assert(decode_at(s, start as int) == Some((v, end as int)));
                lemma_follow_step(
                    old(state)@.kv,
                    old(self).bytes_received,
                    s,
                    now,
                    before,
                    start as int,
                    mid,
                    mid_offset,
                    end as int,
                    state@.kv,
                    self.bytes_received,
                    reply@,
                );
                done = done + 1;
            }
            pos = end;
        }
        Ok(replies)
    }
}

} // verus!
