//! The state that all connections share: the two stores, the clients and the
//! followers.

pub mod kv;
pub mod stream;

pub use kv::{prune_database, ExpiringHashMap, ExpiringHashMapIterator, KeyValueStore};
pub use stream::{RadixTreeStore, StreamEntry};

use crate::cmds::Command;
use crate::text::{byte_seqs, contains, contains_seq, copy_bytes, lower_seq, to_ascii_lowercase};
use kv::{after_get, deadline, lookup, KvValue};
use std::collections::VecDeque;
use stream::{entries_of, last_of, new_id, EntryID, EntryView, StreamError};
use vstd::prelude::*;
use vstd::string::StringSliceAdditionalSpecFns;

verus! {

/// How many of the last writes a follower's record keeps.
pub const RECENT_WRITES: usize = 10;

/// A follower, as the leader sees it.
pub struct Peer {
    /// The connection of the follower.
    pub addr: u64,
    /// The messages that wait to be sent, the oldest first.
    pub sender: VecDeque<Vec<u8>>,
    /// The bytes handed to `sender` so far; the count wraps.
    pub bytes_sent: usize,
    /// The offset that the follower acknowledged last.
    pub bytes_written: usize,
    /// The last writes handed to `sender`, the oldest first.
    pub commands_processed: VecDeque<Vec<u8>>,
}

/// What a `Peer` stands for.
pub struct PeerView {
    pub addr: u64,
    pub sender: Seq<Seq<u8>>,
    pub bytes_sent: usize,
    pub bytes_written: usize,
    pub commands_processed: Seq<Seq<u8>>,
}

impl View for Peer {
    type V = PeerView;

    open spec fn view(&self) -> PeerView {
        PeerView {
            addr: self.addr,
            sender: byte_seqs(self.sender@),
            bytes_sent: self.bytes_sent,
            bytes_written: self.bytes_written,
            commands_processed: byte_seqs(self.commands_processed@),
        }
    }
}

impl Peer {
    /// The record of a follower that nothing was sent to yet.
    pub fn new(addr: u64) -> (r: Peer)
        ensures
            r@ == (PeerView {
                addr,
                sender: Seq::<Seq<u8>>::empty(),
                bytes_sent: 0,
                bytes_written: 0,
                commands_processed: Seq::<Seq<u8>>::empty(),
            }),
    {
        let r = Peer {
            addr,
            sender: VecDeque::new(),
            bytes_sent: 0,
            bytes_written: 0,
            commands_processed: VecDeque::new(),
        };
        assert(byte_seqs(r.sender@) =~= Seq::<Seq<u8>>::empty());
        assert(byte_seqs(r.commands_processed@) =~= Seq::<Seq<u8>>::empty());
        r
    }
}

/// A command that waits in a transaction, with the bytes it arrived in.
pub struct Queued {
    pub command: Command,
    pub raw: Vec<u8>,
}

/// A client connection.
pub struct Client {
    pub addr: u64,
    /// Whether a transaction is open.
    pub multi_lock: bool,
    /// The commands of the open transaction, the oldest first.
    pub multi_queue: VecDeque<Queued>,
}

/// What a `Client` stands for.
pub struct ClientView {
    pub addr: u64,
    pub multi_lock: bool,
    pub multi_queue: Seq<Queued>,
}

impl View for Client {
    type V = ClientView;

    open spec fn view(&self) -> ClientView {
        ClientView { addr: self.addr, multi_lock: self.multi_lock, multi_queue: self.multi_queue@ }
    }
}

impl Client {
    /// The record of a client without a transaction.
    pub fn new(addr: u64) -> (r: Client)
        ensures
            r@ == (ClientView { addr, multi_lock: false, multi_queue: Seq::<Queued>::empty() }),
    {
        Client { addr, multi_lock: false, multi_queue: VecDeque::new() }
    }
}

/// What a list of followers' records stands for.
pub open spec fn peer_views(v: Seq<Peer>) -> Seq<PeerView> {
    Seq::new(v.len(), |i: int| v[i]@)
}

/// What a list of clients' records stands for.
pub open spec fn client_views(v: Seq<Client>) -> Seq<ClientView> {
    Seq::new(v.len(), |i: int| v[i]@)
}

/// What a `SharedState` stands for.
pub struct StateView {
    pub kv: Map<Seq<u8>, KvValue>,
    pub streams: Map<Seq<u8>, Seq<EntryView>>,
    pub peers: Seq<PeerView>,
    pub clients: Seq<ClientView>,
}

// ---------------------------------------------------------------------------
// What happens to the followers' records
// ---------------------------------------------------------------------------

/// A sum of byte counts, which wraps at the end of the range.
pub open spec fn wrap_add(a: usize, b: usize) -> usize {
    if a + b > usize::MAX {
        (a + b - usize::MAX - 1) as usize
    } else {
        (a + b) as usize
    }
}

/// A difference of byte counts, which wraps at the start of the range.
pub open spec fn wrap_sub(a: usize, b: usize) -> usize {
    if a < b {
        (a - b + usize::MAX + 1) as usize
    } else {
        (a - b) as usize
    }
}

/// Whether a message asks for an acknowledgement: it holds the word
/// `GETACK`, in whatever case.
pub open spec fn is_getack(msg: Seq<u8>) -> bool {
    contains_seq(lower_seq(msg), "getack".spec_bytes())
}

/// The last writes after one more: at most `RECENT_WRITES` of them.
pub open spec fn recorded(recent: Seq<Seq<u8>>, msg: Seq<u8>) -> Seq<Seq<u8>> {
    if recent.len() >= RECENT_WRITES {
        recent.skip(recent.len() - RECENT_WRITES + 1).push(msg)
    } else {
        recent.push(msg)
    }
}

/// The record of a follower after `msg` was handed to it.
pub open spec fn sent_to(p: PeerView, msg: Seq<u8>) -> PeerView {
    PeerView {
        addr: p.addr,
        sender: p.sender.push(msg),
        bytes_sent: wrap_add(p.bytes_sent, msg.len() as usize),
        bytes_written: p.bytes_written,
        commands_processed: if is_getack(msg) {
            p.commands_processed
        } else {
            recorded(p.commands_processed, msg)
        },
    }
}

/// The records after `msg` was handed to every follower.
pub open spec fn broadcast(peers: Seq<PeerView>, msg: Seq<u8>) -> Seq<PeerView> {
    Seq::new(peers.len(), |i: int| sent_to(peers[i], msg))
}

/// The records after the follower at `addr` acknowledged offset `n`.
pub open spec fn acknowledged(peers: Seq<PeerView>, addr: u64, n: usize) -> Seq<PeerView> {
    Seq::new(
        peers.len(),
        |i: int|
            if peers[i].addr == addr {
                PeerView {
                    addr: peers[i].addr,
                    sender: peers[i].sender,
                    bytes_sent: peers[i].bytes_sent,
                    bytes_written: n,
                    commands_processed: peers[i].commands_processed,
                }
            } else {
                peers[i]
            },
    )
}

/// Whether the follower acknowledged all that was sent before the last
/// `offset_len` bytes.
pub open spec fn caught_up(p: PeerView, offset_len: usize) -> bool {
    wrap_sub(p.bytes_sent, offset_len) == p.bytes_written
}

/// How many of the first `n` followers are caught up.
pub open spec fn count_caught_up(peers: Seq<PeerView>, offset_len: usize, n: nat) -> nat
    decreases n,
{
    if n == 0 || n > peers.len() {
        0
    } else if caught_up(peers[n - 1], offset_len) {
        count_caught_up(peers, offset_len, (n - 1) as nat) + 1
    } else {
        count_caught_up(peers, offset_len, (n - 1) as nat)
    }
}

/// How many of the first `n` followers have a write on record.
pub open spec fn count_recorded(peers: Seq<PeerView>, n: nat) -> nat
    decreases n,
{
    if n == 0 || n > peers.len() {
        0
    } else if peers[n - 1].commands_processed.len() > 0 {
        count_recorded(peers, (n - 1) as nat) + 1
    } else {
        count_recorded(peers, (n - 1) as nat)
    }
}

/// No more followers are counted than there are.
pub proof fn lemma_counts_bound(peers: Seq<PeerView>, offset_len: usize, n: nat)
    ensures
        count_caught_up(peers, offset_len, n) <= n,
        count_recorded(peers, n) <= n,
    decreases n,
{
    if n > 0 && n <= peers.len() {
        lemma_counts_bound(peers, offset_len, (n - 1) as nat);
    }
}

/// Whether a record at `addr` stands among the first `n`.
pub open spec fn has_peer(peers: Seq<PeerView>, addr: u64) -> bool {
    exists|i: int| 0 <= i < peers.len() && (#[trigger] peers[i]).addr == addr
}

/// Whether a client record at `addr` stands among them.
pub open spec fn has_client(clients: Seq<ClientView>, addr: u64) -> bool {
    exists|i: int| 0 <= i < clients.len() && (#[trigger] clients[i]).addr == addr
}

/// No connection has two records.
pub open spec fn distinct_peers(peers: Seq<PeerView>) -> bool {
    forall|i: int, j: int|
        0 <= i < j < peers.len() ==> (#[trigger] peers[i]).addr != (#[trigger] peers[j]).addr
}

/// No connection has two client records.
pub open spec fn distinct_clients(clients: Seq<ClientView>) -> bool {
    forall|i: int, j: int|
        0 <= i < j < clients.len() ==> (#[trigger] clients[i]).addr != (#[trigger] clients[j]).addr
}

fn wrapping_sum(a: usize, b: usize) -> (r: usize)
    ensures
        r == wrap_add(a, b),
{
    if b > usize::MAX - a {
        b - (usize::MAX - a) - 1
    } else {
        a + b
    }
}

fn wrapping_difference(a: usize, b: usize) -> (r: usize)
    ensures
        r == wrap_sub(a, b),
{
    if a < b {
        usize::MAX - (b - a) + 1
    } else {
        a - b
    }
}

/// Whether `message` asks for an acknowledgement.
pub fn asks_for_ack(message: &[u8]) -> (r: bool)
    ensures
        r == is_getack(message@),
{
    let folded = to_ascii_lowercase(message);
    contains(folded.as_slice(), "getack".as_bytes())
}

impl Peer {
    /// Hands `message` to the follower: it joins the queue, counts as sent,
    /// and goes on record unless it asks for an acknowledgement.
    pub fn send(&mut self, message: &[u8])
        ensures
            final(self)@ == sent_to(old(self)@, message@),
    {
        self.sender.push_back(copy_bytes(message));
        self.bytes_sent = wrapping_sum(self.bytes_sent, message.len());
        if !asks_for_ack(message) {
            let ghost before = byte_seqs(self.commands_processed@);
            if self.commands_processed.len() >= RECENT_WRITES {
                while self.commands_processed.len() >= RECENT_WRITES
                    invariant
                        self.commands_processed@.len() <= before.len(),
                        self.commands_processed@.len() >= RECENT_WRITES - 1,
                        before.len() >= RECENT_WRITES,
                        byte_seqs(self.commands_processed@) == before.skip(
                            before.len() - self.commands_processed@.len(),
                        ),
                        self.addr == old(self).addr,
                        self.bytes_written == old(self).bytes_written,
                        self.bytes_sent == wrap_add(old(self).bytes_sent, message@.len() as usize),
                        byte_seqs(self.sender@) == byte_seqs(old(self).sender@).push(message@),
                    decreases self.commands_processed@.len(),
                {
                    let ghost cur = self.commands_processed@;
                    let _ = self.commands_processed.pop_front();
                    proof {
                        let now = self.commands_processed@;
                        let off = before.len() - cur.len();
                        assert forall|k: int| 0 <= k < now.len() implies byte_seqs(now)[k]
                            == before.skip(off + 1)[k] by {
                            assert(now[k] == cur[k + 1]);
                            assert(byte_seqs(cur)[k + 1] == before.skip(off)[k + 1]);
                        }
                        assert(byte_seqs(now) =~= before.skip(off + 1));
                    }
                }
                assert(byte_seqs(self.commands_processed@) =~= before.skip(
                    before.len() - RECENT_WRITES + 1,
                ));
            }
            let ghost kept = byte_seqs(self.commands_processed@);
            self.commands_processed.push_back(copy_bytes(message));
            assert(byte_seqs(self.commands_processed@) =~= kept.push(message@));
        }
        assert(byte_seqs(self.sender@) =~= byte_seqs(old(self).sender@).push(message@));
    }
}

/// The state that all connections share.
pub struct SharedState {
    pub peers: Vec<Peer>,
    pub clients: Vec<Client>,
    pub stream_store: RadixTreeStore,
    pub kv_store: KeyValueStore,
}

impl View for SharedState {
    type V = StateView;

    open spec fn view(&self) -> StateView {
        StateView {
            kv: self.kv_store@,
            streams: self.stream_store@,
            peers: peer_views(self.peers@),
            clients: client_views(self.clients@),
        }
    }
}

impl SharedState {
    /// The stores are in order and no connection has two records.
    pub open spec fn wf(&self) -> bool {
        &&& self.kv_store.wf()
        &&& self.stream_store.wf()
        &&& distinct_peers(self@.peers)
        &&& distinct_clients(self@.clients)
    }

    /// A state without keys, streams, clients or followers.
    pub fn new() -> (r: Self)
        ensures
            r.wf(),
            r@.kv == Map::<Seq<u8>, KvValue>::empty(),
            r@.streams == Map::<Seq<u8>, Seq<EntryView>>::empty(),
            r@.peers == Seq::<PeerView>::empty(),
            r@.clients == Seq::<ClientView>::empty(),
            r.kv_store.keys() == Seq::<Seq<u8>>::empty(),
            r.kv_store.values() == Seq::<KvValue>::empty(),
    {
        let r = SharedState {
            peers: Vec::new(),
            clients: Vec::new(),
            stream_store: RadixTreeStore::new(),
            kv_store: KeyValueStore::new(),
        };
        assert(r@.peers =~= Seq::<PeerView>::empty());
        assert(r@.clients =~= Seq::<ClientView>::empty());
        r
    }

    /// Appends an entry to a stream; see `RadixTreeStore::insert`.
    pub fn stream_store_insert(
        &mut self,
        key: &[u8],
        entry_id: &[u8],
        data: Vec<(Vec<u8>, Vec<u8>)>,
        now: u128,
    ) -> (r: Result<EntryID, StreamError>)
        requires
            old(self).wf(),
        ensures
            final(self).wf(),
            r == new_id(entry_id@, last_of(entries_of(old(self)@.streams, key@)), now),
            match r {
                Ok(id) => final(self)@.streams == old(self)@.streams.insert(
                    key@,
                    entries_of(old(self)@.streams, key@).push(
                        EntryView { key: key@, entry_id: id, data: crate::text::pair_seqs(data@) },
                    ),
                ),
                Err(_) => final(self)@.streams == old(self)@.streams,
            },
            final(self)@.kv == old(self)@.kv,
            final(self)@.peers == old(self)@.peers,
            final(self)@.clients == old(self)@.clients,
    {
        self.stream_store.insert(key, entry_id, data, now)
    }

    /// Binds a key; see `KeyValueStore::insert`.
    pub fn kv_store_insert(&mut self, k: Vec<u8>, v: Vec<u8>, expiry: Option<u64>, now: u64)
        requires
            old(self).wf(),
        ensures
            final(self).wf(),
            final(self)@.kv == old(self)@.kv.insert(
                k@,
                KvValue { value: v@, expires_at: deadline(now, expiry) },
            ),
            final(self)@.streams == old(self)@.streams,
            final(self)@.peers == old(self)@.peers,
            final(self)@.clients == old(self)@.clients,
    {
        let _ = self.kv_store.insert(k, v, expiry, now);
    }

    /// Reads a key; see `KeyValueStore::get`.
    pub fn kv_store_get(&mut self, k: &[u8], now: u64) -> (r: Option<Vec<u8>>)
        requires
            old(self).wf(),
        ensures
            final(self).wf(),
            final(self)@.kv == after_get(old(self)@.kv, k@, now),
            match r {
                Some(v) => lookup(old(self)@.kv, k@, now) == Some(v@),
                None => lookup(old(self)@.kv, k@, now) is None,
            },
            final(self)@.streams == old(self)@.streams,
            final(self)@.peers == old(self)@.peers,
            final(self)@.clients == old(self)@.clients,
    {
        self.kv_store.get(k, now)
    }

    /// The index of the record of the follower at `addr`.
    pub fn peer_index(&self, addr: u64) -> (r: Option<usize>)
        ensures
            match r {
                Some(i) => i < self@.peers.len() && self@.peers[i as int].addr == addr,
                None => !has_peer(self@.peers, addr),
            },
    {
        let mut i: usize = 0;
        while i < self.peers.len()
            invariant
                i <= self.peers@.len(),
                forall|j: int| 0 <= j < i ==> (#[trigger] self@.peers[j]).addr != addr,
            decreases self.peers@.len() - i,
        {
            if self.peers[i].addr == addr {
                return Some(i);
            }
            i += 1;
        }
        None
    }

    /// The index of the record of the client at `addr`.
    pub fn client_index(&self, addr: u64) -> (r: Option<usize>)
        ensures
            match r {
                Some(i) => i < self@.clients.len() && self@.clients[i as int].addr == addr,
                None => !has_client(self@.clients, addr),
            },
    {
        let mut i: usize = 0;
        while i < self.clients.len()
            invariant
                i <= self.clients@.len(),
                forall|j: int| 0 <= j < i ==> (#[trigger] self@.clients[j]).addr != addr,
            decreases self.clients@.len() - i,
        {
            if self.clients[i].addr == addr {
                return Some(i);
            }
            i += 1;
        }
        None
    }

    /// Records the follower at `socket_addr`, unless it is on record.
    pub fn insert_peer(&mut self, socket_addr: u64, peer: Peer)
        requires
            old(self).wf(),
        ensures
            final(self).wf(),
            final(self)@.peers == (if has_peer(old(self)@.peers, socket_addr) {
                old(self)@.peers
            } else {
                old(self)@.peers.push(
                    PeerView {
                        addr: socket_addr,
                        sender: peer@.sender,
                        bytes_sent: peer@.bytes_sent,
                        bytes_written: peer@.bytes_written,
                        commands_processed: peer@.commands_processed,
                    },
                )
            }),
            final(self)@.kv == old(self)@.kv,
            final(self)@.streams == old(self)@.streams,
            final(self)@.clients == old(self)@.clients,
    {
        if self.peer_index(socket_addr).is_none() {
            let mut peer = peer;
            peer.addr = socket_addr;
            let ghost before = self@.peers;
            self.peers.push(peer);
            assert(self@.peers =~= before.push(peer@));
            assert(self@.clients =~= old(self)@.clients);
        }
    }

    /// Records the client at `socket_addr`, unless it is on record.
    pub fn insert_client(&mut self, socket_addr: u64, client: Client)
        requires
            old(self).wf(),
        ensures
            final(self).wf(),
            final(self)@.clients == (if has_client(old(self)@.clients, socket_addr) {
                old(self)@.clients
            } else {
                old(self)@.clients.push(
                    ClientView {
                        addr: socket_addr,
                        multi_lock: client@.multi_lock,
                        multi_queue: client@.multi_queue,
                    },
                )
            }),
            final(self)@.kv == old(self)@.kv,
            final(self)@.streams == old(self)@.streams,
            final(self)@.peers == old(self)@.peers,
    {
        if self.client_index(socket_addr).is_none() {
            let mut client = client;
            client.addr = socket_addr;
            let ghost before = self@.clients;
            self.clients.push(client);
            assert(self@.clients =~= before.push(client@));
            assert(self@.peers =~= old(self)@.peers);
        }
    }

    /// Hands `message` to every follower, in the order of their records.
    pub fn broadcast_peers(&mut self, message: &[u8])
        requires
            old(self).wf(),
        ensures
            final(self).wf(),
            final(self)@.peers == broadcast(old(self)@.peers, message@),
            final(self)@.kv == old(self)@.kv,
            final(self)@.streams == old(self)@.streams,
            final(self)@.clients == old(self)@.clients,
    {
        let ghost before = self@.peers;
        let mut i: usize = 0;
        while i < self.peers.len()
            invariant
                i <= self.peers@.len(),
                self.peers@.len() == before.len(),
                before == old(self)@.peers,
                forall|j: int| 0 <= j < i ==> (#[trigger] self@.peers[j]) == sent_to(before[j], message@),
                forall|j: int| i <= j < before.len() ==> (#[trigger] self@.peers[j]) == before[j],
                self.kv_store == old(self).kv_store,
                self.stream_store == old(self).stream_store,
                self.clients == old(self).clients,
            decreases self.peers@.len() - i,
        {
            let ghost cur = self.peers@;
            let ghost views = self@.peers;
            assert(views[i as int] == before[i as int]);
            self.peers[i].send(message);
            assert(forall|j: int| 0 <= j < cur.len() && j != i ==> self.peers@[j] == cur[j]);
            assert forall|j: int| 0 <= j < i + 1 implies (#[trigger] self@.peers[j]) == sent_to(
                before[j],
                message@,
            ) by {
                if j < i {
                    assert(views[j] == sent_to(before[j], message@));
                    assert(views[j] == cur[j]@);
                }
            }
            assert forall|j: int| i + 1 <= j < before.len() implies (#[trigger] self@.peers[j])
                == before[j] by {
                assert(views[j] == before[j]);
                assert(views[j] == cur[j]@);
            }
            i += 1;
        }
        assert(self@.peers =~= broadcast(before, message@));
        assert forall|a: int, b: int| 0 <= a < b < self@.peers.len() implies (
        #[trigger] self@.peers[a]).addr != (#[trigger] self@.peers[b]).addr by {
            assert(before[a].addr != before[b].addr);
        }
    }

    /// Takes note that the follower at `sender` acknowledged offset
    /// `bytes_written`.
    pub fn update_peers_bytes_written(&mut self, sender: u64, bytes_written: usize)
        requires
            old(self).wf(),
        ensures
            final(self).wf(),
            final(self)@.peers == acknowledged(old(self)@.peers, sender, bytes_written),
            final(self)@.kv == old(self)@.kv,
            final(self)@.streams == old(self)@.streams,
            final(self)@.clients == old(self)@.clients,
    {
        let ghost before = self@.peers;
        let mut i: usize = 0;
        while i < self.peers.len()
            invariant
                i <= self.peers@.len(),
                self.peers@.len() == before.len(),
                before == old(self)@.peers,
                forall|j: int|
                    0 <= j < i ==> (#[trigger] self@.peers[j]) == acknowledged(
                        before,
                        sender,
                        bytes_written,
                    )[j],
                forall|j: int| i <= j < before.len() ==> (#[trigger] self@.peers[j]) == before[j],
                self.kv_store == old(self).kv_store,
                self.stream_store == old(self).stream_store,
                self.clients == old(self).clients,
            decreases self.peers@.len() - i,
        {
            let ghost cur = self.peers@;
            let ghost views = self@.peers;
            assert(views[i as int] == before[i as int]);
            if self.peers[i].addr == sender {
                self.peers[i].bytes_written = bytes_written;
                assert(forall|j: int| 0 <= j < cur.len() && j != i ==> self.peers@[j] == cur[j]);
            }
            assert forall|j: int| 0 <= j < i + 1 implies (#[trigger] self@.peers[j]) == acknowledged(
                before,
                sender,
                bytes_written,
            )[j] by {
                if j < i {
                    assert(views[j] == acknowledged(before, sender, bytes_written)[j]);
                    assert(views[j] == cur[j]@);
                }
            }
            assert forall|j: int| i + 1 <= j < before.len() implies (#[trigger] self@.peers[j])
                == before[j] by {
                assert(views[j] == before[j]);
                assert(views[j] == cur[j]@);
            }
            i += 1;
        }
        assert(self@.peers =~= acknowledged(before, sender, bytes_written));
        assert forall|a: int, b: int| 0 <= a < b < self@.peers.len() implies (
        #[trigger] self@.peers[a]).addr != (#[trigger] self@.peers[b]).addr by {
            assert(before[a].addr != before[b].addr);
        }
    }

    /// How many followers acknowledged all that was sent to them before the
    /// last `offset_len` bytes.
    pub fn verify_peers_propagation(&self, offset_len: usize) -> (r: usize)
        ensures
            r == count_caught_up(self@.peers, offset_len, self@.peers.len()),
            r <= self@.peers.len(),
    {
        let mut count: usize = 0;
        let mut i: usize = 0;
        while i < self.peers.len()
            invariant
                i <= self.peers@.len(),
                count == count_caught_up(self@.peers, offset_len, i as nat),
                count <= i,
            decreases self.peers@.len() - i,
        {
            let p = &self.peers[i];
            assert(self@.peers[i as int] == p@);
            if wrapping_difference(p.bytes_sent, offset_len) == p.bytes_written {
                count += 1;
            }
            i += 1;
        }
        count
    }

    /// How many followers have a write on record.
    pub fn count_peers_commands_processed(&self) -> (r: usize)
        ensures
            r == count_recorded(self@.peers, self@.peers.len()),
            r <= self@.peers.len(),
    {
        let mut count: usize = 0;
        let mut i: usize = 0;
        while i < self.peers.len()
            invariant
                i <= self.peers@.len(),
                count == count_recorded(self@.peers, i as nat),
                count <= i,
            decreases self.peers@.len() - i,
        {
            let p = &self.peers[i];
            assert(self@.peers[i as int] == p@);
            if p.commands_processed.len() > 0 {
                count += 1;
            }
            i += 1;
        }
        count
    }
}

impl SharedState {
    /// Takes the messages that wait for the follower at `addr` out of its
    /// queue, the oldest first.
    pub fn take_outbound(&mut self, addr: u64) -> (r: Vec<Vec<u8>>)
        requires
            old(self).wf(),
        ensures
            final(self).wf(),
            final(self)@.kv == old(self)@.kv,
            final(self)@.streams == old(self)@.streams,
            final(self)@.clients == old(self)@.clients,
            final(self)@.peers.len() == old(self)@.peers.len(),
            forall|i: int|
                0 <= i < old(self)@.peers.len() ==> #[trigger] final(self)@.peers[i] == (if old(
                    self,
                )@.peers[i].addr == addr {
                    PeerView {
                        addr,
                        sender: Seq::<Seq<u8>>::empty(),
                        bytes_sent: old(self)@.peers[i].bytes_sent,
                        bytes_written: old(self)@.peers[i].bytes_written,
                        commands_processed: old(self)@.peers[i].commands_processed,
                    }
                } else {
                    old(self)@.peers[i]
                }),
            forall|i: int|
                0 <= i < old(self)@.peers.len() && (#[trigger] old(self)@.peers[i]).addr == addr
                    ==> byte_seqs(r@) == old(self)@.peers[i].sender,
            !has_peer(old(self)@.peers, addr) ==> r@.len() == 0,
    {
        let ghost before = self@.peers;
        match self.peer_index(addr) {
            Some(i) => {
                let ghost cur = self.peers@;
                let mut queue: VecDeque<Vec<u8>> = VecDeque::new();
                core::mem::swap(&mut self.peers[i].sender, &mut queue);
                assert(forall|j: int| 0 <= j < cur.len() && j != i ==> self.peers@[j] == cur[j]);
                let mut out: Vec<Vec<u8>> = Vec::new();
                let ghost taken = byte_seqs(queue@);
                while queue.len() > 0
                    invariant
                        byte_seqs(out@) + byte_seqs(queue@) == taken,
                    decreases queue@.len(),
                {
                    let ghost q0 = queue@;
                    let ghost o0 = out@;
                    match queue.pop_front() {
                        Some(m) => {
                            out.push(m);
                            assert(byte_seqs(out@) + byte_seqs(queue@) =~= byte_seqs(o0)
                                + byte_seqs(q0));
                        },
                        None => {},
                    }
                }
                assert(byte_seqs(out@) =~= byte_seqs(out@) + byte_seqs(queue@));
                assert(byte_seqs(self.peers@[i as int].sender@) =~= Seq::<Seq<u8>>::empty());
                assert forall|j: int| 0 <= j < before.len() implies #[trigger] self@.peers[j] == (
                if before[j].addr == addr {
                    PeerView {
                        addr,
                        sender: Seq::<Seq<u8>>::empty(),
                        bytes_sent: before[j].bytes_sent,
                        bytes_written: before[j].bytes_written,
                        commands_processed: before[j].commands_processed,
                    }
                } else {
                    before[j]
                }) by {
                    assert(before[j] == cur[j]@);
                    if j != i {
                        if j < i {
                            assert(before[j].addr != before[i as int].addr);
                        } else {
                            assert(before[i as int].addr != before[j].addr);
                        }
                    }
                }
                assert forall|j: int|
                    0 <= j < before.len() && (#[trigger] before[j]).addr == addr implies byte_seqs(
                    out@,
                ) == before[j].sender by {
                    if j < i {
                        assert(before[j].addr != before[i as int].addr);
                    } else if i < j {
                        assert(before[i as int].addr != before[j].addr);
                    }
                    assert(before[i as int] == cur[i as int]@);
                }
                assert forall|a: int, b: int| 0 <= a < b < self@.peers.len() implies (
                #[trigger] self@.peers[a]).addr != (#[trigger] self@.peers[b]).addr by {
                    assert(before[a].addr != before[b].addr);
                }
                assert(self@.clients =~= old(self)@.clients);
                out
            },
            None => {
                Vec::new()
            },
        }
    }

    /// Forgets the connection at `addr`: its client record and its follower
    /// record, where it has them.
    pub fn disconnect(&mut self, addr: u64)
        requires
            old(self).wf(),
        ensures
            final(self).wf(),
            final(self)@.kv == old(self)@.kv,
            final(self)@.streams == old(self)@.streams,
            !has_peer(final(self)@.peers, addr),
            !has_client(final(self)@.clients, addr),
            forall|p: PeerView|
                p.addr != addr ==> (final(self)@.peers.contains(p) <==> old(self)@.peers.contains(p)),
            forall|c: ClientView|
                c.addr != addr ==> (final(self)@.clients.contains(c) <==> old(
                    self,
                )@.clients.contains(c)),
    {
        match self.peer_index(addr) {
            Some(i) => {
                let ghost before = self@.peers;
                let _ = self.peers.remove(i);
                assert(self@.peers =~= before.remove(i as int));
                assert(self@.clients =~= old(self)@.clients);
                assert forall|a: int, b: int| 0 <= a < b < self@.peers.len() implies (
                #[trigger] self@.peers[a]).addr != (#[trigger] self@.peers[b]).addr by {
                    let a0 = if a < i { a } else { a + 1 };
                    let b0 = if b < i { b } else { b + 1 };
                    assert(before[a0].addr != before[b0].addr);
                }
                assert forall|j: int| 0 <= j < self@.peers.len() implies (
                #[trigger] self@.peers[j]).addr != addr by {
                    let j0 = if j < i { j } else { j + 1 };
                    if j0 < i {
                        assert(before[j0].addr != before[i as int].addr);
                    } else {
                        assert(before[i as int].addr != before[j0].addr);
                    }
                }
                assert forall|p: PeerView| p.addr != addr implies (self@.peers.contains(p)
                    <==> before.contains(p)) by {
                    if self@.peers.contains(p) {
                        let j = choose|j: int| 0 <= j < self@.peers.len() && self@.peers[j] == p;
                        let j0 = if j < i { j } else { j + 1 };
                        assert(before[j0] == p);
                    }
                    if before.contains(p) {
                        let j0 = choose|j: int| 0 <= j < before.len() && before[j] == p;
                        let j = if j0 < i { j0 } else { j0 - 1 };
                        assert(self@.peers[j] == p);
                    }
                }
            },
            None => {},
        }
        let ghost peers_now = self@.peers;
        match self.client_index(addr) {
            Some(i) => {
                let ghost before = self@.clients;
                let _ = self.clients.remove(i);
                assert(self@.clients =~= before.remove(i as int));
                assert(self@.peers =~= peers_now);
                assert forall|a: int, b: int| 0 <= a < b < self@.clients.len() implies (
                #[trigger] self@.clients[a]).addr != (#[trigger] self@.clients[b]).addr by {
                    let a0 = if a < i { a } else { a + 1 };
                    let b0 = if b < i { b } else { b + 1 };
                    assert(before[a0].addr != before[b0].addr);
                }
                assert forall|j: int| 0 <= j < self@.clients.len() implies (
                #[trigger] self@.clients[j]).addr != addr by {
                    let j0 = if j < i { j } else { j + 1 };
                    if j0 < i {
                        assert(before[j0].addr != before[i as int].addr);
                    } else {
                        assert(before[i as int].addr != before[j0].addr);
                    }
                }
                assert forall|c: ClientView| c.addr != addr implies (self@.clients.contains(c)
                    <==> before.contains(c)) by {
                    if self@.clients.contains(c) {
                        let j = choose|j: int| 0 <= j < self@.clients.len() && self@.clients[j] == c;
                        let j0 = if j < i { j } else { j + 1 };
                        assert(before[j0] == c);
                    }
                    if before.contains(c) {
                        let j0 = choose|j: int| 0 <= j < before.len() && before[j] == c;
                        let j = if j0 < i { j0 } else { j0 - 1 };
                        assert(self@.clients[j] == c);
                    }
                }
            },
            None => {},
        }
    }
}

/// What `WAIT` answers once its time is up: the number of followers where
/// none has a write on record, else the number of those that are caught up.
pub open spec fn wait_count(peers: Seq<PeerView>, offset_len: usize) -> nat {
    if count_recorded(peers, peers.len()) == 0 {
        peers.len()
    } else {
        count_caught_up(peers, offset_len, peers.len())
    }
}

/// Two messages that are broadcast one after the other stand in that order,
/// next to each other, at the end of every follower's queue, behind all
/// that waited there.
pub proof fn lemma_broadcast_order(peers: Seq<PeerView>, first: Seq<u8>, second: Seq<u8>)
    ensures
        broadcast(broadcast(peers, first), second).len() == peers.len(),
        forall|i: int|
            0 <= i < peers.len() ==> (#[trigger] broadcast(
                broadcast(peers, first),
                second,
            )[i]).sender == peers[i].sender + seq![first, second],
{
    assert forall|i: int| 0 <= i < peers.len() implies (#[trigger] broadcast(
        broadcast(peers, first),
        second,
    )[i]).sender == peers[i].sender + seq![first, second] by {
        assert(peers[i].sender.push(first).push(second) =~= peers[i].sender + seq![first, second]);
    }
}

/// The answer of `WAIT` never exceeds the number of followers; and it
/// reaches `n` only where `n` followers are caught up. The states in which
/// no follower has a write on record and fewer than `n` are caught up are
/// left out: there the answer is the number of followers.
pub proof fn lemma_wait_bound(peers: Seq<PeerView>, offset_len: usize, n: nat)
    requires
        count_recorded(peers, peers.len()) > 0 || n > peers.len() || count_caught_up(
            peers,
            offset_len,
            peers.len(),
        ) >= n,
    ensures
        0 <= wait_count(peers, offset_len) <= peers.len(),
        wait_count(peers, offset_len) >= n ==> count_caught_up(peers, offset_len, peers.len())
            >= n,
{
    lemma_counts_bound(peers, offset_len, peers.len());
}

} // verus!
