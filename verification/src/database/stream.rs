//! Streams: append-only logs of entries, each stream ordered by entry id.

use crate::bytemap::ByteMap;
use crate::text::{
    bytes_eq, copy_bytes, copy_pairs, copy_range, dec_digits, find_byte, first_byte, is_prefix,
    nat_value, pair_seqs, parse_u128, parse_u64, push_dec, ASTERISK, DOLLAR, MINUS, PLUS,
};
use vstd::prelude::*;
use vstd::string::StringSliceAdditionalSpecFns;

verus! {

/// The id of an entry: a time in milliseconds and a sequence number.
#[derive(Debug, Clone, Copy, PartialEq, Eq, Structural)]
pub struct EntryID {
    pub milliseconds_time: u128,
    pub sequence_number: u64,
}

/// The order of ids: by time, then by sequence number.
pub open spec fn id_below(a: EntryID, b: EntryID) -> bool {
    a.milliseconds_time < b.milliseconds_time || (a.milliseconds_time == b.milliseconds_time
        && a.sequence_number < b.sequence_number)
}

/// The order of ids, equality included.
pub open spec fn id_at_most(a: EntryID, b: EntryID) -> bool {
    a == b || id_below(a, b)
}

/// The id `0-0`, below which no entry stands.
pub open spec fn zero_id() -> EntryID {
    EntryID { milliseconds_time: 0, sequence_number: 0 }
}

/// An id as it is written: `<ms>-<seq>`.
pub open spec fn id_text(id: EntryID) -> Seq<u8> {
    dec_digits(id.milliseconds_time as nat) + seq![MINUS] + dec_digits(id.sequence_number as nat)
}

impl Default for EntryID {
    fn default() -> (r: Self)
        ensures
            r == zero_id(),
    {
        EntryID { milliseconds_time: 0, sequence_number: 0 }
    }
}

impl EntryID {
    /// The id as it is written; see `id_text`.
    pub fn print(&self) -> (r: Vec<u8>)
        ensures
            r@ == id_text(*self),
    {
        let mut r: Vec<u8> = Vec::new();
        push_dec(&mut r, self.milliseconds_time);
        r.push(MINUS);
        push_dec(&mut r, self.sequence_number as u128);
        assert(r@ =~= id_text(*self));
        r
    }

    /// Whether this id stands below `other`; see `id_below`.
    pub fn is_below(&self, other: &EntryID) -> (r: bool)
        ensures
            r == id_below(*self, *other),
    {
        self.milliseconds_time < other.milliseconds_time || (self.milliseconds_time
            == other.milliseconds_time && self.sequence_number < other.sequence_number)
    }
}

/// An entry of a stream.
#[derive(Debug, PartialEq)]
pub struct StreamEntry {
    pub key: Vec<u8>,
    pub entry_id: EntryID,
    pub data: Vec<(Vec<u8>, Vec<u8>)>,
}

/// What a `StreamEntry` stands for.
pub struct EntryView {
    pub key: Seq<u8>,
    pub entry_id: EntryID,
    pub data: Seq<(Seq<u8>, Seq<u8>)>,
}

impl View for StreamEntry {
    type V = EntryView;

    open spec fn view(&self) -> EntryView {
        EntryView { key: self.key@, entry_id: self.entry_id, data: pair_seqs(self.data@) }
    }
}

/// What a list of entries stands for.
pub open spec fn entry_views(v: Seq<StreamEntry>) -> Seq<EntryView> {
    Seq::new(v.len(), |i: int| v[i]@)
}

impl StreamEntry {
    /// A fresh copy.
    pub fn duplicate(&self) -> (r: StreamEntry)
        ensures
            r@ == self@,
    {
        StreamEntry {
            key: copy_bytes(self.key.as_slice()),
            entry_id: self.entry_id,
            data: copy_pairs(&self.data),
        }
    }
}

/// Why a stream operation failed.
#[derive(Debug, Clone, Copy, PartialEq, Eq, Structural)]
pub enum StreamError {
    /// The id `0-0` was given.
    ZeroError,
    /// The id cannot be read, or cannot be formed.
    NotValid,
    /// The id is not above the last id of the stream.
    SmallerThanTop,
    /// No stream under that key.
    KeyNotFound,
    /// No entry in the range.
    NoEntriesInRange,
}

impl StreamError {
    /// The text of the error as the client reads it.
    pub open spec fn text(self) -> Seq<u8> {
        match self {
            StreamError::ZeroError => "ERR The ID specified in XADD must be greater than 0-0".spec_bytes(),
            StreamError::NotValid => "ERR Cannot proess the entry id or it is less than or equal to the last one".spec_bytes(),
            StreamError::SmallerThanTop => "ERR The ID specified in XADD is equal or smaller than the target stream top item".spec_bytes(),
            StreamError::KeyNotFound => "ERR The key specified does not exist!".spec_bytes(),
            StreamError::NoEntriesInRange => "ERR The stream contains no entries in the range".spec_bytes(),
        }
    }

    /// The text of the error; see `text`.
    pub fn message(&self) -> (r: Vec<u8>)
        ensures
            r@ == self.text(),
    {
        match self {
            StreamError::ZeroError => copy_bytes(
                "ERR The ID specified in XADD must be greater than 0-0".as_bytes(),
            ),
            StreamError::NotValid => copy_bytes(
                "ERR Cannot proess the entry id or it is less than or equal to the last one".as_bytes(),
            ),
            StreamError::SmallerThanTop => copy_bytes(
                "ERR The ID specified in XADD is equal or smaller than the target stream top item".as_bytes(),
            ),
            StreamError::KeyNotFound => copy_bytes(
                "ERR The key specified does not exist!".as_bytes(),
            ),
            StreamError::NoEntriesInRange => copy_bytes(
                "ERR The stream contains no entries in the range".as_bytes(),
            ),
        }
    }
}

// ---------------------------------------------------------------------------
// New ids
// ---------------------------------------------------------------------------

/// An id is taken only if it stands above the last one.
pub open spec fn accept(candidate: EntryID, last: EntryID) -> Result<EntryID, StreamError> {
    if id_below(last, candidate) {
        Ok(candidate)
    } else {
        Err(StreamError::SmallerThanTop)
    }
}

/// The two parts of `<ms>-<seq>`: what stands before the first `-`, and what
/// stands after it.
pub open spec fn id_parts(id: Seq<u8>) -> Option<(Seq<u8>, Seq<u8>)> {
    let d = first_byte(id, MINUS, 0);
    if d < 0 {
        None
    } else {
        Some((id.subrange(0, d), id.subrange(d + 1, id.len() as int)))
    }
}

/// The id of a new entry, from what the client wrote, the last id of the
/// stream and the wall clock in milliseconds.
///
/// `*` takes the clock and sequence number 0. `<ms>-*` takes sequence
/// number 0 where `ms` is past the last id's time, else the last sequence
/// number plus one. `<ms>-<seq>` is taken as written, but for `0-0`. In each
/// form the id must stand above the last one.
pub open spec fn new_id(id: Seq<u8>, last: EntryID, now: u128) -> Result<EntryID, StreamError> {
    if id == seq![ASTERISK] {
        accept(EntryID { milliseconds_time: now, sequence_number: 0 }, last)
    } else {
        match id_parts(id) {
            None => Err(StreamError::NotValid),
            Some((ms_text, seq_text)) => match nat_value(ms_text) {
                Some(ms) if ms <= u128::MAX => if seq_text == seq![ASTERISK] {
                    if ms > last.milliseconds_time {
                        accept(EntryID { milliseconds_time: ms as u128, sequence_number: 0 }, last)
                    } else if last.sequence_number == u64::MAX {
                        Err(StreamError::NotValid)
                    } else {
                        accept(
                            EntryID {
                                milliseconds_time: ms as u128,
                                sequence_number: (last.sequence_number + 1) as u64,
                            },
                            last,
                        )
                    }
                } else {
                    match nat_value(seq_text) {
                        Some(sq) if sq <= u64::MAX => if ms == 0 && sq == 0 {
                            Err(StreamError::ZeroError)
                        } else {
                            accept(
                                EntryID { milliseconds_time: ms as u128, sequence_number: sq as u64 },
                                last,
                            )
                        },
                        _ => Err(StreamError::NotValid),
                    }
                },
                _ => Err(StreamError::NotValid),
            },
        }
    }
}

fn is_star(s: &[u8]) -> (r: bool)
    ensures
        r == (s@ == seq![ASTERISK]),
{
    let r = s.len() == 1 && s[0] == ASTERISK;
    proof {
        if r {
            assert(s@ =~= seq![ASTERISK]);
        }
    }
    r
}

fn accepted(candidate: EntryID, last: EntryID) -> (r: Result<EntryID, StreamError>)
    ensures
        r == accept(candidate, last),
{
    if last.is_below(&candidate) {
        Ok(candidate)
    } else {
        Err(StreamError::SmallerThanTop)
    }
}

/// Splits `<ms>-<seq>` at its first `-`.
fn split_id(id: &[u8]) -> (r: Option<(Vec<u8>, Vec<u8>)>)
    ensures
        match r {
            Some((a, b)) => id_parts(id@) == Some((a@, b@)),
            None => id_parts(id@) is None,
        },
{
    let len = id.len();
    match find_byte(id, MINUS) {
        Some(d) => Some((copy_range(id, 0, d), copy_range(id, d + 1, len))),
        None => None,
    }
}

/// The id of a new entry; see `new_id`.
pub fn next_entry_id(last: EntryID, id: &[u8], now: u128) -> (r: Result<EntryID, StreamError>)
    ensures
        r == new_id(id@, last, now),
{
    if is_star(id) {
        return accepted(EntryID { milliseconds_time: now, sequence_number: 0 }, last);
    }
    let (ms_text, seq_text) = match split_id(id) {
        Some(parts) => parts,
        None => {
            return Err(StreamError::NotValid);
        },
    };
    let ms = match parse_u128(ms_text.as_slice()) {
        Some(ms) => ms,
        None => {
            return Err(StreamError::NotValid);
        },
    };
    if is_star(seq_text.as_slice()) {
        if ms > last.milliseconds_time {
            accepted(EntryID { milliseconds_time: ms, sequence_number: 0 }, last)
        } else if last.sequence_number == u64::MAX {
            Err(StreamError::NotValid)
        } else {
            accepted(
                EntryID { milliseconds_time: ms, sequence_number: last.sequence_number + 1 },
                last,
            )
        }
    } else {
        match parse_u64(seq_text.as_slice()) {
            Some(sq) => {
                if ms == 0 && sq == 0 {
                    Err(StreamError::ZeroError)
                } else {
                    accepted(EntryID { milliseconds_time: ms, sequence_number: sq }, last)
                }
            },
            None => Err(StreamError::NotValid),
        }
    }
}

/// Every id that is given out stands above the last id of its stream.
pub proof fn lemma_new_id_above_last(id: Seq<u8>, last: EntryID, now: u128)
    ensures
        new_id(id, last, now) matches Ok(n) ==> id_below(last, n),
{
}

// ---------------------------------------------------------------------------
// Ranges
// ---------------------------------------------------------------------------

/// A range of ids: from `low` on, `low` itself left out where `open_low`
/// holds, up to `high` where there is one.
#[derive(Debug, Clone, Copy, PartialEq, Eq)]
pub struct IdRange {
    pub low: EntryID,
    pub open_low: bool,
    pub high: Option<EntryID>,
}

impl IdRange {
    /// Whether the range covers `id`.
    pub open spec fn covers(self, id: EntryID) -> bool {
        &&& if self.open_low {
            id_below(self.low, id)
        } else {
            id_at_most(self.low, id)
        }
        &&& match self.high {
            Some(h) => id_at_most(id, h),
            None => true,
        }
    }

    /// Whether the range covers `id`; see `covers`.
    pub fn has(&self, id: &EntryID) -> (r: bool)
        ensures
            r == self.covers(*id),
    {
        let low_ok = if self.open_low {
            self.low.is_below(id)
        } else {
            self.low.milliseconds_time == id.milliseconds_time && self.low.sequence_number
                == id.sequence_number || self.low.is_below(id)
        };
        let high_ok = match &self.high {
            Some(h) => id.milliseconds_time == h.milliseconds_time && id.sequence_number
                == h.sequence_number || id.is_below(h),
            None => true,
        };
        low_ok && high_ok
    }
}

/// The id that a bound of a range names. A bare `<ms>` stands for `<ms>-0`
/// as a start and for `<ms>` with the greatest sequence number as an end.
pub open spec fn bound_id(text: Seq<u8>, fill: u64) -> Option<EntryID> {
    match id_parts(text) {
        None => match nat_value(text) {
            Some(ms) if ms <= u128::MAX => Some(
                EntryID { milliseconds_time: ms as u128, sequence_number: fill },
            ),
            _ => None,
        },
        Some((ms_text, seq_text)) => match (nat_value(ms_text), nat_value(seq_text)) {
            (Some(ms), Some(sq)) if ms <= u128::MAX && sq <= u64::MAX => Some(
                EntryID { milliseconds_time: ms as u128, sequence_number: sq as u64 },
            ),
            _ => None,
        },
    }
}

/// The range that `start` and `end` name in a stream whose last id is
/// `last`. `-` starts at the earliest entry and `$` at the last id; `+` ends
/// at the latest entry, and `++` does too but leaves the start itself out.
pub open spec fn range_of(start: Seq<u8>, end: Seq<u8>, last: EntryID) -> Option<IdRange> {
    let low = if start == seq![MINUS] {
        Some(zero_id())
    } else if start == seq![DOLLAR] {
        Some(last)
    } else {
        bound_id(start, 0)
    };
    match low {
        None => None,
        Some(low) => if end == seq![PLUS] {
            Some(IdRange { low, open_low: false, high: None })
        } else if end == seq![PLUS, PLUS] {
            Some(IdRange { low, open_low: true, high: None })
        } else {
            match bound_id(end, u64::MAX) {
                Some(h) => Some(IdRange { low, open_low: false, high: Some(h) }),
                None => None,
            }
        },
    }
}

/// The entries among the first `n` of `entries` whose ids the range covers,
/// in their order.
pub open spec fn selected(entries: Seq<EntryView>, range: IdRange, n: nat) -> Seq<EntryView>
    decreases n,
{
    if n == 0 || n > entries.len() {
        Seq::<EntryView>::empty()
    } else if range.covers(entries[n - 1].entry_id) {
        selected(entries, range, (n - 1) as nat).push(entries[n - 1])
    } else {
        selected(entries, range, (n - 1) as nat)
    }
}

fn is_one(s: &[u8], b: u8) -> (r: bool)
    ensures
        r == (s@ == seq![b]),
{
    let r = s.len() == 1 && s[0] == b;
    proof {
        if r {
            assert(s@ =~= seq![b]);
        }
    }
    r
}

fn parse_bound(text: &[u8], fill: u64) -> (r: Option<EntryID>)
    ensures
        r == bound_id(text@, fill),
{
    match split_id(text) {
        None => match parse_u128(text) {
            Some(ms) => Some(EntryID { milliseconds_time: ms, sequence_number: fill }),
            None => None,
        },
        Some((ms_text, seq_text)) => {
            let ms = parse_u128(ms_text.as_slice());
            let sq = parse_u64(seq_text.as_slice());
            match (ms, sq) {
                (Some(ms), Some(sq)) => Some(
                    EntryID { milliseconds_time: ms, sequence_number: sq },
                ),
                _ => None,
            }
        },
    }
}

/// Reads the two bounds of a range; see `range_of`.
pub fn parse_range(start: &[u8], end: &[u8], last: EntryID) -> (r: Option<IdRange>)
    ensures
        r == range_of(start@, end@, last),
{
    let low = if is_one(start, MINUS) {
        Some(EntryID { milliseconds_time: 0, sequence_number: 0 })
    } else if is_one(start, DOLLAR) {
        Some(last)
    } else {
        parse_bound(start, 0)
    };
    let low = match low {
        Some(low) => low,
        None => {
            return None;
        },
    };
    if is_one(end, PLUS) {
        Some(IdRange { low, open_low: false, high: None })
    } else if end.len() == 2 && end[0] == PLUS && end[1] == PLUS {
        assert(end@ =~= seq![PLUS, PLUS]);
        Some(IdRange { low, open_low: true, high: None })
    } else {
        match parse_bound(end, u64::MAX) {
            Some(h) => Some(IdRange { low, open_low: false, high: Some(h) }),
            None => None,
        }
    }
}

// ---------------------------------------------------------------------------
// The store
// ---------------------------------------------------------------------------

/// One stream: its entries in increasing order of id, and the id of the
/// last of them.
struct Stream {
    entries: Vec<StreamEntry>,
    last_entry_id: EntryID,
}

impl Stream {
    spec fn wf(&self, key: Seq<u8>) -> bool {
        &&& self.entries@.len() > 0
        &&& self.last_entry_id == self.entries@.last().entry_id
        &&& forall|i: int| 0 <= i < self.entries@.len() ==> (#[trigger] self.entries@[i]).key@ == key
        &&& forall|i: int, j: int|
            0 <= i < j < self.entries@.len() ==> id_below(
                (#[trigger] self.entries@[i]).entry_id,
                (#[trigger] self.entries@[j]).entry_id,
            )
    }
}

/// The last id of a list of entries: that of its last entry, or `0-0` for
/// the empty list.
pub open spec fn last_of(entries: Seq<EntryView>) -> EntryID {
    if entries.len() == 0 {
        zero_id()
    } else {
        entries.last().entry_id
    }
}

/// The entries of the stream under `key`; none where there is no such
/// stream.
pub open spec fn entries_of(m: Map<Seq<u8>, Seq<EntryView>>, key: Seq<u8>) -> Seq<EntryView> {
    if m.contains_key(key) {
        m[key]
    } else {
        Seq::<EntryView>::empty()
    }
}

/// Entries in strictly increasing order of id.
pub open spec fn increasing(entries: Seq<EntryView>) -> bool {
    forall|i: int, j: int|
        0 <= i < j < entries.len() ==> id_below(
            (#[trigger] entries[i]).entry_id,
            (#[trigger] entries[j]).entry_id,
        )
}

/// The streams, by key.
pub struct RadixTreeStore {
    streams: ByteMap<Stream>,
}

impl View for RadixTreeStore {
    type V = Map<Seq<u8>, Seq<EntryView>>;

    closed spec fn view(&self) -> Map<Seq<u8>, Seq<EntryView>> {
        Map::new(
            |k: Seq<u8>| self.streams.map().contains_key(k),
            |k: Seq<u8>| entry_views(self.streams.map()[k].entries@),
        )
    }
}

impl RadixTreeStore {
    /// Every stream holds an entry or more, in strictly increasing order of
    /// id, under its own key.
    pub closed spec fn wf(&self) -> bool {
        &&& self.streams.wf()
        &&& forall|k: Seq<u8>| #[trigger]
            self.streams.map().contains_key(k) ==> self.streams.map()[k].wf(k)
    }

    /// What holds of every store: a stream is never empty, its entries stand
    /// in strictly increasing order of id and carry its key.
    pub proof fn lemma_wf(&self)
        requires
            self.wf(),
        ensures
            forall|k: Seq<u8>| #[trigger]
                self@.contains_key(k) ==> self@[k].len() > 0 && increasing(self@[k]) && forall|
                    i: int,
                |
                    0 <= i < self@[k].len() ==> (#[trigger] self@[k][i]).key == k,
    {
        assert forall|k: Seq<u8>| #[trigger] self@.contains_key(k) implies self@[k].len() > 0
            && increasing(self@[k]) && forall|i: int|
            0 <= i < self@[k].len() ==> (#[trigger] self@[k][i]).key == k by {
            let s = self.streams.map()[k];
            assert(s.wf(k));
            assert forall|i: int, j: int| 0 <= i < j < self@[k].len() implies id_below(
                (#[trigger] self@[k][i]).entry_id,
                (#[trigger] self@[k][j]).entry_id,
            ) by {
                assert(id_below(s.entries@[i].entry_id, s.entries@[j].entry_id));
            }
            assert forall|i: int| 0 <= i < self@[k].len() implies (#[trigger] self@[k][i]).key
                == k by {
                assert(s.entries@[i].key@ == k);
            }
        }
    }

    /// A store without streams.
    pub fn new() -> (r: Self)
        ensures
            r.wf(),
            r@ == Map::<Seq<u8>, Seq<EntryView>>::empty(),
    {
        let r = RadixTreeStore { streams: ByteMap::new() };
        assert(r@ =~= Map::<Seq<u8>, Seq<EntryView>>::empty());
        r
    }

    /// The last id of the stream under `key`; `0-0` where there is none.
    pub fn last_id(&self, key: &[u8]) -> (r: EntryID)
        requires
            self.wf(),
        ensures
            r == last_of(entries_of(self@, key@)),
    {
        match self.streams.get(key) {
            Some(s) => {
                assert(s.wf(key@));
                s.last_entry_id
            },
            None => EntryID { milliseconds_time: 0, sequence_number: 0 },
        }
    }

    /// The id that a new entry under `key` would get.
    pub fn new_entry_id(&self, key: &[u8], entry_id_str: &[u8], now: u128) -> (r: Result<
        EntryID,
        StreamError,
    >)
        requires
            self.wf(),
        ensures
            r == new_id(entry_id_str@, last_of(entries_of(self@, key@)), now),
    {
        next_entry_id(self.last_id(key), entry_id_str, now)
    }

    /// Appends an entry to the stream under `key`, which it opens where there
    /// is none. Nothing changes where the id is refused.
    pub fn insert(&mut self, key: &[u8], entry_id: &[u8], data: Vec<(Vec<u8>, Vec<u8>)>, now: u128)
        -> (r: Result<EntryID, StreamError>)
        requires
            old(self).wf(),
        ensures
            final(self).wf(),
            r == new_id(entry_id@, last_of(entries_of(old(self)@, key@)), now),
            match r {
                Ok(id) => final(self)@ == old(self)@.insert(
                    key@,
                    entries_of(old(self)@, key@).push(
                        EntryView { key: key@, entry_id: id, data: pair_seqs(data@) },
                    ),
                ),
                Err(_) => final(self)@ == old(self)@,
            },
            entries_of(final(self)@, key@) == after_run(
                entries_of(old(self)@, key@),
                key@,
                seq![(Append { id: entry_id@, data: pair_seqs(data@), now })],
                1,
            ),
    {
        proof {
            let run = seq![(Append { id: entry_id@, data: pair_seqs(data@), now })];
            assert(after_run(entries_of(self@, key@), key@, run, 0) == entries_of(self@, key@));
        }
        let id = match self.new_entry_id(key, entry_id, now) {
            Ok(id) => id,
            Err(e) => {
                return Err(e);
            },
        };
        let entry = StreamEntry { key: copy_bytes(key), entry_id: id, data };
        let ghost target = self@.insert(key@, entries_of(self@, key@).push(entry@));
        match self.streams.index_of(key) {
            Some(i) => {
                proof {
                    self.streams.lemma_bindings();
                }
                let vacant = Stream { entries: Vec::new(), last_entry_id: id };
                let mut stream = self.streams.replace_at(i, vacant);
                assert(stream.wf(key@));
                let ghost before = stream.entries@;
                stream.entries.push(entry);
                stream.last_entry_id = id;
                assert(stream.wf(key@)) by {
                    assert forall|a: int, b: int| 0 <= a < b < stream.entries@.len() implies id_below(
                        (#[trigger] stream.entries@[a]).entry_id,
                        (#[trigger] stream.entries@[b]).entry_id,
                    ) by {
                        if b < before.len() {
                            assert(id_below(before[a].entry_id, before[b].entry_id));
                        } else if a < before.len() - 1 {
                            assert(id_below(before[a].entry_id, before[before.len() - 1].entry_id));
                        }
                    }
                }
                assert(entry_views(stream.entries@) =~= entry_views(before).push(entry@));
                let _ = self.streams.replace_at(i, stream);
                proof {
                    assert(self@ =~= target);
                }
            },
            None => {
                let mut entries: Vec<StreamEntry> = Vec::new();
                entries.push(entry);
                let stream = Stream { entries, last_entry_id: id };
                assert(entry_views(stream.entries@) =~= Seq::<EntryView>::empty().push(entry@));
                let _ = self.streams.insert(copy_bytes(key), stream);
                proof {
                    assert(self@ =~= target);
                }
            },
        }
        Ok(id)
    }

    /// The entry of the stream under `key` whose id is written `entry_id`.
    pub fn get(&self, key: &[u8], entry_id: &[u8]) -> (r: Option<StreamEntry>)
        requires
            self.wf(),
        ensures
            match r {
                Some(e) => exists|i: int|
                    0 <= i < entries_of(self@, key@).len() && #[trigger] entries_of(self@, key@)[i]
                        == e@ && id_text(e@.entry_id) == entry_id@,
                None => forall|i: int|
                    0 <= i < entries_of(self@, key@).len() ==> id_text(
                        (#[trigger] entries_of(self@, key@)[i]).entry_id,
                    ) != entry_id@,
            },
    {
        match self.streams.get(key) {
            Some(s) => {
                let ghost all = entry_views(s.entries@);
                let mut i: usize = 0;
                while i < s.entries.len()
                    invariant
                        i <= s.entries@.len(),
                        all == entry_views(s.entries@),
                        all == entries_of(self@, key@),
                        forall|j: int| 0 <= j < i ==> id_text((#[trigger] all[j]).entry_id) != entry_id@,
                    decreases s.entries@.len() - i,
                {
                    let text = s.entries[i].entry_id.print();
                    assert(all[i as int] == s.entries@[i as int]@);
                    if bytes_eq(text.as_slice(), entry_id) {
                        return Some(s.entries[i].duplicate());
                    }
                    i += 1;
                }
                None
            },
            None => None,
        }
    }

    /// The shortest beginning of `key` under which a stream stands.
    pub fn check_key(&self, key: &[u8]) -> (r: Option<Vec<u8>>)
        requires
            self.wf(),
        ensures
            match r {
                Some(k) => self@.contains_key(k@) && is_prefix(k@, key@) && forall|p: Seq<u8>|
                    self@.contains_key(p) && is_prefix(p, key@) ==> k@.len() <= p.len(),
                None => forall|p: Seq<u8>| is_prefix(p, key@) ==> !self@.contains_key(p),
            },
    {
        let mut n: usize = 0;
        loop
            invariant
                n <= key@.len(),
                self.wf(),
                forall|p: Seq<u8>| is_prefix(p, key@) && p.len() < n ==> !self@.contains_key(p),
            decreases key@.len() - n,
        {
            let prefix = copy_range(key, 0, n);
            if self.streams.contains_key(prefix.as_slice()) {
                return Some(prefix);
            }
            assert forall|p: Seq<u8>| is_prefix(p, key@) && p.len() < n + 1 implies !self@.contains_key(
                p,
            ) by {
                if p.len() == n {
                    assert(p =~= prefix@);
                }
            }
            if n == key.len() {
                return None;
            }
            n += 1;
        }
    }

    /// The entries of the stream under `key` that the range from `start` to
    /// `end` covers, in order. See `range_of` for how the two are read.
    pub fn xrange(&self, key: &[u8], start: &[u8], end: &[u8]) -> (r: Result<
        Vec<StreamEntry>,
        StreamError,
    >)
        requires
            self.wf(),
        ensures
            match r {
                Ok(found) => {
                    &&& self@.contains_key(key@)
                    &&& range_of(start@, end@, last_of(self@[key@])) matches Some(range)
                    &&& entry_views(found@) == selected(self@[key@], range, self@[key@].len())
                    &&& found@.len() > 0
                },
                Err(e) => if !self@.contains_key(key@) {
                    e == StreamError::KeyNotFound
                } else {
                    match range_of(start@, end@, last_of(self@[key@])) {
                        None => e == StreamError::NotValid,
                        Some(range) => e == StreamError::NoEntriesInRange && selected(
                            self@[key@],
                            range,
                            self@[key@].len(),
                        ).len() == 0,
                    }
                },
            },
    {
        let s = match self.streams.get(key) {
            Some(s) => s,
            None => {
                return Err(StreamError::KeyNotFound);
            },
        };
        assert(s.wf(key@));
        let ghost all = entry_views(s.entries@);
        assert(all == self@[key@]);
        let range = match parse_range(start, end, s.last_entry_id) {
            Some(range) => range,
            None => {
                return Err(StreamError::NotValid);
            },
        };
        let mut found: Vec<StreamEntry> = Vec::new();
        let mut i: usize = 0;
        while i < s.entries.len()
            invariant
                i <= s.entries@.len(),
                all == entry_views(s.entries@),
                entry_views(found@) == selected(all, range, i as nat),
            decreases s.entries@.len() - i,
        {
            assert(all[i as int] == s.entries@[i as int]@);
            if range.has(&s.entries[i].entry_id) {
                let ghost before = entry_views(found@);
                found.push(s.entries[i].duplicate());
                assert(entry_views(found@) =~= before.push(all[i as int]));
            }
            i += 1;
        }
        if found.len() == 0 {
            return Err(StreamError::NoEntriesInRange);
        }
        Ok(found)
    }
}

/// Of two appends to one stream, one right after the other, the id of the
/// second stands above that of the first.
pub proof fn lemma_ids_increase(
    m: Map<Seq<u8>, Seq<EntryView>>,
    key: Seq<u8>,
    first_id: Seq<u8>,
    first_data: Seq<(Seq<u8>, Seq<u8>)>,
    first_now: u128,
    second_id: Seq<u8>,
    second_now: u128,
)
    ensures
        ({
            let first = new_id(first_id, last_of(entries_of(m, key)), first_now);
            first matches Ok(a) ==> {
                let after = m.insert(
                    key,
                    entries_of(m, key).push(EntryView { key, entry_id: a, data: first_data }),
                );
                new_id(second_id, last_of(entries_of(after, key)), second_now) matches Ok(b)
                    ==> id_below(a, b)
            }
        }),
{
}

// ---------------------------------------------------------------------------
// Waiting for an entry
// ---------------------------------------------------------------------------

/// The id that a reader waits to see passed: the last id of the stream at
/// the time it began to wait where it wrote `$`, else the id it wrote.
pub open spec fn waited_for(entry_id: Seq<u8>, last_at_entry: EntryID) -> Option<EntryID> {
    if entry_id == seq![DOLLAR] {
        Some(last_at_entry)
    } else {
        bound_id(entry_id, 0)
    }
}

/// What a reader that waits for an entry makes of the news that an entry
/// was appended, or that its time is up (`appended` is `None`): it goes on
/// with the last id at the time it began to wait and the id of the new
/// entry where that id is past the one it waits for, and not otherwise.
pub open spec fn availability(entry_id: Seq<u8>, last_at_entry: EntryID, appended: Option<EntryID>)
    -> Option<(EntryID, EntryID)> {
    match (waited_for(entry_id, last_at_entry), appended) {
        (Some(after), Some(new)) => if id_below(after, new) {
            Some((last_at_entry, new))
        } else {
            None
        },
        _ => None,
    }
}

impl RadixTreeStore {
    /// See `availability`.
    pub fn check_availability(entry_id: &[u8], last_at_entry: EntryID, appended: Option<EntryID>)
        -> (r: Option<(EntryID, EntryID)>)
        ensures
            r == availability(entry_id@, last_at_entry, appended),
    {
        let after = if is_one(entry_id, DOLLAR) {
            Some(last_at_entry)
        } else {
            parse_bound(entry_id, 0)
        };
        match (after, appended) {
            (Some(after), Some(new)) => {
                if after.is_below(&new) {
                    Some((last_at_entry, new))
                } else {
                    None
                }
            },
            _ => None,
        }
    }
}

/// In a list of entries in strictly increasing order of id, no id stands
/// above the last one: the last id of a stream is its greatest.
pub proof fn lemma_last_id_is_greatest(entries: Seq<EntryView>)
    requires
        increasing(entries),
    ensures
        forall|i: int|
            0 <= i < entries.len() ==> id_at_most((#[trigger] entries[i]).entry_id, last_of(entries)),
{
    assert forall|i: int| 0 <= i < entries.len() implies id_at_most(
        (#[trigger] entries[i]).entry_id,
        last_of(entries),
    ) by {
        if i < entries.len() - 1 {
            assert(id_below(entries[i].entry_id, entries[entries.len() - 1].entry_id));
        }
    }
}

/// An append keeps the order: a list in strictly increasing order of id
/// with an entry behind it whose id `new_id` gave out is one again.
pub proof fn lemma_append_keeps_order(
    entries: Seq<EntryView>,
    id: Seq<u8>,
    now: u128,
    entry: EntryView,
)
    requires
        increasing(entries),
        new_id(id, last_of(entries), now) == Ok::<EntryID, StreamError>(entry.entry_id),
    ensures
        increasing(entries.push(entry)),
        last_of(entries.push(entry)) == entry.entry_id,
{
    let after = entries.push(entry);
    lemma_last_id_is_greatest(entries);
    assert forall|i: int, j: int| 0 <= i < j < after.len() implies id_below(
        (#[trigger] after[i]).entry_id,
        (#[trigger] after[j]).entry_id,
    ) by {
        if j < entries.len() {
            assert(id_below(entries[i].entry_id, entries[j].entry_id));
        } else {
            assert(id_at_most(entries[i].entry_id, last_of(entries)));
        }
    }
}

// ---------------------------------------------------------------------------
// Runs of appends
// ---------------------------------------------------------------------------

/// A request to append an entry: the id as the client wrote it, the
/// fields, and the wall clock in milliseconds when it arrived.
pub struct Append {
    pub id: Seq<u8>,
    pub data: Seq<(Seq<u8>, Seq<u8>)>,
    pub now: u128,
}

/// The entries of the stream under `key` after the first `n` requests of
/// `run`, each taken as `insert` takes it: a request whose id is given out
/// adds an entry, and one whose id is refused changes nothing.
pub open spec fn after_run(entries: Seq<EntryView>, key: Seq<u8>, run: Seq<Append>, n: nat) -> Seq<
    EntryView,
>
    decreases n,
{
    if n == 0 || n > run.len() {
        entries
    } else {
        let before = after_run(entries, key, run, (n - 1) as nat);
        match new_id(run[n - 1].id, last_of(before), run[n - 1].now) {
            Ok(id) => before.push(EntryView { key, entry_id: id, data: run[n - 1].data }),
            Err(_) => before,
        }
    }
}

/// The ids that the first `n` requests of `run` were given, in the order of
/// the requests.
pub open spec fn ids_given(entries: Seq<EntryView>, key: Seq<u8>, run: Seq<Append>, n: nat) -> Seq<
    EntryID,
>
    decreases n,
{
    if n == 0 || n > run.len() {
        Seq::<EntryID>::empty()
    } else {
        let given = ids_given(entries, key, run, (n - 1) as nat);
        match new_id(
            run[n - 1].id,
            last_of(after_run(entries, key, run, (n - 1) as nat)),
            run[n - 1].now,
        ) {
            Ok(id) => given.push(id),
            Err(_) => given,
        }
    }
}

/// In a run of appends to one stream, of any length and with ids in any of
/// the three forms, the ids that are given out stand in strictly
/// increasing order, each above every id that the stream held before; the
/// entries that the stream had stay, with one entry behind them for each id
/// given out, in that order; and the last id of the stream is the id that
/// was given out last.
pub proof fn lemma_run_of_appends(entries: Seq<EntryView>, key: Seq<u8>, run: Seq<Append>, n: nat)
    requires
        increasing(entries),
        n <= run.len(),
    ensures
        ({
            let end = after_run(entries, key, run, n);
            let given = ids_given(entries, key, run, n);
            &&& increasing(end)
            &&& end.len() == entries.len() + given.len()
            &&& end.subrange(0, entries.len() as int) == entries
            &&& forall|i: int|
                0 <= i < given.len() ==> (#[trigger] end[entries.len() + i]).entry_id == given[i]
            &&& forall|i: int, j: int|
                0 <= i < j < given.len() ==> id_below(#[trigger] given[i], #[trigger] given[j])
            &&& forall|i: int|
                0 <= i < given.len() ==> id_below(last_of(entries), #[trigger] given[i])
            &&& given.len() > 0 ==> last_of(end) == given.last()
            &&& given.len() == 0 ==> end == entries
        }),
    decreases n,
{
    let end = after_run(entries, key, run, n);
    let given = ids_given(entries, key, run, n);
    if n == 0 {
        assert(end.subrange(0, entries.len() as int) =~= entries);
    } else {
        let m = (n - 1) as nat;
        let before = after_run(entries, key, run, m);
        let earlier = ids_given(entries, key, run, m);
        lemma_run_of_appends(entries, key, run, m);
        match new_id(run[n - 1].id, last_of(before), run[n - 1].now) {
            Ok(id) => {
                let entry = EntryView { key, entry_id: id, data: run[n - 1].data };
                lemma_append_keeps_order(before, run[n - 1].id, run[n - 1].now, entry);
                lemma_last_id_is_greatest(before);
                assert(end == before.push(entry));
                assert(given == earlier.push(id));
                assert(end.subrange(0, entries.len() as int) =~= before.subrange(
                    0,
                    entries.len() as int,
                ));
                assert forall|i: int| 0 <= i < given.len() implies (#[trigger] end[entries.len()
                    + i]).entry_id == given[i] by {
                    if i < earlier.len() {
                        assert(before[entries.len() + i].entry_id == earlier[i]);
                    }
                }
                assert forall|i: int| 0 <= i < given.len() implies id_below(
                    last_of(entries),
                    #[trigger] given[i],
                ) by {
                    if i == earlier.len() && entries.len() > 0 {
                        assert(id_below(
                            end[entries.len() - 1].entry_id,
                            end[end.len() - 1].entry_id,
                        ));
                    }
                }
                assert forall|i: int, j: int| 0 <= i < j < given.len() implies id_below(
                    #[trigger] given[i],
                    #[trigger] given[j],
                ) by {
                    if j == earlier.len() {
                        assert(id_below(
                            end[entries.len() + i].entry_id,
                            end[entries.len() + j].entry_id,
                        ));
                    }
                }
            },
            Err(_) => {},
        }
    }
}

} // verus!
