//! Keys bound to values, each with an optional deadline after which it is
//! gone.

use crate::bytemap::ByteMap;
use crate::text::copy_bytes;
use vstd::prelude::*;

verus! {

/// A value and the time, in milliseconds, after which it has expired.
pub struct KvEntry {
    pub value: Vec<u8>,
    pub expires_at: Option<u64>,
}

/// What a `KvEntry` stands for.
pub struct KvValue {
    pub value: Seq<u8>,
    pub expires_at: Option<u64>,
}

impl View for KvEntry {
    type V = KvValue;

    open spec fn view(&self) -> KvValue {
        KvValue { value: self.value@, expires_at: self.expires_at }
    }
}

/// The deadline of a binding made at `now` with `ttl` milliseconds to live.
/// A deadline past the end of the clock stands at its end.
pub open spec fn deadline(now: u64, ttl: Option<u64>) -> Option<u64> {
    match ttl {
        Some(t) => Some(
            if now + t > u64::MAX {
                u64::MAX
            } else {
                (now + t) as u64
            },
        ),
        None => None,
    }
}

/// A binding has expired once the clock is past its deadline.
pub open spec fn expired(v: KvValue, now: u64) -> bool {
    v.expires_at matches Some(d) && now > d
}

/// What a read of `k` at `now` returns.
pub open spec fn lookup(m: Map<Seq<u8>, KvValue>, k: Seq<u8>, now: u64) -> Option<Seq<u8>> {
    if m.contains_key(k) && !expired(m[k], now) {
        Some(m[k].value)
    } else {
        None
    }
}

/// The store after a read of `k` at `now`: an expired binding is dropped.
pub open spec fn after_get(m: Map<Seq<u8>, KvValue>, k: Seq<u8>, now: u64) -> Map<
    Seq<u8>,
    KvValue,
> {
    if m.contains_key(k) && expired(m[k], now) {
        m.remove(k)
    } else {
        m
    }
}

/// The bindings that have not expired at `now`.
pub open spec fn live(m: Map<Seq<u8>, KvValue>, now: u64) -> Map<Seq<u8>, KvValue> {
    Map::new(|k: Seq<u8>| m.contains_key(k) && !expired(m[k], now), |k: Seq<u8>| m[k])
}

/// How many of the first `n` values carry a deadline.
pub open spec fn count_deadlines(vals: Seq<KvValue>, n: nat) -> nat
    decreases n,
{
    if n == 0 || n > vals.len() {
        0
    } else if vals[n - 1].expires_at is Some {
        count_deadlines(vals, (n - 1) as nat) + 1
    } else {
        count_deadlines(vals, (n - 1) as nat)
    }
}

/// No more values carry a deadline than there are values.
pub proof fn lemma_count_deadlines_bound(vals: Seq<KvValue>, n: nat)
    ensures
        count_deadlines(vals, n) <= n,
    decreases n,
{
    if n > 0 && n <= vals.len() {
        lemma_count_deadlines_bound(vals, (n - 1) as nat);
    }
}

/// One binding of a snapshot: key, value, deadline.
#[derive(Debug, PartialEq)]
pub struct KvItem {
    pub key: Vec<u8>,
    pub value: Vec<u8>,
    pub expires_at: Option<u64>,
}

impl KvItem {
    /// The key and the value of the binding.
    pub open spec fn binding(self) -> (Seq<u8>, KvValue) {
        (self.key@, KvValue { value: self.value@, expires_at: self.expires_at })
    }
}

/// A snapshot of the bindings, handed out one by one.
pub struct KeyValueStoreIterator {
    items: Vec<KvItem>,
    pos: usize,
}

impl KeyValueStoreIterator {
    /// The bindings not handed out yet, as pairs of key and value.
    pub closed spec fn remaining(&self) -> Seq<(Seq<u8>, KvValue)> {
        Seq::new(
            (self.items@.len() - self.pos) as nat,
            |i: int| self.items@[self.pos + i].binding(),
        )
    }

    /// The snapshot stands inside its items.
    pub closed spec fn wf(&self) -> bool {
        self.pos <= self.items@.len()
    }

    /// The next binding of the snapshot.
    pub fn next(&mut self) -> (r: Option<KvItem>)
        requires
            old(self).wf(),
        ensures
            final(self).wf(),
            match r {
                Some(item) => old(self).remaining().len() > 0 && item.binding() == old(
                    self,
                ).remaining()[0] && final(self).remaining() == old(self).remaining().skip(1),
                None => old(self).remaining().len() == 0 && final(self).remaining() == old(
                    self,
                ).remaining(),
            },
    {
        if self.pos < self.items.len() {
            let item = &self.items[self.pos];
            let r = KvItem {
                key: copy_bytes(item.key.as_slice()),
                value: copy_bytes(item.value.as_slice()),
                expires_at: item.expires_at,
            };
            self.pos = self.pos + 1;
            assert(self.remaining() =~= old(self).remaining().skip(1));
            Some(r)
        } else {
            None
        }
    }
}

/// The key-value store.
pub struct KeyValueStore {
    hash_map: ByteMap<KvEntry>,
}

impl View for KeyValueStore {
    type V = Map<Seq<u8>, KvValue>;

    closed spec fn view(&self) -> Map<Seq<u8>, KvValue> {
        Map::new(
            |k: Seq<u8>| self.hash_map.map().contains_key(k),
            |k: Seq<u8>| self.hash_map.map()[k]@,
        )
    }
}

impl KeyValueStore {
    /// The store is in order.
    pub closed spec fn wf(&self) -> bool {
        self.hash_map.wf()
    }

    /// The keys, in the order in which they were first bound.
    pub closed spec fn keys(&self) -> Seq<Seq<u8>> {
        self.hash_map.key_seq()
    }

    /// The values, each at the index of its key in `keys`.
    pub closed spec fn values(&self) -> Seq<KvValue> {
        Seq::new(self.hash_map.val_seq().len(), |i: int| self.hash_map.val_seq()[i]@)
    }

    /// The list of bindings and the map say the same.
    pub proof fn lemma_bindings(&self)
        requires
            self.wf(),
        ensures
            self.keys().len() == self.values().len(),
            self.keys().no_duplicates(),
            forall|i: int|
                0 <= i < self.keys().len() ==> self@.contains_key(#[trigger] self.keys()[i])
                    && self@[self.keys()[i]] == self.values()[i],
            forall|k: Seq<u8>| #[trigger]
                self@.contains_key(k) ==> exists|i: int|
                    0 <= i < self.keys().len() && #[trigger] self.keys()[i] == k,
            self@.dom().finite(),
            self@.dom().len() == self.keys().len(),
            self.keys().to_set() == self@.dom(),
    {
        self.hash_map.lemma_bindings();
        assert(self@.dom() =~= self.hash_map.map().dom());
    }

    /// The keys, in the order in which they were first bound.
    pub fn key_list(&self) -> (r: Vec<Vec<u8>>)
        requires
            self.wf(),
        ensures
            crate::text::byte_seqs(r@) == self.keys(),
    {
        proof {
            self.hash_map.lemma_bindings();
        }
        let n = self.hash_map.len();
        let mut r: Vec<Vec<u8>> = Vec::new();
        let mut i: usize = 0;
        while i < n
            invariant
                self.wf(),
                i <= n,
                n == self.hash_map.key_seq().len(),
                r@.len() == i,
                forall|j: int| 0 <= j < i ==> (#[trigger] r@[j])@ == self.keys()[j],
            decreases n - i,
        {
            r.push(copy_bytes(self.hash_map.key_at(i).as_slice()));
            i += 1;
        }
        assert(crate::text::byte_seqs(r@) =~= self.keys());
        r
    }

    /// An empty store: no key is bound, and no key or value is listed.
    pub fn new() -> (r: Self)
        ensures
            r.wf(),
            r@ == Map::<Seq<u8>, KvValue>::empty(),
            r.keys() == Seq::<Seq<u8>>::empty(),
            r.values() == Seq::<KvValue>::empty(),
    {
        let r = KeyValueStore { hash_map: ByteMap::new() };
        assert(r@ =~= Map::<Seq<u8>, KvValue>::empty());
        assert(r.values() =~= Seq::<KvValue>::empty());
        r
    }

    /// The number of bindings.
    pub fn get_ht_size(&self) -> (r: usize)
        requires
            self.wf(),
        ensures
            r == self@.dom().len(),
            r == self.keys().len(),
    {
        proof {
            self.lemma_bindings();
        }
        self.hash_map.len()
    }

    /// The number of bindings that carry a deadline.
    pub fn get_ht_expire_size(&self) -> (r: usize)
        requires
            self.wf(),
        ensures
            r == count_deadlines(self.values(), self.values().len()),
    {
        proof {
            self.hash_map.lemma_bindings();
        }
        let n = self.hash_map.len();
        let mut count: usize = 0;
        let mut i: usize = 0;
        while i < n
            invariant
                self.wf(),
                i <= n,
                n == self.hash_map.key_seq().len(),
                n == self.values().len(),
                count == count_deadlines(self.values(), i as nat),
                count <= i,
            decreases n - i,
        {
            let e = self.hash_map.value_at(i);
            assert(self.values()[i as int] == e@);
            if e.expires_at.is_some() {
                count += 1;
            }
            i += 1;
        }
        count
    }

    /// A snapshot of the bindings, in the order of `keys`.
    pub fn iter(&self) -> (r: KeyValueStoreIterator)
        requires
            self.wf(),
        ensures
            r.wf(),
            r.remaining() == self.keys().zip_with(self.values()),
    {
        proof {
            self.hash_map.lemma_bindings();
        }
        let n = self.hash_map.len();
        let mut items: Vec<KvItem> = Vec::new();
        let mut i: usize = 0;
        while i < n
            invariant
                self.wf(),
                i <= n,
                n == self.hash_map.key_seq().len(),
                n == self.values().len(),
                items@.len() == i,
                forall|j: int|
                    0 <= j < i ==> (#[trigger] items@[j]).binding() == (
                        self.keys()[j],
                        self.values()[j],
                    ),
            decreases n - i,
        {
            let k = self.hash_map.key_at(i);
            let e = self.hash_map.value_at(i);
            assert(self.values()[i as int] == e@);
            items.push(
                KvItem {
                    key: copy_bytes(k.as_slice()),
                    value: copy_bytes(e.value.as_slice()),
                    expires_at: e.expires_at,
                },
            );
            i += 1;
        }
        let r = KeyValueStoreIterator { items, pos: 0 };
        assert(r.remaining() =~= self.keys().zip_with(self.values()));
        r
    }

    /// Binds `k` to `v`, with `expiry` milliseconds to live from `now` on
    /// where one is given. Hands back the value that was bound before.
    pub fn insert(&mut self, k: Vec<u8>, v: Vec<u8>, expiry: Option<u64>, now: u64) -> (r: Option<
        Vec<u8>,
    >)
        requires
            old(self).wf(),
        ensures
            final(self).wf(),
            final(self)@ == old(self)@.insert(
                k@,
                KvValue { value: v@, expires_at: deadline(now, expiry) },
            ),
            match r {
                Some(b) => old(self)@.contains_key(k@) && b@ == old(self)@[k@].value,
                None => !old(self)@.contains_key(k@),
            },
    {
        let expires_at = match expiry {
            Some(t) => Some(now.saturating_add(t)),
            None => None,
        };
        let ghost target = self@.insert(k@, KvValue { value: v@, expires_at });
        let before = self.hash_map.insert(k, KvEntry { value: v, expires_at });
        assert(self@ =~= target);
        match before {
            Some(e) => Some(e.value),
            None => None,
        }
    }

    /// Reads `k` at `now`. A binding that has expired is dropped and reads
    /// as absent.
    pub fn get(&mut self, k: &[u8], now: u64) -> (r: Option<Vec<u8>>)
        requires
            old(self).wf(),
        ensures
            final(self).wf(),
            final(self)@ == after_get(old(self)@, k@, now),
            match r {
                Some(v) => lookup(old(self)@, k@, now) == Some(v@),
                None => lookup(old(self)@, k@, now) is None,
            },
    {
        let gone = match self.hash_map.get(k) {
            Some(e) => {
                match e.expires_at {
                    Some(d) => {
                        if now > d {
                            true
                        } else {
                            return Some(copy_bytes(e.value.as_slice()));
                        }
                    },
                    None => {
                        return Some(copy_bytes(e.value.as_slice()));
                    },
                }
            },
            None => {
                return None;
            },
        };
        let ghost target = self@.remove(k@);
        let _ = self.hash_map.remove(k);
        assert(self@ =~= target);
        None
    }

    /// Reads `k` at `now` and leaves the store as it is.
    pub fn peek(&self, k: &[u8], now: u64) -> (r: Option<Vec<u8>>)
        requires
            self.wf(),
        ensures
            match r {
                Some(v) => lookup(self@, k@, now) == Some(v@),
                None => lookup(self@, k@, now) is None,
            },
    {
        match self.hash_map.get(k) {
            Some(e) => {
                match e.expires_at {
                    Some(d) => {
                        if now > d {
                            None
                        } else {
                            Some(copy_bytes(e.value.as_slice()))
                        }
                    },
                    None => Some(copy_bytes(e.value.as_slice())),
                }
            },
            None => None,
        }
    }

    /// Whether `k` is bound, expired or not.
    pub fn contains_key(&self, k: &[u8]) -> (r: bool)
        requires
            self.wf(),
        ensures
            r == self@.contains_key(k@),
    {
        self.hash_map.contains_key(k)
    }

    /// Drops every binding that has expired at `now`.
    pub fn prune(&mut self, now: u64)
        requires
            old(self).wf(),
        ensures
            final(self).wf(),
            final(self)@ == live(old(self)@, now),
    {
        let mut i: usize = 0;
        proof {
            self.hash_map.lemma_bindings();
        }
        while i < self.hash_map.len()
            invariant
                self.wf(),
                i <= self.hash_map.key_seq().len(),
                forall|j: int|
                    0 <= j < i ==> !expired(self@[#[trigger] self.hash_map.key_seq()[j]], now),
                live(self@, now) == live(old(self)@, now),
            decreases self.hash_map.key_seq().len() - i,
        {
            proof {
                self.hash_map.lemma_bindings();
            }
            let e = self.hash_map.value_at(i);
            let dead = match e.expires_at {
                Some(d) => now > d,
                None => false,
            };
            if dead {
                let ghost before = self@;
                let ghost keys_before = self.hash_map.key_seq();
                let _ = self.hash_map.remove_at(i);
                proof {
                    self.hash_map.lemma_bindings();
                    let gone = keys_before[i as int];
                    assert(self@ =~= before.remove(gone));
                    assert(live(self@, now) =~= live(before, now));
                    assert forall|j: int| 0 <= j < i implies !expired(
                        self@[#[trigger] self.hash_map.key_seq()[j]],
                        now,
                    ) by {
                        assert(self.hash_map.key_seq()[j] == keys_before[j]);
                        assert(keys_before[j] != gone);
                    }
                }
            } else {
                i += 1;
            }
        }
        proof {
            self.hash_map.lemma_bindings();
            assert(self@ =~= live(self@, now)) by {
                assert forall|k: Seq<u8>| self@.contains_key(k) implies !expired(self@[k], now) by {
                    let j = choose|j: int|
                        0 <= j < self.hash_map.key_seq().len() && self.hash_map.key_seq()[j] == k;
                    assert(!expired(self@[self.hash_map.key_seq()[j]], now));
                }
            }
        }
    }
}

/// Time to live: a value bound at `now` with `ttl` milliseconds to live is
/// read back while less than `ttl` milliseconds have passed, and is absent
/// once more than `ttl` have.
pub proof fn lemma_ttl(
    m: Map<Seq<u8>, KvValue>,
    k: Seq<u8>,
    v: Seq<u8>,
    ttl: u64,
    now: u64,
    later: u64,
)
    requires
        now <= later,
    ensures
        ({
            let bound = m.insert(k, KvValue { value: v, expires_at: deadline(now, Some(ttl)) });
            &&& later - now < ttl ==> lookup(bound, k, later) == Some(v)
            &&& later - now > ttl ==> lookup(bound, k, later) is None
        }),
{
}

/// The pause between two sweeps of the store, in milliseconds.
pub const PRUNE_INTERVAL_MS: u64 = 50;

/// One sweep of the store: every binding that has expired at `now` is
/// dropped. The sweeper runs it every `PRUNE_INTERVAL_MS`.
pub fn prune_database(db: &mut KeyValueStore, now: u64)
    requires
        old(db).wf(),
    ensures
        final(db).wf(),
        final(db)@ == live(old(db)@, now),
{
    db.prune(now);
}

/// A sweep changes no read: what a read at or after the time of the sweep
/// returns is the same before and after it.
pub proof fn lemma_prune_keeps_reads(m: Map<Seq<u8>, KvValue>, now: u64, k: Seq<u8>, later: u64)
    requires
        now <= later,
    ensures
        lookup(live(m, now), k, later) == lookup(m, k, later),
{
}

/// The store under the name it has where it is swept in the background.
pub type ExpiringHashMap = KeyValueStore;

/// The snapshot of an `ExpiringHashMap`.
pub type ExpiringHashMapIterator = KeyValueStoreIterator;

} // verus!
