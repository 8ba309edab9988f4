//! A store of values that expire a given time after they were bound.

use crate::bytemap::ByteMap;
use crate::resp::{RespData, RespValue};
use crate::text::copy_bytes;
use vstd::prelude::*;
use vstd::string::StringSliceAdditionalSpecFns;

verus! {

/// A value, the time at which it was bound, and how long it lives, both in
/// milliseconds. A value with 0 to live lives for ever.
#[derive(Debug)]
pub struct Item {
    pub value: Vec<u8>,
    pub created: u64,
    pub expires: usize,
}

/// Whether an item has expired at `now`.
pub open spec fn item_expired(item: Item, now: u64) -> bool {
    item.expires > 0 && now > item.created && now - item.created > item.expires
}

/// Items by key.
pub struct Storage {
    storage: ByteMap<Item>,
}

impl View for Storage {
    type V = Map<Seq<u8>, Item>;

    closed spec fn view(&self) -> Map<Seq<u8>, Item> {
        self.storage.map()
    }
}

impl Storage {
    /// The store is in order.
    pub closed spec fn wf(&self) -> bool {
        self.storage.wf()
    }

    /// An empty store.
    pub fn new() -> (r: Self)
        ensures
            r.wf(),
            r@ == Map::<Seq<u8>, Item>::empty(),
    {
        Storage { storage: ByteMap::new() }
    }

    /// Binds `key` to `value` at `now`, with `expires` milliseconds to live;
    /// answers `OK`.
    pub fn set(&mut self, key: &[u8], value: &[u8], expires: usize, now: u64) -> (r: RespData)
        requires
            old(self).wf(),
        ensures
            final(self).wf(),
            final(self)@.dom() == old(self)@.dom().insert(key@),
            final(self)@[key@].value@ == value@,
            final(self)@[key@].created == now,
            final(self)@[key@].expires == expires,
            forall|k: Seq<u8>| k != key@ && old(self)@.contains_key(k) ==> final(self)@[k] == old(
                self,
            )@[k],
            r@ == RespValue::String("OK".spec_bytes()),
    {
        let item = Item { value: copy_bytes(value), created: now, expires };
        let _ = self.storage.insert(copy_bytes(key), item);
        RespData::String(copy_bytes("OK".as_bytes()))
    }

    /// The item under `key`, unless it has expired at `now`.
    pub fn get(&self, key: &[u8], now: u64) -> (r: Option<&Item>)
        requires
            self.wf(),
        ensures
            r == (if self@.contains_key(key@) && !item_expired(self@[key@], now) {
                Some(&self@[key@])
            } else {
                None
            }),
    {
        match self.storage.get(key) {
            Some(item) => {
                let is_expired = item.expires > 0 && now > item.created && (now - item.created) as u128
                    > item.expires as u128;
                if is_expired {
                    None
                } else {
                    Some(item)
                }
            },
            None => None,
        }
    }
}

impl Default for Storage {
    fn default() -> (r: Self)
        ensures
            r.wf(),
            r@ == Map::<Seq<u8>, Item>::empty(),
    {
        Storage::new()
    }
}

} // verus!
