//! The small server: values that expire by the wall clock, and what
//! the server knows of itself.

use crate::bytemap::ByteMap;
use crate::text::{append_bytes, copy_bytes, int_digits, push_int};
use crate::{is_replid, random_alphanumeric, REPLID_LEN};
use vstd::prelude::*;
use vstd::string::StringSliceAdditionalSpecFns;

verus! {

/// How long a value lives where nothing is said, in milliseconds.
pub const DEFAULT_EXPIRY_MS: i64 = 2147483647;

/// `chrono::Utc::now().timestamp_millis()`: the wall clock in milliseconds
/// since the epoch. Nothing is claimed of it.
#[verifier::external_body]
pub(crate) fn utc_now_millis() -> (r: i64) {
    chrono::Utc::now().timestamp_millis()
}

/// The time at which a value that is bound at `now` expires.
pub open spec fn expiry_after(now: i64, expiry_ms: Option<i64>) -> i64 {
    let t = now + (match expiry_ms {
        Some(ms) => ms,
        None => DEFAULT_EXPIRY_MS,
    });
    if t > i64::MAX {
        i64::MAX
    } else if t < i64::MIN {
        i64::MIN
    } else {
        t as i64
    }
}

/// A value and the time at which it expires.
#[derive(Debug)]
pub struct CacheValue {
    pub value: Vec<u8>,
    /// The time at which the value expires, in milliseconds since the
    /// epoch.
    pub expiry_dt: i64,
}

impl CacheValue {
    /// The time at which the value expires, in milliseconds since the
    /// epoch.
    pub open spec fn expiry(&self) -> i64 {
        self.expiry_dt
    }

    /// A value that is bound at `now`.
    pub fn at(value: &[u8], expiry_ms: Option<i64>, now: i64) -> (r: CacheValue)
        ensures
            r.value@ == value@,
            r.expiry() == expiry_after(now, expiry_ms),
    {
        let ms = match expiry_ms {
            Some(ms) => ms,
            None => DEFAULT_EXPIRY_MS,
        };
        let sum: i128 = now as i128 + ms as i128;
        let expiry_dt: i64 = if sum > i64::MAX as i128 {
            i64::MAX
        } else if sum < i64::MIN as i128 {
            i64::MIN
        } else {
            sum as i64
        };
        CacheValue { value: copy_bytes(value), expiry_dt }
    }

    /// A value that is bound now, by the wall clock.
    pub fn new(value: &[u8], expiry_ms: Option<i64>) -> (r: CacheValue)
        ensures
            r.value@ == value@,
            exists|now: i64| r.expiry() == #[trigger] expiry_after(now, expiry_ms),
    {
        let now = utc_now_millis();
        let r = CacheValue::at(value, expiry_ms, now);
        assert(r.expiry() == expiry_after(now, expiry_ms));
        r
    }

    /// Whether the value has expired at `now`.
    pub fn is_expired_at(&self, now: i64) -> (r: bool)
        ensures
            r == (self.expiry() < now),
    {
        self.expiry_dt < now
    }

    /// Whether the value has expired now, by the wall clock.
    pub fn is_expired(&self) -> (r: bool)
        ensures
            exists|now: i64| r == #[trigger] expired_at(self.expiry(), now),
    {
        let now = utc_now_millis();
        let r = self.is_expired_at(now);
        assert(r == expired_at(self.expiry(), now));
        r
    }
}

/// Whether a value that expires at `expiry` has expired at `now`.
pub open spec fn expired_at(expiry: i64, now: i64) -> bool {
    expiry < now
}

/// What a leader knows of its replication.
#[derive(Debug)]
pub struct MasterServerInfo {
    pub replid: Vec<u8>,
    pub repl_offset: i32,
}

impl MasterServerInfo {
    /// What a leader knows of its replication.
    pub fn new(replid: &[u8], repl_offset: i32) -> (r: Self)
        ensures
            r.replid@ == replid@,
            r.repl_offset == repl_offset,
    {
        MasterServerInfo { repl_offset, replid: copy_bytes(replid) }
    }
}

/// What a server knows of itself.
#[derive(Debug)]
pub struct ServerInfo {
    pub addr: Vec<u8>,
    pub master_addr: Option<Vec<u8>>,
    pub role: Vec<u8>,
    pub master_info: Option<MasterServerInfo>,
}

/// The id of a server: a fresh replication id.
pub fn generate_server_id() -> (r: Vec<u8>)
    ensures
        is_replid(r@),
{
    random_alphanumeric(REPLID_LEN)
}

/// What `INFO` lists of the replication of a server: its role, and for a
/// leader its replication id and offset.
pub open spec fn replication_lines(info: ServerInfo) -> Seq<Seq<u8>> {
    let role = seq!["role:".spec_bytes() + info.role@];
    match info.master_info {
        Some(m) => role + seq![
            "master_replid:".spec_bytes() + m.replid@,
            "master_repl_offset:".spec_bytes() + int_digits(m.repl_offset as int),
        ],
        None => role,
    }
}

impl ServerInfo {
    /// What a leader at `addr` knows of itself: a fresh replication id and
    /// the offset 0.
    pub fn new_master(addr: &[u8]) -> (r: Self)
        ensures
            r.addr@ == addr@,
            r.master_addr is None,
            r.role@ == "master".spec_bytes(),
            r.master_info matches Some(m) && m.repl_offset == 0 && is_replid(m.replid@),
    {
        let id = generate_server_id();
        let master_info = Some(MasterServerInfo::new(id.as_slice(), 0));
        ServerInfo {
            addr: copy_bytes(addr),
            master_addr: None,
            role: copy_bytes("master".as_bytes()),
            master_info,
        }
    }

    /// See `replication_lines`.
    pub fn replication_info(&self) -> (r: Vec<Vec<u8>>)
        ensures
            crate::text::byte_seqs(r@) == replication_lines(*self),
    {
        let mut values: Vec<Vec<u8>> = Vec::new();
        let mut role = copy_bytes("role:".as_bytes());
        append_bytes(&mut role, self.role.as_slice());
        values.push(role);
        match &self.master_info {
            Some(m) => {
                let mut id = copy_bytes("master_replid:".as_bytes());
                append_bytes(&mut id, m.replid.as_slice());
                values.push(id);
                let mut offset = copy_bytes("master_repl_offset:".as_bytes());
                push_int(&mut offset, m.repl_offset as i64);
                values.push(offset);
            },
            None => {},
        }
        assert(crate::text::byte_seqs(values@) =~= replication_lines(*self));
        values
    }

    /// What a follower at `addr` knows of itself.
    pub fn new_slave(addr: &[u8], master_addr: &[u8]) -> (r: Self)
        ensures
            r.addr@ == addr@,
            r.master_addr matches Some(m) && m@ == master_addr@,
            r.role@ == "slave".spec_bytes(),
            r.master_info is None,
    {
        ServerInfo {
            addr: copy_bytes(addr),
            master_addr: Some(copy_bytes(master_addr)),
            role: copy_bytes("slave".as_bytes()),
            master_info: None,
        }
    }
}

/// A connection of the small server: what the server knows of itself, and
/// the values that were bound on this connection.
pub struct Session {
    pub server_info: ServerInfo,
    pub storage: ByteMap<CacheValue>,
}

impl Session {
    /// A session without values.
    pub fn new(server_info: ServerInfo) -> (r: Session)
        ensures
            r.server_info == server_info,
            r.storage.wf(),
            r.storage.map() == Map::<Seq<u8>, CacheValue>::empty(),
    {
        Session { server_info, storage: ByteMap::new() }
    }
}

} // verus!
