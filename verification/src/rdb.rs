//! The snapshot file: its layout, the reader and the writer of its bytes.

pub mod laws;

use crate::database::kv::{KeyValueStore, KvItem, KvValue};
use crate::text::{append_bytes, copy_range, first_byte};
use byteorder::ByteOrder;
use vstd::prelude::*;
use vstd::slice::slice_subrange;
use vstd::string::StringExecFns;
use vstd::string::StringSliceAdditionalSpecFns;

verus! {

/// A snapshot that holds no key: what a follower is sent when it asks for a
/// full resynchronisation.
pub open spec fn empty_snapshot() -> Seq<u8> {
    seq![
        82u8, 69, 68, 73, 83, 48, 48, 49, 49, 250, 9, 114, 101, 100, 105, 115, 45, 118, 101, 114,
        5, 55, 46, 50, 46, 48, 250, 10, 114, 101, 100, 105, 115, 45, 98, 105, 116, 115, 192, 64,
        250, 5, 99, 116, 105, 109, 101, 194, 5, 28, 228, 102, 250, 8, 117, 115, 101, 100, 45, 109,
        101, 109, 194, 184, 75, 14, 0, 250, 8, 97, 111, 102, 45, 98, 97, 115, 101, 192, 0, 255,
        187, 243, 46, 0, 102, 82, 8, 22,
    ]
}

/// The bytes of the empty snapshot; see `empty_snapshot`.
pub fn empty_rdb() -> (r: Vec<u8>)
    ensures
        r@ == empty_snapshot(),
        r@.len() == 88,
{
    let r = vec![
        82u8, 69, 68, 73, 83, 48, 48, 49, 49, 250, 9, 114, 101, 100, 105, 115, 45, 118, 101, 114,
        5, 55, 46, 50, 46, 48, 250, 10, 114, 101, 100, 105, 115, 45, 98, 105, 116, 115, 192, 64,
        250, 5, 99, 116, 105, 109, 101, 194, 5, 28, 228, 102, 250, 8, 117, 115, 101, 100, 45, 109,
        101, 109, 194, 184, 75, 14, 0, 250, 8, 97, 111, 102, 45, 98, 97, 115, 101, 192, 0, 255,
        187, 243, 46, 0, 102, 82, 8, 22,
    ];
    assert(r@ =~= empty_snapshot());
    r
}

// ---------------------------------------------------------------------------
// Numbers in the file
// ---------------------------------------------------------------------------

/// The number that four bytes hold, the most significant first.
pub open spec fn be32(s: Seq<u8>) -> u32 {
    (((s[0] as int * 256 + s[1] as int) * 256 + s[2] as int) * 256 + s[3] as int) as u32
}

/// The number that four bytes hold, the least significant first.
pub open spec fn le32(s: Seq<u8>) -> u32 {
    (((s[3] as int * 256 + s[2] as int) * 256 + s[1] as int) * 256 + s[0] as int) as u32
}

/// The number that eight bytes hold, the least significant first.
pub open spec fn le64(s: Seq<u8>) -> u64 {
    (le32(s.subrange(4, 8)) as int * 0x1_0000_0000 + le32(s.subrange(0, 4)) as int) as u64
}

/// `byteorder::BigEndian::read_u32`: the first four bytes of `buf` as one
/// number, the most significant byte first.
#[verifier::external_body]
fn read_be32(buf: &[u8]) -> (r: u32)
    requires
        buf@.len() >= 4,
    ensures
        r == be32(buf@),
{
    byteorder::BigEndian::read_u32(buf)
}

/// `byteorder::LittleEndian::read_u32`: the first four bytes of `buf` as one
/// number, the least significant byte first.
#[verifier::external_body]
fn read_le32(buf: &[u8]) -> (r: u32)
    requires
        buf@.len() >= 4,
    ensures
        r == le32(buf@),
{
    byteorder::LittleEndian::read_u32(buf)
}

/// `byteorder::LittleEndian::read_u64`: the first eight bytes of `buf` as
/// one number, the least significant byte first.
#[verifier::external_body]
fn read_le64(buf: &[u8]) -> (r: u64)
    requires
        buf@.len() >= 8,
    ensures
        r == le64(buf@),
{
    byteorder::LittleEndian::read_u64(buf)
}

/// One of the sixteen digits `0`-`9`, `a`-`f`.
pub open spec fn hex_digit(n: u8) -> char {
    if n < 10 {
        ((48 + n) as u8) as char
    } else {
        ((87 + n) as u8) as char
    }
}

/// A byte in two hexadecimal digits, in lower case.
pub open spec fn hex_pair(b: u8) -> Seq<char> {
    seq![hex_digit(b / 16), hex_digit(b % 16)]
}

/// `faster_hex::hex_string` of one byte: its two hexadecimal digits, in
/// lower case.
#[verifier::external_body]
fn hex_of(byte: u8) -> (r: String)
    ensures
        r@ == hex_pair(byte),
{
    faster_hex::hex_string(&[byte])
}

/// What a byte at the start of a record says.
#[derive(Debug, Clone, Copy, PartialEq, Eq, Structural)]
pub enum OpCode {
    /// `00`: a key with a string value follows.
    Value,
    /// `fc`: a deadline in milliseconds follows.
    ExpiryMs,
    /// `fd`: a deadline in seconds follows.
    ExpirySec,
    /// `ff`: the end of the file.
    Eof,
    /// Anything else.
    Other,
}

/// What a byte at the start of a record says.
pub open spec fn op_code(b: u8) -> OpCode {
    if b == 0 {
        OpCode::Value
    } else if b == 0xfc {
        OpCode::ExpiryMs
    } else if b == 0xfd {
        OpCode::ExpirySec
    } else if b == 0xff {
        OpCode::Eof
    } else {
        OpCode::Other
    }
}

fn same_text(a: &String, lit: &str) -> (r: bool)
    ensures
        r == (a@ == lit@),
{
    let b = String::from_str(lit);
    *a == b
}

/// Reads the byte that starts a record.
pub fn read_op(byte: u8) -> (r: OpCode)
    ensures
        r == op_code(byte),
{
    let hex = hex_of(byte);
    proof {
        reveal_strlit("00");
        reveal_strlit("fc");
        reveal_strlit("fd");
        reveal_strlit("ff");
        let h = hex_pair(byte);
        assert(h.len() == 2);
        assert(h[0] == hex_digit(byte / 16));
        assert(h[1] == hex_digit(byte % 16));
        assert("00"@ =~= seq!['0', '0']);
        assert("fc"@ =~= seq!['f', 'c']);
        assert("fd"@ =~= seq!['f', 'd']);
        assert("ff"@ =~= seq!['f', 'f']);
        assert(seq!['0', '0'][0] == '0' && seq!['0', '0'][1] == '0');
        assert(seq!['f', 'c'][0] == 'f' && seq!['f', 'c'][1] == 'c');
        assert(seq!['f', 'd'][0] == 'f' && seq!['f', 'd'][1] == 'd');
        assert(seq!['f', 'f'][0] == 'f' && seq!['f', 'f'][1] == 'f');
        if byte == 0 {
            assert(h =~= seq!['0', '0']);
        }
        if byte == 0xfc {
            assert(h =~= seq!['f', 'c']);
        }
        if byte == 0xfd {
            assert(h =~= seq!['f', 'd']);
        }
        if byte == 0xff {
            assert(h =~= seq!['f', 'f']);
        }
    }
    if same_text(&hex, "00") {
        OpCode::Value
    } else if same_text(&hex, "fc") {
        OpCode::ExpiryMs
    } else if same_text(&hex, "fd") {
        OpCode::ExpirySec
    } else if same_text(&hex, "ff") {
        OpCode::Eof
    } else {
        OpCode::Other
    }
}

// ---------------------------------------------------------------------------
// Lengths and strings
// ---------------------------------------------------------------------------

/// Why a snapshot could not be read.
#[derive(Debug, Clone, Copy, PartialEq, Eq, Structural)]
pub enum RdbError {
    /// The file ends in the middle of something.
    Truncated,
    /// A length in a special encoding.
    Unsupported,
}

/// The length that is encoded at `pos`, and the index after it. The two
/// high bits of the first byte choose the form: `00`, the other six bits;
/// `01`, those six bits and the next byte; `10`, the next four bytes, the
/// most significant first; `11`, a special encoding.
pub open spec fn length_at(s: Seq<u8>, pos: int) -> Result<(nat, int), RdbError> {
    if pos < 0 || pos >= s.len() {
        Err(RdbError::Truncated)
    } else if s[pos] < 64 {
        Ok((s[pos] as nat, pos + 1))
    } else if s[pos] < 128 {
        if pos + 1 < s.len() {
            Ok((((s[pos] - 64) * 256 + s[pos + 1]) as nat, pos + 2))
        } else {
            Err(RdbError::Truncated)
        }
    } else if s[pos] < 192 {
        if pos + 4 < s.len() {
            Ok((be32(s.subrange(pos + 1, pos + 5)) as nat, pos + 5))
        } else {
            Err(RdbError::Truncated)
        }
    } else {
        Err(RdbError::Unsupported)
    }
}

/// The string that is encoded at `pos`, its length first, and the index
/// after it.
pub open spec fn string_at(s: Seq<u8>, pos: int) -> Result<(Seq<u8>, int), RdbError> {
    match length_at(s, pos) {
        Err(e) => Err(e),
        Ok((len, start)) => if start + len <= s.len() {
            Ok((s.subrange(start, start + len), start + len))
        } else {
            Err(RdbError::Truncated)
        },
    }
}

/// The bytes that encode a length. Nothing encodes one past 32 bits.
pub open spec fn encoded_length(n: nat) -> Seq<u8> {
    if n < 64 {
        seq![n as u8]
    } else if n < 16384 {
        seq![(64 + n / 256) as u8, (n % 256) as u8]
    } else if n <= u32::MAX {
        seq![
            128u8,
            (n / 0x100_0000) as u8,
            (n / 0x1_0000 % 256) as u8,
            (n / 0x100 % 256) as u8,
            (n % 256) as u8,
        ]
    } else {
        Seq::<u8>::empty()
    }
}

/// A length that was encoded is read back.
pub proof fn lemma_length_round_trip(n: nat, rest: Seq<u8>)
    requires
        n <= u32::MAX,
    ensures
        length_at(encoded_length(n) + rest, 0) == Ok::<(nat, int), RdbError>(
            (n, encoded_length(n).len() as int),
        ),
{
    let e = encoded_length(n);
    let s = e + rest;
    assert(s[0] == e[0]);
    if n < 64 {
    } else if n < 16384 {
        assert(s[1] == e[1]);
    } else {
        assert(s.subrange(1, 5) =~= e.subrange(1, 5));
        let b = s.subrange(1, 5);
        assert(b[0] == e[1] && b[1] == e[2] && b[2] == e[3] && b[3] == e[4]);
    }
}

/// Reads the length at `pos`; see `length_at`.
pub fn read_length(s: &[u8], pos: usize) -> (r: Result<(usize, usize), RdbError>)
    ensures
        match r {
            Ok((n, next)) => length_at(s@, pos as int) == Ok::<(nat, int), RdbError>(
                (n as nat, next as int),
            ) && pos < next <= s@.len(),
            Err(e) => length_at(s@, pos as int) == Err::<(nat, int), RdbError>(e),
        },
{
    if pos >= s.len() {
        return Err(RdbError::Truncated);
    }
    let b = s[pos];
    if b < 64 {
        Ok((b as usize, pos + 1))
    } else if b < 128 {
        if s.len() - pos > 1 {
            Ok((((b - 64) as usize) * 256 + s[pos + 1] as usize, pos + 2))
        } else {
            Err(RdbError::Truncated)
        }
    } else if b < 192 {
        if s.len() - pos > 4 {
            let n = read_be32(slice_subrange(s, pos + 1, pos + 5));
            Ok((n as usize, pos + 5))
        } else {
            Err(RdbError::Truncated)
        }
    } else {
        Err(RdbError::Unsupported)
    }
}

/// Reads the string at `pos`; see `string_at`.
pub fn read_string(s: &[u8], pos: usize) -> (r: Result<(Vec<u8>, usize), RdbError>)
    ensures
        match r {
            Ok((text, next)) => string_at(s@, pos as int) == Ok::<(Seq<u8>, int), RdbError>(
                (text@, next as int),
            ) && pos < next <= s@.len(),
            Err(e) => string_at(s@, pos as int) == Err::<(Seq<u8>, int), RdbError>(e),
        },
{
    match read_length(s, pos) {
        Err(e) => Err(e),
        Ok((len, start)) => {
            if len <= s.len() - start {
                Ok((copy_range(s, start, start + len), start + len))
            } else {
                Err(RdbError::Truncated)
            }
        },
    }
}

/// The bytes that encode a length; see `encoded_length`.
pub fn length_encoded_int(n: usize) -> (r: Vec<u8>)
    ensures
        r@ == encoded_length(n as nat),
{
    let mut r: Vec<u8> = Vec::new();
    if n < 64 {
        r.push(n as u8);
    } else if n < 16384 {
        r.push((64 + n / 256) as u8);
        r.push((n % 256) as u8);
    } else if n <= 0xffff_ffff {
        r.push(128);
        r.push((n / 0x100_0000) as u8);
        r.push((n / 0x1_0000 % 256) as u8);
        r.push((n / 0x100 % 256) as u8);
        r.push((n % 256) as u8);
    }
    assert(r@ =~= encoded_length(n as nat));
    r
}

// ---------------------------------------------------------------------------
// Records
// ---------------------------------------------------------------------------

/// A key of a snapshot: its value and, where it has one, its deadline in
/// milliseconds since the epoch.
#[derive(Debug, PartialEq)]
pub struct RdbRecord {
    pub key: Vec<u8>,
    pub value: Vec<u8>,
    pub expires_at: Option<u64>,
}

/// What an `RdbRecord` stands for.
pub struct RecordView {
    pub key: Seq<u8>,
    pub value: Seq<u8>,
    pub expires_at: Option<u64>,
}

impl View for RdbRecord {
    type V = RecordView;

    open spec fn view(&self) -> RecordView {
        RecordView { key: self.key@, value: self.value@, expires_at: self.expires_at }
    }
}

/// What a list of records stands for.
pub open spec fn record_views(v: Seq<RdbRecord>) -> Seq<RecordView> {
    Seq::new(v.len(), |i: int| v[i]@)
}

/// A deadline in seconds as one in milliseconds.
pub open spec fn seconds_to_ms(secs: u32) -> u64 {
    (secs as int * 1000) as u64
}

/// The records from `pos` on, at most `left` of them: each an optional
/// deadline (`fc` and eight bytes, or `fd` and four), then `00`, the key and
/// the value. `ff` ends the records; any other byte is passed over.
pub open spec fn records_at(s: Seq<u8>, pos: int, left: nat, pending: Option<u64>) -> Result<
    Seq<RecordView>,
    RdbError,
>
    decreases s.len() - pos,
{
    if left == 0 {
        Ok(Seq::<RecordView>::empty())
    } else if pos < 0 || pos >= s.len() {
        Err(RdbError::Truncated)
    } else {
        match op_code(s[pos]) {
            OpCode::Value => match string_at(s, pos + 1) {
                Err(e) => Err(e),
                Ok((key, after_key)) => match string_at(s, after_key) {
                    Err(e) => Err(e),
                    Ok((value, after_value)) => if after_value <= pos || after_value > s.len() {
                        Err(RdbError::Truncated)
                    } else {
                        match records_at(s, after_value, (left - 1) as nat, None) {
                            Err(e) => Err(e),
                            Ok(rest) => Ok(
                                seq![RecordView { key, value, expires_at: pending }] + rest,
                            ),
                        }
                    },
                },
            },
            OpCode::ExpiryMs => if pos + 8 < s.len() {
                records_at(s, pos + 9, left, Some(le64(s.subrange(pos + 1, pos + 9))))
            } else {
                Err(RdbError::Truncated)
            },
            OpCode::ExpirySec => if pos + 4 < s.len() {
                records_at(s, pos + 5, left, Some(seconds_to_ms(le32(s.subrange(pos + 1, pos + 5)))))
            } else {
                Err(RdbError::Truncated)
            },
            OpCode::Eof => Ok(Seq::<RecordView>::empty()),
            OpCode::Other => records_at(s, pos + 1, left, pending),
        }
    }
}

/// The byte that announces the sizes of the tables.
pub const SIZES: u8 = 0xfb;

/// The length of the header: the magic string and the version.
pub const HEADER_LEN: usize = 9;

/// The records of a snapshot. The header is nine bytes; the records stand
/// behind the first `fb` after it and the two sizes that follow, the first
/// of which says how many records there are. A snapshot without `fb` holds
/// none.
pub open spec fn snapshot_records(s: Seq<u8>) -> Result<Seq<RecordView>, RdbError> {
    if s.len() < HEADER_LEN {
        Err(RdbError::Truncated)
    } else {
        let f = first_byte(s, SIZES, HEADER_LEN as int);
        if f < 0 || f + 1 >= s.len() {
            Ok(Seq::<RecordView>::empty())
        } else {
            match length_at(s, f + 1) {
                Err(e) => Err(e),
                Ok((size, after_size)) => match length_at(s, after_size) {
                    Err(e) => Err(e),
                    Ok((_, start)) => records_at(s, start, size, None),
                },
            }
        }
    }
}

fn find_sizes(s: &[u8]) -> (r: Option<usize>)
    requires
        s@.len() >= HEADER_LEN,
    ensures
        match r {
            Some(i) => first_byte(s@, SIZES, HEADER_LEN as int) == i && i < s@.len(),
            None => first_byte(s@, SIZES, HEADER_LEN as int) == -1,
        },
{
    let mut i: usize = HEADER_LEN;
    while i < s.len()
        invariant
            HEADER_LEN <= i <= s@.len(),
            first_byte(s@, SIZES, HEADER_LEN as int) == first_byte(s@, SIZES, i as int),
        decreases s.len() - i,
    {
        if s[i] == SIZES {
            return Some(i);
        }
        i += 1;
    }
    None
}

/// Reads the records of a snapshot; see `snapshot_records`.
pub fn parse_rdb(s: &[u8]) -> (r: Result<Vec<RdbRecord>, RdbError>)
    ensures
        match r {
            Ok(records) => snapshot_records(s@) == Ok::<Seq<RecordView>, RdbError>(
                record_views(records@),
            ),
            Err(e) => snapshot_records(s@) == Err::<Seq<RecordView>, RdbError>(e),
        },
{
    let mut records: Vec<RdbRecord> = Vec::new();
    assert(record_views(records@) =~= Seq::<RecordView>::empty());
    if s.len() < HEADER_LEN {
        return Err(RdbError::Truncated);
    }
    let f = match find_sizes(s) {
        Some(f) => f,
        None => {
            return Ok(records);
        },
    };
    if s.len() - f <= 1 {
        return Ok(records);
    }
    let (size, after_size) = match read_length(s, f + 1) {
        Ok(x) => x,
        Err(e) => {
            return Err(e);
        },
    };
    let (_, start) = match read_length(s, after_size) {
        Ok(x) => x,
        Err(e) => {
            return Err(e);
        },
    };
    let mut pos: usize = start;
    let mut left: usize = size;
    let mut pending: Option<u64> = None;
    while left > 0
        invariant
            pos <= s@.len(),
            snapshot_records(s@) == (match records_at(s@, pos as int, left as nat, pending) {
                Ok(rest) => Ok::<Seq<RecordView>, RdbError>(record_views(records@) + rest),
                Err(e) => Err::<Seq<RecordView>, RdbError>(e),
            }),
        decreases s@.len() - pos,
    {
        if pos >= s.len() {
            return Err(RdbError::Truncated);
        }
        match read_op(s[pos]) {
            OpCode::Value => {
                let (key, after_key) = match read_string(s, pos + 1) {
                    Ok(x) => x,
                    Err(e) => {
                        return Err(e);
                    },
                };
                let (value, after_value) = match read_string(s, after_key) {
                    Ok(x) => x,
                    Err(e) => {
                        return Err(e);
                    },
                };
                let record = RdbRecord { key, value, expires_at: pending };
                proof {
                    let before = record_views(records@);
                    assert forall|rest: Seq<RecordView>|
                        before + (seq![record@] + rest) == #[trigger] (before.push(record@) + rest) by {
                        assert(before + (seq![record@] + rest) =~= before.push(record@) + rest);
                    }
                }
                let ghost before = record_views(records@);
                records.push(record);
                assert(record_views(records@) =~= before.push(record@));
                pending = None;
                left -= 1;
                pos = after_value;
            },
            OpCode::ExpiryMs => {
                if s.len() - pos <= 8 {
                    return Err(RdbError::Truncated);
                }
                pending = Some(read_le64(slice_subrange(s, pos + 1, pos + 9)));
                pos = pos + 9;
            },
            OpCode::ExpirySec => {
                if s.len() - pos <= 4 {
                    return Err(RdbError::Truncated);
                }
                let secs = read_le32(slice_subrange(s, pos + 1, pos + 5));
                pending = Some((secs as u64) * 1000);
                pos = pos + 5;
            },
            OpCode::Eof => {
                assert(record_views(records@) + Seq::<RecordView>::empty() =~= record_views(
                    records@,
                ));
                return Ok(records);
            },
            OpCode::Other => {
                pos = pos + 1;
            },
        }
    }
    assert(record_views(records@) + Seq::<RecordView>::empty() =~= record_views(records@));
    Ok(records)
}

/// The time that a key of a snapshot has left to live at `wall_clock_ms`,
/// in milliseconds; none where it has no deadline.
pub open spec fn time_left(expires_at: Option<u64>, wall_clock_ms: u64) -> Option<u64> {
    match expires_at {
        Some(t) => Some(
            if t > wall_clock_ms {
                (t - wall_clock_ms) as u64
            } else {
                0
            },
        ),
        None => None,
    }
}

/// The keys after the first `n` records of a snapshot were bound, each with
/// the time that it has left.
pub open spec fn loaded(
    kv: Map<Seq<u8>, KvValue>,
    records: Seq<RecordView>,
    n: nat,
    wall_clock_ms: u64,
    now: u64,
) -> Map<Seq<u8>, KvValue>
    decreases n,
{
    if n == 0 || n > records.len() {
        kv
    } else {
        let r = records[n - 1];
        loaded(kv, records, (n - 1) as nat, wall_clock_ms, now).insert(
            r.key,
            KvValue {
                value: r.value,
                expires_at: crate::database::kv::deadline(now, time_left(r.expires_at, wall_clock_ms)),
            },
        )
    }
}

/// Binds the keys of a snapshot in `db`. Nothing is bound where the
/// snapshot cannot be read.
pub fn load_from_rdb(db: &mut KeyValueStore, snapshot: &[u8], wall_clock_ms: u64, now: u64) -> (r:
    Result<(), RdbError>)
    requires
        old(db).wf(),
    ensures
        final(db).wf(),
        match snapshot_records(snapshot@) {
            Ok(records) => r is Ok && final(db)@ == loaded(
                old(db)@,
                records,
                records.len(),
                wall_clock_ms,
                now,
            ),
            Err(e) => r == Err::<(), RdbError>(e) && final(db)@ == old(db)@,
        },
{
    let records = match parse_rdb(snapshot) {
        Ok(records) => records,
        Err(e) => {
            return Err(e);
        },
    };
    let ghost all = record_views(records@);
    let mut i: usize = 0;
    while i < records.len()
        invariant
            db.wf(),
            i <= records@.len(),
            all == record_views(records@),
            db@ == loaded(old(db)@, all, i as nat, wall_clock_ms, now),
        decreases records@.len() - i,
    {
        let record = &records[i];
        assert(all[i as int] == record@);
        let ttl = match record.expires_at {
            Some(t) => Some(
                if t > wall_clock_ms {
                    t - wall_clock_ms
                } else {
                    0
                },
            ),
            None => None,
        };
        let _ = db.insert(
            crate::text::copy_bytes(record.key.as_slice()),
            crate::text::copy_bytes(record.value.as_slice()),
            ttl,
            now,
        );
        i += 1;
    }
    Ok(())
}

// ---------------------------------------------------------------------------
// Writing
// ---------------------------------------------------------------------------

/// The eight bytes of a number, the least significant first.
pub open spec fn le_bytes64(n: u64) -> Seq<u8> {
    seq![
        (n % 256) as u8,
        (n / 0x100 % 256) as u8,
        (n / 0x1_0000 % 256) as u8,
        (n / 0x100_0000 % 256) as u8,
        (n / 0x1_0000_0000 % 256) as u8,
        (n / 0x100_0000_0000 % 256) as u8,
        (n / 0x1_0000_0000_0000 % 256) as u8,
        (n / 0x100_0000_0000_0000 % 256) as u8,
    ]
}

/// A string in the file: its length, then its bytes.
pub open spec fn encoded_string(t: Seq<u8>) -> Seq<u8> {
    encoded_length(t.len()) + t
}

/// A record in the file: the deadline where there is one, then `00`, the
/// key and the value.
pub open spec fn encoded_record(r: RecordView) -> Seq<u8> {
    (match r.expires_at {
        Some(t) => seq![0xfcu8] + le_bytes64(t),
        None => Seq::<u8>::empty(),
    }) + seq![0u8] + encoded_string(r.key) + encoded_string(r.value)
}

/// The first `n` records in the file, one after another.
pub open spec fn encoded_records(records: Seq<RecordView>, n: nat) -> Seq<u8>
    decreases n,
{
    if n == 0 || n > records.len() {
        Seq::<u8>::empty()
    } else {
        encoded_records(records, (n - 1) as nat) + encoded_record(records[n - 1])
    }
}

/// How many of the first `n` records carry a deadline.
pub open spec fn count_expiring(records: Seq<RecordView>, n: nat) -> nat
    decreases n,
{
    if n == 0 || n > records.len() {
        0
    } else if records[n - 1].expires_at is Some {
        count_expiring(records, (n - 1) as nat) + 1
    } else {
        count_expiring(records, (n - 1) as nat)
    }
}

/// The start of every snapshot: the magic string with the version, and the
/// version of the server as metadata.
pub open spec fn header_bytes() -> Seq<u8> {
    "REDIS0011".spec_bytes() + seq![0xfau8] + encoded_string("redis-ver".spec_bytes())
        + encoded_string("6.0.16".spec_bytes())
}

/// The database section: the index of the database, the sizes of the
/// tables, the records, and the end of the file with an empty checksum.
pub open spec fn database_bytes(records: Seq<RecordView>) -> Seq<u8> {
    seq![0xfeu8, 0u8, SIZES] + encoded_length(records.len()) + encoded_length(
        count_expiring(records, records.len()),
    ) + encoded_records(records, records.len()) + seq![0xffu8, 0u8, 0, 0, 0, 0, 0, 0, 0]
}

/// A whole snapshot.
pub open spec fn snapshot_bytes(records: Seq<RecordView>) -> Seq<u8> {
    header_bytes() + database_bytes(records)
}

fn push_le64(out: &mut Vec<u8>, n: u64)
    ensures
        final(out)@ == old(out)@ + le_bytes64(n),
{
    out.push((n % 256) as u8);
    out.push((n / 0x100 % 256) as u8);
    out.push((n / 0x1_0000 % 256) as u8);
    out.push((n / 0x100_0000 % 256) as u8);
    out.push((n / 0x1_0000_0000 % 256) as u8);
    out.push((n / 0x100_0000_0000 % 256) as u8);
    out.push((n / 0x1_0000_0000_0000 % 256) as u8);
    out.push((n / 0x100_0000_0000_0000 % 256) as u8);
    assert(out@ =~= old(out)@ + le_bytes64(n));
}

fn push_string(out: &mut Vec<u8>, t: &[u8])
    ensures
        final(out)@ == old(out)@ + encoded_string(t@),
{
    let len = length_encoded_int(t.len());
    append_bytes(out, len.as_slice());
    append_bytes(out, t);
    assert(out@ =~= old(out)@ + encoded_string(t@));
}

fn push_record(out: &mut Vec<u8>, r: &RdbRecord)
    ensures
        final(out)@ == old(out)@ + encoded_record(r@),
{
    match r.expires_at {
        Some(t) => {
            out.push(0xfc);
            push_le64(out, t);
        },
        None => {},
    }
    out.push(0);
    push_string(out, r.key.as_slice());
    push_string(out, r.value.as_slice());
    assert(out@ =~= old(out)@ + encoded_record(r@));
}

/// The start of every snapshot; see `header_bytes`.
pub fn init_db() -> (r: Vec<u8>)
    ensures
        r@ == header_bytes(),
{
    let mut r = crate::text::copy_bytes("REDIS0011".as_bytes());
    r.push(0xfa);
    push_string(&mut r, "redis-ver".as_bytes());
    push_string(&mut r, "6.0.16".as_bytes());
    assert(r@ =~= header_bytes());
    r
}

/// The bytes of a snapshot that holds `records`; see `snapshot_bytes`.
pub fn encode_rdb(records: &Vec<RdbRecord>) -> (r: Vec<u8>)
    ensures
        r@ == snapshot_bytes(record_views(records@)),
{
    let ghost all = record_views(records@);
    let mut expiring: usize = 0;
    let mut i: usize = 0;
    while i < records.len()
        invariant
            i <= records@.len(),
            all == record_views(records@),
            expiring == count_expiring(all, i as nat),
            expiring <= i,
        decreases records@.len() - i,
    {
        assert(all[i as int] == records@[i as int]@);
        if records[i].expires_at.is_some() {
            expiring += 1;
        }
        i += 1;
    }
    let mut out = init_db();
    out.push(0xfe);
    out.push(0);
    out.push(SIZES);
    append_bytes(&mut out, length_encoded_int(records.len()).as_slice());
    append_bytes(&mut out, length_encoded_int(expiring).as_slice());
    let ghost head = out@;
    assert(head =~= header_bytes() + (seq![0xfeu8, 0u8, SIZES] + encoded_length(all.len())
        + encoded_length(count_expiring(all, all.len()))));
    let mut i: usize = 0;
    while i < records.len()
        invariant
            i <= records@.len(),
            all == record_views(records@),
            out@ == head + encoded_records(all, i as nat),
        decreases records@.len() - i,
    {
        assert(all[i as int] == records@[i as int]@);
        push_record(&mut out, &records[i]);
        i += 1;
        assert(out@ =~= head + encoded_records(all, i as nat));
    }
    out.push(0xff);
    let mut k: usize = 0;
    let ghost body = out@;
    while k < 8
        invariant
            k <= 8,
            out@ == body + Seq::new(k as nat, |j: int| 0u8),
        decreases 8 - k,
    {
        out.push(0);
        k += 1;
        assert(out@ =~= body + Seq::new(k as nat, |j: int| 0u8));
    }
    assert(out@ =~= snapshot_bytes(all));
    out
}

/// The deadline on the wall clock of a binding whose deadline on the
/// store's clock is `deadline`, where the two clocks read `wall_clock_ms`
/// and `now`. It stays within the range of the clock.
pub open spec fn wall_deadline(deadline: u64, wall_clock_ms: u64, now: u64) -> u64 {
    if deadline >= now {
        if wall_clock_ms + (deadline - now) > u64::MAX {
            u64::MAX
        } else {
            (wall_clock_ms + (deadline - now)) as u64
        }
    } else if wall_clock_ms < now - deadline {
        0
    } else {
        (wall_clock_ms - (now - deadline)) as u64
    }
}

/// The records that a store makes: one for each key, in the order of its
/// keys.
pub open spec fn store_records(
    keys: Seq<Seq<u8>>,
    values: Seq<KvValue>,
    wall_clock_ms: u64,
    now: u64,
) -> Seq<RecordView> {
    Seq::new(
        keys.len(),
        |i: int|
            RecordView {
                key: keys[i],
                value: values[i].value,
                expires_at: match values[i].expires_at {
                    Some(d) => Some(wall_deadline(d, wall_clock_ms, now)),
                    None => None,
                },
            },
    )
}

/// The snapshot of a store, as the bytes of the file.
pub fn write_to_disk(db: &KeyValueStore, wall_clock_ms: u64, now: u64) -> (r: Vec<u8>)
    requires
        db.wf(),
    ensures
        r@ == snapshot_bytes(store_records(db.keys(), db.values(), wall_clock_ms, now)),
{
    let mut it = db.iter();
    let mut records: Vec<RdbRecord> = Vec::new();
    let ghost all = it.remaining();
    proof {
        db.lemma_bindings();
    }
    let ghost target = store_records(db.keys(), db.values(), wall_clock_ms, now);
    loop
        invariant
            it.wf(),
            all == db.keys().zip_with(db.values()),
            db.keys().len() == db.values().len(),
            target == store_records(db.keys(), db.values(), wall_clock_ms, now),
            records@.len() + it.remaining().len() == all.len(),
            it.remaining() == all.skip(records@.len() as int),
            forall|j: int| 0 <= j < records@.len() ==> (#[trigger] records@[j])@ == target[j],
        decreases it.remaining().len(),
    {
        let ghost n = records@.len() as int;
        match it.next() {
            Some(item) => {
                assert(item.binding() == all[n]);
                assert(all[n] == (db.keys()[n], db.values()[n]));
                let KvItem { key, value, expires_at } = item;
                let expires_at = match expires_at {
                    Some(d) => Some(
                        if d >= now {
                            wall_clock_ms.saturating_add(d - now)
                        } else {
                            wall_clock_ms.saturating_sub(now - d)
                        },
                    ),
                    None => None,
                };
                records.push(RdbRecord { key, value, expires_at });
                assert(it.remaining() =~= all.skip(records@.len() as int));
            },
            None => {
                assert(record_views(records@) =~= target);
                return encode_rdb(&records);
            },
        }
    }
}

} // verus!
