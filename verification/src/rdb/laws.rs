//! What the reader makes of what the writer wrote.

use crate::rdb::{
    count_expiring, encoded_length, encoded_record, encoded_records, encoded_string, header_bytes,
    le32, le64, le_bytes64, length_at, op_code, records_at, snapshot_bytes, snapshot_records,
    string_at, OpCode, RdbError, RecordView, HEADER_LEN, SIZES,
};
use crate::text::first_byte;
use vstd::prelude::*;
use vstd::string::StringSliceAdditionalSpecFns;

verus! {

// ---------------------------------------------------------------------------
// Reading what was written
// ---------------------------------------------------------------------------

/// Records that a snapshot can hold: no more of them, and no longer keys
/// and values, than a length of 32 bits can count.
pub open spec fn encodable(records: Seq<RecordView>) -> bool {
    &&& records.len() <= u32::MAX
    &&& forall|i: int|
        0 <= i < records.len() ==> (#[trigger] records[i]).key.len() <= u32::MAX
            && records[i].value.len() <= u32::MAX
}

/// The records from index `from` on in the file, one after another.
pub open spec fn encoded_from(records: Seq<RecordView>, from: nat) -> Seq<u8>
    decreases records.len() - from,
{
    if from >= records.len() {
        Seq::<u8>::empty()
    } else {
        encoded_record(records[from as int]) + encoded_from(records, from + 1)
    }
}

proof fn lemma_encoded_split(records: Seq<RecordView>, k: nat)
    requires
        k <= records.len(),
    ensures
        encoded_records(records, k) + encoded_from(records, k) == encoded_records(
            records,
            records.len(),
        ),
    decreases records.len() - k,
{
    if k < records.len() {
        lemma_encoded_split(records, k + 1);
        assert(encoded_records(records, k) + encoded_from(records, k) =~= encoded_records(
            records,
            k + 1,
        ) + encoded_from(records, k + 1));
    } else {
        assert(encoded_records(records, k) + encoded_from(records, k) =~= encoded_records(
            records,
            k,
        ));
    }
}

proof fn lemma_le64(t: u64)
    ensures
        le64(le_bytes64(t)) == t,
{
    let b = le_bytes64(t);
    let low = b.subrange(0, 4);
    let high = b.subrange(4, 8);
    assert(low[0] == b[0] && low[1] == b[1] && low[2] == b[2] && low[3] == b[3]);
    assert(high[0] == b[4] && high[1] == b[5] && high[2] == b[6] && high[3] == b[7]);
    let q1 = t / 0x100;
    let q2 = t / 0x1_0000;
    let q3 = t / 0x100_0000;
    let q4 = t / 0x1_0000_0000;
    let q5 = t / 0x100_0000_0000;
    let q6 = t / 0x1_0000_0000_0000;
    let q7 = t / 0x100_0000_0000_0000;
    assert(q2 == q1 / 0x100);
    assert(q3 == q2 / 0x100);
    assert(q4 == q3 / 0x100);
    assert(q5 == q4 / 0x100);
    assert(q6 == q5 / 0x100);
    assert(q7 == q6 / 0x100);
    assert(q7 < 0x100);
    assert(t == q1 * 0x100 + t % 0x100);
    assert(q1 == q2 * 0x100 + q1 % 0x100);
    assert(q2 == q3 * 0x100 + q2 % 0x100);
    assert(q3 == q4 * 0x100 + q3 % 0x100);
    assert(q4 == q5 * 0x100 + q4 % 0x100);
    assert(q5 == q6 * 0x100 + q5 % 0x100);
    assert(q6 == q7 * 0x100 + q6 % 0x100);
    assert(q3 % 0x100 == q3 - q4 * 0x100);
    assert(le32(low) == t - q4 * 0x1_0000_0000);
    assert(le32(high) == q4);
}

/// The same as `lemma_length_round_trip`, for a length that stands at
/// `pos`.
proof fn lemma_length_at(s: Seq<u8>, pos: int, n: nat)
    requires
        n <= u32::MAX,
        0 <= pos,
        pos + encoded_length(n).len() <= s.len(),
        s.subrange(pos, pos + encoded_length(n).len()) == encoded_length(n),
    ensures
        length_at(s, pos) == Ok::<(nat, int), RdbError>((n, pos + encoded_length(n).len())),
{
    let e = encoded_length(n);
    assert forall|k: int| 0 <= k < e.len() implies s[pos + k] == e[k] by {
        assert(s.subrange(pos, pos + e.len())[k] == s[pos + k]);
    }
    assert(s[pos + 0] == e[0]);
    if n < 64 {
    } else if n < 16384 {
        assert(s[pos + 1] == e[1]);
    } else {
        let b = s.subrange(pos + 1, pos + 5);
        assert(b[0] == s[pos + 1] && b[1] == s[pos + 2] && b[2] == s[pos + 3] && b[3] == s[pos
            + 4]);
        assert(s[pos + 1] == e[1] && s[pos + 2] == e[2] && s[pos + 3] == e[3] && s[pos + 4]
            == e[4]);
    }
}

proof fn lemma_string_at(s: Seq<u8>, pos: int, t: Seq<u8>)
    requires
        t.len() <= u32::MAX,
        0 <= pos,
        pos + encoded_string(t).len() <= s.len(),
        s.subrange(pos, pos + encoded_string(t).len()) == encoded_string(t),
    ensures
        string_at(s, pos) == Ok::<(Seq<u8>, int), RdbError>((t, pos + encoded_string(t).len())),
        encoded_string(t).len() > 0,
{
    let e = encoded_length(t.len());
    lemma_parts(s, pos, e, t);
    lemma_length_at(s, pos, t.len());
}

/// A part of a window is a window.
proof fn lemma_parts(s: Seq<u8>, pos: int, a: Seq<u8>, b: Seq<u8>)
    requires
        0 <= pos,
        pos + a.len() + b.len() <= s.len(),
        s.subrange(pos, pos + a.len() + b.len()) == a + b,
    ensures
        s.subrange(pos, pos + a.len()) == a,
        s.subrange(pos + a.len(), pos + a.len() + b.len()) == b,
{
    let w = a + b;
    assert forall|k: int| 0 <= k < w.len() implies s[pos + k] == w[k] by {
        assert(s.subrange(pos, pos + w.len())[k] == s[pos + k]);
    }
    assert(s.subrange(pos, pos + a.len()) =~= a) by {
        assert forall|k: int| 0 <= k < a.len() implies s.subrange(pos, pos + a.len())[k] == a[k] by {
            assert(s[pos + k] == w[k]);
        }
    }
    assert(s.subrange(pos + a.len(), pos + a.len() + b.len()) =~= b) by {
        assert forall|k: int| 0 <= k < b.len() implies s.subrange(
            pos + a.len(),
            pos + a.len() + b.len(),
        )[k] == b[k] by {
            assert(s[pos + a.len() + k] == w[a.len() + k]);
        }
    }
}

/// Where a record without a deadline stands at `at`, the reader takes it
/// with the deadline that is pending and goes on behind it.
proof fn lemma_value_at(
    s: Seq<u8>,
    at: int,
    r: RecordView,
    left: nat,
    pending: Option<u64>,
    rest: Seq<RecordView>,
)
    requires
        r.key.len() <= u32::MAX,
        r.value.len() <= u32::MAX,
        left > 0,
        0 <= at,
        at + 1 + encoded_string(r.key).len() + encoded_string(r.value).len() <= s.len(),
        s[at] == 0,
        s.subrange(at + 1, at + 1 + encoded_string(r.key).len()) == encoded_string(r.key),
        s.subrange(
            at + 1 + encoded_string(r.key).len(),
            at + 1 + encoded_string(r.key).len() + encoded_string(r.value).len(),
        ) == encoded_string(r.value),
        records_at(
            s,
            at + 1 + encoded_string(r.key).len() + encoded_string(r.value).len(),
            (left - 1) as nat,
            None,
        ) == Ok::<Seq<RecordView>, RdbError>(rest),
    ensures
        records_at(s, at, left, pending) == Ok::<Seq<RecordView>, RdbError>(
            seq![RecordView { key: r.key, value: r.value, expires_at: pending }] + rest,
        ),
{
    lemma_string_at(s, at + 1, r.key);
    let after_key = at + 1 + encoded_string(r.key).len();
    lemma_string_at(s, after_key, r.value);
    assert(op_code(s[at]) == OpCode::Value);
}

/// Where a deadline stands at `pos`, the reader keeps it for the record
/// behind it.
proof fn lemma_deadline_at(s: Seq<u8>, pos: int, t: u64, left: nat)
    requires
        left > 0,
        0 <= pos,
        pos + 9 <= s.len(),
        pos + 9 < s.len(),
        s[pos] == 0xfc,
        s.subrange(pos + 1, pos + 9) == le_bytes64(t),
    ensures
        records_at(s, pos, left, None) == records_at(s, pos + 9, left, Some(t)),
{
    lemma_le64(t);
    assert(op_code(s[pos]) == OpCode::ExpiryMs);
}

/// Where the records from index `from` on stand at `pos`, the reader finds
/// them there.
#[verifier::rlimit(60)]
proof fn lemma_records_at(s: Seq<u8>, pos: int, records: Seq<RecordView>, from: nat)
    requires
        encodable(records),
        from <= records.len(),
        0 <= pos,
        pos + encoded_from(records, from).len() <= s.len(),
        s.subrange(pos, pos + encoded_from(records, from).len()) == encoded_from(records, from),
    ensures
        records_at(s, pos, (records.len() - from) as nat, None) == Ok::<
            Seq<RecordView>,
            RdbError,
        >(records.skip(from as int)),
    decreases records.len() - from,
{
    if from >= records.len() {
        assert(records.skip(from as int) =~= Seq::<RecordView>::empty());
    } else {
        let r = records[from as int];
        let left = (records.len() - from) as nat;
        let rest = encoded_from(records, from + 1);
        let key = encoded_string(r.key);
        let value = encoded_string(r.value);
        let head = match r.expires_at {
            Some(t) => seq![0xfcu8] + le_bytes64(t),
            None => Seq::<u8>::empty(),
        };
        let body = seq![0u8] + key + value;
        assert(encoded_record(r) =~= head + body);
        assert(encoded_from(records, from) =~= head + (body + rest));
        lemma_parts(s, pos, head, body + rest);
        let at = pos + head.len();
        lemma_parts(s, at, body, rest);
        assert(body =~= seq![0u8] + (key + value));
        lemma_parts(s, at, seq![0u8], key + value);
        lemma_parts(s, at + 1, key, value);
        assert(s[at] == 0) by {
            assert(s.subrange(at, at + 1)[0] == s[at]);
        }
        let after = at + 1 + key.len() + value.len();
        lemma_records_at(s, after, records, from + 1);
        lemma_value_at(s, at, r, left, r.expires_at, records.skip(from as int + 1));
        assert(seq![r] + records.skip(from as int + 1) =~= records.skip(from as int));
        match r.expires_at {
            Some(t) => {
                lemma_parts(s, pos, seq![0xfcu8], le_bytes64(t));
                assert(s[pos] == 0xfc) by {
                    assert(s.subrange(pos, pos + 1)[0] == s[pos]);
                }
                lemma_deadline_at(s, pos, t, left);
            },
            None => {},
        }
    }
}

/// The index of the first `b` from `from` on, when nothing before `at` is
/// one.
proof fn lemma_first_byte_at(s: Seq<u8>, b: u8, from: int, at: int)
    requires
        0 <= from <= at < s.len(),
        s[at] == b,
        forall|j: int| from <= j < at ==> #[trigger] s[j] != b,
    ensures
        first_byte(s, b, from) == at,
    decreases at - from,
{
    if from < at {
        lemma_first_byte_at(s, b, from + 1, at);
    }
}

/// The bytes of a text of ASCII characters are as many as its characters,
/// and none of them is the byte that announces the sizes.
proof fn lemma_ascii_bytes(text: &str)
    requires
        vstd::string::is_ascii(text),
    ensures
        text.spec_bytes().len() == text@.len(),
        forall|i: int| 0 <= i < text.spec_bytes().len() ==> #[trigger] text.spec_bytes()[i] < 128,
{
    vstd::string::is_ascii_spec_bytes(text);
    assert forall|i: int| 0 <= i < text.spec_bytes().len() implies #[trigger] text.spec_bytes()[i]
        < 128 by {
        assert('\0' <= text@[i] <= '\u{7f}');
    }
}

/// The header is 27 bytes long, and the byte that announces the sizes is
/// not among those behind the magic string.
proof fn lemma_header()
    ensures
        header_bytes().len() == 27,
        forall|j: int| HEADER_LEN <= j < 27 ==> #[trigger] header_bytes()[j] != SIZES,
{
    reveal_strlit("REDIS0011");
    reveal_strlit("redis-ver");
    reveal_strlit("6.0.16");
    lemma_ascii_bytes("REDIS0011");
    lemma_ascii_bytes("redis-ver");
    lemma_ascii_bytes("6.0.16");
    let magic = "REDIS0011".spec_bytes();
    let name = "redis-ver".spec_bytes();
    let version = "6.0.16".spec_bytes();
    let h = header_bytes();
    assert(h =~= magic + seq![0xfau8] + (seq![9u8] + name) + (seq![6u8] + version));
    assert forall|j: int| HEADER_LEN <= j < 27 implies #[trigger] h[j] != SIZES by {
        if j == 9 {
        } else if j == 10 {
        } else if j < 20 {
            assert(h[j] == name[j - 11]);
        } else if j == 20 {
        } else {
            assert(h[j] == version[j - 21]);
        }
    }
}

/// Where the parts of a snapshot stand in it.
#[verifier::rlimit(60)]
proof fn lemma_layout(records: Seq<RecordView>)
    ensures
        ({
            let s = snapshot_bytes(records);
            let n = encoded_length(records.len());
            let m = encoded_length(count_expiring(records, records.len()));
            let recs = encoded_from(records, 0);
            let after_size: int = 30 + n.len() as int;
            let start: int = after_size + m.len() as int;
            &&& s.len() == start + recs.len() + 9
            &&& s.subrange(0, 27) == header_bytes()
            &&& s[27] == 0xfe
            &&& s[28] == 0
            &&& s[29] == SIZES
            &&& s.subrange(30, after_size) == n
            &&& s.subrange(after_size, start) == m
            &&& s.subrange(start, start + recs.len()) == recs
        }),
{
    let s = snapshot_bytes(records);
    let h = header_bytes();
    lemma_header();
    let marks = seq![0xfeu8, 0u8, SIZES];
    let n = encoded_length(records.len());
    let m = encoded_length(count_expiring(records, records.len()));
    let recs = encoded_from(records, 0);
    let tail = seq![0xffu8, 0u8, 0, 0, 0, 0, 0, 0, 0];
    lemma_encoded_split(records, 0);
    assert(encoded_records(records, 0) + recs =~= recs);
    let d = marks + (n + (m + (recs + tail)));
    assert(crate::rdb::database_bytes(records) =~= d);
    assert(s == h + d);
    assert(s.subrange(0, s.len() as int) =~= s);
    lemma_parts(s, 0, h, d);
    lemma_parts(s, 27, marks, n + (m + (recs + tail)));
    lemma_parts(s, 30, n, m + (recs + tail));
    let after_size: int = 30 + n.len() as int;
    lemma_parts(s, after_size, m, recs + tail);
    let start: int = after_size + m.len() as int;
    lemma_parts(s, start, recs, tail);
    assert(s.subrange(27, 30)[0] == s[27]);
    assert(s.subrange(27, 30)[1] == s[28]);
    assert(s.subrange(27, 30)[2] == s[29]);
}

/// A snapshot that was written is read back: the reader finds the records
/// that the writer was given, in their order.
pub proof fn lemma_snapshot_round_trip(records: Seq<RecordView>)
    requires
        encodable(records),
    ensures
        snapshot_records(snapshot_bytes(records)) == Ok::<Seq<RecordView>, RdbError>(records),
{
    let s = snapshot_bytes(records);
    lemma_layout(records);
    lemma_header();
    lemma_counts(records, records.len());
    let n = encoded_length(records.len());
    let m = encoded_length(count_expiring(records, records.len()));
    let start: int = 30 + n.len() as int + m.len() as int;
    assert forall|j: int| HEADER_LEN <= j < 29 implies #[trigger] s[j] != SIZES by {
        if j < 27 {
            assert(s.subrange(0, 27)[j] == s[j]);
            assert(header_bytes()[j] != SIZES);
        }
    }
    lemma_first_byte_at(s, SIZES, HEADER_LEN as int, 29);
    lemma_length_at(s, 30, records.len());
    lemma_length_at(s, 30 + n.len() as int, count_expiring(records, records.len()));
    lemma_records_at(s, start, records, 0);
    assert(records.skip(0) =~= records);
}

proof fn lemma_counts(records: Seq<RecordView>, n: nat)
    ensures
        count_expiring(records, n) <= n,
    decreases n,
{
    if n > 0 && n <= records.len() {
        lemma_counts(records, (n - 1) as nat);
    }
}


} // verus!
