//! The wire format: values, their encoding, and the decoder of inbound
//! buffers.

use crate::text::{
    append_bytes, copy_bytes, copy_range, crlf, dec_digits, find_crlf, find_line_end, i64_value,
    int_digits, lemma_find_crlf_bounds, nat_value, no_crlf, parse_i64, parse_usize, push_dec,
    push_int, ASTERISK, COLON, CR, DOLLAR, LF, MINUS, PLUS,
};
use vstd::prelude::*;

verus! {

/// Why a buffer could not be read.
#[derive(Debug, Clone, Copy, PartialEq, Eq, Structural)]
pub enum RespError {
    /// The framing is malformed, a length does not match, or a value is cut
    /// short.
    Invalid,
}

/// A value of the protocol.
#[derive(Debug, PartialEq)]
pub enum RespData {
    /// A simple string: `+text\r\n`.
    String(Vec<u8>),
    /// An error: `-text\r\n`.
    ErrorStr(Vec<u8>),
    /// An integer: `:n\r\n`.
    Integer(i64),
    /// A bulk string: `$len\r\nbytes\r\n`.
    BulkStr(Vec<u8>),
    /// An array: `*count\r\n`, then its items.
    Array(Vec<RespData>),
    /// The null bulk string: `$-1\r\n`.
    Null,
    /// The null array: `*-1\r\n`.
    NullArray,
}

/// What a `RespData` stands for.
pub enum RespValue {
    String(Seq<u8>),
    ErrorStr(Seq<u8>),
    Integer(i64),
    BulkStr(Seq<u8>),
    Array(Seq<RespValue>),
    Null,
    NullArray,
}

/// What `d` stands for.
pub open spec fn value_of(d: RespData) -> RespValue
    decreases d,
{
    match d {
        RespData::String(s) => RespValue::String(s@),
        RespData::ErrorStr(s) => RespValue::ErrorStr(s@),
        RespData::Integer(n) => RespValue::Integer(n),
        RespData::BulkStr(b) => RespValue::BulkStr(b@),
        RespData::Array(v) => RespValue::Array(
            Seq::new(
                v@.len(),
                |i: int|
                    if 0 <= i < v@.len() {
                        value_of(v@[i])
                    } else {
                        RespValue::Null
                    },
            ),
        ),
        RespData::Null => RespValue::Null,
        RespData::NullArray => RespValue::NullArray,
    }
}

impl View for RespData {
    type V = RespValue;

    open spec fn view(&self) -> RespValue {
        value_of(*self)
    }
}

/// The values that a sequence of `RespData` stands for.
pub open spec fn views(v: Seq<RespData>) -> Seq<RespValue> {
    Seq::new(v.len(), |i: int| v[i]@)
}

/// An array stands for the array of what its items stand for.
pub proof fn lemma_array_view(v: Vec<RespData>)
    ensures
        RespData::Array(v)@ == RespValue::Array(views(v@)),
{
    assert(RespData::Array(v)@->Array_0 =~= views(v@));
}

/// The text `-1` that marks a null.
pub open spec fn minus_one() -> Seq<u8> {
    seq![MINUS, 49u8]
}

// ---------------------------------------------------------------------------
// Encoding
// ---------------------------------------------------------------------------

/// The bytes of a value on the wire.
pub open spec fn encode(v: RespValue) -> Seq<u8>
    decreases v, 0nat,
{
    match v {
        RespValue::String(s) => seq![PLUS] + s + crlf(),
        RespValue::ErrorStr(s) => seq![MINUS] + s + crlf(),
        RespValue::Integer(n) => seq![COLON] + int_digits(n as int) + crlf(),
        RespValue::BulkStr(b) => seq![DOLLAR] + dec_digits(b.len()) + crlf() + b + crlf(),
        RespValue::Array(items) => seq![ASTERISK] + dec_digits(items.len()) + crlf() + encode_seq(
            items,
            0,
        ),
        RespValue::Null => seq![DOLLAR] + minus_one() + crlf(),
        RespValue::NullArray => seq![ASTERISK] + minus_one() + crlf(),
    }
}

/// The bytes of the values of `items` from index `from` on, one after
/// another.
pub open spec fn encode_seq(items: Seq<RespValue>, from: nat) -> Seq<u8>
    decreases items, items.len() - from,
{
    if from >= items.len() {
        Seq::<u8>::empty()
    } else {
        encode(items[from as int]) + encode_seq(items, from + 1)
    }
}

/// The bytes of all of `items`, one after another.
pub open spec fn encode_all(items: Seq<RespValue>) -> Seq<u8> {
    encode_seq(items, 0)
}

/// A value that the wire can carry as it is: no line break inside a simple
/// string or an error.
pub open spec fn wf(v: RespValue) -> bool
    decreases v,
{
    match v {
        RespValue::String(s) => no_crlf(s),
        RespValue::ErrorStr(s) => no_crlf(s),
        RespValue::Array(items) => forall|i: int| 0 <= i < items.len() ==> wf(#[trigger] items[i]),
        _ => true,
    }
}

/// Values that the wire can carry as they are, every one of them.
pub open spec fn all_wf(items: Seq<RespValue>) -> bool {
    forall|i: int| 0 <= i < items.len() ==> wf(#[trigger] items[i])
}

/// Appends `tag`, `line` and a line end.
fn push_line(out: &mut Vec<u8>, tag: u8, line: &[u8])
    ensures
        final(out)@ == old(out)@ + (seq![tag] + line@ + crlf()),
{
    out.push(tag);
    append_bytes(out, line);
    out.push(CR);
    out.push(LF);
    assert(out@ =~= old(out)@ + (seq![tag] + line@ + crlf()));
}

/// Appends `tag`, the digits of `n` and a line end.
fn push_count(out: &mut Vec<u8>, tag: u8, n: usize)
    ensures
        final(out)@ == old(out)@ + (seq![tag] + dec_digits(n as nat) + crlf()),
{
    out.push(tag);
    push_dec(out, n as u128);
    out.push(CR);
    out.push(LF);
    assert(out@ =~= old(out)@ + (seq![tag] + dec_digits(n as nat) + crlf()));
}

impl RespData {
    /// Appends the bytes of this value to `out`.
    pub fn write_to(&self, out: &mut Vec<u8>)
        ensures
            final(out)@ == old(out)@ + encode(self@),
        decreases self,
    {
        match self {
            RespData::String(s) => {
                push_line(out, PLUS, s.as_slice());
            },
            RespData::ErrorStr(s) => {
                push_line(out, MINUS, s.as_slice());
            },
            RespData::Integer(n) => {
                out.push(COLON);
                push_int(out, *n);
                out.push(CR);
                out.push(LF);
                assert(out@ =~= old(out)@ + encode(self@));
            },
            RespData::BulkStr(b) => {
                push_count(out, DOLLAR, b.len());
                append_bytes(out, b.as_slice());
                out.push(CR);
                out.push(LF);
                assert(out@ =~= old(out)@ + encode(self@));
            },
            RespData::Array(v) => {
                push_count(out, ASTERISK, v.len());
                let ghost head = out@;
                let ghost items = views(v@);
                proof {
                    lemma_array_view(*v);
                }
                let mut i: usize = 0;
                while i < v.len()
                    invariant
                        i <= v.len(),
                        items == views(v@),
                        out@ + encode_seq(items, i as nat) == head + encode_seq(items, 0),
                        self == RespData::Array(*v),
                    decreases v.len() - i,
                {
                    assert(decreases_to!(*self => self->Array_0));
                    assert(decreases_to!(*v => v@[i as int]));
                    let ghost before = out@;
                    v[i].write_to(out);
                    assert(out@ + encode_seq(items, (i + 1) as nat) =~= before + encode_seq(
                        items,
                        i as nat,
                    ));
                    i += 1;
                }
                assert(out@ =~= out@ + encode_seq(items, i as nat));
                assert(out@ =~= old(out)@ + encode(self@));
            },
            RespData::Null => {
                out.push(DOLLAR);
                out.push(MINUS);
                out.push(49);
                out.push(CR);
                out.push(LF);
                assert(out@ =~= old(out)@ + encode(self@));
            },
            RespData::NullArray => {
                out.push(ASTERISK);
                out.push(MINUS);
                out.push(49);
                out.push(CR);
                out.push(LF);
                assert(out@ =~= old(out)@ + encode(self@));
            },
        }
    }

    /// The bytes of this value on the wire.
    pub fn encode(&self) -> (r: Vec<u8>)
        ensures
            r@ == encode(self@),
    {
        let mut out: Vec<u8> = Vec::new();
        self.write_to(&mut out);
        out
    }
}

// ---------------------------------------------------------------------------
// Decoding
// ---------------------------------------------------------------------------

/// The value that starts at `pos` in `s`, and the index after it. `None`
/// where no complete, well-framed value starts there.
pub open spec fn decode_at(s: Seq<u8>, pos: int) -> Option<(RespValue, int)>
    decreases s.len() - pos, 0nat,
{
    if pos < 0 || pos >= s.len() {
        None
    } else {
        let end = find_crlf(s, pos + 1);
        if end < pos + 1 || end + 2 > s.len() {
            None
        } else {
            let line = s.subrange(pos + 1, end);
            let next = end + 2;
            let tag = s[pos];
            if tag == PLUS {
                Some((RespValue::String(line), next))
            } else if tag == MINUS {
                Some((RespValue::ErrorStr(line), next))
            } else if tag == COLON {
                match i64_value(line) {
                    Some(n) => Some((RespValue::Integer(n), next)),
                    None => None,
                }
            } else if tag == DOLLAR {
                if line == minus_one() {
                    Some((RespValue::Null, next))
                } else {
                    match nat_value(line) {
                        Some(len) => if next + len + 2 <= s.len() && s[next + len] == CR && s[next
                            + len + 1] == LF {
                            Some((RespValue::BulkStr(s.subrange(next, next + len)), next + len + 2))
                        } else {
                            None
                        },
                        None => None,
                    }
                }
            } else if tag == ASTERISK {
                if line == minus_one() {
                    Some((RespValue::NullArray, next))
                } else {
                    match nat_value(line) {
                        Some(count) => match decode_seq(s, next, count) {
                            Some((items, after)) => Some((RespValue::Array(items), after)),
                            None => None,
                        },
                        None => None,
                    }
                }
            } else {
                None
            }
        }
    }
}

/// The `count` values that start at `pos` in `s`, one after another, and the
/// index after the last.
pub open spec fn decode_seq(s: Seq<u8>, pos: int, count: nat) -> Option<(Seq<RespValue>, int)>
    decreases s.len() - pos, count + 1,
{
    if count == 0 {
        Some((Seq::<RespValue>::empty(), pos))
    } else if pos < 0 || pos >= s.len() {
        None
    } else {
        match decode_at(s, pos) {
            Some((first, next)) => if next <= pos || next > s.len() {
                None
            } else {
                match decode_seq(s, next, (count - 1) as nat) {
                    Some((rest, after)) => Some((seq![first] + rest, after)),
                    None => None,
                }
            },
            None => None,
        }
    }
}

/// The values that fill `s` from `pos` to its end. `None` where the bytes are
/// not a run of complete values.
pub open spec fn decode_all(s: Seq<u8>, pos: int) -> Option<Seq<RespValue>>
    decreases s.len() - pos,
{
    if pos < 0 || pos > s.len() {
        None
    } else if pos == s.len() {
        Some(Seq::<RespValue>::empty())
    } else {
        match decode_at(s, pos) {
            Some((first, next)) => if next <= pos || next > s.len() {
                None
            } else {
                match decode_all(s, next) {
                    Some(rest) => Some(seq![first] + rest),
                    None => None,
                }
            },
            None => None,
        }
    }
}

/// A decoded value ends after it began, and inside the buffer.
pub proof fn lemma_decode_at_advances(s: Seq<u8>, pos: int)
    ensures
        decode_at(s, pos) matches Some((_, next)) ==> pos < next <= s.len(),
    decreases s.len() - pos, 0nat,
{
    if 0 <= pos < s.len() {
        let end = find_crlf(s, pos + 1);
        lemma_find_crlf_bounds(s, pos + 1);
        if end >= pos + 1 && s[pos] == ASTERISK {
            let line = s.subrange(pos + 1, end);
            if line != minus_one() {
                match nat_value(line) {
                    Some(count) => {
                        lemma_decode_seq_advances(s, end + 2, count);
                    },
                    None => {},
                }
            }
        }
    }
}

/// A run of decoded values ends inside the buffer, and holds as many as were asked for.
pub proof fn lemma_decode_seq_advances(s: Seq<u8>, pos: int, count: nat)
    requires
        0 <= pos <= s.len(),
    ensures
        decode_seq(s, pos, count) matches Some((items, after)) ==> pos <= after <= s.len()
            && items.len() == count,
    decreases s.len() - pos, count + 1,
{
    if count > 0 && pos < s.len() {
        lemma_decode_at_advances(s, pos);
        match decode_at(s, pos) {
            Some((first, next)) => {
                if next > pos {
                    lemma_decode_seq_advances(s, next, (count - 1) as nat);
                }
            },
            None => {},
        }
    }
}

fn is_minus_one(line: &[u8]) -> (r: bool)
    ensures
        r == (line@ == minus_one()),
{
    let r = line.len() == 2 && line[0] == MINUS && line[1] == 49;
    proof {
        if r {
            assert(line@ =~= minus_one());
        }
    }
    r
}

impl RespData {
    /// Reads the value that starts at `pos`.
    pub fn decode(input: &[u8], pos: usize) -> (r: Option<(RespData, usize)>)
        ensures
            match r {
                Some((d, next)) => decode_at(input@, pos as int) == Some((d@, next as int)),
                None => decode_at(input@, pos as int) is None,
            },
        decreases input@.len() - pos, 0nat,
    {
        if pos >= input.len() {
            return None;
        }
        let end = match find_line_end(input, pos + 1) {
            Some(end) => end,
            None => {
                return None;
            },
        };
        proof {
            lemma_find_crlf_bounds(input@, pos + 1);
        }
        let line = vstd::slice::slice_subrange(input, pos + 1, end);
        let next: usize = end + 2;
        let tag = input[pos];
        if tag == PLUS {
            Some((RespData::String(copy_bytes(line)), next))
        } else if tag == MINUS {
            Some((RespData::ErrorStr(copy_bytes(line)), next))
        } else if tag == COLON {
            match parse_i64(line) {
                Some(n) => Some((RespData::Integer(n), next)),
                None => None,
            }
        } else if tag == DOLLAR {
            if is_minus_one(line) {
                return Some((RespData::Null, next));
            }
            match parse_usize(line) {
                Some(len) => {
                    if len <= input.len() - next && input.len() - next - len >= 2 && input[next
                        + len] == CR && input[next + len + 1] == LF {
                        let body = copy_range(input, next, next + len);
                        Some((RespData::BulkStr(body), next + len + 2))
                    } else {
                        None
                    }
                },
                None => None,
            }
        } else if tag == ASTERISK {
            if is_minus_one(line) {
                return Some((RespData::NullArray, next));
            }
            match parse_usize(line) {
                Some(count) => {
                    match RespData::decode_items(input, next, count) {
                        Some((items, after)) => {
                            proof {
                                lemma_array_view(items);
                            }
                            Some((RespData::Array(items), after))
                        },
                        None => None,
                    }
                },
                None => {
                    proof {
                        match nat_value(line@) {
                            Some(count) => {
                                lemma_decode_seq_advances(input@, next as int, count);
                                lemma_decode_seq_needs_room(input@, next as int, count);
                            },
                            None => {},
                        }
                    }
                    None
                },
            }
        } else {
            None
        }
    }

    /// Reads the `count` values that start at `pos`.
    pub fn decode_items(input: &[u8], pos: usize, count: usize) -> (r: Option<
        (Vec<RespData>, usize),
    >)
        requires
            pos <= input@.len(),
        ensures
            match r {
                Some((items, after)) => decode_seq(input@, pos as int, count as nat) == Some(
                    (views(items@), after as int),
                ),
                None => decode_seq(input@, pos as int, count as nat) is None,
            },
        decreases input@.len() - pos, count + 1,
    {
        if count == 0 {
            let items: Vec<RespData> = Vec::new();
            assert(views(items@) =~= Seq::<RespValue>::empty());
            return Some((items, pos));
        }
        if pos >= input.len() {
            return None;
        }
        match RespData::decode(input, pos) {
            Some((first, next)) => {
                proof {
                    lemma_decode_at_advances(input@, pos as int);
                }
                match RespData::decode_items(input, next, count - 1) {
                    Some((rest, after)) => {
                        let mut items: Vec<RespData> = Vec::new();
                        items.push(first);
                        let mut rest = rest;
                        let ghost rest0 = rest@;
                        items.append(&mut rest);
                        assert(views(items@) =~= seq![first@] + views(rest0));
                        Some((items, after))
                    },
                    None => None,
                }
            },
            None => None,
        }
    }

    /// Reads a whole buffer: the values it holds, in order. An empty buffer
    /// holds none. A buffer that is anything but a run of complete values is
    /// `Invalid`.
    pub fn parse(input: &[u8]) -> (r: Result<Vec<RespData>, RespError>)
        ensures
            match r {
                Ok(values) => decode_all(input@, 0) == Some(views(values@)),
                Err(e) => decode_all(input@, 0) is None && e == RespError::Invalid,
            },
    {
        let mut values: Vec<RespData> = Vec::new();
        let mut pos: usize = 0;
        while pos < input.len()
            invariant
                pos <= input@.len(),
                decode_all(input@, 0) == (match decode_all(input@, pos as int) {
                    Some(rest) => Some(views(values@) + rest),
                    None => None,
                }),
            decreases input@.len() - pos,
        {
            match RespData::decode(input, pos) {
                Some((d, next)) => {
                    proof {
                        lemma_decode_at_advances(input@, pos as int);
                        let ghost before = views(values@);
                        assert forall|rest: Seq<RespValue>|
                            before + (seq![d@] + rest) == #[trigger] (before.push(d@) + rest) by {
                            assert(before + (seq![d@] + rest) =~= before.push(d@) + rest);
                        }
                    }
                    let ghost before = views(values@);
                    values.push(d);
                    assert(views(values@) =~= before.push(d@));
                    pos = next;
                },
                None => {
                    return Err(RespError::Invalid);
                },
            }
        }
        assert(views(values@) + Seq::<RespValue>::empty() =~= views(values@));
        Ok(values)
    }
}

/// `count` values take at least `count` bytes.
pub proof fn lemma_decode_seq_needs_room(s: Seq<u8>, pos: int, count: nat)
    requires
        0 <= pos <= s.len(),
    ensures
        decode_seq(s, pos, count) is Some ==> pos + count <= s.len(),
    decreases s.len() - pos, count + 1,
{
    if count > 0 && pos < s.len() {
        lemma_decode_at_advances(s, pos);
        match decode_at(s, pos) {
            Some((first, next)) => {
                if next > pos {
                    lemma_decode_seq_needs_room(s, next, (count - 1) as nat);
                }
            },
            None => {},
        }
    }
}

// ---------------------------------------------------------------------------
// Decoding what was encoded
// ---------------------------------------------------------------------------

/// The header line `tag`, `line`, CR LF at `pos` is read as `line`.
proof fn lemma_header(s: Seq<u8>, pos: int, tag: u8, line: Seq<u8>)
    requires
        0 <= pos,
        pos + 1 + line.len() + 2 <= s.len(),
        s.subrange(pos, pos + 1 + line.len() + 2) == seq![tag] + line + crlf(),
        forall|i: int| 0 <= i < line.len() ==> #[trigger] line[i] != CR,
    ensures
        s[pos] == tag,
        find_crlf(s, pos + 1) == pos + 1 + line.len(),
        s.subrange(pos + 1, pos + 1 + line.len()) == line,
{
    let n = 1 + line.len() + 2;
    let w = seq![tag] + line + crlf();
    assert forall|k: int| 0 <= k < n implies s[pos + k] == w[k] by {
        assert(s.subrange(pos, pos + n)[k] == s[pos + k]);
    }
    assert(s[pos + 0] == w[0]);
    let end = pos + 1 + line.len();
    assert(s[end] == w[end - pos]);
    assert(s[end + 1] == w[end + 1 - pos]);
    assert forall|j: int| pos + 1 <= j < end implies !(#[trigger] s[j] == CR && s[j + 1] == LF) by {
        assert(s[j] == w[j - pos]);
        assert(w[j - pos] == line[j - pos - 1]);
    }
    crate::text::lemma_find_crlf_at(s, pos + 1, end);
    assert(s.subrange(pos + 1, end) =~= line) by {
        assert forall|k: int| 0 <= k < line.len() implies s.subrange(pos + 1, end)[k] == line[k] by {
            assert(s[pos + 1 + k] == w[1 + k]);
        }
    }
}

/// The same for a line of text that holds no CR LF pair.
proof fn lemma_text_header(s: Seq<u8>, pos: int, tag: u8, line: Seq<u8>)
    requires
        0 <= pos,
        pos + 1 + line.len() + 2 <= s.len(),
        s.subrange(pos, pos + 1 + line.len() + 2) == seq![tag] + line + crlf(),
        no_crlf(line),
    ensures
        s[pos] == tag,
        find_crlf(s, pos + 1) == pos + 1 + line.len(),
        s.subrange(pos + 1, pos + 1 + line.len()) == line,
{
    let n = 1 + line.len() + 2;
    let w = seq![tag] + line + crlf();
    assert forall|k: int| 0 <= k < n implies s[pos + k] == w[k] by {
        assert(s.subrange(pos, pos + n)[k] == s[pos + k]);
    }
    assert(s[pos + 0] == w[0]);
    let end = pos + 1 + line.len();
    assert(s[end] == w[end - pos]);
    assert(s[end + 1] == w[end + 1 - pos]);
    assert forall|j: int| pos + 1 <= j < end implies !(#[trigger] s[j] == CR && s[j + 1] == LF) by {
        assert(s[j] == w[j - pos]);
        assert(w[j - pos] == line[j - pos - 1]);
        if j + 1 < end {
            assert(s[j + 1] == w[j + 1 - pos]);
            assert(w[j + 1 - pos] == line[j - pos]);
        }
    }
    crate::text::lemma_find_crlf_at(s, pos + 1, end);
    assert(s.subrange(pos + 1, end) =~= line) by {
        assert forall|k: int| 0 <= k < line.len() implies s.subrange(pos + 1, end)[k] == line[k] by {
            assert(s[pos + 1 + k] == w[1 + k]);
        }
    }
}

/// A part of a window is a window.
proof fn lemma_window(s: Seq<u8>, pos: int, a: Seq<u8>, b: Seq<u8>)
    requires
        0 <= pos,
        pos + a.len() + b.len() <= s.len(),
        s.subrange(pos, pos + a.len() + b.len()) == a + b,
    ensures
        s.subrange(pos, pos + a.len()) == a,
        s.subrange(pos + a.len(), pos + a.len() + b.len()) == b,
{
    let w = a + b;
    assert forall|k: int| 0 <= k < w.len() implies s[pos + k] == w[k] by {
        assert(s.subrange(pos, pos + w.len())[k] == s[pos + k]);
    }
    assert(s.subrange(pos, pos + a.len()) =~= a) by {
        assert forall|k: int| 0 <= k < a.len() implies s.subrange(pos, pos + a.len())[k] == a[k] by {
            assert(s[pos + k] == w[k]);
        }
    }
    assert(s.subrange(pos + a.len(), pos + a.len() + b.len()) =~= b) by {
        assert forall|k: int| 0 <= k < b.len() implies s.subrange(
            pos + a.len(),
            pos + a.len() + b.len(),
        )[k] == b[k] by {
            assert(s[pos + a.len() + k] == w[a.len() + k]);
        }
    }
}

/// The digits of a count are read as the count.
proof fn lemma_count_line(n: nat)
    ensures
        nat_value(dec_digits(n)) == Some(n),
        dec_digits(n) != minus_one(),
        forall|i: int| 0 <= i < dec_digits(n).len() ==> #[trigger] dec_digits(n)[i] != CR,
{
    crate::text::lemma_dec_digits(n);
    let d = dec_digits(n);
    assert(crate::text::is_digit(d[0]));
    assert forall|i: int| 0 <= i < d.len() implies #[trigger] d[i] != CR by {
        assert(crate::text::is_digit(d[i]));
    }
}

/// Where the bytes of a value that the wire can carry stand in a buffer from
/// `pos` on, the decoder reads that value there and ends right after it.
pub proof fn lemma_decode_encode(s: Seq<u8>, pos: int, v: RespValue)
    requires
        wf(v),
        0 <= pos,
        pos + encode(v).len() <= s.len(),
        s.subrange(pos, pos + encode(v).len()) == encode(v),
    ensures
        decode_at(s, pos) == Some((v, pos + encode(v).len())),
    decreases v, 0nat,
{
    match v {
        RespValue::String(t) => {
            lemma_text_header(s, pos, PLUS, t);
        },
        RespValue::ErrorStr(t) => {
            lemma_text_header(s, pos, MINUS, t);
        },
        RespValue::Integer(n) => {
            crate::text::lemma_int_digits(n as int);
            crate::text::lemma_i64_digits(n);
            lemma_header(s, pos, COLON, int_digits(n as int));
        },
        RespValue::BulkStr(b) => {
            let d = dec_digits(b.len());
            lemma_count_line(b.len());
            let head = seq![DOLLAR] + d + crlf();
            let tail = b + crlf();
            assert(encode(v) =~= head + tail);
            lemma_window(s, pos, head, tail);
            lemma_header(s, pos, DOLLAR, d);
            let next = pos + head.len();
            lemma_window(s, next, b, crlf());
            assert(s.subrange(next + b.len(), next + b.len() + 2)[0] == CR);
            assert(s.subrange(next + b.len(), next + b.len() + 2)[1] == LF);
        },
        RespValue::Array(items) => {
            let d = dec_digits(items.len());
            lemma_count_line(items.len());
            let head = seq![ASTERISK] + d + crlf();
            let tail = encode_seq(items, 0);
            lemma_window(s, pos, head, tail);
            lemma_header(s, pos, ASTERISK, d);
            let next = pos + head.len();
            lemma_decode_encode_seq(s, next, items, 0);
            assert(items.skip(0) =~= items);
        },
        RespValue::Null => {
            assert(minus_one()[0] != CR && minus_one()[1] != CR);
            lemma_header(s, pos, DOLLAR, minus_one());
        },
        RespValue::NullArray => {
            assert(minus_one()[0] != CR && minus_one()[1] != CR);
            lemma_header(s, pos, ASTERISK, minus_one());
        },
    }
}

/// The same for a run of values.
pub proof fn lemma_decode_encode_seq(s: Seq<u8>, pos: int, items: Seq<RespValue>, from: nat)
    requires
        all_wf(items),
        from <= items.len(),
        0 <= pos,
        pos + encode_seq(items, from).len() <= s.len(),
        s.subrange(pos, pos + encode_seq(items, from).len()) == encode_seq(items, from),
    ensures
        decode_seq(s, pos, (items.len() - from) as nat) == Some(
            (items.skip(from as int), pos + encode_seq(items, from).len()),
        ),
    decreases items, items.len() - from,
{
    if from >= items.len() {
        assert(items.skip(from as int) =~= Seq::<RespValue>::empty());
    } else {
        let v = items[from as int];
        let e = encode(v);
        let rest = encode_seq(items, from + 1);
        lemma_window(s, pos, e, rest);
        lemma_decode_encode(s, pos, v);
        lemma_decode_at_advances(s, pos);
        lemma_decode_encode_seq(s, pos + e.len(), items, from + 1);
        assert(seq![v] + items.skip(from as int + 1) =~= items.skip(from as int));
    }
}

/// A buffer that holds the encodings of values that the wire can carry, one
/// after another and nothing else, decodes to those values in order.
pub proof fn lemma_round_trip_all(values: Seq<RespValue>)
    requires
        all_wf(values),
    ensures
        decode_all(encode_all(values), 0) == Some(values),
{
    let s = encode_all(values);
    assert(s.skip(0) =~= s);
    lemma_decode_all_suffix(s, 0, values, 0);
    assert(values.skip(0) =~= values);
}

proof fn lemma_decode_all_suffix(s: Seq<u8>, pos: int, values: Seq<RespValue>, from: nat)
    requires
        all_wf(values),
        from <= values.len(),
        0 <= pos <= s.len(),
        s.skip(pos) == encode_seq(values, from),
    ensures
        decode_all(s, pos) == Some(values.skip(from as int)),
    decreases values.len() - from,
{
    if from >= values.len() {
        assert(values.skip(from as int) =~= Seq::<RespValue>::empty());
        assert(s.skip(pos).len() == 0);
    } else {
        let v = values[from as int];
        let e = encode(v);
        let rest = encode_seq(values, from + 1);
        assert(s.skip(pos).len() == e.len() + rest.len());
        assert(s.subrange(pos, pos + e.len() + rest.len()) =~= s.skip(pos));
        lemma_window(s, pos, e, rest);
        lemma_decode_encode(s, pos, v);
        lemma_decode_at_advances(s, pos);
        assert(s.skip(pos + e.len()) =~= rest);
        lemma_decode_all_suffix(s, pos + e.len(), values, from + 1);
        assert(seq![v] + values.skip(from as int + 1) =~= values.skip(from as int));
    }
}

/// Round trip: the bytes of a value that the wire can carry decode to that
/// value and nothing more.
pub proof fn lemma_round_trip(v: RespValue)
    requires
        wf(v),
    ensures
        decode_all(encode(v), 0) == Some(seq![v]),
{
    let values = seq![v];
    assert(encode_seq(values, 1) =~= Seq::<u8>::empty());
    assert(encode_all(values) =~= encode(v));
    lemma_round_trip_all(values);
}

// ---------------------------------------------------------------------------
// Values with their places in the buffer
// ---------------------------------------------------------------------------

/// A value and the bytes of the buffer that it was read from:
/// `start..end`.
#[derive(Debug, PartialEq)]
pub struct Frame {
    pub value: RespData,
    pub start: usize,
    pub end: usize,
}

/// The values of a list of frames.
pub open spec fn frame_values(frames: Seq<Frame>) -> Seq<RespValue> {
    Seq::new(frames.len(), |i: int| frames[i].value@)
}

/// The frames lie one after another from `from` to the end of `s`, and each
/// holds the value that the decoder reads at its start.
pub open spec fn tiles(s: Seq<u8>, frames: Seq<Frame>, from: int) -> bool {
    &&& forall|i: int|
        0 <= i < frames.len() ==> decode_at(s, (#[trigger] frames[i]).start as int) == Some(
            (frames[i].value@, frames[i].end as int),
        ) && frames[i].start < frames[i].end <= s.len()
    &&& forall|i: int, j: int|
        0 <= i && j == i + 1 && j < frames.len() ==> (#[trigger] frames[j]).start == (
        #[trigger] frames[i]).end
    &&& frames.len() > 0 ==> frames[0].start == from
    &&& if frames.len() == 0 {
        from == s.len()
    } else {
        frames.last().end == s.len()
    }
}

impl RespData {
    /// Reads a whole buffer like `parse`, and says where each value stands.
    pub fn parse_frames(input: &[u8]) -> (r: Result<std::collections::VecDeque<Frame>, RespError>)
        ensures
            match r {
                Ok(frames) => decode_all(input@, 0) == Some(frame_values(frames@)) && tiles(
                    input@,
                    frames@,
                    0,
                ),
                Err(e) => decode_all(input@, 0) is None && e == RespError::Invalid,
            },
    {
        let mut frames: std::collections::VecDeque<Frame> = std::collections::VecDeque::new();
        let mut pos: usize = 0;
        while pos < input.len()
            invariant
                pos <= input@.len(),
                decode_all(input@, 0) == (match decode_all(input@, pos as int) {
                    Some(rest) => Some(frame_values(frames@) + rest),
                    None => None,
                }),
                forall|i: int|
                    0 <= i < frames@.len() ==> decode_at(
                        input@,
                        (#[trigger] frames@[i]).start as int,
                    ) == Some((frames@[i].value@, frames@[i].end as int)) && frames@[i].start
                        < frames@[i].end <= input@.len(),
                forall|i: int, j: int|
                    0 <= i && j == i + 1 && j < frames@.len() ==> (#[trigger] frames@[j]).start == (
                    #[trigger] frames@[i]).end,
                frames@.len() > 0 ==> frames@[0].start == 0,
                pos == (if frames@.len() == 0 {
                    0
                } else {
                    frames@.last().end as int
                }),
            decreases input@.len() - pos,
        {
            match RespData::decode(input, pos) {
                Some((d, next)) => {
                    proof {
                        lemma_decode_at_advances(input@, pos as int);
                        let ghost before = frame_values(frames@);
                        assert forall|rest: Seq<RespValue>|
                            before + (seq![d@] + rest) == #[trigger] (before.push(d@) + rest) by {
                            assert(before + (seq![d@] + rest) =~= before.push(d@) + rest);
                        }
                    }
                    let ghost before = frame_values(frames@);
                    let ghost old_frames = frames@;
                    frames.push_back(Frame { value: d, start: pos, end: next });
                    assert(frame_values(frames@) =~= before.push(d@));
                    assert(forall|i: int| 0 <= i < old_frames.len() ==> frames@[i] == old_frames[i]);
                    pos = next;
                },
                None => {
                    return Err(RespError::Invalid);
                },
            }
        }
        assert(frame_values(frames@) + Seq::<RespValue>::empty() =~= frame_values(frames@));
        Ok(frames)
    }
}

// ---------------------------------------------------------------------------
// Commands as they are sent
// ---------------------------------------------------------------------------

/// The words as bulk strings.
pub open spec fn bulk_values(words: Seq<Seq<u8>>) -> Seq<RespValue> {
    Seq::new(words.len(), |i: int| RespValue::BulkStr(words[i]))
}

/// A command on the wire: the array of its words, each a bulk string.
pub open spec fn command_encoding(words: Seq<Seq<u8>>) -> Seq<u8> {
    encode(RespValue::Array(bulk_values(words)))
}

/// The bytes of a command; see `command_encoding`.
pub fn command_bytes(words: &Vec<Vec<u8>>) -> (r: Vec<u8>)
    ensures
        r@ == command_encoding(crate::text::byte_seqs(words@)),
{
    let ghost ws = crate::text::byte_seqs(words@);
    let mut items: Vec<RespData> = Vec::new();
    let mut i: usize = 0;
    while i < words.len()
        invariant
            i <= words@.len(),
            ws == crate::text::byte_seqs(words@),
            items@.len() == i,
            forall|j: int| 0 <= j < i ==> (#[trigger] items@[j])@ == RespValue::BulkStr(ws[j]),
        decreases words@.len() - i,
    {
        assert(ws[i as int] == words@[i as int]@);
        items.push(RespData::BulkStr(copy_bytes(words[i].as_slice())));
        i += 1;
    }
    assert(views(items@) =~= bulk_values(ws));
    proof {
        lemma_array_view(items);
    }
    RespData::Array(items).encode()
}

} // verus!
