//! The replies that the server sends, as bytes.

use crate::database::stream::{entry_views, id_text, EntryView, StreamEntry};
use crate::resp::{encode, lemma_array_view, views, RespData, RespValue};
use crate::text::{
    copy_bytes, crlf, dec_digits, pair_seqs, push_dec, ASTERISK, COLON, CR, LF,
};
use vstd::prelude::*;
use vstd::string::StringSliceAdditionalSpecFns;

verus! {

/// `+text\r\n`.
pub open spec fn simple(text: Seq<u8>) -> Seq<u8> {
    encode(RespValue::String(text))
}

/// `-text\r\n`.
pub open spec fn error_line(text: Seq<u8>) -> Seq<u8> {
    encode(RespValue::ErrorStr(text))
}

/// `$len\r\nbytes\r\n`.
pub open spec fn bulk(bytes: Seq<u8>) -> Seq<u8> {
    encode(RespValue::BulkStr(bytes))
}

/// `$-1\r\n`.
pub open spec fn null_bulk() -> Seq<u8> {
    encode(RespValue::Null)
}

/// `:n\r\n`.
pub open spec fn integer(n: i64) -> Seq<u8> {
    encode(RespValue::Integer(n))
}

/// `:n\r\n` for a count.
pub open spec fn count(n: nat) -> Seq<u8> {
    seq![COLON] + dec_digits(n) + crlf()
}

/// `*n\r\n`, the header of an array of `n` items.
pub open spec fn array_header(n: nat) -> Seq<u8> {
    seq![ASTERISK] + dec_digits(n) + crlf()
}

/// `+OK\r\n`.
pub open spec fn ok() -> Seq<u8> {
    simple("OK".spec_bytes())
}

/// `+QUEUED\r\n`.
pub open spec fn queued() -> Seq<u8> {
    simple("QUEUED".spec_bytes())
}

/// The optional reply of a read: the value as a bulk string, or the null
/// bulk string.
pub open spec fn bulk_or_null(v: Option<Seq<u8>>) -> Seq<u8> {
    match v {
        Some(b) => bulk(b),
        None => null_bulk(),
    }
}

/// See `simple`.
pub fn reply_simple(text: &[u8]) -> (r: Vec<u8>)
    ensures
        r@ == simple(text@),
{
    RespData::String(copy_bytes(text)).encode()
}

/// See `error_line`.
pub fn reply_error(text: &[u8]) -> (r: Vec<u8>)
    ensures
        r@ == error_line(text@),
{
    RespData::ErrorStr(copy_bytes(text)).encode()
}

/// See `bulk`.
pub fn reply_bulk(bytes: &[u8]) -> (r: Vec<u8>)
    ensures
        r@ == bulk(bytes@),
{
    RespData::BulkStr(copy_bytes(bytes)).encode()
}

/// See `null_bulk`.
pub fn reply_null() -> (r: Vec<u8>)
    ensures
        r@ == null_bulk(),
{
    RespData::Null.encode()
}

/// See `integer`.
pub fn reply_integer(n: i64) -> (r: Vec<u8>)
    ensures
        r@ == integer(n),
{
    RespData::Integer(n).encode()
}

/// See `count`.
pub fn reply_count(n: usize) -> (r: Vec<u8>)
    ensures
        r@ == count(n as nat),
{
    let mut r: Vec<u8> = Vec::new();
    r.push(COLON);
    push_dec(&mut r, n as u128);
    r.push(CR);
    r.push(LF);
    assert(r@ =~= count(n as nat));
    r
}

/// See `array_header`.
pub fn reply_array_header(n: usize) -> (r: Vec<u8>)
    ensures
        r@ == array_header(n as nat),
{
    let mut r: Vec<u8> = Vec::new();
    r.push(ASTERISK);
    push_dec(&mut r, n as u128);
    r.push(CR);
    r.push(LF);
    assert(r@ =~= array_header(n as nat));
    r
}

/// See `ok`.
pub fn reply_ok() -> (r: Vec<u8>)
    ensures
        r@ == ok(),
{
    reply_simple("OK".as_bytes())
}

/// See `queued`.
pub fn reply_queued() -> (r: Vec<u8>)
    ensures
        r@ == queued(),
{
    reply_simple("QUEUED".as_bytes())
}

/// See `bulk_or_null`.
pub fn reply_bulk_or_null(v: &Option<Vec<u8>>) -> (r: Vec<u8>)
    ensures
        r@ == bulk_or_null(
            match v {
                Some(b) => Some(b@),
                None => None,
            },
        ),
{
    match v {
        Some(b) => reply_bulk(b.as_slice()),
        None => reply_null(),
    }
}

// ---------------------------------------------------------------------------
// Entries of a stream
// ---------------------------------------------------------------------------

/// The fields of an entry as a flat list: field, value, field, value, ...
pub open spec fn fields_value(data: Seq<(Seq<u8>, Seq<u8>)>) -> Seq<RespValue> {
    Seq::new(
        2 * data.len(),
        |i: int|
            if i % 2 == 0 {
                RespValue::BulkStr(data[i / 2].0)
            } else {
                RespValue::BulkStr(data[i / 2].1)
            },
    )
}

/// An entry as a value: its id, then the list of its fields.
pub open spec fn entry_value(e: EntryView) -> RespValue {
    RespValue::Array(
        seq![RespValue::BulkStr(id_text(e.entry_id)), RespValue::Array(fields_value(e.data))],
    )
}

/// Entries as a value: the array of them.
pub open spec fn entries_value(entries: Seq<EntryView>) -> RespValue {
    RespValue::Array(Seq::new(entries.len(), |i: int| entry_value(entries[i])))
}

/// The reply that carries `entries`: the array of them behind `init`, or the
/// null bulk string where there are none.
pub open spec fn xrange_output(entries: Seq<EntryView>, init: Seq<u8>) -> Seq<u8> {
    if entries.len() == 0 {
        null_bulk()
    } else {
        init + encode(entries_value(entries))
    }
}

fn entry_data(e: &StreamEntry) -> (r: RespData)
    ensures
        r@ == entry_value(e@),
{
    let mut fields: Vec<RespData> = Vec::new();
    let mut i: usize = 0;
    let ghost data = pair_seqs(e.data@);
    while i < e.data.len()
        invariant
            i <= e.data@.len(),
            data == pair_seqs(e.data@),
            fields@.len() == 2 * i,
            forall|j: int| 0 <= j < 2 * i ==> (#[trigger] fields@[j])@ == fields_value(data)[j],
        decreases e.data@.len() - i,
    {
        assert(data[i as int] == (e.data@[i as int].0@, e.data@[i as int].1@));
        fields.push(RespData::BulkStr(copy_bytes(e.data[i].0.as_slice())));
        fields.push(RespData::BulkStr(copy_bytes(e.data[i].1.as_slice())));
        i += 1;
    }
    assert(views(fields@) =~= fields_value(data));
    let mut pair: Vec<RespData> = Vec::new();
    pair.push(RespData::BulkStr(e.entry_id.print()));
    proof {
        lemma_array_view(fields);
    }
    pair.push(RespData::Array(fields));
    assert(views(pair@) =~= seq![
        RespValue::BulkStr(id_text(e@.entry_id)),
        RespValue::Array(fields_value(data)),
    ]);
    proof {
        lemma_array_view(pair);
    }
    RespData::Array(pair)
}

/// The entries as one value.
pub fn entries_data(items: &Vec<StreamEntry>) -> (r: RespData)
    ensures
        r@ == entries_value(entry_views(items@)),
{
    let mut all: Vec<RespData> = Vec::new();
    let mut i: usize = 0;
    let ghost es = entry_views(items@);
    while i < items.len()
        invariant
            i <= items@.len(),
            es == entry_views(items@),
            all@.len() == i,
            forall|j: int| 0 <= j < i ==> (#[trigger] all@[j])@ == entry_value(es[j]),
        decreases items@.len() - i,
    {
        assert(es[i as int] == items@[i as int]@);
        all.push(entry_data(&items[i]));
        i += 1;
    }
    assert(views(all@) =~= Seq::new(es.len(), |i: int| entry_value(es[i])));
    proof {
        lemma_array_view(all);
    }
    RespData::Array(all)
}

/// The reply that carries the entries of a range: one message.
pub fn format_xrange_output(items_in_range: &Vec<StreamEntry>, resp_init_str: &[u8]) -> (r: Vec<
    Vec<u8>,
>)
    ensures
        r@.len() == 1,
        r@[0]@ == xrange_output(entry_views(items_in_range@), resp_init_str@),
{
    let mut responses: Vec<Vec<u8>> = Vec::new();
    if items_in_range.len() > 0 {
        let mut response = copy_bytes(resp_init_str);
        entries_data(items_in_range).write_to(&mut response);
        responses.push(response);
    } else {
        responses.push(reply_null());
    }
    responses
}

} // verus!
