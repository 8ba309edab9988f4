//! Commands as text, for a client that writes them out.

use crate::resp::{bulk_values, command_encoding, encode, encode_seq, RespValue};
use crate::text::{dec_digits, is_digit, lemma_dec_digits, u128_to_dec};
use itertools::Itertools;
use vstd::prelude::*;
use vstd::string::{StringExecFns, StringSliceAdditionalSpecFns};
use vstd::utf8::{encode_utf8, is_ascii_chars, is_ascii_chars_encode_utf8};

verus! {

/// The digits of a number as characters.
pub open spec fn digit_chars(n: nat) -> Seq<char> {
    Seq::new(dec_digits(n).len(), |i: int| dec_digits(n)[i] as char)
}

/// A bulk string as text: `$`, the number of bytes of `s`, a line end, `s`
/// and a line end.
pub open spec fn resp_string(s: &str) -> Seq<char> {
    "$"@ + digit_chars(s.spec_bytes().len()) + "\r\n"@ + s@ + "\r\n"@
}

/// The bulk strings of the first `n` of `items`, one after another.
pub open spec fn resp_strings(items: Seq<&str>, n: nat) -> Seq<char>
    decreases n,
{
    if n == 0 || n > items.len() {
        Seq::<char>::empty()
    } else {
        resp_strings(items, (n - 1) as nat) + resp_string(items[n - 1])
    }
}

/// An array of bulk strings as text.
pub open spec fn resp_array(items: Seq<&str>) -> Seq<char> {
    "*"@ + digit_chars(items.len()) + "\r\n"@ + resp_strings(items, items.len())
}

/// The first `n` of `parts`, one after another.
pub open spec fn joined(parts: Seq<String>, n: nat) -> Seq<char>
    decreases n,
{
    if n == 0 || n > parts.len() {
        Seq::<char>::empty()
    } else {
        joined(parts, (n - 1) as nat) + parts[n - 1]@
    }
}

/// `itertools::Itertools::join` with an empty separator: the parts, one
/// after another.
#[verifier::external_body]
fn join_strings(parts: &Vec<String>) -> (r: String)
    ensures
        r@ == joined(parts@, parts@.len()),
{
    parts.iter().join("")
}

fn digit_str(b: u8) -> (r: &'static str)
    requires
        is_digit(b),
    ensures
        r@ == seq![b as char],
{
    proof {
        reveal_strlit("0");
        reveal_strlit("1");
        reveal_strlit("2");
        reveal_strlit("3");
        reveal_strlit("4");
        reveal_strlit("5");
        reveal_strlit("6");
        reveal_strlit("7");
        reveal_strlit("8");
        reveal_strlit("9");
    }
    let r = if b == 48 {
        "0"
    } else if b == 49 {
        "1"
    } else if b == 50 {
        "2"
    } else if b == 51 {
        "3"
    } else if b == 52 {
        "4"
    } else if b == 53 {
        "5"
    } else if b == 54 {
        "6"
    } else if b == 55 {
        "7"
    } else if b == 56 {
        "8"
    } else {
        "9"
    };
    assert(r@ =~= seq![b as char]);
    r
}

/// The digits of `n` as a text.
pub fn digits_string(n: usize) -> (r: String)
    ensures
        r@ == digit_chars(n as nat),
{
    let digits = u128_to_dec(n as u128);
    proof {
        lemma_dec_digits(n as nat);
    }
    let mut r = String::new();
    let mut i: usize = 0;
    while i < digits.len()
        invariant
            i <= digits@.len(),
            digits@ == dec_digits(n as nat),
            forall|j: int| 0 <= j < digits@.len() ==> is_digit(#[trigger] digits@[j]),
            r@ == Seq::new(i as nat, |j: int| digits@[j] as char),
        decreases digits@.len() - i,
    {
        let d = digit_str(digits[i]);
        let ghost before = r@;
        r.append(d);
        i += 1;
        assert(r@ =~= Seq::new(i as nat, |j: int| digits@[j] as char));
    }
    assert(r@ =~= digit_chars(n as nat));
    r
}

/// The bytes of each of `items`.
pub open spec fn item_bytes(items: Seq<&str>) -> Seq<Seq<u8>> {
    Seq::new(items.len(), |i: int| items[i].spec_bytes())
}

/// The writer of commands as text.
pub struct RespHandler;

impl RespHandler {
    /// An array of bulk strings as text; see `resp_array`.
    pub fn to_resp_array(vec: Vec<&str>) -> (r: String)
        ensures
            r@ == resp_array(vec@),
            encode_utf8(r@) == command_encoding(item_bytes(vec@)),
    {
        proof {
            lemma_array_is_command(vec@);
        }
        let mut parts: Vec<String> = Vec::new();
        let mut i: usize = 0;
        while i < vec.len()
            invariant
                i <= vec@.len(),
                parts@.len() == i,
                joined(parts@, i as nat) == resp_strings(vec@, i as nat),
            decreases vec@.len() - i,
        {
            let ghost before = parts@;
            let part = RespHandler::to_resp_string(vec[i]);
            parts.push(part);
            proof {
                lemma_joined_prefix(before, parts@, i as nat);
            }
            i += 1;
        }
        let resp_string = join_strings(&parts);
        let r = String::from_str("*").concat(digits_string(vec.len()).as_str()).concat(
            "\r\n",
        ).concat(resp_string.as_str());
        r
    }

    /// A bulk string as text; see `resp_string`.
    pub fn to_resp_string(str_input: &str) -> (r: String)
        ensures
            r@ == resp_string(str_input),
            encode_utf8(r@) == encode(RespValue::BulkStr(str_input.spec_bytes())),
    {
        proof {
            lemma_string_is_bulk(str_input);
        }
        let n = str_input.as_bytes().len();
        String::from_str("$").concat(digits_string(n).as_str()).concat("\r\n").concat(
            str_input,
        ).concat("\r\n")
    }
}

/// What the first `n` parts make does not hang on the parts behind them.
pub proof fn lemma_joined_prefix(a: Seq<String>, b: Seq<String>, n: nat)
    requires
        n <= a.len(),
        n <= b.len(),
        forall|i: int| 0 <= i < n ==> a[i] == b[i],
    ensures
        joined(a, n) == joined(b, n),
    decreases n,
{
    if n > 0 {
        lemma_joined_prefix(a, b, (n - 1) as nat);
    }
}

/// The bytes of two texts, one after the other, are the bytes of the
/// first and then those of the second.
pub proof fn lemma_bytes_of_concat(a: Seq<char>, b: Seq<char>)
    ensures
        encode_utf8(a + b) == encode_utf8(a) + encode_utf8(b),
    decreases a.len(),
{
    if a.len() == 0 {
        assert(a + b =~= b);
        assert(encode_utf8(a) + encode_utf8(b) =~= encode_utf8(b));
    } else {
        assert((a + b).drop_first() =~= a.drop_first() + b);
        lemma_bytes_of_concat(a.drop_first(), b);
        assert(encode_utf8(a + b) =~= encode_utf8(a) + encode_utf8(b));
    }
}

/// The bytes of the digits of a number as characters are its digits.
pub proof fn lemma_digit_bytes(n: nat)
    ensures
        encode_utf8(digit_chars(n)) == dec_digits(n),
{
    lemma_dec_digits(n);
    let chars = digit_chars(n);
    assert(is_ascii_chars(chars)) by {
        assert forall|i: int| 0 <= i < chars.len() implies '\0' <= #[trigger] chars[i]
            <= '\u{7f}' by {
            assert(is_digit(dec_digits(n)[i]));
        }
    }
    is_ascii_chars_encode_utf8(chars);
    assert forall|i: int| 0 <= i < chars.len() implies encode_utf8(chars)[i] == dec_digits(n)[i] by {
        assert(is_digit(dec_digits(n)[i]));
        assert(chars[i] as u8 == encode_utf8(chars)[i]);
    }
    assert(encode_utf8(chars) =~= dec_digits(n));
}

/// A bulk string as text has the bytes of the bulk string of its bytes on
/// the wire.
pub proof fn lemma_string_is_bulk(s: &str)
    ensures
        encode_utf8(resp_string(s)) == encode(RespValue::BulkStr(s.spec_bytes())),
{
    reveal_strlit("$");
    reveal_strlit("\r\n");
    let n = s.spec_bytes().len();
    let head = "$"@ + digit_chars(n);
    lemma_digit_bytes(n);
    is_ascii_chars_encode_utf8("$"@);
    is_ascii_chars_encode_utf8("\r\n"@);
    assert(encode_utf8("$"@) =~= seq![crate::text::DOLLAR]);
    assert(encode_utf8("\r\n"@) =~= crate::text::crlf());
    lemma_bytes_of_concat("$"@, digit_chars(n));
    lemma_bytes_of_concat(head, "\r\n"@);
    lemma_bytes_of_concat(head + "\r\n"@, s@);
    lemma_bytes_of_concat(head + "\r\n"@ + s@, "\r\n"@);
}

/// The first `n` bulk strings as text, and then the rest on the wire, are
/// all of them on the wire.
proof fn lemma_strings_are_bulks(items: Seq<&str>, n: nat)
    requires
        n <= items.len(),
    ensures
        encode_utf8(resp_strings(items, n)) + encode_seq(bulk_values(item_bytes(items)), n)
            == encode_seq(bulk_values(item_bytes(items)), 0),
    decreases n,
{
    let values = bulk_values(item_bytes(items));
    if n == 0 {
        assert(encode_utf8(resp_strings(items, n)) + encode_seq(values, n) =~= encode_seq(
            values,
            0,
        ));
    } else {
        let m = (n - 1) as nat;
        lemma_strings_are_bulks(items, m);
        lemma_string_is_bulk(items[n - 1]);
        lemma_bytes_of_concat(resp_strings(items, m), resp_string(items[n - 1]));
        assert(values[n - 1] == RespValue::BulkStr(items[n - 1].spec_bytes()));
        assert(encode_seq(values, m) == encode(values[n - 1]) + encode_seq(values, n));
        assert(encode_utf8(resp_strings(items, n)) + encode_seq(values, n) =~= encode_utf8(
            resp_strings(items, m),
        ) + encode_seq(values, m));
    }
}

/// An array of bulk strings as text has the bytes of the command of these
/// words on the wire: what reads the one reads the other.
pub proof fn lemma_array_is_command(items: Seq<&str>)
    ensures
        encode_utf8(resp_array(items)) == command_encoding(item_bytes(items)),
{
    reveal_strlit("*");
    reveal_strlit("\r\n");
    let n = items.len();
    let values = bulk_values(item_bytes(items));
    let head = "*"@ + digit_chars(n);
    lemma_digit_bytes(n);
    is_ascii_chars_encode_utf8("*"@);
    is_ascii_chars_encode_utf8("\r\n"@);
    assert(encode_utf8("*"@) =~= seq![crate::text::ASTERISK]);
    assert(encode_utf8("\r\n"@) =~= crate::text::crlf());
    lemma_bytes_of_concat("*"@, digit_chars(n));
    lemma_bytes_of_concat(head, "\r\n"@);
    lemma_bytes_of_concat(head + "\r\n"@, resp_strings(items, n));
    lemma_strings_are_bulks(items, n);
    assert(encode_seq(values, n) =~= Seq::<u8>::empty());
    assert(encode_utf8(resp_strings(items, n)) =~= encode_seq(values, 0));
    assert(values.len() == n);
}

} // verus!
