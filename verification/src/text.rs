//! Byte strings: comparison, ASCII case folding, searching, and decimal
//! numbers as they appear on the wire.

use vstd::prelude::*;
use vstd::slice::slice_subrange;

verus! {

/// Carriage return.
pub const CR: u8 = 13;

/// Line feed.
pub const LF: u8 = 10;

/// `+`.
pub const PLUS: u8 = 43;

/// `-`.
pub const MINUS: u8 = 45;

/// `:`.
pub const COLON: u8 = 58;

/// `$`.
pub const DOLLAR: u8 = 36;

/// `*`.
pub const ASTERISK: u8 = 42;

/// A space.
pub const SPACE: u8 = 32;

/// The two bytes that end every line of the protocol.
pub open spec fn crlf() -> Seq<u8> {
    seq![CR, LF]
}

// ---------------------------------------------------------------------------
// Copying and comparing
// ---------------------------------------------------------------------------

/// Appends `s` to `out`.
pub fn append_bytes(out: &mut Vec<u8>, s: &[u8])
    ensures
        final(out)@ == old(out)@ + s@,
{
    let mut i: usize = 0;
    while i < s.len()
        invariant
            i <= s.len(),
            out@ == old(out)@ + s@.subrange(0, i as int),
        decreases s.len() - i,
    {
        out.push(s[i]);
        i += 1;
    }
    assert(s@.subrange(0, s@.len() as int) == s@);
}

/// A fresh vector holding the bytes of `s`.
pub fn copy_bytes(s: &[u8]) -> (r: Vec<u8>)
    ensures
        r@ == s@,
{
    let mut r: Vec<u8> = Vec::new();
    append_bytes(&mut r, s);
    r
}

/// A fresh vector holding `s[from..to]`.
pub fn copy_range(s: &[u8], from: usize, to: usize) -> (r: Vec<u8>)
    requires
        from <= to <= s@.len(),
    ensures
        r@ == s@.subrange(from as int, to as int),
{
    copy_bytes(slice_subrange(s, from, to))
}

/// Whether two byte strings hold the same bytes.
pub fn bytes_eq(a: &[u8], b: &[u8]) -> (r: bool)
    ensures
        r == (a@ == b@),
{
    if a.len() != b.len() {
        return false;
    }
    let mut i: usize = 0;
    while i < a.len()
        invariant
            i <= a.len(),
            a.len() == b.len(),
            forall|j: int| 0 <= j < i ==> a@[j] == b@[j],
        decreases a.len() - i,
    {
        if a[i] != b[i] {
            return false;
        }
        i += 1;
    }
    assert(a@ =~= b@);
    true
}

// ---------------------------------------------------------------------------
// ASCII case
// ---------------------------------------------------------------------------

/// The lower-case form of an ASCII letter; any other byte unchanged.
pub open spec fn lower(b: u8) -> u8 {
    if 65 <= b <= 90 {
        (b + 32) as u8
    } else {
        b
    }
}

/// `s` with every ASCII capital letter made lower-case.
pub open spec fn lower_seq(s: Seq<u8>) -> Seq<u8> {
    Seq::new(s.len(), |i: int| lower(s[i]))
}

/// The upper-case form of an ASCII letter; any other byte unchanged.
pub open spec fn upper(b: u8) -> u8 {
    if 97 <= b <= 122 {
        (b - 32) as u8
    } else {
        b
    }
}

/// `s` with every ASCII small letter made upper-case.
pub open spec fn upper_seq(s: Seq<u8>) -> Seq<u8> {
    Seq::new(s.len(), |i: int| upper(s[i]))
}

/// See `lower_seq`.
pub fn to_ascii_lowercase(s: &[u8]) -> (r: Vec<u8>)
    ensures
        r@ == lower_seq(s@),
{
    let mut r: Vec<u8> = Vec::new();
    let mut i: usize = 0;
    while i < s.len()
        invariant
            i <= s.len(),
            r@.len() == i,
            forall|j: int| 0 <= j < i ==> r@[j] == lower(s@[j]),
        decreases s.len() - i,
    {
        let b = s[i];
        if 65 <= b && b <= 90 {
            r.push(b + 32);
        } else {
            r.push(b);
        }
        i += 1;
    }
    assert(r@ =~= lower_seq(s@));
    r
}

/// See `upper_seq`.
pub fn to_ascii_uppercase(s: &[u8]) -> (r: Vec<u8>)
    ensures
        r@ == upper_seq(s@),
{
    let mut r: Vec<u8> = Vec::new();
    let mut i: usize = 0;
    while i < s.len()
        invariant
            i <= s.len(),
            r@.len() == i,
            forall|j: int| 0 <= j < i ==> r@[j] == upper(s@[j]),
        decreases s.len() - i,
    {
        let b = s[i];
        if 97 <= b && b <= 122 {
            r.push(b - 32);
        } else {
            r.push(b);
        }
        i += 1;
    }
    assert(r@ =~= upper_seq(s@));
    r
}

/// Whether `s`, case folded, reads `word`.
pub fn is_word(s: &[u8], word: &[u8]) -> (r: bool)
    ensures
        r == (lower_seq(s@) == word@),
{
    let l = to_ascii_lowercase(s);
    bytes_eq(l.as_slice(), word)
}

// ---------------------------------------------------------------------------
// Searching
// ---------------------------------------------------------------------------

/// Whether `needle` occurs in `hay` at index `at`.
pub open spec fn occurs_at(hay: Seq<u8>, needle: Seq<u8>, at: int) -> bool {
    &&& 0 <= at
    &&& at + needle.len() <= hay.len()
    &&& hay.subrange(at, at + needle.len()) == needle
}

/// Whether `needle` occurs somewhere in `hay`.
pub open spec fn contains_seq(hay: Seq<u8>, needle: Seq<u8>) -> bool {
    exists|at: int| occurs_at(hay, needle, at)
}

fn matches_at(hay: &[u8], needle: &[u8], at: usize) -> (r: bool)
    requires
        at + needle@.len() <= hay@.len(),
    ensures
        r == occurs_at(hay@, needle@, at as int),
{
    let _ = hay.len();
    let window = slice_subrange(hay, at, at + needle.len());
    bytes_eq(window, needle)
}

/// Whether `needle` occurs somewhere in `hay`.
pub fn contains(hay: &[u8], needle: &[u8]) -> (r: bool)
    ensures
        r == contains_seq(hay@, needle@),
{
    if needle.len() > hay.len() {
        assert(forall|at: int| !occurs_at(hay@, needle@, at));
        return false;
    }
    let last: usize = hay.len() - needle.len();
    let mut i: usize = 0;
    loop
        invariant
            last == hay@.len() - needle@.len(),
            i <= last,
            forall|at: int| 0 <= at < i ==> !occurs_at(hay@, needle@, at),
        decreases last - i,
    {
        if matches_at(hay, needle, i) {
            return true;
        }
        if i == last {
            assert(forall|at: int| !occurs_at(hay@, needle@, at));
            return false;
        }
        i += 1;
    }
}

/// The index of the first CR LF pair of `s` at or after `from`, or -1.
pub open spec fn find_crlf(s: Seq<u8>, from: int) -> int
    decreases s.len() - from,
{
    if from < 0 || from + 1 >= s.len() {
        -1
    } else if s[from] == CR && s[from + 1] == LF {
        from
    } else {
        find_crlf(s, from + 1)
    }
}

/// No CR LF pair in `s`.
pub open spec fn no_crlf(s: Seq<u8>) -> bool {
    forall|i: int| 0 <= i && i + 1 < s.len() ==> !(#[trigger] s[i] == CR && s[i + 1] == LF)
}

/// What `find_crlf` finds is a pair, and the first one.
pub proof fn lemma_find_crlf_bounds(s: Seq<u8>, from: int)
    requires
        0 <= from,
    ensures
        find_crlf(s, from) == -1 || (from <= find_crlf(s, from) && find_crlf(s, from) + 1 < s.len()
            && s[find_crlf(s, from)] == CR && s[find_crlf(s, from) + 1] == LF),
        forall|j: int|
            from <= j && (find_crlf(s, from) == -1 || j < find_crlf(s, from)) && j + 1 < s.len()
                ==> !(#[trigger] s[j] == CR && s[j + 1] == LF),
    decreases s.len() - from,
{
    if from + 1 >= s.len() {
    } else if s[from] == CR && s[from + 1] == LF {
    } else {
        lemma_find_crlf_bounds(s, from + 1);
    }
}

/// Where the first pair stands, when nothing before `end` is one.
pub proof fn lemma_find_crlf_at(s: Seq<u8>, from: int, end: int)
    requires
        0 <= from <= end,
        end + 1 < s.len(),
        s[end] == CR,
        s[end + 1] == LF,
        forall|j: int| from <= j < end ==> !(#[trigger] s[j] == CR && s[j + 1] == LF),
    ensures
        find_crlf(s, from) == end,
    decreases end - from,
{
    if from < end {
        lemma_find_crlf_at(s, from + 1, end);
    }
}

/// The index of the first CR LF pair at or after `from`; see `find_crlf`.
pub fn find_line_end(s: &[u8], from: usize) -> (r: Option<usize>)
    ensures
        match r {
            Some(i) => find_crlf(s@, from as int) == i,
            None => find_crlf(s@, from as int) == -1,
        },
{
    let mut i: usize = from;
    while i < s.len() && i + 1 < s.len()
        invariant
            from <= i,
            find_crlf(s@, from as int) == find_crlf(s@, i as int),
        decreases s.len() - i,
    {
        if s[i] == CR && s[i + 1] == LF {
            return Some(i);
        }
        i += 1;
    }
    None
}

// ---------------------------------------------------------------------------
// Decimal numbers
// ---------------------------------------------------------------------------

/// One of the bytes `0` to `9`.
pub open spec fn is_digit(b: u8) -> bool {
    48 <= b <= 57
}

/// One digit or more, and nothing else.
pub open spec fn is_number(s: Seq<u8>) -> bool {
    s.len() > 0 && forall|i: int| 0 <= i < s.len() ==> is_digit(#[trigger] s[i])
}

/// The decimal digits of `n`, the most significant first, without leading
/// zeros.
pub open spec fn dec_digits(n: nat) -> Seq<u8>
    decreases n,
{
    if n < 10 {
        seq![(48 + n) as u8]
    } else {
        dec_digits(n / 10).push((48 + n % 10) as u8)
    }
}

/// The number that a string of digits denotes.
pub open spec fn dec_value(s: Seq<u8>) -> nat
    decreases s.len(),
{
    if s.len() == 0 {
        0
    } else {
        dec_value(s.drop_last()) * 10 + (s.last() - 48) as nat
    }
}

/// The decimal form of an integer: a minus sign where it is negative, then
/// its digits.
pub open spec fn int_digits(n: int) -> Seq<u8> {
    if n < 0 {
        seq![MINUS] + dec_digits((-n) as nat)
    } else {
        dec_digits(n as nat)
    }
}

/// The integer that `s` denotes: an optional sign, then digits.
pub open spec fn int_value(s: Seq<u8>) -> Option<int> {
    if s.len() > 0 && s[0] == MINUS {
        if is_number(s.skip(1)) {
            Some(-(dec_value(s.skip(1)) as int))
        } else {
            None
        }
    } else if s.len() > 0 && s[0] == PLUS {
        if is_number(s.skip(1)) {
            Some(dec_value(s.skip(1)) as int)
        } else {
            None
        }
    } else if is_number(s) {
        Some(dec_value(s) as int)
    } else {
        None
    }
}

/// The natural number that `s` denotes: an optional plus sign, then digits.
pub open spec fn nat_value(s: Seq<u8>) -> Option<nat> {
    if s.len() > 0 && s[0] == PLUS {
        if is_number(s.skip(1)) {
            Some(dec_value(s.skip(1)))
        } else {
            None
        }
    } else if is_number(s) {
        Some(dec_value(s))
    } else {
        None
    }
}

/// The digits of a number are a number, and denote it.
pub proof fn lemma_dec_digits(n: nat)
    ensures
        is_number(dec_digits(n)),
        dec_value(dec_digits(n)) == n,
    decreases n,
{
    let d = dec_digits(n);
    if n < 10 {
        assert(d.drop_last() =~= Seq::<u8>::empty());
        assert(dec_value(d.drop_last()) == 0);
    } else {
        lemma_dec_digits(n / 10);
        assert(d.drop_last() =~= dec_digits(n / 10));
    }
}

/// The decimal form of an integer denotes it, and holds no line break.
pub proof fn lemma_int_digits(n: int)
    ensures
        int_value(int_digits(n)) == Some(n),
        int_digits(n).len() > 0,
        forall|i: int|
            0 <= i < int_digits(n).len() ==> #[trigger] int_digits(n)[i] != CR && int_digits(n)[i]
                != LF,
{
    let s = int_digits(n);
    if n < 0 {
        let m = (-n) as nat;
        lemma_dec_digits(m);
        assert(s.skip(1) =~= dec_digits(m));
        assert forall|i: int| 0 <= i < s.len() implies #[trigger] s[i] != CR && s[i] != LF by {
            if i > 0 {
                assert(s[i] == dec_digits(m)[i - 1]);
            }
        }
    } else {
        lemma_dec_digits(n as nat);
        assert(is_digit(s[0]));
    }
}

/// A longer string of digits denotes no less than its beginning.
pub proof fn lemma_dec_value_prefix(s: Seq<u8>, k: int)
    requires
        0 <= k <= s.len(),
        forall|i: int| 0 <= i < s.len() ==> is_digit(#[trigger] s[i]),
    ensures
        dec_value(s.take(k)) <= dec_value(s),
    decreases s.len(),
{
    if k == s.len() {
        assert(s.take(k) =~= s);
    } else {
        lemma_dec_value_prefix(s.drop_last(), k);
        assert(s.drop_last().take(k) =~= s.take(k));
    }
}

/// Appends the decimal digits of `n`.
pub fn push_dec(out: &mut Vec<u8>, n: u128)
    ensures
        final(out)@ == old(out)@ + dec_digits(n as nat),
    decreases n,
{
    if n >= 10 {
        push_dec(out, n / 10);
    }
    out.push((48 + n % 10) as u8);
    assert(out@ =~= old(out)@ + dec_digits(n as nat));
}

/// Appends the decimal form of `n`.
pub fn push_int(out: &mut Vec<u8>, n: i64)
    ensures
        final(out)@ == old(out)@ + int_digits(n as int),
{
    if n < 0 {
        out.push(MINUS);
        let m: u128 = (-(n as i128)) as u128;
        push_dec(out, m);
        assert(out@ =~= old(out)@ + int_digits(n as int));
    } else {
        push_dec(out, n as u128);
    }
}

/// The decimal digits of `n`; see `dec_digits`.
pub fn u128_to_dec(n: u128) -> (r: Vec<u8>)
    ensures
        r@ == dec_digits(n as nat),
{
    let mut r: Vec<u8> = Vec::new();
    push_dec(&mut r, n);
    r
}

/// The decimal form of `n`; see `int_digits`.
pub fn i64_to_dec(n: i64) -> (r: Vec<u8>)
    ensures
        r@ == int_digits(n as int),
{
    let mut r: Vec<u8> = Vec::new();
    push_int(&mut r, n);
    r
}

/// Reads `s[from..]` as a string of digits that denotes at most `max`.
pub fn parse_digits(s: &[u8], from: usize, max: u128) -> (r: Option<u128>)
    requires
        from <= s@.len(),
    ensures
        r == (if is_number(s@.skip(from as int)) && dec_value(s@.skip(from as int)) <= max {
            Some(dec_value(s@.skip(from as int)) as u128)
        } else {
            None
        }),
{
    let ghost t = s@.skip(from as int);
    if from == s.len() {
        return None;
    }
    let mut acc: u128 = 0;
    let mut i: usize = from;
    while i < s.len()
        invariant
            from <= i <= s@.len(),
            t == s@.skip(from as int),
            forall|j: int| 0 <= j < i - from ==> is_digit(#[trigger] t[j]),
            acc == dec_value(t.take(i - from)),
            acc <= max,
        decreases s.len() - i,
    {
        let b = s[i];
        assert(t[i - from] == b);
        if b < 48 || b > 57 {
            return None;
        }
        let d: u128 = (b - 48) as u128;
        proof {
            assert(t.take(i - from + 1).drop_last() =~= t.take(i - from));
            assert(t.take(i - from + 1).last() == b);
        }
        if d > max || acc > (max - d) / 10 {
            proof {
                if is_number(t) {
                    lemma_dec_value_prefix(t, i - from + 1);
                }
            }
            return None;
        }
        acc = acc * 10 + d;
        i += 1;
    }
    assert(t.take(i - from) =~= t);
    Some(acc)
}

/// Reads `s` as a non-negative decimal number that fits `max`.
pub fn parse_nat(s: &[u8], max: u128) -> (r: Option<u128>)
    ensures
        r == (match nat_value(s@) {
            Some(v) if v <= max => Some(v as u128),
            _ => None,
        }),
{
    if s.len() > 0 && s[0] == PLUS {
        parse_digits(s, 1, max)
    } else {
        assert(s@.skip(0) =~= s@);
        parse_digits(s, 0, max)
    }
}

/// Reads `s` as a number of 64 bits; see `nat_value`.
pub fn parse_u64(s: &[u8]) -> (r: Option<u64>)
    ensures
        r == (match nat_value(s@) {
            Some(v) if v <= u64::MAX => Some(v as u64),
            _ => None,
        }),
{
    match parse_nat(s, u64::MAX as u128) {
        Some(v) => Some(v as u64),
        None => None,
    }
}

/// Reads `s` as a number of 128 bits; see `nat_value`.
pub fn parse_u128(s: &[u8]) -> (r: Option<u128>)
    ensures
        r == (match nat_value(s@) {
            Some(v) if v <= u128::MAX => Some(v as u128),
            _ => None,
        }),
{
    parse_nat(s, u128::MAX)
}

/// Reads `s` as a number of 16 bits; see `nat_value`.
pub fn parse_u16(s: &[u8]) -> (r: Option<u16>)
    ensures
        r == (match nat_value(s@) {
            Some(v) if v <= u16::MAX => Some(v as u16),
            _ => None,
        }),
{
    match parse_nat(s, u16::MAX as u128) {
        Some(v) => Some(v as u16),
        None => None,
    }
}

/// Reads `s` as a size; see `nat_value`.
pub fn parse_usize(s: &[u8]) -> (r: Option<usize>)
    ensures
        r == (match nat_value(s@) {
            Some(v) if v <= usize::MAX => Some(v as usize),
            _ => None,
        }),
{
    match parse_nat(s, usize::MAX as u128) {
        Some(v) => Some(v as usize),
        None => None,
    }
}

/// The 64-bit signed integer that `s` denotes, if it denotes one.
pub open spec fn i64_value(s: Seq<u8>) -> Option<i64> {
    match int_value(s) {
        Some(v) if i64::MIN <= v <= i64::MAX => Some(v as i64),
        _ => None,
    }
}

/// Reads `s` as a signed integer of 64 bits; see `i64_value`.
pub fn parse_i64(s: &[u8]) -> (r: Option<i64>)
    ensures
        r == i64_value(s@),
{
    if s.len() > 0 && s[0] == MINUS {
        match parse_digits(s, 1, 0x8000_0000_0000_0000u128) {
            Some(v) => {
                let w: i128 = -(v as i128);
                Some(w as i64)
            },
            None => None,
        }
    } else if s.len() > 0 && s[0] == PLUS {
        match parse_digits(s, 1, i64::MAX as u128) {
            Some(v) => Some(v as i64),
            None => None,
        }
    } else {
        assert(s@.skip(0) =~= s@);
        match parse_digits(s, 0, i64::MAX as u128) {
            Some(v) => Some(v as i64),
            None => None,
        }
    }
}

/// The decimal form of a 64-bit integer is read back as that integer.
pub proof fn lemma_i64_digits(n: i64)
    ensures
        i64_value(int_digits(n as int)) == Some(n),
{
    lemma_int_digits(n as int);
}

// ---------------------------------------------------------------------------
// Lists of byte strings
// ---------------------------------------------------------------------------

/// The contents of a list of byte strings.
pub open spec fn byte_seqs(v: Seq<Vec<u8>>) -> Seq<Seq<u8>> {
    Seq::new(v.len(), |i: int| v[i]@)
}

/// The contents of a list of pairs of byte strings.
pub open spec fn pair_seqs(v: Seq<(Vec<u8>, Vec<u8>)>) -> Seq<(Seq<u8>, Seq<u8>)> {
    Seq::new(v.len(), |i: int| (v[i].0@, v[i].1@))
}

/// A fresh copy of a list of byte strings.
pub fn copy_list(v: &Vec<Vec<u8>>) -> (r: Vec<Vec<u8>>)
    ensures
        byte_seqs(r@) == byte_seqs(v@),
{
    let mut r: Vec<Vec<u8>> = Vec::new();
    let mut i: usize = 0;
    while i < v.len()
        invariant
            i <= v.len(),
            r@.len() == i,
            forall|j: int| 0 <= j < i ==> r@[j]@ == v@[j]@,
        decreases v.len() - i,
    {
        r.push(copy_bytes(v[i].as_slice()));
        i += 1;
    }
    assert(byte_seqs(r@) =~= byte_seqs(v@));
    r
}

/// A fresh copy of a list of pairs of byte strings.
pub fn copy_pairs(v: &Vec<(Vec<u8>, Vec<u8>)>) -> (r: Vec<(Vec<u8>, Vec<u8>)>)
    ensures
        pair_seqs(r@) == pair_seqs(v@),
{
    let mut r: Vec<(Vec<u8>, Vec<u8>)> = Vec::new();
    let mut i: usize = 0;
    while i < v.len()
        invariant
            i <= v.len(),
            r@.len() == i,
            forall|j: int| 0 <= j < i ==> r@[j].0@ == v@[j].0@ && r@[j].1@ == v@[j].1@,
        decreases v.len() - i,
    {
        r.push((copy_bytes(v[i].0.as_slice()), copy_bytes(v[i].1.as_slice())));
        i += 1;
    }
    assert(pair_seqs(r@) =~= pair_seqs(v@));
    r
}

// ---------------------------------------------------------------------------
// Finding a byte
// ---------------------------------------------------------------------------

/// The index of the first `b` of `s` at or after `from`, or -1.
pub open spec fn first_byte(s: Seq<u8>, b: u8, from: int) -> int
    decreases s.len() - from,
{
    if from < 0 || from >= s.len() {
        -1
    } else if s[from] == b {
        from
    } else {
        first_byte(s, b, from + 1)
    }
}

/// What `first_byte` finds is that byte.
pub proof fn lemma_first_byte(s: Seq<u8>, b: u8, from: int)
    requires
        0 <= from,
    ensures
        first_byte(s, b, from) == -1 || (from <= first_byte(s, b, from) < s.len() && s[first_byte(
            s,
            b,
            from,
        )] == b),
    decreases s.len() - from,
{
    if from < s.len() && s[from] != b {
        lemma_first_byte(s, b, from + 1);
    }
}

/// The index of the first `b` in `s`; see `first_byte`.
pub fn find_byte(s: &[u8], b: u8) -> (r: Option<usize>)
    ensures
        match r {
            Some(i) => first_byte(s@, b, 0) == i && i < s@.len() && s@[i as int] == b,
            None => first_byte(s@, b, 0) == -1,
        },
{
    let mut i: usize = 0;
    while i < s.len()
        invariant
            i <= s@.len(),
            first_byte(s@, b, 0) == first_byte(s@, b, i as int),
        decreases s.len() - i,
    {
        if s[i] == b {
            return Some(i);
        }
        i += 1;
    }
    None
}

/// Whether `p` is how `s` begins.
pub open spec fn is_prefix(p: Seq<u8>, s: Seq<u8>) -> bool {
    p.len() <= s.len() && s.subrange(0, p.len() as int) == p
}

// ---------------------------------------------------------------------------
// Words
// ---------------------------------------------------------------------------

/// The index at which the word that starts at `pos` ends: that of the next
/// space, or the end of `s`.
pub open spec fn word_end(s: Seq<u8>, pos: int) -> int
    decreases s.len() - pos,
{
    if pos < 0 || pos >= s.len() || s[pos] == SPACE {
        pos
    } else {
        word_end(s, pos + 1)
    }
}

/// A word ends behind its start, inside the text.
pub proof fn lemma_word_end(s: Seq<u8>, pos: int)
    requires
        0 <= pos <= s.len(),
    ensures
        pos <= word_end(s, pos) <= s.len(),
        pos < s.len() && s[pos] != SPACE ==> pos < word_end(s, pos),
    decreases s.len() - pos,
{
    if pos < s.len() && s[pos] != SPACE {
        lemma_word_end(s, pos + 1);
    }
}

/// The words of `s` from `pos` on: the runs of bytes between spaces.
pub open spec fn words(s: Seq<u8>, pos: int) -> Seq<Seq<u8>>
    decreases s.len() - pos,
{
    if pos < 0 || pos >= s.len() {
        Seq::<Seq<u8>>::empty()
    } else if s[pos] == SPACE {
        words(s, pos + 1)
    } else {
        let end = word_end(s, pos);
        if end <= pos || end > s.len() {
            Seq::<Seq<u8>>::empty()
        } else {
            seq![s.subrange(pos, end)] + words(s, end)
        }
    }
}

/// Splits `s` at its spaces.
pub fn split_words(s: &[u8]) -> (r: Vec<Vec<u8>>)
    ensures
        byte_seqs(r@) == words(s@, 0),
{
    let mut r: Vec<Vec<u8>> = Vec::new();
    let mut pos: usize = 0;
    assert(byte_seqs(r@) =~= Seq::<Seq<u8>>::empty());
    assert(byte_seqs(r@) + words(s@, 0) =~= words(s@, 0));
    while pos < s.len()
        invariant
            pos <= s@.len(),
            byte_seqs(r@) + words(s@, pos as int) == words(s@, 0),
        decreases s@.len() - pos,
    {
        if s[pos] == SPACE {
            pos += 1;
        } else {
            let mut end: usize = pos + 1;
            while end < s.len() && s[end] != SPACE
                invariant
                    pos < end <= s@.len(),
                    word_end(s@, pos as int) == word_end(s@, end as int),
                decreases s@.len() - end,
            {
                end += 1;
            }
            proof {
                lemma_word_end(s@, pos as int);
            }
            let word = copy_range(s, pos, end);
            let ghost before = byte_seqs(r@);
            r.push(word);
            assert(byte_seqs(r@) =~= before.push(word@));
            assert(byte_seqs(r@) + words(s@, end as int) =~= before + (seq![word@] + words(
                s@,
                end as int,
            )));
            pos = end;
        }
    }
    assert(byte_seqs(r@) + words(s@, pos as int) =~= byte_seqs(r@));
    r
}

} // verus!
