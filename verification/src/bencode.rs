//! Bencode codec: a byte-exact decoder and canonical encoder for the
//! metainfo serialization format (integers, byte strings, lists and
//! dictionaries with byte-string keys in strictly ascending order).
//!
//! The decoder accepts exactly the canonical encodings: no leading zeros in
//! digit runs, no `-0`, dictionary keys strictly ascending. On every accepted
//! input, re-encoding the decoded value reproduces the consumed bytes
//! byte-for-byte; `lemma_encode_of_decoded` states this round trip.

use vstd::prelude::*;

verus! {

/// A decoded bencode value. Dictionaries keep their key order.
#[derive(Debug, PartialEq, Eq)]
pub enum Value {
    Int(i64),
    Bytes(Vec<u8>),
    List(Vec<Value>),
    Dict(Vec<(Vec<u8>, Value)>),
}

/// The mathematical counterpart of `Value`, used by all contracts.
pub enum SpecValue {
    Int(int),
    Bytes(Seq<u8>),
    List(Seq<SpecValue>),
    Dict(Seq<(Seq<u8>, SpecValue)>),
}

/// Why a byte stream was rejected by the decoder.
#[derive(Debug, Clone, Copy, PartialEq, Eq, Structural)]
pub enum BencodeError {
    /// The input ended before the value did.
    Truncated,
    /// A digit run is missing, has a leading zero, is `-0`, or a terminator
    /// byte is wrong.
    BadDigit,
    /// The first byte of a value is not `i`, `l`, `d` or a digit.
    BadPrefix,
    /// A length or integer does not fit the machine's integer types.
    LengthOverflow,
    /// A dictionary key is not strictly greater than its predecessor.
    UnsortedKey,
    /// A dictionary key is not a byte string.
    NonStringKey,
}

pub open spec fn view_of_value(v: Value) -> SpecValue
    decreases v,
{
    match v {
        Value::Int(i) => SpecValue::Int(i as int),
        Value::Bytes(b) => SpecValue::Bytes(b@),
        Value::List(l) => SpecValue::List(view_of_list(l@)),
        Value::Dict(d) => SpecValue::Dict(view_of_dict(d@)),
    }
}

pub open spec fn view_of_list(l: Seq<Value>) -> Seq<SpecValue>
    decreases l,
{
    if l.len() == 0 {
        Seq::empty()
    } else {
        seq![view_of_value(l[0])] + view_of_list(l.drop_first())
    }
}

pub open spec fn view_of_dict(d: Seq<(Vec<u8>, Value)>) -> Seq<(Seq<u8>, SpecValue)>
    decreases d,
{
    if d.len() == 0 {
        Seq::empty()
    } else {
        seq![(d[0].0@, view_of_value(d[0].1))] + view_of_dict(d.drop_first())
    }
}

impl View for Value {
    type V = SpecValue;

    open spec fn view(&self) -> SpecValue {
        view_of_value(*self)
    }
}

pub broadcast proof fn lemma_view_of_list(l: Seq<Value>)
    ensures
        (#[trigger] view_of_list(l)).len() == l.len(),
        forall|i: int| 0 <= i < l.len() ==> view_of_list(l)[i] == view_of_value(l[i]),
    decreases l,
{
    if l.len() > 0 {
        lemma_view_of_list(l.drop_first());
    }
}

pub broadcast proof fn lemma_view_of_dict(d: Seq<(Vec<u8>, Value)>)
    ensures
        (#[trigger] view_of_dict(d)).len() == d.len(),
        forall|i: int| 0 <= i < d.len() ==> view_of_dict(d)[i]
            == (d[i].0@, view_of_value(d[i].1)),
    decreases d,
{
    if d.len() > 0 {
        lemma_view_of_dict(d.drop_first());
    }
}

/// The decimal digits of `n`, most significant first, as ASCII bytes.
/// For `n == 0` this is the single byte `0`.
pub open spec fn spec_nat_digits(n: int) -> Seq<u8>
    recommends
        n >= 0,
    decreases n,
{
    if n < 10 {
        seq![(48 + n) as u8]
    } else {
        spec_nat_digits(n / 10) + seq![(48 + n % 10) as u8]
    }
}

/// The ASCII rendering of a (possibly negative) integer: `-` for negatives,
/// then the decimal digits with no leading zeros.
pub open spec fn spec_int_bytes(i: int) -> Seq<u8> {
    if i < 0 {
        seq![45u8] + spec_nat_digits(-i)
    } else {
        spec_nat_digits(i)
    }
}

/// The encoding of a byte string: decimal length, `:`, then the bytes.
pub open spec fn spec_encode_bytes(s: Seq<u8>) -> Seq<u8> {
    spec_nat_digits(s.len() as int) + seq![58u8] + s
}

/// The canonical bencode encoding of a value.
pub open spec fn spec_encode(v: SpecValue) -> Seq<u8>
    decreases v,
{
    match v {
        SpecValue::Int(i) => seq![105u8] + spec_int_bytes(i) + seq![101u8],
        SpecValue::Bytes(s) => spec_encode_bytes(s),
        SpecValue::List(items) => seq![108u8] + spec_encode_items(items) + seq![101u8],
        SpecValue::Dict(pairs) => seq![100u8] + spec_encode_pairs(pairs) + seq![101u8],
    }
}

pub open spec fn spec_encode_items(items: Seq<SpecValue>) -> Seq<u8>
    decreases items,
{
    if items.len() == 0 {
        Seq::empty()
    } else {
        spec_encode(items[0]) + spec_encode_items(items.drop_first())
    }
}

pub open spec fn spec_encode_pairs(pairs: Seq<(Seq<u8>, SpecValue)>) -> Seq<u8>
    decreases pairs,
{
    if pairs.len() == 0 {
        Seq::empty()
    } else {
        spec_encode_bytes(pairs[0].0) + spec_encode(pairs[0].1)
            + spec_encode_pairs(pairs.drop_first())
    }
}

/// Appends the decimal digits of `n` to `out`.
pub(crate) fn encode_nat(n: u64, out: &mut Vec<u8>)
    ensures
        final(out)@ == old(out)@ + spec_nat_digits(n as int),
    decreases n,
{
    if n < 10 {
        out.push(48 + (n as u8));
    } else {
        encode_nat(n / 10, out);
        out.push(48 + ((n % 10) as u8));
        assert(final(out)@ =~= old(out)@ + spec_nat_digits(n as int));
    }
}

/// The magnitude of `i` as a `u64`; total on all of `i64`.
fn int_magnitude(i: i64) -> (m: u64)
    ensures
        i >= 0 ==> m == i,
        i < 0 ==> m == -(i as int),
{
    if i >= 0 {
        i as u64
    } else {
        ((-(i + 1)) as u64) + 1
    }
}

/// Appends the ASCII rendering of `i` to `out`.
fn encode_int(i: i64, out: &mut Vec<u8>)
    ensures
        final(out)@ == old(out)@ + spec_int_bytes(i as int),
{
    if i < 0 {
        out.push(45);
        let m = int_magnitude(i);
        encode_nat(m, out);
        assert(final(out)@ =~= old(out)@ + spec_int_bytes(i as int));
    } else {
        encode_nat(i as u64, out);
    }
}

/// Appends the encoding of the byte string `s` to `out`.
fn encode_byte_string(s: &Vec<u8>, out: &mut Vec<u8>)
    ensures
        final(out)@ == old(out)@ + spec_encode_bytes(s@),
{
    encode_nat(s.len() as u64, out);
    out.push(58);
    let ghost mid = out@;
    let n = s.len();
    for k in 0..n
        invariant
            n == s@.len(),
            out@ == mid + s@.subrange(0, k as int),
    {
        out.push(s[k]);
        assert(out@ =~= mid + s@.subrange(0, k + 1));
    }
    assert(final(out)@ =~= old(out)@ + spec_encode_bytes(s@));
}

/// Appends the canonical encoding of `v` to `out`.
fn encode_value(v: &Value, out: &mut Vec<u8>)
    ensures
        final(out)@ == old(out)@ + spec_encode(v@),
    decreases *v, 0int,
{
    match v {
        Value::Int(i) => {
            out.push(105);
            encode_int(*i, out);
            out.push(101);
            assert(final(out)@ =~= old(out)@ + spec_encode(v@));
        },
        Value::Bytes(s) => {
            encode_byte_string(s, out);
        },
        Value::List(items) => {
            out.push(108);
            encode_items(items, 0, out);
            out.push(101);
            assert(view_of_list(items@).skip(0) =~= view_of_list(items@));
            assert(final(out)@ =~= old(out)@ + spec_encode(v@));
        },
        Value::Dict(pairs) => {
            out.push(100);
            encode_pairs(pairs, 0, out);
            out.push(101);
            assert(view_of_dict(pairs@).skip(0) =~= view_of_dict(pairs@));
            assert(final(out)@ =~= old(out)@ + spec_encode(v@));
        },
    }
}

/// Appends the encodings of `items[i..]` to `out`.
fn encode_items(items: &Vec<Value>, i: usize, out: &mut Vec<u8>)
    requires
        i <= items@.len(),
    ensures
        final(out)@ == old(out)@ + spec_encode_items(view_of_list(items@).skip(i as int)),
    decreases *items, items@.len() - i,
{
    proof {
        lemma_view_of_list(items@);
    }
    if i < items.len() {
        encode_value(&items[i], out);
        encode_items(items, i + 1, out);
        proof {
            let vs = view_of_list(items@);
            assert(vs.skip(i as int).drop_first() =~= vs.skip(i + 1));
            assert(vs.skip(i as int)[0] == view_of_value(items@[i as int]));
            assert(final(out)@ =~= old(out)@ + spec_encode_items(vs.skip(i as int)));
        }
    } else {
        assert(view_of_list(items@).skip(i as int) =~= Seq::empty());
        assert(final(out)@ =~= old(out)@ + spec_encode_items(view_of_list(items@).skip(i as int)));
    }
}

/// Appends the encodings of the key/value pairs `pairs[i..]` to `out`.
fn encode_pairs(pairs: &Vec<(Vec<u8>, Value)>, i: usize, out: &mut Vec<u8>)
    requires
        i <= pairs@.len(),
    ensures
        final(out)@ == old(out)@ + spec_encode_pairs(view_of_dict(pairs@).skip(i as int)),
    decreases *pairs, pairs@.len() - i,
{
    proof {
        lemma_view_of_dict(pairs@);
    }
    if i < pairs.len() {
        encode_byte_string(&pairs[i].0, out);
        encode_value(&pairs[i].1, out);
        encode_pairs(pairs, i + 1, out);
        proof {
            let ps = view_of_dict(pairs@);
            assert(ps.skip(i as int).drop_first() =~= ps.skip(i + 1));
            assert(ps.skip(i as int)[0] == (pairs@[i as int].0@, view_of_value(pairs@[i as int].1)));
            assert(final(out)@ =~= old(out)@ + spec_encode_pairs(ps.skip(i as int)));
        }
    } else {
        assert(view_of_dict(pairs@).skip(i as int) =~= Seq::empty());
        assert(final(out)@ =~= old(out)@ + spec_encode_pairs(view_of_dict(pairs@).skip(i as int)));
    }
}

/// The canonical byte encoding of `v`: integers without leading zeros or a
/// leading `+`, dictionary keys in the stored (ascending) order.
pub fn encode(v: &Value) -> (r: Vec<u8>)
    ensures
        r@ == spec_encode(v@),
{
    let mut out: Vec<u8> = Vec::new();
    encode_value(v, &mut out);
    out
}

pub open spec fn is_digit(b: u8) -> bool {
    48 <= b && b <= 57
}

/// The first position at or after `i` that does not hold an ASCII digit.
pub open spec fn digits_end(s: Seq<u8>, i: int) -> int
    decreases s.len() - i,
{
    if i < 0 || i >= s.len() || !is_digit(s[i]) {
        i
    } else {
        digits_end(s, i + 1)
    }
}

/// The numeric value of the digit run `s[i..j]`, most significant first.
pub open spec fn digits_val(s: Seq<u8>, i: int, j: int) -> int
    decreases j - i,
{
    if j <= i {
        0
    } else {
        digits_val(s, i, j - 1) * 10 + (s[j - 1] - 48)
    }
}

/// Strict bytewise lexicographic order, the order required of dictionary keys.
pub open spec fn lex_lt(a: Seq<u8>, b: Seq<u8>) -> bool
    decreases a.len(),
{
    if b.len() == 0 {
        false
    } else if a.len() == 0 {
        true
    } else if a[0] < b[0] {
        true
    } else if a[0] > b[0] {
        false
    } else {
        lex_lt(a.drop_first(), b.drop_first())
    }
}

/// Decoding of an integer body, with `i` standing just after the `i` marker.
/// Canonical only: no leading zeros, no `-0`; the value must fit an `i64`.
pub open spec fn spec_decode_int(s: Seq<u8>, i: int) -> Result<(int, int), BencodeError> {
    let neg = i < s.len() && s[i] == 45;
    let m = if neg { i + 1 } else { i };
    if m >= s.len() {
        Err(BencodeError::Truncated)
    } else if !is_digit(s[m]) {
        Err(BencodeError::BadDigit)
    } else if s[m] == 48 && digits_end(s, m) > m + 1 {
        Err(BencodeError::BadDigit)
    } else if neg && s[m] == 48 {
        Err(BencodeError::BadDigit)
    } else {
        let j = digits_end(s, m);
        let val = if neg { -digits_val(s, m, j) } else { digits_val(s, m, j) };
        if val < i64::MIN as int || val > i64::MAX as int {
            Err(BencodeError::LengthOverflow)
        } else if j >= s.len() {
            Err(BencodeError::Truncated)
        } else if s[j] != 101 {
            Err(BencodeError::BadDigit)
        } else {
            Ok((val, j + 1))
        }
    }
}

/// Decoding of a byte string starting at `i`, which must hold a digit:
/// decimal length (canonical, fitting `usize`), `:`, then that many bytes.
pub open spec fn spec_decode_bstr(s: Seq<u8>, i: int) -> Result<(Seq<u8>, int), BencodeError>
    recommends
        0 <= i < s.len() && is_digit(s[i]),
{
    let j = digits_end(s, i);
    let n = digits_val(s, i, j);
    if s[i] == 48 && j > i + 1 {
        Err(BencodeError::BadDigit)
    } else if n > usize::MAX as int {
        Err(BencodeError::LengthOverflow)
    } else if j >= s.len() {
        Err(BencodeError::Truncated)
    } else if s[j] != 58 {
        Err(BencodeError::BadDigit)
    } else if j + 1 + n > s.len() {
        Err(BencodeError::Truncated)
    } else {
        Ok((s.subrange(j + 1, j + 1 + n), j + 1 + n))
    }
}

/// Decoding of one value starting at `i`. On success the result carries the
/// position just after the value's last byte.
pub open spec fn spec_decode_value(s: Seq<u8>, i: int) -> Result<(SpecValue, int), BencodeError>
    decreases s.len() - i, 0int,
{
    if i < 0 || i >= s.len() {
        Err(BencodeError::Truncated)
    } else if s[i] == 105 {
        match spec_decode_int(s, i + 1) {
            Ok((v, j)) => Ok((SpecValue::Int(v), j)),
            Err(e) => Err(e),
        }
    } else if is_digit(s[i]) {
        match spec_decode_bstr(s, i) {
            Ok((b, j)) => Ok((SpecValue::Bytes(b), j)),
            Err(e) => Err(e),
        }
    } else if s[i] == 108 {
        match spec_decode_items(s, i + 1) {
            Ok((items, j)) => Ok((SpecValue::List(items), j)),
            Err(e) => Err(e),
        }
    } else if s[i] == 100 {
        match spec_decode_pairs(s, i + 1, Option::None) {
            Ok((pairs, j)) => Ok((SpecValue::Dict(pairs), j)),
            Err(e) => Err(e),
        }
    } else {
        Err(BencodeError::BadPrefix)
    }
}

/// Decoding of list items up to and including the closing `e`.
pub open spec fn spec_decode_items(s: Seq<u8>, i: int) -> Result<
    (Seq<SpecValue>, int),
    BencodeError,
>
    decreases s.len() - i, 1int,
{
    if i < 0 || i >= s.len() {
        Err(BencodeError::Truncated)
    } else if s[i] == 101 {
        Ok((Seq::empty(), i + 1))
    } else {
        match spec_decode_value(s, i) {
            Ok((v, j)) => if j <= i || j > s.len() {
                // dead branch: a decoded value always consumes at least one
                // byte and stays in bounds (lemma_spec_decode_consumes)
                Err(BencodeError::Truncated)
            } else {
                match spec_decode_items(s, j) {
                    Ok((rest, k)) => Ok((seq![v] + rest, k)),
                    Err(e) => Err(e),
                }
            },
            Err(e) => Err(e),
        }
    }
}

/// Decoding of dictionary pairs up to and including the closing `e`. Each key
/// must be a byte string strictly greater than `prev`, the key before it.
pub open spec fn spec_decode_pairs(s: Seq<u8>, i: int, prev: Option<Seq<u8>>) -> Result<
    (Seq<(Seq<u8>, SpecValue)>, int),
    BencodeError,
>
    decreases s.len() - i, 1int,
{
    if i < 0 || i >= s.len() {
        Err(BencodeError::Truncated)
    } else if s[i] == 101 {
        Ok((Seq::empty(), i + 1))
    } else if !is_digit(s[i]) {
        Err(BencodeError::NonStringKey)
    } else {
        match spec_decode_bstr(s, i) {
            Ok((key, j)) => if prev matches Some(p) && !lex_lt(p, key) {
                Err(BencodeError::UnsortedKey)
            } else if j < i || j > s.len() {
                // dead branch, as in spec_decode_items
                Err(BencodeError::Truncated)
            } else {
                match spec_decode_value(s, j) {
                    Ok((v, k)) => if k <= i || k > s.len() {
                        // dead branch, as in spec_decode_items
                        Err(BencodeError::Truncated)
                    } else {
                        match spec_decode_pairs(s, k, Some(key)) {
                            Ok((rest, m)) => Ok((seq![(key, v)] + rest, m)),
                            Err(e) => Err(e),
                        }
                    },
                    Err(e) => Err(e),
                }
            },
            Err(e) => Err(e),
        }
    }
}

pub proof fn lemma_digits_end(s: Seq<u8>, i: int)
    requires
        0 <= i <= s.len(),
    ensures
        i <= digits_end(s, i) <= s.len(),
        forall|k: int| i <= k < digits_end(s, i) ==> is_digit(s[k]),
        digits_end(s, i) < s.len() ==> !is_digit(s[digits_end(s, i)]),
    decreases s.len() - i,
{
    if i < s.len() && is_digit(s[i]) {
        lemma_digits_end(s, i + 1);
    }
}

pub proof fn lemma_digits_val_bounds(s: Seq<u8>, i: int, j: int)
    requires
        i <= j,
        forall|k: int| i <= k < j ==> is_digit(s[k]),
    ensures
        digits_val(s, i, j) >= 0,
        j > i && s[i] != 48 ==> digits_val(s, i, j) >= 1,
    decreases j - i,
{
    if j > i {
        lemma_digits_val_bounds(s, i, j - 1);
    }
}

/// A successfully decoded value consumes at least one byte and stays inside
/// the input.
pub proof fn lemma_spec_decode_value_consumes(s: Seq<u8>, i: int)
    ensures
        spec_decode_value(s, i) matches Ok((v, j)) ==> i < j <= s.len(),
    decreases s.len() - i, 0int,
{
    if 0 <= i < s.len() {
        if s[i] == 105 {
            let neg = i + 1 < s.len() && s[i + 1] == 45;
            let m = if neg { i + 2 } else { i + 1 };
            if m < s.len() {
                lemma_digits_end(s, m);
            }
        } else if is_digit(s[i]) {
            let j = digits_end(s, i);
            lemma_digits_end(s, i);
            lemma_digits_val_bounds(s, i, j);
        } else if s[i] == 108 {
            lemma_spec_decode_items_consumes(s, i + 1);
        } else if s[i] == 100 {
            lemma_spec_decode_pairs_consumes(s, i + 1, Option::None);
        }
    }
}

pub proof fn lemma_spec_decode_items_consumes(s: Seq<u8>, i: int)
    ensures
        spec_decode_items(s, i) matches Ok((items, j)) ==> i < j <= s.len(),
    decreases s.len() - i, 1int,
{
    if 0 <= i < s.len() && s[i] != 101 {
        lemma_spec_decode_value_consumes(s, i);
        match spec_decode_value(s, i) {
            Ok((v, j)) => {
                if i < j <= s.len() {
                    lemma_spec_decode_items_consumes(s, j);
                }
            },
            Err(_) => {},
        }
    }
}

pub proof fn lemma_spec_decode_pairs_consumes(s: Seq<u8>, i: int, prev: Option<Seq<u8>>)
    ensures
        spec_decode_pairs(s, i, prev) matches Ok((pairs, j)) ==> i < j <= s.len(),
    decreases s.len() - i, 1int,
{
    if 0 <= i < s.len() && s[i] != 101 && is_digit(s[i]) {
        match spec_decode_bstr(s, i) {
            Ok((key, j)) => {
                lemma_digits_end(s, i);
                lemma_digits_val_bounds(s, i, digits_end(s, i));
                if i < j <= s.len() {
                    lemma_spec_decode_value_consumes(s, j);
                    match spec_decode_value(s, j) {
                        Ok((v, k)) => {
                            if i < k <= s.len() {
                                lemma_spec_decode_pairs_consumes(s, k, Some(key));
                            }
                        },
                        Err(_) => {},
                    }
                }
            },
            Err(_) => {},
        }
    }
}

/// A canonical digit run renders back to itself: `spec_nat_digits` of its
/// value is the run.
pub proof fn lemma_nat_digits_roundtrip(s: Seq<u8>, i: int, j: int)
    requires
        0 <= i < j <= s.len(),
        forall|k: int| i <= k < j ==> is_digit(s[k]),
        s[i] != 48 || j == i + 1,
    ensures
        spec_nat_digits(digits_val(s, i, j)) == s.subrange(i, j),
    decreases j - i,
{
    let v = digits_val(s, i, j);
    if j == i + 1 {
        assert(digits_val(s, i, i) == 0);
        assert(v == s[i] - 48);
        assert(spec_nat_digits(v) =~= s.subrange(i, j));
    } else {
        let vp = digits_val(s, i, j - 1);
        let d = s[j - 1] - 48;
        lemma_nat_digits_roundtrip(s, i, j - 1);
        lemma_digits_val_bounds(s, i, j - 1);
        assert(vp >= 1);
        assert(v == vp * 10 + d);
        assert(v >= 10) by (nonlinear_arith)
            requires vp >= 1, d >= 0, v == vp * 10 + d;
        assert(v / 10 == vp && v % 10 == d) by (nonlinear_arith)
            requires v == vp * 10 + d, 0 <= d < 10;
        assert(spec_nat_digits(v) == spec_nat_digits(vp) + seq![(48 + d) as u8]);
        assert(spec_nat_digits(v) =~= s.subrange(i, j));
    }
}

/// A decoded byte string re-encodes to exactly the consumed bytes.
pub proof fn lemma_bstr_roundtrip(s: Seq<u8>, i: int)
    requires
        0 <= i < s.len(),
        is_digit(s[i]),
    ensures
        spec_decode_bstr(s, i) matches Ok((b, j)) ==> spec_encode_bytes(b) == s.subrange(i, j),
{
    lemma_digits_end(s, i);
    match spec_decode_bstr(s, i) {
        Ok((b, j)) => {
            let de = digits_end(s, i);
            let n = digits_val(s, i, de);
            lemma_digits_val_bounds(s, i, de);
            lemma_nat_digits_roundtrip(s, i, de);
            assert(b.len() == n);
            assert(spec_encode_bytes(b) =~= s.subrange(i, j));
        },
        Err(_) => {},
    }
}

/// A decoded integer re-encodes to exactly the consumed bytes (including the
/// `i` and `e` markers around it).
pub proof fn lemma_int_roundtrip(s: Seq<u8>, i: int)
    requires
        0 <= i <= s.len(),
    ensures
        spec_decode_int(s, i) matches Ok((v, j)) ==> i < j <= s.len() && spec_int_bytes(v)
            + seq![101u8] == s.subrange(i, j),
{
    match spec_decode_int(s, i) {
        Ok((v, j)) => {
            let neg = i < s.len() && s[i] == 45;
            let m = if neg { i + 1 } else { i };
            let de = digits_end(s, m);
            lemma_digits_end(s, m);
            lemma_digits_val_bounds(s, m, de);
            lemma_nat_digits_roundtrip(s, m, de);
            if neg {
                assert(digits_val(s, m, de) >= 1);
                assert(v == -digits_val(s, m, de));
                assert(spec_int_bytes(v) == seq![45u8] + spec_nat_digits(digits_val(s, m, de)));
                assert(spec_int_bytes(v) + seq![101u8] =~= s.subrange(i, j));
            } else {
                assert(spec_int_bytes(v) + seq![101u8] =~= s.subrange(i, j));
            }
        },
        Err(_) => {},
    }
}

/// Round trip after a successful decode: the canonical re-encoding of the
/// decoded value is exactly the byte range the decoder consumed.
pub proof fn lemma_encode_of_decoded_at(s: Seq<u8>, i: int)
    ensures
        spec_decode_value(s, i) matches Ok((v, j)) ==> spec_encode(v) == s.subrange(i, j),
    decreases s.len() - i, 0int,
{
    if 0 <= i < s.len() {
        if s[i] == 105 {
            lemma_int_roundtrip(s, i + 1);
            match spec_decode_int(s, i + 1) {
                Ok((v, j)) => {
                    assert(spec_int_bytes(v) + seq![101u8] == s.subrange(i + 1, j));
                    assert(spec_encode(SpecValue::Int(v)) =~= seq![105u8] + (spec_int_bytes(v)
                        + seq![101u8]));
                    assert(seq![105u8] + s.subrange(i + 1, j) =~= s.subrange(i, j));
                    assert(spec_encode(SpecValue::Int(v)) == s.subrange(i, j));
                },
                Err(_) => {},
            }
        } else if is_digit(s[i]) {
            lemma_bstr_roundtrip(s, i);
        } else if s[i] == 108 {
            lemma_items_roundtrip(s, i + 1);
            match spec_decode_items(s, i + 1) {
                Ok((items, j)) => {
                    assert(spec_encode(SpecValue::List(items)) =~= s.subrange(i, j));
                },
                Err(_) => {},
            }
        } else if s[i] == 100 {
            lemma_pairs_roundtrip(s, i + 1, Option::None);
            match spec_decode_pairs(s, i + 1, Option::None) {
                Ok((pairs, j)) => {
                    assert(spec_encode(SpecValue::Dict(pairs)) =~= s.subrange(i, j));
                },
                Err(_) => {},
            }
        }
    }
}

proof fn lemma_items_roundtrip(s: Seq<u8>, i: int)
    ensures
        spec_decode_items(s, i) matches Ok((items, j)) ==> i < j <= s.len() && s[j - 1] == 101
            && spec_encode_items(items) == s.subrange(i, j - 1),
    decreases s.len() - i, 1int,
{
    if 0 <= i < s.len() {
        if s[i] == 101 {
            assert(spec_encode_items(Seq::empty()) =~= s.subrange(i, i));
        } else {
            lemma_spec_decode_value_consumes(s, i);
            lemma_encode_of_decoded_at(s, i);
            match spec_decode_value(s, i) {
                Ok((v, jv)) => {
                    lemma_items_roundtrip(s, jv);
                    match spec_decode_items(s, jv) {
                        Ok((rest, k)) => {
                            let items = seq![v] + rest;
                            assert(items[0] == v);
                            assert(items.drop_first() =~= rest);
                            assert(spec_encode_items(items) == spec_encode(v)
                                + spec_encode_items(rest));
                            assert(spec_encode_items(items) =~= s.subrange(i, k - 1));
                        },
                        Err(_) => {},
                    }
                },
                Err(_) => {},
            }
        }
    }
}

proof fn lemma_pairs_roundtrip(s: Seq<u8>, i: int, prev: Option<Seq<u8>>)
    ensures
        spec_decode_pairs(s, i, prev) matches Ok((pairs, j)) ==> i < j <= s.len() && s[j - 1]
            == 101 && spec_encode_pairs(pairs) == s.subrange(i, j - 1),
    decreases s.len() - i, 1int,
{
    if 0 <= i < s.len() {
        if s[i] == 101 {
            assert(spec_encode_pairs(Seq::empty()) =~= s.subrange(i, i));
        } else if is_digit(s[i]) {
            lemma_digits_end(s, i);
            lemma_digits_val_bounds(s, i, digits_end(s, i));
            lemma_bstr_roundtrip(s, i);
            match spec_decode_bstr(s, i) {
                Ok((key, jk)) => {
                    lemma_spec_decode_value_consumes(s, jk);
                    lemma_encode_of_decoded_at(s, jk);
                    match spec_decode_value(s, jk) {
                        Ok((v, kv)) => {
                            lemma_pairs_roundtrip(s, kv, Some(key));
                            match spec_decode_pairs(s, kv, Some(key)) {
                                Ok((rest, m)) => {
                                    let pairs = seq![(key, v)] + rest;
                                    assert(pairs[0] == (key, v));
                                    assert(pairs.drop_first() =~= rest);
                                    assert(spec_encode_pairs(pairs) == spec_encode_bytes(key)
                                        + spec_encode(v) + spec_encode_pairs(rest));
                                    assert(spec_encode_pairs(pairs) =~= s.subrange(i, m - 1));
                                },
                                Err(_) => {},
                            }
                        },
                        Err(_) => {},
                    }
                },
                Err(_) => {},
            }
        }
    }
}

/// Round trip: for any byte string the decoder accepts, re-encoding the
/// decoded value reproduces the consumed prefix byte-for-byte; when the whole
/// input was consumed, it reproduces the input itself.
pub proof fn lemma_encode_of_decoded(s: Seq<u8>, v: SpecValue, n: int)
    requires
        spec_decode_value(s, 0) == Ok::<(SpecValue, int), BencodeError>((v, n)),
    ensures
        spec_encode(v) == s.subrange(0, n),
        n == s.len() ==> spec_encode(v) == s,
{
    lemma_encode_of_decoded_at(s, 0);
    lemma_spec_decode_value_consumes(s, 0);
    if n == s.len() {
        assert(s.subrange(0, n) =~= s);
    }
}

/// Hash preservation: when a byte string decodes in full, the SHA-1 of the
/// canonical re-encoding of the decoded value equals the SHA-1 of the
/// original bytes. This is what keeps a re-derived info hash identical to the
/// one computed over the original sub-document.
pub proof fn lemma_hash_preserving_roundtrip(s: Seq<u8>, v: SpecValue)
    requires
        spec_decode_value(s, 0) == Ok::<(SpecValue, int), BencodeError>((v, s.len() as int)),
    ensures
        crate::hashing::sha1_of(spec_encode(v)) == crate::hashing::sha1_of(s),
{
    lemma_encode_of_decoded(s, v, s.len() as int);
}

fn byte_is_digit(c: u8) -> (r: bool)
    ensures
        r == is_digit(c),
{
    48 <= c && c <= 57
}

/// Scans the digit run starting at `i`, returning its end, whether its value
/// exceeds `u64::MAX`, and (if not) the value.
fn scan_digits(s: &[u8], i: usize) -> (r: (usize, bool, u64))
    requires
        i <= s@.len(),
    ensures
        ({
            let (j, overflow, val) = r;
            &&& j as int == digits_end(s@, i as int)
            &&& i <= j <= s@.len()
            &&& (!overflow ==> val as int == digits_val(s@, i as int, j as int))
            &&& (overflow ==> digits_val(s@, i as int, j as int) > u64::MAX as int)
        }),
{
    let mut j: usize = i;
    let mut val: u64 = 0;
    let mut overflow: bool = false;
    while j < s.len() && s[j] >= 48 && s[j] <= 57
        invariant
            i <= j <= s@.len(),
            digits_end(s@, i as int) == digits_end(s@, j as int),
            forall|k: int| i <= k < j ==> is_digit(s@[k]),
            !overflow ==> val as int == digits_val(s@, i as int, j as int),
            overflow ==> digits_val(s@, i as int, j as int) > u64::MAX as int,
        decreases s@.len() - j,
    {
        let d: u8 = s[j] - 48;
        proof {
            assert(digits_val(s@, i as int, j + 1) == digits_val(s@, i as int, j as int) * 10 + d);
        }
        if overflow {
            proof {
                let dv = digits_val(s@, i as int, j as int);
                assert(dv * 10 + d > u64::MAX as int) by (nonlinear_arith)
                    requires dv > u64::MAX as int, d >= 0;
            }
        } else if val > (u64::MAX - (d as u64)) / 10 {
            overflow = true;
            proof {
                let m = u64::MAX as int;
                assert(val * 10 + d > m) by (nonlinear_arith)
                    requires val > (m - d) / 10, 0 <= d < 10, val >= 0, m == u64::MAX as int;
            }
        } else {
            proof {
                let m = u64::MAX as int;
                assert(val * 10 + d <= m) by (nonlinear_arith)
                    requires val <= (m - d) / 10, 0 <= d < 10, val >= 0;
            }
            val = val * 10 + (d as u64);
        }
        j = j + 1;
    }
    proof {
        assert(digits_end(s@, j as int) == j as int);
    }
    (j, overflow, val)
}

/// Decodes an integer body, with `i` standing just after the `i` marker.
fn decode_int(s: &[u8], i: usize) -> (r: Result<(i64, usize), BencodeError>)
    requires
        i <= s@.len(),
    ensures
        match r {
            Ok((v, j)) => spec_decode_int(s@, i as int) == Ok::<(int, int), BencodeError>(
                (v as int, j as int),
            ) && i < j <= s@.len(),
            Err(e) => spec_decode_int(s@, i as int) == Err::<(int, int), BencodeError>(e),
        },
{
    let neg = i < s.len() && s[i] == 45;
    let m: usize = if neg { i + 1 } else { i };
    if m >= s.len() {
        return Err(BencodeError::Truncated);
    }
    if !byte_is_digit(s[m]) {
        return Err(BencodeError::BadDigit);
    }
    let (j, overflow, val) = scan_digits(s, m);
    proof {
        lemma_digits_end(s@, m as int);
        lemma_digits_val_bounds(s@, m as int, j as int);
    }
    if s[m] == 48 && j > m + 1 {
        return Err(BencodeError::BadDigit);
    }
    if neg && s[m] == 48 {
        return Err(BencodeError::BadDigit);
    }
    if overflow {
        return Err(BencodeError::LengthOverflow);
    }
    if neg {
        if val > 9223372036854775808u64 {
            return Err(BencodeError::LengthOverflow);
        }
    } else {
        if val > 9223372036854775807u64 {
            return Err(BencodeError::LengthOverflow);
        }
    }
    if j >= s.len() {
        return Err(BencodeError::Truncated);
    }
    if s[j] != 101 {
        return Err(BencodeError::BadDigit);
    }
    let v: i64 = if neg {
        if val == 9223372036854775808u64 {
            i64::MIN
        } else {
            -(val as i64)
        }
    } else {
        val as i64
    };
    Ok((v, j + 1))
}

/// Decodes a byte string starting at `i`, which must hold a digit.
fn decode_bstr(s: &[u8], i: usize) -> (r: Result<(Vec<u8>, usize), BencodeError>)
    requires
        i < s@.len(),
        is_digit(s@[i as int]),
    ensures
        match r {
            Ok((b, j)) => spec_decode_bstr(s@, i as int) == Ok::<(Seq<u8>, int), BencodeError>(
                (b@, j as int),
            ) && i < j <= s@.len(),
            Err(e) => spec_decode_bstr(s@, i as int) == Err::<(Seq<u8>, int), BencodeError>(e),
        },
{
    let (j, overflow, val) = scan_digits(s, i);
    proof {
        lemma_digits_end(s@, i as int);
        lemma_digits_val_bounds(s@, i as int, j as int);
    }
    if s[i] == 48 && j > i + 1 {
        return Err(BencodeError::BadDigit);
    }
    if overflow || val > usize::MAX as u64 {
        return Err(BencodeError::LengthOverflow);
    }
    if j >= s.len() {
        return Err(BencodeError::Truncated);
    }
    if s[j] != 58 {
        return Err(BencodeError::BadDigit);
    }
    let n: usize = val as usize;
    if n > s.len() - (j + 1) {
        return Err(BencodeError::Truncated);
    }
    let mut b: Vec<u8> = Vec::new();
    let start: usize = j + 1;
    for k in 0..n
        invariant
            start + n <= s@.len(),
            start + n <= usize::MAX,
            b@ == s@.subrange(start as int, start + k),
    {
        b.push(s[start + k]);
        assert(b@ =~= s@.subrange(start as int, start + k + 1));
    }
    Ok((b, start + n))
}

/// Whether two byte vectors hold the same bytes.
pub fn bytes_eq(a: &Vec<u8>, b: &Vec<u8>) -> (r: bool)
    ensures
        r == (a@ == b@),
{
    if a.len() != b.len() {
        return false;
    }
    let n = a.len();
    for k in 0..n
        invariant
            n == a@.len(),
            n == b@.len(),
            forall|m: int| 0 <= m < k ==> a@[m] == b@[m],
    {
        if a[k] != b[k] {
            return false;
        }
    }
    proof {
        assert(a@ =~= b@);
    }
    true
}

/// Compares two byte strings in the strict lexicographic order of `lex_lt`.
pub fn bytes_lt(a: &Vec<u8>, b: &Vec<u8>) -> (r: bool)
    ensures
        r == lex_lt(a@, b@),
{
    let mut k: usize = 0;
    proof {
        assert(a@.skip(0) =~= a@);
        assert(b@.skip(0) =~= b@);
    }
    loop
        invariant
            k <= a@.len(),
            k <= b@.len(),
            lex_lt(a@, b@) == lex_lt(a@.skip(k as int), b@.skip(k as int)),
        decreases a@.len() - k,
    {
        if k >= b.len() {
            return false;
        }
        if k >= a.len() {
            return true;
        }
        let x = a[k];
        let y = b[k];
        proof {
            let sa = a@.skip(k as int);
            let sb = b@.skip(k as int);
            assert(sa[0] == a@[k as int] && sb[0] == b@[k as int]);
            assert(sa.drop_first() =~= a@.skip(k + 1));
            assert(sb.drop_first() =~= b@.skip(k + 1));
        }
        if x < y {
            return true;
        }
        if x > y {
            return false;
        }
        k = k + 1;
    }
}

/// Decodes one value starting at `i`.
fn decode_value(s: &[u8], i: usize) -> (r: Result<(Value, usize), BencodeError>)
    requires
        i <= s@.len(),
    ensures
        match r {
            Ok((v, j)) => spec_decode_value(s@, i as int) == Ok::<(SpecValue, int), BencodeError>(
                (v@, j as int),
            ) && i < j <= s@.len(),
            Err(e) => spec_decode_value(s@, i as int) == Err::<(SpecValue, int), BencodeError>(e),
        },
    decreases s@.len() - i, 0int,
{
    if i >= s.len() {
        return Err(BencodeError::Truncated);
    }
    let c = s[i];
    if c == 105 {
        match decode_int(s, i + 1) {
            Ok((v, j)) => Ok((Value::Int(v), j)),
            Err(e) => Err(e),
        }
    } else if byte_is_digit(c) {
        match decode_bstr(s, i) {
            Ok((b, j)) => Ok((Value::Bytes(b), j)),
            Err(e) => Err(e),
        }
    } else if c == 108 {
        match decode_items(s, i + 1) {
            Ok((items, j)) => Ok((Value::List(items), j)),
            Err(e) => Err(e),
        }
    } else if c == 100 {
        match decode_pairs(s, i + 1, Option::None) {
            Ok((pairs, j)) => Ok((Value::Dict(pairs), j)),
            Err(e) => Err(e),
        }
    } else {
        Err(BencodeError::BadPrefix)
    }
}

/// Decodes list items up to and including the closing `e`.
fn decode_items(s: &[u8], i: usize) -> (r: Result<(Vec<Value>, usize), BencodeError>)
    requires
        i <= s@.len(),
    ensures
        match r {
            Ok((items, j)) => spec_decode_items(s@, i as int) == Ok::<
                (Seq<SpecValue>, int),
                BencodeError,
            >((view_of_list(items@), j as int)) && i < j <= s@.len(),
            Err(e) => spec_decode_items(s@, i as int) == Err::<(Seq<SpecValue>, int), BencodeError>(
                e,
            ),
        },
    decreases s@.len() - i, 1int,
{
    if i >= s.len() {
        return Err(BencodeError::Truncated);
    }
    if s[i] == 101 {
        let items: Vec<Value> = Vec::new();
        return Ok((items, i + 1));
    }
    match decode_value(s, i) {
        Err(e) => Err(e),
        Ok((v, j)) => {
            match decode_items(s, j) {
                Err(e) => Err(e),
                Ok((mut rest, k)) => {
                    let ghost vv = v@;
                    let ghost old_rest = rest@;
                    rest.insert(0, v);
                    proof {
                        assert(rest@ =~= seq![rest@[0]] + old_rest);
                        assert(rest@.drop_first() =~= old_rest);
                        assert(view_of_list(rest@) =~= seq![vv] + view_of_list(old_rest));
                    }
                    Ok((rest, k))
                },
            }
        },
    }
}

/// Decodes dictionary pairs up to and including the closing `e`.
fn decode_pairs(s: &[u8], i: usize, prev: Option<&Vec<u8>>) -> (r: Result<
    (Vec<(Vec<u8>, Value)>, usize),
    BencodeError,
>)
    requires
        i <= s@.len(),
    ensures
        ({
            let sprev = match prev {
                Some(p) => Some(p@),
                None => None,
            };
            match r {
                Ok((pairs, j)) => spec_decode_pairs(s@, i as int, sprev) == Ok::<
                    (Seq<(Seq<u8>, SpecValue)>, int),
                    BencodeError,
                >((view_of_dict(pairs@), j as int)) && i < j <= s@.len(),
                Err(e) => spec_decode_pairs(s@, i as int, sprev) == Err::<
                    (Seq<(Seq<u8>, SpecValue)>, int),
                    BencodeError,
                >(e),
            }
        }),
    decreases s@.len() - i, 1int,
{
    if i >= s.len() {
        return Err(BencodeError::Truncated);
    }
    if s[i] == 101 {
        let pairs: Vec<(Vec<u8>, Value)> = Vec::new();
        return Ok((pairs, i + 1));
    }
    if !byte_is_digit(s[i]) {
        return Err(BencodeError::NonStringKey);
    }
    match decode_bstr(s, i) {
        Err(e) => Err(e),
        Ok((key, j)) => {
            match prev {
                Some(p) => {
                    if !bytes_lt(p, &key) {
                        return Err(BencodeError::UnsortedKey);
                    }
                },
                None => {},
            }
            match decode_value(s, j) {
                Err(e) => Err(e),
                Ok((v, k)) => {
                    match decode_pairs(s, k, Some(&key)) {
                        Err(e) => Err(e),
                        Ok((mut rest, m)) => {
                            let ghost kk = key@;
                            let ghost vv = v@;
                            let ghost old_rest = rest@;
                            rest.insert(0, (key, v));
                            proof {
                                assert(rest@ =~= seq![rest@[0]] + old_rest);
                                assert(rest@.drop_first() =~= old_rest);
                                assert(view_of_dict(rest@) =~= seq![(kk, vv)] + view_of_dict(
                                    old_rest,
                                ));
                            }
                            Ok((rest, m))
                        },
                    }
                },
            }
        },
    }
}

/// Decodes one bencoded value from the front of `s`, returning it together
/// with the number of bytes consumed. Accepts exactly the canonical
/// encodings; each error names the first offence found left to right.
pub fn decode(s: &[u8]) -> (r: Result<(Value, usize), BencodeError>)
    ensures
        match r {
            Ok((v, n)) => spec_decode_value(s@, 0) == Ok::<(SpecValue, int), BencodeError>(
                (v@, n as int),
            ) && 0 < n <= s@.len(),
            Err(e) => spec_decode_value(s@, 0) == Err::<(SpecValue, int), BencodeError>(e),
        },
{
    decode_value(s, 0)
}

} // verus!
