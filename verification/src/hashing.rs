//! SHA-1 digests and the small text encodings built on top of them:
//! lowercase hex strings and the percent-encoding used for tracker queries.

use vstd::prelude::*;

verus! {

/// The SHA-1 digest of a byte sequence. The digest is a pure function of the
/// input bytes; its definition is the SHA-1 algorithm itself, which this
/// library does not restate. The trusted wrapper `calculate_hash` below is the
/// only place that produces values of this function.
pub uninterp spec fn sha1_of(bytes: Seq<u8>) -> Seq<u8>;

/// Relies on sha1::Sha1 (RustCrypto): returns the 20-byte SHA-1 digest of the
/// input, a function of the input bytes alone.
#[verifier::external_body]
pub(crate) fn calculate_hash(bytes: &[u8]) -> (r: [u8; 20])
    ensures
        r@ == sha1_of(bytes@),
{
    <sha1::Sha1 as sha1::Digest>::digest(bytes).into()
}

/// Relies on String::push: appends exactly one character.
#[verifier::external_body]
pub(crate) fn push_char(s: &mut String, c: char)
    ensures
        final(s)@ == old(s)@ + seq![c],
{
    s.push(c);
}

/// The lowercase hex digit for a value below 16.
pub open spec fn spec_hex_char(n: int) -> char {
    if n < 10 {
        ((48 + n) as u8) as char
    } else {
        ((87 + n) as u8) as char
    }
}

/// The uppercase hex digit for a value below 16.
pub open spec fn spec_hex_upper_char(n: int) -> char {
    if n < 10 {
        ((48 + n) as u8) as char
    } else {
        ((55 + n) as u8) as char
    }
}

/// The lowercase hex rendering of a byte sequence, two digits per byte.
pub open spec fn spec_to_hex(bytes: Seq<u8>) -> Seq<char>
    decreases bytes.len(),
{
    if bytes.len() == 0 {
        Seq::empty()
    } else {
        seq![
            spec_hex_char(bytes[0] as int / 16),
            spec_hex_char(bytes[0] as int % 16),
        ] + spec_to_hex(bytes.drop_first())
    }
}

/// A byte a tracker URL accepts unescaped: `[0-9A-Za-z._~-]`.
pub open spec fn is_unreserved(b: u8) -> bool {
    (48 <= b && b <= 57) || (65 <= b && b <= 90) || (97 <= b && b <= 122) || b == 45 || b == 46
        || b == 95 || b == 126
}

/// One byte of the percent-encoding: unreserved bytes pass through, all
/// others become `%XX` with uppercase hex.
pub open spec fn spec_urlencode_byte(b: u8) -> Seq<char> {
    if is_unreserved(b) {
        seq![b as char]
    } else {
        seq!['%', spec_hex_upper_char(b as int / 16), spec_hex_upper_char(b as int % 16)]
    }
}

/// The percent-encoding of a byte sequence, byte by byte.
pub open spec fn spec_urlencode(bytes: Seq<u8>) -> Seq<char>
    decreases bytes.len(),
{
    if bytes.len() == 0 {
        Seq::empty()
    } else {
        spec_urlencode_byte(bytes[0]) + spec_urlencode(bytes.drop_first())
    }
}

/// A fresh vector holding the same bytes.
pub fn copy_bytes(src: &Vec<u8>) -> (r: Vec<u8>)
    ensures
        r@ == src@,
{
    let mut r: Vec<u8> = Vec::new();
    let n = src.len();
    for k in 0..n
        invariant
            n == src@.len(),
            r@ == src@.subrange(0, k as int),
    {
        r.push(src[k]);
        assert(r@ =~= src@.subrange(0, k + 1));
    }
    proof {
        assert(src@.subrange(0, n as int) =~= src@);
    }
    r
}

fn hex_char(d: u8) -> (c: char)
    requires
        d < 16,
    ensures
        c == spec_hex_char(d as int),
{
    if d < 10 {
        (48 + d) as char
    } else {
        (87 + d) as char
    }
}

fn hex_upper_char(d: u8) -> (c: char)
    requires
        d < 16,
    ensures
        c == spec_hex_upper_char(d as int),
{
    if d < 10 {
        (48 + d) as char
    } else {
        (55 + d) as char
    }
}

/// The lowercase hex string of `bytes`, two digits per byte.
pub fn to_hex_string(bytes: &[u8]) -> (s: String)
    ensures
        s@ == spec_to_hex(bytes@),
{
    let mut s = String::new();
    let n = bytes.len();
    proof {
        assert(bytes@.skip(0) =~= bytes@);
    }
    for i in 0..n
        invariant
            n == bytes@.len(),
            spec_to_hex(bytes@) == s@ + spec_to_hex(bytes@.skip(i as int)),
    {
        let b = bytes[i];
        push_char(&mut s, hex_char(b / 16));
        push_char(&mut s, hex_char(b % 16));
        proof {
            assert(bytes@.skip(i as int).drop_first() =~= bytes@.skip(i + 1));
            assert(bytes@.skip(i as int)[0] == bytes@[i as int]);
            assert(spec_to_hex(bytes@) == s@ + spec_to_hex(bytes@.skip(i + 1)));
        }
    }
    proof {
        assert(bytes@.skip(n as int) =~= Seq::<u8>::empty());
        assert(s@ =~= spec_to_hex(bytes@));
    }
    s
}

/// Percent-encodes a 20-byte info hash for use in a tracker query: bytes in
/// `[0-9A-Za-z._~-]` pass literally, every other byte becomes `%XX` with
/// uppercase hex.
pub fn urlencode_hash(i: &[u8; 20]) -> (s: String)
    ensures
        s@ == spec_urlencode(i@),
{
    let mut s = String::new();
    proof {
        assert(i@.skip(0) =~= i@);
    }
    for k in 0..20usize
        invariant
            i@.len() == 20,
            spec_urlencode(i@) == s@ + spec_urlencode(i@.skip(k as int)),
    {
        let b = i[k];
        let unreserved = (48 <= b && b <= 57) || (65 <= b && b <= 90) || (97 <= b && b <= 122)
            || b == 45 || b == 46 || b == 95 || b == 126;
        if unreserved {
            push_char(&mut s, b as char);
        } else {
            push_char(&mut s, '%');
            push_char(&mut s, hex_upper_char(b / 16));
            push_char(&mut s, hex_upper_char(b % 16));
        }
        proof {
            assert(i@.skip(k as int).drop_first() =~= i@.skip(k + 1));
            assert(i@.skip(k as int)[0] == i@[k as int]);
            assert(spec_urlencode(i@) == s@ + spec_urlencode(i@.skip(k + 1)));
        }
    }
    proof {
        assert(i@.skip(20) =~= Seq::<u8>::empty());
        assert(s@ =~= spec_urlencode(i@));
    }
    s
}

} // verus!
