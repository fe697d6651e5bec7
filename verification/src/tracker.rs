//! The tracker side: the query string of the announce request, and the
//! parsing of the bencoded tracker response with its compact peer list
//! (six bytes per peer: four address octets, two port octets, big-endian).

use vstd::prelude::*;
use vstd::arithmetic::div_mod::lemma_fundamental_div_mod;
use vstd::string::StringExecFns;

use crate::bencode::SpecValue;
use crate::bencode::Value;
use crate::bencode::decode;
use crate::bencode::encode_nat;
use crate::bencode::spec_decode_value;
use crate::bencode::spec_nat_digits;
use crate::hashing::push_char;
use crate::hashing::spec_urlencode;
use crate::hashing::urlencode_hash;
use crate::metainfo::spec_dict_get;

verus! {

/// Why a tracker exchange failed.
#[derive(Debug, Clone, Copy, PartialEq, Eq, Structural)]
pub enum TrackerError {
    /// The announce request itself failed (non-2xx or no response). Raised
    /// by the caller doing the transfer, never by the parser.
    HttpFailure,
    /// The response body is not a bencoded dictionary with a non-negative
    /// `interval` integer and a `peers` byte string of whole 6-byte entries.
    BadBody,
    /// The peer list is empty.
    NoPeers,
}

/// A parsed announce response.
#[derive(Debug, PartialEq, Eq)]
pub struct TrackerResponse {
    /// Seconds the tracker asks the client to wait between announces.
    pub interval: u64,
    /// The compact peer list, six bytes per peer.
    pub peers: Vec<u8>,
}

pub struct SpecTrackerResponse {
    pub interval: u64,
    pub peers: Seq<u8>,
}

impl View for TrackerResponse {
    type V = SpecTrackerResponse;

    open spec fn view(&self) -> SpecTrackerResponse {
        SpecTrackerResponse { interval: self.interval, peers: self.peers@ }
    }
}

/// The bytes of the key "interval".
pub open spec fn spec_key_interval() -> Seq<u8> {
    seq![105u8, 110, 116, 101, 114, 118, 97, 108]
}

/// The bytes of the key "peers".
pub open spec fn spec_key_peers() -> Seq<u8> {
    seq![112u8, 101, 101, 114, 115]
}

/// The typed reading of a tracker response body: canonical bencode, fully
/// consumed, a dictionary with a non-negative `interval` and a `peers` byte
/// string holding a whole, non-empty list of 6-byte entries.
pub open spec fn spec_tracker_from_bytes(s: Seq<u8>) -> Result<SpecTrackerResponse, TrackerError> {
    match spec_decode_value(s, 0) {
        Err(_) => Err(TrackerError::BadBody),
        Ok((v, n)) => if n != s.len() {
            Err(TrackerError::BadBody)
        } else {
            match v {
                SpecValue::Dict(pairs) => match spec_dict_get(pairs, spec_key_interval()) {
                    Option::Some(iv) => match iv {
                        SpecValue::Int(i) => if i < 0 {
                            Err(TrackerError::BadBody)
                        } else {
                            match spec_dict_get(pairs, spec_key_peers()) {
                                Option::Some(pv) => match pv {
                                    SpecValue::Bytes(peers) => if peers.len() % 6 != 0 {
                                        Err(TrackerError::BadBody)
                                    } else if peers.len() == 0 {
                                        Err(TrackerError::NoPeers)
                                    } else {
                                        Ok(SpecTrackerResponse { interval: i as u64, peers })
                                    },
                                    _ => Err(TrackerError::BadBody),
                                },
                                Option::None => Err(TrackerError::BadBody),
                            }
                        },
                        _ => Err(TrackerError::BadBody),
                    },
                    Option::None => Err(TrackerError::BadBody),
                },
                _ => Err(TrackerError::BadBody),
            }
        },
    }
}

fn key_interval() -> (k: Vec<u8>)
    ensures
        k@ == spec_key_interval(),
{
    let mut v: Vec<u8> = Vec::new();
    v.push(105);
    v.push(110);
    v.push(116);
    v.push(101);
    v.push(114);
    v.push(118);
    v.push(97);
    v.push(108);
    assert(v@ =~= spec_key_interval());
    v
}

fn key_peers() -> (k: Vec<u8>)
    ensures
        k@ == spec_key_peers(),
{
    let mut v: Vec<u8> = Vec::new();
    v.push(112);
    v.push(101);
    v.push(101);
    v.push(114);
    v.push(115);
    assert(v@ =~= spec_key_peers());
    v
}

impl TrackerResponse {
    /// Parses an announce response body. Accepts exactly the bodies of
    /// `spec_tracker_from_bytes`; every malformation is `BadBody`, an empty
    /// peer list `NoPeers`.
    pub fn from_bytes(s: &[u8]) -> (r: Result<TrackerResponse, TrackerError>)
        ensures
            match r {
                Ok(t) => spec_tracker_from_bytes(s@) == Ok::<SpecTrackerResponse, TrackerError>(
                    t@,
                ),
                Err(e) => spec_tracker_from_bytes(s@) == Err::<SpecTrackerResponse, TrackerError>(
                    e,
                ),
            },
    {
        let (v, n) = match decode(s) {
            Ok(p) => p,
            Err(_) => {
                return Err(TrackerError::BadBody);
            },
        };
        if n != s.len() {
            return Err(TrackerError::BadBody);
        }
        let pairs = match v {
            Value::Dict(pairs) => pairs,
            _ => {
                return Err(TrackerError::BadBody);
            },
        };
        let interval: u64 = match crate::metainfo::dict_get(&pairs, &key_interval()) {
            Option::Some(iv) => match iv {
                Value::Int(i) => {
                    if *i < 0 {
                        return Err(TrackerError::BadBody);
                    }
                    *i as u64
                },
                _ => {
                    return Err(TrackerError::BadBody);
                },
            },
            Option::None => {
                return Err(TrackerError::BadBody);
            },
        };
        let peers = match crate::metainfo::dict_get(&pairs, &key_peers()) {
            Option::Some(pv) => match pv {
                Value::Bytes(b) => crate::hashing::copy_bytes(b),
                _ => {
                    return Err(TrackerError::BadBody);
                },
            },
            Option::None => {
                return Err(TrackerError::BadBody);
            },
        };
        if peers.len() % 6 != 0 {
            return Err(TrackerError::BadBody);
        }
        if peers.len() == 0 {
            return Err(TrackerError::NoPeers);
        }
        Ok(TrackerResponse { interval, peers })
    }

    /// Each peer of the compact list as `a.b.c.d:port`.
    pub fn get_peers(&self) -> (r: Vec<String>)
        ensures
            r@.len() == self.peers@.len() as int / 6,
            forall|i: int|
                0 <= i < r@.len() ==> (#[trigger] r@[i])@ == spec_peer_str(
                    self.peers@.subrange(6 * i, 6 * i + 6),
                ),
    {
        let n = self.peers.len();
        let count = n / 6;
        proof {
            lemma_fundamental_div_mod(n as int, 6);
            vstd::arithmetic::div_mod::lemma_mod_division_less_than_divisor(n as int, 6);
        }
        let mut r: Vec<String> = Vec::new();
        for i in 0..count
            invariant
                n == self.peers@.len(),
                count == n as int / 6,
                6 * (count as int) <= n,
                r@.len() == i,
                forall|j: int|
                    0 <= j < i ==> (#[trigger] r@[j])@ == spec_peer_str(
                        self.peers@.subrange(6 * j, 6 * j + 6),
                    ),
        {
            proof {
                assert(6 * (i as int) + 6 <= 6 * (count as int)) by (nonlinear_arith)
                    requires i as int + 1 <= count as int;
            }
            let base = i * 6;
            let mut s = String::new();
            let part = u64_to_string(self.peers[base] as u64);
            s.append(part.as_str());
            push_char(&mut s, '.');
            let part = u64_to_string(self.peers[base + 1] as u64);
            s.append(part.as_str());
            push_char(&mut s, '.');
            let part = u64_to_string(self.peers[base + 2] as u64);
            s.append(part.as_str());
            push_char(&mut s, '.');
            let part = u64_to_string(self.peers[base + 3] as u64);
            s.append(part.as_str());
            push_char(&mut s, ':');
            let port: u16 = (self.peers[base + 4] as u16) * 256 + (self.peers[base + 5] as u16);
            let part = u64_to_string(port as u64);
            s.append(part.as_str());
            proof {
                let chunk = self.peers@.subrange(6 * (i as int), 6 * (i as int) + 6);
                assert(chunk[0] == self.peers@[6 * (i as int)]);
                assert(chunk[1] == self.peers@[6 * (i as int) + 1]);
                assert(chunk[2] == self.peers@[6 * (i as int) + 2]);
                assert(chunk[3] == self.peers@[6 * (i as int) + 3]);
                assert(chunk[4] == self.peers@[6 * (i as int) + 4]);
                assert(chunk[5] == self.peers@[6 * (i as int) + 5]);
                assert(s@ =~= spec_peer_str(chunk));
            }
            r.push(s);
        }
        r
    }
}

/// The decimal digits of `n` as characters.
pub open spec fn spec_dec_chars(n: int) -> Seq<char> {
    Seq::new(spec_nat_digits(n).len(), |i: int| spec_nat_digits(n)[i] as char)
}

/// One peer of the compact list, printed `a.b.c.d:port`.
pub open spec fn spec_peer_str(chunk: Seq<u8>) -> Seq<char>
    recommends
        chunk.len() == 6,
{
    spec_dec_chars(chunk[0] as int) + seq!['.'] + spec_dec_chars(chunk[1] as int) + seq!['.']
        + spec_dec_chars(chunk[2] as int) + seq!['.'] + spec_dec_chars(chunk[3] as int)
        + seq![':'] + spec_dec_chars(chunk[4] as int * 256 + chunk[5] as int)
}

/// The decimal rendering of `n`, no leading zeros.
pub fn u64_to_string(n: u64) -> (s: String)
    ensures
        s@ == spec_dec_chars(n as int),
{
    let mut digits: Vec<u8> = Vec::new();
    encode_nat(n, &mut digits);
    let mut s = String::new();
    let len = digits.len();
    for i in 0..len
        invariant
            len == digits@.len(),
            digits@ == spec_nat_digits(n as int),
            s@.len() == i,
            forall|j: int| 0 <= j < i ==> s@[j] == (digits@[j] as char),
    {
        push_char(&mut s, digits[i] as char);
    }
    proof {
        assert(s@ =~= spec_dec_chars(n as int));
    }
    s
}

/// The fixed peer id this client announces: twenty ASCII digits.
pub open spec fn spec_peer_id_chars() -> Seq<char> {
    seq![
        '0', '0', '1', '1', '2', '2', '3', '3', '4', '4', '5', '5', '6', '6', '7', '7', '8', '8',
        '9', '9',
    ]
}

/// The same peer id as bytes, for the handshake.
pub open spec fn spec_peer_id_bytes() -> Seq<u8> {
    seq![48u8, 48, 49, 49, 50, 50, 51, 51, 52, 52, 53, 53, 54, 54, 55, 55, 56, 56, 57, 57]
}

/// The 20 peer id bytes sent in the handshake.
pub fn peer_id_bytes() -> (r: Vec<u8>)
    ensures
        r@ == spec_peer_id_bytes(),
        r@.len() == 20,
{
    let mut v: Vec<u8> = Vec::new();
    let mut d: u8 = 0;
    while d < 10
        invariant
            d <= 10,
            v@.len() == 2 * d,
            forall|j: int| 0 <= j < v@.len() ==> v@[j] == 48 + (j / 2),
        decreases 10 - d,
    {
        v.push(48 + d);
        v.push(48 + d);
        d = d + 1;
    }
    proof {
        assert(v@ =~= spec_peer_id_bytes());
    }
    v
}

/// The query string of the announce request: the percent-encoded info hash,
/// this client's peer id, its port, zero progress counters, the bytes still
/// wanted, and the demand for a compact peer list.
pub open spec fn spec_tracker_query(info_hash: Seq<u8>, left: u32) -> Seq<char> {
    seq!['?', 'i', 'n', 'f', 'o', '_', 'h', 'a', 's', 'h', '='] + spec_urlencode(info_hash) + seq![
        '&',
        'p',
        'e',
        'e',
        'r',
        '_',
        'i',
        'd',
        '=',
    ] + spec_peer_id_chars() + seq!['&', 'p', 'o', 'r', 't', '=', '6', '8', '8', '1'] + seq![
        '&',
        'u',
        'p',
        'l',
        'o',
        'a',
        'd',
        'e',
        'd',
        '=',
        '0',
    ] + seq!['&', 'd', 'o', 'w', 'n', 'l', 'o', 'a', 'd', 'e', 'd', '=', '0'] + seq![
        '&',
        'l',
        'e',
        'f',
        't',
        '=',
    ] + spec_dec_chars(left as int) + seq!['&', 'c', 'o', 'm', 'p', 'a', 'c', 't', '=', '1']
}

/// Builds the query string appended to the announce URL.
pub fn tracker_query(info_hash: &[u8; 20], left: u32) -> (s: String)
    ensures
        s@ == spec_tracker_query(info_hash@, left),
{
    let mut s = String::new();
    s.append("?info_hash=");
    let encoded = urlencode_hash(info_hash);
    s.append(encoded.as_str());
    s.append("&peer_id=00112233445566778899");
    s.append("&port=6881");
    s.append("&uploaded=0");
    s.append("&downloaded=0");
    s.append("&left=");
    let left_str = u64_to_string(left as u64);
    s.append(left_str.as_str());
    s.append("&compact=1");
    proof {
        reveal_strlit("?info_hash=");
        reveal_strlit("&peer_id=00112233445566778899");
        reveal_strlit("&port=6881");
        reveal_strlit("&uploaded=0");
        reveal_strlit("&downloaded=0");
        reveal_strlit("&left=");
        reveal_strlit("&compact=1");
        assert(s@ =~= spec_tracker_query(info_hash@, left));
    }
    s
}

} // verus!
