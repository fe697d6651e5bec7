//! The typed view over a torrent file: the `announce` URL and the `info`
//! sub-dictionary, with the info hash derived by re-encoding `info`
//! canonically and hashing the bytes. The bencode round trip guarantees the
//! re-encoding reproduces the original sub-document byte for byte.

use vstd::prelude::*;

use crate::bencode::BencodeError;
use crate::bencode::SpecValue;
use crate::bencode::Value;
use crate::bencode::bytes_eq;
use crate::bencode::decode;
use crate::bencode::encode;
use crate::bencode::spec_decode_value;
use crate::bencode::spec_encode;
use crate::bencode::view_of_dict;
use crate::bencode::lemma_view_of_dict;
use crate::download::spec_piece_count;
use crate::download::spec_piece_len_at;
use crate::download::lemma_piece_count_parts;
use crate::download::lemma_piece_facts;
use crate::download::piece_count_exec;
use crate::hashing::calculate_hash;
use crate::hashing::copy_bytes;
use crate::hashing::sha1_of;
use crate::hashing::spec_to_hex;
use crate::hashing::to_hex_string;

verus! {

/// Why metainfo bytes were rejected.
#[derive(Debug, Clone, Copy, PartialEq, Eq, Structural)]
pub enum MetainfoError {
    /// The bytes are not well-formed bencode.
    Decode(BencodeError),
    /// Bytes follow the top-level value.
    TrailingBytes,
    /// The top level, or the `info` value, is not a dictionary.
    NotDict,
    /// A required key (`announce`, `info`, `name`, `piece length`, `pieces`)
    /// is absent.
    MissingKey,
    /// A present key carries a value of the wrong type or out of range.
    WrongType,
    /// The `pieces` string is not a whole number of 20-byte hashes.
    BadPiecesLength,
    /// `ceil(length / piece length)` differs from the number of hashes.
    LengthMismatch,
}

/// The `info` sub-dictionary of a single-file torrent.
#[derive(Debug, PartialEq, Eq)]
pub struct Info {
    pub name: Vec<u8>,
    /// The 20-byte SHA-1 hashes of the pieces, concatenated.
    pub pieces: Vec<u8>,
    pub piece_length: u32,
    /// The file length; absent in torrents this client does not download.
    pub length: Option<u32>,
}

/// The mathematical counterpart of `Info`.
pub struct SpecInfo {
    pub name: Seq<u8>,
    pub pieces: Seq<u8>,
    pub piece_length: u32,
    pub length: Option<u32>,
}

impl View for Info {
    type V = SpecInfo;

    open spec fn view(&self) -> SpecInfo {
        SpecInfo {
            name: self.name@,
            pieces: self.pieces@,
            piece_length: self.piece_length,
            length: self.length,
        }
    }
}

/// A parsed torrent file.
#[derive(Debug, PartialEq, Eq)]
pub struct TorrentMetadata {
    pub announce: Vec<u8>,
    pub info: Info,
}

pub struct SpecTorrent {
    pub announce: Seq<u8>,
    pub info: SpecInfo,
}

impl View for TorrentMetadata {
    type V = SpecTorrent;

    open spec fn view(&self) -> SpecTorrent {
        SpecTorrent { announce: self.announce@, info: self.info@ }
    }
}

/// The bytes of the key "announce".
pub open spec fn spec_key_announce() -> Seq<u8> {
    seq![97u8, 110, 110, 111, 117, 110, 99, 101]
}

/// The bytes of the key "info".
pub open spec fn spec_key_info() -> Seq<u8> {
    seq![105u8, 110, 102, 111]
}

/// The bytes of the key "length".
pub open spec fn spec_key_length() -> Seq<u8> {
    seq![108u8, 101, 110, 103, 116, 104]
}

/// The bytes of the key "name".
pub open spec fn spec_key_name() -> Seq<u8> {
    seq![110u8, 97, 109, 101]
}

/// The bytes of the key "piece length".
pub open spec fn spec_key_piece_length() -> Seq<u8> {
    seq![112u8, 105, 101, 99, 101, 32, 108, 101, 110, 103, 116, 104]
}

/// The bytes of the key "pieces".
pub open spec fn spec_key_pieces() -> Seq<u8> {
    seq![112u8, 105, 101, 99, 101, 115]
}

/// The value under the first occurrence of `key`, if any.
pub open spec fn spec_dict_get(pairs: Seq<(Seq<u8>, SpecValue)>, key: Seq<u8>) -> Option<SpecValue>
    decreases pairs.len(),
{
    if pairs.len() == 0 {
        Option::None
    } else if pairs[0].0 == key {
        Option::Some(pairs[0].1)
    } else {
        spec_dict_get(pairs.drop_first(), key)
    }
}

/// Looks `key` up in a decoded dictionary.
pub fn dict_get<'a>(pairs: &'a Vec<(Vec<u8>, Value)>, key: &Vec<u8>) -> (r: Option<&'a Value>)
    ensures
        match r {
            Some(v) => spec_dict_get(view_of_dict(pairs@), key@) == Option::Some(v@),
            None => spec_dict_get(view_of_dict(pairs@), key@) is None,
        },
{
    proof {
        lemma_view_of_dict(pairs@);
        assert(view_of_dict(pairs@).skip(0) =~= view_of_dict(pairs@));
    }
    let ghost vd = view_of_dict(pairs@);
    let n = pairs.len();
    for i in 0..n
        invariant
            n == pairs@.len(),
            vd == view_of_dict(pairs@),
            vd.len() == n,
            forall|m: int| 0 <= m < n ==> vd[m] == (pairs@[m].0@, crate::bencode::view_of_value(pairs@[m].1)),
            spec_dict_get(vd, key@) == spec_dict_get(vd.skip(i as int), key@),
    {
        proof {
            assert(vd.skip(i as int)[0] == vd[i as int]);
            assert(vd.skip(i as int).drop_first() =~= vd.skip(i + 1));
        }
        if bytes_eq(&pairs[i].0, key) {
            return Some(&pairs[i].1);
        }
    }
    proof {
        assert(vd.skip(n as int) =~= Seq::<(Seq<u8>, SpecValue)>::empty());
    }
    None
}

/// The typed reading of a decoded `info` dictionary: the required keys with
/// their required types, integers in range, the `pieces` string a whole
/// number of 20-byte hashes, and — when `length` is present — as many hashes
/// as `ceil(length / piece length)` asks for.
pub open spec fn spec_parse_info(v: SpecValue) -> Result<SpecInfo, MetainfoError> {
    match v {
        SpecValue::Dict(pairs) => match spec_dict_get(pairs, spec_key_name()) {
            Option::None => Err(MetainfoError::MissingKey),
            Option::Some(nv) => match nv {
                SpecValue::Bytes(name) => match spec_dict_get(pairs, spec_key_piece_length()) {
                    Option::None => Err(MetainfoError::MissingKey),
                    Option::Some(plv) => match plv {
                        SpecValue::Int(pl) => if pl < 1 || pl > u32::MAX {
                            Err(MetainfoError::WrongType)
                        } else {
                            match spec_dict_get(pairs, spec_key_pieces()) {
                                Option::None => Err(MetainfoError::MissingKey),
                                Option::Some(pv) => match pv {
                                    SpecValue::Bytes(pieces) => match spec_dict_get(
                                        pairs,
                                        spec_key_length(),
                                    ) {
                                        Option::Some(lv) => match lv {
                                            SpecValue::Int(l) => if l < 1 || l > u32::MAX {
                                                Err(MetainfoError::WrongType)
                                            } else if pieces.len() % 20 != 0 {
                                                Err(MetainfoError::BadPiecesLength)
                                            } else if spec_piece_count(l, pl) != pieces.len() as int
                                                / 20 {
                                                Err(MetainfoError::LengthMismatch)
                                            } else {
                                                Ok(
                                                    SpecInfo {
                                                        name,
                                                        pieces,
                                                        piece_length: pl as u32,
                                                        length: Option::Some(l as u32),
                                                    },
                                                )
                                            },
                                            _ => Err(MetainfoError::WrongType),
                                        },
                                        Option::None => if pieces.len() % 20 != 0 {
                                            Err(MetainfoError::BadPiecesLength)
                                        } else {
                                            Ok(
                                                SpecInfo {
                                                    name,
                                                    pieces,
                                                    piece_length: pl as u32,
                                                    length: Option::None,
                                                },
                                            )
                                        },
                                    },
                                    _ => Err(MetainfoError::WrongType),
                                },
                            }
                        },
                        _ => Err(MetainfoError::WrongType),
                    },
                },
                _ => Err(MetainfoError::WrongType),
            },
        },
        _ => Err(MetainfoError::NotDict),
    }
}

/// The typed reading of whole metainfo bytes: canonical bencode, fully
/// consumed, a top-level dictionary with `announce` (a byte string) and
/// `info` (a dictionary as `spec_parse_info` reads it).
pub open spec fn spec_torrent_from_bytes(s: Seq<u8>) -> Result<SpecTorrent, MetainfoError> {
    match spec_decode_value(s, 0) {
        Err(e) => Err(MetainfoError::Decode(e)),
        Ok((v, n)) => if n != s.len() {
            Err(MetainfoError::TrailingBytes)
        } else {
            match v {
                SpecValue::Dict(pairs) => match spec_dict_get(pairs, spec_key_announce()) {
                    Option::None => Err(MetainfoError::MissingKey),
                    Option::Some(av) => match av {
                        SpecValue::Bytes(announce) => match spec_dict_get(pairs, spec_key_info()) {
                            Option::None => Err(MetainfoError::MissingKey),
                            Option::Some(iv) => match spec_parse_info(iv) {
                                Ok(si) => Ok(SpecTorrent { announce, info: si }),
                                Err(e) => Err(e),
                            },
                        },
                        _ => Err(MetainfoError::WrongType),
                    },
                },
                _ => Err(MetainfoError::NotDict),
            }
        },
    }
}

fn key_announce() -> (k: Vec<u8>)
    ensures
        k@ == spec_key_announce(),
{
    let mut v: Vec<u8> = Vec::new();
    v.push(97);
    v.push(110);
    v.push(110);
    v.push(111);
    v.push(117);
    v.push(110);
    v.push(99);
    v.push(101);
    assert(v@ =~= spec_key_announce());
    v
}

fn key_info() -> (k: Vec<u8>)
    ensures
        k@ == spec_key_info(),
{
    let mut v: Vec<u8> = Vec::new();
    v.push(105);
    v.push(110);
    v.push(102);
    v.push(111);
    assert(v@ =~= spec_key_info());
    v
}

fn key_length() -> (k: Vec<u8>)
    ensures
        k@ == spec_key_length(),
{
    let mut v: Vec<u8> = Vec::new();
    v.push(108);
    v.push(101);
    v.push(110);
    v.push(103);
    v.push(116);
    v.push(104);
    assert(v@ =~= spec_key_length());
    v
}

fn key_name() -> (k: Vec<u8>)
    ensures
        k@ == spec_key_name(),
{
    let mut v: Vec<u8> = Vec::new();
    v.push(110);
    v.push(97);
    v.push(109);
    v.push(101);
    assert(v@ =~= spec_key_name());
    v
}

fn key_piece_length() -> (k: Vec<u8>)
    ensures
        k@ == spec_key_piece_length(),
{
    let mut v: Vec<u8> = Vec::new();
    v.push(112);
    v.push(105);
    v.push(101);
    v.push(99);
    v.push(101);
    v.push(32);
    v.push(108);
    v.push(101);
    v.push(110);
    v.push(103);
    v.push(116);
    v.push(104);
    assert(v@ =~= spec_key_piece_length());
    v
}

fn key_pieces() -> (k: Vec<u8>)
    ensures
        k@ == spec_key_pieces(),
{
    let mut v: Vec<u8> = Vec::new();
    v.push(112);
    v.push(105);
    v.push(101);
    v.push(99);
    v.push(101);
    v.push(115);
    assert(v@ =~= spec_key_pieces());
    v
}

/// Reads an `info` dictionary out of a decoded value.
pub fn parse_info(v: &Value) -> (r: Result<Info, MetainfoError>)
    ensures
        match r {
            Ok(info) => spec_parse_info(v@) == Ok::<SpecInfo, MetainfoError>(info@),
            Err(e) => spec_parse_info(v@) == Err::<SpecInfo, MetainfoError>(e),
        },
{
    let pairs = match v {
        Value::Dict(pairs) => pairs,
        _ => {
            return Err(MetainfoError::NotDict);
        },
    };
    let name = match dict_get(pairs, &key_name()) {
        Option::None => {
            return Err(MetainfoError::MissingKey);
        },
        Option::Some(nv) => match nv {
            Value::Bytes(b) => copy_bytes(b),
            _ => {
                return Err(MetainfoError::WrongType);
            },
        },
    };
    let piece_length: u32 = match dict_get(pairs, &key_piece_length()) {
        Option::None => {
            return Err(MetainfoError::MissingKey);
        },
        Option::Some(plv) => match plv {
            Value::Int(pl) => {
                if *pl < 1 || *pl > u32::MAX as i64 {
                    return Err(MetainfoError::WrongType);
                }
                *pl as u32
            },
            _ => {
                return Err(MetainfoError::WrongType);
            },
        },
    };
    let pieces = match dict_get(pairs, &key_pieces()) {
        Option::None => {
            return Err(MetainfoError::MissingKey);
        },
        Option::Some(pv) => match pv {
            Value::Bytes(b) => copy_bytes(b),
            _ => {
                return Err(MetainfoError::WrongType);
            },
        },
    };
    match dict_get(pairs, &key_length()) {
        Option::Some(lv) => match lv {
            Value::Int(l) => {
                if *l < 1 || *l > u32::MAX as i64 {
                    return Err(MetainfoError::WrongType);
                }
                if pieces.len() % 20 != 0 {
                    return Err(MetainfoError::BadPiecesLength);
                }
                let count = piece_count_exec(*l as u32, piece_length);
                if (count as u64) != (pieces.len() / 20) as u64 {
                    return Err(MetainfoError::LengthMismatch);
                }
                Ok(Info { name, pieces, piece_length, length: Some(*l as u32) })
            },
            _ => Err(MetainfoError::WrongType),
        },
        Option::None => {
            if pieces.len() % 20 != 0 {
                return Err(MetainfoError::BadPiecesLength);
            }
            Ok(Info { name, pieces, piece_length, length: None })
        },
    }
}

impl Info {
    /// The key/value pairs of the canonical bencoding of this `info`
    /// dictionary, in ascending key order.
    pub open spec fn spec_pairs(&self) -> Seq<(Seq<u8>, SpecValue)> {
        let tail = seq![
            (spec_key_name(), SpecValue::Bytes(self.name@)),
            (spec_key_piece_length(), SpecValue::Int(self.piece_length as int)),
            (spec_key_pieces(), SpecValue::Bytes(self.pieces@)),
        ];
        match self.length {
            Option::Some(l) => seq![(spec_key_length(), SpecValue::Int(l as int))] + tail,
            Option::None => tail,
        }
    }

    /// This `info` dictionary as a bencode value.
    pub open spec fn spec_value(&self) -> SpecValue {
        SpecValue::Dict(self.spec_pairs())
    }

    /// The info hash: the SHA-1 of the canonical bencoding of `info`.
    pub open spec fn spec_info_hash(&self) -> Seq<u8> {
        sha1_of(spec_encode(self.spec_value()))
    }

    fn to_value(&self) -> (v: Value)
        ensures
            v@ == self.spec_value(),
    {
        let mut pairs: Vec<(Vec<u8>, Value)> = Vec::new();
        match self.length {
            Option::Some(l) => {
                pairs.push((key_length(), Value::Int(l as i64)));
            },
            Option::None => {},
        }
        pairs.push((key_name(), Value::Bytes(copy_bytes(&self.name))));
        pairs.push((key_piece_length(), Value::Int(self.piece_length as i64)));
        pairs.push((key_pieces(), Value::Bytes(copy_bytes(&self.pieces))));
        proof {
            lemma_view_of_dict(pairs@);
            assert(view_of_dict(pairs@) =~= self.spec_pairs());
        }
        Value::Dict(pairs)
    }

    /// The 20 bytes of the info hash: SHA-1 over the canonical re-encoding
    /// of the `info` dictionary.
    pub fn hash_bytes(&self) -> (r: [u8; 20])
        ensures
            r@ == self.spec_info_hash(),
    {
        let v = self.to_value();
        let enc = encode(&v);
        calculate_hash(enc.as_slice())
    }

    /// The info hash as a lowercase hex string.
    pub fn hash_str(&self) -> (s: String)
        ensures
            s@ == spec_to_hex(self.spec_info_hash()),
    {
        let hash = self.hash_bytes();
        to_hex_string(hash.as_slice())
    }

    /// How many 20-byte groups the `pieces` string holds (a final partial
    /// group counts).
    pub fn get_pieces_count(&self) -> (c: usize)
        ensures
            c as int == spec_piece_count(self.pieces@.len() as int, 20),
    {
        proof {
            lemma_piece_count_parts(self.pieces@.len() as int, 20);
        }
        let n = self.pieces.len();
        let extra: usize = if n % 20 != 0 {
            1
        } else {
            0
        };
        n / 20 + extra
    }

    /// The 20-byte hash groups of `pieces`, in order; a final partial group
    /// is handed out as it stands.
    pub fn get_piece_hashes(&self) -> (r: Vec<Vec<u8>>)
        ensures
            r@.len() == spec_piece_count(self.pieces@.len() as int, 20),
            forall|i: int|
                0 <= i < r@.len() ==> (#[trigger] r@[i])@ == self.pieces@.subrange(
                    20 * i,
                    20 * i + spec_piece_len_at(self.pieces@.len() as int, 20, i),
                ),
    {
        let ghost plen = self.pieces@.len() as int;
        let count = self.get_pieces_count();
        let n = self.pieces.len();
        let mut r: Vec<Vec<u8>> = Vec::new();
        for i in 0..count
            invariant
                count as int == spec_piece_count(plen, 20),
                n == self.pieces@.len(),
                plen == self.pieces@.len() as int,
                r@.len() == i,
                forall|j: int|
                    0 <= j < i ==> (#[trigger] r@[j])@ == self.pieces@.subrange(
                        20 * j,
                        20 * j + spec_piece_len_at(plen, 20, j),
                    ),
        {
            proof {
                if plen == 0 {
                    assert(spec_piece_count(0, 20) == 0);
                }
                lemma_piece_facts(plen, 20, i as int);
            }
            let start = i * 20;
            let len: usize = if n - start >= 20 {
                20
            } else {
                n - start
            };
            let mut chunk: Vec<u8> = Vec::new();
            for m in 0..len
                invariant
                    n == self.pieces@.len(),
                    start + len <= n,
                    chunk@ == self.pieces@.subrange(start as int, start as int + m),
            {
                chunk.push(self.pieces[start + m]);
                assert(chunk@ =~= self.pieces@.subrange(start as int, start as int + m + 1));
            }
            r.push(chunk);
        }
        r
    }

    /// The piece hashes as lowercase hex strings.
    pub fn get_piece_hashes_str(&self) -> (r: Vec<String>)
        ensures
            r@.len() == spec_piece_count(self.pieces@.len() as int, 20),
            forall|i: int|
                0 <= i < r@.len() ==> (#[trigger] r@[i])@ == spec_to_hex(
                    self.pieces@.subrange(
                        20 * i,
                        20 * i + spec_piece_len_at(self.pieces@.len() as int, 20, i),
                    ),
                ),
    {
        let hashes = self.get_piece_hashes();
        let count = hashes.len();
        let mut r: Vec<String> = Vec::new();
        for i in 0..count
            invariant
                count == hashes@.len(),
                hashes@.len() == spec_piece_count(self.pieces@.len() as int, 20),
                forall|j: int|
                    0 <= j < hashes@.len() ==> (#[trigger] hashes@[j])@ == self.pieces@.subrange(
                        20 * j,
                        20 * j + spec_piece_len_at(self.pieces@.len() as int, 20, j),
                    ),
                r@.len() == i,
                forall|j: int|
                    0 <= j < i ==> (#[trigger] r@[j])@ == spec_to_hex(
                        self.pieces@.subrange(
                            20 * j,
                            20 * j + spec_piece_len_at(self.pieces@.len() as int, 20, j),
                        ),
                    ),
        {
            r.push(to_hex_string(hashes[i].as_slice()));
        }
        r
    }

    /// The expected hash of one piece: bytes `20i .. 20i + 20` of `pieces`.
    pub fn piece_hash(&self, piece_index: u32) -> (r: Vec<u8>)
        requires
            20 * (piece_index as int) + 20 <= self.pieces@.len(),
        ensures
            r@ == self.pieces@.subrange(
                20 * (piece_index as int),
                20 * (piece_index as int) + 20,
            ),
    {
        let n = self.pieces.len();
        assert(20 * (piece_index as int) + 20 <= n as int);
        let start = (piece_index as usize) * 20;
        let mut r: Vec<u8> = Vec::new();
        for m in 0..20usize
            invariant
                start == 20 * (piece_index as int),
                n == self.pieces@.len(),
                start + 20 <= n,
                r@ == self.pieces@.subrange(start as int, start as int + m),
        {
            r.push(self.pieces[start + m]);
            assert(r@ =~= self.pieces@.subrange(start as int, start as int + m + 1));
        }
        r
    }

    /// The length of the piece at `piece_index`: the full piece length for
    /// all pieces but the last, which takes the file's remainder.
    pub fn piece_length_at(&self, piece_index: u32) -> (l: u32)
        requires
            self.length matches Option::Some(len) && len >= 1 && (piece_index as int)
                < spec_piece_count(len as int, self.piece_length as int),
            self.piece_length >= 1,
        ensures
            self.length matches Option::Some(len) ==> l as int == spec_piece_len_at(
                len as int,
                self.piece_length as int,
                piece_index as int,
            ),
    {
        match self.length {
            Option::Some(len) => crate::download::actual_piece_length(
                len,
                self.piece_length,
                piece_index,
            ),
            Option::None => {
                proof {
                    assert(false);
                }
                0
            },
        }
    }
}

/// Accepts a downloaded piece exactly when its SHA-1 equals the expected
/// 20-byte group `pieces[20 * piece_index .. 20 * piece_index + 20]` of the
/// metainfo; a mismatch is fatal and carries index, expected and computed
/// hash.
pub fn check_piece(info: &Info, piece: &crate::download::Piece, piece_index: u32) -> (r: Result<
    (),
    crate::download::DownloadError,
>)
    requires
        20 * (piece_index as int) + 20 <= info.pieces@.len(),
    ensures
        ({
            let expected = info.pieces@.subrange(
                20 * (piece_index as int),
                20 * (piece_index as int) + 20,
            );
            match r {
                Ok(_) => sha1_of(piece.piece_data@) == expected,
                Err(e) => sha1_of(piece.piece_data@) != expected && (
                e matches crate::download::DownloadError::PieceHashMismatch(i, exp, got) && i
                    == piece.piece_index && exp@ == expected && got@ == sha1_of(
                    piece.piece_data@,
                )),
            }
        }),
{
    let expected = info.piece_hash(piece_index);
    piece.verify(&expected)
}

impl TorrentMetadata {
    /// Parses the bytes of a torrent file. Accepts exactly the canonical,
    /// fully consumed metainfo dictionaries of `spec_torrent_from_bytes`,
    /// naming the first offence otherwise.
    pub fn from_bytes(s: &[u8]) -> (r: Result<TorrentMetadata, MetainfoError>)
        ensures
            match r {
                Ok(t) => spec_torrent_from_bytes(s@) == Ok::<SpecTorrent, MetainfoError>(t@),
                Err(e) => spec_torrent_from_bytes(s@) == Err::<SpecTorrent, MetainfoError>(e),
            },
    {
        let (v, n) = match decode(s) {
            Ok(p) => p,
            Err(e) => {
                return Err(MetainfoError::Decode(e));
            },
        };
        if n != s.len() {
            return Err(MetainfoError::TrailingBytes);
        }
        let pairs = match v {
            Value::Dict(pairs) => pairs,
            _ => {
                return Err(MetainfoError::NotDict);
            },
        };
        let announce = match dict_get(&pairs, &key_announce()) {
            Option::None => {
                return Err(MetainfoError::MissingKey);
            },
            Option::Some(av) => match av {
                Value::Bytes(b) => copy_bytes(b),
                _ => {
                    return Err(MetainfoError::WrongType);
                },
            },
        };
        let info = match dict_get(&pairs, &key_info()) {
            Option::None => {
                return Err(MetainfoError::MissingKey);
            },
            Option::Some(iv) => match parse_info(iv) {
                Ok(info) => info,
                Err(e) => {
                    return Err(e);
                },
            },
        };
        Ok(TorrentMetadata { announce, info })
    }
}

} // verus!
