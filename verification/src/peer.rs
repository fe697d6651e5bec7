//! Peer wire format: the 68-byte handshake, length-prefixed message frames,
//! and the request/piece payloads. Everything here is pure byte
//! construction and parsing; the socket itself stays with the caller.

use vstd::prelude::*;
use vstd::string::StringExecFns;

verus! {

/// Frames longer than this ceiling are rejected as a protocol error.
pub const MAX_FRAME_LENGTH: u32 = 1048576;

/// A protocol-level failure on the peer connection.
#[derive(Debug, Clone, Copy, PartialEq, Eq, Structural)]
pub enum PeerError {
    /// The handshake reply was not exactly 68 bytes.
    ShortHandshake,
    /// The info hash in the handshake reply differs from the one sent.
    InfoHashMismatch,
    /// A message of one id arrived where another was required: `(got, expected)`.
    UnexpectedMessage(u8, u8),
    /// A message id above 8, outside the protocol's table.
    UnknownMessage(u8),
    /// A length prefix beyond `MAX_FRAME_LENGTH`, or below 1 for a typed frame.
    BadFrameLength(u32),
}

/// The message types of the peer protocol, in id order 0 through 8.
#[derive(Debug, Clone, Copy, PartialEq, Eq, Structural)]
pub enum PeerMessageType {
    Choke,
    Unchoke,
    Interested,
    NotInterested,
    Have,
    BitField,
    Request,
    Piece,
    Cancel,
}

/// The wire id of each message type.
pub open spec fn spec_message_id(t: PeerMessageType) -> u8 {
    match t {
        PeerMessageType::Choke => 0,
        PeerMessageType::Unchoke => 1,
        PeerMessageType::Interested => 2,
        PeerMessageType::NotInterested => 3,
        PeerMessageType::Have => 4,
        PeerMessageType::BitField => 5,
        PeerMessageType::Request => 6,
        PeerMessageType::Piece => 7,
        PeerMessageType::Cancel => 8,
    }
}

impl PeerMessageType {
    /// The message type of a wire id at most 8.
    pub fn from(message_id: u8) -> (t: Self)
        requires
            message_id <= 8,
        ensures
            spec_message_id(t) == message_id,
    {
        match message_id {
            0 => Self::Choke,
            1 => Self::Unchoke,
            2 => Self::Interested,
            3 => Self::NotInterested,
            4 => Self::Have,
            5 => Self::BitField,
            6 => Self::Request,
            7 => Self::Piece,
            _ => Self::Cancel,
        }
    }

    pub fn to_message_id(&self) -> (id: u8)
        ensures
            id == spec_message_id(*self),
    {
        match self {
            Self::Choke => 0,
            Self::Unchoke => 1,
            Self::Interested => 2,
            Self::NotInterested => 3,
            Self::Have => 4,
            Self::BitField => 5,
            Self::Request => 6,
            Self::Piece => 7,
            Self::Cancel => 8,
        }
    }
}

/// The big-endian four-byte rendering of `x`.
pub open spec fn spec_u32_be(x: u32) -> Seq<u8> {
    seq![
        (x / 0x1000000) as u8,
        ((x / 0x10000) % 256) as u8,
        ((x / 256) % 256) as u8,
        (x % 256) as u8,
    ]
}

/// The value of four big-endian bytes.
pub open spec fn spec_u32_of(b: Seq<u8>) -> int
    recommends
        b.len() == 4,
{
    b[0] * 0x1000000 + b[1] * 0x10000 + b[2] * 256 + b[3]
}

/// Appends the big-endian bytes of `x` to `out`.
pub fn push_u32_be(x: u32, out: &mut Vec<u8>)
    ensures
        final(out)@ == old(out)@ + spec_u32_be(x),
{
    out.push((x / 0x1000000) as u8);
    out.push(((x / 0x10000) % 256) as u8);
    out.push(((x / 256) % 256) as u8);
    out.push((x % 256) as u8);
    assert(final(out)@ =~= old(out)@ + spec_u32_be(x));
}

/// Reads a `u32` out of four big-endian bytes.
pub fn u32_from_be(b0: u8, b1: u8, b2: u8, b3: u8) -> (x: u32)
    ensures
        x as int == spec_u32_of(seq![b0, b1, b2, b3]),
{
    let x: u32 = (b0 as u32) * 0x1000000 + (b1 as u32) * 0x10000 + (b2 as u32) * 256 + (b3 as u32);
    proof {
        let s = seq![b0, b1, b2, b3];
        assert(s[0] == b0 && s[1] == b1 && s[2] == b2 && s[3] == b3);
    }
    x
}

/// The ASCII protocol name "BitTorrent protocol", 19 bytes.
pub open spec fn spec_protocol_name() -> Seq<u8> {
    seq![
        66u8, 105, 116, 84, 111, 114, 114, 101, 110, 116, 32, 112, 114, 111, 116, 111, 99, 111,
        108,
    ]
}

/// The 68 handshake bytes: 19, the protocol name, 8 reserved zeros, the info
/// hash, then the local peer id.
pub open spec fn spec_handshake(info_hash: Seq<u8>, peer_id: Seq<u8>) -> Seq<u8> {
    seq![19u8] + spec_protocol_name() + seq![0u8, 0, 0, 0, 0, 0, 0, 0] + info_hash + peer_id
}

/// Builds the 68 handshake bytes to send to a peer.
pub fn build_handshake(info_hash: &Vec<u8>, peer_id: &Vec<u8>) -> (r: Vec<u8>)
    requires
        info_hash@.len() == 20,
        peer_id@.len() == 20,
    ensures
        r@ == spec_handshake(info_hash@, peer_id@),
        r@.len() == 68,
{
    let mut out: Vec<u8> = Vec::new();
    out.push(19);
    out.push(66);
    out.push(105);
    out.push(116);
    out.push(84);
    out.push(111);
    out.push(114);
    out.push(114);
    out.push(101);
    out.push(110);
    out.push(116);
    out.push(32);
    out.push(112);
    out.push(114);
    out.push(111);
    out.push(116);
    out.push(111);
    out.push(99);
    out.push(111);
    out.push(108);
    let mut k: usize = 0;
    while k < 8
        invariant
            k <= 8,
            out@ == seq![19u8] + spec_protocol_name() + Seq::new(k as nat, |i: int| 0u8),
        decreases 8 - k,
    {
        out.push(0);
        assert(out@ =~= seq![19u8] + spec_protocol_name() + Seq::new((k + 1) as nat, |i: int| 0u8));
        k = k + 1;
    }
    let ghost head = out@;
    let mut k: usize = 0;
    while k < 20
        invariant
            k <= 20,
            info_hash@.len() == 20,
            out@ == head + info_hash@.subrange(0, k as int),
        decreases 20 - k,
    {
        out.push(info_hash[k]);
        assert(out@ =~= head + info_hash@.subrange(0, k + 1));
        k = k + 1;
    }
    let ghost head2 = out@;
    let mut k: usize = 0;
    while k < 20
        invariant
            k <= 20,
            peer_id@.len() == 20,
            out@ == head2 + peer_id@.subrange(0, k as int),
        decreases 20 - k,
    {
        out.push(peer_id[k]);
        assert(out@ =~= head2 + peer_id@.subrange(0, k + 1));
        k = k + 1;
    }
    proof {
        assert(Seq::new(8nat, |i: int| 0u8) =~= seq![0u8, 0, 0, 0, 0, 0, 0, 0]);
        assert(info_hash@.subrange(0, 20) =~= info_hash@);
        assert(peer_id@.subrange(0, 20) =~= peer_id@);
        assert(out@ =~= spec_handshake(info_hash@, peer_id@));
    }
    out
}

/// Checks a handshake reply: it must be exactly 68 bytes and carry back the
/// info hash that was sent; the remote peer id is its last 20 bytes.
pub fn parse_handshake_reply(reply: &Vec<u8>, expected_info_hash: &Vec<u8>) -> (r: Result<
    Vec<u8>,
    PeerError,
>)
    requires
        expected_info_hash@.len() == 20,
    ensures
        match r {
            Ok(peer_id) => reply@.len() == 68 && reply@.subrange(28, 48) == expected_info_hash@
                && peer_id@ == reply@.subrange(48, 68),
            Err(e) => (e == PeerError::ShortHandshake && reply@.len() != 68) || (
            e == PeerError::InfoHashMismatch && reply@.len() == 68 && reply@.subrange(28, 48)
                != expected_info_hash@),
        },
{
    if reply.len() != 68 {
        return Err(PeerError::ShortHandshake);
    }
    let mut k: usize = 0;
    while k < 20
        invariant
            k <= 20,
            reply@.len() == 68,
            expected_info_hash@.len() == 20,
            forall|m: int| 0 <= m < k ==> reply@[28 + m] == expected_info_hash@[m],
        decreases 20 - k,
    {
        if reply[28 + k] != expected_info_hash[k] {
            proof {
                assert(reply@.subrange(28, 48)[k as int] != expected_info_hash@[k as int]);
            }
            return Err(PeerError::InfoHashMismatch);
        }
        k = k + 1;
    }
    proof {
        assert(reply@.subrange(28, 48) =~= expected_info_hash@);
    }
    let mut peer_id: Vec<u8> = Vec::new();
    let mut k: usize = 0;
    while k < 20
        invariant
            k <= 20,
            reply@.len() == 68,
            peer_id@ == reply@.subrange(48, 48 + k),
        decreases 20 - k,
    {
        peer_id.push(reply[48 + k]);
        assert(peer_id@ =~= reply@.subrange(48, 48 + k + 1));
        k = k + 1;
    }
    Ok(peer_id)
}

/// One frame of the message layer: `<4-byte length, big-endian><id><payload>`,
/// where the length counts the id byte and the payload.
pub open spec fn spec_frame(id: u8, payload: Seq<u8>) -> Seq<u8> {
    spec_u32_be((payload.len() + 1) as u32) + seq![id] + payload
}

/// A typed peer message; `length` is the wire length, one more than the
/// payload's.
#[derive(Debug, PartialEq, Eq)]
pub struct PeerMessage {
    pub length: u32,
    pub message_type: PeerMessageType,
    pub payload: Vec<u8>,
}

impl PeerMessage {
    pub open spec fn wf(&self) -> bool {
        self.length == self.payload@.len() + 1
    }

    /// Packs a message type and payload into a `PeerMessage`.
    pub fn new(message_type: PeerMessageType, payload: Vec<u8>) -> (r: Self)
        requires
            payload@.len() + 1 <= u32::MAX,
        ensures
            r.wf(),
            r.message_type == message_type,
            r.payload == payload,
    {
        let length = (payload.len() as u32) + 1;
        PeerMessage { length, message_type, payload }
    }

    /// The full frame to write to the wire for this message.
    pub fn to_bytes(&self) -> (r: Vec<u8>)
        requires
            self.wf(),
        ensures
            r@ == spec_frame(spec_message_id(self.message_type), self.payload@),
    {
        let mut out: Vec<u8> = Vec::new();
        push_u32_be(self.length, &mut out);
        out.push(self.message_type.to_message_id());
        let ghost head = out@;
        let n = self.payload.len();
        for k in 0..n
            invariant
                n == self.payload@.len(),
                out@ == head + self.payload@.subrange(0, k as int),
        {
            out.push(self.payload[k]);
            assert(out@ =~= head + self.payload@.subrange(0, k + 1));
        }
        proof {
            assert(self.payload@.subrange(0, n as int) =~= self.payload@);
            assert(out@ =~= spec_frame(spec_message_id(self.message_type), self.payload@));
        }
        out
    }

    /// Types a frame read from the wire, given its length prefix, id byte and
    /// payload. Rejects ids above 8, lengths of zero or beyond the ceiling,
    /// and lengths that disagree with the payload.
    pub fn from_frame(length: u32, message_id: u8, payload: Vec<u8>) -> (r: Result<
        Self,
        PeerError,
    >)
        ensures
            match r {
                Ok(m) => m.wf() && length == payload@.len() + 1 && length <= MAX_FRAME_LENGTH
                    && message_id <= 8 && spec_message_id(m.message_type) == message_id
                    && m.payload == payload && m.length == length,
                Err(e) => (e == PeerError::BadFrameLength(length) && (length == 0 || length
                    > MAX_FRAME_LENGTH || length != payload@.len() + 1)) || (
                e == PeerError::UnknownMessage(message_id) && message_id > 8),
            },
    {
        if length == 0 || length > MAX_FRAME_LENGTH {
            return Err(PeerError::BadFrameLength(length));
        }
        if payload.len() > u32::MAX as usize - 1 || length != (payload.len() as u32) + 1 {
            return Err(PeerError::BadFrameLength(length));
        }
        if message_id > 8 {
            return Err(PeerError::UnknownMessage(message_id));
        }
        let message_type = PeerMessageType::from(message_id);
        Ok(PeerMessage { length, message_type, payload })
    }

    /// Requires the message to be of the `expected` type, as the prelude
    /// demands at each of its steps.
    pub fn expect_type(&self, expected: PeerMessageType) -> (r: Result<(), PeerError>)
        ensures
            match r {
                Ok(_) => self.message_type == expected,
                Err(e) => self.message_type != expected && e == PeerError::UnexpectedMessage(
                    spec_message_id(self.message_type),
                    spec_message_id(expected),
                ),
            },
    {
        let got = self.message_type.to_message_id();
        let want = expected.to_message_id();
        if got == want {
            proof {
                assert(self.message_type == expected) by {
                    lemma_message_ids_injective(self.message_type, expected);
                }
            }
            Ok(())
        } else {
            Err(PeerError::UnexpectedMessage(got, want))
        }
    }
}

/// Distinct message types have distinct wire ids.
pub proof fn lemma_message_ids_injective(a: PeerMessageType, b: PeerMessageType)
    ensures
        spec_message_id(a) == spec_message_id(b) ==> a == b,
{
}

/// The payload of a `request` message: piece index, block offset inside the
/// piece, and block length, each as four big-endian bytes.
#[derive(Debug, Clone, Copy, PartialEq, Eq, Structural)]
pub struct BlockRequestPayload {
    pub piece_index: u32,
    pub block_byte_offset: u32,
    pub block_length: u32,
}

impl BlockRequestPayload {
    pub fn to_bytes(&self) -> (r: Vec<u8>)
        ensures
            r@ == spec_u32_be(self.piece_index) + spec_u32_be(self.block_byte_offset)
                + spec_u32_be(self.block_length),
            r@.len() == 12,
    {
        let mut out: Vec<u8> = Vec::new();
        push_u32_be(self.piece_index, &mut out);
        push_u32_be(self.block_byte_offset, &mut out);
        push_u32_be(self.block_length, &mut out);
        assert(out@ =~= spec_u32_be(self.piece_index) + spec_u32_be(self.block_byte_offset)
            + spec_u32_be(self.block_length));
        out
    }
}

/// One received block: the `piece` payload parsed into its parts.
#[derive(Debug)]
pub struct Block {
    pub piece_index: u32,
    pub block_byte_offset: u32,
    pub block_data: Vec<u8>,
}

impl Block {
    /// Splits a `piece` message payload into piece index, block offset, and
    /// the block's bytes.
    pub fn from(payload: Vec<u8>) -> (r: Self)
        requires
            payload@.len() >= 8,
        ensures
            r.piece_index as int == spec_u32_of(payload@.subrange(0, 4)),
            r.block_byte_offset as int == spec_u32_of(payload@.subrange(4, 8)),
            r.block_data@ == payload@.skip(8),
    {
        let piece_index = u32_from_be(payload[0], payload[1], payload[2], payload[3]);
        let block_byte_offset = u32_from_be(payload[4], payload[5], payload[6], payload[7]);
        let mut block_data: Vec<u8> = Vec::new();
        let n = payload.len();
        for k in 8..n
            invariant
                n == payload@.len(),
                n >= 8,
                block_data@ == payload@.subrange(8, k as int),
        {
            block_data.push(payload[k]);
            assert(block_data@ =~= payload@.subrange(8, k + 1));
        }
        proof {
            assert(payload@.subrange(8, n as int) =~= payload@.skip(8));
            assert(seq![payload@[0], payload@[1], payload@[2], payload@[3]] =~= payload@.subrange(
                0,
                4,
            ));
            assert(seq![payload@[4], payload@[5], payload@[6], payload@[7]] =~= payload@.subrange(
                4,
                8,
            ));
        }
        Block { piece_index, block_byte_offset, block_data }
    }
}

/// The same split, with the frame's payload length checked against the bytes
/// actually carried: `payload_length` must be 8 plus the block's length.
#[derive(Debug)]
pub struct BlockResponsePayload {
    pub piece_index: u32,
    pub block_byte_offset: u32,
    pub block_data: Vec<u8>,
}

impl BlockResponsePayload {
    pub fn from(payload: Vec<u8>, payload_length: u32) -> (r: Result<Self, (String, Self)>)
        requires
            payload@.len() >= 8,
            payload_length >= 8,
        ensures
            match r {
                Ok(b) => payload@.len() == payload_length && b.piece_index as int == spec_u32_of(
                    payload@.subrange(0, 4),
                ) && b.block_byte_offset as int == spec_u32_of(payload@.subrange(4, 8))
                    && b.block_data@ == payload@.skip(8),
                Err((msg, b)) => payload@.len() != payload_length && b.piece_index as int
                    == spec_u32_of(payload@.subrange(0, 4)) && b.block_byte_offset as int
                    == spec_u32_of(payload@.subrange(4, 8)) && b.block_data@ == payload@.skip(8),
            },
    {
        let ghost pv = payload@;
        let block = Block::from(payload);
        let b = BlockResponsePayload {
            piece_index: block.piece_index,
            block_byte_offset: block.block_byte_offset,
            block_data: block.block_data,
        };
        if b.block_data.len() as u64 != payload_length as u64 - 8 {
            return Err((String::from_str("Invalid block data length"), b));
        }
        Ok(b)
    }
}

} // verus!
