use bittorrent_client::peer::{
    build_handshake, parse_handshake_reply, u32_from_be, Block, BlockRequestPayload,
    BlockResponsePayload, PeerError, PeerMessage, PeerMessageType,
};

#[test]
fn handshake_has_the_68_specified_bytes() {
    let info_hash = vec![0x11u8; 20];
    let peer_id = vec![0x22u8; 20];
    let hs = build_handshake(&info_hash, &peer_id);
    assert_eq!(hs.len(), 68);
    assert_eq!(hs[0], 19);
    assert_eq!(&hs[1..20], b"BitTorrent protocol");
    assert_eq!(&hs[20..28], &[0u8; 8]);
    assert_eq!(&hs[28..48], info_hash.as_slice());
    assert_eq!(&hs[48..68], peer_id.as_slice());
}

#[test]
fn handshake_reply_yields_remote_peer_id() {
    let info_hash = vec![0x11u8; 20];
    let mut reply = build_handshake(&info_hash, &vec![0x33u8; 20]);
    // the remote answers with its own peer id in the last 20 bytes
    for b in &mut reply[48..68] {
        *b = 0x44;
    }
    let peer_id = parse_handshake_reply(&reply, &info_hash).expect("matching reply is accepted");
    assert_eq!(peer_id, vec![0x44u8; 20]);
}

#[test]
fn short_handshake_reply_is_rejected() {
    let info_hash = vec![0x11u8; 20];
    let reply = vec![0u8; 67];
    assert_eq!(
        parse_handshake_reply(&reply, &info_hash),
        Err(PeerError::ShortHandshake)
    );
}

#[test]
fn mismatched_info_hash_is_rejected() {
    let info_hash = vec![0x11u8; 20];
    let reply = build_handshake(&vec![0x99u8; 20], &vec![0x22u8; 20]);
    assert_eq!(
        parse_handshake_reply(&reply, &info_hash),
        Err(PeerError::InfoHashMismatch)
    );
}

#[test]
fn message_ids_round_trip() {
    for id in 0u8..=8 {
        let t = PeerMessageType::from(id);
        assert_eq!(t.to_message_id(), id);
    }
    assert_eq!(PeerMessageType::from(5), PeerMessageType::BitField);
    assert_eq!(PeerMessageType::from(7), PeerMessageType::Piece);
}

#[test]
fn frame_of_interested_message() {
    let m = PeerMessage::new(PeerMessageType::Interested, Vec::new());
    assert_eq!(m.to_bytes(), vec![0, 0, 0, 1, 2]);
}

#[test]
fn frame_of_request_message() {
    let payload = BlockRequestPayload {
        piece_index: 1,
        block_byte_offset: 16384,
        block_length: 16384,
    }
    .to_bytes();
    assert_eq!(
        payload,
        vec![0, 0, 0, 1, 0, 0, 0x40, 0, 0, 0, 0x40, 0]
    );
    let m = PeerMessage::new(PeerMessageType::Request, payload);
    let frame = m.to_bytes();
    assert_eq!(&frame[0..5], &[0, 0, 0, 13, 6]);
    assert_eq!(frame.len(), 17);
}

#[test]
fn typing_a_received_frame() {
    let m = PeerMessage::from_frame(2, 5, vec![0xAB]).expect("well-formed frame");
    assert_eq!(m.message_type, PeerMessageType::BitField);
    assert_eq!(m.length, 2);
    assert_eq!(m.payload, vec![0xAB]);
}

#[test]
fn reject_zero_length_frame() {
    assert_eq!(
        PeerMessage::from_frame(0, 5, Vec::new()),
        Err(PeerError::BadFrameLength(0))
    );
}

#[test]
fn reject_oversized_frame() {
    assert_eq!(
        PeerMessage::from_frame(1048577, 7, Vec::new()),
        Err(PeerError::BadFrameLength(1048577))
    );
}

#[test]
fn reject_frame_length_disagreeing_with_payload() {
    assert_eq!(
        PeerMessage::from_frame(5, 7, vec![1, 2]),
        Err(PeerError::BadFrameLength(5))
    );
}

#[test]
fn reject_unknown_message_id() {
    assert_eq!(
        PeerMessage::from_frame(1, 9, Vec::new()),
        Err(PeerError::UnknownMessage(9))
    );
}

#[test]
fn expected_type_is_enforced() {
    let m = PeerMessage::from_frame(1, 1, Vec::new()).unwrap();
    assert!(m.expect_type(PeerMessageType::Unchoke).is_ok());
    assert_eq!(
        m.expect_type(PeerMessageType::BitField),
        Err(PeerError::UnexpectedMessage(1, 5))
    );
}

#[test]
fn block_parses_its_payload() {
    let mut payload: Vec<u8> = vec![0, 0, 0, 1, 0, 0, 0x40, 0];
    payload.extend_from_slice(&[9, 8, 7]);
    let b = Block::from(payload);
    assert_eq!(b.piece_index, 1);
    assert_eq!(b.block_byte_offset, 16384);
    assert_eq!(b.block_data, vec![9, 8, 7]);
}

#[test]
fn block_response_checks_the_frame_length() {
    let mut payload: Vec<u8> = vec![0, 0, 0, 1, 0, 0, 0, 0];
    payload.extend_from_slice(&[5, 5]);
    let ok = BlockResponsePayload::from(payload.clone(), 10).expect("lengths agree");
    assert_eq!(ok.block_data, vec![5, 5]);
    match BlockResponsePayload::from(payload, 11) {
        Err((msg, b)) => {
            assert_eq!(msg, "Invalid block data length");
            assert_eq!(b.block_data, vec![5, 5]);
        },
        Ok(_) => panic!("length disagreement must be reported"),
    }
}

#[test]
fn big_endian_u32_round_trip() {
    assert_eq!(u32_from_be(0, 0, 0x40, 0), 16384);
    assert_eq!(u32_from_be(0xDE, 0xAD, 0xBE, 0xEF), 0xDEADBEEF);
    let p = BlockRequestPayload {
        piece_index: 0xDEADBEEF,
        block_byte_offset: 0,
        block_length: 1,
    }
    .to_bytes();
    assert_eq!(u32_from_be(p[0], p[1], p[2], p[3]), 0xDEADBEEF);
}
