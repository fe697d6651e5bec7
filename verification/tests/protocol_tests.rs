use bittorrent_client::peer::PeerMessageType;
use bittorrent_client::protocol::{step, PeerEvent, PeerState, ProtocolViolation};

#[test]
fn prelude_runs_in_order() {
    let s = step(PeerState::Fresh, PeerEvent::HandshakeCompleted).unwrap();
    assert_eq!(s, PeerState::Handshaken);
    let s = step(s, PeerEvent::MessageReceived(PeerMessageType::BitField)).unwrap();
    assert_eq!(s, PeerState::BitfieldSeen);
    let s = step(s, PeerEvent::InterestedSent).unwrap();
    assert_eq!(s, PeerState::Interested);
    let s = step(s, PeerEvent::MessageReceived(PeerMessageType::Unchoke)).unwrap();
    assert_eq!(s, PeerState::Unchoked);
    let s = step(s, PeerEvent::RequestSent).unwrap();
    assert_eq!(s, PeerState::Downloading);
}

#[test]
fn download_loop_stays_in_its_state() {
    let s = PeerState::Downloading;
    assert_eq!(step(s, PeerEvent::RequestSent), Ok(PeerState::Downloading));
    assert_eq!(
        step(s, PeerEvent::MessageReceived(PeerMessageType::Piece)),
        Ok(PeerState::Downloading)
    );
}

#[test]
fn piece_before_unchoke_is_fatal() {
    let r = step(
        PeerState::Interested,
        PeerEvent::MessageReceived(PeerMessageType::Piece),
    );
    assert_eq!(
        r,
        Err(ProtocolViolation {
            state: PeerState::Interested,
            event: PeerEvent::MessageReceived(PeerMessageType::Piece),
        })
    );
}

#[test]
fn choke_during_download_is_fatal() {
    assert!(step(
        PeerState::Downloading,
        PeerEvent::MessageReceived(PeerMessageType::Choke)
    )
    .is_err());
}

#[test]
fn unchoke_before_bitfield_is_fatal() {
    assert!(step(
        PeerState::Handshaken,
        PeerEvent::MessageReceived(PeerMessageType::Unchoke)
    )
    .is_err());
}
