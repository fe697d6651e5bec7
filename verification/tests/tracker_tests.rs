use bittorrent_client::tracker::{
    peer_id_bytes, tracker_query, u64_to_string, TrackerError, TrackerResponse,
};

fn body_with_peers(peers: &[u8]) -> Vec<u8> {
    let mut out: Vec<u8> = Vec::new();
    out.extend_from_slice(b"d8:intervali1800e5:peers");
    out.extend_from_slice(format!("{}:", peers.len()).as_bytes());
    out.extend_from_slice(peers);
    out.push(b'e');
    out
}

#[test]
fn parse_compact_peer_list() {
    let body = body_with_peers(&[127, 0, 0, 1, 0x1A, 0xE1, 10, 0, 0, 2, 0, 80]);
    let t = TrackerResponse::from_bytes(&body).expect("compact body parses");
    assert_eq!(t.interval, 1800);
    let peers = t.get_peers();
    assert_eq!(peers, vec!["127.0.0.1:6881".to_string(), "10.0.0.2:80".to_string()]);
}

#[test]
fn reject_empty_peer_list() {
    let body = body_with_peers(&[]);
    assert_eq!(
        TrackerResponse::from_bytes(&body),
        Err(TrackerError::NoPeers)
    );
}

#[test]
fn reject_ragged_peer_list() {
    let body = body_with_peers(&[127, 0, 0, 1, 0x1A]);
    assert_eq!(
        TrackerResponse::from_bytes(&body),
        Err(TrackerError::BadBody)
    );
}

#[test]
fn reject_missing_interval() {
    let mut body: Vec<u8> = Vec::new();
    body.extend_from_slice(b"d5:peers6:");
    body.extend_from_slice(&[127, 0, 0, 1, 0, 80]);
    body.push(b'e');
    assert_eq!(
        TrackerResponse::from_bytes(&body),
        Err(TrackerError::BadBody)
    );
}

#[test]
fn reject_non_compact_body() {
    // a `peers` list of dictionaries instead of the compact byte string
    let body = b"d8:intervali1800e5:peersld2:ip9:127.0.0.14:porti80eeee";
    assert_eq!(
        TrackerResponse::from_bytes(body),
        Err(TrackerError::BadBody)
    );
}

#[test]
fn reject_non_bencode_body() {
    assert_eq!(
        TrackerResponse::from_bytes(b"<html>"),
        Err(TrackerError::BadBody)
    );
}

#[test]
fn decimal_rendering() {
    assert_eq!(u64_to_string(0), "0");
    assert_eq!(u64_to_string(7), "7");
    assert_eq!(u64_to_string(65535), "65535");
    assert_eq!(u64_to_string(u64::MAX), "18446744073709551615");
}

#[test]
fn announce_query_string() {
    let info_hash = [0x11u8; 20];
    let q = tracker_query(&info_hash, 81920);
    let expected = format!(
        "?info_hash={}&peer_id=00112233445566778899&port=6881&uploaded=0&downloaded=0&left=81920&compact=1",
        "%11".repeat(20)
    );
    assert_eq!(q, expected);
}

#[test]
fn peer_id_is_twenty_ascii_digits() {
    let id = peer_id_bytes();
    assert_eq!(id, b"00112233445566778899".to_vec());
}
