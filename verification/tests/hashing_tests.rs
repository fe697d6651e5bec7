use bittorrent_client::download::Piece;
use bittorrent_client::hashing::{to_hex_string, urlencode_hash};

fn hash_hex_of(data: &[u8]) -> String {
    let piece = Piece { piece_index: 0, piece_data: data.to_vec() };
    to_hex_string(&piece.get_hash())
}

#[test]
fn sha1_of_known_vector() {
    // the well-known digest of "abc"
    assert_eq!(hash_hex_of(b"abc"), "a9993e364706816aba3e25717850c26c9cd0d89d");
}

#[test]
fn sha1_of_empty_input() {
    assert_eq!(hash_hex_of(b""), "da39a3ee5e6b4b0d3255bfef95601890afd80709");
}

#[test]
fn piece_hash_matches_direct_digest() {
    // the library's hash of a piece must agree with the sha1 crate used
    // directly on the same bytes
    let data: Vec<u8> = (0u8..=255).collect();
    let piece = Piece { piece_index: 0, piece_data: data.clone() };
    let direct: [u8; 20] = <sha1::Sha1 as sha1::Digest>::digest(&data).into();
    assert_eq!(piece.get_hash(), direct.to_vec());
}

#[test]
fn hex_string_of_bytes() {
    assert_eq!(to_hex_string(&[0x00, 0x0f, 0xff]), "000fff");
    assert_eq!(to_hex_string(&[]), "");
    assert_eq!(to_hex_string(&[0xbe, 0xef]), "beef");
}

#[test]
fn urlencode_passes_unreserved_bytes() {
    let mut hash = [0u8; 20];
    let sample = *b"aZ9-._~aZ9-._~aZ9-._";
    hash.copy_from_slice(&sample);
    assert_eq!(urlencode_hash(&hash), "aZ9-._~aZ9-._~aZ9-._");
}

#[test]
fn urlencode_escapes_other_bytes_uppercase() {
    let mut hash = [0x12u8; 20];
    hash[1] = 0x34; // the byte '4', unreserved, passes literally
    hash[2] = 0xAB;
    hash[3] = 0x00;
    hash[4] = 0xFF;
    let s = urlencode_hash(&hash);
    assert!(s.starts_with("%124%AB%00%FF"));
    assert_eq!(s.len(), 1 + 3 * 19);
}
