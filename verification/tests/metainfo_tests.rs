use bittorrent_client::bencode::BencodeError;
use bittorrent_client::download::{DownloadError, Piece};
use bittorrent_client::metainfo::{check_piece, Info, MetainfoError, TorrentMetadata};

/// A canonical single-file torrent: `length` 81920, `piece length` 32768,
/// three pieces (the last one 16384 bytes), hashes filled with 1s, 2s, 3s.
fn sample_torrent_bytes() -> Vec<u8> {
    let mut out: Vec<u8> = Vec::new();
    out.extend_from_slice(b"d8:announce20:http://example.org/a4:infod6:lengthi81920e4:name8:file.bin12:piece lengthi32768e6:pieces60:");
    out.extend_from_slice(&[1u8; 20]);
    out.extend_from_slice(&[2u8; 20]);
    out.extend_from_slice(&[3u8; 20]);
    out.extend_from_slice(b"ee");
    out
}

#[test]
fn parse_sample_torrent() {
    let t = TorrentMetadata::from_bytes(&sample_torrent_bytes()).expect("sample must parse");
    assert_eq!(t.announce, b"http://example.org/a".to_vec());
    assert_eq!(t.info.name, b"file.bin".to_vec());
    assert_eq!(t.info.piece_length, 32768);
    assert_eq!(t.info.length, Some(81920));
    assert_eq!(t.info.pieces.len(), 60);
    assert_eq!(t.info.get_pieces_count(), 3);
}

#[test]
fn piece_hashes_split_in_twenties() {
    let t = TorrentMetadata::from_bytes(&sample_torrent_bytes()).unwrap();
    let hashes = t.info.get_piece_hashes();
    assert_eq!(hashes.len(), 3);
    assert_eq!(hashes[0], vec![1u8; 20]);
    assert_eq!(hashes[1], vec![2u8; 20]);
    assert_eq!(hashes[2], vec![3u8; 20]);
    assert_eq!(t.info.piece_hash(1), vec![2u8; 20]);
    let strs = t.info.get_piece_hashes_str();
    assert_eq!(strs[0], "0101010101010101010101010101010101010101");
}

#[test]
fn last_piece_takes_the_remainder() {
    let t = TorrentMetadata::from_bytes(&sample_torrent_bytes()).unwrap();
    assert_eq!(t.info.piece_length_at(0), 32768);
    assert_eq!(t.info.piece_length_at(1), 32768);
    // 81920 - 2 * 32768
    assert_eq!(t.info.piece_length_at(2), 16384);
}

#[test]
fn info_hash_matches_direct_digest() {
    // re-encoding the parsed `info` canonically and hashing it must agree
    // with the sha1 crate applied to the original sub-document bytes
    let t = TorrentMetadata::from_bytes(&sample_torrent_bytes()).unwrap();
    let mut info_bytes: Vec<u8> = Vec::new();
    info_bytes.extend_from_slice(b"d6:lengthi81920e4:name8:file.bin12:piece lengthi32768e6:pieces60:");
    info_bytes.extend_from_slice(&[1u8; 20]);
    info_bytes.extend_from_slice(&[2u8; 20]);
    info_bytes.extend_from_slice(&[3u8; 20]);
    info_bytes.extend_from_slice(b"e");
    let direct: [u8; 20] = <sha1::Sha1 as sha1::Digest>::digest(&info_bytes).into();
    assert_eq!(t.info.hash_bytes(), direct);
    let hex: Vec<String> = direct.iter().map(|b| format!("{:02x}", b)).collect();
    assert_eq!(t.info.hash_str(), hex.join(""));
}

#[test]
fn info_hash_is_stable_across_calls() {
    let t = TorrentMetadata::from_bytes(&sample_torrent_bytes()).unwrap();
    assert_eq!(t.info.hash_bytes(), t.info.hash_bytes());
    assert_eq!(t.info.hash_str(), t.info.hash_str());
}

#[test]
fn hash_of_directly_built_info() {
    let info = Info {
        name: b"x".to_vec(),
        pieces: vec![0xAAu8; 20],
        piece_length: 32768,
        length: Some(20000),
    };
    let mut expected_encoding: Vec<u8> = Vec::new();
    expected_encoding
        .extend_from_slice(b"d6:lengthi20000e4:name1:x12:piece lengthi32768e6:pieces20:");
    expected_encoding.extend_from_slice(&[0xAAu8; 20]);
    expected_encoding.extend_from_slice(b"e");
    let direct: [u8; 20] = <sha1::Sha1 as sha1::Digest>::digest(&expected_encoding).into();
    assert_eq!(info.hash_bytes(), direct);
}

#[test]
fn accepted_piece_matches_metainfo_hash() {
    // two pieces: a full one of 0x61 bytes and a 100-byte tail of 0x62 bytes
    let piece0 = vec![0x61u8; 16384];
    let piece1 = vec![0x62u8; 100];
    let h0: [u8; 20] = <sha1::Sha1 as sha1::Digest>::digest(&piece0).into();
    let h1: [u8; 20] = <sha1::Sha1 as sha1::Digest>::digest(&piece1).into();
    let mut pieces: Vec<u8> = Vec::new();
    pieces.extend_from_slice(&h0);
    pieces.extend_from_slice(&h1);
    let info = Info {
        name: b"f".to_vec(),
        pieces,
        piece_length: 16384,
        length: Some(16484),
    };

    let p0 = Piece { piece_index: 0, piece_data: piece0 };
    let p1 = Piece { piece_index: 1, piece_data: piece1.clone() };
    assert!(check_piece(&info, &p0, 0).is_ok());
    assert!(check_piece(&info, &p1, 1).is_ok());

    // a corrupted download of piece 1 is refused, naming what was expected
    let mut corrupted = piece1;
    corrupted[0] ^= 1;
    let bad = Piece { piece_index: 1, piece_data: corrupted.clone() };
    match check_piece(&info, &bad, 1) {
        Err(DownloadError::PieceHashMismatch(index, expected, got)) => {
            assert_eq!(index, 1);
            assert_eq!(expected, h1.to_vec());
            let bad_hash: [u8; 20] = <sha1::Sha1 as sha1::Digest>::digest(&corrupted).into();
            assert_eq!(got, bad_hash.to_vec());
        },
        other => panic!("expected a hash mismatch, got {:?}", other),
    }
}

#[test]
fn reject_missing_announce() {
    let bytes = b"d4:infod6:lengthi1e4:name1:x12:piece lengthi1e6:pieces20:aaaaaaaaaaaaaaaaaaaaee";
    assert_eq!(
        TorrentMetadata::from_bytes(bytes),
        Err(MetainfoError::MissingKey)
    );
}

#[test]
fn reject_missing_pieces() {
    let bytes = b"d8:announce1:u4:infod6:lengthi1e4:name1:x12:piece lengthi1eee";
    assert_eq!(
        TorrentMetadata::from_bytes(bytes),
        Err(MetainfoError::MissingKey)
    );
}

#[test]
fn reject_non_dict_top_level() {
    assert_eq!(
        TorrentMetadata::from_bytes(b"li1ee"),
        Err(MetainfoError::NotDict)
    );
}

#[test]
fn reject_trailing_bytes() {
    let mut bytes = sample_torrent_bytes();
    bytes.push(b'x');
    assert_eq!(
        TorrentMetadata::from_bytes(&bytes),
        Err(MetainfoError::TrailingBytes)
    );
}

#[test]
fn reject_malformed_bencode() {
    assert_eq!(
        TorrentMetadata::from_bytes(b"d8:announce"),
        Err(MetainfoError::Decode(BencodeError::Truncated))
    );
}

#[test]
fn reject_wrong_type_for_length() {
    let bytes =
        b"d8:announce1:u4:infod6:length1:y4:name1:x12:piece lengthi1e6:pieces20:aaaaaaaaaaaaaaaaaaaaee";
    assert_eq!(
        TorrentMetadata::from_bytes(bytes),
        Err(MetainfoError::WrongType)
    );
}

#[test]
fn reject_ragged_pieces_string() {
    let bytes =
        b"d8:announce1:u4:infod6:lengthi1e4:name1:x12:piece lengthi1e6:pieces3:abcee";
    assert_eq!(
        TorrentMetadata::from_bytes(bytes),
        Err(MetainfoError::BadPiecesLength)
    );
}

#[test]
fn reject_piece_count_mismatch() {
    // length 3, piece length 1: three pieces owed, two hashes given
    let mut bytes: Vec<u8> = Vec::new();
    bytes.extend_from_slice(b"d8:announce1:u4:infod6:lengthi3e4:name1:x12:piece lengthi1e6:pieces40:");
    bytes.extend_from_slice(&[7u8; 40]);
    bytes.extend_from_slice(b"ee");
    assert_eq!(
        TorrentMetadata::from_bytes(&bytes),
        Err(MetainfoError::LengthMismatch)
    );
}
