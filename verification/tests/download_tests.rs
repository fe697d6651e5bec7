use bittorrent_client::download::{
    actual_piece_length, block_count_exec, block_len_exec, piece_count_exec, piece_write_offset,
    DownloadError, Piece, PieceDownload,
};
use bittorrent_client::peer::Block;

fn block_of(piece_index: u32, offset: u32, data: Vec<u8>) -> Block {
    Block { piece_index, block_byte_offset: offset, block_data: data }
}

/// Feeds one whole piece through the pipeline with depth `w`, serving each
/// round's responses in the given rotation, and returns the piece bytes.
fn run_pipeline(piece_length: u32, w: usize, rotate: usize) -> Vec<u8> {
    let mut dl = PieceDownload::new(7, piece_length);
    loop {
        let requests = dl.next_requests(w);
        if requests.is_empty() {
            break;
        }
        // answer the requests of this round in a shuffled order
        let mut order: Vec<usize> = (0..requests.len()).collect();
        let shift = rotate % order.len();
        order.rotate_left(shift);
        for &i in &order {
            let r = &requests[i];
            let fill = (r.block_byte_offset / 16384) as u8;
            let data = vec![fill; r.block_length as usize];
            dl.accept_block(block_of(7, r.block_byte_offset, data))
                .expect("a block answering a request is accepted");
        }
    }
    assert!(dl.is_complete());
    let piece = dl.assemble();
    assert_eq!(piece.piece_index, 7);
    piece.piece_data
}

#[test]
fn block_partition_of_a_piece() {
    assert_eq!(block_count_exec(16384), 1);
    assert_eq!(block_count_exec(16385), 2);
    assert_eq!(block_count_exec(32768), 2);
    assert_eq!(block_count_exec(40000), 3);
    assert_eq!(block_len_exec(40000, 0), 16384);
    assert_eq!(block_len_exec(40000, 1), 16384);
    assert_eq!(block_len_exec(40000, 2), 40000 - 2 * 16384);
}

#[test]
fn sixteen_blocks_with_depth_five_run_in_rounds() {
    // a piece of 16 full blocks: rounds of 5, 5, 5 and 1
    let piece_length: u32 = 16 * 16384;
    let mut dl = PieceDownload::new(0, piece_length);
    let mut round_sizes: Vec<usize> = Vec::new();
    loop {
        let requests = dl.next_requests(5);
        if requests.is_empty() {
            break;
        }
        round_sizes.push(requests.len());
        for r in &requests {
            assert_eq!(r.piece_index, 0);
            assert_eq!(r.block_length, 16384);
            dl.accept_block(block_of(0, r.block_byte_offset, vec![0; 16384]))
                .unwrap();
        }
    }
    assert_eq!(round_sizes, vec![5, 5, 5, 1]);
}

#[test]
fn reassembly_ignores_arrival_order() {
    let piece_length: u32 = 16 * 16384;
    let in_order = run_pipeline(piece_length, 5, 0);
    let rotated = run_pipeline(piece_length, 5, 3);
    assert_eq!(in_order.len(), piece_length as usize);
    assert_eq!(in_order, rotated);
    // block k's bytes sit at offset k * 16384
    for k in 0..16u32 {
        let start = (k * 16384) as usize;
        assert!(in_order[start..start + 16384].iter().all(|&b| b == k as u8));
    }
}

#[test]
fn pipeline_depth_does_not_change_the_bytes() {
    // a short last block: 2 full blocks and one of 100 bytes
    let piece_length: u32 = 2 * 16384 + 100;
    let with_depth_one = run_pipeline(piece_length, 1, 0);
    let with_depth_sixteen = run_pipeline(piece_length, 16, 1);
    assert_eq!(with_depth_one, with_depth_sixteen);
    assert_eq!(with_depth_one.len(), piece_length as usize);
}

#[test]
fn blocks_for_a_foreign_piece_are_rejected() {
    let mut dl = PieceDownload::new(1, 16384);
    dl.next_requests(5);
    assert_eq!(
        dl.accept_block(block_of(2, 0, vec![0; 16384])),
        Err(DownloadError::WrongPiece(2, 1))
    );
}

#[test]
fn blocks_nobody_requested_are_rejected() {
    let mut dl = PieceDownload::new(1, 3 * 16384);
    dl.next_requests(1);
    // offset not on a block boundary
    assert_eq!(
        dl.accept_block(block_of(1, 5, vec![0; 16384])),
        Err(DownloadError::UnexpectedBlock(5))
    );
    // block not requested yet
    assert_eq!(
        dl.accept_block(block_of(1, 16384, vec![0; 16384])),
        Err(DownloadError::UnexpectedBlock(16384))
    );
    // duplicate of an already answered block
    dl.accept_block(block_of(1, 0, vec![0; 16384])).unwrap();
    assert_eq!(
        dl.accept_block(block_of(1, 0, vec![0; 16384])),
        Err(DownloadError::UnexpectedBlock(0))
    );
}

#[test]
fn blocks_of_the_wrong_size_are_rejected() {
    let mut dl = PieceDownload::new(1, 16384);
    dl.next_requests(1);
    assert_eq!(
        dl.accept_block(block_of(1, 0, vec![0; 100])),
        Err(DownloadError::BadBlockLength(100, 16384))
    );
}

#[test]
fn piece_from_blocks_concatenates_by_offset() {
    let blocks_shuffled = vec![
        block_of(3, 2 * 16384, vec![2u8; 50]),
        block_of(3, 0, vec![0u8; 16384]),
        block_of(3, 16384, vec![1u8; 16384]),
    ];
    let piece = Piece::from(blocks_shuffled);
    assert_eq!(piece.piece_index, 3);
    assert_eq!(piece.piece_data.len(), 2 * 16384 + 50);
    assert!(piece.piece_data[..16384].iter().all(|&b| b == 0));
    assert!(piece.piece_data[16384..2 * 16384].iter().all(|&b| b == 1));
    assert!(piece.piece_data[2 * 16384..].iter().all(|&b| b == 2));

    let blocks_in_order = vec![
        block_of(3, 0, vec![0u8; 16384]),
        block_of(3, 16384, vec![1u8; 16384]),
        block_of(3, 2 * 16384, vec![2u8; 50]),
    ];
    assert_eq!(Piece::from(blocks_in_order).piece_data, piece.piece_data);
}

#[test]
fn verification_accepts_the_true_hash() {
    let piece = Piece { piece_index: 0, piece_data: b"hello".to_vec() };
    let expected: [u8; 20] = <sha1::Sha1 as sha1::Digest>::digest(b"hello").into();
    assert!(piece.verify(&expected.to_vec()).is_ok());
}

#[test]
fn verification_names_a_mismatch() {
    let piece = Piece { piece_index: 9, piece_data: b"hello".to_vec() };
    let mut wrong: [u8; 20] = <sha1::Sha1 as sha1::Digest>::digest(b"hello").into();
    wrong[0] ^= 1;
    match piece.verify(&wrong.to_vec()) {
        Err(DownloadError::PieceHashMismatch(index, expected, got)) => {
            assert_eq!(index, 9);
            assert_eq!(expected, wrong.to_vec());
            let true_hash: [u8; 20] = <sha1::Sha1 as sha1::Digest>::digest(b"hello").into();
            assert_eq!(got, true_hash.to_vec());
        },
        other => panic!("expected a hash mismatch, got {:?}", other),
    }
}

#[test]
fn piece_partition_of_the_file() {
    // length 81920, piece length 32768: three pieces, the last 16384 bytes
    assert_eq!(piece_count_exec(81920, 32768), 3);
    assert_eq!(actual_piece_length(81920, 32768, 0), 32768);
    assert_eq!(actual_piece_length(81920, 32768, 1), 32768);
    assert_eq!(actual_piece_length(81920, 32768, 2), 16384);
    // a file shorter than one piece
    assert_eq!(piece_count_exec(5, 32768), 1);
    assert_eq!(actual_piece_length(5, 32768, 0), 5);
}

#[test]
fn whole_file_from_positional_writes() {
    // a 3-piece file: piece length 32768, length 81920, the last piece
    // 16384 bytes; every piece arrives through the pipeline and lands at
    // its absolute offset
    let length: u32 = 81920;
    let piece_length: u32 = 32768;
    let count = piece_count_exec(length, piece_length);
    assert_eq!(count, 3);

    let mut file = vec![0u8; length as usize];
    let mut expected_concat: Vec<u8> = Vec::new();
    for piece_index in 0..count {
        let piece_len = actual_piece_length(length, piece_length, piece_index);
        let mut dl = PieceDownload::new(piece_index, piece_len);
        loop {
            let requests = dl.next_requests(5);
            if requests.is_empty() {
                break;
            }
            for r in requests.iter().rev() {
                let fill = (piece_index as u8) * 16 + (r.block_byte_offset / 16384) as u8;
                dl.accept_block(block_of(
                    piece_index,
                    r.block_byte_offset,
                    vec![fill; r.block_length as usize],
                ))
                .unwrap();
            }
        }
        let piece = dl.assemble();
        expected_concat.extend_from_slice(&piece.piece_data);
        let offset = piece_write_offset(piece_index, piece_length) as usize;
        file[offset..offset + piece.piece_data.len()].copy_from_slice(&piece.piece_data);
    }

    assert_eq!(file.len(), 81920);
    assert_eq!(file, expected_concat);
    let file_hash: [u8; 20] = <sha1::Sha1 as sha1::Digest>::digest(&file).into();
    let concat_hash: [u8; 20] = <sha1::Sha1 as sha1::Digest>::digest(&expected_concat).into();
    assert_eq!(file_hash, concat_hash);
}
