//! The piece pipeline: splitting a piece into 16 KiB blocks, scheduling
//! pipelined requests, reassembling out-of-order block responses by offset,
//! and verifying the piece hash.

use vstd::prelude::*;
use vstd::arithmetic::div_mod::lemma_fundamental_div_mod;

use crate::hashing::sha1_of;
use crate::hashing::calculate_hash;
use crate::hashing::copy_bytes;
use crate::peer::Block;
use crate::peer::BlockRequestPayload;

verus! {

/// The standard block size: 16 KiB.
pub const BLOCK_SIZE: u32 = 16384;

/// A failure while assembling or verifying a piece.
#[derive(Debug, PartialEq, Eq)]
pub enum DownloadError {
    /// A block arrived for a different piece: `(got, expected)`.
    WrongPiece(u32, u32),
    /// A block offset that matches no outstanding request.
    UnexpectedBlock(u32),
    /// A block whose data length differs from the requested one:
    /// `(got, expected)`.
    BadBlockLength(usize, u32),
    /// The assembled piece hashed differently from the metainfo's
    /// expectation: `(index, expected, got)`.
    PieceHashMismatch(u32, Vec<u8>, Vec<u8>),
}

/// How many blocks a piece of this length splits into: the last block may be
/// short, every other is exactly `BLOCK_SIZE`.
pub open spec fn spec_block_count(piece_length: int) -> int {
    (piece_length + 16383) / 16384
}

/// The length of block `k` of a piece: `BLOCK_SIZE`, except for the last
/// block, which takes the remainder.
pub open spec fn spec_block_len(piece_length: int, k: int) -> int {
    if piece_length - k * 16384 >= 16384 {
        16384
    } else {
        piece_length - k * 16384
    }
}

/// The block partition of a piece: `(offset, length)` per block, ascending.
pub open spec fn spec_blocks(piece_length: int) -> Seq<(int, int)> {
    Seq::new(spec_block_count(piece_length) as nat, |k: int| (k * 16384, spec_block_len(piece_length, k)))
}

/// Basic facts about the block partition of a piece.
pub proof fn lemma_block_facts(piece_length: int, k: int)
    requires
        piece_length >= 1,
        0 <= k < spec_block_count(piece_length),
    ensures
        k * 16384 < piece_length,
        1 <= spec_block_len(piece_length, k) <= 16384,
        k * 16384 + spec_block_len(piece_length, k) <= piece_length,
        k < spec_block_count(piece_length) - 1 ==> spec_block_len(piece_length, k) == 16384,
        k == spec_block_count(piece_length) - 1 ==> k * 16384 + spec_block_len(piece_length, k)
            == piece_length,
{
    lemma_block_count_bounds(piece_length);
    let c = spec_block_count(piece_length);
    assert((c - 1) * 16384 == c * 16384 - 16384) by (nonlinear_arith);
    assert(k <= c - 1);
    assert(k * 16384 <= (c - 1) * 16384) by (nonlinear_arith)
        requires k <= c - 1;
    if k < c - 1 {
        assert(k * 16384 + 16384 == (k + 1) * 16384) by (nonlinear_arith);
        assert((k + 1) * 16384 <= (c - 1) * 16384) by (nonlinear_arith)
            requires k + 1 <= c - 1;
    }
}

/// The piece length sits strictly above `(count - 1) * BLOCK_SIZE` and at
/// most at `count * BLOCK_SIZE`.
pub proof fn lemma_block_count_bounds(piece_length: int)
    requires
        piece_length >= 1,
    ensures
        (spec_block_count(piece_length) - 1) * 16384 < piece_length,
        piece_length <= spec_block_count(piece_length) * 16384,
        spec_block_count(piece_length) >= 1,
{
    let c = spec_block_count(piece_length);
    lemma_fundamental_div_mod(piece_length + 16383, 16384);
    assert(piece_length + 16383 == 16384 * c + ((piece_length + 16383) % 16384));
    assert((c - 1) * 16384 == c * 16384 - 16384) by (nonlinear_arith);
}

/// The number of filled slots in a sequence of optional block payloads.
pub open spec fn count_some(s: Seq<Option<Vec<u8>>>) -> int
    decreases s.len(),
{
    if s.len() == 0 {
        0
    } else {
        count_some(s.drop_last()) + if s.last() is Some {
            1int
        } else {
            0int
        }
    }
}

pub proof fn lemma_count_some_bounds(s: Seq<Option<Vec<u8>>>)
    ensures
        0 <= count_some(s) <= s.len(),
    decreases s.len(),
{
    if s.len() > 0 {
        lemma_count_some_bounds(s.drop_last());
    }
}

/// Filling an empty slot raises the count by one.
pub proof fn lemma_count_some_update(s: Seq<Option<Vec<u8>>>, k: int, d: Vec<u8>)
    requires
        0 <= k < s.len(),
        s[k] is None,
    ensures
        count_some(s.update(k, Some(d))) == count_some(s) + 1,
    decreases s.len(),
{
    let t = s.update(k, Some(d));
    if k == s.len() - 1 {
        assert(t.drop_last() =~= s.drop_last());
    } else {
        assert(t.drop_last() =~= s.drop_last().update(k, Some(d)));
        lemma_count_some_update(s.drop_last(), k, d);
    }
}

/// When every slot counts, every slot is filled.
pub proof fn lemma_count_some_full(s: Seq<Option<Vec<u8>>>, k: int)
    requires
        count_some(s) == s.len(),
        0 <= k < s.len(),
    ensures
        s[k] is Some,
    decreases s.len(),
{
    lemma_count_some_bounds(s.drop_last());
    if k < s.len() - 1 {
        lemma_count_some_full(s.drop_last(), k);
    }
}

/// A piece under construction: the mapping from block offset to received
/// bytes, plus which blocks have been requested so far. Blocks are requested
/// in ascending offset order; responses may arrive in any order.
pub struct PieceDownload {
    pub piece_index: u32,
    pub piece_length: u32,
    /// Blocks `0 .. next_block` have been requested.
    pub next_block: u32,
    /// How many blocks have arrived.
    pub received_count: u32,
    /// One slot per block of the piece, filled as responses arrive.
    pub received: Vec<Option<Vec<u8>>>,
}

impl PieceDownload {
    /// The number of blocks of this piece.
    pub open spec fn spec_count(&self) -> int {
        spec_block_count(self.piece_length as int)
    }

    pub open spec fn wf(&self) -> bool {
        &&& self.piece_length >= 1
        &&& self.received@.len() == self.spec_count()
        &&& self.next_block <= self.spec_count()
        &&& self.received_count == count_some(self.received@)
        &&& forall|k: int|
            0 <= k < self.received@.len() ==> (#[trigger] self.received@[k] matches Some(d) ==> k
                < self.next_block && d@.len() == spec_block_len(self.piece_length as int, k))
    }

    /// Every block has arrived.
    pub open spec fn spec_complete(&self) -> bool {
        self.received_count == self.spec_count()
    }

    /// Starts an empty piece download.
    pub fn new(piece_index: u32, piece_length: u32) -> (r: Self)
        requires
            piece_length >= 1,
        ensures
            r.wf(),
            r.piece_index == piece_index,
            r.piece_length == piece_length,
            r.next_block == 0,
            r.received_count == 0,
    {
        proof {
            lemma_block_count_bounds(piece_length as int);
        }
        let count = block_count_exec(piece_length) as usize;
        let mut received: Vec<Option<Vec<u8>>> = Vec::new();
        let mut k: usize = 0;
        while k < count
            invariant
                k <= count,
                received@.len() == k,
                forall|m: int| 0 <= m < k ==> received@[m] is None,
            decreases count - k,
        {
            received.push(Option::None);
            k = k + 1;
        }
        proof {
            lemma_count_some_all_none(received@);
        }
        PieceDownload { piece_index, piece_length, next_block: 0, received_count: 0, received }
    }

    /// Up to `w` request payloads for the blocks after those already
    /// requested, in ascending offset order; fewer when fewer remain.
    pub fn next_requests(&mut self, w: usize) -> (r: Vec<BlockRequestPayload>)
        requires
            old(self).wf(),
        ensures
            final(self).wf(),
            final(self).piece_index == old(self).piece_index,
            final(self).piece_length == old(self).piece_length,
            final(self).received == old(self).received,
            final(self).received_count == old(self).received_count,
            r@.len() == vstd::math::min(w as int, old(self).spec_count() - old(self).next_block),
            final(self).next_block == old(self).next_block + r@.len(),
            forall|i: int|
                0 <= i < r@.len() ==> {
                    let k = old(self).next_block + i;
                    (#[trigger] r@[i]).piece_index == old(self).piece_index && r@[i].block_byte_offset
                        == k * 16384 && r@[i].block_length == spec_block_len(
                        old(self).piece_length as int,
                        k,
                    )
                },
    {
        let count = block_count_exec(self.piece_length);
        let mut r: Vec<BlockRequestPayload> = Vec::new();
        let mut sent: usize = 0;
        while sent < w && self.next_block < count
            invariant
                old(self).wf(),
                count == old(self).spec_count(),
                sent <= w,
                self.piece_index == old(self).piece_index,
                self.piece_length == old(self).piece_length,
                self.received == old(self).received,
                self.received_count == old(self).received_count,
                r@.len() == sent,
                self.next_block == old(self).next_block + sent,
                self.next_block <= count,
                forall|i: int|
                    0 <= i < r@.len() ==> {
                        let k = old(self).next_block + i;
                        (#[trigger] r@[i]).piece_index == old(self).piece_index
                            && r@[i].block_byte_offset == k * 16384 && r@[i].block_length
                            == spec_block_len(old(self).piece_length as int, k)
                    },
            decreases w - sent,
        {
            let k = self.next_block;
            proof {
                lemma_block_facts(self.piece_length as int, k as int);
            }
            let offset: u32 = k * BLOCK_SIZE;
            let length: u32 = block_len_exec(self.piece_length, k);
            r.push(
                BlockRequestPayload {
                    piece_index: self.piece_index,
                    block_byte_offset: offset,
                    block_length: length,
                },
            );
            self.next_block = k + 1;
            sent = sent + 1;
        }
        r
    }

    /// Takes one arrived block. It must belong to this piece, land on an
    /// outstanding request's offset, and carry exactly the requested number
    /// of bytes; otherwise the state is unchanged and the offence is named.
    pub fn accept_block(&mut self, block: Block) -> (r: Result<(), DownloadError>)
        requires
            old(self).wf(),
        ensures
            final(self).wf(),
            final(self).piece_index == old(self).piece_index,
            final(self).piece_length == old(self).piece_length,
            final(self).next_block == old(self).next_block,
            match r {
                Ok(_) => {
                    let k = block.block_byte_offset as int / 16384;
                    &&& block.piece_index == old(self).piece_index
                    &&& block.block_byte_offset as int % 16384 == 0
                    &&& 0 <= k < old(self).next_block
                    &&& old(self).received@[k] is None
                    &&& block.block_data@.len() == spec_block_len(old(self).piece_length as int, k)
                    &&& final(self).received@ == old(self).received@.update(
                        k,
                        Some(block.block_data),
                    )
                    &&& final(self).received_count == old(self).received_count + 1
                },
                Err(e) => {
                    &&& *final(self) == *old(self)
                    &&& (e matches DownloadError::WrongPiece(g, w) ==> g == block.piece_index && w
                        == old(self).piece_index && block.piece_index != old(self).piece_index)
                    &&& (e matches DownloadError::UnexpectedBlock(o) ==> o
                        == block.block_byte_offset && block.piece_index == old(self).piece_index && (
                    block.block_byte_offset as int % 16384 != 0 || block.block_byte_offset as int
                        / 16384 >= old(self).next_block || old(self).received@[block.block_byte_offset as int
                        / 16384] is Some))
                    &&& (e matches DownloadError::BadBlockLength(g, w) ==> g
                        == block.block_data@.len() && w == spec_block_len(
                        old(self).piece_length as int,
                        block.block_byte_offset as int / 16384,
                    ) && g != w && block.piece_index == old(self).piece_index)
                    &&& (e matches DownloadError::PieceHashMismatch(x, y, z) ==> false)
                },
            },
    {
        if block.piece_index != self.piece_index {
            return Err(DownloadError::WrongPiece(block.piece_index, self.piece_index));
        }
        let offset = block.block_byte_offset;
        if offset % BLOCK_SIZE != 0 {
            return Err(DownloadError::UnexpectedBlock(offset));
        }
        let k: u32 = offset / BLOCK_SIZE;
        if k >= self.next_block {
            return Err(DownloadError::UnexpectedBlock(offset));
        }
        proof {
            lemma_count_some_bounds(self.received@);
        }
        let slot_filled = match &self.received[k as usize] {
            Some(_) => true,
            None => false,
        };
        if slot_filled {
            return Err(DownloadError::UnexpectedBlock(offset));
        }
        let expected = block_len_exec(self.piece_length, k);
        if block.block_data.len() as u64 != expected as u64 {
            proof {
                lemma_block_facts(self.piece_length as int, k as int);
            }
            return Err(DownloadError::BadBlockLength(block.block_data.len(), expected));
        }
        proof {
            lemma_count_some_update(self.received@, k as int, block.block_data);
            lemma_count_some_missing(self.received@, k as int);
        }
        self.received.set(k as usize, Some(block.block_data));
        self.received_count = self.received_count + 1;
        Ok(())
    }

    /// Whether every block of the piece has arrived.
    pub fn is_complete(&self) -> (r: bool)
        requires
            self.wf(),
        ensures
            r == self.spec_complete(),
    {
        let count = block_count_exec(self.piece_length);
        self.received_count == count
    }
}

/// A sequence with an empty slot counts at most all the others.
proof fn lemma_count_some_missing(s: Seq<Option<Vec<u8>>>, k: int)
    requires
        0 <= k < s.len(),
        s[k] is None,
    ensures
        count_some(s) <= s.len() - 1,
    decreases s.len(),
{
    lemma_count_some_bounds(s.drop_last());
    if k < s.len() - 1 {
        lemma_count_some_missing(s.drop_last(), k);
    }
}

proof fn lemma_count_some_all_none(s: Seq<Option<Vec<u8>>>)
    requires
        forall|m: int| 0 <= m < s.len() ==> s[m] is None,
    ensures
        count_some(s) == 0,
    decreases s.len(),
{
    if s.len() > 0 {
        lemma_count_some_all_none(s.drop_last());
    }
}

impl PieceDownload {
    /// Concatenates the received blocks in ascending offset order into the
    /// finished piece. Each block's bytes sit at the block's own offset.
    pub fn assemble(&self) -> (r: Piece)
        requires
            self.wf(),
            self.spec_complete(),
        ensures
            r.piece_index == self.piece_index,
            r.piece_data@.len() == self.piece_length,
            forall|k: int|
                0 <= k < self.spec_count() ==> ((#[trigger] self.received@[k]) matches Some(d)
                    && r.piece_data@.subrange(k * 16384, k * 16384 + d@.len()) == d@),
    {
        let count = block_count_exec(self.piece_length) as usize;
        let mut out: Vec<u8> = Vec::new();
        for k in 0..count
            invariant
                self.wf(),
                self.spec_complete(),
                count == self.spec_count(),
                out@.len() == (if (k as int) < count as int {
                    (k as int) * 16384
                } else {
                    self.piece_length as int
                }),
                forall|j: int|
                    0 <= j < k ==> ((#[trigger] self.received@[j]) matches Some(d)
                        && out@.subrange(j * 16384, j * 16384 + d@.len()) == d@),
        {
            proof {
                lemma_count_some_full(self.received@, k as int);
                lemma_block_facts(self.piece_length as int, k as int);
                lemma_block_count_bounds(self.piece_length as int);
                if (k as int) < count as int - 1 {
                    lemma_block_facts(self.piece_length as int, k + 1);
                }
            }
            let ghost mid = out@;
            match &self.received[k] {
                Some(d) => {
                    let n = d.len();
                    for m in 0..n
                        invariant
                            n == d@.len(),
                            out@ == mid + d@.subrange(0, m as int),
                    {
                        out.push(d[m]);
                        assert(out@ =~= mid + d@.subrange(0, m + 1));
                    }
                    proof {
                        assert(d@.subrange(0, n as int) =~= d@);
                        assert forall|j: int| 0 <= j < k + 1 implies ((
                        #[trigger] self.received@[j]) matches Some(dj) && out@.subrange(
                            j * 16384,
                            j * 16384 + dj@.len(),
                        ) == dj@) by {
                            lemma_count_some_full(self.received@, j);
                            let dj = self.received@[j]->0;
                            if j < k {
                                assert((j + 1) * 16384 <= (k as int) * 16384) by (nonlinear_arith)
                                    requires j + 1 <= k as int;
                                assert(j * 16384 + dj@.len() <= mid.len());
                                assert(out@.subrange(j * 16384, j * 16384 + dj@.len())
                                    =~= mid.subrange(j * 16384, j * 16384 + dj@.len()));
                            } else {
                                assert(out@.subrange(k as int * 16384, k as int * 16384 + d@.len())
                                    =~= d@);
                            }
                        }
                    }
                },
                None => {
                    proof {
                        assert(false);
                    }
                },
            }
        }
        Piece { piece_index: self.piece_index, piece_data: out }
    }
}

/// A downloaded piece: its index and its bytes.
#[derive(Debug)]
pub struct Piece {
    pub piece_index: u32,
    pub piece_data: Vec<u8>,
}

/// The offset of the `i`-th block of a sequence of blocks, as an integer.
pub open spec fn block_offset_of(bs: Seq<Block>, i: int) -> int {
    bs[i].block_byte_offset as int
}

/// The total number of bytes carried by a sequence of blocks.
pub open spec fn spec_total_len(bs: Seq<Block>) -> int
    decreases bs.len(),
{
    if bs.len() == 0 {
        0
    } else {
        spec_total_len(bs.drop_last()) + bs.last().block_data@.len()
    }
}

/// The blocks are exactly the partition of one piece of length
/// `piece_length`: one block per offset `k * BLOCK_SIZE`, each with the
/// partition's length for that offset, all for the same piece, no offset
/// twice.
pub open spec fn blocks_form_piece(bs: Seq<Block>, piece_index: u32, piece_length: int) -> bool {
    &&& piece_length >= 1
    &&& bs.len() == spec_block_count(piece_length)
    &&& forall|i: int| 0 <= i < bs.len() ==> (#[trigger] bs[i]).piece_index == piece_index
    &&& forall|i: int|
        0 <= i < bs.len() ==> #[trigger] block_offset_of(bs, i) % 16384 == 0 && block_offset_of(
            bs,
            i,
        ) / 16384 < spec_block_count(piece_length) && bs[i].block_data@.len() == spec_block_len(
            piece_length,
            block_offset_of(bs, i) / 16384,
        )
    &&& forall|i: int, j: int|
        0 <= i < j < bs.len() ==> #[trigger] block_offset_of(bs, i) != #[trigger] block_offset_of(
            bs,
            j,
        )
    &&& forall|k: int|
        0 <= k < spec_block_count(piece_length) ==> #[trigger] has_block_at(bs, k * 16384)
}

/// Some block of `bs` sits at byte offset `off`.
pub open spec fn has_block_at(bs: Seq<Block>, off: int) -> bool {
    exists|i: int| 0 <= i < bs.len() && #[trigger] block_offset_of(bs, i) == off
}

/// `out` is the reassembly of the blocks: as long as all their bytes
/// together, with each block's bytes at the block's own offset.
pub open spec fn spec_assembled(bs: Seq<Block>, out: Seq<u8>) -> bool {
    &&& out.len() == spec_total_len(bs)
    &&& forall|i: int|
        0 <= i < bs.len() ==> out.subrange(
            #[trigger] block_offset_of(bs, i),
            block_offset_of(bs, i) + bs[i].block_data@.len(),
        ) == bs[i].block_data@
}

/// The index of a block of `blocks` sitting at byte offset `off`.
fn find_block(blocks: &Vec<Block>, off: u32) -> (idx: usize)
    requires
        has_block_at(blocks@, off as int),
    ensures
        idx < blocks@.len(),
        block_offset_of(blocks@, idx as int) == off,
{
    let n = blocks.len();
    for j in 0..n
        invariant
            n == blocks@.len(),
            has_block_at(blocks@, off as int),
            forall|m: int| 0 <= m < j ==> #[trigger] block_offset_of(blocks@, m) != off,
    {
        if blocks[j].block_byte_offset == off {
            return j;
        }
    }
    proof {
        assert(false);
    }
    0
}

impl Piece {
    /// Reassembles one piece from its blocks, whatever order they stand in:
    /// each block's bytes end up at the block's own offset, which is
    /// concatenation in ascending offset order.
    pub fn from(blocks: Vec<Block>) -> (r: Piece)
        requires
            blocks@.len() >= 1,
            blocks_form_piece(blocks@, blocks@[0].piece_index, spec_total_len(blocks@)),
            spec_total_len(blocks@) <= u32::MAX,
        ensures
            r.piece_index == blocks@[0].piece_index,
            spec_assembled(blocks@, r.piece_data@),
    {
        let ghost bs = blocks@;
        let ghost pl = spec_total_len(blocks@);
        let count = blocks.len();
        let mut out: Vec<u8> = Vec::new();
        for k in 0..count
            invariant
                blocks@ == bs,
                blocks_form_piece(bs, bs[0].piece_index, pl),
                pl == spec_total_len(bs),
                pl <= u32::MAX,
                count == bs.len(),
                out@.len() == (if (k as int) < count as int {
                    (k as int) * 16384
                } else {
                    pl
                }),
                forall|i: int|
                    0 <= i < bs.len() && #[trigger] block_offset_of(bs, i) < (k as int) * 16384
                        ==> out@.subrange(
                        block_offset_of(bs, i),
                        block_offset_of(bs, i) + bs[i].block_data@.len(),
                    ) == bs[i].block_data@,
        {
            proof {
                lemma_block_count_bounds(pl);
                lemma_block_facts(pl, k as int);
                if (k as int) + 1 < count as int {
                    lemma_block_facts(pl, k as int + 1);
                }
            }
            let off: u32 = (k as u32) * BLOCK_SIZE;
            let idx = find_block(&blocks, off);
            let ghost mid = out@;
            proof {
                // the found block has exactly the partition length for index k
                assert(block_offset_of(bs, idx as int) / 16384 == k as int) by (nonlinear_arith)
                    requires block_offset_of(bs, idx as int) == (k as int) * 16384, 0 <= k as int;
            }
            let n = blocks[idx].block_data.len();
            for m in 0..n
                invariant
                    idx < bs.len(),
                    blocks@ == bs,
                    n == bs[idx as int].block_data@.len(),
                    out@ == mid + bs[idx as int].block_data@.subrange(0, m as int),
            {
                out.push(blocks[idx].block_data[m]);
                assert(out@ =~= mid + bs[idx as int].block_data@.subrange(0, m + 1));
            }
            proof {
                let d = bs[idx as int].block_data@;
                assert(d.subrange(0, n as int) =~= d);
                assert(out@ == mid + d);
                assert forall|i: int|
                    0 <= i < bs.len() && #[trigger] block_offset_of(bs, i) < (k as int + 1) * 16384
                        implies out@.subrange(
                    block_offset_of(bs, i),
                    block_offset_of(bs, i) + bs[i].block_data@.len(),
                ) == bs[i].block_data@ by {
                    let oi = block_offset_of(bs, i);
                    let j = oi / 16384;
                    assert(oi == j * 16384) by {
                        lemma_fundamental_div_mod(oi, 16384);
                    }
                    assert(j <= k as int) by (nonlinear_arith)
                        requires j * 16384 < (k as int + 1) * 16384;
                    if j < k as int {
                        assert(oi < (k as int) * 16384) by (nonlinear_arith)
                            requires oi == j * 16384, j < k as int;
                        lemma_block_facts(pl, j);
                        assert((j + 1) * 16384 <= (k as int) * 16384) by (nonlinear_arith)
                            requires j + 1 <= k as int;
                        assert(oi + bs[i].block_data@.len() <= mid.len());
                        assert(out@.subrange(oi, oi + bs[i].block_data@.len()) =~= mid.subrange(
                            oi,
                            oi + bs[i].block_data@.len(),
                        ));
                    } else {
                        // both i and idx sit at offset k * BLOCK_SIZE, so they
                        // are the same block
                        assert(block_offset_of(bs, i) == block_offset_of(bs, idx as int));
                        assert(i == idx as int);
                        assert(out@.subrange(mid.len() as int, mid.len() as int + d.len() as int)
                            =~= d);
                    }
                }
                assert((k as int + 1) * 16384 == (k as int) * 16384 + 16384) by (nonlinear_arith);
            }
        }
        proof {
            assert forall|i: int| 0 <= i < bs.len() implies #[trigger] block_offset_of(bs, i) < (
            count as int) * 16384 by {
                let j = block_offset_of(bs, i) / 16384;
                lemma_fundamental_div_mod(block_offset_of(bs, i), 16384);
                assert(j * 16384 < (count as int) * 16384) by (nonlinear_arith)
                    requires j < count as int;
            }
        }
        Piece { piece_index: blocks[0].piece_index, piece_data: out }
    }

    /// The SHA-1 of the piece's bytes.
    pub fn get_hash(&self) -> (r: Vec<u8>)
        ensures
            r@ == sha1_of(self.piece_data@),
            r@.len() == 20,
    {
        let h = calculate_hash(self.piece_data.as_slice());
        let mut r: Vec<u8> = Vec::new();
        for k in 0..20usize
            invariant
                h@.len() == 20,
                r@ == h@.subrange(0, k as int),
        {
            r.push(h[k]);
            assert(r@ =~= h@.subrange(0, k + 1));
        }
        proof {
            assert(h@.subrange(0, 20) =~= h@);
        }
        r
    }

    /// Compares the piece's SHA-1 with the 20 bytes the metainfo expects:
    /// success exactly when they agree. The piece's own hash travels in the
    /// error, beside the expected one.
    pub fn verify(&self, expected_hash: &Vec<u8>) -> (r: Result<(), DownloadError>)
        ensures
            match r {
                Ok(_) => sha1_of(self.piece_data@) == expected_hash@,
                Err(e) => sha1_of(self.piece_data@) != expected_hash@ && (
                e matches DownloadError::PieceHashMismatch(i, exp, got) && i == self.piece_index
                    && exp@ == expected_hash@ && got@ == sha1_of(self.piece_data@)),
            },
    {
        let got = self.get_hash();
        let mut equal = got.len() == expected_hash.len();
        if equal {
            let mut k: usize = 0;
            while k < 20
                invariant
                    equal,
                    k <= 20,
                    got@.len() == 20,
                    got@ == sha1_of(self.piece_data@),
                    expected_hash@.len() == 20,
                    forall|m: int| 0 <= m < k ==> got@[m] == expected_hash@[m],
                decreases 20 - k,
            {
                if got[k] != expected_hash[k] {
                    return Err(
                        DownloadError::PieceHashMismatch(
                            self.piece_index,
                            copy_bytes(expected_hash),
                            got,
                        ),
                    );
                }
                k = k + 1;
            }
            proof {
                assert(got@ =~= expected_hash@);
            }
            Ok(())
        } else {
            Err(
                DownloadError::PieceHashMismatch(
                    self.piece_index,
                    copy_bytes(expected_hash),
                    got,
                ),
            )
        }
    }
}

/// Which partition block a byte position of a piece falls into.
pub proof fn lemma_position_in_block(piece_length: int, p: int)
    requires
        piece_length >= 1,
        0 <= p < piece_length,
    ensures
        ({
            let k = p / 16384;
            0 <= k < spec_block_count(piece_length) && k * 16384 <= p && p < k * 16384
                + spec_block_len(piece_length, k)
        }),
{
    let k = p / 16384;
    lemma_fundamental_div_mod(p, 16384);
    vstd::arithmetic::div_mod::lemma_mod_division_less_than_divisor(p, 16384);
    lemma_block_count_bounds(piece_length);
    assert(k < spec_block_count(piece_length)) by (nonlinear_arith)
        requires
            k * 16384 <= p,
            p < piece_length,
            piece_length <= spec_block_count(piece_length) * 16384,
    ;
}

/// The `(offset, data)` pairs a block sequence carries; the multiset of
/// these is what an arrival order cannot change.
pub open spec fn spec_block_pairs(bs: Seq<Block>) -> Seq<(u32, Seq<u8>)> {
    Seq::new(bs.len(), |i: int| (bs[i].block_byte_offset, bs[i].block_data@))
}

/// Block reassembly is permutation-invariant: two block sequences that carry
/// the same multiset of `(offset, data)` pairs, each forming a full piece
/// partition, reassemble to identical piece bytes — the arrival order of the
/// `piece` frames does not matter.
pub proof fn lemma_reassembly_permutation_invariant(
    bs1: Seq<Block>,
    bs2: Seq<Block>,
    pi1: u32,
    pi2: u32,
    out1: Seq<u8>,
    out2: Seq<u8>,
)
    requires
        blocks_form_piece(bs1, pi1, spec_total_len(bs1)),
        blocks_form_piece(bs2, pi2, spec_total_len(bs2)),
        spec_block_pairs(bs1).to_multiset() == spec_block_pairs(bs2).to_multiset(),
        spec_assembled(bs1, out1),
        spec_assembled(bs2, out2),
    ensures
        out1 == out2,
{
    broadcast use vstd::seq_lib::group_to_multiset_ensures;

    let ps1 = spec_block_pairs(bs1);
    let ps2 = spec_block_pairs(bs2);
    let l1 = spec_total_len(bs1);
    let l2 = spec_total_len(bs2);
    let n = bs1.len() as int;
    assert(ps1.len() == ps1.to_multiset().len());
    assert(ps2.len() == ps2.to_multiset().len());
    assert(bs2.len() == n);
    // the two piece lengths agree: compare the final partition block
    assert(has_block_at(bs1, (n - 1) * 16384));
    let i1 = choose|i: int| 0 <= i < bs1.len() && #[trigger] block_offset_of(bs1, i) == (n - 1)
        * 16384;
    let last_pair = ps1[i1];
    assert(ps1[i1] == last_pair);
    assert(ps1.contains(last_pair));
    assert(ps1.to_multiset().count(last_pair) > 0);
    assert(ps2.to_multiset().count(last_pair) > 0);
    assert(ps2.contains(last_pair));
    let j1 = choose|j: int| 0 <= j < ps2.len() && ps2[j] == last_pair;
    assert(block_offset_of(bs2, j1) == (n - 1) * 16384);
    assert(block_offset_of(bs1, i1) / 16384 == n - 1 && block_offset_of(bs2, j1) / 16384 == n - 1)
        by (nonlinear_arith)
        requires
            block_offset_of(bs1, i1) == (n - 1) * 16384,
            block_offset_of(bs2, j1) == (n - 1) * 16384,
            n >= 1,
    ;
    lemma_block_facts(l1, n - 1);
    lemma_block_facts(l2, n - 1);
    assert(bs1[i1].block_data@.len() == spec_block_len(l1, n - 1));
    assert(bs2[j1].block_data@.len() == spec_block_len(l2, n - 1));
    assert(bs2[j1].block_data@ == bs1[i1].block_data@);
    assert(l1 == l2);
    // byte for byte: each position lies in exactly one partition block, and
    // both sides put the block with that offset there
    assert(out1.len() == l1 && out2.len() == l1);
    assert forall|p: int| 0 <= p < l1 implies out1[p] == out2[p] by {
        let k = p / 16384;
        lemma_position_in_block(l1, p);
        assert(has_block_at(bs1, k * 16384));
        assert(has_block_at(bs2, k * 16384));
        let a = choose|i: int| 0 <= i < bs1.len() && #[trigger] block_offset_of(bs1, i) == k
            * 16384;
        let b = choose|j: int| 0 <= j < bs2.len() && #[trigger] block_offset_of(bs2, j) == k
            * 16384;
        let pair = ps1[a];
        assert(ps1[a] == pair);
        assert(ps1.contains(pair));
        assert(ps1.to_multiset().count(pair) > 0);
        assert(ps2.to_multiset().count(pair) > 0);
        assert(ps2.contains(pair));
        let b2 = choose|j: int| 0 <= j < ps2.len() && ps2[j] == pair;
        assert(block_offset_of(bs2, b2) == k * 16384);
        assert(b2 == b);
        assert(bs2[b].block_data@ == bs1[a].block_data@);
        let da = bs1[a].block_data@;
        assert(da.len() == spec_block_len(l1, k)) by {
            assert(block_offset_of(bs1, a) / 16384 == k) by (nonlinear_arith)
                requires block_offset_of(bs1, a) == k * 16384, k >= 0;
        }
        assert(out1.subrange(k * 16384, k * 16384 + da.len()) == da);
        assert(out2.subrange(k * 16384, k * 16384 + da.len()) == da);
        assert(out1[p] == out1.subrange(k * 16384, k * 16384 + da.len())[p - k * 16384]);
        assert(out2[p] == out2.subrange(k * 16384, k * 16384 + da.len())[p - k * 16384]);
    }
    assert(out1 =~= out2);
}

/// The request rounds of the pipelined fetcher: starting at block `k`, each
/// round takes up to `w` consecutive blocks of the partition, until none
/// remain.
pub open spec fn spec_round_plan(piece_length: int, w: int, k: int) -> Seq<Seq<(int, int)>>
    decreases spec_block_count(piece_length) - k,
{
    if w < 1 || k < 0 || k >= spec_block_count(piece_length) {
        Seq::empty()
    } else {
        let c = if w <= spec_block_count(piece_length) - k {
            w
        } else {
            spec_block_count(piece_length) - k
        };
        seq![spec_blocks(piece_length).subrange(k, k + c)] + spec_round_plan(
            piece_length,
            w,
            k + c,
        )
    }
}

/// The rounds, whatever the depth, request exactly the blocks of the
/// partition from `k` on, in ascending offset order.
pub proof fn lemma_round_plan_covers(piece_length: int, w: int, k: int)
    requires
        piece_length >= 1,
        w >= 1,
        0 <= k <= spec_block_count(piece_length),
    ensures
        spec_round_plan(piece_length, w, k).flatten() == spec_blocks(piece_length).skip(k),
    decreases spec_block_count(piece_length) - k,
{
    let count = spec_block_count(piece_length);
    let plan = spec_round_plan(piece_length, w, k);
    if k >= count {
        assert(plan.flatten() =~= Seq::<(int, int)>::empty());
        assert(spec_blocks(piece_length).skip(k) =~= Seq::<(int, int)>::empty());
    } else {
        let c = if w <= count - k {
            w
        } else {
            count - k
        };
        lemma_round_plan_covers(piece_length, w, k + c);
        assert(plan.drop_first() =~= spec_round_plan(piece_length, w, k + c));
        assert(plan[0] == spec_blocks(piece_length).subrange(k, k + c));
        assert(plan.flatten() == plan[0] + plan.drop_first().flatten());
        assert(plan.flatten() =~= spec_blocks(piece_length).skip(k));
    }
}

/// Pipeline depth does not affect what is fetched: with any two depths the
/// rounds flatten to the same ascending block sequence, so (reassembly being
/// offset-indexed) the piece bytes, and with them the file, come out the
/// same.
pub proof fn lemma_pipeline_depth_irrelevant(piece_length: int, w1: int, w2: int)
    requires
        piece_length >= 1,
        w1 >= 1,
        w2 >= 1,
    ensures
        spec_round_plan(piece_length, w1, 0).flatten() == spec_round_plan(
            piece_length,
            w2,
            0,
        ).flatten(),
        spec_round_plan(piece_length, w1, 0).flatten() == spec_blocks(piece_length),
{
    lemma_round_plan_covers(piece_length, w1, 0);
    lemma_round_plan_covers(piece_length, w2, 0);
    assert(spec_blocks(piece_length).skip(0) =~= spec_blocks(piece_length));
}

/// How many pieces a file of this length splits into.
pub open spec fn spec_piece_count(length: int, piece_length: int) -> int {
    (length + piece_length - 1) / piece_length
}

/// The length of piece `i`: `piece_length`, except for the last piece, which
/// takes the remainder.
pub open spec fn spec_piece_len_at(length: int, piece_length: int, i: int) -> int {
    if length - i * piece_length >= piece_length {
        piece_length
    } else {
        length - i * piece_length
    }
}

pub proof fn lemma_piece_count_bounds(length: int, piece_length: int)
    requires
        length >= 1,
        piece_length >= 1,
    ensures
        (spec_piece_count(length, piece_length) - 1) * piece_length < length,
        length <= spec_piece_count(length, piece_length) * piece_length,
        spec_piece_count(length, piece_length) >= 1,
{
    let c = spec_piece_count(length, piece_length);
    lemma_fundamental_div_mod(length + piece_length - 1, piece_length);
    vstd::arithmetic::div_mod::lemma_mod_division_less_than_divisor(
        length + piece_length - 1,
        piece_length,
    );
    assert((c - 1) * piece_length == c * piece_length - piece_length) by (nonlinear_arith);
    assert(piece_length * c >= length);
    assert(c >= 1) by (nonlinear_arith)
        requires piece_length >= 1, piece_length * c >= length, length >= 1;
}

/// Basic facts about the piece partition of the file.
pub proof fn lemma_piece_facts(length: int, piece_length: int, i: int)
    requires
        length >= 1,
        piece_length >= 1,
        0 <= i < spec_piece_count(length, piece_length),
    ensures
        i * piece_length < length,
        1 <= spec_piece_len_at(length, piece_length, i) <= piece_length,
        i * piece_length + spec_piece_len_at(length, piece_length, i) <= length,
        i < spec_piece_count(length, piece_length) - 1 ==> spec_piece_len_at(
            length,
            piece_length,
            i,
        ) == piece_length,
        i == spec_piece_count(length, piece_length) - 1 ==> i * piece_length + spec_piece_len_at(
            length,
            piece_length,
            i,
        ) == length,
{
    lemma_piece_count_bounds(length, piece_length);
    let c = spec_piece_count(length, piece_length);
    assert((c - 1) * piece_length == c * piece_length - piece_length) by (nonlinear_arith);
    assert(i * piece_length <= (c - 1) * piece_length) by (nonlinear_arith)
        requires i <= c - 1, piece_length >= 1;
    if i < c - 1 {
        assert(i * piece_length + piece_length == (i + 1) * piece_length) by (nonlinear_arith);
        assert((i + 1) * piece_length <= (c - 1) * piece_length) by (nonlinear_arith)
            requires i + 1 <= c - 1, piece_length >= 1;
    }
}

/// A file rewritten at `offset` with `data`: same length, the bytes of
/// `data` in place.
pub open spec fn spec_write_at(file: Seq<u8>, offset: int, data: Seq<u8>) -> Seq<u8> {
    Seq::new(
        file.len(),
        |p: int|
            if offset <= p < offset + data.len() {
                data[p - offset]
            } else {
                file[p]
            },
    )
}

/// The file after writing pieces `k, k+1, ...` each at its absolute offset
/// `index * piece_length`, in ascending index order.
pub open spec fn spec_write_pieces(file: Seq<u8>, ps: Seq<Seq<u8>>, piece_length: int, k: int) -> Seq<
    u8,
>
    decreases ps.len() - k,
{
    if k < 0 || k >= ps.len() {
        file
    } else {
        spec_write_pieces(spec_write_at(file, k * piece_length, ps[k]), ps, piece_length, k + 1)
    }
}

/// All pieces, one after the other.
pub open spec fn spec_concat_pieces(ps: Seq<Seq<u8>>) -> Seq<u8>
    decreases ps.len(),
{
    if ps.len() == 0 {
        Seq::empty()
    } else {
        spec_concat_pieces(ps.drop_last()) + ps.last()
    }
}

/// In a concatenation of pieces that are all full but the last, piece `i`
/// occupies exactly the range starting at `i * piece_length`.
pub proof fn lemma_concat_pieces_subranges(ps: Seq<Seq<u8>>, piece_length: int)
    requires
        piece_length >= 1,
        ps.len() >= 1,
        forall|i: int| 0 <= i < ps.len() - 1 ==> (#[trigger] ps[i]).len() == piece_length,
    ensures
        spec_concat_pieces(ps).len() == (ps.len() - 1) * piece_length + ps.last().len(),
        forall|i: int|
            0 <= i < ps.len() ==> spec_concat_pieces(ps).subrange(
                i * piece_length,
                i * piece_length + (#[trigger] ps[i]).len(),
            ) == ps[i],
    decreases ps.len(),
{
    let n = ps.len() as int;
    let cat = spec_concat_pieces(ps);
    if n == 1 {
        assert(ps.drop_last().len() == 0);
        assert(spec_concat_pieces(ps.drop_last()) == Seq::<u8>::empty());
        assert(cat =~= ps[0]);
        assert(cat.subrange(0, ps[0].len() as int) =~= ps[0]);
    } else {
        let front = ps.drop_last();
        lemma_concat_pieces_subranges(front, piece_length);
        let fcat = spec_concat_pieces(front);
        assert(front.last() == ps[n - 2] && front.last().len() == piece_length);
        assert(fcat.len() == (n - 1) * piece_length) by (nonlinear_arith)
            requires fcat.len() == (n - 2) * piece_length + piece_length;
        assert forall|i: int| 0 <= i < n implies cat.subrange(
            i * piece_length,
            i * piece_length + (#[trigger] ps[i]).len(),
        ) == ps[i] by {
            if i < n - 1 {
                assert(front[i] == ps[i]);
                assert(i * piece_length + ps[i].len() <= fcat.len()) by (nonlinear_arith)
                    requires
                        ps[i].len() <= piece_length,
                        fcat.len() == (n - 1) * piece_length,
                        i <= n - 2,
                        piece_length >= 1,
                ;
                assert(cat.subrange(i * piece_length, i * piece_length + ps[i].len())
                    =~= fcat.subrange(i * piece_length, i * piece_length + ps[i].len()));
            } else {
                assert(cat.subrange((n - 1) * piece_length, (n - 1) * piece_length
                    + ps[n - 1].len()) =~= ps[n - 1]);
            }
        }
    }
}

proof fn lemma_write_pieces_agree(
    file: Seq<u8>,
    ps: Seq<Seq<u8>>,
    length: int,
    piece_length: int,
    k: int,
)
    requires
        length >= 1,
        piece_length >= 1,
        file.len() == length,
        ps.len() == spec_piece_count(length, piece_length),
        forall|i: int|
            0 <= i < ps.len() ==> (#[trigger] ps[i]).len() == spec_piece_len_at(
                length,
                piece_length,
                i,
            ),
        0 <= k <= ps.len(),
    ensures
        spec_write_pieces(file, ps, piece_length, k).len() == length,
        forall|p: int|
            0 <= p < length && p < k * piece_length ==> #[trigger] spec_write_pieces(
                file,
                ps,
                piece_length,
                k,
            )[p] == file[p],
        forall|p: int|
            k * piece_length <= p < length ==> #[trigger] spec_write_pieces(
                file,
                ps,
                piece_length,
                k,
            )[p] == spec_concat_pieces(ps)[p],
    decreases ps.len() - k,
{
    let n = ps.len() as int;
    lemma_piece_count_bounds(length, piece_length);
    assert forall|i: int| 0 <= i < n - 1 implies (#[trigger] ps[i]).len() == piece_length by {
        lemma_piece_facts(length, piece_length, i);
    }
    lemma_concat_pieces_subranges(ps, piece_length);
    let cat = spec_concat_pieces(ps);
    lemma_piece_facts(length, piece_length, n - 1);
    assert(cat.len() == length);
    if k >= n {
        assert((n as int) * piece_length >= length);
        assert(k * piece_length >= length) by (nonlinear_arith)
            requires k >= n, n * piece_length >= length, piece_length >= 1;
    } else {
        lemma_piece_facts(length, piece_length, k);
        let file2 = spec_write_at(file, k * piece_length, ps[k]);
        lemma_write_pieces_agree(file2, ps, length, piece_length, k + 1);
        let out = spec_write_pieces(file, ps, piece_length, k);
        assert(out == spec_write_pieces(file2, ps, piece_length, k + 1));
        assert forall|p: int| 0 <= p < length && p < k * piece_length implies #[trigger] out[p]
            == file[p] by {
            assert(p < (k + 1) * piece_length) by (nonlinear_arith)
                requires p < k * piece_length, piece_length >= 1;
            assert(out[p] == file2[p]);
        }
        assert forall|p: int| k * piece_length <= p < length implies #[trigger] out[p]
            == cat[p] by {
            if p < (k + 1) * piece_length {
                assert(out[p] == file2[p]);
                assert((k + 1) * piece_length == k * piece_length + piece_length)
                    by (nonlinear_arith);
                assert(p < k * piece_length + ps[k as int].len());
                assert(file2[p] == ps[k as int][p - k * piece_length]);
                assert(cat.subrange(k * piece_length, k * piece_length + ps[k as int].len())
                    == ps[k as int]);
                assert(cat[p] == cat.subrange(
                    k * piece_length,
                    k * piece_length + ps[k as int].len(),
                )[p - k * piece_length]);
            }
        }
    }
}

/// Writing each piece at its absolute offset `index * piece_length` into a
/// file of the torrent's length produces exactly the concatenation of the
/// pieces — and that concatenation is the whole file, its length the
/// torrent's `length`.
pub proof fn lemma_positional_writes_build_file(
    file0: Seq<u8>,
    ps: Seq<Seq<u8>>,
    length: int,
    piece_length: int,
)
    requires
        length >= 1,
        piece_length >= 1,
        file0.len() == length,
        ps.len() == spec_piece_count(length, piece_length),
        forall|i: int|
            0 <= i < ps.len() ==> (#[trigger] ps[i]).len() == spec_piece_len_at(
                length,
                piece_length,
                i,
            ),
    ensures
        spec_concat_pieces(ps).len() == length,
        spec_write_pieces(file0, ps, piece_length, 0) == spec_concat_pieces(ps),
{
    lemma_write_pieces_agree(file0, ps, length, piece_length, 0);
    lemma_piece_count_bounds(length, piece_length);
    assert(forall|i: int| 0 <= i < ps.len() - 1 ==> (#[trigger] ps[i]).len() == piece_length) by {
        assert forall|i: int| 0 <= i < ps.len() - 1 implies (#[trigger] ps[i]).len()
            == piece_length by {
            lemma_piece_facts(length, piece_length, i);
        }
    }
    lemma_concat_pieces_subranges(ps, piece_length);
    lemma_piece_facts(length, piece_length, ps.len() - 1);
    assert(spec_write_pieces(file0, ps, piece_length, 0) =~= spec_concat_pieces(ps));
}

/// The ceiling division behind the piece count, written with `/` and `%`.
pub proof fn lemma_piece_count_parts(length: int, piece_length: int)
    requires
        length >= 0,
        piece_length >= 1,
    ensures
        spec_piece_count(length, piece_length) == length / piece_length + (
        if length % piece_length != 0 {
            1int
        } else {
            0int
        }),
{
    let q = length / piece_length;
    let r = length % piece_length;
    let c = spec_piece_count(length, piece_length);
    lemma_fundamental_div_mod(length, piece_length);
    vstd::arithmetic::div_mod::lemma_mod_division_less_than_divisor(length, piece_length);
    lemma_fundamental_div_mod(length + piece_length - 1, piece_length);
    vstd::arithmetic::div_mod::lemma_mod_division_less_than_divisor(
        length + piece_length - 1,
        piece_length,
    );
    let r2 = (length + piece_length - 1) % piece_length;
    if r == 0 {
        assert(piece_length * (c - q) == piece_length - 1 - r2) by (nonlinear_arith)
            requires piece_length * c + r2 == piece_length * q + piece_length - 1;
        assert(c == q) by (nonlinear_arith)
            requires
                piece_length * (c - q) == piece_length - 1 - r2,
                0 <= r2 < piece_length,
                piece_length >= 1,
        ;
    } else {
        assert(piece_length * (c - q - 1) == r - 1 - r2) by (nonlinear_arith)
            requires piece_length * c + r2 == piece_length * q + r + piece_length - 1;
        assert(c == q + 1) by (nonlinear_arith)
            requires
                piece_length * (c - q - 1) == r - 1 - r2,
                0 <= r2 < piece_length,
                0 < r < piece_length,
                piece_length >= 1,
        ;
    }
}

/// The absolute file offset where a verified piece is written:
/// `piece_index * piece_length`.
pub fn piece_write_offset(piece_index: u32, piece_length: u32) -> (o: u64)
    ensures
        o == (piece_index as int) * (piece_length as int),
{
    proof {
        assert((piece_index as int) * (piece_length as int) <= u64::MAX) by (nonlinear_arith)
            requires piece_index <= u32::MAX, piece_length <= u32::MAX;
    }
    (piece_index as u64) * (piece_length as u64)
}

/// The number of pieces as a machine integer.
pub fn piece_count_exec(length: u32, piece_length: u32) -> (c: u32)
    requires
        length >= 1,
        piece_length >= 1,
    ensures
        c as int == spec_piece_count(length as int, piece_length as int),
        c >= 1,
{
    proof {
        lemma_piece_count_bounds(length as int, piece_length as int);
        let c = spec_piece_count(length as int, piece_length as int);
        assert(c - 1 <= (c - 1) * (piece_length as int)) by (nonlinear_arith)
            requires c >= 1, piece_length >= 1;
    }
    (((length as u64) + (piece_length as u64) - 1) / (piece_length as u64)) as u32
}

/// The length of the piece at `piece_index`: the full `piece_length` for
/// every piece but the last, which takes the remainder of the file.
pub fn actual_piece_length(torrent_file_length: u32, piece_length: u32, piece_index: u32) -> (l:
    u32)
    requires
        torrent_file_length >= 1,
        piece_length >= 1,
        (piece_index as int) < spec_piece_count(torrent_file_length as int, piece_length as int),
    ensures
        l as int == spec_piece_len_at(
            torrent_file_length as int,
            piece_length as int,
            piece_index as int,
        ),
        1 <= l <= piece_length,
{
    proof {
        lemma_piece_facts(torrent_file_length as int, piece_length as int, piece_index as int);
    }
    let off: u64 = (piece_index as u64) * (piece_length as u64);
    if (torrent_file_length as u64) - off >= piece_length as u64 {
        piece_length
    } else {
        ((torrent_file_length as u64) - off) as u32
    }
}

/// `ceil(piece_length / BLOCK_SIZE)` as a machine integer.
pub fn block_count_exec(piece_length: u32) -> (c: u32)
    requires
        piece_length >= 1,
    ensures
        c as int == spec_block_count(piece_length as int),
        c >= 1,
{
    proof {
        lemma_block_count_bounds(piece_length as int);
    }
    (((piece_length as u64) + 16383) / 16384) as u32
}

/// The length of block `k` of a piece.
pub fn block_len_exec(piece_length: u32, k: u32) -> (l: u32)
    requires
        piece_length >= 1,
        (k as int) < spec_block_count(piece_length as int),
    ensures
        l as int == spec_block_len(piece_length as int, k as int),
{
    proof {
        lemma_block_facts(piece_length as int, k as int);
    }
    let off: u32 = k * BLOCK_SIZE;
    if piece_length - off >= BLOCK_SIZE {
        BLOCK_SIZE
    } else {
        piece_length - off
    }
}

} // verus!

