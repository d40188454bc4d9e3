//! Block-level piece acquisition and verification: per-piece block
//! scheduling, accumulation into an in-memory buffer, and SHA-1 content
//! verification on completion. A piece's completion flag moves from false
//! to true exactly once, on a hash match; a mismatch resets only that
//! piece's partial state.
use crate::bitfield::Bitfield;
use crate::sha1::{sha1, spec_sha1};
use crate::wire::bytes_eq;
use vstd::prelude::*;

verus! {

/// Default block size used for requests (16 KiB).
pub const BLOCK_SIZE: usize = 16384;

#[derive(Debug, PartialEq, Eq, Structural)]
pub enum PieceManagerError {
    InvalidPieceIndex,
    InvalidBlockOffset,
    InvalidBlockSize,
    VerificationFailed,
}

/// A request for one block of one piece from a peer.
#[derive(Clone, Copy, Debug, PartialEq, Eq, Structural)]
pub struct Request {
    pub piece_index: usize,
    pub begin: usize,
    pub length: usize,
}

/// Mathematical state of a single piece.
pub struct PieceView {
    /// Expected SHA-1 digest of the piece bytes.
    pub hash: Seq<u8>,
    /// True length of this piece in bytes.
    pub length: nat,
    /// The accumulation buffer, always `length` bytes.
    pub data: Seq<u8>,
    /// Per-block flag: the block's bytes have arrived.
    pub downloaded: Seq<bool>,
    /// Per-block flag: a request for the block is outstanding.
    pub requested: Seq<bool>,
    /// The piece was verified complete; never reset once true.
    pub complete: bool,
}

/// Number of blocks of a piece of the given length.
pub open spec fn spec_blocks(length: nat) -> nat {
    ((length + BLOCK_SIZE - 1) as nat) / (BLOCK_SIZE as nat)
}

/// Length of block `b` of a piece of the given length: a full block, save
/// possibly the last.
pub open spec fn spec_block_len(length: nat, b: int) -> nat {
    if length - b * BLOCK_SIZE >= BLOCK_SIZE {
        BLOCK_SIZE as nat
    } else {
        (length - b * BLOCK_SIZE) as nat
    }
}

/// Every block of the piece is downloaded.
pub open spec fn all_downloaded(p: PieceView) -> bool {
    forall|b: int| 0 <= b < p.downloaded.len() ==> p.downloaded[b]
}

/// Every block of the piece is downloaded or outstanding: nothing is left
/// to request.
pub open spec fn piece_exhausted(p: PieceView) -> bool {
    forall|b: int| 0 <= b < p.downloaded.len() ==> p.downloaded[b] || p.requested[b]
}

/// The piece data with `block` written at offset `begin`.
pub open spec fn splice_bytes(data: Seq<u8>, begin: int, block: Seq<u8>) -> Seq<u8> {
    Seq::new(
        data.len(),
        |j: int|
            if begin <= j < begin + block.len() {
                block[j - begin]
            } else {
                data[j]
            },
    )
}

/// Whether a delivered block lands exactly on a block boundary of the
/// piece and has exactly the expected block length. An offset that is not
/// a multiple of the block size is rejected outright — deliberately
/// stricter than tolerating a misaligned in-bounds write, whose overrun
/// would otherwise have to panic — so a stored block always coincides
/// with the block its downloaded flag describes.
pub open spec fn block_accepted(p: PieceView, begin: int, block: Seq<u8>) -> bool {
    &&& begin % (BLOCK_SIZE as int) == 0
    &&& 0 <= begin / (BLOCK_SIZE as int) < p.downloaded.len()
    &&& block.len() == spec_block_len(p.length, begin / (BLOCK_SIZE as int))
}

/// The piece state after an accepted block is stored: bytes written,
/// the block downloaded, its outstanding flag cleared.
pub open spec fn block_added(p: PieceView, begin: int, block: Seq<u8>) -> PieceView {
    let b = begin / (BLOCK_SIZE as int);
    PieceView {
        data: splice_bytes(p.data, begin, block),
        downloaded: p.downloaded.update(b, true),
        requested: p.requested.update(b, false),
        ..p
    }
}

/// The piece state after a verification failure: buffer zeroed, all
/// per-block flags cleared. The completion flag is untouched.
pub open spec fn piece_reset(p: PieceView) -> PieceView {
    PieceView {
        data: Seq::new(p.length, |i: int| 0u8),
        downloaded: Seq::new(p.downloaded.len(), |i: int| false),
        requested: Seq::new(p.requested.len(), |i: int| false),
        ..p
    }
}

/// The piece state after externally supplied full bytes verified: data
/// stored, every block downloaded, nothing outstanding, complete.
pub open spec fn piece_seeded(p: PieceView, data: Seq<u8>) -> PieceView {
    PieceView {
        data: data,
        downloaded: Seq::new(p.downloaded.len(), |i: int| true),
        requested: Seq::new(p.requested.len(), |i: int| false),
        complete: true,
        ..p
    }
}

/// Structural invariant of one piece's state.
pub open spec fn piece_inv(p: PieceView) -> bool {
    &&& p.data.len() == p.length
    &&& p.downloaded.len() == spec_blocks(p.length)
    &&& p.requested.len() == spec_blocks(p.length)
    &&& p.length * 8 <= u64::MAX
}

/// Structural invariant of the whole manager state.
pub open spec fn pm_inv(ps: Seq<PieceView>) -> bool {
    forall|i: int| 0 <= i < ps.len() ==> #[trigger] piece_inv(ps[i])
}

/// Metadata for a single piece.
struct PieceMeta {
    hash: Vec<u8>,
    length: usize,
    data: Vec<u8>,
    downloaded: Vec<bool>,
    requested: Vec<bool>,
    complete: bool,
}

impl View for PieceMeta {
    type V = PieceView;

    closed spec fn view(&self) -> PieceView {
        PieceView {
            hash: self.hash@,
            length: self.length as nat,
            data: self.data@,
            downloaded: self.downloaded@,
            requested: self.requested@,
            complete: self.complete,
        }
    }
}

impl PieceMeta {
    fn new(hash: Vec<u8>, length: usize) -> (r: PieceMeta)
        requires
            length * 8 <= u64::MAX,
        ensures
            piece_inv(r@),
            r@.hash == hash@,
            r@.length == length,
            r@.data == Seq::new(length as nat, |i: int| 0u8),
            r@.downloaded == Seq::new(spec_blocks(length as nat), |i: int| false),
            r@.requested == Seq::new(spec_blocks(length as nat), |i: int| false),
            !r@.complete,
    {
        let blocks = length / BLOCK_SIZE + if length % BLOCK_SIZE != 0 {
            1
        } else {
            0
        };
        proof {
            lemma_blocks_ceil(length as nat);
        }
        let r = PieceMeta {
            hash,
            length,
            data: vec![0u8; length],
            downloaded: vec![false; blocks],
            requested: vec![false; blocks],
            complete: false,
        };
        proof {
            assert(r@.data =~= Seq::new(length as nat, |i: int| 0u8));
            assert(r@.downloaded =~= Seq::new(spec_blocks(length as nat), |i: int| false));
            assert(r@.requested =~= Seq::new(spec_blocks(length as nat), |i: int| false));
        }
        r
    }

    fn blocks_count(&self) -> (r: usize)
        ensures
            r == self@.downloaded.len(),
    {
        self.downloaded.len()
    }

    fn block_len(&self, block_idx: usize) -> (r: Option<usize>)
        requires
            piece_inv(self@),
        ensures
            r is Some <==> block_idx < self@.downloaded.len(),
            r matches Some(l) ==> l == spec_block_len(self@.length, block_idx as int),
    {
        if block_idx >= self.blocks_count() {
            return None;
        }
        proof {
            lemma_block_start_in_range(self.length as nat, block_idx as int);
        }
        let start = block_idx * BLOCK_SIZE;
        let rest = self.length - start;
        if rest >= BLOCK_SIZE {
            Some(BLOCK_SIZE)
        } else {
            Some(rest)
        }
    }

    fn is_fully_downloaded(&self) -> (r: bool)
        ensures
            r == all_downloaded(self@),
    {
        let mut i: usize = 0;
        while i < self.downloaded.len()
            invariant
                i <= self.downloaded@.len(),
                forall|b: int| 0 <= b < i ==> self.downloaded@[b],
            decreases self.downloaded@.len() - i,
        {
            if !self.downloaded[i] {
                proof {
                    assert(!self@.downloaded[i as int]);
                }
                return false;
            }
            i = i + 1;
        }
        true
    }

    /// Clear the buffer and the per-block flags so the piece is retried.
    /// The completion flag is never cleared: it only ever moves from false
    /// to true, and a verification failure can only happen before it is
    /// set.
    fn reset_partial(&mut self)
        requires
            piece_inv(old(self)@),
        ensures
            piece_inv(final(self)@),
            final(self)@ == piece_reset(old(self)@),
    {
        let len = self.length;
        let blocks = self.downloaded.len();
        self.data = vec![0u8; len];
        self.downloaded = vec![false; blocks];
        self.requested = vec![false; blocks];
        proof {
            assert(self@.data =~= Seq::new(old(self)@.length, |i: int| 0u8));
            assert(self@.downloaded =~= Seq::new(old(self)@.downloaded.len(), |i: int| false));
            assert(self@.requested =~= Seq::new(old(self)@.requested.len(), |i: int| false));
            assert(self@ == piece_reset(old(self)@));
        }
    }

    /// Store one delivered block; when it completes the piece, verify the
    /// whole buffer against the expected hash.
    fn add_block_to_piece(&mut self, begin: usize, block: &[u8]) -> (r: Result<
        Option<Vec<u8>>,
        PieceManagerError,
    >)
        requires
            piece_inv(old(self)@),
        ensures
            piece_inv(final(self)@),
            final(self)@.hash == old(self)@.hash,
            final(self)@.length == old(self)@.length,
            r is Ok <==> block_accepted(old(self)@, begin as int, block@) && {
                let p2 = block_added(old(self)@, begin as int, block@);
                !all_downloaded(p2) || spec_sha1(p2.data) == old(self)@.hash
            },
            r matches Ok(ret) ==> {
                let p2 = block_added(old(self)@, begin as int, block@);
                if all_downloaded(p2) {
                    &&& spec_sha1(p2.data) == old(self)@.hash
                    &&& ret matches Some(bytes) && bytes@ == p2.data
                    &&& final(self)@ == PieceView { complete: true, ..p2 }
                } else {
                    &&& ret is None
                    &&& final(self)@ == p2
                }
            },
            r matches Err(e) ==> {
                let b = (begin as int) / (BLOCK_SIZE as int);
                let p2 = block_added(old(self)@, begin as int, block@);
                match e {
                    PieceManagerError::InvalidBlockOffset => final(self)@ == old(self)@ && (
                    begin as int % (BLOCK_SIZE as int) != 0 || b >= old(self)@.downloaded.len()),
                    PieceManagerError::InvalidBlockSize => final(self)@ == old(self)@
                        && block_accepted(old(self)@, begin as int, block@) == false && begin
                        as int % (BLOCK_SIZE as int) == 0 && b < old(self)@.downloaded.len(),
                    PieceManagerError::VerificationFailed => block_accepted(
                        old(self)@,
                        begin as int,
                        block@,
                    ) && all_downloaded(p2) && spec_sha1(p2.data) != old(self)@.hash && final(self)@ == piece_reset(p2),
                    PieceManagerError::InvalidPieceIndex => false,
                }
            },
    {
        let blocks = self.blocks_count();
        if begin % BLOCK_SIZE != 0 {
            return Err(PieceManagerError::InvalidBlockOffset);
        }
        let block_idx = begin / BLOCK_SIZE;
        if block_idx >= blocks {
            return Err(PieceManagerError::InvalidBlockOffset);
        }
        let expected_len = match self.block_len(block_idx) {
            Some(l) => l,
            None => {
                proof {
                    assert(false);
                }
                0
            },
        };
        if block.len() != expected_len {
            return Err(PieceManagerError::InvalidBlockSize);
        }
        proof {
            lemma_block_start_in_range(self@.length, block_idx as int);
            vstd::arithmetic::div_mod::lemma_fundamental_div_mod(
                begin as int,
                BLOCK_SIZE as int,
            );
            assert(begin == block_idx * BLOCK_SIZE);
        }

        // Copy the block into the buffer at its offset.
        let mut j: usize = 0;
        while j < block.len()
            invariant
                j <= block@.len(),
                begin + block@.len() <= self.data@.len(),
                self.data@.len() == old(self)@.data.len(),
                self.hash@ == old(self)@.hash,
                self.length == old(self)@.length,
                self.downloaded@ == old(self)@.downloaded,
                self.requested@ == old(self)@.requested,
                self.complete == old(self)@.complete,
                forall|k: int|
                    0 <= k < self.data@.len() && !(begin <= k < begin + j) ==> self.data@[k]
                        == old(self)@.data[k],
                forall|j2: int| 0 <= j2 < j ==> self.data@[begin + j2] == block@[j2],
            decreases block@.len() - j,
        {
            self.data[begin + j] = block[j];
            j = j + 1;
        }
        self.downloaded[block_idx] = true;
        self.requested[block_idx] = false;
        proof {
            assert(self@.data =~= splice_bytes(old(self)@.data, begin as int, block@));
            assert(self@ == block_added(old(self)@, begin as int, block@));
        }

        if self.is_fully_downloaded() {
            let digest = sha1(self.data.as_slice());
            if bytes_eq(&digest, &self.hash) {
                self.complete = true;
                Ok(Some(self.data.clone()))
            } else {
                self.reset_partial();
                Err(PieceManagerError::VerificationFailed)
            }
        } else {
            Ok(None)
        }
    }

    /// Verify externally supplied full piece bytes and, on a hash match,
    /// store them and mark the piece complete.
    fn seed_piece(&mut self, data: &[u8]) -> (r: Result<(), PieceManagerError>)
        requires
            piece_inv(old(self)@),
        ensures
            piece_inv(final(self)@),
            r is Ok <==> data@.len() == old(self)@.length && spec_sha1(data@) == old(self)@.hash,
            r matches Err(e) ==> final(self)@ == old(self)@ && if data@.len() != old(self)@.length {
                e is InvalidBlockSize
            } else {
                e is VerificationFailed
            },
            r is Ok ==> final(self)@ == piece_seeded(old(self)@, data@),
    {
        if data.len() != self.length {
            return Err(PieceManagerError::InvalidBlockSize);
        }
        let digest = sha1(data);
        if !bytes_eq(&digest, &self.hash) {
            return Err(PieceManagerError::VerificationFailed);
        }
        let blocks = self.downloaded.len();
        self.data = crate::wire::copy_range(data, 0, data.len());
        self.downloaded = vec![true; blocks];
        self.requested = vec![false; blocks];
        self.complete = true;
        proof {
            assert(self@.data =~= data@);
            assert(self@.downloaded =~= Seq::new(old(self)@.downloaded.len(), |i: int| true));
            assert(self@.requested =~= Seq::new(old(self)@.requested.len(), |i: int| false));
            assert(self@ == piece_seeded(old(self)@, data@));
        }
        Ok(())
    }
}

/// PieceManager tracks which pieces and blocks are needed, outstanding,
/// downloaded, and verified.
pub struct PieceManager {
    pieces: Vec<PieceMeta>,
    piece_length: usize,
    total_length: usize,
}

impl View for PieceManager {
    type V = Seq<PieceView>;

    closed spec fn view(&self) -> Seq<PieceView> {
        Seq::new(self.pieces@.len(), |i: int| self.pieces@[i]@)
    }
}

impl PieceManager {
    /// The manager's structural invariant.
    pub open spec fn wf(&self) -> bool {
        pm_inv(self@)
    }

    /// Create a new manager. `piece_hashes` holds the expected 20-byte
    /// digests in piece order; `piece_length` is the nominal piece length
    /// (the last piece may be shorter); `total_length` the total content
    /// length.
    pub fn new(piece_hashes: Vec<Vec<u8>>, piece_length: usize, total_length: usize) -> (r:
        PieceManager)
        requires
            piece_hashes@.len() > 0 ==> piece_length * (piece_hashes@.len() - 1) <= total_length,
            total_length * 8 <= u64::MAX,
            piece_length * 8 <= u64::MAX,
        ensures
            r.wf(),
            r@.len() == piece_hashes@.len(),
            forall|i: int|
                0 <= i < r@.len() ==> {
                    let len = if i + 1 < piece_hashes@.len() {
                        piece_length as nat
                    } else {
                        (total_length - piece_length * (piece_hashes@.len() - 1)) as nat
                    };
                    &&& (#[trigger] r@[i]).hash == piece_hashes@[i]@
                    &&& r@[i].length == len
                    &&& r@[i].data == Seq::new(len, |j: int| 0u8)
                    &&& r@[i].downloaded == Seq::new(spec_blocks(len), |j: int| false)
                    &&& r@[i].requested == Seq::new(spec_blocks(len), |j: int| false)
                    &&& !r@[i].complete
                },
    {
        let n = piece_hashes.len();
        let mut pieces: Vec<PieceMeta> = Vec::new();
        let mut i: usize = 0;
        while i < n
            invariant
                i <= n,
                n == piece_hashes@.len(),
                n > 0 ==> piece_length * (n - 1) <= total_length,
                total_length * 8 <= u64::MAX,
                piece_length * 8 <= u64::MAX,
                pieces@.len() == i,
                forall|j: int|
                    0 <= j < i ==> {
                        let len = if j + 1 < n as int {
                            piece_length as nat
                        } else {
                            (total_length - piece_length * (n - 1)) as nat
                        };
                        &&& piece_inv((#[trigger] pieces@[j])@)
                        &&& pieces@[j]@.hash == piece_hashes@[j]@
                        &&& pieces@[j]@.length == len
                        &&& pieces@[j]@.data == Seq::new(len, |k: int| 0u8)
                        &&& pieces@[j]@.downloaded == Seq::new(spec_blocks(len), |k: int| false)
                        &&& pieces@[j]@.requested == Seq::new(spec_blocks(len), |k: int| false)
                        &&& !pieces@[j]@.complete
                    },
            decreases n - i,
        {
            let this_len = if i + 1 == n {
                proof {
                    vstd::arithmetic::mul::lemma_mul_inequality(i as int, n - 1, piece_length as int);
                    assert(piece_length * i <= piece_length * (n - 1)) by {
                        vstd::arithmetic::mul::lemma_mul_is_commutative(
                            piece_length as int,
                            i as int,
                        );
                        vstd::arithmetic::mul::lemma_mul_is_commutative(
                            piece_length as int,
                            n - 1,
                        );
                    }
                }
                let n_full = piece_length * (n - 1);
                total_length - n_full
            } else {
                piece_length
            };
            let h = piece_hashes[i].clone();
            proof {
                assert(h@ =~= piece_hashes@[i as int]@);
            }
            pieces.push(PieceMeta::new(h, this_len));
            i = i + 1;
        }
        let r = PieceManager { pieces, piece_length, total_length };
        r
    }

    /// How many pieces exist.
    pub fn pieces_count(&self) -> (r: usize)
        ensures
            r == self@.len(),
    {
        self.pieces.len()
    }

    /// Whether a given piece is verified complete.
    pub fn piece_complete(&self, piece_index: usize) -> (r: Result<bool, PieceManagerError>)
        ensures
            r is Ok <==> piece_index < self@.len(),
            r matches Ok(c) ==> c == self@[piece_index as int].complete,
            r matches Err(e) ==> e is InvalidPieceIndex,
    {
        if piece_index >= self.pieces.len() {
            return Err(PieceManagerError::InvalidPieceIndex);
        }
        Ok(self.pieces[piece_index].complete)
    }

    /// A bitfield of the pieces already verified complete.
    pub fn have_bitfield(&self) -> (r: Bitfield)
        ensures
            r.wf(),
            r@.len() == self@.len(),
            forall|i: int| 0 <= i < self@.len() ==> r@[i] == self@[i].complete,
    {
        let mut bf = Bitfield::new(self.pieces.len());
        let mut i: usize = 0;
        while i < self.pieces.len()
            invariant
                i <= self@.len(),
                bf.wf(),
                bf@.len() == self@.len(),
                forall|j: int| 0 <= j < i ==> bf@[j] == self@[j].complete,
                forall|j: int| i <= j < self@.len() ==> bf@[j] == false,
            decreases self@.len() - i,
        {
            if self.pieces[i].complete {
                let res = bf.set(i, true);
                proof {
                    assert(res is Ok);
                }
            }
            i = i + 1;
        }
        bf
    }

    /// Piece indices the peer advertises that are not yet complete here,
    /// in increasing order.
    pub fn interesting_pieces(&self, peer: &Bitfield) -> (r: Vec<usize>)
        requires
            peer.wf(),
        ensures
            forall|j: int|
                0 <= j < r@.len() ==> {
                    let p = #[trigger] r@[j] as int;
                    &&& 0 <= p < self@.len()
                    &&& p < peer@.len() && peer@[p]
                    &&& !self@[p].complete
                },
            forall|j1: int, j2: int| 0 <= j1 < j2 < r@.len() ==> r@[j1] < r@[j2],
            forall|p: int|
                0 <= p < self@.len() && p < peer@.len() && peer@[p] && !self@[p].complete
                    ==> r@.contains(p as usize),
    {
        let mut ret: Vec<usize> = Vec::new();
        let mut i: usize = 0;
        while i < self.pieces.len()
            invariant
                i <= self@.len(),
                forall|j: int|
                    0 <= j < ret@.len() ==> {
                        let p = #[trigger] ret@[j] as int;
                        &&& 0 <= p < i
                        &&& p < peer@.len() && peer@[p]
                        &&& !self@[p].complete
                    },
                forall|j1: int, j2: int| 0 <= j1 < j2 < ret@.len() ==> ret@[j1] < ret@[j2],
                forall|p: int|
                    0 <= p < i && p < peer@.len() && peer@[p] && !self@[p].complete
                        ==> ret@.contains(p as usize),
            decreases self@.len() - i,
        {
            if peer.has(i) {
                if !self.pieces[i].complete {
                    let ghost before = ret@;
                    ret.push(i);
                    proof {
                        assert forall|p: int|
                            0 <= p < i + 1 && p < peer@.len() && peer@[p] && !self@[p].complete
                        implies ret@.contains(p as usize) by {
                            if p < i {
                                let j = choose|j: int|
                                    0 <= j < before.len() && before[j] == p as usize;
                                assert(ret@[j] == p as usize);
                            } else {
                                assert(ret@[ret@.len() - 1] == i);
                            }
                        }
                    }
                }
            }
            i = i + 1;
        }
        ret
    }

    /// Choose the next block to request from a peer: the first block
    /// neither downloaded nor outstanding of the first peer-available
    /// incomplete piece, marked outstanding here. The request length is
    /// the block length capped by `max_request_size` and `BLOCK_SIZE`.
    /// Returns None exactly when no peer-available incomplete piece has a
    /// block left to request.
    pub fn next_request(&mut self, peer: &Bitfield, max_request_size: usize) -> (r: Option<
        Request,
    >)
        requires
            old(self).wf(),
            peer.wf(),
        ensures
            final(self).wf(),
            r matches Some(req) ==> {
                let i = req.piece_index as int;
                let b = (req.begin as int) / (BLOCK_SIZE as int);
                &&& 0 <= i < old(self)@.len()
                &&& i < peer@.len() && peer@[i]
                &&& !old(self)@[i].complete
                &&& 0 <= b < old(self)@[i].downloaded.len()
                &&& req.begin == b * BLOCK_SIZE
                &&& !old(self)@[i].downloaded[b]
                &&& !old(self)@[i].requested[b]
                &&& req.length == spec_req_len(
                    old(self)@[i].length,
                    b,
                    max_request_size as nat,
                )
                &&& final(self)@ == old(self)@.update(
                    i,
                    PieceView {
                        requested: old(self)@[i].requested.update(b, true),
                        ..old(self)@[i]
                    },
                )
            },
            r is None ==> final(self)@ == old(self)@ && (forall|i: int|
                0 <= i < old(self)@.len() && i < peer@.len() && peer@[i]
                    && !old(self)@[i].complete ==> piece_exhausted(old(self)@[i])),
    {
        let max_len = if max_request_size < BLOCK_SIZE {
            max_request_size
        } else {
            BLOCK_SIZE
        };
        let n = self.pieces.len();
        let mut i: usize = 0;
        while i < n
            invariant
                i <= n,
                n == self@.len(),
                self.wf(),
                peer.wf(),
                *self == *old(self),
                max_len == if max_request_size < BLOCK_SIZE {
                    max_request_size as int
                } else {
                    BLOCK_SIZE as int
                },
                forall|i2: int|
                    0 <= i2 < i && i2 < peer@.len() && peer@[i2] && !self@[i2].complete
                        ==> piece_exhausted(self@[i2]),
            decreases n - i,
        {
            if peer.has(i) && !self.pieces[i].complete {
                let blocks = self.pieces[i].blocks_count();
                let mut b: usize = 0;
                while b < blocks
                    invariant
                        b <= blocks,
                        i < n == self@.len(),
                        self.wf(),
                        *self == *old(self),
                        blocks == self@[i as int].downloaded.len(),
                        max_len == if max_request_size < BLOCK_SIZE {
                            max_request_size as int
                        } else {
                            BLOCK_SIZE as int
                        },
                        forall|b2: int|
                            0 <= b2 < b ==> self@[i as int].downloaded[b2] || self@[
                                i as int
                            ].requested[b2],
                    decreases blocks - b,
                {
                    proof {
                        assert(self@[i as int] == self.pieces@[i as int]@);
                        assert(piece_inv(self@[i as int]));
                    }
                    if !self.pieces[i].downloaded[b] && !self.pieces[i].requested[b] {
                        proof {
                            lemma_block_start_in_range(self@[i as int].length, b as int);
                        }
                        let begin = b * BLOCK_SIZE;
                        let block_len = match self.pieces[i].block_len(b) {
                            Some(l) => l,
                            None => {
                                proof {
                                    assert(false);
                                }
                                0
                            },
                        };
                        let length = if block_len < max_len {
                            block_len
                        } else {
                            max_len
                        };
                        let pm = &mut self.pieces[i];
                        pm.requested[b] = true;
                        proof {
                            assert((begin as int) / (BLOCK_SIZE as int) == b as int) by {
                                vstd::arithmetic::div_mod::lemma_div_multiples_vanish(
                                    b as int,
                                    BLOCK_SIZE as int,
                                );
                            }
                            assert(self@ =~= old(self)@.update(
                                i as int,
                                PieceView {
                                    requested: old(self)@[i as int].requested.update(
                                        b as int,
                                        true,
                                    ),
                                    ..old(self)@[i as int]
                                },
                            ));
                        }
                        return Some(Request { piece_index: i, begin, length });
                    }
                    b = b + 1;
                }
            }
            i = i + 1;
        }
        None
    }

    /// Record that a request for the block starting at `begin` of piece
    /// `piece_index` was issued out-of-band.
    pub fn mark_requested(&mut self, piece_index: usize, begin: usize) -> (r: Result<
        (),
        PieceManagerError,
    >)
        requires
            old(self).wf(),
        ensures
            final(self).wf(),
            r is Ok <==> piece_index < old(self)@.len() && ((begin as int) / (BLOCK_SIZE as int))
                < old(self)@[piece_index as int].downloaded.len(),
            r matches Err(e) ==> final(self)@ == old(self)@ && if piece_index
                >= old(self)@.len() {
                e is InvalidPieceIndex
            } else {
                e is InvalidBlockOffset
            },
            r is Ok ==> final(self)@ == old(self)@.update(
                piece_index as int,
                PieceView {
                    requested: old(self)@[piece_index as int].requested.update(
                        (begin as int) / (BLOCK_SIZE as int),
                        true,
                    ),
                    ..old(self)@[piece_index as int]
                },
            ),
    {
        if piece_index >= self.pieces.len() {
            return Err(PieceManagerError::InvalidPieceIndex);
        }
        let block_idx = begin / BLOCK_SIZE;
        if block_idx >= self.pieces[piece_index].blocks_count() {
            return Err(PieceManagerError::InvalidBlockOffset);
        }
        proof {
            assert(self@[piece_index as int] == self.pieces@[piece_index as int]@);
            assert(piece_inv(self@[piece_index as int]));
        }
        let pm = &mut self.pieces[piece_index];
        pm.requested[block_idx] = true;
        proof {
            assert(self@ =~= old(self)@.update(
                piece_index as int,
                PieceView {
                    requested: old(self)@[piece_index as int].requested.update(
                        (begin as int) / (BLOCK_SIZE as int),
                        true,
                    ),
                    ..old(self)@[piece_index as int]
                },
            ));
        }
        Ok(())
    }
}

impl PieceManager {
    /// Add a received block. When the block completes its piece and the
    /// hash matches, the full piece bytes are returned; on a mismatch the
    /// piece's partial state is reset and `VerificationFailed` returned.
    pub fn add_block(&mut self, piece_index: usize, begin: usize, block: &[u8]) -> (r: Result<
        Option<Vec<u8>>,
        PieceManagerError,
    >)
        requires
            old(self).wf(),
        ensures
            final(self).wf(),
            final(self)@.len() == old(self)@.len(),
            piece_index >= old(self)@.len() ==> (r matches Err(e) && e is InvalidPieceIndex
                && final(self)@ == old(self)@),
            piece_index < old(self)@.len() ==> {
                let p = old(self)@[piece_index as int];
                let b = (begin as int) / (BLOCK_SIZE as int);
                let p2 = block_added(p, begin as int, block@);
                &&& (r is Ok <==> block_accepted(p, begin as int, block@) && (!all_downloaded(
                    p2,
                ) || spec_sha1(p2.data) == p.hash))
                &&& (r matches Ok(ret) ==> if all_downloaded(p2) {
                    &&& spec_sha1(p2.data) == p.hash
                    &&& ret matches Some(bytes) && bytes@ == p2.data
                    &&& final(self)@ == old(self)@.update(
                        piece_index as int,
                        PieceView { complete: true, ..p2 },
                    )
                } else {
                    &&& ret is None
                    &&& final(self)@ == old(self)@.update(piece_index as int, p2)
                })
                &&& (r matches Err(e) ==> match e {
                    PieceManagerError::InvalidBlockOffset => final(self)@ == old(self)@ && (
                    begin as int % (BLOCK_SIZE as int) != 0 || b >= p.downloaded.len()),
                    PieceManagerError::InvalidBlockSize => final(self)@ == old(self)@
                        && begin as int % (BLOCK_SIZE as int) == 0 && b < p.downloaded.len()
                        && block@.len() != spec_block_len(p.length, b),
                    PieceManagerError::VerificationFailed => block_accepted(
                        p,
                        begin as int,
                        block@,
                    ) && all_downloaded(p2) && spec_sha1(p2.data) != p.hash && final(self)@
                        == old(self)@.update(piece_index as int, piece_reset(p2)),
                    PieceManagerError::InvalidPieceIndex => false,
                })
            },
    {
        if piece_index >= self.pieces.len() {
            proof {
                assert(self@ =~= old(self)@);
            }
            return Err(PieceManagerError::InvalidPieceIndex);
        }
        proof {
            assert(self@[piece_index as int] == self.pieces@[piece_index as int]@);
            assert(piece_inv(self@[piece_index as int]));
        }
        let pm = &mut self.pieces[piece_index];
        let r = pm.add_block_to_piece(begin, block);
        proof {
            assert(self@ =~= old(self)@.update(piece_index as int, self.pieces@[
                piece_index as int
            ]@));
            if r is Err && !(r matches Err(PieceManagerError::VerificationFailed)) {
                assert(self@ =~= old(self)@);
            }
        }
        r
    }

    /// Verify externally supplied full piece bytes (for seeding state from
    /// prior persistence) and mark the piece complete on a hash match,
    /// overwriting any partial state. On any error the state is unchanged.
    pub fn mark_have_from_data(&mut self, piece_index: usize, data: &[u8]) -> (r: Result<
        (),
        PieceManagerError,
    >)
        requires
            old(self).wf(),
        ensures
            final(self).wf(),
            final(self)@.len() == old(self)@.len(),
            r is Ok <==> piece_index < old(self)@.len() && data@.len() == old(self)@[
                piece_index as int
            ].length && spec_sha1(data@) == old(self)@[piece_index as int].hash,
            r matches Err(e) ==> final(self)@ == old(self)@ && if piece_index >= old(self)@.len() {
                e is InvalidPieceIndex
            } else if data@.len() != old(self)@[piece_index as int].length {
                e is InvalidBlockSize
            } else {
                e is VerificationFailed
            },
            r is Ok ==> final(self)@ == old(self)@.update(
                piece_index as int,
                piece_seeded(old(self)@[piece_index as int], data@),
            ),
    {
        if piece_index >= self.pieces.len() {
            proof {
                assert(self@ =~= old(self)@);
            }
            return Err(PieceManagerError::InvalidPieceIndex);
        }
        proof {
            assert(self@[piece_index as int] == self.pieces@[piece_index as int]@);
            assert(piece_inv(self@[piece_index as int]));
        }
        let pm = &mut self.pieces[piece_index];
        let r = pm.seed_piece(data);
        proof {
            assert(self@ =~= old(self)@.update(piece_index as int, self.pieces@[
                piece_index as int
            ]@));
            if r is Err {
                assert(self@ =~= old(self)@);
            }
        }
        r
    }
}

/// The length of the request returned for block `b` of a piece of length
/// `length` under a caller-supplied cap.
pub open spec fn spec_req_len(length: nat, b: int, max_request_size: nat) -> nat {
    let cap = if max_request_size < BLOCK_SIZE {
        max_request_size
    } else {
        BLOCK_SIZE as nat
    };
    let bl = spec_block_len(length, b);
    if bl < cap {
        bl
    } else {
        cap
    }
}

/// The ceil-division block count agrees with its floor-division
/// computation.
proof fn lemma_blocks_ceil(length: nat)
    ensures
        spec_blocks(length) == length / (BLOCK_SIZE as nat) + if length % (BLOCK_SIZE as nat)
            != 0 {
            1nat
        } else {
            0nat
        },
{
    let bs = BLOCK_SIZE as int;
    let l = length as int;
    vstd::arithmetic::div_mod::lemma_fundamental_div_mod(l, bs);
    vstd::arithmetic::div_mod::lemma_fundamental_div_mod(l + bs - 1, bs);
    if l % bs == 0 {
        vstd::arithmetic::div_mod::lemma_div_multiples_vanish_fancy(l / bs, bs - 1, bs);
    } else {
        vstd::arithmetic::div_mod::lemma_div_multiples_vanish_fancy(l / bs + 1, l % bs - 1, bs);
        assert(l + bs - 1 == (l / bs + 1) * bs + (l % bs - 1));
    }
}

/// A block index below the block count starts strictly inside the piece.
proof fn lemma_block_start_in_range(length: nat, b: int)
    requires
        0 <= b < spec_blocks(length),
    ensures
        b * BLOCK_SIZE < length,
        b * BLOCK_SIZE + spec_block_len(length, b) <= length,
        spec_block_len(length, b) > 0,
{
    let bs = BLOCK_SIZE as int;
    let l = length as int;
    vstd::arithmetic::div_mod::lemma_fundamental_div_mod(l + bs - 1, bs);
    assert(b <= (l + bs - 1) / bs - 1);
    vstd::arithmetic::mul::lemma_mul_inequality(b, (l + bs - 1) / bs - 1, bs);
    assert(((l + bs - 1) / bs - 1) * bs == ((l + bs - 1) / bs) * bs - bs) by {
        vstd::arithmetic::mul::lemma_mul_is_distributive_sub_other_way(
            bs,
            (l + bs - 1) / bs,
            1,
        );
    }
}

} // verus!
