//! Compact piece-availability vector with MSB-first bit ordering:
//! piece index 0 maps to bit 7 (0x80) of byte 0, piece index 1 to bit 6
//! (0x40) of byte 0, and so on.
use vstd::prelude::*;

verus! {

/// Whether bit `k` (0 = most significant) of `b` is set.
pub open spec fn byte_bit(b: u8, k: int) -> bool {
    (b >> ((7 - k) as u8)) & 1 == 1
}

/// Whether piece `i` is marked available in the wire bytes `bytes`.
pub open spec fn nth_bit(bytes: Seq<u8>, i: int) -> bool {
    byte_bit(bytes[i / 8], i % 8)
}

/// The first `n` piece-availability bits carried by the wire bytes `bytes`.
pub open spec fn bits_of_bytes(bytes: Seq<u8>, n: nat) -> Seq<bool> {
    Seq::new(n, |i: int| nth_bit(bytes, i))
}

/// The weight bit `i` contributes to its byte: 0 when `i` is out of range
/// or unset, else the power of two of its MSB-first position.
pub open spec fn bit_term(bits: Seq<bool>, i: int, w: u8) -> int {
    if 0 <= i < bits.len() && bits[i] {
        w as int
    } else {
        0
    }
}

/// Byte `j` of the wire encoding of `bits`; bits past the end count as zero.
pub open spec fn byte_of_bits(bits: Seq<bool>, j: int) -> u8 {
    (bit_term(bits, 8 * j, 0x80) + bit_term(bits, 8 * j + 1, 0x40) + bit_term(bits, 8 * j + 2, 0x20)
        + bit_term(bits, 8 * j + 3, 0x10) + bit_term(bits, 8 * j + 4, 0x08)
        + bit_term(bits, 8 * j + 5, 0x04) + bit_term(bits, 8 * j + 6, 0x02)
        + bit_term(bits, 8 * j + 7, 0x01)) as u8
}

/// The wire encoding of `bits`: ceil(len/8) bytes, MSB-first, unused
/// low-order bits of the last byte zero.
pub open spec fn bytes_of_bits(bits: Seq<bool>) -> Seq<u8> {
    Seq::new((bits.len() + 7) / 8, |j: int| byte_of_bits(bits, j))
}

/// How many of the bits are set.
pub open spec fn count_trues(bits: Seq<bool>) -> nat
    decreases bits.len(),
{
    if bits.len() == 0 {
        0
    } else {
        count_trues(bits.drop_last()) + if bits.last() {
            1nat
        } else {
            0nat
        }
    }
}

#[derive(Debug)]
pub enum BitfieldError {
    OutOfBounds(usize),
    InvalidBytesLength { expected: usize, found: usize },
}

/// Bitfield used in the BitTorrent protocol, sized to a fixed piece count.
#[derive(Clone, Debug)]
pub struct Bitfield {
    bytes: Vec<u8>,
    pieces: usize,
}

impl View for Bitfield {
    type V = Seq<bool>;

    closed spec fn view(&self) -> Seq<bool> {
        bits_of_bytes(self.bytes@, self.pieces as nat)
    }
}

impl PartialEq for Bitfield {
    fn eq(&self, other: &Bitfield) -> (r: bool) {
        let r = self.pieces == other.pieces && self.bytes == other.bytes;
        proof {
            if r {
                assert(self.bytes@ =~= other.bytes@);
            }
        }
        r
    }
}

impl Eq for Bitfield {

}

impl vstd::std_specs::cmp::PartialEqSpecImpl for Bitfield {
    open spec fn obeys_eq_spec() -> bool {
        true
    }

    closed spec fn eq_spec(&self, other: &Bitfield) -> bool {
        self.pieces == other.pieces && self.bytes@ == other.bytes@
    }
}

impl Bitfield {
    /// Internal storage is exactly ceil(pieces/8) bytes with every bit past
    /// `pieces` clear.
    pub closed spec fn wf(&self) -> bool {
        &&& self.bytes@.len() == (self.pieces + 7) / 8
        &&& forall|i: int|
            self.pieces <= i < self.bytes@.len() * 8 ==> !nth_bit(self.bytes@, i)
    }

    /// Create a new empty bitfield for `pieces` pieces (all bits unset).
    pub fn new(pieces: usize) -> (r: Bitfield)
        ensures
            r.wf(),
            r@ == Seq::new(pieces as nat, |i: int| false),
            r@.len() == pieces,
    {
        let len = pieces / 8 + if pieces % 8 != 0 {
            1
        } else {
            0
        };
        let bytes = vec![0u8; len];
        let r = Bitfield { bytes, pieces };
        proof {
            assert forall|i: int| 0 <= i < r.bytes@.len() * 8 implies !nth_bit(r.bytes@, i) by {
                let k = i % 8;
                let kk = (7 - k) as u8;
                assert((0u8 >> kk) & 1 == 0) by (bit_vector)
                    requires
                        kk < 8,
                ;
            }
            assert(r@ =~= Seq::new(pieces as nat, |i: int| false));
        }
        r
    }

    /// Create a bitfield from raw bytes (wire format). `bytes` must contain
    /// at least ceil(pieces/8) bytes; extra bytes are ignored and unused
    /// low-order bits of the last byte are cleared.
    pub fn from_bytes(bytes: &[u8], pieces: usize) -> (r: Result<Bitfield, BitfieldError>)
        ensures
            r is Ok <==> bytes@.len() >= (pieces + 7) / 8,
            r matches Ok(bf) ==> bf.wf() && bf@ == bits_of_bytes(bytes@, pieces as nat),
            r matches Err(e) ==> e matches BitfieldError::InvalidBytesLength { expected, found }
                && expected == (pieces + 7) / 8 && found == bytes@.len(),
    {
        let required = pieces / 8 + if pieces % 8 != 0 {
            1
        } else {
            0
        };
        if bytes.len() < required {
            return Err(BitfieldError::InvalidBytesLength { expected: required, found: bytes.len() });
        }
        let mut v: Vec<u8> = Vec::new();
        let mut i: usize = 0;
        while i < required
            invariant
                i <= required,
                required <= bytes@.len(),
                v@ =~= bytes@.subrange(0, i as int),
            decreases required - i,
        {
            v.push(bytes[i]);
            i = i + 1;
        }
        if pieces % 8 != 0 && required > 0 {
            let used_bits = pieces % 8;
            let mask: u8 = 0xFFu8 << (8 - used_bits) as u8;
            let last = required - 1;
            let masked = v[last] & mask;
            v[last] = masked;
        }
        let r = Bitfield { bytes: v, pieces };
        proof {
            lemma_mask_effect(bytes@, r.bytes@, pieces as nat);
        }
        Ok(r)
    }

    /// Return a copy of the underlying bytes suitable for wire transmission;
    /// unused low-order bits of the last byte are zero.
    pub fn to_bytes(&self) -> (r: Vec<u8>)
        requires
            self.wf(),
        ensures
            r@ == bytes_of_bits(self@),
    {
        let r = self.bytes.clone();
        proof {
            assert(r@ =~= self.bytes@);
            lemma_wf_bytes_are_encoding(self.bytes@, self.pieces as nat);
            assert(r@ =~= bytes_of_bits(self@));
        }
        r
    }

    /// Number of pieces represented by this bitfield.
    pub fn len(&self) -> (r: usize)
        ensures
            r == self@.len(),
    {
        self.pieces
    }

    /// Whether the bitfield represents zero pieces.
    pub fn is_empty(&self) -> (r: bool)
        ensures
            r == (self@.len() == 0),
    {
        self.pieces == 0
    }

    /// Get whether piece `index` is available.
    pub fn get(&self, index: usize) -> (r: Result<bool, BitfieldError>)
        requires
            self.wf(),
        ensures
            r is Ok <==> index < self@.len(),
            r matches Ok(b) ==> b == self@[index as int],
            r matches Err(e) ==> e matches BitfieldError::OutOfBounds(i) && i == index,
    {
        if index >= self.pieces {
            return Err(BitfieldError::OutOfBounds(index));
        }
        let byte_idx = index / 8;
        let bit = 7 - (index % 8);
        Ok((self.bytes[byte_idx] >> bit as u8) & 1 == 1)
    }

    /// Whether piece `index` is available; indices outside the bitfield
    /// count as not available.
    pub fn has(&self, index: usize) -> (r: bool)
        requires
            self.wf(),
        ensures
            r == (index < self@.len() && self@[index as int]),
    {
        if index >= self.pieces {
            return false;
        }
        let byte_idx = index / 8;
        let bit = 7 - (index % 8);
        (self.bytes[byte_idx] >> bit as u8) & 1 == 1
    }

    /// Set or clear the bit for piece `index`.
    pub fn set(&mut self, index: usize, have: bool) -> (r: Result<(), BitfieldError>)
        requires
            old(self).wf(),
        ensures
            final(self).wf(),
            r is Ok <==> index < old(self)@.len(),
            r is Ok ==> final(self)@ == old(self)@.update(index as int, have),
            r is Err ==> *final(self) == *old(self),
            r matches Err(e) ==> e matches BitfieldError::OutOfBounds(i) && i == index,
    {
        if index >= self.pieces {
            return Err(BitfieldError::OutOfBounds(index));
        }
        let byte_idx = index / 8;
        let bit = (7 - (index % 8)) as u8;
        let mask: u8 = 1u8 << bit;
        let b_old = self.bytes[byte_idx];
        let b_new = if have {
            b_old | mask
        } else {
            b_old & !mask
        };
        self.bytes[byte_idx] = b_new;
        proof {
            lemma_set_bit(b_old, b_new, (index % 8) as int, have);
            assert forall|i: int| self.pieces <= i < self.bytes@.len() * 8 implies !nth_bit(
                self.bytes@,
                i,
            ) by {
                assert(!nth_bit(old(self).bytes@, i));
                assert(i == 8 * (i / 8) + i % 8);
                assert(index == 8 * byte_idx + index % 8);
                if i / 8 == byte_idx {
                    assert(i != index);
                    assert(i % 8 != index % 8);
                    assert(self.bytes@[i / 8] == b_new);
                    assert(byte_bit(b_new, i % 8) == byte_bit(b_old, i % 8));
                } else {
                    assert(self.bytes@[i / 8] == old(self).bytes@[i / 8]);
                }
            }
            assert forall|i: int| 0 <= i < self.pieces && i != index implies nth_bit(
                self.bytes@,
                i,
            ) == nth_bit(old(self).bytes@, i) by {
                assert(i == 8 * (i / 8) + i % 8);
                assert(index == 8 * byte_idx + index % 8);
                if i / 8 == byte_idx {
                    assert(i % 8 != index % 8);
                    assert(byte_bit(b_new, i % 8) == byte_bit(b_old, i % 8));
                }
            }
            assert(self@ =~= old(self)@.update(index as int, have));
        }
        Ok(())
    }

    /// Count the number of pieces marked as available.
    pub fn count_ones(&self) -> (r: usize)
        requires
            self.wf(),
        ensures
            r == count_trues(self@),
    {
        let mut cnt: usize = 0;
        let mut i: usize = 0;
        while i < self.pieces
            invariant
                i <= self.pieces,
                cnt <= i,
                cnt == count_trues(self@.take(i as int)),
            decreases self.pieces - i,
        {
            proof {
                assert(self@.take(i + 1).drop_last() =~= self@.take(i as int));
                assert(self@.take(i + 1).last() == self@[i as int]);
                assert(self@[i as int] == nth_bit(self.bytes@, i as int));
            }
            let b = self.bytes[i / 8];
            let bit = (7 - (i % 8)) as u8;
            if (b >> bit) & 1 == 1 {
                cnt = cnt + 1;
            }
            i = i + 1;
        }
        proof {
            assert(self@.take(self.pieces as int) =~= self@);
        }
        cnt
    }
}

/// Setting or clearing one MSB-first bit of a byte leaves its other bits
/// unchanged.
proof fn lemma_set_bit(b_old: u8, b_new: u8, k: int, have: bool)
    requires
        0 <= k < 8,
        b_new == if have {
            b_old | (1u8 << ((7 - k) as u8))
        } else {
            b_old & !(1u8 << ((7 - k) as u8))
        },
    ensures
        byte_bit(b_new, k) == have,
        forall|k2: int| 0 <= k2 < 8 && k2 != k ==> byte_bit(b_new, k2) == byte_bit(b_old, k2),
{
    let kk = (7 - k) as u8;
    assert forall|k2: int| 0 <= k2 < 8 && k2 != k implies byte_bit(b_new, k2) == byte_bit(
        b_old,
        k2,
    ) by {
        let kk2 = (7 - k2) as u8;
        assert(((b_old | (1u8 << kk)) >> kk2) & 1 == (b_old >> kk2) & 1
            && ((b_old & !(1u8 << kk)) >> kk2) & 1 == (b_old >> kk2) & 1) by (bit_vector)
            requires
                kk < 8,
                kk2 < 8,
                kk != kk2,
        ;
    }
    assert(((b_old | (1u8 << kk)) >> kk) & 1 == 1 && ((b_old & !(1u8 << kk)) >> kk) & 1 == 0)
        by (bit_vector)
        requires
            kk < 8,
    ;
}

/// Masking the last byte clears exactly the bits at and past `pieces` and
/// keeps the ones below.
proof fn lemma_mask_effect(src: Seq<u8>, dst: Seq<u8>, pieces: nat)
    requires
        dst.len() == (pieces + 7) / 8,
        dst.len() <= src.len(),
        forall|j: int| 0 <= j < dst.len() ==> dst[j] == if pieces % 8 != 0 && j == dst.len() - 1 {
            src[j] & (0xFFu8 << ((8 - pieces % 8) as u8))
        } else {
            src[j]
        },
    ensures
        forall|i: int| 0 <= i < pieces ==> nth_bit(dst, i) == nth_bit(src, i),
        forall|i: int| pieces <= i < dst.len() * 8 ==> !nth_bit(dst, i),
        bits_of_bytes(dst, pieces) =~= bits_of_bytes(src, pieces),
{
    let u = (pieces % 8) as int;
    assert forall|i: int| 0 <= i < pieces implies nth_bit(dst, i) == nth_bit(src, i) by {
        let j = i / 8;
        let k = i % 8;
        if u != 0 && j == dst.len() - 1 {
            let b = src[j];
            let uu = (8 - u) as u8;
            let kk = (7 - k) as u8;
            assert(((b & (0xFFu8 << uu)) >> kk) & 1 == (b >> kk) & 1) by (bit_vector)
                requires
                    0 < uu < 8,
                    kk < 8,
                    uu <= kk,
            ;
        }
    }
    assert forall|i: int| pieces <= i < dst.len() * 8 implies !nth_bit(dst, i) by {
        let j = i / 8;
        let k = i % 8;
        assert(j == dst.len() - 1 && u != 0 && k >= u);
        let b = src[j];
        let uu = (8 - u) as u8;
        let kk = (7 - k) as u8;
        assert(((b & (0xFFu8 << uu)) >> kk) & 1 == 0) by (bit_vector)
            requires
                0 < uu < 8,
                kk < 8,
                kk < uu,
        ;
    }
}

/// A byte equals the weighted sum of its MSB-first bits.
proof fn lemma_byte_from_bits(b: u8)
    ensures
        b == (if byte_bit(b, 0) {
            0x80int
        } else {
            0
        }) + (if byte_bit(b, 1) {
            0x40int
        } else {
            0
        }) + (if byte_bit(b, 2) {
            0x20int
        } else {
            0
        }) + (if byte_bit(b, 3) {
            0x10int
        } else {
            0
        }) + (if byte_bit(b, 4) {
            0x08int
        } else {
            0
        }) + (if byte_bit(b, 5) {
            0x04int
        } else {
            0
        }) + (if byte_bit(b, 6) {
            0x02int
        } else {
            0
        }) + (if byte_bit(b, 7) {
            0x01int
        } else {
            0
        }),
{
    assert(b == ((b >> 7u8) & 1) * 0x80 + ((b >> 6u8) & 1) * 0x40 + ((b >> 5u8) & 1) * 0x20 + ((b
        >> 4u8) & 1) * 0x10 + ((b >> 3u8) & 1) * 0x08 + ((b >> 2u8) & 1) * 0x04 + ((b >> 1u8) & 1)
        * 0x02 + ((b >> 0u8) & 1) * 0x01 && ((b >> 7u8) & 1) <= 1 && ((b >> 6u8) & 1) <= 1 && ((b
        >> 5u8) & 1) <= 1 && ((b >> 4u8) & 1) <= 1 && ((b >> 3u8) & 1) <= 1 && ((b >> 2u8) & 1)
        <= 1 && ((b >> 1u8) & 1) <= 1 && ((b >> 0u8) & 1) <= 1) by (bit_vector);
}

/// Under the storage invariant, the stored bytes are exactly the wire
/// encoding of the piece bits.
proof fn lemma_wf_bytes_are_encoding(bytes: Seq<u8>, pieces: nat)
    requires
        bytes.len() == (pieces + 7) / 8,
        forall|i: int| pieces <= i < bytes.len() * 8 ==> !nth_bit(bytes, i),
    ensures
        bytes =~= bytes_of_bits(bits_of_bytes(bytes, pieces)),
{
    let bits = bits_of_bytes(bytes, pieces);
    assert forall|j: int| 0 <= j < bytes.len() implies byte_of_bits(bits, j) == bytes[j] by {
        lemma_byte_from_bits(bytes[j]);
        lemma_term_of_wf_byte(bytes, pieces, j, 0, 0x80);
        lemma_term_of_wf_byte(bytes, pieces, j, 1, 0x40);
        lemma_term_of_wf_byte(bytes, pieces, j, 2, 0x20);
        lemma_term_of_wf_byte(bytes, pieces, j, 3, 0x10);
        lemma_term_of_wf_byte(bytes, pieces, j, 4, 0x08);
        lemma_term_of_wf_byte(bytes, pieces, j, 5, 0x04);
        lemma_term_of_wf_byte(bytes, pieces, j, 6, 0x02);
        lemma_term_of_wf_byte(bytes, pieces, j, 7, 0x01);
    }
}

/// Under the storage invariant, the contribution of bit `8j + k` to the
/// re-encoded byte `j` matches that bit of the stored byte.
proof fn lemma_term_of_wf_byte(bytes: Seq<u8>, pieces: nat, j: int, k: int, w: u8)
    requires
        bytes.len() == (pieces + 7) / 8,
        forall|i: int| pieces <= i < bytes.len() * 8 ==> !nth_bit(bytes, i),
        0 <= j < bytes.len(),
        0 <= k < 8,
    ensures
        bit_term(bits_of_bytes(bytes, pieces), 8 * j + k, w) == if byte_bit(bytes[j], k) {
            w as int
        } else {
            0
        },
{
    let bits = bits_of_bytes(bytes, pieces);
    let i = 8 * j + k;
    assert(i / 8 == j && i % 8 == k);
    if i < pieces {
        assert(bits[i] == nth_bit(bytes, i));
    } else {
        assert(i < bytes.len() * 8);
        assert(!nth_bit(bytes, i));
    }
}

/// The MSB-first weight of bit position `k` in a byte.
pub open spec fn byte_weight(k: int) -> u8 {
    if k == 0 {
        0x80
    } else if k == 1 {
        0x40
    } else if k == 2 {
        0x20
    } else if k == 3 {
        0x10
    } else if k == 4 {
        0x08
    } else if k == 5 {
        0x04
    } else if k == 6 {
        0x02
    } else {
        0x01
    }
}

/// Round trip: re-reading a bitfield's wire bytes at its own length gives
/// the same bits back, for every length, including lengths that are not a
/// multiple of eight.
pub proof fn lemma_bitfield_round_trip(bits: Seq<bool>)
    ensures
        bits_of_bytes(bytes_of_bits(bits), bits.len()) =~= bits,
{
    let bytes = bytes_of_bits(bits);
    assert forall|i: int| 0 <= i < bits.len() implies nth_bit(bytes, i) == bits[i] by {
        let j = i / 8;
        let k = i % 8;
        lemma_bit_of_byte_of_bits(bits, j, k);
    }
}

/// Bit `k` of encoded byte `j` is bit `8j + k` of the source bits, and
/// zero past their end.
proof fn lemma_bit_of_byte_of_bits(bits: Seq<bool>, j: int, k: int)
    requires
        0 <= k < 8,
        0 <= j,
    ensures
        byte_bit(byte_of_bits(bits, j), k) == (8 * j + k < bits.len() && bits[8 * j + k]),
{
    let x0: u8 = if bit_term(bits, 8 * j, 0x80) != 0 {
        1
    } else {
        0
    };
    let x1: u8 = if bit_term(bits, 8 * j + 1, 0x40) != 0 {
        1
    } else {
        0
    };
    let x2: u8 = if bit_term(bits, 8 * j + 2, 0x20) != 0 {
        1
    } else {
        0
    };
    let x3: u8 = if bit_term(bits, 8 * j + 3, 0x10) != 0 {
        1
    } else {
        0
    };
    let x4: u8 = if bit_term(bits, 8 * j + 4, 0x08) != 0 {
        1
    } else {
        0
    };
    let x5: u8 = if bit_term(bits, 8 * j + 5, 0x04) != 0 {
        1
    } else {
        0
    };
    let x6: u8 = if bit_term(bits, 8 * j + 6, 0x02) != 0 {
        1
    } else {
        0
    };
    let x7: u8 = if bit_term(bits, 8 * j + 7, 0x01) != 0 {
        1
    } else {
        0
    };
    let b = byte_of_bits(bits, j);
    assert(b == x0 * 0x80 + x1 * 0x40 + x2 * 0x20 + x3 * 0x10 + x4 * 0x08 + x5 * 0x04 + x6 * 0x02
        + x7 * 0x01);
    let kk = (7 - k) as u8;
    let xk: u8 = if k == 0 {
        x0
    } else if k == 1 {
        x1
    } else if k == 2 {
        x2
    } else if k == 3 {
        x3
    } else if k == 4 {
        x4
    } else if k == 5 {
        x5
    } else if k == 6 {
        x6
    } else {
        x7
    };
    assert((((x0 * 0x80 + x1 * 0x40 + x2 * 0x20 + x3 * 0x10 + x4 * 0x08 + x5 * 0x04 + x6 * 0x02
        + x7 * 0x01) as u8) >> kk) & 1 == (if kk == 7 {
        x0
    } else if kk == 6 {
        x1
    } else if kk == 5 {
        x2
    } else if kk == 4 {
        x3
    } else if kk == 3 {
        x4
    } else if kk == 2 {
        x5
    } else if kk == 1 {
        x6
    } else {
        x7
    })) by (bit_vector)
        requires
            x0 <= 1 && x1 <= 1 && x2 <= 1 && x3 <= 1 && x4 <= 1 && x5 <= 1 && x6 <= 1 && x7 <= 1,
            kk < 8,
    ;
    assert(byte_bit(b, k) == (xk == 1));
}

/// The unused low-order bits of the last wire byte — every bit position
/// at or past the piece count — are always zero.
pub proof fn lemma_bitfield_trailing_zero(bits: Seq<bool>, i: int)
    requires
        bits.len() <= i < bytes_of_bits(bits).len() * 8,
    ensures
        !nth_bit(bytes_of_bits(bits), i),
{
    lemma_bit_of_byte_of_bits(bits, i / 8, i % 8);
}

} // verus!
