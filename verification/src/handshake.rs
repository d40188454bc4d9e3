//! The fixed-format BitTorrent wire handshake:
//! `[1:pstrlen][pstrlen:pstr][8:reserved][20:info_hash][20:peer_id]`.
//! With the canonical 19-byte protocol string the whole handshake is 68
//! bytes. The codec itself does not compare info hashes; that policy
//! belongs to the connection layer.
use crate::wire::copy_range;
use vstd::prelude::*;

verus! {

/// Total byte length of a wire handshake with the canonical protocol
/// string: 1 + 19 + 8 + 20 + 20.
pub const HANDSHAKE_LEN: usize = 68;

/// The bytes of the canonical protocol string "BitTorrent protocol".
pub open spec fn bt_pstr() -> Seq<u8> {
    seq![
        0x42u8, 0x69, 0x74, 0x54, 0x6f, 0x72, 0x72, 0x65, 0x6e, 0x74, 0x20, 0x70, 0x72, 0x6f,
        0x74, 0x6f, 0x63, 0x6f, 0x6c,
    ]
}

/// The wire bytes of a handshake.
pub open spec fn spec_handshake_bytes(h: Handshake) -> Seq<u8> {
    seq![h.pstr@.len() as u8] + h.pstr@ + h.reserved@ + h.info_hash@ + h.peer_id@
}

#[derive(Debug)]
pub enum HandshakeError {
    /// The buffer holds no bytes at all.
    Empty,
    /// The buffer ends before the length its first byte declares.
    TooShort { needed: usize, found: usize },
}

/// Representation of a BitTorrent handshake: protocol string, 8 reserved
/// extension bytes, 20-byte info hash and 20-byte peer id.
#[derive(Clone, Debug)]
pub struct Handshake {
    pub pstr: Vec<u8>,
    pub reserved: Vec<u8>,
    pub info_hash: Vec<u8>,
    pub peer_id: Vec<u8>,
}

impl PartialEq for Handshake {
    fn eq(&self, other: &Handshake) -> (r: bool) {
        let r = self.pstr == other.pstr && self.reserved == other.reserved && self.info_hash
            == other.info_hash && self.peer_id == other.peer_id;
        proof {
            if r {
                assert(self.pstr@ =~= other.pstr@);
                assert(self.reserved@ =~= other.reserved@);
                assert(self.info_hash@ =~= other.info_hash@);
                assert(self.peer_id@ =~= other.peer_id@);
            }
        }
        r
    }
}

impl Eq for Handshake {

}

impl vstd::std_specs::cmp::PartialEqSpecImpl for Handshake {
    open spec fn obeys_eq_spec() -> bool {
        true
    }

    open spec fn eq_spec(&self, other: &Handshake) -> bool {
        self.pstr@ == other.pstr@ && self.reserved@ == other.reserved@ && self.info_hash@
            == other.info_hash@ && self.peer_id@ == other.peer_id@
    }
}

impl Handshake {
    /// Field sizes are those of the wire format; the protocol string fits
    /// its one-byte length prefix.
    pub open spec fn wf(&self) -> bool {
        &&& self.pstr@.len() <= 255
        &&& self.reserved@.len() == 8
        &&& self.info_hash@.len() == 20
        &&& self.peer_id@.len() == 20
    }

    /// Create a standard handshake with the canonical protocol string and
    /// all-zero reserved bytes.
    pub fn new(info_hash: Vec<u8>, peer_id: Vec<u8>) -> (r: Handshake)
        requires
            info_hash@.len() == 20,
            peer_id@.len() == 20,
        ensures
            r.wf(),
            r.pstr@ == bt_pstr(),
            r.reserved@ == Seq::new(8, |i: int| 0u8),
            r.info_hash@ == info_hash@,
            r.peer_id@ == peer_id@,
    {
        let mut pstr: Vec<u8> = Vec::new();
        pstr.push(0x42);
        pstr.push(0x69);
        pstr.push(0x74);
        pstr.push(0x54);
        pstr.push(0x6f);
        pstr.push(0x72);
        pstr.push(0x72);
        pstr.push(0x65);
        pstr.push(0x6e);
        pstr.push(0x74);
        pstr.push(0x20);
        pstr.push(0x70);
        pstr.push(0x72);
        pstr.push(0x6f);
        pstr.push(0x74);
        pstr.push(0x6f);
        pstr.push(0x63);
        pstr.push(0x6f);
        pstr.push(0x6c);
        proof {
            assert(pstr@ =~= bt_pstr());
        }
        let reserved = vec![0u8; 8];
        proof {
            assert(reserved@ =~= Seq::new(8, |i: int| 0u8));
        }
        Handshake { pstr, reserved, info_hash, peer_id }
    }

    /// Serialize the handshake to wire bytes.
    pub fn to_bytes(&self) -> (r: Vec<u8>)
        requires
            self.wf(),
        ensures
            r@ == spec_handshake_bytes(*self),
            r@.len() == 49 + self.pstr@.len(),
    {
        let mut buf: Vec<u8> = Vec::new();
        buf.push(self.pstr.len() as u8);
        buf.extend_from_slice(self.pstr.as_slice());
        buf.extend_from_slice(self.reserved.as_slice());
        buf.extend_from_slice(self.info_hash.as_slice());
        buf.extend_from_slice(self.peer_id.as_slice());
        proof {
            assert(buf@ =~= spec_handshake_bytes(*self));
        }
        buf
    }

    /// Parse a handshake from a byte slice. The buffer must hold at least
    /// `1 + pstrlen + 48` bytes, where `pstrlen` is its first byte; any
    /// trailing bytes are ignored.
    pub fn from_bytes(buf: &[u8]) -> (r: Result<Handshake, HandshakeError>)
        ensures
            r is Ok <==> buf@.len() >= 1 && buf@.len() >= 49 + buf@[0],
            r matches Ok(h) ==> {
                let p = buf@[0] as int;
                &&& h.wf()
                &&& h.pstr@ == buf@.subrange(1, 1 + p)
                &&& h.reserved@ == buf@.subrange(1 + p, 9 + p)
                &&& h.info_hash@ == buf@.subrange(9 + p, 29 + p)
                &&& h.peer_id@ == buf@.subrange(29 + p, 49 + p)
            },
            r matches Err(e) ==> if buf@.len() == 0 {
                e is Empty
            } else {
                e matches HandshakeError::TooShort { needed, found } && needed == 49 + buf@[0]
                    && found == buf@.len()
            },
    {
        if buf.len() == 0 {
            return Err(HandshakeError::Empty);
        }
        let pstrlen = buf[0] as usize;
        let expected_len = 49 + pstrlen;
        if buf.len() < expected_len {
            return Err(HandshakeError::TooShort { needed: expected_len, found: buf.len() });
        }
        let pstr = copy_range(buf, 1, 1 + pstrlen);
        let reserved = copy_range(buf, 1 + pstrlen, 9 + pstrlen);
        let info_hash = copy_range(buf, 9 + pstrlen, 29 + pstrlen);
        let peer_id = copy_range(buf, 29 + pstrlen, 49 + pstrlen);
        Ok(Handshake { pstr, reserved, info_hash, peer_id })
    }
}

/// Parsing the wire bytes of a well-formed handshake gives the handshake
/// back.
pub proof fn lemma_handshake_round_trip(h: Handshake)
    requires
        h.wf(),
    ensures
        ({
            let bytes = spec_handshake_bytes(h);
            &&& bytes.len() >= 49 + bytes[0]
            &&& bytes.subrange(1, 1 + h.pstr@.len() as int) == h.pstr@
            &&& bytes.subrange(1 + h.pstr@.len() as int, 9 + h.pstr@.len() as int) == h.reserved@
            &&& bytes.subrange(9 + h.pstr@.len() as int, 29 + h.pstr@.len() as int) == h.info_hash@
            &&& bytes.subrange(29 + h.pstr@.len() as int, 49 + h.pstr@.len() as int) == h.peer_id@
        }),
{
    let bytes = spec_handshake_bytes(h);
    let p = h.pstr@.len() as int;
    assert(bytes[0] == p as u8);
    assert(bytes.subrange(1, 1 + p) =~= h.pstr@);
    assert(bytes.subrange(1 + p, 9 + p) =~= h.reserved@);
    assert(bytes.subrange(9 + p, 29 + p) =~= h.info_hash@);
    assert(bytes.subrange(29 + p, 49 + p) =~= h.peer_id@);
}

} // verus!
