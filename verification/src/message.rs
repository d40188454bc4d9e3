//! Peer wire messages: `[4:BE length][1:id][payload]`, length 0 meaning
//! keep-alive. IDs: 0 choke, 1 unchoke, 2 interested, 3 not-interested,
//! 4 have (4 bytes), 5 bitfield, 6 request (12 bytes), 7 piece (at least
//! 8 bytes), 8 cancel (12 bytes), 9 port (2 bytes), 20 extension (opaque).
use crate::wire::{be_of_u16, be_of_u32, u16_of_be, u32_of_be};
use crate::wire::{push_u16_be, push_u32_be, u16_from_be, u32_from_be};
use vstd::prelude::*;

verus! {

/// BitTorrent peer-to-peer protocol messages (not including the handshake).
#[derive(Debug, Clone)]
pub enum Message {
    KeepAlive,
    Choke,
    Unchoke,
    Interested,
    NotInterested,
    Have(u32),
    Bitfield(Vec<u8>),
    Request { index: u32, begin: u32, length: u32 },
    Piece { index: u32, begin: u32, block: Vec<u8> },
    Cancel { index: u32, begin: u32, length: u32 },
    Port(u16),
    Extension(Vec<u8>),
}

/// Mathematical shape of a message: as `Message`, with byte payloads as
/// sequences.
pub enum MessageView {
    KeepAlive,
    Choke,
    Unchoke,
    Interested,
    NotInterested,
    Have(u32),
    Bitfield(Seq<u8>),
    Request { index: u32, begin: u32, length: u32 },
    Piece { index: u32, begin: u32, block: Seq<u8> },
    Cancel { index: u32, begin: u32, length: u32 },
    Port(u16),
    Extension(Seq<u8>),
}

impl View for Message {
    type V = MessageView;

    open spec fn view(&self) -> MessageView {
        match self {
            Message::KeepAlive => MessageView::KeepAlive,
            Message::Choke => MessageView::Choke,
            Message::Unchoke => MessageView::Unchoke,
            Message::Interested => MessageView::Interested,
            Message::NotInterested => MessageView::NotInterested,
            Message::Have(x) => MessageView::Have(*x),
            Message::Bitfield(b) => MessageView::Bitfield(b@),
            Message::Request { index, begin, length } => MessageView::Request {
                index: *index,
                begin: *begin,
                length: *length,
            },
            Message::Piece { index, begin, block } => MessageView::Piece {
                index: *index,
                begin: *begin,
                block: block@,
            },
            Message::Cancel { index, begin, length } => MessageView::Cancel {
                index: *index,
                begin: *begin,
                length: *length,
            },
            Message::Port(p) => MessageView::Port(*p),
            Message::Extension(b) => MessageView::Extension(b@),
        }
    }
}

impl PartialEq for Message {
    fn eq(&self, other: &Message) -> (r: bool) {
        let r = match (self, other) {
            (Message::KeepAlive, Message::KeepAlive) => true,
            (Message::Choke, Message::Choke) => true,
            (Message::Unchoke, Message::Unchoke) => true,
            (Message::Interested, Message::Interested) => true,
            (Message::NotInterested, Message::NotInterested) => true,
            (Message::Have(a), Message::Have(b)) => a == b,
            (Message::Bitfield(a), Message::Bitfield(b)) => a == b,
            (
                Message::Request { index: i1, begin: b1, length: l1 },
                Message::Request { index: i2, begin: b2, length: l2 },
            ) => i1 == i2 && b1 == b2 && l1 == l2,
            (
                Message::Piece { index: i1, begin: b1, block: k1 },
                Message::Piece { index: i2, begin: b2, block: k2 },
            ) => i1 == i2 && b1 == b2 && k1 == k2,
            (
                Message::Cancel { index: i1, begin: b1, length: l1 },
                Message::Cancel { index: i2, begin: b2, length: l2 },
            ) => i1 == i2 && b1 == b2 && l1 == l2,
            (Message::Port(a), Message::Port(b)) => a == b,
            (Message::Extension(a), Message::Extension(b)) => a == b,
            _ => false,
        };
        proof {
            match (self, other) {
                (Message::Bitfield(a), Message::Bitfield(b)) => {
                    if r {
                        assert(a@ =~= b@);
                    }
                },
                (
                    Message::Piece { index: i1, begin: b1, block: k1 },
                    Message::Piece { index: i2, begin: b2, block: k2 },
                ) => {
                    if r {
                        assert(k1@ =~= k2@);
                    }
                },
                (Message::Extension(a), Message::Extension(b)) => {
                    if r {
                        assert(a@ =~= b@);
                    }
                },
                _ => {},
            }
        }
        r
    }
}

impl Eq for Message {

}

impl vstd::std_specs::cmp::PartialEqSpecImpl for Message {
    open spec fn obeys_eq_spec() -> bool {
        true
    }

    open spec fn eq_spec(&self, other: &Message) -> bool {
        self@ == other@
    }
}

/// Decoding failures, one per malformed shape the wire can present.
#[derive(Debug, PartialEq, Eq, Structural)]
pub enum MessageError {
    HavePayloadSize,
    RequestPayloadSize,
    PiecePayloadTooSmall,
    CancelPayloadSize,
    PortPayloadSize,
    UnknownId(u8),
}

/// A full frame with the given id byte: big-endian length prefix covering
/// id and payload, then the id, then the payload.
pub open spec fn spec_frame(id: u8, payload: Seq<u8>) -> Seq<u8> {
    be_of_u32((1 + payload.len()) as u32) + seq![id] + payload
}

/// The wire bytes of a message, length prefix included. A keep-alive is
/// the bare prefix 0.
pub open spec fn spec_message_bytes(m: MessageView) -> Seq<u8> {
    match m {
        MessageView::KeepAlive => be_of_u32(0),
        MessageView::Choke => spec_frame(0, seq![]),
        MessageView::Unchoke => spec_frame(1, seq![]),
        MessageView::Interested => spec_frame(2, seq![]),
        MessageView::NotInterested => spec_frame(3, seq![]),
        MessageView::Have(x) => spec_frame(4, be_of_u32(x)),
        MessageView::Bitfield(b) => spec_frame(5, b),
        MessageView::Request { index, begin, length } => spec_frame(
            6,
            be_of_u32(index) + be_of_u32(begin) + be_of_u32(length),
        ),
        MessageView::Piece { index, begin, block } => spec_frame(
            7,
            be_of_u32(index) + be_of_u32(begin) + block,
        ),
        MessageView::Cancel { index, begin, length } => spec_frame(
            8,
            be_of_u32(index) + be_of_u32(begin) + be_of_u32(length),
        ),
        MessageView::Port(p) => spec_frame(9, be_of_u16(p)),
        MessageView::Extension(b) => spec_frame(20, b),
    }
}

/// Every payload fits the 32-bit length prefix.
pub open spec fn msg_wf(m: MessageView) -> bool {
    match m {
        MessageView::Bitfield(b) => b.len() + 1 <= u32::MAX,
        MessageView::Piece { index, begin, block } => block.len() + 9 <= u32::MAX,
        MessageView::Extension(b) => b.len() + 1 <= u32::MAX,
        _ => true,
    }
}

/// The message denoted by a frame body (the bytes after the length
/// prefix): empty means keep-alive, else one id byte and its payload.
pub open spec fn spec_decode_body(body: Seq<u8>) -> Result<MessageView, MessageError> {
    if body.len() == 0 {
        Ok(MessageView::KeepAlive)
    } else {
        let id = body[0];
        let payload = body.skip(1);
        if id == 0 {
            Ok(MessageView::Choke)
        } else if id == 1 {
            Ok(MessageView::Unchoke)
        } else if id == 2 {
            Ok(MessageView::Interested)
        } else if id == 3 {
            Ok(MessageView::NotInterested)
        } else if id == 4 {
            if payload.len() == 4 {
                Ok(MessageView::Have(u32_of_be(payload[0], payload[1], payload[2], payload[3])))
            } else {
                Err(MessageError::HavePayloadSize)
            }
        } else if id == 5 {
            Ok(MessageView::Bitfield(payload))
        } else if id == 6 {
            if payload.len() == 12 {
                Ok(
                    MessageView::Request {
                        index: u32_of_be(payload[0], payload[1], payload[2], payload[3]),
                        begin: u32_of_be(payload[4], payload[5], payload[6], payload[7]),
                        length: u32_of_be(payload[8], payload[9], payload[10], payload[11]),
                    },
                )
            } else {
                Err(MessageError::RequestPayloadSize)
            }
        } else if id == 7 {
            if payload.len() >= 8 {
                Ok(
                    MessageView::Piece {
                        index: u32_of_be(payload[0], payload[1], payload[2], payload[3]),
                        begin: u32_of_be(payload[4], payload[5], payload[6], payload[7]),
                        block: payload.skip(8),
                    },
                )
            } else {
                Err(MessageError::PiecePayloadTooSmall)
            }
        } else if id == 8 {
            if payload.len() == 12 {
                Ok(
                    MessageView::Cancel {
                        index: u32_of_be(payload[0], payload[1], payload[2], payload[3]),
                        begin: u32_of_be(payload[4], payload[5], payload[6], payload[7]),
                        length: u32_of_be(payload[8], payload[9], payload[10], payload[11]),
                    },
                )
            } else {
                Err(MessageError::CancelPayloadSize)
            }
        } else if id == 9 {
            if payload.len() == 2 {
                Ok(MessageView::Port(u16_of_be(payload[0], payload[1])))
            } else {
                Err(MessageError::PortPayloadSize)
            }
        } else if id == 20 {
            Ok(MessageView::Extension(payload))
        } else {
            Err(MessageError::UnknownId(id))
        }
    }
}

/// Build a full frame: length prefix covering id and payload, the id
/// byte, then the payload.
fn message_with_id(id: u8, payload: &[u8]) -> (r: Vec<u8>)
    requires
        payload@.len() + 1 <= u32::MAX,
    ensures
        r@ == spec_frame(id, payload@),
{
    let len = 1u32 + payload.len() as u32;
    let mut v: Vec<u8> = Vec::new();
    push_u32_be(&mut v, len);
    v.push(id);
    v.extend_from_slice(payload);
    proof {
        assert(v@ =~= spec_frame(id, payload@));
    }
    v
}

impl Message {
    /// Executable well-formedness: every payload fits the length prefix.
    pub fn check_wf(&self) -> (r: bool)
        ensures
            r == msg_wf(self@),
    {
        match self {
            Message::Bitfield(b) => b.len() <= (u32::MAX - 1) as usize,
            Message::Piece { index: _, begin: _, block } => block.len() <= (u32::MAX - 9) as usize,
            Message::Extension(b) => b.len() <= (u32::MAX - 1) as usize,
            _ => true,
        }
    }

    /// Serialize the message into wire bytes: length prefix, id, payload.
    pub fn to_bytes(&self) -> (r: Vec<u8>)
        requires
            msg_wf(self@),
        ensures
            r@ == spec_message_bytes(self@),
    {
        let v: Vec<u8> = match self {
            Message::KeepAlive => {
                let mut v: Vec<u8> = Vec::new();
                push_u32_be(&mut v, 0);
                v
            },
            Message::Choke => message_with_id(0, &[]),
            Message::Unchoke => message_with_id(1, &[]),
            Message::Interested => message_with_id(2, &[]),
            Message::NotInterested => message_with_id(3, &[]),
            Message::Have(index) => {
                let mut payload: Vec<u8> = Vec::new();
                push_u32_be(&mut payload, *index);
                message_with_id(4, payload.as_slice())
            },
            Message::Bitfield(bits) => message_with_id(5, bits.as_slice()),
            Message::Request { index, begin, length } => {
                let mut payload: Vec<u8> = Vec::new();
                push_u32_be(&mut payload, *index);
                push_u32_be(&mut payload, *begin);
                push_u32_be(&mut payload, *length);
                message_with_id(6, payload.as_slice())
            },
            Message::Piece { index, begin, block } => {
                let mut payload: Vec<u8> = Vec::new();
                push_u32_be(&mut payload, *index);
                push_u32_be(&mut payload, *begin);
                payload.extend_from_slice(block.as_slice());
                message_with_id(7, payload.as_slice())
            },
            Message::Cancel { index, begin, length } => {
                let mut payload: Vec<u8> = Vec::new();
                push_u32_be(&mut payload, *index);
                push_u32_be(&mut payload, *begin);
                push_u32_be(&mut payload, *length);
                message_with_id(8, payload.as_slice())
            },
            Message::Port(port) => {
                let mut payload: Vec<u8> = Vec::new();
                push_u16_be(&mut payload, *port);
                message_with_id(9, payload.as_slice())
            },
            Message::Extension(payload) => message_with_id(20, payload.as_slice()),
        };
        proof {
            assert(v@ =~= spec_message_bytes(self@));
        }
        v
    }

    /// Decode one message from a frame body: the bytes of a frame after
    /// its 4-byte length prefix. An empty body is a keep-alive.
    pub fn from_bytes(body: &[u8]) -> (r: Result<Message, MessageError>)
        ensures
            r is Ok <==> spec_decode_body(body@) is Ok,
            r matches Ok(m) ==> spec_decode_body(body@) matches Ok(mv) && m@ == mv,
            r matches Err(e) ==> spec_decode_body(body@) matches Err(e2) && e == e2,
    {
        if body.len() == 0 {
            return Ok(Message::KeepAlive);
        }
        let id = body[0];
        let n = body.len();
        proof {
            assert(body@.skip(1).len() == n - 1);
        }
        match id {
            0 => Ok(Message::Choke),
            1 => Ok(Message::Unchoke),
            2 => Ok(Message::Interested),
            3 => Ok(Message::NotInterested),
            4 => {
                if n - 1 != 4 {
                    return Err(MessageError::HavePayloadSize);
                }
                let idx = u32_from_be(body[1], body[2], body[3], body[4]);
                proof {
                    lemma_skip_index(body@, 4);
                }
                Ok(Message::Have(idx))
            },
            5 => {
                let payload = crate::wire::copy_range(body, 1, n);
                proof {
                    assert(payload@ =~= body@.skip(1));
                }
                Ok(Message::Bitfield(payload))
            },
            6 => {
                if n - 1 != 12 {
                    return Err(MessageError::RequestPayloadSize);
                }
                proof {
                    lemma_skip_index(body@, 12);
                }
                Ok(
                    Message::Request {
                        index: u32_from_be(body[1], body[2], body[3], body[4]),
                        begin: u32_from_be(body[5], body[6], body[7], body[8]),
                        length: u32_from_be(body[9], body[10], body[11], body[12]),
                    },
                )
            },
            7 => {
                if n - 1 < 8 {
                    return Err(MessageError::PiecePayloadTooSmall);
                }
                let index = u32_from_be(body[1], body[2], body[3], body[4]);
                let begin = u32_from_be(body[5], body[6], body[7], body[8]);
                let block = crate::wire::copy_range(body, 9, n);
                proof {
                    lemma_skip_index(body@, (n - 1) as int);
                    assert(block@ =~= body@.skip(1).skip(8));
                }
                Ok(Message::Piece { index, begin, block })
            },
            8 => {
                if n - 1 != 12 {
                    return Err(MessageError::CancelPayloadSize);
                }
                proof {
                    lemma_skip_index(body@, 12);
                }
                Ok(
                    Message::Cancel {
                        index: u32_from_be(body[1], body[2], body[3], body[4]),
                        begin: u32_from_be(body[5], body[6], body[7], body[8]),
                        length: u32_from_be(body[9], body[10], body[11], body[12]),
                    },
                )
            },
            9 => {
                if n - 1 != 2 {
                    return Err(MessageError::PortPayloadSize);
                }
                proof {
                    lemma_skip_index(body@, 2);
                }
                Ok(Message::Port(u16_from_be(body[1], body[2])))
            },
            20 => {
                let payload = crate::wire::copy_range(body, 1, n);
                proof {
                    assert(payload@ =~= body@.skip(1));
                }
                Ok(Message::Extension(payload))
            },
            other => Err(MessageError::UnknownId(other)),
        }
    }
}

/// Each of the first `k` elements of `body.skip(1)` is the element one
/// place later in `body`.
proof fn lemma_skip_index(body: Seq<u8>, k: int)
    requires
        1 + k <= body.len(),
    ensures
        forall|i: int| 0 <= i < k ==> body.skip(1)[i] == body[i + 1],
{
}

/// Round trip: decoding the frame body of an encoded message gives the
/// message back, for every message whose payload fits a frame, including
/// an empty bitfield and any piece block.
pub proof fn lemma_message_round_trip(m: MessageView)
    requires
        msg_wf(m),
    ensures
        spec_decode_body(spec_message_bytes(m).skip(4)) == Ok::<MessageView, MessageError>(m),
{
    let bytes = spec_message_bytes(m);
    let body = bytes.skip(4);
    match m {
        MessageView::KeepAlive => {
            assert(body =~= Seq::<u8>::empty());
        },
        MessageView::Choke => {
            assert(body =~= seq![0u8]);
        },
        MessageView::Unchoke => {
            assert(body =~= seq![1u8]);
        },
        MessageView::Interested => {
            assert(body =~= seq![2u8]);
        },
        MessageView::NotInterested => {
            assert(body =~= seq![3u8]);
        },
        MessageView::Have(x) => {
            assert(body =~= seq![4u8] + be_of_u32(x));
            assert(body.skip(1) =~= be_of_u32(x));
            crate::wire::lemma_u32_be_round_trip(x);
        },
        MessageView::Bitfield(b) => {
            assert(body =~= seq![5u8] + b);
            assert(body.skip(1) =~= b);
        },
        MessageView::Request { index, begin, length } => {
            let payload = be_of_u32(index) + be_of_u32(begin) + be_of_u32(length);
            assert(body =~= seq![6u8] + payload);
            assert(body.skip(1) =~= payload);
            crate::wire::lemma_u32_be_round_trip(index);
            crate::wire::lemma_u32_be_round_trip(begin);
            crate::wire::lemma_u32_be_round_trip(length);
        },
        MessageView::Piece { index, begin, block } => {
            let payload = be_of_u32(index) + be_of_u32(begin) + block;
            assert(body =~= seq![7u8] + payload);
            assert(body.skip(1) =~= payload);
            assert(payload.skip(8) =~= block);
            crate::wire::lemma_u32_be_round_trip(index);
            crate::wire::lemma_u32_be_round_trip(begin);
        },
        MessageView::Cancel { index, begin, length } => {
            let payload = be_of_u32(index) + be_of_u32(begin) + be_of_u32(length);
            assert(body =~= seq![8u8] + payload);
            assert(body.skip(1) =~= payload);
            crate::wire::lemma_u32_be_round_trip(index);
            crate::wire::lemma_u32_be_round_trip(begin);
            crate::wire::lemma_u32_be_round_trip(length);
        },
        MessageView::Port(p) => {
            assert(body =~= seq![9u8] + be_of_u16(p));
            assert(body.skip(1) =~= be_of_u16(p));
            crate::wire::lemma_u16_be_round_trip(p);
        },
        MessageView::Extension(b) => {
            assert(body =~= seq![20u8] + b);
            assert(body.skip(1) =~= b);
        },
    }
}

} // verus!
