//! Errors of the connection layer, and its handshake-acceptance policy.
//!
//! The connection layer proper (opening a TCP stream, bounded reads and
//! writes) performs I/O and lives outside the verified library; it feeds
//! the bytes it read into `validate_remote_handshake` and sends the bytes
//! the codecs here produce.
use crate::handshake::Handshake;
use crate::wire::bytes_eq;
use vstd::prelude::*;

verus! {

/// Connection-level failures. I/O and timeout variants are produced by the
/// transport around the library; handshake and message variants by the
/// validation and framing logic here.
#[derive(Debug)]
pub enum ConnectionError {
    Io(String),
    Timeout,
    Handshake(String),
    Message(String),
}

/// Validate the 68 bytes read for the remote handshake: they must parse as
/// a handshake and carry exactly the expected info hash. Returns the remote
/// handshake on success; the remote peer id is `peer_id` of the result.
pub fn validate_remote_handshake(buf: &[u8], expected_info_hash: &Vec<u8>) -> (r: Result<
    Handshake,
    ConnectionError,
>)
    ensures
        r is Ok <==> buf@.len() >= 1 && buf@.len() >= 49 + buf@[0] && buf@.subrange(
            9 + buf@[0] as int,
            29 + buf@[0] as int,
        ) == expected_info_hash@,
        r matches Ok(h) ==> {
            let p = buf@[0] as int;
            &&& h.wf()
            &&& h.info_hash@ == expected_info_hash@
            &&& h.pstr@ == buf@.subrange(1, 1 + p)
            &&& h.reserved@ == buf@.subrange(1 + p, 9 + p)
            &&& h.peer_id@ == buf@.subrange(29 + p, 49 + p)
        },
        r matches Err(e) ==> e is Handshake,
{
    let hs = match Handshake::from_bytes(buf) {
        Ok(h) => h,
        Err(_) => {
            return Err(ConnectionError::Handshake(malformed_handshake_msg()));
        },
    };
    if !bytes_eq(&hs.info_hash, expected_info_hash) {
        return Err(ConnectionError::Handshake(info_hash_mismatch_msg()));
    }
    Ok(hs)
}

fn malformed_handshake_msg() -> String {
    "malformed handshake".to_owned()
}

fn info_hash_mismatch_msg() -> String {
    "info_hash mismatch".to_owned()
}

} // verus!
