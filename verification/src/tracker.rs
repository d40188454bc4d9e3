//! UDP tracker announce codec: the 16-byte connect exchange, the 98-byte
//! announce request, and the compact IPv4 peer list of the announce
//! response. A response is accepted only if its action and echoed
//! transaction id match the request; the socket work around these codecs
//! is blocking-with-timeout I/O and lives outside the verified library.
use crate::torrent::Torrent;
use crate::wire::{be_of_u16, be_of_u32, be_of_u64, u16_of_be, u32_of_be, u64_of_be};
use crate::wire::{push_u16_be, push_u32_be, push_u64_be, u16_from_be, u32_from_be, u64_from_be};
use vstd::prelude::*;

verus! {

/// The fixed magic protocol id of the UDP tracker protocol.
pub const PROTOCOL_ID: u64 = 0x41727101980;

/// Action code of a connect exchange.
pub const CONNECT_ACTION: u32 = 0;

/// Action code of an announce exchange.
pub const ANNOUNCE_ACTION: u32 = 1;

#[derive(Debug, PartialEq, Eq, Structural)]
pub enum TrackerError {
    /// A connect response of fewer than 16 bytes.
    ShortConnectResponse(usize),
    /// A connect response whose action or transaction id does not match.
    InvalidConnectResponse,
    /// An announce response of fewer than 20 bytes.
    ShortAnnounceResponse(usize),
    /// An announce response whose action or transaction id does not match.
    InvalidAnnounceResponse,
    /// An announce peers section whose length is not a multiple of 6.
    NotCompactPeerList,
    /// No UDP tracker URL in the metadata at all.
    NoUdpTrackers,
}

/// One peer from a compact announce response: an IPv4 address as a
/// big-endian 32-bit number, and a port.
#[derive(Clone, Copy, Debug, PartialEq, Eq, Hash, Structural)]
pub struct PeerAddr {
    pub ip: u32,
    pub port: u16,
}

/// The 16-byte connect request for a transaction id.
pub open spec fn spec_connect_request(tx_id: u32) -> Seq<u8> {
    be_of_u64(PROTOCOL_ID) + be_of_u32(CONNECT_ACTION) + be_of_u32(tx_id)
}

/// Build the connect request datagram: magic protocol id, action 0, and
/// the transaction id.
pub fn build_connect_request(tx_id: u32) -> (r: Vec<u8>)
    ensures
        r@ == spec_connect_request(tx_id),
        r@.len() == 16,
{
    let mut v: Vec<u8> = Vec::new();
    push_u64_be(&mut v, PROTOCOL_ID);
    push_u32_be(&mut v, CONNECT_ACTION);
    push_u32_be(&mut v, tx_id);
    proof {
        assert(v@ =~= spec_connect_request(tx_id));
    }
    v
}

/// Parse a connect response: it must hold at least 16 bytes, carry the
/// connect action, and echo the expected transaction id; then its last 8
/// bytes are the connection id. Anything else is rejected.
pub fn parse_connect_response(buf: &[u8], expected_tx: u32) -> (r: Result<u64, TrackerError>)
    ensures
        r is Ok <==> buf@.len() >= 16 && u32_of_be(buf@[0], buf@[1], buf@[2], buf@[3])
            == CONNECT_ACTION && u32_of_be(buf@[4], buf@[5], buf@[6], buf@[7]) == expected_tx,
        r matches Ok(cid) ==> cid == u64_of_be(
            buf@[8],
            buf@[9],
            buf@[10],
            buf@[11],
            buf@[12],
            buf@[13],
            buf@[14],
            buf@[15],
        ),
        r matches Err(e) ==> if buf@.len() < 16 {
            e matches TrackerError::ShortConnectResponse(n) && n == buf@.len()
        } else {
            e is InvalidConnectResponse
        },
{
    if buf.len() < 16 {
        return Err(TrackerError::ShortConnectResponse(buf.len()));
    }
    let action = u32_from_be(buf[0], buf[1], buf[2], buf[3]);
    let resp_tx = u32_from_be(buf[4], buf[5], buf[6], buf[7]);
    if action != CONNECT_ACTION || resp_tx != expected_tx {
        return Err(TrackerError::InvalidConnectResponse);
    }
    Ok(u64_from_be(buf[8], buf[9], buf[10], buf[11], buf[12], buf[13], buf[14], buf[15]))
}

/// The announce key derived from a transaction id.
pub open spec fn spec_announce_key(tx_id: u32) -> u32 {
    tx_id ^ 0xA5A5A5A5
}

/// The fixed 98-byte announce request layout.
pub open spec fn spec_announce_request(
    connection_id: u64,
    tx_id: u32,
    info_hash: Seq<u8>,
    peer_id: Seq<u8>,
    downloaded: u64,
    left: u64,
    uploaded: u64,
    port: u16,
) -> Seq<u8> {
    be_of_u64(connection_id) + be_of_u32(ANNOUNCE_ACTION) + be_of_u32(tx_id) + info_hash + peer_id
        + be_of_u64(downloaded) + be_of_u64(left) + be_of_u64(uploaded) + be_of_u32(0) + be_of_u32(
        0,
    ) + be_of_u32(spec_announce_key(tx_id)) + be_of_u32(0xFFFFFFFF) + be_of_u16(port)
}

/// Build the 98-byte announce request: connection id, action 1, the
/// transaction id, info hash, peer id, the three counters, event 0, ip 0,
/// a key derived from the transaction id, num_want -1, and the port.
pub fn build_announce_request(
    connection_id: u64,
    tx_id: u32,
    info_hash: &Vec<u8>,
    peer_id: &Vec<u8>,
    downloaded: u64,
    left: u64,
    uploaded: u64,
    port: u16,
) -> (r: Vec<u8>)
    requires
        info_hash@.len() == 20,
        peer_id@.len() == 20,
    ensures
        r@ == spec_announce_request(
            connection_id,
            tx_id,
            info_hash@,
            peer_id@,
            downloaded,
            left,
            uploaded,
            port,
        ),
        r@.len() == 98,
{
    let mut v: Vec<u8> = Vec::new();
    push_u64_be(&mut v, connection_id);
    push_u32_be(&mut v, ANNOUNCE_ACTION);
    push_u32_be(&mut v, tx_id);
    v.extend_from_slice(info_hash.as_slice());
    v.extend_from_slice(peer_id.as_slice());
    push_u64_be(&mut v, downloaded);
    push_u64_be(&mut v, left);
    push_u64_be(&mut v, uploaded);
    push_u32_be(&mut v, 0);
    push_u32_be(&mut v, 0);
    let key = tx_id ^ 0xA5A5A5A5;
    push_u32_be(&mut v, key);
    push_u32_be(&mut v, 0xFFFFFFFF);
    push_u16_be(&mut v, port);
    proof {
        assert(v@ =~= spec_announce_request(
            connection_id,
            tx_id,
            info_hash@,
            peer_id@,
            downloaded,
            left,
            uploaded,
            port,
        ));
    }
    v
}

/// The peer entry encoded at record index `k` of an announce response.
pub open spec fn spec_peer_at(buf: Seq<u8>, k: int) -> PeerAddr {
    PeerAddr {
        ip: u32_of_be(buf[20 + 6 * k], buf[20 + 6 * k + 1], buf[20 + 6 * k + 2], buf[20 + 6 * k
            + 3]),
        port: u16_of_be(buf[20 + 6 * k + 4], buf[20 + 6 * k + 5]),
    }
}

/// Parse an announce response: it must hold the 20-byte header with the
/// announce action and the expected transaction id, followed by 6-byte
/// compact IPv4 peer records; a remainder that is not a multiple of 6 is
/// a protocol error.
pub fn parse_announce_response(buf: &[u8], expected_tx: u32) -> (r: Result<
    Vec<PeerAddr>,
    TrackerError,
>)
    ensures
        r is Ok <==> buf@.len() >= 20 && u32_of_be(buf@[0], buf@[1], buf@[2], buf@[3])
            == ANNOUNCE_ACTION && u32_of_be(buf@[4], buf@[5], buf@[6], buf@[7]) == expected_tx && (
        buf@.len() - 20) % 6 == 0,
        r matches Ok(peers) ==> peers@.len() == (buf@.len() - 20) / 6 && forall|k: int|
            0 <= k < peers@.len() ==> peers@[k] == spec_peer_at(buf@, k),
        r matches Err(e) ==> if buf@.len() < 20 {
            e matches TrackerError::ShortAnnounceResponse(n) && n == buf@.len()
        } else if !(u32_of_be(buf@[0], buf@[1], buf@[2], buf@[3]) == ANNOUNCE_ACTION && u32_of_be(
            buf@[4],
            buf@[5],
            buf@[6],
            buf@[7],
        ) == expected_tx) {
            e is InvalidAnnounceResponse
        } else {
            e is NotCompactPeerList
        },
{
    let n = buf.len();
    if n < 20 {
        return Err(TrackerError::ShortAnnounceResponse(n));
    }
    let action = u32_from_be(buf[0], buf[1], buf[2], buf[3]);
    let resp_tx = u32_from_be(buf[4], buf[5], buf[6], buf[7]);
    if action != ANNOUNCE_ACTION || resp_tx != expected_tx {
        return Err(TrackerError::InvalidAnnounceResponse);
    }
    if (n - 20) % 6 != 0 {
        return Err(TrackerError::NotCompactPeerList);
    }
    let count = (n - 20) / 6;
    let mut peers: Vec<PeerAddr> = Vec::new();
    let mut k: usize = 0;
    while k < count
        invariant
            k <= count,
            count == (buf@.len() - 20) / 6,
            (buf@.len() - 20) % 6 == 0,
            buf@.len() >= 20,
            peers@.len() == k,
            forall|j: int| 0 <= j < k ==> peers@[j] == spec_peer_at(buf@, j),
        decreases count - k,
    {
        proof {
            assert(6 * (k + 1) <= 6 * count);
            vstd::arithmetic::div_mod::lemma_fundamental_div_mod(buf@.len() - 20, 6);
        }
        let off = 20 + 6 * k;
        let ip = u32_from_be(buf[off], buf[off + 1], buf[off + 2], buf[off + 3]);
        let port = u16_from_be(buf[off + 4], buf[off + 5]);
        peers.push(PeerAddr { ip, port });
        k = k + 1;
    }
    Ok(peers)
}

/// The bytes of the scheme prefix "udp://".
pub open spec fn udp_scheme() -> Seq<u8> {
    seq![0x75u8, 0x64, 0x70, 0x3a, 0x2f, 0x2f]
}

/// Whether a tracker URL names the UDP protocol.
pub open spec fn is_udp_url(url: Seq<u8>) -> bool {
    url.len() >= 6 && url.subrange(0, 6) == udp_scheme()
}

/// The host:port part of a UDP tracker URL: the bytes after the scheme up
/// to the first slash, if any.
pub open spec fn spec_host_port(url: Seq<u8>) -> Seq<u8> {
    let rest = url.skip(6);
    if exists|i: int| 0 <= i < rest.len() && rest[i] == 0x2f {
        rest.take(choose|i: int| (0 <= i < rest.len() && rest[i] == 0x2f) && forall|j: int|
            0 <= j < i ==> rest[j] != 0x2f)
    } else {
        rest
    }
}

/// Extract the host:port part of a UDP tracker URL; None when the URL
/// does not use the udp scheme. The socket address resolution of the
/// result happens outside the library.
pub fn udp_host_port(url: &Vec<u8>) -> (r: Option<Vec<u8>>)
    ensures
        r is Some <==> is_udp_url(url@),
        r matches Some(hp) ==> hp@ == spec_host_port(url@),
{
    if url.len() < 6 {
        return None;
    }
    if !(url[0] == 0x75 && url[1] == 0x64 && url[2] == 0x70 && url[3] == 0x3a && url[4] == 0x2f
        && url[5] == 0x2f) {
        proof {
            assert(url@.subrange(0, 6) != udp_scheme());
        }
        return None;
    }
    proof {
        assert(url@.subrange(0, 6) =~= udp_scheme());
    }
    let ghost rest = url@.skip(6);
    let mut i: usize = 6;
    while i < url.len() && url[i] != 0x2f
        invariant
            6 <= i <= url@.len(),
            rest == url@.skip(6),
            forall|j: int| 0 <= j < i - 6 ==> rest[j] != 0x2f,
        decreases url@.len() - i,
    {
        i = i + 1;
    }
    let hp = crate::wire::copy_range(url.as_slice(), 6, i);
    proof {
        if i < url@.len() {
            assert(rest[i - 6] == 0x2f);
            let w = choose|w: int| (0 <= w < rest.len() && rest[w] == 0x2f) && forall|j: int|
                0 <= j < w ==> rest[j] != 0x2f;
            assert(!(w < i - 6) && !(w > i - 6));
            assert(hp@ =~= rest.take(i - 6));
        } else {
            assert forall|w: int| 0 <= w < rest.len() implies rest[w] != 0x2f by {
                assert(rest[w] == url@[w + 6]);
            }
            assert(hp@ =~= rest);
        }
    }
    Some(hp)
}

/// The announce candidates of a torrent: the announce URL, if any, then
/// the announce-list entries.
pub fn announce_urls(torrent: &Torrent) -> (r: Vec<Vec<u8>>)
    ensures
        r.deep_view() == match torrent.announce {
            Some(a) => seq![a@] + torrent.announce_list.deep_view(),
            None => torrent.announce_list.deep_view(),
        },
{
    let mut urls: Vec<Vec<u8>> = Vec::new();
    match &torrent.announce {
        Some(a) => {
            let c = a.clone();
            proof {
                assert(c@ =~= a@);
            }
            urls.push(c);
        },
        None => {},
    }
    let mut i: usize = 0;
    while i < torrent.announce_list.len()
        invariant
            i <= torrent.announce_list@.len(),
            urls.deep_view() =~~= (match torrent.announce {
                Some(a) => seq![a@] + torrent.announce_list.deep_view().take(i as int),
                None => torrent.announce_list.deep_view().take(i as int),
            }),
        decreases torrent.announce_list@.len() - i,
    {
        let c = torrent.announce_list[i].clone();
        let ghost before = urls.deep_view();
        let ghost dv = torrent.announce_list.deep_view();
        proof {
            assert(c@ =~= torrent.announce_list@[i as int]@);
            assert(dv[i as int] == torrent.announce_list@[i as int]@);
        }
        urls.push(c);
        proof {
            assert(urls.deep_view() =~~= before.push(dv[i as int]));
            assert(dv.take(i + 1) =~~= dv.take(i as int).push(dv[i as int]));
            match &torrent.announce {
                Some(a) => {
                    assert(urls.deep_view() =~~= seq![a@] + dv.take(i + 1));
                },
                None => {
                    assert(urls.deep_view() =~~= dv.take(i + 1));
                },
            }
        }
        i = i + 1;
    }
    proof {
        assert(torrent.announce_list.deep_view().take(
            torrent.announce_list.deep_view().len() as int,
        ) =~= torrent.announce_list.deep_view());
        match &torrent.announce {
            Some(a) => {
                assert(urls.deep_view() =~~= seq![a@] + torrent.announce_list.deep_view());
            },
            None => {
                assert(urls.deep_view() =~~= torrent.announce_list.deep_view());
            },
        }
    }
    urls
}

/// No element occurs twice.
pub open spec fn no_dup(s: Seq<PeerAddr>) -> bool {
    forall|i: int, j: int| 0 <= i < j < s.len() ==> s[i] != s[j]
}

/// Union newly found peers into the accumulated list, suppressing
/// duplicates: afterwards the list holds exactly the peers of either
/// input, still without duplicates.
pub fn merge_peers(peers: &mut Vec<PeerAddr>, found: &Vec<PeerAddr>)
    requires
        no_dup(old(peers)@),
    ensures
        no_dup(final(peers)@),
        forall|p: PeerAddr|
            #[trigger] final(peers)@.contains(p) <==> old(peers)@.contains(p)
                || found@.contains(p),
{
    let mut i: usize = 0;
    while i < found.len()
        invariant
            i <= found@.len(),
            no_dup(peers@),
            forall|p: PeerAddr|
                #[trigger] peers@.contains(p) <==> old(peers)@.contains(p) || found@.take(
                    i as int,
                ).contains(p),
        decreases found@.len() - i,
    {
        let p = found[i];
        let ghost start = peers@;
        let had = contains_peer(peers, p);
        if !had {
            peers.push(p);
            proof {
                assert forall|q: PeerAddr| #[trigger] peers@.contains(q) implies (
                start.contains(q) || q == p) by {
                    let w = choose|w: int| #![trigger peers@[w]] 0 <= w < peers@.len()
                        && peers@[w] == q;
                    if w < start.len() {
                        assert(start[w] == q);
                    }
                }
                assert(peers@[peers@.len() - 1] == p);
                assert forall|q: PeerAddr| #[trigger] start.contains(q)
                    implies peers@.contains(q) by {
                    let w = choose|w: int| #![trigger start[w]] 0 <= w < start.len()
                        && start[w] == q;
                    assert(peers@[w] == q);
                }
                assert forall|i2: int, j2: int| 0 <= i2 < j2 < peers@.len() implies peers@[i2]
                    != peers@[j2] by {
                    if j2 == peers@.len() - 1 {
                        assert(start[i2] == peers@[i2]);
                        assert(start.contains(start[i2]));
                    } else {
                        assert(start[i2] == peers@[i2] && start[j2] == peers@[j2]);
                    }
                }
            }
        }
        proof {
            assert(peers@.contains(p));
            assert forall|q: PeerAddr| #[trigger] start.contains(q) implies peers@.contains(
                q,
            ) by {
                if had {
                    assert(peers@ == start);
                }
            }
            assert(found@.take(i + 1).drop_last() =~= found@.take(i as int));
            assert(found@.take(i + 1).last() == found@[i as int]);
            assert forall|q: PeerAddr| #[trigger] found@.take(i + 1).contains(q) implies (
            found@.take(i as int).contains(q) || q == found@[i as int]) by {
                let w = choose|w: int| #![trigger found@.take(i + 1)[w]] 0 <= w < i + 1
                    && found@.take(i + 1)[w] == q;
                if w < i {
                    assert(found@.take(i as int)[w] == q);
                }
            }
            assert forall|q: PeerAddr| #[trigger] found@.take(i as int).contains(q)
                implies found@.take(i + 1).contains(q) by {
                let w = choose|w: int| #![trigger found@.take(i as int)[w]] 0 <= w < i
                    && found@.take(i as int)[w] == q;
                assert(found@.take(i + 1)[w] == q);
            }
            assert(found@.take(i + 1)[i as int] == found@[i as int]);
            assert(found@.take(i + 1).contains(found@[i as int]));
            assert forall|q: PeerAddr| #[trigger] peers@.contains(q) implies (old(
                peers,
            )@.contains(q) || found@.take(i + 1).contains(q)) by {
                if !had {
                    assert(start.contains(q) || q == p);
                }
                if start.contains(q) {
                    assert(old(peers)@.contains(q) || found@.take(i as int).contains(q));
                }
            }
            assert forall|q: PeerAddr|
                old(peers)@.contains(q) || found@.take(i + 1).contains(q) implies #[trigger]
            peers@.contains(q) by {
                if old(peers)@.contains(q) {
                    assert(start.contains(q));
                } else {
                    if q == found@[i as int] {
                        assert(peers@.contains(p));
                    } else {
                        assert(found@.take(i as int).contains(q));
                        assert(start.contains(q));
                    }
                }
            }
        }
        i = i + 1;
    }
    proof {
        assert(found@.take(found@.len() as int) =~= found@);
    }
}

/// Whether the list already holds this peer.
fn contains_peer(peers: &Vec<PeerAddr>, p: PeerAddr) -> (r: bool)
    ensures
        r == peers@.contains(p),
{
    let mut i: usize = 0;
    while i < peers.len()
        invariant
            i <= peers@.len(),
            forall|j: int| 0 <= j < i ==> peers@[j] != p,
        decreases peers@.len() - i,
    {
        if peers[i].ip == p.ip && peers[i].port == p.port {
            proof {
                assert(peers@[i as int] == p);
            }
            return true;
        }
        i = i + 1;
    }
    proof {
        assert(!peers@.contains(p));
    }
    false
}

/// Mix a counter, a sub-second timing value and a process id into a
/// transaction id, as `time ^ rotate16(pid) ^ counter * 0x9E3779B1` on
/// 32-bit words. The caller supplies the volatile inputs; any values give
/// a usable id.
pub fn mix_tx_id(counter: u32, subsec_nanos: u32, pid: u32) -> (r: u32)
    ensures
        r == subsec_nanos ^ ((pid << 16u32) | (pid >> 16u32)) ^ (((counter
            * 0x9E3779B1) % 0x100000000) as u32),
{
    let rot = (pid << 16) | (pid >> 16);
    let m = ((counter as u64 * 0x9E3779B1) % 0x100000000) as u32;
    subsec_nanos ^ rot ^ m
}

/// The low 12 bytes of the peer-id mixing value, least significant byte
/// first.
pub open spec fn spec_peer_id_tail(mix: u128, k: int) -> u8 {
    ((mix >> (8 * k) as u128) & 0xFF) as u8
}

/// The client-id prefix of a generated peer id.
pub open spec fn peer_id_prefix() -> Seq<u8> {
    seq![0x2du8, 0x52, 0x42, 0x30, 0x30, 0x30, 0x31, 0x2d]
}

/// Build a 20-byte peer id: the fixed client prefix, then twelve bytes
/// drawn from a mixing value the caller derives from time, process id and
/// a counter. Any mixing value gives a valid peer id.
pub fn make_peer_id(mix: u128) -> (r: Vec<u8>)
    ensures
        r@.len() == 20,
        r@.subrange(0, 8) == peer_id_prefix(),
        forall|k: int| 0 <= k < 12 ==> r@[8 + k] == spec_peer_id_tail(mix, k),
{
    let mut v: Vec<u8> = Vec::new();
    v.push(0x2d);
    v.push(0x52);
    v.push(0x42);
    v.push(0x30);
    v.push(0x30);
    v.push(0x30);
    v.push(0x31);
    v.push(0x2d);
    let mut k: usize = 0;
    while k < 12
        invariant
            k <= 12,
            v@.len() == 8 + k,
            v@.subrange(0, 8) =~= peer_id_prefix(),
            forall|j: int| 0 <= j < k ==> v@[8 + j] == spec_peer_id_tail(mix, j),
        decreases 12 - k,
    {
        let sh = (8 * k) as u32;
        let b = ((mix >> sh) & 0xFF) as u8;
        v.push(b);
        proof {
            assert(v@.subrange(0, 8) =~= peer_id_prefix());
        }
        k = k + 1;
    }
    v
}

} // verus!
