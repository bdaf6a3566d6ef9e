//! The control-message codec: `NodeInfo`, a self-describing,
//! forward-compatible tagged-field message carrying a node's known peers,
//! its claimed address ranges, and an optional timeout hint.
//!
//! A message body is a sequence of parts `{ tag, length (big-endian u16),
//! body }` terminated by a part with tag zero. Unknown tags are skipped, and
//! bytes a recognized part's parser leaves unconsumed are discarded, so
//! newer protocol versions can extend messages without breaking older
//! parsers.

use crate::types::{
    be16, be16_bytes, range_bytes, range_wf, spec_read_range, DecodeErr, Error, NodeId, Range,
    RangeList, RangeV, NODE_ID_BYTES,
};
use crate::util::MsgBuffer;
use vstd::assert_seqs_equal;
use vstd::prelude::*;

verus! {

/// Tag of the terminator part ending every message.
pub const PART_END: u8 = 0;

/// Tag of the peer-list part.
pub const PART_PEERS: u8 = 1;

/// Tag of the claims part.
pub const PART_CLAIMS: u8 = 2;

/// Tag of the peer-timeout part.
pub const PART_PEER_TIMEOUT: u8 = 3;

/// A socket address: an IPv4 or IPv6 address with a port.
#[derive(Debug, Clone, Copy, PartialEq, Eq)]
pub enum SocketAddr {
    V4([u8; 4], u16),
    V6([u8; 16], u16),
}

/// Model of a socket address: the family, the raw address bytes and the
/// port.
#[verifier::ext_equal]
pub enum SocketAddrV {
    V4(Seq<u8>, u16),
    V6(Seq<u8>, u16),
}

impl View for SocketAddr {
    type V = SocketAddrV;

    open spec fn view(&self) -> SocketAddrV {
        match *self {
            SocketAddr::V4(ip, port) => SocketAddrV::V4(ip@, port),
            SocketAddr::V6(ip, port) => SocketAddrV::V6(ip@, port),
        }
    }
}

/// Ordered list of socket addresses, IPv4 and IPv6 mixed.
pub type AddrList = Vec<SocketAddr>;

/// List of known peers.
pub type PeerList = Vec<PeerInfo>;

/// One known peer as advertised by a remote node: an optional node
/// identifier and its socket addresses.
#[derive(Debug, PartialEq)]
pub struct PeerInfo {
    pub node_id: Option<NodeId>,
    pub addrs: AddrList,
}

/// Model of a `PeerInfo`.
#[verifier::ext_equal]
pub struct PeerInfoV {
    pub node_id: Option<Seq<u8>>,
    pub addrs: Seq<SocketAddrV>,
}

impl View for PeerInfo {
    type V = PeerInfoV;

    open spec fn view(&self) -> PeerInfoV {
        PeerInfoV {
            node_id: match self.node_id {
                Some(id) => Some(id@),
                None => None,
            },
            addrs: Seq::new(self.addrs@.len(), |i: int| self.addrs@[i]@),
        }
    }
}

/// The full control-message payload exchanged between two nodes.
#[derive(Debug, PartialEq)]
pub struct NodeInfo {
    pub peers: PeerList,
    pub claims: RangeList,
    pub peer_timeout: Option<u16>,
}

/// Model of a `NodeInfo`.
#[verifier::ext_equal]
pub struct NodeInfoV {
    pub peers: Seq<PeerInfoV>,
    pub claims: Seq<RangeV>,
    pub peer_timeout: Option<u16>,
}

impl View for NodeInfo {
    type V = NodeInfoV;

    open spec fn view(&self) -> NodeInfoV {
        NodeInfoV {
            peers: Seq::new(self.peers@.len(), |i: int| self.peers@[i]@),
            claims: Seq::new(self.claims@.len(), |i: int| self.claims@[i]@),
            peer_timeout: self.peer_timeout,
        }
    }
}

/// Whether a socket address model is IPv4.
pub open spec fn sav_is_v4(a: SocketAddrV) -> bool {
    a matches SocketAddrV::V4(_, _)
}

/// Address bytes of the right length for the family.
pub open spec fn sav_wf(a: SocketAddrV) -> bool {
    match a {
        SocketAddrV::V4(ip, _) => ip.len() == 4,
        SocketAddrV::V6(ip, _) => ip.len() == 16,
    }
}

/// A peer model a view of an actual `PeerInfo` could produce: identifier of
/// the fixed length, address bytes of the right lengths.
pub open spec fn peer_wf(p: PeerInfoV) -> bool {
    &&& (p.node_id matches Some(id) ==> id.len() == NODE_ID_BYTES)
    &&& forall|i: int| 0 <= i < p.addrs.len() ==> sav_wf(#[trigger] p.addrs[i])
}

/// A message model a view of an actual `NodeInfo` could produce.
pub open spec fn msg_wf(v: NodeInfoV) -> bool {
    &&& forall|i: int| 0 <= i < v.peers.len() ==> peer_wf(#[trigger] v.peers[i])
    &&& forall|i: int| 0 <= i < v.claims.len() ==> range_wf(#[trigger] v.claims[i])
}

/// The IPv4 addresses of `s`, in order.
pub open spec fn v4s(s: Seq<SocketAddrV>) -> Seq<SocketAddrV>
    decreases s.len(),
{
    if s.len() == 0 {
        Seq::empty()
    } else {
        v4s(s.drop_last()) + if sav_is_v4(s.last()) {
            seq![s.last()]
        } else {
            Seq::empty()
        }
    }
}

/// The IPv6 addresses of `s`, in order.
pub open spec fn v6s(s: Seq<SocketAddrV>) -> Seq<SocketAddrV>
    decreases s.len(),
{
    if s.len() == 0 {
        Seq::empty()
    } else {
        v6s(s.drop_last()) + if !sav_is_v4(s.last()) {
            seq![s.last()]
        } else {
            Seq::empty()
        }
    }
}

/// The first seven elements; the wire format cannot carry more addresses of
/// one family per peer, and the excess is deliberately dropped from the
/// tail.
pub open spec fn keep7<A>(s: Seq<A>) -> Seq<A> {
    if s.len() <= 7 {
        s
    } else {
        s.take(7)
    }
}

/// Wire bytes of one socket address: the raw address bytes, then the port
/// in big-endian.
pub open spec fn sav_bytes(a: SocketAddrV) -> Seq<u8> {
    match a {
        SocketAddrV::V4(ip, port) => ip + be16_bytes(port),
        SocketAddrV::V6(ip, port) => ip + be16_bytes(port),
    }
}

/// Wire bytes of a list of socket addresses, back to back.
pub open spec fn sas_bytes(s: Seq<SocketAddrV>) -> Seq<u8>
    decreases s.len(),
{
    if s.len() == 0 {
        Seq::empty()
    } else {
        sav_bytes(s[0]) + sas_bytes(s.skip(1))
    }
}

/// The flags byte of one encoded peer: bit 7 is identifier presence, bits
/// 3 to 5 the IPv6 count, bits 0 to 2 the IPv4 count (both counts already
/// capped at seven).
pub open spec fn peer_flags(p: PeerInfoV) -> u8 {
    ((if p.node_id matches Some(_) {
        0x80int
    } else {
        0int
    }) + keep7(v6s(p.addrs)).len() * 8 + keep7(v4s(p.addrs)).len()) as u8
}

/// Wire bytes of one peer: flags, the identifier if present, then all kept
/// IPv6 addresses before all kept IPv4 addresses.
pub open spec fn peer_bytes(p: PeerInfoV) -> Seq<u8> {
    seq![peer_flags(p)] + (match p.node_id {
        Some(id) => id,
        None => Seq::empty(),
    }) + sas_bytes(keep7(v6s(p.addrs))) + sas_bytes(keep7(v4s(p.addrs)))
}

/// Wire bytes of the peer-list part body.
pub open spec fn peers_bytes(ps: Seq<PeerInfoV>) -> Seq<u8>
    decreases ps.len(),
{
    if ps.len() == 0 {
        Seq::empty()
    } else {
        peer_bytes(ps[0]) + peers_bytes(ps.skip(1))
    }
}

/// Wire bytes of the claims part body: each range's self-delimiting record,
/// in list order.
pub open spec fn claims_bytes(cs: Seq<RangeV>) -> Seq<u8>
    decreases cs.len(),
{
    if cs.len() == 0 {
        Seq::empty()
    } else {
        range_bytes(cs[0]) + claims_bytes(cs.skip(1))
    }
}

/// Wire bytes of one part: tag, body length in big-endian, body.
pub open spec fn part_bytes(tag: u8, body: Seq<u8>) -> Seq<u8> {
    seq![tag] + be16_bytes(body.len() as u16) + body
}

/// Wire bytes of a whole message: the peer list, the claims, the timeout
/// if present, then the terminator tag.
pub open spec fn msg_bytes(v: NodeInfoV) -> Seq<u8> {
    part_bytes(PART_PEERS, peers_bytes(v.peers)) + part_bytes(PART_CLAIMS, claims_bytes(v.claims))
        + (match v.peer_timeout {
        Some(t) => part_bytes(PART_PEER_TIMEOUT, be16_bytes(t)),
        None => Seq::empty(),
    }) + seq![PART_END]
}

/// How many bytes the peer record at the front of `s` occupies, computed
/// from its flags byte.
pub open spec fn peer_need(s: Seq<u8>) -> int
    recommends
        s.len() >= 1,
{
    let flags = s[0];
    1 + (if flags & 0x80 != 0 {
        NODE_ID_BYTES as int
    } else {
        0
    }) + ((flags & 0x38) as int / 8) * 18 + (flags & 0x07) * 6
}

/// The IPv6 socket address whose wire bytes start at `p` in `s`.
pub open spec fn sa6_at(s: Seq<u8>, p: int) -> SocketAddrV
    recommends
        0 <= p,
        p + 18 <= s.len(),
{
    SocketAddrV::V6(s.subrange(p, p + 16), be16(s[p + 16], s[p + 17]))
}

/// The IPv4 socket address whose wire bytes start at `p` in `s`.
pub open spec fn sa4_at(s: Seq<u8>, p: int) -> SocketAddrV
    recommends
        0 <= p,
        p + 6 <= s.len(),
{
    SocketAddrV::V4(s.subrange(p, p + 4), be16(s[p + 4], s[p + 5]))
}

/// The peer record decoded from the front of `s`: the identifier if the
/// flags announce one, then the announced number of IPv6 entries, then the
/// announced number of IPv4 entries.
pub open spec fn peer_at(s: Seq<u8>) -> PeerInfoV
    recommends
        s.len() >= peer_need(s),
{
    let flags = s[0];
    let has_id = flags & 0x80 != 0;
    let n6 = (flags & 0x38) as int / 8;
    let n4 = (flags & 0x07) as int;
    let off = 1 + if has_id {
        NODE_ID_BYTES as int
    } else {
        0
    };
    PeerInfoV {
        node_id: if has_id {
            Some(s.subrange(1, 1 + NODE_ID_BYTES as int))
        } else {
            None
        },
        addrs: Seq::new(n6 as nat, |i: int| sa6_at(s, off + 18 * i)) + Seq::new(
            n4 as nat,
            |i: int| sa4_at(s, off + 18 * n6 + 6 * i),
        ),
    }
}

/// Specification of parsing a peer-list part body: one peer after another
/// until the bounded region is exhausted.
pub open spec fn spec_peers(s: Seq<u8>) -> Result<Seq<PeerInfoV>, DecodeErr>
    decreases s.len(),
{
    if s.len() == 0 {
        Ok(Seq::empty())
    } else if s.len() < peer_need(s) {
        Err(DecodeErr::TooShort)
    } else {
        match spec_peers(s.skip(peer_need(s))) {
            Ok(rest) => Ok(seq![peer_at(s)] + rest),
            Err(e) => Err(e),
        }
    }
}

/// Specification of parsing a claims part body: one range record after
/// another until the bounded region is exhausted.
pub open spec fn spec_claims(s: Seq<u8>) -> Result<Seq<RangeV>, DecodeErr>
    decreases s.len(),
{
    if s.len() == 0 {
        Ok(Seq::empty())
    } else {
        match spec_read_range(s) {
            Ok((r, n)) => match spec_claims(s.skip(n)) {
                Ok(rest) => Ok(seq![r] + rest),
                Err(e) => Err(e),
            },
            Err(e) => Err(e),
        }
    }
}

/// A message model with nothing decoded yet.
pub open spec fn empty_node_info() -> NodeInfoV {
    NodeInfoV { peers: Seq::empty(), claims: Seq::empty(), peer_timeout: None }
}

/// Specification of the outer decode loop over `s` with the values decoded
/// so far in `acc`: read a tag, stop on the terminator, otherwise read the
/// part length, dispatch on recognized tags and skip unknown ones, always
/// resuming right after the declared part.
pub open spec fn spec_parts(s: Seq<u8>, acc: NodeInfoV) -> Result<NodeInfoV, DecodeErr>
    decreases s.len(),
{
    if s.len() < 1 {
        Err(DecodeErr::TooShort)
    } else if s[0] == PART_END {
        Ok(acc)
    } else if s.len() < 3 {
        Err(DecodeErr::TooShort)
    } else {
        let plen = be16(s[1], s[2]) as int;
        if s.len() < 3 + plen {
            Err(DecodeErr::TooShort)
        } else {
            let body = s.subrange(3, 3 + plen);
            let rest = s.skip(3 + plen);
            if s[0] == PART_PEERS {
                match spec_peers(body) {
                    Ok(ps) => spec_parts(rest, NodeInfoV { peers: ps, ..acc }),
                    Err(e) => Err(e),
                }
            } else if s[0] == PART_CLAIMS {
                match spec_claims(body) {
                    Ok(cs) => spec_parts(rest, NodeInfoV { claims: cs, ..acc }),
                    Err(e) => Err(e),
                }
            } else if s[0] == PART_PEER_TIMEOUT {
                if plen < 2 {
                    Err(DecodeErr::TooShort)
                } else {
                    spec_parts(rest, NodeInfoV { peer_timeout: Some(be16(body[0], body[1])), ..acc })
                }
            } else {
                spec_parts(rest, acc)
            }
        }
    }
}

/// Specification of decoding a whole message from `s`.
pub open spec fn spec_decode(s: Seq<u8>) -> Result<NodeInfoV, DecodeErr> {
    spec_parts(s, empty_node_info())
}

/// The decode result `r` agrees with the specification parser on `s`, both
/// on success and on each failure kind.
pub open spec fn decode_matches(s: Seq<u8>, r: Result<NodeInfo, Error>) -> bool {
    match spec_decode(s) {
        Ok(v) => r matches Ok(n) && n@ == v,
        Err(DecodeErr::TooShort) => r matches Err(e) && e matches Error::TooShort(_),
        Err(DecodeErr::Malformed) => r matches Err(e) && e matches Error::Malformed(_),
    }
}

/// The models of a list of peers.
pub open spec fn peer_list_view(ps: Vec<PeerInfo>) -> Seq<PeerInfoV> {
    Seq::new(ps@.len(), |i: int| ps@[i]@)
}

/// The models of a list of ranges.
pub open spec fn claim_list_view(cs: Vec<Range>) -> Seq<RangeV> {
    Seq::new(cs@.len(), |i: int| cs@[i]@)
}

/// The models of a list of socket addresses.
pub open spec fn addr_list_view(aa: Vec<SocketAddr>) -> Seq<SocketAddrV> {
    Seq::new(aa@.len(), |i: int| aa@[i]@)
}

/// Taking a subrange of a subrange reads from the underlying sequence at
/// the summed offsets.
proof fn lemma_subrange_of_subrange(s: Seq<u8>, off: int, end: int, a: int, b: int)
    requires
        0 <= off <= end <= s.len(),
        0 <= a <= b <= end - off,
    ensures
        s.subrange(off, end).subrange(a, b) == s.subrange(off + a, off + b),
{
    assert_seqs_equal!(s.subrange(off, end).subrange(a, b), s.subrange(off + a, off + b));
}

/// Reads sixteen consecutive bytes starting at `pos`.
fn read_bytes16(data: &[u8], pos: usize) -> (r: [u8; 16])
    requires
        pos + 16 <= data@.len(),
    ensures
        r@ == data@.subrange(pos as int, pos as int + 16),
{
    let n = data.len();
    let mut r: [u8; 16] = [0; 16];
    let mut k: usize = 0;
    while k < 16
        invariant
            k <= 16,
            pos + 16 <= n == data@.len(),
            forall|i: int| 0 <= i < k ==> r@[i] == data@[pos + i],
        decreases 16 - k,
    {
        r[k] = data[pos + k];
        k += 1;
    }
    proof {
        assert_seqs_equal!(r@, data@.subrange(pos as int, pos as int + 16));
    }
    r
}

/// Reads four consecutive bytes starting at `pos`.
fn read_bytes4(data: &[u8], pos: usize) -> (r: [u8; 4])
    requires
        pos + 4 <= data@.len(),
    ensures
        r@ == data@.subrange(pos as int, pos as int + 4),
{
    let n = data.len();
    let mut r: [u8; 4] = [0; 4];
    let mut k: usize = 0;
    while k < 4
        invariant
            k <= 4,
            pos + 4 <= n == data@.len(),
            forall|i: int| 0 <= i < k ==> r@[i] == data@[pos + i],
        decreases 4 - k,
    {
        r[k] = data[pos + k];
        k += 1;
    }
    proof {
        assert_seqs_equal!(r@, data@.subrange(pos as int, pos as int + 4));
    }
    r
}

/// Appending one address to a list appends its wire bytes.
proof fn lemma_sas_bytes_snoc(s: Seq<SocketAddrV>, a: SocketAddrV)
    ensures
        sas_bytes(s.push(a)) == sas_bytes(s) + sav_bytes(a),
    decreases s.len(),
{
    if s.len() == 0 {
        assert(s.push(a).skip(1) =~= Seq::<SocketAddrV>::empty());
        assert(sas_bytes(Seq::<SocketAddrV>::empty()) == Seq::<u8>::empty());
        assert(sas_bytes(s.push(a)) =~= sas_bytes(s) + sav_bytes(a));
    } else {
        assert(s.push(a).skip(1) =~= s.skip(1).push(a));
        lemma_sas_bytes_snoc(s.skip(1), a);
        assert(sav_bytes(s[0]) + (sas_bytes(s.skip(1)) + sav_bytes(a)) =~= (sav_bytes(s[0])
            + sas_bytes(s.skip(1))) + sav_bytes(a));
    }
}

/// Appending one peer to a list appends its wire bytes.
proof fn lemma_peers_bytes_snoc(ps: Seq<PeerInfoV>, p: PeerInfoV)
    ensures
        peers_bytes(ps.push(p)) == peers_bytes(ps) + peer_bytes(p),
    decreases ps.len(),
{
    if ps.len() == 0 {
        assert(ps.push(p).skip(1) =~= Seq::<PeerInfoV>::empty());
        assert(peers_bytes(Seq::<PeerInfoV>::empty()) == Seq::<u8>::empty());
        assert(peers_bytes(ps.push(p)) =~= peers_bytes(ps) + peer_bytes(p));
    } else {
        assert(ps.push(p).skip(1) =~= ps.skip(1).push(p));
        lemma_peers_bytes_snoc(ps.skip(1), p);
        assert(peer_bytes(ps[0]) + (peers_bytes(ps.skip(1)) + peer_bytes(p)) =~= (peer_bytes(
            ps[0],
        ) + peers_bytes(ps.skip(1))) + peer_bytes(p));
    }
}

/// Appending one range to a list appends its wire bytes.
proof fn lemma_claims_bytes_snoc(cs: Seq<RangeV>, c: RangeV)
    ensures
        claims_bytes(cs.push(c)) == claims_bytes(cs) + range_bytes(c),
    decreases cs.len(),
{
    if cs.len() == 0 {
        assert(cs.push(c).skip(1) =~= Seq::<RangeV>::empty());
        assert(claims_bytes(Seq::<RangeV>::empty()) == Seq::<u8>::empty());
        assert(claims_bytes(cs.push(c)) =~= claims_bytes(cs) + range_bytes(c));
    } else {
        assert(cs.push(c).skip(1) =~= cs.skip(1).push(c));
        lemma_claims_bytes_snoc(cs.skip(1), c);
        assert(range_bytes(cs[0]) + (claims_bytes(cs.skip(1)) + range_bytes(c)) =~= (range_bytes(
            cs[0],
        ) + claims_bytes(cs.skip(1))) + range_bytes(c));
    }
}

/// Appends the wire bytes of one socket address: the raw address bytes,
/// then the port in big-endian.
fn push_addr(out: &mut Vec<u8>, a: &SocketAddr)
    ensures
        final(out)@ == old(out)@ + sav_bytes(a@),
{
    match a {
        SocketAddr::V4(ip, port) => {
            let mut k: usize = 0;
            while k < 4
                invariant
                    k <= 4,
                    a@ matches SocketAddrV::V4(ipv, _) && ipv == ip@,
                    out@ == old(out)@ + ip@.take(k as int),
                decreases 4 - k,
            {
                let b = ip[k];
                out.push(b);
                proof {
                    assert_seqs_equal!(out@, old(out)@ + ip@.take(k + 1));
                }
                k += 1;
            }
            proof {
                assert(ip@.take(4) =~= ip@);
            }
            crate::types::push_be16(out, *port);
            proof {
                assert_seqs_equal!(out@, old(out)@ + sav_bytes(a@));
            }
        },
        SocketAddr::V6(ip, port) => {
            let mut k: usize = 0;
            while k < 16
                invariant
                    k <= 16,
                    a@ matches SocketAddrV::V6(ipv, _) && ipv == ip@,
                    out@ == old(out)@ + ip@.take(k as int),
                decreases 16 - k,
            {
                let b = ip[k];
                out.push(b);
                proof {
                    assert_seqs_equal!(out@, old(out)@ + ip@.take(k + 1));
                }
                k += 1;
            }
            proof {
                assert(ip@.take(16) =~= ip@);
            }
            crate::types::push_be16(out, *port);
            proof {
                assert_seqs_equal!(out@, old(out)@ + sav_bytes(a@));
            }
        },
    }
}

impl NodeInfo {
    /// Decodes the body of a peer-list part: one peer after another until
    /// the bounded region between `start` and `end` is exhausted.
    fn decode_peer_list_part(data: &[u8], start: usize, end: usize) -> (r: Result<
        PeerList,
        Error,
    >)
        requires
            start <= end <= data@.len(),
        ensures
            ({
                let region = data@.subrange(start as int, end as int);
                match spec_peers(region) {
                    Ok(ps) => r matches Ok(v) && peer_list_view(v) == ps,
                    Err(DecodeErr::TooShort) => r matches Err(e) && e matches Error::TooShort(_),
                    Err(DecodeErr::Malformed) => r matches Err(e) && e matches Error::Malformed(_),
                }
            }),
    {
        let ghost region = data@.subrange(start as int, end as int);
        let mut peers: PeerList = Vec::new();
        let mut pos: usize = start;
        while pos < end
            invariant
                start <= pos <= end <= data@.len(),
                region == data@.subrange(start as int, end as int),
                ({
                    let cur = data@.subrange(pos as int, end as int);
                    match spec_peers(cur) {
                        Ok(rest) => spec_peers(region) == Ok::<Seq<PeerInfoV>, DecodeErr>(
                            peer_list_view(peers) + rest,
                        ),
                        Err(e) => spec_peers(region) == Err::<Seq<PeerInfoV>, DecodeErr>(e),
                    }
                }),
            decreases end - pos,
        {
            let ghost cur = data@.subrange(pos as int, end as int);
            let flags = data[pos];
            let has_node_id = (flags & 0x80) != 0;
            let num_ipv4_addrs = (flags & 0x07) as usize;
            let num_ipv6_addrs = ((flags & 0x38) / 8) as usize;
            let id_len: usize = if has_node_id {
                NODE_ID_BYTES
            } else {
                0
            };
            let need: usize = 1 + id_len + num_ipv6_addrs * 18 + num_ipv4_addrs * 6;
            proof {
                assert(cur[0] == data@[pos as int]);
                assert(peer_need(cur) == need);
            }
            if end - pos < need {
                return Err(Error::TooShort("Truncated peer entry"));
            }
            let ghost pv = peer_at(cur);
            let mut node_id: Option<NodeId> = None;
            if has_node_id {
                let id = read_bytes16(data, pos + 1);
                node_id = Some(id);
                proof {
                    lemma_subrange_of_subrange(
                        data@,
                        pos as int,
                        end as int,
                        1,
                        1 + NODE_ID_BYTES as int,
                    );
                }
            }
            let off: usize = pos + 1 + id_len;
            let ghost a6 = pv.addrs.take(num_ipv6_addrs as int);
            let ghost a4 = pv.addrs.skip(num_ipv6_addrs as int);
            let mut addrs: AddrList = Vec::new();
            let mut j: usize = 0;
            while j < num_ipv6_addrs
                invariant
                    j <= num_ipv6_addrs,
                    start <= pos <= end <= data@.len(),
                    pos + need <= end,
                    off == pos + 1 + id_len,
                    need == 1 + id_len + num_ipv6_addrs * 18 + num_ipv4_addrs * 6,
                    cur == data@.subrange(pos as int, end as int),
                    cur.len() == end - pos,
                    num_ipv6_addrs == (cur[0] & 0x38) as int / 8,
                    num_ipv4_addrs == (cur[0] & 0x07) as int,
                    has_node_id == ((cur[0] & 0x80) != 0),
                    id_len == (if has_node_id { 16int } else { 0int }),
                    pv == peer_at(cur),
                    a6 == pv.addrs.take(num_ipv6_addrs as int),
                    a6.len() == num_ipv6_addrs,
                    pv.addrs.len() == num_ipv6_addrs + num_ipv4_addrs,
                    addrs@.len() == j,
                    forall|i: int| 0 <= i < j ==> #[trigger] addrs@[i]@ == a6[i],
                decreases num_ipv6_addrs - j,
            {
                let ip = read_bytes16(data, off + j * 18);
                let port = crate::types::read_be16(data, off + j * 18 + 16);
                addrs.push(SocketAddr::V6(ip, port));
                proof {
                    let offi: int = 1 + id_len + 18 * (j as int);
                    lemma_subrange_of_subrange(data@, pos as int, end as int, offi, offi + 16);
                    assert(ip@ == cur.subrange(offi, offi + 16));
                    assert(cur[offi + 16] == data@[pos + offi + 16]);
                    assert(cur[offi + 17] == data@[pos + offi + 17]);
                    assert(a6[j as int] == sa6_at(cur, offi));
                    assert(addrs@[j as int]@ =~= sa6_at(cur, offi));
                }
                j = j + 1;
            }
            let mut j4: usize = 0;
            while j4 < num_ipv4_addrs
                invariant
                    j4 <= num_ipv4_addrs,
                    start <= pos <= end <= data@.len(),
                    pos + need <= end,
                    off == pos + 1 + id_len,
                    need == 1 + id_len + num_ipv6_addrs * 18 + num_ipv4_addrs * 6,
                    cur == data@.subrange(pos as int, end as int),
                    cur.len() == end - pos,
                    num_ipv6_addrs == (cur[0] & 0x38) as int / 8,
                    num_ipv4_addrs == (cur[0] & 0x07) as int,
                    has_node_id == ((cur[0] & 0x80) != 0),
                    id_len == (if has_node_id { 16int } else { 0int }),
                    pv == peer_at(cur),
                    a6 == pv.addrs.take(num_ipv6_addrs as int),
                    a4 == pv.addrs.skip(num_ipv6_addrs as int),
                    a4.len() == num_ipv4_addrs,
                    pv.addrs.len() == num_ipv6_addrs + num_ipv4_addrs,
                    addrs@.len() == num_ipv6_addrs + j4,
                    forall|i: int| 0 <= i < num_ipv6_addrs ==> #[trigger] addrs@[i]@ == a6[i],
                    forall|i: int|
                        0 <= i < j4 ==> #[trigger] addrs@[num_ipv6_addrs + i]@ == a4[i],
                decreases num_ipv4_addrs - j4,
            {
                let base = off + num_ipv6_addrs * 18 + j4 * 6;
                let ip = read_bytes4(data, base);
                let port = crate::types::read_be16(data, base + 4);
                addrs.push(SocketAddr::V4(ip, port));
                proof {
                    let offi: int = 1 + id_len + 18 * (num_ipv6_addrs as int) + 6 * (j4 as int);
                    lemma_subrange_of_subrange(data@, pos as int, end as int, offi, offi + 4);
                    assert(ip@ == cur.subrange(offi, offi + 4));
                    assert(cur[offi + 4] == data@[pos + offi + 4]);
                    assert(cur[offi + 5] == data@[pos + offi + 5]);
                    assert(a4[j4 as int] == pv.addrs[num_ipv6_addrs + j4 as int]);
                    assert(a4[j4 as int] == sa4_at(cur, offi));
                    assert(addrs@[(num_ipv6_addrs + j4) as int]@ =~= sa4_at(cur, offi));
                }
                j4 = j4 + 1;
            }
            let peer = PeerInfo { addrs, node_id };
            proof {
                assert forall|i: int| 0 <= i < peer@.addrs.len() implies peer@.addrs[i] == (a6
                    + a4)[i] by {
                    if i < num_ipv6_addrs {
                        assert(addrs@[i]@ == a6[i]);
                    } else {
                        assert(addrs@[num_ipv6_addrs + (i - num_ipv6_addrs)]@ == a4[
                            i - num_ipv6_addrs]);
                    }
                }
                assert(peer@.addrs =~= a6 + a4);
                assert(a6 + a4 =~= pv.addrs);
                assert(peer@ =~= pv);
            }
            let ghost prev_view = peer_list_view(peers);
            peers.push(peer);
            proof {
                assert(peer_list_view(peers) =~= prev_view + seq![pv]);
                assert_seqs_equal!(cur.skip(need as int),
                    data@.subrange(pos + need as int, end as int));
                let next = data@.subrange(pos + need as int, end as int);
                if let Ok(rest) = spec_peers(next) {
                    assert(spec_peers(cur) == Ok::<Seq<PeerInfoV>, DecodeErr>(seq![pv] + rest));
                    assert(prev_view + (seq![pv] + rest) =~= (prev_view + seq![pv]) + rest);
                }
            }
            pos = pos + need;
        }
        proof {
            let cur = data@.subrange(pos as int, end as int);
            assert(cur.len() == 0);
            assert(peer_list_view(peers) + Seq::<PeerInfoV>::empty() =~= peer_list_view(peers));
        }
        Ok(peers)
    }

    /// Decodes the body of a claims part: range records back to back until
    /// the bounded region between `start` and `end` is exhausted.
    fn decode_claims_part(data: &[u8], start: usize, end: usize) -> (r: Result<RangeList, Error>)
        requires
            start <= end <= data@.len(),
        ensures
            ({
                let region = data@.subrange(start as int, end as int);
                match spec_claims(region) {
                    Ok(cs) => r matches Ok(v) && claim_list_view(v) == cs,
                    Err(DecodeErr::TooShort) => r matches Err(e) && e matches Error::TooShort(_),
                    Err(DecodeErr::Malformed) => r matches Err(e) && e matches Error::Malformed(_),
                }
            }),
    {
        let ghost region = data@.subrange(start as int, end as int);
        let mut claims: RangeList = Vec::new();
        let mut pos: usize = start;
        while pos < end
            invariant
                start <= pos <= end <= data@.len(),
                region == data@.subrange(start as int, end as int),
                ({
                    let cur = data@.subrange(pos as int, end as int);
                    match spec_claims(cur) {
                        Ok(rest) => spec_claims(region) == Ok::<Seq<RangeV>, DecodeErr>(
                            claim_list_view(claims) + rest,
                        ),
                        Err(e) => spec_claims(region) == Err::<Seq<RangeV>, DecodeErr>(e),
                    }
                }),
            decreases end - pos,
        {
            let ghost cur = data@.subrange(pos as int, end as int);
            let (rg, npos) = match Range::read_from(data, pos, end) {
                Ok(p) => p,
                Err(e) => {
                    return Err(e);
                },
            };
            let ghost prev_view = claim_list_view(claims);
            claims.push(rg);
            proof {
                let n = spec_read_range(cur)->Ok_0.1;
                assert(n >= 1);
                assert_seqs_equal!(cur.skip(n), data@.subrange(npos as int, end as int));
                let next = data@.subrange(npos as int, end as int);
                assert(claim_list_view(claims) =~= prev_view + seq![rg@]);
                if let Ok(rest) = spec_claims(next) {
                    assert(spec_claims(cur) == Ok::<Seq<RangeV>, DecodeErr>(seq![rg@] + rest));
                    assert(prev_view + (seq![rg@] + rest) =~= (prev_view + seq![rg@]) + rest);
                }
            }
            pos = npos;
        }
        proof {
            let cur = data@.subrange(pos as int, end as int);
            assert(cur.len() == 0);
            assert(claim_list_view(claims) + Seq::<RangeV>::empty() =~= claim_list_view(claims));
        }
        Ok(claims)
    }

    /// Decodes a whole message, reporting precise reasons: parts are read
    /// and dispatched until the terminator tag, unknown tags are skipped,
    /// and the outer loop always resumes right after each declared part.
    fn decode_internal(data: &[u8]) -> (r: Result<NodeInfo, Error>)
        ensures
            decode_matches(data@, r),
    {
        let n = data.len();
        let mut peers: PeerList = Vec::new();
        let mut claims: RangeList = Vec::new();
        let mut peer_timeout: Option<u16> = None;
        let mut pos: usize = 0;
        proof {
            assert(data@.skip(0) =~= data@);
            assert(NodeInfoV {
                peers: peer_list_view(peers),
                claims: claim_list_view(claims),
                peer_timeout,
            } =~= empty_node_info());
        }
        loop
            invariant
                pos <= n == data@.len(),
                spec_decode(data@) == spec_parts(
                    data@.skip(pos as int),
                    NodeInfoV {
                        peers: peer_list_view(peers),
                        claims: claim_list_view(claims),
                        peer_timeout,
                    },
                ),
            decreases n - pos,
        {
            let ghost s = data@.skip(pos as int);
            let ghost acc = NodeInfoV {
                peers: peer_list_view(peers),
                claims: claim_list_view(claims),
                peer_timeout,
            };
            if pos >= n {
                return Err(Error::TooShort("Truncated message"));
            }
            let part = data[pos];
            proof {
                assert(s[0] == data@[pos as int]);
            }
            if part == PART_END {
                let result = NodeInfo { peers, claims, peer_timeout };
                proof {
                    assert(result@ =~= acc);
                }
                return Ok(result);
            }
            if n - (pos + 1) < 2 {
                return Err(Error::TooShort("Truncated message"));
            }
            proof {
                assert(s[1] == data@[pos + 1]);
                assert(s[2] == data@[pos + 2]);
            }
            let part_len = crate::types::read_be16(data, pos + 1) as usize;
            let bstart = pos + 3;
            if n - bstart < part_len {
                return Err(Error::TooShort("Truncated message"));
            }
            let bend = bstart + part_len;
            let ghost body = s.subrange(3, 3 + part_len as int);
            let ghost rest = s.skip(3 + part_len as int);
            proof {
                assert_seqs_equal!(body, data@.subrange(bstart as int, bend as int));
                assert_seqs_equal!(rest, data@.skip(bend as int));
            }
            if part == PART_PEERS {
                match Self::decode_peer_list_part(data, bstart, bend) {
                    Ok(ps) => {
                        peers = ps;
                    },
                    Err(e) => {
                        return Err(e);
                    },
                }
            } else if part == PART_CLAIMS {
                match Self::decode_claims_part(data, bstart, bend) {
                    Ok(cs) => {
                        claims = cs;
                    },
                    Err(e) => {
                        return Err(e);
                    },
                }
            } else if part == PART_PEER_TIMEOUT {
                if part_len < 2 {
                    return Err(Error::TooShort("Truncated message"));
                }
                proof {
                    assert(body[0] == data@[bstart as int]);
                    assert(body[1] == data@[bstart + 1]);
                }
                peer_timeout = Some(crate::types::read_be16(data, bstart));
            }
            proof {
                let acc2 = NodeInfoV {
                    peers: peer_list_view(peers),
                    claims: claim_list_view(claims),
                    peer_timeout,
                };
                if part == PART_PEERS {
                    let ps = spec_peers(body)->Ok_0;
                    assert(acc2 =~= NodeInfoV { peers: ps, ..acc });
                } else if part == PART_CLAIMS {
                    let cs = spec_claims(body)->Ok_0;
                    assert(acc2 =~= NodeInfoV { claims: cs, ..acc });
                } else if part == PART_PEER_TIMEOUT {
                    assert(acc2 =~= NodeInfoV {
                        peer_timeout: Some(be16(body[0], body[1])),
                        ..acc
                    });
                } else {
                    assert(acc2 =~= acc);
                }
                assert(spec_parts(s, acc) == spec_parts(rest, acc2));
            }
            pos = bend;
        }
    }

    /// Every claimed range's base address satisfies the address invariant.
    pub open spec fn claims_wf(self) -> bool {
        forall|i: int| 0 <= i < self.claims@.len() ==> (#[trigger] self.claims@[i]).base.wf()
    }

    /// The message can be serialized: range bases are well formed and the
    /// part bodies fit their 16-bit length fields.
    pub open spec fn encodable(self) -> bool {
        &&& self.claims_wf()
        &&& peers_bytes(self@.peers).len() <= 0xFFFF
        &&& claims_bytes(self@.claims).len() <= 0xFFFF
    }

    /// Encodes the peer-list part body: per peer a flags byte, the
    /// identifier if present, then the kept IPv6 addresses before the kept
    /// IPv4 addresses, silently dropping addresses beyond the first seven
    /// of either family.
    fn encode_peer_list_part(&self, out: &mut Vec<u8>)
        ensures
            final(out)@ == old(out)@ + peers_bytes(self@.peers),
    {
        let ghost base = old(out)@;
        let n = self.peers.len();
        let mut i: usize = 0;
        proof {
            assert(self@.peers.take(0) =~= Seq::<PeerInfoV>::empty());
            assert(peers_bytes(Seq::<PeerInfoV>::empty()) == Seq::<u8>::empty());
            assert(base + peers_bytes(self@.peers.take(0)) =~= base);
        }
        while i < n
            invariant
                i <= n == self.peers@.len(),
                self@.peers.len() == n,
                self@.peers == Seq::new(self.peers@.len(), |k: int| self.peers@[k]@),
                out@ == base + peers_bytes(self@.peers.take(i as int)),
            decreases n - i,
        {
            let ghost base_peer = out@;
            let p = &self.peers[i];
            let ghost pv = self@.peers[i as int];
            proof {
                assert(pv == p@);
            }
            let mut addr_ipv4: AddrList = Vec::new();
            let mut addr_ipv6: AddrList = Vec::new();
            let m = p.addrs.len();
            let mut k: usize = 0;
            proof {
                assert(pv.addrs.take(0) =~= Seq::<SocketAddrV>::empty());
                assert(v4s(Seq::<SocketAddrV>::empty()) == Seq::<SocketAddrV>::empty());
                assert(v6s(Seq::<SocketAddrV>::empty()) == Seq::<SocketAddrV>::empty());
                assert(addr_list_view(addr_ipv4) =~= Seq::<SocketAddrV>::empty());
                assert(addr_list_view(addr_ipv6) =~= Seq::<SocketAddrV>::empty());
            }
            while k < m
                invariant
                    k <= m == p.addrs@.len(),
                    pv.addrs.len() == m,
                    pv.addrs == Seq::new(p.addrs@.len(), |t: int| p.addrs@[t]@),
                    addr_list_view(addr_ipv4) == v4s(pv.addrs.take(k as int)),
                    addr_list_view(addr_ipv6) == v6s(pv.addrs.take(k as int)),
                decreases m - k,
            {
                let a = p.addrs[k];
                let ghost tk = pv.addrs.take(k as int);
                let ghost tk1 = pv.addrs.take(k as int + 1);
                proof {
                    assert(a@ == pv.addrs[k as int]);
                    assert(tk1.drop_last() =~= tk);
                    assert(tk1.last() == pv.addrs[k as int]);
                }
                match a {
                    SocketAddr::V4(_, _) => {
                        let ghost prev = addr_list_view(addr_ipv4);
                        addr_ipv4.push(a);
                        proof {
                            assert(addr_list_view(addr_ipv4) =~= prev + seq![a@]);
                            assert(v4s(tk1) == v4s(tk) + seq![a@]);
                            assert(v6s(tk1) == v6s(tk) + Seq::<SocketAddrV>::empty());
                            assert(v6s(tk) + Seq::<SocketAddrV>::empty() =~= v6s(tk));
                        }
                    },
                    SocketAddr::V6(_, _) => {
                        let ghost prev = addr_list_view(addr_ipv6);
                        addr_ipv6.push(a);
                        proof {
                            assert(addr_list_view(addr_ipv6) =~= prev + seq![a@]);
                            assert(v6s(tk1) == v6s(tk) + seq![a@]);
                            assert(v4s(tk1) == v4s(tk) + Seq::<SocketAddrV>::empty());
                            assert(v4s(tk) + Seq::<SocketAddrV>::empty() =~= v4s(tk));
                        }
                    },
                }
                k += 1;
            }
            proof {
                assert(pv.addrs.take(m as int) =~= pv.addrs);
                assert(addr_list_view(addr_ipv4).len() == v4s(pv.addrs).len());
                assert(v4s(pv.addrs).take(v4s(pv.addrs).len() as int) =~= v4s(pv.addrs));
                assert(v6s(pv.addrs).take(v6s(pv.addrs).len() as int) =~= v6s(pv.addrs));
            }
            while addr_ipv4.len() >= 8
                invariant
                    addr_ipv4@.len() <= v4s(pv.addrs).len(),
                    addr_list_view(addr_ipv4) == v4s(pv.addrs).take(addr_ipv4@.len() as int),
                    addr_ipv4@.len() >= 7 || addr_ipv4@.len() == v4s(pv.addrs).len(),
                decreases addr_ipv4@.len(),
            {
                addr_ipv4.pop();
                proof {
                    assert(addr_list_view(addr_ipv4) =~= v4s(pv.addrs).take(
                        addr_ipv4@.len() as int,
                    ));
                }
            }
            while addr_ipv6.len() >= 8
                invariant
                    addr_ipv6@.len() <= v6s(pv.addrs).len(),
                    addr_list_view(addr_ipv6) == v6s(pv.addrs).take(addr_ipv6@.len() as int),
                    addr_ipv6@.len() >= 7 || addr_ipv6@.len() == v6s(pv.addrs).len(),
                decreases addr_ipv6@.len(),
            {
                addr_ipv6.pop();
                proof {
                    assert(addr_list_view(addr_ipv6) =~= v6s(pv.addrs).take(
                        addr_ipv6@.len() as int,
                    ));
                }
            }
            let ghost a4k = keep7(v4s(pv.addrs));
            let ghost a6k = keep7(v6s(pv.addrs));
            proof {
                assert(addr_list_view(addr_ipv4) == a4k);
                assert(addr_list_view(addr_ipv6) == a6k);
            }
            let n6 = addr_ipv6.len();
            let n4 = addr_ipv4.len();
            let mut flags: u8 = (n6 as u8) * 8 + (n4 as u8);
            if p.node_id.is_some() {
                flags += 0x80;
            }
            proof {
                assert(flags == peer_flags(pv));
            }
            out.push(flags);
            let ghost idv: Seq<u8> = match pv.node_id {
                Some(id) => id,
                None => Seq::empty(),
            };
            if let Some(id) = &p.node_id {
                let mut t: usize = 0;
                while t < NODE_ID_BYTES
                    invariant
                        t <= NODE_ID_BYTES,
                        idv == id@,
                        out@ == base_peer + seq![flags] + id@.take(t as int),
                    decreases NODE_ID_BYTES - t,
                {
                    let b = id[t];
                    out.push(b);
                    proof {
                        assert_seqs_equal!(out@, base_peer + seq![flags] + id@.take(t + 1));
                    }
                    t += 1;
                }
                proof {
                    assert(id@.take(NODE_ID_BYTES as int) =~= id@);
                }
            } else {
                proof {
                    assert(out@ =~= base_peer + seq![flags] + idv);
                }
            }
            let ghost base6 = out@;
            let c6 = addr_ipv6.len();
            let mut j: usize = 0;
            proof {
                assert(a6k.take(0) =~= Seq::<SocketAddrV>::empty());
                assert(sas_bytes(Seq::<SocketAddrV>::empty()) == Seq::<u8>::empty());
                assert(base6 + sas_bytes(a6k.take(0)) =~= base6);
            }
            while j < c6
                invariant
                    j <= c6 == addr_ipv6@.len(),
                    addr_list_view(addr_ipv6) == a6k,
                    a6k.len() == c6,
                    out@ == base6 + sas_bytes(a6k.take(j as int)),
                decreases c6 - j,
            {
                let a = addr_ipv6[j];
                push_addr(out, &a);
                proof {
                    assert(a@ == a6k[j as int]);
                    assert(a6k.take(j as int + 1) =~= a6k.take(j as int).push(a6k[j as int]));
                    lemma_sas_bytes_snoc(a6k.take(j as int), a6k[j as int]);
                }
                j += 1;
            }
            proof {
                assert(a6k.take(c6 as int) =~= a6k);
            }
            let ghost base4 = out@;
            let c4 = addr_ipv4.len();
            let mut j4: usize = 0;
            proof {
                assert(a4k.take(0) =~= Seq::<SocketAddrV>::empty());
                assert(sas_bytes(Seq::<SocketAddrV>::empty()) == Seq::<u8>::empty());
                assert(base4 + sas_bytes(a4k.take(0)) =~= base4);
            }
            while j4 < c4
                invariant
                    j4 <= c4 == addr_ipv4@.len(),
                    addr_list_view(addr_ipv4) == a4k,
                    a4k.len() == c4,
                    out@ == base4 + sas_bytes(a4k.take(j4 as int)),
                decreases c4 - j4,
            {
                let a = addr_ipv4[j4];
                push_addr(out, &a);
                proof {
                    assert(a@ == a4k[j4 as int]);
                    assert(a4k.take(j4 as int + 1) =~= a4k.take(j4 as int).push(a4k[j4 as int]));
                    lemma_sas_bytes_snoc(a4k.take(j4 as int), a4k[j4 as int]);
                }
                j4 += 1;
            }
            proof {
                assert(a4k.take(c4 as int) =~= a4k);
                assert_seqs_equal!(out@, base_peer + peer_bytes(pv));
                assert(self@.peers.take(i as int + 1) =~= self@.peers.take(i as int).push(pv));
                lemma_peers_bytes_snoc(self@.peers.take(i as int), pv);
                assert_seqs_equal!(out@, base + peers_bytes(self@.peers.take(i as int + 1)));
            }
            i += 1;
        }
        proof {
            assert(self@.peers.take(n as int) =~= self@.peers);
        }
    }

    /// Writes one part: its tag, the body length as a big-endian 16-bit
    /// value, then the body bytes.
    fn encode_part(out: &mut Vec<u8>, part: u8, body: &Vec<u8>)
        requires
            body@.len() <= 0xFFFF,
        ensures
            final(out)@ == old(out)@ + part_bytes(part, body@),
    {
        out.push(part);
        let len16: u16 = body.len() as u16;
        crate::types::push_be16(out, len16);
        let m = body.len();
        let mut k: usize = 0;
        proof {
            assert(body@.take(0) =~= Seq::<u8>::empty());
            assert_seqs_equal!(out@,
                old(out)@ + seq![part] + be16_bytes(body@.len() as u16) + body@.take(0));
        }
        while k < m
            invariant
                k <= m == body@.len(),
                out@ == old(out)@ + seq![part] + be16_bytes(body@.len() as u16) + body@.take(
                    k as int,
                ),
            decreases m - k,
        {
            let b = body[k];
            out.push(b);
            proof {
                assert_seqs_equal!(out@,
                    old(out)@ + seq![part] + be16_bytes(body@.len() as u16) + body@.take(k + 1));
            }
            k += 1;
        }
        proof {
            assert(body@.take(m as int) =~= body@);
            assert_seqs_equal!(out@, old(out)@ + part_bytes(part, body@));
        }
    }

    /// Serializes the whole message into a fresh byte vector: the peer-list
    /// part, the claims part, the timeout part only if present, then the
    /// terminator tag.
    fn encode_internal(&self) -> (r: Vec<u8>)
        requires
            self.encodable(),
        ensures
            r@ == msg_bytes(self@),
    {
        let mut out: Vec<u8> = Vec::new();
        let mut pbody: Vec<u8> = Vec::new();
        self.encode_peer_list_part(&mut pbody);
        proof {
            assert(pbody@ =~= peers_bytes(self@.peers));
        }
        Self::encode_part(&mut out, PART_PEERS, &pbody);
        let mut cbody: Vec<u8> = Vec::new();
        let nc = self.claims.len();
        let mut i: usize = 0;
        proof {
            assert(self@.claims.take(0) =~= Seq::<RangeV>::empty());
            assert(claims_bytes(Seq::<RangeV>::empty()) == Seq::<u8>::empty());
            assert(cbody@ =~= claims_bytes(self@.claims.take(0)));
        }
        while i < nc
            invariant
                i <= nc == self.claims@.len(),
                self@.claims.len() == nc,
                self@.claims == Seq::new(self.claims@.len(), |k: int| self.claims@[k]@),
                self.claims_wf(),
                cbody@ == claims_bytes(self@.claims.take(i as int)),
            decreases nc - i,
        {
            let c = &self.claims[i];
            let ghost cv = self@.claims[i as int];
            proof {
                assert(self.claims@[i as int].base.wf());
                assert(cv == c@);
            }
            c.write_to(&mut cbody);
            proof {
                assert(self@.claims.take(i as int + 1) =~= self@.claims.take(i as int).push(cv));
                lemma_claims_bytes_snoc(self@.claims.take(i as int), cv);
            }
            i += 1;
        }
        proof {
            assert(self@.claims.take(nc as int) =~= self@.claims);
        }
        Self::encode_part(&mut out, PART_CLAIMS, &cbody);
        if let Some(timeout) = self.peer_timeout {
            let mut tbody: Vec<u8> = Vec::new();
            crate::types::push_be16(&mut tbody, timeout);
            proof {
                assert(tbody@ =~= be16_bytes(timeout));
            }
            Self::encode_part(&mut out, PART_PEER_TIMEOUT, &tbody);
        }
        out.push(PART_END);
        proof {
            assert_seqs_equal!(out@, msg_bytes(self@));
        }
        out
    }

    /// Encodes the message into the caller's reusable output buffer and
    /// declares the produced length. The caller sizes the buffer to the
    /// maximum message size beforehand; too small a buffer is a programming
    /// error ruled out here, not a runtime condition.
    pub fn encode(&self, buffer: &mut MsgBuffer)
        requires
            self.encodable(),
            old(buffer).wf(),
            msg_bytes(self@).len() <= old(buffer).spec_capacity(),
        ensures
            final(buffer).wf(),
            final(buffer).spec_capacity() == old(buffer).spec_capacity(),
            final(buffer).spec_length() == msg_bytes(self@).len(),
            final(buffer).message() == msg_bytes(self@),
    {
        let v = self.encode_internal();
        let m = v.len();
        let mut i: usize = 0;
        while i < m
            invariant
                i <= m == v@.len(),
                v@ == msg_bytes(self@),
                buffer.wf(),
                buffer.spec_capacity() == old(buffer).spec_capacity(),
                m <= buffer.spec_capacity(),
                forall|j: int| 0 <= j < i ==> #[trigger] buffer.contents()[j] == v@[j],
            decreases m - i,
        {
            proof {
                buffer.lemma_props();
            }
            let b = v[i];
            buffer.put(i, b);
            i += 1;
        }
        buffer.set_length(m);
        proof {
            buffer.lemma_props();
            assert_seqs_equal!(buffer.message(), msg_bytes(self@));
        }
    }

    /// Parses a `NodeInfo` message from untrusted bytes: truncation in any
    /// fixed-size read fails with a uniform too-short error, while a range
    /// record that fails its own validity check keeps its distinct
    /// malformed error.
    pub fn decode(data: &[u8]) -> (r: Result<NodeInfo, Error>)
        ensures
            decode_matches(data@, r),
    {
        match Self::decode_internal(data) {
            Ok(v) => Ok(v),
            Err(Error::TooShort(_)) => Err(Error::TooShort("Input data too short")),
            Err(Error::Malformed(m)) => Err(Error::Malformed(m)),
        }
    }
}

/// One peer as the wire format can represent it: the same identifier, with
/// the kept IPv6 addresses (at most seven) before the kept IPv4 addresses
/// (at most seven), order preserved within each family.
pub open spec fn norm_peer(p: PeerInfoV) -> PeerInfoV {
    PeerInfoV { node_id: p.node_id, addrs: keep7(v6s(p.addrs)) + keep7(v4s(p.addrs)) }
}

/// A message as the wire format can represent it: each peer normalized,
/// claims and timeout unchanged.
pub open spec fn norm_msg(v: NodeInfoV) -> NodeInfoV {
    NodeInfoV {
        peers: Seq::new(v.peers.len(), |i: int| norm_peer(v.peers[i])),
        claims: v.claims,
        peer_timeout: v.peer_timeout,
    }
}

/// The flags byte stores the identifier bit and both address counts
/// losslessly when the counts are at most seven.
proof fn lemma_flags_bits(has: bool, n6: u8, n4: u8)
    requires
        n6 <= 7,
        n4 <= 7,
    ensures
        ({
            let f = ((if has {
                0x80int
            } else {
                0int
            }) + n6 * 8 + n4) as u8;
            &&& ((f & 0x80) != 0) == has
            &&& (f & 0x38) as int / 8 == n6
            &&& (f & 0x07) == n4
        }),
{
    if has {
        let f = (0x80 + n6 * 8 + n4) as u8;
        assert((f & 0x80) != 0 && (f & 0x38) / 8 == n6 && (f & 0x07) == n4) by (bit_vector)
            requires
                f == (0x80 + n6 * 8 + n4) as u8,
                n6 <= 7,
                n4 <= 7,
        ;
    } else {
        let f = (n6 * 8 + n4) as u8;
        assert((f & 0x80) == 0 && (f & 0x38) / 8 == n6 && (f & 0x07) == n4) by (bit_vector)
            requires
                f == (n6 * 8 + n4) as u8,
                n6 <= 7,
                n4 <= 7,
        ;
    }
}

/// Splitting a list by family keeps every element, its family and its
/// well-formedness.
proof fn lemma_split_elems(s: Seq<SocketAddrV>)
    requires
        forall|i: int| 0 <= i < s.len() ==> sav_wf(#[trigger] s[i]),
    ensures
        v6s(s).len() + v4s(s).len() == s.len(),
        forall|i: int|
            0 <= i < v6s(s).len() ==> !sav_is_v4(#[trigger] v6s(s)[i]) && sav_wf(v6s(s)[i]),
        forall|i: int|
            0 <= i < v4s(s).len() ==> sav_is_v4(#[trigger] v4s(s)[i]) && sav_wf(v4s(s)[i]),
    decreases s.len(),
{
    if s.len() > 0 {
        lemma_split_elems(s.drop_last());
    }
}

/// A list of IPv6 addresses encodes to eighteen bytes per entry.
proof fn lemma_sas6_len(a: Seq<SocketAddrV>)
    requires
        forall|i: int| 0 <= i < a.len() ==> !sav_is_v4(#[trigger] a[i]) && sav_wf(a[i]),
    ensures
        sas_bytes(a).len() == 18 * a.len(),
    decreases a.len(),
{
    if a.len() > 0 {
        assert(sav_wf(a[0]));
        lemma_sas6_len(a.skip(1));
    }
}

/// A list of IPv4 addresses encodes to six bytes per entry.
proof fn lemma_sas4_len(a: Seq<SocketAddrV>)
    requires
        forall|i: int| 0 <= i < a.len() ==> sav_is_v4(#[trigger] a[i]) && sav_wf(a[i]),
    ensures
        sas_bytes(a).len() == 6 * a.len(),
    decreases a.len(),
{
    if a.len() > 0 {
        assert(sav_wf(a[0]));
        lemma_sas4_len(a.skip(1));
    }
}

/// The wire bytes of a list of IPv6 addresses are eighteen per entry, and
/// each entry reads back from its slot.
proof fn lemma_sas6_extract(a: Seq<SocketAddrV>, s: Seq<u8>, off: int)
    requires
        forall|i: int| 0 <= i < a.len() ==> !sav_is_v4(#[trigger] a[i]) && sav_wf(a[i]),
        0 <= off,
        off + 18 * a.len() <= s.len(),
        s.subrange(off, off + 18 * a.len()) == sas_bytes(a),
    ensures
        sas_bytes(a).len() == 18 * a.len(),
        forall|i: int| 0 <= i < a.len() ==> sa6_at(s, off + 18 * i) == a[i],
    decreases a.len(),
{
    if a.len() > 0 {
        let a0 = a[0];
        assert(sav_wf(a0) && !sav_is_v4(a0));
        let ip = a0->V6_0;
        let port = a0->V6_1;
        assert(sav_bytes(a0) == ip + be16_bytes(port));
        assert(sav_bytes(a0).len() == 18);
        lemma_sas6_len(a);
        lemma_sas6_len(a.skip(1));
        assert_seqs_equal!(s.subrange(off + 18, off + 18 * a.len()),
            sas_bytes(a).subrange(18, sas_bytes(a).len() as int));
        assert_seqs_equal!(sas_bytes(a).subrange(18, sas_bytes(a).len() as int),
            sas_bytes(a.skip(1)));
        lemma_sas6_extract(a.skip(1), s, off + 18);
        assert_seqs_equal!(s.subrange(off, off + 16), ip);
        crate::types::lemma_be16_round(port);
        assert(s[off + 16] == s.subrange(off, off + 18 * a.len())[16]);
        assert(sas_bytes(a)[16] == sav_bytes(a0)[16]);
        assert(sav_bytes(a0)[16] == be16_bytes(port)[0]);
        assert(s[off + 17] == s.subrange(off, off + 18 * a.len())[17]);
        assert(sas_bytes(a)[17] == sav_bytes(a0)[17]);
        assert(sav_bytes(a0)[17] == be16_bytes(port)[1]);
        assert(sa6_at(s, off) =~= a0);
        assert forall|i: int| 0 <= i < a.len() implies sa6_at(s, off + 18 * i) == a[i] by {
            if i > 0 {
                assert(sa6_at(s, off + 18 + 18 * (i - 1)) == a.skip(1)[i - 1]);
            }
        }
    }
}

/// The wire bytes of a list of IPv4 addresses are six per entry, and each
/// entry reads back from its slot.
proof fn lemma_sas4_extract(a: Seq<SocketAddrV>, s: Seq<u8>, off: int)
    requires
        forall|i: int| 0 <= i < a.len() ==> sav_is_v4(#[trigger] a[i]) && sav_wf(a[i]),
        0 <= off,
        off + 6 * a.len() <= s.len(),
        s.subrange(off, off + 6 * a.len()) == sas_bytes(a),
    ensures
        sas_bytes(a).len() == 6 * a.len(),
        forall|i: int| 0 <= i < a.len() ==> sa4_at(s, off + 6 * i) == a[i],
    decreases a.len(),
{
    if a.len() > 0 {
        let a0 = a[0];
        assert(sav_wf(a0) && sav_is_v4(a0));
        let ip = a0->V4_0;
        let port = a0->V4_1;
        assert(sav_bytes(a0) == ip + be16_bytes(port));
        assert(sav_bytes(a0).len() == 6);
        lemma_sas4_len(a);
        lemma_sas4_len(a.skip(1));
        assert_seqs_equal!(s.subrange(off + 6, off + 6 * a.len()),
            sas_bytes(a).subrange(6, sas_bytes(a).len() as int));
        assert_seqs_equal!(sas_bytes(a).subrange(6, sas_bytes(a).len() as int),
            sas_bytes(a.skip(1)));
        lemma_sas4_extract(a.skip(1), s, off + 6);
        assert_seqs_equal!(s.subrange(off, off + 4), ip);
        crate::types::lemma_be16_round(port);
        assert(s[off + 4] == s.subrange(off, off + 6 * a.len())[4]);
        assert(sas_bytes(a)[4] == sav_bytes(a0)[4]);
        assert(sav_bytes(a0)[4] == be16_bytes(port)[0]);
        assert(s[off + 5] == s.subrange(off, off + 6 * a.len())[5]);
        assert(sas_bytes(a)[5] == sav_bytes(a0)[5]);
        assert(sav_bytes(a0)[5] == be16_bytes(port)[1]);
        assert(sa4_at(s, off) =~= a0);
        assert forall|i: int| 0 <= i < a.len() implies sa4_at(s, off + 6 * i) == a[i] by {
            if i > 0 {
                assert(sa4_at(s, off + 6 + 6 * (i - 1)) == a.skip(1)[i - 1]);
            }
        }
    }
}

/// One encoded peer at the front of a byte stream reads back as that peer,
/// normalized.
proof fn lemma_peer_bytes_parse(p: PeerInfoV, rest: Seq<u8>)
    requires
        peer_wf(p),
    ensures
        peer_bytes(p).len() >= 1,
        peer_need(peer_bytes(p) + rest) == peer_bytes(p).len(),
        peer_at(peer_bytes(p) + rest) == norm_peer(p),
{
    let s = peer_bytes(p) + rest;
    let a6 = keep7(v6s(p.addrs));
    let a4 = keep7(v4s(p.addrs));
    let has = p.node_id is Some;
    let idv: Seq<u8> = match p.node_id {
        Some(id) => id,
        None => Seq::empty(),
    };
    let idlen = idv.len() as int;
    lemma_split_elems(p.addrs);
    assert(forall|i: int| 0 <= i < a6.len() ==> !sav_is_v4(#[trigger] a6[i]) && sav_wf(a6[i]));
    assert(forall|i: int| 0 <= i < a4.len() ==> sav_is_v4(#[trigger] a4[i]) && sav_wf(a4[i]));
    lemma_flags_bits(has, a6.len() as u8, a4.len() as u8);
    assert(s[0] == peer_flags(p));
    let off = 1 + idlen;
    lemma_sas6_len(a6);
    lemma_sas4_len(a4);
    assert_seqs_equal!(s.subrange(off, off + 18 * a6.len()), sas_bytes(a6));
    lemma_sas6_extract(a6, s, off);
    let off4 = off + 18 * a6.len();
    assert_seqs_equal!(s.subrange(off4, off4 + 6 * a4.len()), sas_bytes(a4));
    lemma_sas4_extract(a4, s, off4);
    assert(peer_bytes(p).len() == 1 + idlen + 18 * a6.len() + 6 * a4.len());
    assert(peer_need(s) == peer_bytes(p).len());
    if has {
        assert_seqs_equal!(s.subrange(1, 1 + NODE_ID_BYTES as int), idv);
    }
    let pa = peer_at(s);
    assert(pa.addrs.len() == a6.len() + a4.len());
    assert forall|i: int| 0 <= i < pa.addrs.len() implies pa.addrs[i] == (a6 + a4)[i] by {
        if i < a6.len() {
            assert(pa.addrs[i] == sa6_at(s, off + 18 * i));
        } else {
            assert(pa.addrs[i] == sa4_at(s, off4 + 6 * (i - a6.len())));
        }
    }
    assert(pa.addrs =~= a6 + a4);
    assert(pa =~= norm_peer(p));
}

/// An encoded peer list reads back as the same peers, each normalized.
proof fn lemma_peers_parse(ps: Seq<PeerInfoV>)
    requires
        forall|i: int| 0 <= i < ps.len() ==> peer_wf(#[trigger] ps[i]),
    ensures
        spec_peers(peers_bytes(ps)) == Ok::<Seq<PeerInfoV>, DecodeErr>(
            Seq::new(ps.len(), |i: int| norm_peer(ps[i])),
        ),
    decreases ps.len(),
{
    if ps.len() == 0 {
        assert(Seq::new(0, |i: int| norm_peer(ps[i])) =~= Seq::<PeerInfoV>::empty());
    } else {
        let s = peers_bytes(ps);
        let rest = peers_bytes(ps.skip(1));
        lemma_peer_bytes_parse(ps[0], rest);
        lemma_peers_parse(ps.skip(1));
        assert(s.len() >= peer_need(s));
        assert_seqs_equal!(s.skip(peer_need(s)), rest);
        assert(seq![norm_peer(ps[0])] + Seq::new(ps.skip(1).len(), |i: int| norm_peer(ps.skip(1)[i]))
            =~= Seq::new(ps.len(), |i: int| norm_peer(ps[i])));
    }
}

/// One encoded range record at the front of a byte stream reads back as
/// that range.
proof fn lemma_range_parse(c: RangeV, rest: Seq<u8>)
    requires
        range_wf(c),
    ensures
        spec_read_range(range_bytes(c) + rest) == Ok::<(RangeV, int), DecodeErr>(
            (c, range_bytes(c).len() as int),
        ),
{
    let s = range_bytes(c) + rest;
    let alen = c.base.len() as int;
    assert(s[0] == alen as u8);
    assert_seqs_equal!(s.subrange(1, 1 + alen), c.base);
    assert(s[1 + alen] == c.prefix_len);
    assert(spec_read_range(s)->Ok_0.0 =~= c);
}

/// An encoded claims list reads back as the same ranges.
proof fn lemma_claims_parse(cs: Seq<RangeV>)
    requires
        forall|i: int| 0 <= i < cs.len() ==> range_wf(#[trigger] cs[i]),
    ensures
        spec_claims(claims_bytes(cs)) == Ok::<Seq<RangeV>, DecodeErr>(cs),
    decreases cs.len(),
{
    if cs.len() == 0 {
        assert(cs =~= Seq::<RangeV>::empty());
    } else {
        let s = claims_bytes(cs);
        let rest = claims_bytes(cs.skip(1));
        lemma_range_parse(cs[0], rest);
        lemma_claims_parse(cs.skip(1));
        assert(s.len() > 0);
        assert_seqs_equal!(s.skip(range_bytes(cs[0]).len() as int), rest);
        assert(seq![cs[0]] + cs.skip(1) =~= cs);
    }
}

/// Shape of one encoded part at the front of a byte stream: the tag, the
/// body length, the body and the remainder all read back.
proof fn lemma_part_shape(tag: u8, body: Seq<u8>, rest: Seq<u8>)
    requires
        body.len() <= 0xFFFF,
    ensures
        ({
            let s = part_bytes(tag, body) + rest;
            &&& s.len() == 3 + body.len() + rest.len()
            &&& s[0] == tag
            &&& be16(s[1], s[2]) as int == body.len()
            &&& s.subrange(3, 3 + body.len() as int) == body
            &&& s.skip(3 + body.len() as int) == rest
        }),
{
    let s = part_bytes(tag, body) + rest;
    crate::types::lemma_be16_round(body.len() as u16);
    assert(s[1] == be16_bytes(body.len() as u16)[0]);
    assert(s[2] == be16_bytes(body.len() as u16)[1]);
    assert_seqs_equal!(s.subrange(3, 3 + body.len() as int), body);
    assert_seqs_equal!(s.skip(3 + body.len() as int), rest);
}

/// Truncation policy: decoding an encoded message yields the same claims
/// and timeout, and per peer the same identifier with exactly the first
/// seven addresses of each family kept, order preserved, IPv6 before IPv4.
#[verifier::rlimit(60)]
pub proof fn lemma_encode_decode(v: NodeInfoV)
    requires
        msg_wf(v),
        peers_bytes(v.peers).len() <= 0xFFFF,
        claims_bytes(v.claims).len() <= 0xFFFF,
    ensures
        spec_decode(msg_bytes(v)) == Ok::<NodeInfoV, DecodeErr>(norm_msg(v)),
{
    let s = msg_bytes(v);
    let b1 = peers_bytes(v.peers);
    let b2 = claims_bytes(v.claims);
    let p1 = part_bytes(PART_PEERS, b1);
    let p2 = part_bytes(PART_CLAIMS, b2);
    let p3: Seq<u8> = match v.peer_timeout {
        Some(t) => part_bytes(PART_PEER_TIMEOUT, be16_bytes(t)),
        None => Seq::empty(),
    };
    let rest1 = p2 + p3 + seq![PART_END];
    assert(s =~= p1 + rest1);
    lemma_part_shape(PART_PEERS, b1, rest1);
    lemma_peers_parse(v.peers);
    let acc0 = empty_node_info();
    let acc1 = NodeInfoV { peers: Seq::new(v.peers.len(), |i: int| norm_peer(v.peers[i])), ..acc0 };
    assert(spec_parts(s, acc0) == spec_parts(rest1, acc1));
    let rest2 = p3 + seq![PART_END];
    assert(rest1 =~= p2 + rest2);
    lemma_part_shape(PART_CLAIMS, b2, rest2);
    lemma_claims_parse(v.claims);
    let acc2 = NodeInfoV { claims: v.claims, ..acc1 };
    assert(spec_parts(rest1, acc1) == spec_parts(rest2, acc2));
    match v.peer_timeout {
        None => {
            assert(rest2 =~= seq![PART_END]);
            assert(spec_parts(rest2, acc2) == Ok::<NodeInfoV, DecodeErr>(acc2));
            assert(acc2 =~= norm_msg(v));
        },
        Some(t) => {
            let endp = seq![PART_END];
            assert(rest2 =~= part_bytes(PART_PEER_TIMEOUT, be16_bytes(t)) + endp);
            lemma_part_shape(PART_PEER_TIMEOUT, be16_bytes(t), endp);
            crate::types::lemma_be16_round(t);
            let acc3 = NodeInfoV { peer_timeout: Some(t), ..acc2 };
            assert(spec_parts(rest2, acc2) == spec_parts(endp, acc3));
            assert(spec_parts(endp, acc3) == Ok::<NodeInfoV, DecodeErr>(acc3));
            assert(acc3 =~= norm_msg(v));
        },
    }
}

/// Round-trip law: a message whose peers each carry at most seven
/// addresses of either family, already ordered IPv6 before IPv4, decodes
/// from its own encoding to exactly itself.
pub proof fn lemma_round_trip(v: NodeInfoV)
    requires
        msg_wf(v),
        peers_bytes(v.peers).len() <= 0xFFFF,
        claims_bytes(v.claims).len() <= 0xFFFF,
        forall|i: int| 0 <= i < v.peers.len() ==> norm_peer(#[trigger] v.peers[i]) == v.peers[i],
    ensures
        spec_decode(msg_bytes(v)) == Ok::<NodeInfoV, DecodeErr>(v),
{
    lemma_encode_decode(v);
    assert(norm_msg(v) =~= v);
}

/// A prefix that ends inside a leading part's header or body decodes as
/// too short, whatever was accumulated so far.
proof fn lemma_prefix_in_part(tag: u8, body: Seq<u8>, rest: Seq<u8>, acc: NodeInfoV, i: int)
    requires
        tag != PART_END,
        body.len() <= 0xFFFF,
        0 <= i < 3 + body.len(),
    ensures
        spec_parts((part_bytes(tag, body) + rest).take(i), acc) == Err::<NodeInfoV, DecodeErr>(
            DecodeErr::TooShort,
        ),
{
    let s = part_bytes(tag, body) + rest;
    lemma_part_shape(tag, body, rest);
    let t = s.take(i);
    if i == 0 {
    } else if i < 3 {
        assert(t[0] == s[0]);
    } else {
        assert(t[0] == s[0]);
        assert(t[1] == s[1]);
        assert(t[2] == s[2]);
        assert(t.len() < 3 + be16(t[1], t[2]) as int);
    }
}

/// A prefix that covers a whole leading part has that part's shape at its
/// front, followed by the same prefix of the remainder.
proof fn lemma_prefix_after_part(tag: u8, body: Seq<u8>, rest: Seq<u8>, i: int)
    requires
        tag != PART_END,
        body.len() <= 0xFFFF,
        3 + body.len() <= i <= (part_bytes(tag, body) + rest).len(),
    ensures
        ({
            let t = (part_bytes(tag, body) + rest).take(i);
            &&& t.len() == i
            &&& t[0] == tag
            &&& be16(t[1], t[2]) as int == body.len()
            &&& t.subrange(3, 3 + body.len() as int) == body
            &&& t.skip(3 + body.len() as int) == rest.take(i - 3 - body.len())
        }),
{
    let s = part_bytes(tag, body) + rest;
    lemma_part_shape(tag, body, rest);
    let t = s.take(i);
    assert(t[0] == s[0]);
    assert(t[1] == s[1]);
    assert(t[2] == s[2]);
    assert_seqs_equal!(t.subrange(3, 3 + body.len() as int), body);
    assert_seqs_equal!(t.skip(3 + body.len() as int), rest.take(i - 3 - body.len()));
}

/// A prefix covering a whole leading peer-list part parses that part and
/// continues in the same prefix of the remainder.
proof fn lemma_step_peers_prefix(ps: Seq<PeerInfoV>, rest: Seq<u8>, acc: NodeInfoV, i: int)
    requires
        forall|k: int| 0 <= k < ps.len() ==> peer_wf(#[trigger] ps[k]),
        peers_bytes(ps).len() <= 0xFFFF,
        3 + peers_bytes(ps).len() <= i <= (part_bytes(PART_PEERS, peers_bytes(ps)) + rest).len(),
    ensures
        spec_parts((part_bytes(PART_PEERS, peers_bytes(ps)) + rest).take(i), acc) == spec_parts(
            rest.take(i - 3 - peers_bytes(ps).len()),
            NodeInfoV { peers: Seq::new(ps.len(), |k: int| norm_peer(ps[k])), ..acc },
        ),
{
    lemma_prefix_after_part(PART_PEERS, peers_bytes(ps), rest, i);
    lemma_peers_parse(ps);
}

/// A prefix covering a whole leading claims part parses that part and
/// continues in the same prefix of the remainder.
proof fn lemma_step_claims_prefix(cs: Seq<RangeV>, rest: Seq<u8>, acc: NodeInfoV, i: int)
    requires
        forall|k: int| 0 <= k < cs.len() ==> range_wf(#[trigger] cs[k]),
        claims_bytes(cs).len() <= 0xFFFF,
        3 + claims_bytes(cs).len() <= i <= (part_bytes(PART_CLAIMS, claims_bytes(cs)) + rest).len(),
    ensures
        spec_parts((part_bytes(PART_CLAIMS, claims_bytes(cs)) + rest).take(i), acc) == spec_parts(
            rest.take(i - 3 - claims_bytes(cs).len()),
            NodeInfoV { claims: cs, ..acc },
        ),
{
    lemma_prefix_after_part(PART_CLAIMS, claims_bytes(cs), rest, i);
    lemma_claims_parse(cs);
}

/// A prefix covering a whole leading timeout part parses that part and
/// continues in the same prefix of the remainder.
proof fn lemma_step_timeout_prefix(t: u16, rest: Seq<u8>, acc: NodeInfoV, i: int)
    requires
        5 <= i <= (part_bytes(PART_PEER_TIMEOUT, be16_bytes(t)) + rest).len(),
    ensures
        spec_parts((part_bytes(PART_PEER_TIMEOUT, be16_bytes(t)) + rest).take(i), acc)
            == spec_parts(rest.take(i - 5), NodeInfoV { peer_timeout: Some(t), ..acc }),
{
    lemma_prefix_after_part(PART_PEER_TIMEOUT, be16_bytes(t), rest, i);
    crate::types::lemma_be16_round(t);
}

/// Truncated input law: every proper, non-empty prefix of a valid encoded
/// message fails to decode, with the truncation failure kind.
#[verifier::rlimit(100)]
pub proof fn lemma_truncated_prefix(v: NodeInfoV, i: int)
    requires
        msg_wf(v),
        peers_bytes(v.peers).len() <= 0xFFFF,
        claims_bytes(v.claims).len() <= 0xFFFF,
        0 < i < msg_bytes(v).len(),
    ensures
        spec_decode(msg_bytes(v).take(i)) == Err::<NodeInfoV, DecodeErr>(DecodeErr::TooShort),
{
    let s = msg_bytes(v);
    let b1 = peers_bytes(v.peers);
    let b2 = claims_bytes(v.claims);
    let p1 = part_bytes(PART_PEERS, b1);
    let p2 = part_bytes(PART_CLAIMS, b2);
    let p3: Seq<u8> = match v.peer_timeout {
        Some(t) => part_bytes(PART_PEER_TIMEOUT, be16_bytes(t)),
        None => Seq::empty(),
    };
    let rest1 = p2 + p3 + seq![PART_END];
    let rest2 = p3 + seq![PART_END];
    assert(s =~= p1 + rest1);
    assert(rest1 =~= p2 + rest2);
    let acc0 = empty_node_info();
    let la = 3 + b1.len() as int;
    if i < la {
        lemma_prefix_in_part(PART_PEERS, b1, rest1, acc0, i);
    } else {
        lemma_step_peers_prefix(v.peers, rest1, acc0, i);
        let acc1 = NodeInfoV {
            peers: Seq::new(v.peers.len(), |k: int| norm_peer(v.peers[k])),
            ..acc0
        };
        let i1 = i - la;
        assert(0 <= i1 < rest1.len());
        let lb = 3 + b2.len() as int;
        if i1 < lb {
            lemma_prefix_in_part(PART_CLAIMS, b2, rest2, acc1, i1);
        } else {
            lemma_step_claims_prefix(v.claims, rest2, acc1, i1);
            let acc2 = NodeInfoV { claims: v.claims, ..acc1 };
            let i2 = i1 - lb;
            assert(0 <= i2 < rest2.len());
            match v.peer_timeout {
                None => {
                    assert(i2 == 0);
                    assert(rest2.take(0) =~= Seq::<u8>::empty());
                },
                Some(t3) => {
                    let endp = seq![PART_END];
                    assert(rest2 =~= part_bytes(PART_PEER_TIMEOUT, be16_bytes(t3)) + endp);
                    if i2 < 5 {
                        lemma_prefix_in_part(PART_PEER_TIMEOUT, be16_bytes(t3), endp, acc2, i2);
                    } else {
                        lemma_step_timeout_prefix(t3, endp, acc2, i2);
                        assert(i2 - 5 == 0);
                        assert(endp.take(0) =~= Seq::<u8>::empty());
                    }
                },
            }
        }
    }
}

/// The view of an actual `NodeInfo` whose range bases satisfy the address
/// invariant is a well-formed message model, so the encode and decode laws
/// apply to every value `encode` accepts.
pub proof fn lemma_view_wf(n: NodeInfo)
    requires
        n.claims_wf(),
    ensures
        msg_wf(n@),
{
    assert forall|i: int| 0 <= i < n@.peers.len() implies peer_wf(#[trigger] n@.peers[i]) by {
        let p = n.peers@[i];
        assert(n@.peers[i] == p@);
        assert forall|j: int| 0 <= j < p@.addrs.len() implies sav_wf(#[trigger] p@.addrs[j]) by {
            assert(p@.addrs[j] == p.addrs@[j]@);
        }
    }
    assert forall|i: int| 0 <= i < n@.claims.len() implies range_wf(#[trigger] n@.claims[i]) by {
        assert(n@.claims[i] == n.claims@[i]@);
        assert(n.claims@[i].base.wf());
    }
}

/// Forward compatibility: a part with an unrecognized tag and arbitrary
/// body bytes is skipped, leaving the decoded message exactly as if the
/// part were absent.
pub proof fn lemma_unknown_part_skipped(tag: u8, body: Seq<u8>, rest: Seq<u8>, acc: NodeInfoV)
    requires
        tag != PART_END,
        tag != PART_PEERS,
        tag != PART_CLAIMS,
        tag != PART_PEER_TIMEOUT,
        body.len() <= 0xFFFF,
    ensures
        spec_parts(part_bytes(tag, body) + rest, acc) == spec_parts(rest, acc),
{
    lemma_part_shape(tag, body, rest);
}

} // verus!
