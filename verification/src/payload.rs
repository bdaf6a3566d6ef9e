//! Payload dissection: extracting source and destination addresses from raw
//! tunneled bytes, by an Ethernet-frame strategy or an IP-packet strategy.

use crate::types::{addr_is, Address, Error};
use vstd::prelude::*;
use vstd::slice::slice_subrange;

verus! {

/// A dissection strategy: given raw tunneled bytes, extract the source and
/// destination addresses or fail on truncated or malformed input.
pub trait Protocol: Sized {
    fn parse(data: &[u8]) -> (r: Result<(Address, Address), Error>)
        ensures
            r matches Ok(p) ==> p.0.wf() && p.1.wf(),
    ;
}

/// Holds when the bytes after the two MAC addresses carry the VLAN-tag
/// marker 0x8100.
pub open spec fn has_vlan(d: Seq<u8>) -> bool {
    d.len() >= 14 && d[12] == 0x81 && d[13] == 0x00
}

/// An ethernet frame dissector
///
/// This dissector is able to extract the source and destination addresses of ethernet frames.
///
/// If the ethernet frame contains a VLAN tag, both addresses will be prefixed with that tag,
/// resulting in 8-byte addresses. Additional nested tags will be ignored.
pub struct Frame;

impl Frame {
    /// Parses an ethernet frame and extracts the source and destination addresses
    ///
    /// Destination comes first on the wire (6 bytes), then source (6 bytes).
    /// With a VLAN marker, the 2 tag payload bytes are prepended identically
    /// to both addresses, which become 8 bytes long; without one, both stay
    /// 6-byte MAC addresses. Fails when fewer than 14 bytes are given, or
    /// fewer than 16 when the marker is present.
    pub fn parse(data: &[u8]) -> (r: Result<(Address, Address), Error>)
        ensures
            data@.len() < 14 ==> (r matches Err(e) && e matches Error::TooShort(_)),
            data@.len() >= 14 && has_vlan(data@) && data@.len() < 16 ==> (r matches Err(e)
                && e matches Error::TooShort(_)),
            data@.len() >= 14 && !has_vlan(data@) ==> (r matches Ok(p)
                && addr_is(p.0, data@.subrange(6, 12)) && addr_is(p.1, data@.subrange(0, 6))),
            data@.len() >= 16 && has_vlan(data@) ==> (r matches Ok(p)
                && addr_is(p.0, data@.subrange(14, 16) + data@.subrange(6, 12))
                && addr_is(p.1, data@.subrange(14, 16) + data@.subrange(0, 6))),
    {
        if data.len() < 14 {
            return Err(Error::TooShort("Frame is too short"));
        }
        if data[12] == 0x81 && data[13] == 0x00 {
            if data.len() < 16 {
                return Err(Error::TooShort("Vlan frame is too short"));
            }
            let mut src: [u8; 16] = [0; 16];
            let mut dst: [u8; 16] = [0; 16];
            src[0] = data[14];
            src[1] = data[15];
            dst[0] = data[14];
            dst[1] = data[15];
            let mut k: usize = 0;
            while k < 6
                invariant
                    k <= 6,
                    data@.len() >= 16,
                    src@[0] == data@[14] && src@[1] == data@[15],
                    dst@[0] == data@[14] && dst@[1] == data@[15],
                    forall|i: int| 0 <= i < k ==> #[trigger] src@[2 + i] == data@[6 + i],
                    forall|i: int| 0 <= i < k ==> #[trigger] dst@[2 + i] == data@[i],
                    forall|i: int| 2 + k <= i < 16 ==> #[trigger] src@[i] == 0,
                    forall|i: int| 2 + k <= i < 16 ==> #[trigger] dst@[i] == 0,
                decreases 6 - k,
            {
                src[2 + k] = data[6 + k];
                dst[2 + k] = data[k];
                k += 1;
            }
            proof {
                let b0 = data@.subrange(14, 16) + data@.subrange(6, 12);
                let b1 = data@.subrange(14, 16) + data@.subrange(0, 6);
                assert forall|i: int| 0 <= i < 8 implies src@[i] == b0[i] by {
                    if i >= 2 {
                        assert(src@[2 + (i - 2)] == data@[6 + (i - 2)]);
                    }
                }
                assert forall|i: int| 0 <= i < 8 implies dst@[i] == b1[i] by {
                    if i >= 2 {
                        assert(dst@[2 + (i - 2)] == data@[i - 2]);
                    }
                }
            }
            Ok((Address { data: src, len: 8 }, Address { data: dst, len: 8 }))
        } else {
            let src = match Address::read_from_fixed(slice_subrange(data, 6, 12), 6) {
                Ok(a) => a,
                Err(e) => {
                    return Err(e);
                },
            };
            let dst = match Address::read_from_fixed(slice_subrange(data, 0, 6), 6) {
                Ok(a) => a,
                Err(e) => {
                    return Err(e);
                },
            };
            proof {
                assert(data@.subrange(6, 12).take(6) == data@.subrange(6, 12));
                assert(data@.subrange(0, 6).take(6) == data@.subrange(0, 6));
            }
            Ok((src, dst))
        }
    }
}

impl Protocol for Frame {
    fn parse(data: &[u8]) -> (r: Result<(Address, Address), Error>) {
        let r = Frame::parse(data);
        proof {
            if let Ok(p) = r {
                crate::types::lemma_addr_is_wf(
                    p.0,
                    if has_vlan(data@) {
                        data@.subrange(14, 16) + data@.subrange(6, 12)
                    } else {
                        data@.subrange(6, 12)
                    },
                );
                crate::types::lemma_addr_is_wf(
                    p.1,
                    if has_vlan(data@) {
                        data@.subrange(14, 16) + data@.subrange(0, 6)
                    } else {
                        data@.subrange(0, 6)
                    },
                );
            }
        }
        r
    }
}

/// An IP packet dissector
///
/// This dissector is able to extract the source and destination ip addresses of ipv4 packets and
/// ipv6 packets.
pub struct Packet;

impl Packet {
    /// Parses an ip packet and extracts the source and destination addresses
    ///
    /// The version nibble selects the layout: version 4 needs at least 20
    /// bytes, with the source at offset 12 and the destination at offset 16
    /// (4 bytes each); version 6 needs at least 40 bytes, with the source at
    /// offset 8 and the destination at offset 24 (16 bytes each). Empty
    /// input or any other version fails as malformed.
    pub fn parse(data: &[u8]) -> (r: Result<(Address, Address), Error>)
        ensures
            data@.len() == 0 ==> (r matches Err(e) && e matches Error::Malformed(_)),
            data@.len() >= 1 && data@[0] / 16 == 4 && data@.len() < 20 ==> (r matches Err(e)
                && e matches Error::TooShort(_)),
            data@.len() >= 20 && data@[0] / 16 == 4 ==> (r matches Ok(p)
                && addr_is(p.0, data@.subrange(12, 16)) && addr_is(p.1, data@.subrange(16, 20))),
            data@.len() >= 1 && data@[0] / 16 == 6 && data@.len() < 40 ==> (r matches Err(e)
                && e matches Error::TooShort(_)),
            data@.len() >= 40 && data@[0] / 16 == 6 ==> (r matches Ok(p)
                && addr_is(p.0, data@.subrange(8, 24)) && addr_is(p.1, data@.subrange(24, 40))),
            data@.len() >= 1 && data@[0] / 16 != 4 && data@[0] / 16 != 6 ==> (r matches Err(e)
                && e matches Error::Malformed(_)),
    {
        if data.len() == 0 {
            return Err(Error::Malformed("Empty header"));
        }
        let version = data[0] / 16;
        if version == 4 {
            if data.len() < 20 {
                return Err(Error::TooShort("Truncated IPv4 header"));
            }
            let src = match Address::read_from_fixed(slice_subrange(data, 12, 16), 4) {
                Ok(a) => a,
                Err(e) => {
                    return Err(e);
                },
            };
            let dst = match Address::read_from_fixed(slice_subrange(data, 16, 20), 4) {
                Ok(a) => a,
                Err(e) => {
                    return Err(e);
                },
            };
            proof {
                assert(data@.subrange(12, 16).take(4) == data@.subrange(12, 16));
                assert(data@.subrange(16, 20).take(4) == data@.subrange(16, 20));
            }
            Ok((src, dst))
        } else if version == 6 {
            if data.len() < 40 {
                return Err(Error::TooShort("Truncated IPv6 header"));
            }
            let src = match Address::read_from_fixed(slice_subrange(data, 8, 24), 16) {
                Ok(a) => a,
                Err(e) => {
                    return Err(e);
                },
            };
            let dst = match Address::read_from_fixed(slice_subrange(data, 24, 40), 16) {
                Ok(a) => a,
                Err(e) => {
                    return Err(e);
                },
            };
            proof {
                assert(data@.subrange(8, 24).take(16) == data@.subrange(8, 24));
                assert(data@.subrange(24, 40).take(16) == data@.subrange(24, 40));
            }
            Ok((src, dst))
        } else {
            Err(Error::Malformed("Invalid IP protocol version"))
        }
    }
}

impl Protocol for Packet {
    fn parse(data: &[u8]) -> (r: Result<(Address, Address), Error>) {
        let r = Packet::parse(data);
        proof {
            if let Ok(p) = r {
                let d = data@;
                if d.len() >= 20 && d[0] / 16 == 4 {
                    crate::types::lemma_addr_is_wf(p.0, d.subrange(12, 16));
                    crate::types::lemma_addr_is_wf(p.1, d.subrange(16, 20));
                } else {
                    crate::types::lemma_addr_is_wf(p.0, d.subrange(8, 24));
                    crate::types::lemma_addr_is_wf(p.1, d.subrange(24, 40));
                }
            }
        }
        r
    }
}

} // verus!
