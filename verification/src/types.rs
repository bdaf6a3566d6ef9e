//! Shared value types: addresses, node identifiers, claimed ranges, and the
//! error surface used by the codec and the dissector.

use vstd::prelude::*;
use vstd::assert_seqs_equal;

verus! {

/// Number of bytes in a node identifier.
pub const NODE_ID_BYTES: usize = 16;

/// A fixed-length opaque byte string identifying a peer.
pub type NodeId = [u8; 16];

/// Parse and decode failures, split by the error taxonomy: not enough input
/// bytes for a fixed-size read, or structurally invalid input. Each variant
/// carries a short human-readable reason.
#[derive(Debug, Clone, Copy)]
pub enum Error {
    TooShort(&'static str),
    Malformed(&'static str),
}

/// Spec-level error classification used by the specification parsers.
#[derive(Debug, Clone, Copy, PartialEq, Eq, Structural)]
pub enum DecodeErr {
    TooShort,
    Malformed,
}

/// A hardware or network address of variable semantic length (4 bytes for
/// IPv4, 6 for MAC, 8 for a VLAN-tagged MAC, 16 for IPv6), stored in a
/// fixed-capacity buffer plus an explicit length. All bytes beyond the
/// declared length are zero, so equality over the full buffer coincides
/// with equality of the logical bytes.
#[derive(Debug, Clone, Copy, PartialEq, Eq)]
pub struct Address {
    pub data: [u8; 16],
    pub len: u8,
}

impl Address {
    /// The address invariant: the declared length fits the buffer and all
    /// padding bytes are zero.
    pub open spec fn wf(self) -> bool {
        &&& self.len <= 16
        &&& forall|i: int| self.len <= i < 16 ==> self.data@[i] == 0
    }

    /// The logical bytes of the address: the first `len` bytes of the buffer.
    pub open spec fn bytes(self) -> Seq<u8> {
        self.data@.take(self.len as int)
    }

    /// Reads an address of exactly `len` bytes from the start of `data`,
    /// zero-padding the remainder of the fixed buffer.
    pub fn read_from_fixed(data: &[u8], len: usize) -> (r: Result<Address, Error>)
        ensures
            len > 16 ==> (r matches Err(e) && e matches Error::Malformed(_)),
            len <= 16 && data@.len() < len ==> (r matches Err(e) && e matches Error::TooShort(_)),
            len <= 16 && data@.len() >= len ==> (r matches Ok(a) && addr_is(a, data@.take(len as int))),
    {
        if len > 16 {
            return Err(Error::Malformed("Invalid address, too long"));
        }
        if data.len() < len {
            return Err(Error::TooShort("Address too short"));
        }
        let mut bytes: [u8; 16] = [0; 16];
        let mut k: usize = 0;
        while k < len
            invariant
                k <= len <= 16,
                len <= data@.len(),
                forall|i: int| 0 <= i < k ==> bytes@[i] == data@[i],
                forall|i: int| k <= i < 16 ==> bytes@[i] == 0,
            decreases len - k,
        {
            bytes[k] = data[k];
            k += 1;
        }
        Ok(Address { data: bytes, len: len as u8 })
    }
}

/// Holds when address `a` has exactly the logical bytes `b` and zero padding.
pub open spec fn addr_is(a: Address, b: Seq<u8>) -> bool {
    &&& a.len as int == b.len()
    &&& b.len() <= 16
    &&& forall|i: int| 0 <= i < b.len() ==> a.data@[i] == b[i]
    &&& forall|i: int| b.len() <= i < 16 ==> a.data@[i] == 0
}

pub proof fn lemma_addr_is_wf(a: Address, b: Seq<u8>)
    requires
        addr_is(a, b),
    ensures
        a.wf(),
        a.bytes() == b,
{
    assert_seqs_equal!(a.bytes(), b);
}

/// Big-endian (network byte order) value of two bytes.
pub open spec fn be16(hi: u8, lo: u8) -> u16 {
    (hi * 256 + lo) as u16
}

/// Big-endian two-byte encoding of a 16-bit value.
pub open spec fn be16_bytes(x: u16) -> Seq<u8> {
    seq![(x / 256) as u8, (x % 256) as u8]
}

pub proof fn lemma_be16_round(x: u16)
    ensures
        be16(be16_bytes(x)[0], be16_bytes(x)[1]) == x,
{
}

/// Reads a big-endian 16-bit value at `pos`.
pub fn read_be16(data: &[u8], pos: usize) -> (r: u16)
    requires
        pos + 2 <= data@.len(),
    ensures
        r == be16(data@[pos as int], data@[pos as int + 1]),
{
    (data[pos] as u16) * 256 + (data[pos + 1] as u16)
}

/// Appends the big-endian encoding of `x`.
pub fn push_be16(out: &mut Vec<u8>, x: u16)
    ensures
        final(out)@ == old(out)@ + be16_bytes(x),
{
    let hi: u8 = (x / 256) as u8;
    let lo: u8 = (x % 256) as u8;
    out.push(hi);
    out.push(lo);
    proof {
        assert_seqs_equal!(out@, old(out)@ + be16_bytes(x));
    }
}

/// An address range a node claims to own, carried opaquely by the codec:
/// a base address plus a prefix length.
#[derive(Debug, Clone, Copy, PartialEq, Eq)]
pub struct Range {
    pub base: Address,
    pub prefix_len: u8,
}

/// Ordered sequence of claimed ranges.
pub type RangeList = Vec<Range>;

/// Mathematical model of a `Range`: the logical base bytes and the prefix
/// length.
#[verifier::ext_equal]
pub struct RangeV {
    pub base: Seq<u8>,
    pub prefix_len: u8,
}

impl View for Range {
    type V = RangeV;

    open spec fn view(&self) -> RangeV {
        RangeV { base: self.base.bytes(), prefix_len: self.prefix_len }
    }
}

pub open spec fn range_wf(r: RangeV) -> bool {
    r.base.len() <= 16
}

/// Self-delimiting wire encoding of one range record: a length byte, the
/// base address bytes, then the prefix length.
pub open spec fn range_bytes(r: RangeV) -> Seq<u8> {
    seq![r.base.len() as u8] + r.base + seq![r.prefix_len]
}

/// Specification of reading one range record from the front of `s`:
/// the record and the number of bytes it consumed, or the failure kind.
pub open spec fn spec_read_range(s: Seq<u8>) -> Result<(RangeV, int), DecodeErr> {
    if s.len() < 1 {
        Err(DecodeErr::TooShort)
    } else {
        let alen = s[0] as int;
        if alen > 16 {
            Err(DecodeErr::Malformed)
        } else if s.len() < alen + 2 {
            Err(DecodeErr::TooShort)
        } else {
            Ok((RangeV { base: s.subrange(1, 1 + alen), prefix_len: s[1 + alen] }, alen + 2))
        }
    }
}

impl Range {
    /// Reads one range record from `data` between `pos` and `end`,
    /// consuming exactly the bytes of the record.
    pub fn read_from(data: &[u8], pos: usize, end: usize) -> (r: Result<(Range, usize), Error>)
        requires
            pos <= end <= data@.len(),
        ensures
            ({
                match spec_read_range(data@.subrange(pos as int, end as int)) {
                    Ok((rv, n)) => {
                        &&& r matches Ok(p)
                        &&& p.0@ == rv
                        &&& p.0.base.wf()
                        &&& p.1 == pos + n
                    },
                    Err(DecodeErr::TooShort) => r matches Err(e) && e matches Error::TooShort(_),
                    Err(DecodeErr::Malformed) => r matches Err(e) && e matches Error::Malformed(_),
                }
            }),
    {
        let ghost s = data@.subrange(pos as int, end as int);
        if end == pos {
            return Err(Error::TooShort("Truncated range record"));
        }
        let alen = data[pos] as usize;
        if alen > 16 {
            return Err(Error::Malformed("Invalid address, too long"));
        }
        if end - pos < alen + 2 {
            return Err(Error::TooShort("Truncated range record"));
        }
        let mut bytes: [u8; 16] = [0; 16];
        let mut k: usize = 0;
        while k < alen
            invariant
                k <= alen <= 16,
                pos + alen + 2 <= end <= data@.len(),
                forall|i: int| 0 <= i < k ==> bytes@[i] == data@[pos + 1 + i],
                forall|i: int| k <= i < 16 ==> bytes@[i] == 0,
            decreases alen - k,
        {
            bytes[k] = data[pos + 1 + k];
            k += 1;
        }
        let prefix_len = data[pos + 1 + alen];
        let result = Range { base: Address { data: bytes, len: alen as u8 }, prefix_len };
        proof {
            let rv = spec_read_range(s)->Ok_0.0;
            assert_seqs_equal!(result@.base, rv.base);
            assert(result@ =~= rv);
        }
        Ok((result, pos + 2 + alen))
    }

    /// Appends the self-delimiting encoding of this range.
    pub fn write_to(&self, out: &mut Vec<u8>)
        requires
            self.base.wf(),
        ensures
            final(out)@ == old(out)@ + range_bytes(self@),
    {
        out.push(self.base.len);
        let n = self.base.len as usize;
        let mut k: usize = 0;
        while k < n
            invariant
                k <= n <= 16,
                n == self.base.len as int,
                out@ == old(out)@ + seq![self.base.len] + self.base.bytes().take(k as int),
            decreases n - k,
        {
            let b = self.base.data[k];
            out.push(b);
            proof {
                assert_seqs_equal!(out@, old(out)@ + seq![self.base.len] + self.base.bytes().take(k + 1));
            }
            k += 1;
        }
        out.push(self.prefix_len);
        proof {
            assert(self.base.bytes().take(n as int) == self.base.bytes());
            assert_seqs_equal!(out@, old(out)@ + range_bytes(self@));
        }
    }
}

} // verus!
