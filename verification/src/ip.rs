//! IP addresses, and the parts of the IP and UDP headers that the socket
//! reads and fills in.

use vstd::prelude::*;

verus! {

/// Octets of a UDP header.
pub const UDP_HEADER_LEN: usize = 8;

/// The number that a string of bytes spells, most significant byte first.
pub open spec fn big_endian(bytes: Seq<u8>) -> nat
    decreases bytes.len(),
{
    if bytes.len() == 0 {
        0
    } else {
        big_endian(bytes.drop_last()) * 256 + bytes.last() as nat
    }
}

/// The number of strings of `n` bytes.
pub open spec fn pow256(n: nat) -> nat
    decreases n,
{
    if n == 0 {
        1
    } else {
        256 * pow256((n - 1) as nat)
    }
}

proof fn lemma_pow256_grows(m: nat, n: nat)
    requires
        m <= n,
    ensures
        pow256(m) <= pow256(n),
    decreases n,
{
    if m < n {
        lemma_pow256_grows(m, (n - 1) as nat);
    }
}

proof fn lemma_big_endian_bound(bytes: Seq<u8>)
    ensures
        big_endian(bytes) < pow256(bytes.len()),
    decreases bytes.len(),
{
    if bytes.len() > 0 {
        lemma_big_endian_bound(bytes.drop_last());
    }
}

/// Reads a 32-bit number from its four bytes, most significant byte first.
pub fn read_u32(bytes: &[u8]) -> (value: u32)
    requires
        bytes@.len() == 4,
    ensures
        value == big_endian(bytes@),
{
    proof {
        reveal_with_fuel(big_endian, 5);
        assert(bytes@.drop_last().drop_last().drop_last().drop_last() =~= Seq::<u8>::empty());
    }
    bytes[0] as u32 * 0x100_0000 + bytes[1] as u32 * 0x1_0000 + bytes[2] as u32 * 0x100
        + bytes[3] as u32
}

/// An IPv4 address; the first octet is the most significant byte of `bits`.
#[derive(Debug, Clone, Copy, PartialEq, Eq, Structural)]
pub struct Ipv4Address {
    pub bits: u32,
}

/// An IPv6 address; the first octet is the most significant byte of `bits`.
#[derive(Debug, Clone, Copy, PartialEq, Eq, Structural)]
pub struct Ipv6Address {
    pub bits: u128,
}

/// An address of either version.
#[derive(Debug, Clone, Copy, PartialEq, Eq, Structural)]
pub enum IpAddress {
    Ipv4(Ipv4Address),
    Ipv6(Ipv6Address),
}

impl Ipv4Address {
    /// The address `a.b.c.d`.
    pub fn new(a: u8, b: u8, c: u8, d: u8) -> (address: Ipv4Address)
        ensures
            address.bits == a * 0x100_0000 + b * 0x1_0000 + c * 0x100 + d,
    {
        Ipv4Address {
            bits: a as u32 * 0x100_0000 + b as u32 * 0x1_0000 + c as u32 * 0x100 + d as u32,
        }
    }

    /// Reads an address from its four octets.
    pub fn from_bytes(bytes: &[u8]) -> (address: Ipv4Address)
        requires
            bytes@.len() == 4,
        ensures
            address.bits == big_endian(bytes@),
    {
        Ipv4Address { bits: read_u32(bytes) }
    }
}

impl Ipv6Address {
    /// The address `a:b:c:d:e:f:g:h`.
    pub fn new(a: u16, b: u16, c: u16, d: u16, e: u16, f: u16, g: u16, h: u16) -> (address:
        Ipv6Address)
        ensures
            address.bits == ((((((a * 0x1_0000 + b) * 0x1_0000 + c) * 0x1_0000 + d) * 0x1_0000 + e)
                * 0x1_0000 + f) * 0x1_0000 + g) * 0x1_0000 + h,
    {
        let high: u64 = ((a as u64 * 0x1_0000 + b as u64) * 0x1_0000 + c as u64) * 0x1_0000
            + d as u64;
        let low: u64 = ((e as u64 * 0x1_0000 + f as u64) * 0x1_0000 + g as u64) * 0x1_0000
            + h as u64;
        Ipv6Address { bits: high as u128 * 0x1_0000_0000_0000_0000 + low as u128 }
    }

    /// Reads an address from its sixteen octets.
    pub fn from_bytes(bytes: &[u8]) -> (address: Ipv6Address)
        requires
            bytes@.len() == 16,
        ensures
            address.bits == big_endian(bytes@),
    {
        let mut bits: u128 = 0;
        let mut i: usize = 0;
        while i < 16
            invariant
                i <= 16,
                bytes@.len() == 16,
                bits == big_endian(bytes@.take(i as int)),
            decreases 16 - i,
        {
            assert(bits * 256 + bytes@[i as int] < 0x100 * pow256(15)) by {
                lemma_big_endian_bound(bytes@.take(i as int));
                lemma_pow256_grows(i as nat, 15);
            }
            assert(pow256(15) == 0x100_0000_0000_0000_0000_0000_0000_0000) by {
                reveal_with_fuel(pow256, 16);
            }
            assert(bytes@.take(i + 1).drop_last() =~= bytes@.take(i as int));
            bits = bits * 256 + bytes[i] as u128;
            i = i + 1;
        }
        assert(bytes@.take(16) =~= bytes@);
        Ipv6Address { bits }
    }
}

impl IpAddress {
    /// The address that stands for no address: all bits are zero.
    pub open spec fn spec_is_unspecified(self) -> bool {
        match self {
            IpAddress::Ipv4(address) => address.bits == 0,
            IpAddress::Ipv6(address) => address.bits == 0,
        }
    }

    /// Whether this is `0.0.0.0` or `::`.
    #[verifier::when_used_as_spec(spec_is_unspecified)]
    pub fn is_unspecified(self) -> (r: bool)
        ensures
            r == self.is_unspecified(),
    {
        match self {
            IpAddress::Ipv4(address) => address.bits == 0,
            IpAddress::Ipv6(address) => address.bits == 0,
        }
    }
}

impl From<Ipv4Address> for IpAddress {
    fn from(address: Ipv4Address) -> (r: IpAddress) {
        IpAddress::Ipv4(address)
    }
}

impl vstd::std_specs::convert::FromSpecImpl<Ipv4Address> for IpAddress {
    open spec fn obeys_from_spec() -> bool {
        true
    }

    open spec fn from_spec(address: Ipv4Address) -> IpAddress {
        IpAddress::Ipv4(address)
    }
}

impl From<Ipv6Address> for IpAddress {
    fn from(address: Ipv6Address) -> (r: IpAddress) {
        IpAddress::Ipv6(address)
    }
}

impl vstd::std_specs::convert::FromSpecImpl<Ipv6Address> for IpAddress {
    open spec fn obeys_from_spec() -> bool {
        true
    }

    open spec fn from_spec(address: Ipv6Address) -> IpAddress {
        IpAddress::Ipv6(address)
    }
}

/// The protocol that an IP packet carries.
#[derive(Debug, Clone, Copy, PartialEq, Eq, Structural)]
pub enum IpProtocol {
    Udp,
    Unknown(u8),
}

/// What the socket knows of an IP header.
#[derive(Debug, Clone, Copy, PartialEq, Eq, Structural)]
pub struct IpRepr {
    pub src_addr: IpAddress,
    pub dst_addr: IpAddress,
    pub next_header: IpProtocol,
    /// Octets after the IP header.
    pub payload_len: usize,
    /// The time-to-live (IPv4) or hop limit (IPv6) value.
    pub hop_limit: u8,
}

impl IpRepr {
    /// A header with the given fields.
    pub fn new(
        src_addr: IpAddress,
        dst_addr: IpAddress,
        next_header: IpProtocol,
        payload_len: usize,
        hop_limit: u8,
    ) -> (repr: IpRepr)
        ensures
            repr == (IpRepr { src_addr, dst_addr, next_header, payload_len, hop_limit }),
    {
        IpRepr { src_addr, dst_addr, next_header, payload_len, hop_limit }
    }
}

/// What the socket knows of a UDP header.
#[derive(Debug, Clone, Copy, PartialEq, Eq, Structural)]
pub struct UdpRepr {
    pub src_port: u16,
    pub dst_port: u16,
}

impl UdpRepr {
    /// Octets that the header takes.
    pub fn header_len(&self) -> (len: usize)
        ensures
            len == UDP_HEADER_LEN,
    {
        UDP_HEADER_LEN
    }
}

} // verus!
