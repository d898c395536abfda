//! Addresses, CIDR blocks and host names as the record logic reads them:
//! an IP address is a family flag and its bits, a CIDR block is a family,
//! network bits and a prefix length, and containment is a prefix match on
//! the bits. Parsing the textual forms is delegated to outside parsers
//! behind trusted wrappers; everything downstream of the parsed values is
//! verified.

use vstd::prelude::*;
use core::str::FromStr;

verus! {

/// The family flag and address bits that the textual form `s` denotes:
/// `(v6, bits)` with an IPv4 address in the low 32 bits, or nothing when
/// `s` is not a valid IP address. IP parsing depends on its input alone.
pub uninterp spec fn ip_bits_of(s: Seq<char>) -> Option<(bool, u128)>;

/// Relies on `core::net::IpAddr::from_str` to parse the address, and on
/// the `u32::from` / `u128::from` address conversions for the bits.
#[verifier::external_body]
pub fn parse_ip(s: &str) -> (r: Option<(bool, u128)>)
    ensures
        r == ip_bits_of(s@),
        match r {
            Some(p) => !p.0 ==> p.1 <= 0xFFFF_FFFFu128,
            None => true,
        },
{
    match core::net::IpAddr::from_str(s) {
        Ok(core::net::IpAddr::V4(a)) => Some((false, u32::from(a) as u128)),
        Ok(core::net::IpAddr::V6(a)) => Some((true, u128::from(a))),
        Err(_) => None,
    }
}

/// The family, network bits and prefix length that the textual CIDR form
/// `s` denotes, or nothing when `s` is not a valid CIDR (an address alone
/// denotes a host network of full length; host bits must be zero). CIDR
/// parsing depends on its input alone.
pub uninterp spec fn cidr_of(s: Seq<char>) -> Option<(bool, u128, u8)>;

/// Relies on `cidr::IpCidr::from_str` to parse the block, and on its
/// `is_ipv4`, `first_address` and `network_length` accessors for the
/// parts; `network_length` never exceeds the family's address length.
#[verifier::external_body]
pub fn parse_cidr(s: &str) -> (r: Option<(bool, u128, u8)>)
    ensures
        r == cidr_of(s@),
        match r {
            Some(t) => t.2 <= (if t.0 {
                128u8
            } else {
                32u8
            }) && (!t.0 ==> t.1 <= 0xFFFF_FFFFu128),
            None => true,
        },
{
    match cidr::IpCidr::from_str(s) {
        Ok(c) => {
            let bits = match c.first_address() {
                core::net::IpAddr::V4(a) => u32::from(a) as u128,
                core::net::IpAddr::V6(a) => u128::from(a),
            };
            Some((!c.is_ipv4(), bits, c.network_length()))
        },
        Err(_) => None,
    }
}

/// The normalized text of the host name that `s` denotes (domains are
/// lower-cased and IDNA-encoded, IPv6 addresses bracketed), or nothing
/// when `s` is not a valid host. Host parsing depends on its input alone.
pub uninterp spec fn host_of(s: Seq<char>) -> Option<Seq<char>>;

/// Relies on `url::Host::parse` to validate and normalize the name, and
/// on the display conversion for its text.
#[verifier::external_body]
pub fn parse_host(s: &str) -> (r: Option<String>)
    ensures
        match r {
            Some(h) => host_of(s@) == Option::Some(h@),
            None => host_of(s@) is None,
        },
{
    match url::Host::parse(s) {
        Ok(h) => Some(h.to_string()),
        Err(_) => None,
    }
}

/// The mask selecting the `len` high bits of an address of the given
/// family (IPv4 addresses live in the low 32 bits).
pub open spec fn prefix_mask_spec(v6: bool, len: u8) -> u128 {
    let ones: u128 = if v6 {
        u128::MAX
    } else {
        0xFFFF_FFFFu128
    };
    let w: u128 = if v6 {
        128
    } else {
        32
    };
    if len == 0 {
        0u128
    } else {
        (ones >> (w - len as u128)) << (w - len as u128)
    }
}

/// A CIDR block: an address family, the network's address bits and the
/// prefix length.
pub struct CidrBlock {
    pub v6: bool,
    pub bits: u128,
    pub len: u8,
}

impl CidrBlock {
    /// The prefix length fits the family and an IPv4 network fits in 32
    /// bits.
    pub open spec fn well_formed(&self) -> bool {
        &&& self.len <= (if self.v6 {
            128u8
        } else {
            32u8
        })
        &&& (!self.v6 ==> self.bits <= 0xFFFF_FFFFu128)
    }

    /// Containment, as the prefix-match specification: the families
    /// agree and the `len` high bits of the address equal those of the
    /// network.
    pub open spec fn contains_spec(&self, v6: bool, bits: u128) -> bool {
        &&& self.v6 == v6
        &&& bits & prefix_mask_spec(self.v6, self.len) == self.bits & prefix_mask_spec(
            self.v6,
            self.len,
        )
    }

    /// Parses a CIDR block from its textual form.
    pub fn parse(s: &str) -> (r: Option<CidrBlock>)
        ensures
            match r {
                Some(c) => cidr_of(s@) == Option::Some((c.v6, c.bits, c.len)) && c.well_formed(),
                None => cidr_of(s@) is None,
            },
    {
        match parse_cidr(s) {
            Some(t) => Some(CidrBlock { v6: t.0, bits: t.1, len: t.2 }),
            None => None,
        }
    }

    /// Whether the address `(v6, bits)` lies in this block.
    pub fn contains(&self, v6: bool, bits: u128) -> (r: bool)
        requires
            self.well_formed(),
        ensures
            r == self.contains_spec(v6, bits),
    {
        if self.v6 != v6 {
            return false;
        }
        let ones: u128 = if self.v6 {
            u128::MAX
        } else {
            0xFFFF_FFFFu128
        };
        let w: u32 = if self.v6 {
            128
        } else {
            32
        };
        let mask: u128 = if self.len == 0 {
            0
        } else {
            let sh: u32 = w - (self.len as u32);
            (ones >> sh) << sh
        };
        proof {
            assert(mask == prefix_mask_spec(self.v6, self.len));
        }
        bits & mask == self.bits & mask
    }
}

/// Whether the address `(v6, bits)` lies in some block of `cidrs`.
pub open spec fn any_contains_spec(cidrs: Seq<CidrBlock>, v6: bool, bits: u128) -> bool {
    exists|i: int| 0 <= i < cidrs.len() && (#[trigger] cidrs[i]).contains_spec(v6, bits)
}

/// All blocks of `cidrs` fit their families.
pub open spec fn all_well_formed(cidrs: Seq<CidrBlock>) -> bool {
    forall|i: int| 0 <= i < cidrs.len() ==> (#[trigger] cidrs[i]).well_formed()
}

/// Whether the address `(v6, bits)` lies in some block of `cidrs`.
pub fn any_contains(cidrs: &Vec<CidrBlock>, v6: bool, bits: u128) -> (r: bool)
    requires
        all_well_formed(cidrs@),
    ensures
        r == any_contains_spec(cidrs@, v6, bits),
{
    let n = cidrs.len();
    for i in 0..n
        invariant
            n == cidrs@.len(),
            all_well_formed(cidrs@),
            forall|k: int| 0 <= k < i ==> !(#[trigger] cidrs@[k]).contains_spec(v6, bits),
    {
        if cidrs[i].contains(v6, bits) {
            return true;
        }
    }
    false
}

} // verus!
