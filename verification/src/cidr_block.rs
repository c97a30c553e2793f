//! Address blocks in CIDR notation.

use cidr::errors::NetworkParseError;
use cidr::IpCidr;
use vstd::prelude::*;
use crate::net::IpAddr;

verus! {

/// An address block: the addresses that share the first `prefix` bits of
/// `network`.
#[derive(Clone, Copy, Debug, PartialEq, Eq, Structural)]
pub enum CidrBlock {
    V4 { network: u32, prefix: u8 },
    V6 { network: u128, prefix: u8 },
}

impl CidrBlock {
    /// The prefix is no longer than an address of the family.
    pub open spec fn wf(&self) -> bool {
        match self {
            CidrBlock::V4 { prefix, .. } => *prefix <= 32,
            CidrBlock::V6 { prefix, .. } => *prefix <= 128,
        }
    }

    /// Whether `ip` is of the block's family and agrees with the network
    /// address in the first `prefix` bits.
    pub open spec fn holds(&self, ip: IpAddr) -> bool {
        match (self, ip) {
            (CidrBlock::V4 { network, prefix }, IpAddr::V4(a)) => *prefix == 0 || (a.value() as u32) >> (
            32 - *prefix) as u32 == *network >> (32 - *prefix) as u32,
            (CidrBlock::V6 { network, prefix }, IpAddr::V6(a)) => *prefix == 0 || a.bits >> (128
                - *prefix) as u128 == *network >> (128 - *prefix) as u128,
            _ => false,
        }
    }

    /// Whether the block contains `ip`.
    pub fn contains(&self, ip: &IpAddr) -> (r: bool)
        requires
            self.wf(),
        ensures
            r == self.holds(*ip),
    {
        match (self, ip) {
            (CidrBlock::V4 { network, prefix }, IpAddr::V4(a)) => {
                if *prefix == 0 {
                    true
                } else {
                    let shift: u32 = 32 - *prefix as u32;
                    crate::net::ip_to_u32(a) >> shift == *network >> shift
                }
            },
            (CidrBlock::V6 { network, prefix }, IpAddr::V6(a)) => {
                if *prefix == 0 {
                    true
                } else {
                    let shift: u128 = 128 - *prefix as u128;
                    a.bits >> shift == *network >> shift
                }
            },
            _ => false,
        }
    }
}

/// The error of the `cidr` crate's parser.
#[verifier::external_type_specification]
#[verifier::external_body]
pub struct ExNetworkParseError(cidr::errors::NetworkParseError);

/// The block that a text in CIDR notation denotes: nothing where the text
/// is none.
pub uninterp spec fn parsed_cidr(text: Seq<char>) -> Option<CidrBlock>;

/// Parses a block with the `cidr` crate's `FromStr` for `IpCidr` and hands
/// out its first address, as a number, and its network length. Trusted:
/// the call succeeds exactly where `parsed_cidr` names a block for the
/// text, the result is that block, and its length is within the family's.
#[verifier::external_body]
pub(crate) fn parse_cidr(text: &str) -> (r: Result<CidrBlock, NetworkParseError>)
    ensures
        match r {
            Ok(block) => parsed_cidr(text@) == Some(block) && block.wf(),
            Err(_) => parsed_cidr(text@) is None,
        },
{
    Ok(match text.parse::<IpCidr>()? {
        IpCidr::V4(c) => CidrBlock::V4 { network: c.first_address().into(), prefix: c.network_length() },
        IpCidr::V6(c) => CidrBlock::V6 { network: c.first_address().into(), prefix: c.network_length() },
    })
}

} // verus!
