use vstd::prelude::*;

verus! {

use crate::block::Family;
use crate::block::IpBlock;

/// The canonical text of a block: what cidr's `Display` implementation
/// renders for the corresponding network.
pub uninterp spec fn block_text(b: IpBlock) -> Seq<char>;

/// What cidr's parser makes of a string: the block it denotes, if any.
pub uninterp spec fn parsed_block(s: Seq<char>) -> Option<IpBlock>;

/// Relies on `cidr::IpCidr`'s `Display`: the text depends on the family,
/// address and prefix length alone (`<address>/<length>`, or the bare
/// address for a full-length prefix); and on `cidr::IpCidr`'s `FromStr`,
/// which accepts both forms and parses the text back to the same network.
#[verifier::external_body]
pub(crate) fn block_to_string(b: &IpBlock) -> (r: String)
    requires
        b.wf(),
    ensures
        r@ == block_text(*b),
        parsed_block(r@) == Some(*b),
{
    let c = match b.family {
        Family::V4 => cidr::IpCidr::V4(
            cidr::Ipv4Cidr::new(core::net::Ipv4Addr::from(b.addr as u32), b.prefix).unwrap(),
        ),
        Family::V6 => cidr::IpCidr::V6(
            cidr::Ipv6Cidr::new(core::net::Ipv6Addr::from(b.addr), b.prefix).unwrap(),
        ),
    };
    format!("{}", c)
}

/// Relies on `cidr::IpCidr`'s `FromStr`: whether a string denotes a
/// network, and which, depends on the string alone.  The parser rejects a
/// prefix length over the address length and an address with a nonzero
/// host part, so a parsed block is well-formed.
#[verifier::external_body]
pub(crate) fn parse_block(s: &str) -> (r: Option<IpBlock>)
    ensures
        r == parsed_block(s@),
        r matches Some(b) ==> b.wf(),
{
    match s.parse::<cidr::IpCidr>() {
        Ok(cidr::IpCidr::V4(c)) => {
            let addr = u32::from(c.first_address()) as u128;
            Some(IpBlock { family: Family::V4, addr, prefix: c.network_length() })
        },
        Ok(cidr::IpCidr::V6(c)) => {
            let addr = u128::from(c.first_address());
            Some(IpBlock { family: Family::V6, addr, prefix: c.network_length() })
        },
        Err(_) => None,
    }
}

} // verus!
