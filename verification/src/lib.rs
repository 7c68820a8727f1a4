//! Server-side core of a DHCPv6 prefix-delegation service.
//!
//! Three pieces make up the library: a prefix pool that hands out
//! successive IPv6 prefixes derived from a base address, a decoder that
//! walks the option stream of an inbound message looking for the
//! client-identifier option, and an encoder that serializes the reply
//! carrying the delegated prefix.

pub mod addr;
pub mod codec;
pub mod hexfmt;
pub mod pool;

pub use addr::Ipv6Address;
pub use codec::construct_dhcp_reply;
pub use codec::parse_dhcp_message;
pub use pool::Dhcpv6Client;
pub use pool::Dhcpv6Server;
pub use pool::Ipv6Prefix;
