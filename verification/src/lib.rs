//! Address-space utility: uniform random IPv4/IPv6 addresses drawn from CIDR
//! blocks, and conversions between the textual notations of an address
//! (dotted-decimal, hexadecimal, octal, decimal, binary, IPv4-mapped IPv6).

pub mod digits;
pub mod strutil;
pub mod codec;
mod rng;
pub mod ipv4;
pub mod ipv6;

pub use codec::ConvError;
pub use codec::convert_dotted_decimals_to_binary;
pub use codec::convert_hexadecimals_to_binary;
pub use codec::convert_decimals_to_binary;
pub use codec::convert_octals_to_binary;
pub use codec::convert_ip_binary_to_hexadecimals;
pub use codec::convert_ip_binary_to_decimals;
pub use codec::convert_ip_binary_to_octals;
pub use codec::convert_ip_binary_to_dotted_decimals;
pub use codec::convert_ip_binary_to_ipv6;
pub use ipv4::generate_ipv4;
pub use ipv4::generate_ipv4_in_cidr;
pub use ipv6::generate_ipv6;
pub use ipv6::generate_ipv6_address;
