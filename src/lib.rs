//! Splits inclusive IPv4 address ranges into ordered lists of CIDR blocks
//! that cover each range exactly, each block as large as its start address
//! and the rest of the range allow.
pub mod prefix;
pub mod range;
pub mod text;

pub use prefix::{integer_log_2, integer_pow_2, max_aligned_prefix, min_prefix_for_span};
pub use range::{decompose, CidrBlock};
pub use text::{format_block, int_to_ipv4, ip_range_to_cidr};
