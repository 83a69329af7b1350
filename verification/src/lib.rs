//! An associative index keyed by IP address prefixes (CIDR blocks).
//!
//! [`prefix::Prefix`] is a fixed-width address value (32 or 128 bits) with
//! bit-level operations, [`cidr::Cidr`] pairs a prefix with a mask length,
//! and [`cidr_tree::CidrTree`] is a binary trie over address bits that
//! stores a value per inserted block and returns, for a queried address or
//! sub-prefix, every stored value whose block is a supernet of (or equal
//! to) the query.

pub mod cidr;
pub mod cidr_tree;
pub mod prefix;
pub mod text;
