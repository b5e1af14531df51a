//! Detection of IPv4 address ranges claimed by two or more owners.
pub mod bit_trie;
pub mod cidr;
pub mod collider;
pub mod layered_bit_trie;
pub mod marks;
pub mod overlap;
pub mod range_tree;
