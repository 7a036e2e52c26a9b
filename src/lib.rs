//! Sets of IP address ranges held as CIDR blocks in a compacted prefix trie.
pub mod cidr;
pub mod calc;
