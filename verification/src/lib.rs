//! Decision core of a rule-based forwarding proxy: routing rules and the
//! fake-DNS address allocator.

pub mod cidr_block;
pub mod config;
pub mod dns;
pub mod domain_rule;
pub mod fake_dns;
pub mod matcher;
pub mod net;
pub mod port_range;
pub mod router;
pub mod rules;
pub mod text;
pub mod trie;
