//! The routing configuration as the router reads it.

use vstd::prelude::*;

verus! {

/// How a domain entry is compared with a destination domain.
#[derive(Clone, Copy, Debug, PartialEq, Eq, Structural)]
pub enum DomainType {
    /// The destination contains the value.
    Keyword,
    /// The destination is the value or a subdomain of it.
    Suffix,
    /// The destination is the value.
    Full,
}

/// One domain entry of a rule.
#[derive(Clone, Debug, PartialEq, Eq)]
pub struct DomainEntry {
    pub type_: DomainType,
    pub value: String,
}

/// One GeoIP entry of a rule.
#[derive(Clone, Debug, PartialEq, Eq)]
pub struct MmdbEntry {
    /// File name of the database.
    pub file: String,
    /// ISO code of the country to match.
    pub country_code: String,
}

/// One rule as configured: a target and the conditions, by category, that
/// a connection has to meet.
#[derive(Clone, Debug, PartialEq, Eq)]
pub struct RuleConfig {
    pub target_tag: String,
    pub domains: Vec<DomainEntry>,
    pub ip_cidrs: Vec<String>,
    pub mmdbs: Vec<MmdbEntry>,
    pub port_ranges: Vec<String>,
    pub networks: Vec<String>,
    pub inbound_tags: Vec<String>,
}

/// The router's configuration.
#[derive(Clone, Debug, PartialEq, Eq)]
pub struct RouterConfig {
    /// The rules, in the order they are tried.
    pub rules: Vec<RuleConfig>,
    /// Whether a domain that no rule matches is resolved and tried again
    /// by its address.
    pub domain_resolve: bool,
}

/// Value of the keyword entry that, first in a rule's domain list, stands
/// for the built-in domain classifier.
pub open spec fn smart_rule_marker() -> Seq<char> {
    "_SMART_RULE_"@
}

/// The texts of a list of strings.
pub open spec fn texts(list: Seq<String>) -> Seq<Seq<char>> {
    list.map_values(|s: String| s@)
}

} // verus!
