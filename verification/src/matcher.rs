//! Conditions over a connection descriptor, their AND / OR composition,
//! and rules.

use std::sync::Arc;
use vstd::prelude::*;
use crate::cidr_block::{parse_cidr, parsed_cidr, CidrBlock};
use crate::config::{texts, DomainEntry, DomainType};
use crate::port_range::{parse_port_range, parsed_port_range};
use crate::domain_rule::{matched, DomainRule};
use crate::net::{Network, Session, SocksAddr};
use crate::text::{
    chars_of, collect, contains, has_substring, lemma_collect_step, lowercase, same_chars,
    to_lowercase, to_uppercase, uppercase,
};
use crate::trie::{label_path, TrieNode};

verus! {

/// Matches a destination port within `start ..= end`.
#[derive(Clone, Copy, Debug, PartialEq, Eq, Structural)]
pub struct PortRangeMatcher {
    pub start: u16,
    pub end: u16,
}

/// Matches a destination port within one of its ranges.
pub struct PortMatcher {
    pub condition: ConditionOr,
}

/// Matches a transport that is one of `values`.
pub struct NetworkMatcher {
    pub values: Vec<Network>,
}

/// Matches an inbound tag that is one of `values`.
pub struct InboundTagMatcher {
    pub values: Vec<String>,
}

/// Matches a destination address within one of its blocks.
pub struct IpCidrMatcher {
    pub values: Vec<CidrBlock>,
}

/// Matches a destination address that a GeoIP database places in a
/// country.
pub struct MmdbMatcher {
    /// File name of the database.
    pub database: String,
    /// ISO code of the country; case does not matter.
    pub country_code: String,
}

/// Matches a destination domain that is one of `full`, is covered by a
/// suffix of `suffix`, or contains one of `keywords`.
pub struct DomainMatcher {
    pub full: Vec<String>,
    pub suffix: TrieNode,
    pub keywords: Vec<String>,
}

/// Matches a destination domain that the built-in classifier matches.
pub struct SmartMatcher {
    pub rule: Arc<DomainRule>,
}

/// Matches where all of its conditions match.
pub struct ConditionAnd {
    pub conditions: Vec<Matcher>,
}

/// Matches where one of its conditions matches.
pub struct ConditionOr {
    pub conditions: Vec<Matcher>,
}

/// A condition, of any kind.
pub enum Matcher {
    Domain(DomainMatcher),
    Smart(SmartMatcher),
    IpCidr(IpCidrMatcher),
    Mmdb(MmdbMatcher),
    Port(PortMatcher),
    PortRange(PortRangeMatcher),
    Network(NetworkMatcher),
    InboundTag(InboundTagMatcher),
    And(ConditionAnd),
    Or(ConditionOr),
}

/// A condition with the route that connections meeting it take.
pub struct Rule {
    pub target: String,
    pub condition: Matcher,
}

impl PortRangeMatcher {
    pub open spec fn accepts(&self, sess: &Session) -> bool {
        self.start <= sess.destination.port() <= self.end
    }
}

impl NetworkMatcher {
    pub open spec fn accepts(&self, sess: &Session) -> bool {
        self.values@.contains(sess.network)
    }
}

impl InboundTagMatcher {
    pub open spec fn accepts(&self, sess: &Session) -> bool {
        exists|i: int| 0 <= i < self.values.len() && (#[trigger] self.values[i])@ == sess.inbound_tag@
    }
}

impl IpCidrMatcher {
    pub open spec fn wf(&self) -> bool {
        forall|i: int| 0 <= i < self.values.len() ==> (#[trigger] self.values[i]).wf()
    }

    pub open spec fn accepts(&self, sess: &Session) -> bool {
        sess.destination matches SocksAddr::Ip(ip, _) && exists|i: int|
            0 <= i < self.values.len() && (#[trigger] self.values[i]).holds(ip)
    }
}

impl MmdbMatcher {
    pub open spec fn accepts(&self, sess: &Session) -> bool {
        sess.destination is Ip && exists|i: int|
            0 <= i < sess.countries.len() && (#[trigger] sess.countries[i]).database@
                == self.database@ && lowercase(sess.countries[i].iso_code@) == lowercase(
                self.country_code@,
            )
    }
}

impl DomainMatcher {
    pub open spec fn wf(&self) -> bool {
        self.suffix.wf()
    }

    pub open spec fn accepts(&self, sess: &Session) -> bool {
        sess.destination matches SocksAddr::Domain(d, _) && {
            ||| exists|i: int| 0 <= i < self.full.len() && (#[trigger] self.full[i])@ == d@
            ||| self.suffix.covers(label_path(d@))
            ||| exists|i: int|
                0 <= i < self.keywords.len() && has_substring(d@, (#[trigger] self.keywords[i])@)
        }
    }
}

impl SmartMatcher {
    pub open spec fn wf(&self) -> bool {
        self.rule.wf()
    }

    pub open spec fn accepts(&self, sess: &Session) -> bool {
        sess.destination matches SocksAddr::Domain(d, _) && matched(self.rule@, d@)
    }
}

/// Whether everything the condition is made of is well formed.
pub open spec fn matcher_wf(m: Matcher) -> bool
    decreases m,
{
    match m {
        Matcher::Domain(d) => d.wf(),
        Matcher::Smart(s) => s.wf(),
        Matcher::IpCidr(c) => c.wf(),
        Matcher::Port(p) => forall|i: int|
            0 <= i < p.condition.conditions.len() ==> matcher_wf(#[trigger] p.condition.conditions[i]),
        Matcher::And(a) => forall|i: int|
            0 <= i < a.conditions.len() ==> matcher_wf(#[trigger] a.conditions[i]),
        Matcher::Or(o) => forall|i: int|
            0 <= i < o.conditions.len() ==> matcher_wf(#[trigger] o.conditions[i]),
        _ => true,
    }
}

/// Whether the condition holds of a connection.
pub open spec fn matcher_holds(m: Matcher, sess: Session) -> bool
    decreases m,
{
    match m {
        Matcher::Domain(d) => d.accepts(&sess),
        Matcher::Smart(s) => s.accepts(&sess),
        Matcher::IpCidr(c) => c.accepts(&sess),
        Matcher::Mmdb(g) => g.accepts(&sess),
        Matcher::Port(p) => exists|i: int|
            0 <= i < p.condition.conditions.len() && matcher_holds(
                #[trigger] p.condition.conditions[i],
                sess,
            ),
        Matcher::PortRange(r) => r.accepts(&sess),
        Matcher::Network(n) => n.accepts(&sess),
        Matcher::InboundTag(t) => t.accepts(&sess),
        Matcher::And(a) => forall|i: int|
            0 <= i < a.conditions.len() ==> matcher_holds(#[trigger] a.conditions[i], sess),
        Matcher::Or(o) => exists|i: int|
            0 <= i < o.conditions.len() && matcher_holds(#[trigger] o.conditions[i], sess),
    }
}

/// A predicate over connections that can be evaluated.
pub trait Condition {
    /// Whether the condition is well formed.
    spec fn wf(&self) -> bool;

    /// Whether the condition holds of a connection.
    spec fn holds(&self, sess: &Session) -> bool;

    /// Evaluates the condition.
    fn apply(&self, sess: &Session) -> (r: bool)
        requires
            self.wf(),
        ensures
            r == self.holds(sess),
    ;
}

impl Condition for PortRangeMatcher {
    open spec fn wf(&self) -> bool {
        true
    }

    open spec fn holds(&self, sess: &Session) -> bool {
        self.accepts(sess)
    }

    fn apply(&self, sess: &Session) -> (r: bool) {
        let port = sess.destination.port();
        port >= self.start && port <= self.end
    }
}

impl Condition for NetworkMatcher {
    open spec fn wf(&self) -> bool {
        true
    }

    open spec fn holds(&self, sess: &Session) -> bool {
        self.accepts(sess)
    }

    fn apply(&self, sess: &Session) -> (r: bool) {
        let mut i: usize = 0;
        while i < self.values.len()
            invariant
                i <= self.values.len(),
                forall|j: int| 0 <= j < i ==> self.values@[j] != sess.network,
            decreases self.values.len() - i,
        {
            if self.values[i] == sess.network {
                return true;
            }
            i += 1;
        }
        false
    }
}

impl Condition for InboundTagMatcher {
    open spec fn wf(&self) -> bool {
        true
    }

    open spec fn holds(&self, sess: &Session) -> bool {
        self.accepts(sess)
    }

    fn apply(&self, sess: &Session) -> (r: bool) {
        let mut i: usize = 0;
        while i < self.values.len()
            invariant
                i <= self.values.len(),
                forall|j: int| 0 <= j < i ==> (#[trigger] self.values[j])@ != sess.inbound_tag@,
            decreases self.values.len() - i,
        {
            if self.values[i] == sess.inbound_tag {
                return true;
            }
            i += 1;
        }
        false
    }
}

impl Condition for IpCidrMatcher {
    open spec fn wf(&self) -> bool {
        IpCidrMatcher::wf(self)
    }

    open spec fn holds(&self, sess: &Session) -> bool {
        self.accepts(sess)
    }

    fn apply(&self, sess: &Session) -> (r: bool) {
        if !sess.destination.is_domain() {
            if let Some(ip) = sess.destination.ip() {
                let mut i: usize = 0;
                while i < self.values.len()
                    invariant
                        i <= self.values.len(),
                        IpCidrMatcher::wf(self),
                        sess.destination matches SocksAddr::Ip(a, _) && a == ip,
                        forall|j: int| 0 <= j < i ==> !(#[trigger] self.values[j]).holds(ip),
                    decreases self.values.len() - i,
                {
                    if self.values[i].contains(&ip) {
                        assert(self.values[i as int].holds(ip));
                        return true;
                    }
                    i += 1;
                }
            }
        }
        false
    }
}

impl Condition for MmdbMatcher {
    open spec fn wf(&self) -> bool {
        true
    }

    open spec fn holds(&self, sess: &Session) -> bool {
        self.accepts(sess)
    }

    fn apply(&self, sess: &Session) -> (r: bool) {
        if !sess.destination.is_domain() {
            if let Some(_ip) = sess.destination.ip() {
                let wanted = to_lowercase(self.country_code.as_str());
                let mut i: usize = 0;
                while i < sess.countries.len()
                    invariant
                        i <= sess.countries.len(),
                        wanted@ == lowercase(self.country_code@),
                        sess.destination is Ip,
                        forall|j: int|
                            0 <= j < i ==> !((#[trigger] sess.countries[j]).database@
                                == self.database@ && lowercase(sess.countries[j].iso_code@)
                                == lowercase(self.country_code@)),
                    decreases sess.countries.len() - i,
                {
                    let record = &sess.countries[i];
                    if record.database == self.database {
                        let iso_code = to_lowercase(record.iso_code.as_str());
                        if iso_code == wanted {
                            assert(sess.countries[i as int].database@ == self.database@ && lowercase(
                                sess.countries[i as int].iso_code@,
                            ) == lowercase(self.country_code@));
                            return true;
                        }
                    }
                    i += 1;
                }
            }
        }
        false
    }
}

impl Condition for DomainMatcher {
    open spec fn wf(&self) -> bool {
        DomainMatcher::wf(self)
    }

    open spec fn holds(&self, sess: &Session) -> bool {
        self.accepts(sess)
    }

    fn apply(&self, sess: &Session) -> (r: bool) {
        let domain = match sess.destination.domain() {
            Some(d) => d,
            None => {
                return false;
            },
        };
        let mut i: usize = 0;
        while i < self.full.len()
            invariant
                i <= self.full.len(),
                sess.destination matches SocksAddr::Domain(d, _) && d == domain,
                forall|j: int| 0 <= j < i ==> (#[trigger] self.full[j])@ != domain@,
            decreases self.full.len() - i,
        {
            if self.full[i] == *domain {
                assert(self.full[i as int]@ == domain@);
                return true;
            }
            i += 1;
        }
        if self.suffix.matches(domain.as_str()) {
            return true;
        }
        let name = chars_of(domain.as_str());
        let mut k: usize = 0;
        while k < self.keywords.len()
            invariant
                k <= self.keywords.len(),
                name@ == domain@,
                sess.destination matches SocksAddr::Domain(d, _) && d == domain,
                forall|j: int| 0 <= j < k ==> !has_substring(domain@, (#[trigger] self.keywords[j])@),
            decreases self.keywords.len() - k,
        {
            let keyword = chars_of(self.keywords[k].as_str());
            if contains(&name, &keyword) {
                assert(has_substring(domain@, self.keywords[k as int]@));
                return true;
            }
            k += 1;
        }
        false
    }
}

impl Condition for SmartMatcher {
    open spec fn wf(&self) -> bool {
        SmartMatcher::wf(self)
    }

    open spec fn holds(&self, sess: &Session) -> bool {
        self.accepts(sess)
    }

    fn apply(&self, sess: &Session) -> (r: bool) {
        if let Some(domain) = sess.destination.domain() {
            if self.rule.is_match(domain.as_str()) {
                return true;
            }
        }
        false
    }
}

/// Whether all of `list[from..]` hold.
fn all_hold(list: &Vec<Matcher>, from: usize, sess: &Session) -> (r: bool)
    requires
        from <= list.len(),
        forall|i: int| 0 <= i < list.len() ==> matcher_wf(#[trigger] list[i]),
    ensures
        r == forall|i: int| from <= i < list.len() ==> matcher_holds(#[trigger] list[i], *sess),
    decreases list, list.len() - from,
{
    if from == list.len() {
        return true;
    }
    if !list[from].eval(sess) {
        return false;
    }
    all_hold(list, from + 1, sess)
}

/// Whether one of `list[from..]` holds.
fn any_holds(list: &Vec<Matcher>, from: usize, sess: &Session) -> (r: bool)
    requires
        from <= list.len(),
        forall|i: int| 0 <= i < list.len() ==> matcher_wf(#[trigger] list[i]),
    ensures
        r == exists|i: int| from <= i < list.len() && matcher_holds(#[trigger] list[i], *sess),
    decreases list, list.len() - from,
{
    if from == list.len() {
        return false;
    }
    if list[from].eval(sess) {
        return true;
    }
    any_holds(list, from + 1, sess)
}

impl Matcher {
    /// Evaluates the condition.
    pub fn eval(&self, sess: &Session) -> (r: bool)
        requires
            matcher_wf(*self),
        ensures
            r == matcher_holds(*self, *sess),
        decreases self, 0nat,
    {
        match self {
            Matcher::Domain(d) => d.apply(sess),
            Matcher::Smart(s) => s.apply(sess),
            Matcher::IpCidr(c) => c.apply(sess),
            Matcher::Mmdb(g) => g.apply(sess),
            Matcher::Port(p) => any_holds(&p.condition.conditions, 0, sess),
            Matcher::PortRange(r) => r.apply(sess),
            Matcher::Network(n) => n.apply(sess),
            Matcher::InboundTag(t) => t.apply(sess),
            Matcher::And(a) => all_hold(&a.conditions, 0, sess),
            Matcher::Or(o) => any_holds(&o.conditions, 0, sess),
        }
    }
}

impl Condition for Matcher {
    open spec fn wf(&self) -> bool {
        matcher_wf(*self)
    }

    open spec fn holds(&self, sess: &Session) -> bool {
        matcher_holds(*self, *sess)
    }

    fn apply(&self, sess: &Session) -> (r: bool) {
        self.eval(sess)
    }
}

impl Condition for ConditionAnd {
    open spec fn wf(&self) -> bool {
        forall|i: int| 0 <= i < self.conditions.len() ==> matcher_wf(#[trigger] self.conditions[i])
    }

    open spec fn holds(&self, sess: &Session) -> bool {
        forall|i: int|
            0 <= i < self.conditions.len() ==> matcher_holds(#[trigger] self.conditions[i], *sess)
    }

    fn apply(&self, sess: &Session) -> (r: bool) {
        all_hold(&self.conditions, 0, sess)
    }
}

impl Condition for ConditionOr {
    open spec fn wf(&self) -> bool {
        forall|i: int| 0 <= i < self.conditions.len() ==> matcher_wf(#[trigger] self.conditions[i])
    }

    open spec fn holds(&self, sess: &Session) -> bool {
        exists|i: int|
            0 <= i < self.conditions.len() && matcher_holds(#[trigger] self.conditions[i], *sess)
    }

    fn apply(&self, sess: &Session) -> (r: bool) {
        any_holds(&self.conditions, 0, sess)
    }
}

impl Condition for PortMatcher {
    open spec fn wf(&self) -> bool {
        self.condition.wf()
    }

    open spec fn holds(&self, sess: &Session) -> bool {
        self.condition.holds(sess)
    }

    fn apply(&self, sess: &Session) -> (r: bool) {
        self.condition.apply(sess)
    }
}

impl Condition for Rule {
    open spec fn wf(&self) -> bool {
        matcher_wf(self.condition)
    }

    open spec fn holds(&self, sess: &Session) -> bool {
        matcher_holds(self.condition, *sess)
    }

    fn apply(&self, sess: &Session) -> (r: bool) {
        self.condition.eval(sess)
    }
}

/// A text that spells no port range.
#[derive(Clone, Copy, Debug, PartialEq, Eq, Structural)]
pub enum PortRangeError {
    /// The text is not of the form `start-end` with two ports, the first
    /// no greater than the second.
    Invalid,
}

/// The condition that a text gives, where it spells a port range.
pub open spec fn port_condition(text: Seq<char>) -> Option<Matcher> {
    match parsed_port_range(text) {
        Some((start, end)) => Some(Matcher::PortRange(PortRangeMatcher { start, end })),
        None => None,
    }
}

/// The transport that a name in upper case names: `TCP` or `UDP`.
pub open spec fn network_of_upper(upper: Seq<char>) -> Option<Network> {
    if upper == "TCP"@ {
        Some(Network::Tcp)
    } else if upper == "UDP"@ {
        Some(Network::Udp)
    } else {
        None
    }
}

/// The transport that a text names, whatever its case.
pub open spec fn network_named(text: Seq<char>) -> Option<Network> {
    network_of_upper(uppercase(text))
}

/// The transport that a name in upper case names.
pub fn network_from_upper(upper: &str) -> (r: Option<Network>)
    ensures
        r == network_of_upper(upper@),
{
    let name = chars_of(upper);
    if same_chars(&name, &chars_of("TCP")) {
        Some(Network::Tcp)
    } else if same_chars(&name, &chars_of("UDP")) {
        Some(Network::Udp)
    } else {
        None
    }
}

/// The conditions of the texts that spell a port range, in order.
pub open spec fn port_conditions(list: Seq<Seq<char>>) -> Seq<Matcher> {
    collect(list, |t: Seq<char>| port_condition(t))
}

/// The transports that the texts name, in order.
pub open spec fn networks_named(list: Seq<Seq<char>>) -> Seq<Network> {
    collect(list, |t: Seq<char>| network_named(t))
}

/// The blocks of the texts that are in CIDR notation, in order.
pub open spec fn blocks_parsed(list: Seq<Seq<char>>) -> Seq<CidrBlock> {
    collect(list, |t: Seq<char>| parsed_cidr(t))
}

/// The values of the entries of one type, in order.
pub open spec fn values_of(entries: Seq<DomainEntry>, kind: DomainType) -> Seq<Seq<char>> {
    collect(
        entries,
        |e: DomainEntry|
            if e.type_ == kind {
                Some(e.value@)
            } else {
                None
            },
    )
}

impl PortRangeMatcher {
    /// The matcher for the range that `port_range` spells.
    pub fn new(port_range: &str) -> (r: Result<Self, PortRangeError>)
        ensures
            match parsed_port_range(port_range@) {
                Some((start, end)) => r == Ok::<Self, PortRangeError>(
                    PortRangeMatcher { start, end },
                ),
                None => r == Err::<Self, PortRangeError>(PortRangeError::Invalid),
            },
    {
        match parse_port_range(port_range) {
            Some((start, end)) => Ok(PortRangeMatcher { start, end }),
            None => Err(PortRangeError::Invalid),
        }
    }
}

impl PortMatcher {
    /// The matcher for the ranges that `port_ranges` spell. A text that
    /// spells none adds nothing.
    pub fn new(port_ranges: &[String]) -> (m: Self)
        ensures
            m.condition.conditions@ == port_conditions(texts(port_ranges@)),
            m.wf(),
    {
        let mut cond_or = ConditionOr::new();
        let ghost list = texts(port_ranges@);
        let ghost pick = |t: Seq<char>| port_condition(t);
        let mut i: usize = 0;
        while i < port_ranges.len()
            invariant
                i <= port_ranges.len(),
                list == texts(port_ranges@),
                pick == |t: Seq<char>| port_condition(t),
                cond_or.conditions@ == collect(list.subrange(0, i as int), pick),
                cond_or.wf(),
            decreases port_ranges.len() - i,
        {
            proof {
                lemma_collect_step(list, pick, i as int);
            }
            match PortRangeMatcher::new(port_ranges[i].as_str()) {
                Ok(m) => cond_or.add(Matcher::PortRange(m)),
                Err(_) => {},
            }
            i += 1;
        }
        assert(list.subrange(0, i as int) =~= list);
        PortMatcher { condition: cond_or }
    }
}

impl NetworkMatcher {
    /// The matcher for the transports that `networks` name. A text that
    /// names none adds nothing.
    pub fn new(networks: &[String]) -> (m: Self)
        ensures
            m.values@ == networks_named(texts(networks@)),
    {
        let mut values: Vec<Network> = Vec::new();
        let ghost list = texts(networks@);
        let ghost pick = |t: Seq<char>| network_named(t);
        let mut i: usize = 0;
        while i < networks.len()
            invariant
                i <= networks.len(),
                list == texts(networks@),
                pick == |t: Seq<char>| network_named(t),
                values@ == collect(list.subrange(0, i as int), pick),
            decreases networks.len() - i,
        {
            proof {
                lemma_collect_step(list, pick, i as int);
            }
            let upper = to_uppercase(networks[i].as_str());
            match network_from_upper(upper.as_str()) {
                Some(network) => values.push(network),
                None => {},
            }
            i += 1;
        }
        assert(list.subrange(0, i as int) =~= list);
        NetworkMatcher { values }
    }
}

impl InboundTagMatcher {
    /// The matcher for the tags `tags`.
    pub fn new(tags: &[String]) -> (m: Self)
        ensures
            texts(m.values@) == texts(tags@),
    {
        let mut values: Vec<String> = Vec::new();
        let mut i: usize = 0;
        while i < tags.len()
            invariant
                i <= tags.len(),
                values@.len() == i,
                forall|j: int| 0 <= j < i ==> values@[j]@ == tags@[j]@,
            decreases tags.len() - i,
        {
            values.push(tags[i].clone());
            i += 1;
        }
        assert(texts(values@) =~= texts(tags@));
        InboundTagMatcher { values }
    }
}

impl IpCidrMatcher {
    /// The matcher for the blocks that `ips` denote. A text that is not
    /// in CIDR notation adds nothing.
    pub fn new(ips: &[String]) -> (m: Self)
        ensures
            m.values@ == blocks_parsed(texts(ips@)),
            m.wf(),
    {
        let mut cidrs: Vec<CidrBlock> = Vec::new();
        let ghost list = texts(ips@);
        let ghost pick = |t: Seq<char>| parsed_cidr(t);
        let mut i: usize = 0;
        while i < ips.len()
            invariant
                i <= ips.len(),
                list == texts(ips@),
                pick == |t: Seq<char>| parsed_cidr(t),
                cidrs@ == collect(list.subrange(0, i as int), pick),
                forall|j: int| 0 <= j < cidrs.len() ==> (#[trigger] cidrs[j]).wf(),
            decreases ips.len() - i,
        {
            proof {
                lemma_collect_step(list, pick, i as int);
            }
            match parse_cidr(ips[i].as_str()) {
                Ok(cidr) => cidrs.push(cidr),
                Err(_) => {},
            }
            i += 1;
        }
        assert(list.subrange(0, i as int) =~= list);
        IpCidrMatcher { values: cidrs }
    }
}

impl MmdbMatcher {
    /// The matcher for the country `country_code` as the database
    /// `database` knows it.
    pub fn new(database: String, country_code: String) -> (m: Self)
        ensures
            m.database == database,
            m.country_code == country_code,
    {
        MmdbMatcher { database, country_code }
    }
}

impl DomainMatcher {
    /// The matcher for `entries`: full names, suffixes and keywords each go
    /// to their own part.
    pub fn new(entries: &[DomainEntry]) -> (m: Self)
        ensures
            m.wf(),
            texts(m.full@) == values_of(entries@, DomainType::Full),
            texts(m.keywords@) == values_of(entries@, DomainType::Keyword),
            forall|p: Seq<Seq<char>>|
                m.suffix@.contains(p) <==> exists|i: int|
                    0 <= i < entries.len() && (#[trigger] entries[i]).type_ == DomainType::Suffix
                        && label_path(entries[i].value@) == p,
    {
        let mut full: Vec<String> = Vec::new();
        let mut keywords: Vec<String> = Vec::new();
        let mut suffix = TrieNode::new();
        let ghost pick_full = |e: DomainEntry|
            if e.type_ == DomainType::Full {
                Some(e.value@)
            } else {
                None
            };
        let ghost pick_keyword = |e: DomainEntry|
            if e.type_ == DomainType::Keyword {
                Some(e.value@)
            } else {
                None
            };
        let mut i: usize = 0;
        while i < entries.len()
            invariant
                i <= entries.len(),
                suffix.wf(),
                pick_full == |e: DomainEntry|
                    if e.type_ == DomainType::Full {
                        Some(e.value@)
                    } else {
                        None
                    },
                pick_keyword == |e: DomainEntry|
                    if e.type_ == DomainType::Keyword {
                        Some(e.value@)
                    } else {
                        None
                    },
                texts(full@) == collect(entries@.subrange(0, i as int), pick_full),
                texts(keywords@) == collect(entries@.subrange(0, i as int), pick_keyword),
                forall|p: Seq<Seq<char>>|
                    suffix@.contains(p) <==> exists|j: int|
                        0 <= j < i && (#[trigger] entries[j]).type_ == DomainType::Suffix
                            && label_path(entries[j].value@) == p,
            decreases entries.len() - i,
        {
            proof {
                lemma_collect_step(entries@, pick_full, i as int);
                lemma_collect_step(entries@, pick_keyword, i as int);
            }
            let entry = &entries[i];
            let ghost before = suffix@;
            let ghost old_full = full@;
            let ghost old_keywords = keywords@;
            match entry.type_ {
                DomainType::Full => {
                    full.push(entry.value.clone());
                    assert(texts(full@) =~= texts(old_full).push(entry.value@));
                },
                DomainType::Suffix => {
                    suffix.insert(entry.value.as_str());
                },
                DomainType::Keyword => {
                    keywords.push(entry.value.clone());
                    assert(texts(keywords@) =~= texts(old_keywords).push(entry.value@));
                },
            }
            assert forall|p: Seq<Seq<char>>|
                suffix@.contains(p) <==> exists|j: int|
                    0 <= j < i + 1 && (#[trigger] entries[j]).type_ == DomainType::Suffix
                        && label_path(entries[j].value@) == p by {
                if before.contains(p) {
                    let j = choose|j: int|
                        0 <= j < i && (#[trigger] entries[j]).type_ == DomainType::Suffix
                            && label_path(entries[j].value@) == p;
                    assert(0 <= j < i + 1);
                }
                if suffix@.contains(p) && !before.contains(p) {
                    assert(entries[i as int].type_ == DomainType::Suffix && label_path(
                        entries[i as int].value@,
                    ) == p);
                }
            }
            i += 1;
        }
        assert(entries@.subrange(0, i as int) =~= entries@);
        DomainMatcher { full, suffix, keywords }
    }
}

impl SmartMatcher {
    /// The matcher that asks the classifier `rule`.
    pub fn new(rule: Arc<DomainRule>) -> (m: Self)
        ensures
            m.rule == rule,
    {
        SmartMatcher { rule }
    }
}

impl ConditionAnd {
    /// The conjunction of no condition, which holds of every connection.
    pub fn new() -> (c: Self)
        ensures
            c.conditions@ == Seq::<Matcher>::empty(),
    {
        ConditionAnd { conditions: Vec::new() }
    }

    /// Adds a condition.
    pub fn add(&mut self, cond: Matcher)
        ensures
            final(self).conditions@ == old(self).conditions@.push(cond),
            old(self).wf() && matcher_wf(cond) ==> final(self).wf(),
    {
        self.conditions.push(cond)
    }

    /// Whether no condition was added.
    pub fn is_empty(&self) -> (r: bool)
        ensures
            r == (self.conditions@.len() == 0),
    {
        self.conditions.len() == 0
    }
}

impl ConditionOr {
    /// The disjunction of no condition, which holds of no connection.
    pub fn new() -> (c: Self)
        ensures
            c.conditions@ == Seq::<Matcher>::empty(),
    {
        ConditionOr { conditions: Vec::new() }
    }

    /// Adds a condition.
    pub fn add(&mut self, cond: Matcher)
        ensures
            final(self).conditions@ == old(self).conditions@.push(cond),
            old(self).wf() && matcher_wf(cond) ==> final(self).wf(),
    {
        self.conditions.push(cond)
    }
}

impl Rule {
    /// The rule that sends connections meeting `condition` to `target`.
    pub fn new(target: String, condition: Matcher) -> (r: Self)
        ensures
            r.target == target,
            r.condition == condition,
    {
        Rule { target, condition }
    }
}

} // verus!
