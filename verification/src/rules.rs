//! What a configured rule asks of a connection, and the rules that a
//! configuration is loaded as.

use std::sync::Arc;
use vstd::prelude::*;
use crate::config::{smart_rule_marker, texts, DomainEntry, DomainType, MmdbEntry, RuleConfig};
use crate::domain_rule::{matched, DomainRule};
use crate::matcher::{
    blocks_parsed, matcher_holds, matcher_wf, networks_named, port_conditions, values_of,
    Condition, ConditionAnd, DomainMatcher, InboundTagMatcher, IpCidrMatcher, Matcher,
    MmdbMatcher, NetworkMatcher, PortMatcher, Rule,
};
use crate::net::{Session, SocksAddr};
use crate::text::{chars_of, has_substring, lemma_collect_members, lowercase, same_chars};
use crate::trie::label_path;

verus! {

/// Whether a domain entry matches the domain `d`.
pub open spec fn entry_matches(e: DomainEntry, d: Seq<char>) -> bool {
    match e.type_ {
        DomainType::Full => e.value@ == d,
        DomainType::Suffix => label_path(e.value@).is_prefix_of(label_path(d)),
        DomainType::Keyword => has_substring(d, e.value@),
    }
}

/// The destination is a domain that one of the entries matches.
pub open spec fn domains_ok(entries: Seq<DomainEntry>, sess: Session) -> bool {
    sess.destination matches SocksAddr::Domain(d, _) && exists|i: int|
        0 <= i < entries.len() && entry_matches(#[trigger] entries[i], d@)
}

/// The destination is an address within one of the blocks that the texts
/// denote.
pub open spec fn cidrs_ok(list: Seq<Seq<char>>, sess: Session) -> bool {
    sess.destination matches SocksAddr::Ip(ip, _) && exists|i: int|
        0 <= i < blocks_parsed(list).len() && (#[trigger] blocks_parsed(list)[i]).holds(ip)
}

/// The destination is an address that the entry's database places in the
/// entry's country.
pub open spec fn mmdb_ok(entry: MmdbEntry, sess: Session) -> bool {
    sess.destination is Ip && exists|i: int|
        0 <= i < sess.countries.len() && (#[trigger] sess.countries[i]).database@ == entry.file@
            && lowercase(sess.countries[i].iso_code@) == lowercase(entry.country_code@)
}

/// Every one of the first `upto` entries whose database is loaded holds.
pub open spec fn mmdbs_ok(
    entries: Seq<MmdbEntry>,
    loaded: Seq<Seq<char>>,
    sess: Session,
    upto: int,
) -> bool {
    forall|i: int|
        0 <= i < upto && i < entries.len() && loaded.contains((#[trigger] entries[i]).file@)
            ==> mmdb_ok(entries[i], sess)
}

/// The destination port lies in one of the ranges that the texts spell.
pub open spec fn ports_ok(list: Seq<Seq<char>>, sess: Session) -> bool {
    exists|i: int|
        0 <= i < port_conditions(list).len() && matcher_holds(
            #[trigger] port_conditions(list)[i],
            sess,
        )
}

/// The transport is one that the texts name.
pub open spec fn networks_ok(list: Seq<Seq<char>>, sess: Session) -> bool {
    networks_named(list).contains(sess.network)
}

/// The inbound tag is one of the texts.
pub open spec fn tags_ok(list: Seq<Seq<char>>, sess: Session) -> bool {
    exists|i: int| 0 <= i < list.len() && #[trigger] list[i] == sess.inbound_tag@
}

/// Whether the rule stands for the built-in classifier: its first domain
/// entry is the keyword that marks it.
pub open spec fn is_smart(cfg: RuleConfig) -> bool {
    cfg.domains.len() > 0 && cfg.domains[0].type_ == DomainType::Keyword && cfg.domains[0].value@
        == smart_rule_marker()
}

/// What the first `stage` categories of a rule ask of a connection. The
/// categories are, in order: domains, address blocks, GeoIP entries, port
/// ranges, transports, inbound tags. An empty category asks nothing, and
/// neither does a GeoIP entry whose database is not loaded.
pub open spec fn config_holds_upto(
    cfg: RuleConfig,
    loaded: Seq<Seq<char>>,
    sess: Session,
    stage: int,
) -> bool {
    &&& stage > 0 && cfg.domains.len() > 0 ==> domains_ok(cfg.domains@, sess)
    &&& stage > 1 && cfg.ip_cidrs.len() > 0 ==> cidrs_ok(texts(cfg.ip_cidrs@), sess)
    &&& stage > 2 ==> mmdbs_ok(cfg.mmdbs@, loaded, sess, cfg.mmdbs.len() as int)
    &&& stage > 3 && cfg.port_ranges.len() > 0 ==> ports_ok(texts(cfg.port_ranges@), sess)
    &&& stage > 4 && cfg.networks.len() > 0 ==> networks_ok(texts(cfg.networks@), sess)
    &&& stage > 5 && cfg.inbound_tags.len() > 0 ==> tags_ok(texts(cfg.inbound_tags@), sess)
}

/// Whether some category of the rule asks anything.
pub open spec fn config_kept(cfg: RuleConfig, loaded: Seq<Seq<char>>) -> bool {
    ||| cfg.domains.len() > 0
    ||| cfg.ip_cidrs.len() > 0
    ||| exists|i: int| 0 <= i < cfg.mmdbs.len() && loaded.contains((#[trigger] cfg.mmdbs[i]).file@)
    ||| cfg.port_ranges.len() > 0
    ||| cfg.networks.len() > 0
    ||| cfg.inbound_tags.len() > 0
}

/// Whether a configured rule becomes a rule: a rule for the built-in
/// classifier needs the classifier's table, any other rule a category
/// that asks something.
pub open spec fn rule_kept(cfg: RuleConfig, loaded: Seq<Seq<char>>, table: Option<Seq<u128>>) -> bool {
    if is_smart(cfg) {
        table is Some
    } else {
        config_kept(cfg, loaded)
    }
}

/// What a configured rule asks of a connection.
pub open spec fn rule_holds(
    cfg: RuleConfig,
    loaded: Seq<Seq<char>>,
    table: Option<Seq<u128>>,
    sess: Session,
) -> bool {
    if is_smart(cfg) {
        sess.destination matches SocksAddr::Domain(d, _) && table is Some && matched(table->0, d@)
    } else {
        config_holds_upto(cfg, loaded, sess, 6)
    }
}

/// The rule has the target of the configured rule and holds of the same
/// connections.
pub open spec fn rule_meets(
    rule: Rule,
    cfg: RuleConfig,
    loaded: Seq<Seq<char>>,
    table: Option<Seq<u128>>,
) -> bool {
    &&& rule.target@ == cfg.target_tag@
    &&& matcher_wf(rule.condition)
    &&& forall|sess: Session| #[trigger]
        matcher_holds(rule.condition, sess) == rule_holds(cfg, loaded, table, sess)
}

/// `built` holds, in order, one rule for each configured rule that is
/// kept, and each meets its configured rule.
pub open spec fn loaded_as(
    built: Seq<Rule>,
    cfgs: Seq<RuleConfig>,
    loaded: Seq<Seq<char>>,
    table: Option<Seq<u128>>,
) -> bool
    decreases cfgs.len(),
{
    if cfgs.len() == 0 {
        built.len() == 0
    } else if rule_kept(cfgs.last(), loaded, table) {
        built.len() > 0 && rule_meets(built.last(), cfgs.last(), loaded, table) && loaded_as(
            built.drop_last(),
            cfgs.drop_last(),
            loaded,
            table,
        )
    } else {
        loaded_as(built, cfgs.drop_last(), loaded, table)
    }
}

/// All of the conditions hold.
pub open spec fn all_hold(conds: Seq<Matcher>, sess: Session) -> bool {
    forall|i: int| 0 <= i < conds.len() ==> matcher_holds(#[trigger] conds[i], sess)
}

/// A conjunction holds where all of its conditions hold.
proof fn lemma_and_holds(a: ConditionAnd, sess: Session)
    ensures
        matcher_holds(Matcher::And(a), sess) == all_hold(a.conditions@, sess),
{
    let conds = a.conditions@;
    let m = Matcher::And(a);
    assert(m->And_0 == a);
    if matcher_holds(m, sess) {
        assert(forall|k: int|
            0 <= k < a.conditions.len() ==> matcher_holds(#[trigger] a.conditions[k], sess));
        assert forall|i: int| 0 <= i < conds.len() implies matcher_holds(#[trigger] conds[i], sess) by {
            assert(conds[i] == a.conditions[i]);
        }
    }
    if all_hold(conds, sess) {
        assert forall|i: int| 0 <= i < a.conditions.len() implies matcher_holds(
            #[trigger] a.conditions[i],
            sess,
        ) by {
            assert(conds[i] == a.conditions[i]);
        }
    }
}

/// A port matcher holds where one of its conditions holds.
proof fn lemma_port_holds(m: PortMatcher, sess: Session)
    ensures
        matcher_holds(Matcher::Port(m), sess) == exists|i: int|
            0 <= i < m.condition.conditions@.len() && matcher_holds(
                #[trigger] m.condition.conditions@[i],
                sess,
            ),
{
    let conds = m.condition.conditions@;
    let whole = Matcher::Port(m);
    assert(whole->Port_0 == m);
    if matcher_holds(whole, sess) {
        let i = choose|i: int|
            0 <= i < m.condition.conditions.len() && matcher_holds(
                #[trigger] m.condition.conditions[i],
                sess,
            );
        assert(matcher_holds(conds[i], sess));
    }
    if exists|i: int| 0 <= i < conds.len() && matcher_holds(#[trigger] conds[i], sess) {
        let i = choose|i: int| 0 <= i < conds.len() && matcher_holds(#[trigger] conds[i], sess);
        assert(matcher_holds(m.condition.conditions[i], sess));
    }
}

proof fn lemma_and_push(conds: Seq<Matcher>, m: Matcher, sess: Session)
    ensures
        all_hold(conds.push(m), sess) == (all_hold(conds, sess) && matcher_holds(m, sess)),
{
    let more = conds.push(m);
    if all_hold(more, sess) {
        assert(matcher_holds(more[conds.len() as int], sess));
        assert forall|i: int| 0 <= i < conds.len() implies matcher_holds(#[trigger] conds[i], sess) by {
            assert(more[i] == conds[i]);
        }
    }
    if all_hold(conds, sess) && matcher_holds(m, sess) {
        assert forall|i: int| 0 <= i < more.len() implies matcher_holds(#[trigger] more[i], sess) by {
            if i < conds.len() {
                assert(more[i] == conds[i]);
            }
        }
    }
}

/// A domain matcher made of the entries holds where one of them matches.
proof fn lemma_domain_matcher(m: DomainMatcher, entries: Seq<DomainEntry>, sess: Session)
    requires
        texts(m.full@) == values_of(entries, DomainType::Full),
        texts(m.keywords@) == values_of(entries, DomainType::Keyword),
        forall|p: Seq<Seq<char>>|
            m.suffix@.contains(p) <==> exists|i: int|
                0 <= i < entries.len() && (#[trigger] entries[i]).type_ == DomainType::Suffix
                    && label_path(entries[i].value@) == p,
    ensures
        m.accepts(&sess) == domains_ok(entries, sess),
{
    let pick_full = |e: DomainEntry|
        if e.type_ == DomainType::Full {
            Some(e.value@)
        } else {
            None
        };
    let pick_keyword = |e: DomainEntry|
        if e.type_ == DomainType::Keyword {
            Some(e.value@)
        } else {
            None
        };
    lemma_collect_members(entries, pick_full);
    lemma_collect_members(entries, pick_keyword);
    if let SocksAddr::Domain(name, _) = sess.destination {
        let d = name@;
        let path = label_path(d);
        if m.accepts(&sess) {
            if exists|i: int| 0 <= i < m.full.len() && (#[trigger] m.full[i])@ == d {
                let i = choose|i: int| 0 <= i < m.full.len() && (#[trigger] m.full[i])@ == d;
                assert(texts(m.full@)[i] == d);
                assert(values_of(entries, DomainType::Full).contains(d));
                let j = choose|j: int| 0 <= j < entries.len() && pick_full(#[trigger] entries[j]) == Some(d);
                assert(entry_matches(entries[j], d));
            } else if m.suffix.covers(path) {
                let p = choose|p: Seq<Seq<char>>| #[trigger] m.suffix.holds(p) && p.is_prefix_of(path);
                assert(m.suffix@.contains(p));
                let j = choose|j: int|
                    0 <= j < entries.len() && (#[trigger] entries[j]).type_ == DomainType::Suffix
                        && label_path(entries[j].value@) == p;
                assert(entry_matches(entries[j], d));
            } else {
                let i = choose|i: int|
                    0 <= i < m.keywords.len() && has_substring(d, (#[trigger] m.keywords[i])@);
                let w = m.keywords[i]@;
                assert(texts(m.keywords@)[i] == w);
                assert(values_of(entries, DomainType::Keyword).contains(w));
                let j = choose|j: int|
                    0 <= j < entries.len() && pick_keyword(#[trigger] entries[j]) == Some(w);
                assert(entry_matches(entries[j], d));
            }
        }
        if domains_ok(entries, sess) {
            let j = choose|j: int| 0 <= j < entries.len() && entry_matches(#[trigger] entries[j], d);
            let e = entries[j];
            match e.type_ {
                DomainType::Full => {
                    assert(pick_full(e) == Some(d));
                    assert(values_of(entries, DomainType::Full).contains(d));
                    let i = choose|i: int| 0 <= i < texts(m.full@).len() && texts(m.full@)[i] == d;
                    assert(m.full[i]@ == d);
                },
                DomainType::Suffix => {
                    let p = label_path(e.value@);
                    assert(m.suffix@.contains(p));
                    assert(m.suffix.holds(p) && p.is_prefix_of(path));
                },
                DomainType::Keyword => {
                    let w = e.value@;
                    assert(pick_keyword(e) == Some(w));
                    assert(values_of(entries, DomainType::Keyword).contains(w));
                    let i = choose|i: int|
                        0 <= i < texts(m.keywords@).len() && texts(m.keywords@)[i] == w;
                    assert(has_substring(d, m.keywords[i]@));
                },
            }
        }
    }
}

/// An inbound-tag matcher made of the texts holds where one of them is
/// the tag.
proof fn lemma_tag_matcher(m: InboundTagMatcher, list: Seq<Seq<char>>, sess: Session)
    requires
        texts(m.values@) == list,
    ensures
        m.accepts(&sess) == tags_ok(list, sess),
{
    if m.accepts(&sess) {
        let i = choose|i: int| 0 <= i < m.values.len() && (#[trigger] m.values[i])@ == sess.inbound_tag@;
        assert(list[i] == sess.inbound_tag@);
    }
    if tags_ok(list, sess) {
        let i = choose|i: int| 0 <= i < list.len() && #[trigger] list[i] == sess.inbound_tag@;
        assert(m.values[i]@ == sess.inbound_tag@);
    }
}

/// Whether `file` is one of `databases`.
fn is_loaded(databases: &[String], file: &String) -> (r: bool)
    ensures
        r == texts(databases@).contains(file@),
{
    let mut i: usize = 0;
    while i < databases.len()
        invariant
            i <= databases.len(),
            forall|j: int| 0 <= j < i ==> texts(databases@)[j] != file@,
        decreases databases.len() - i,
    {
        if databases[i] == *file {
            assert(texts(databases@)[i as int] == file@);
            return true;
        }
        i += 1;
    }
    false
}

/// Whether the rule stands for the built-in classifier.
pub fn is_smart_rule(cfg: &RuleConfig) -> (r: bool)
    ensures
        r == is_smart(*cfg),
{
    if cfg.domains.len() == 0 {
        return false;
    }
    let first = &cfg.domains[0];
    match first.type_ {
        DomainType::Keyword => {
            let value = chars_of(first.value.as_str());
            let marker = chars_of("_SMART_RULE_");
            same_chars(&value, &marker)
        },
        _ => false,
    }
}

/// Another handle on the same classifier, by std's `Clone` for `Arc`.
/// Trusted: the handle is for the value that `rule` is for.
#[verifier::external_body]
pub(crate) fn share(rule: &Arc<DomainRule>) -> (r: Arc<DomainRule>)
    ensures
        r == rule,
{
    rule.clone()
}

/// The condition of a configured rule: the conjunction of one condition
/// for each category that asks something, or nothing where none does.
pub fn build_condition(cfg: &RuleConfig, databases: &[String]) -> (r: Option<Matcher>)
    ensures
        match r {
            Some(m) => config_kept(*cfg, texts(databases@)) && matcher_wf(m) && forall|
                sess: Session,
            | #[trigger]
                matcher_holds(m, sess) == config_holds_upto(*cfg, texts(databases@), sess, 6),
            None => !config_kept(*cfg, texts(databases@)),
        },
{
    let ghost loaded = texts(databases@);
    let mut cond_and = ConditionAnd::new();
    assert forall|sess: Session| #[trigger]
        all_hold(cond_and.conditions@, sess) == config_holds_upto(*cfg, loaded, sess, 0) by {}

    if cfg.domains.len() > 0 {
        let ghost before = cond_and.conditions@;
        let m = DomainMatcher::new(cfg.domains.as_slice());
        assert forall|sess: Session| #[trigger]
            all_hold(before.push(Matcher::Domain(m)), sess) == config_holds_upto(
                *cfg,
                loaded,
                sess,
                1,
            ) by {
            lemma_and_push(before, Matcher::Domain(m), sess);
            lemma_domain_matcher(m, cfg.domains@, sess);
        }
        cond_and.add(Matcher::Domain(m));
    }
    assert forall|sess: Session| #[trigger]
        all_hold(cond_and.conditions@, sess) == config_holds_upto(*cfg, loaded, sess, 1) by {}

    if cfg.ip_cidrs.len() > 0 {
        let ghost before = cond_and.conditions@;
        let m = IpCidrMatcher::new(cfg.ip_cidrs.as_slice());
        assert forall|sess: Session| #[trigger]
            all_hold(before.push(Matcher::IpCidr(m)), sess) == config_holds_upto(
                *cfg,
                loaded,
                sess,
                2,
            ) by {
            lemma_and_push(before, Matcher::IpCidr(m), sess);
        }
        cond_and.add(Matcher::IpCidr(m));
    }
    assert forall|sess: Session| #[trigger]
        all_hold(cond_and.conditions@, sess) == config_holds_upto(*cfg, loaded, sess, 2) by {}

    let ghost asked = cfg.domains.len() > 0 || cfg.ip_cidrs.len() > 0;
    let mut j: usize = 0;
    while j < cfg.mmdbs.len()
        invariant
            j <= cfg.mmdbs.len(),
            loaded == texts(databases@),
            cond_and.wf(),
            forall|sess: Session| #[trigger]
                all_hold(cond_and.conditions@, sess) == (config_holds_upto(*cfg, loaded, sess, 2)
                    && mmdbs_ok(cfg.mmdbs@, loaded, sess, j as int)),
            (cond_and.conditions@.len() > 0) == (asked || exists|i: int|
                0 <= i < j && loaded.contains((#[trigger] cfg.mmdbs[i]).file@)),
        decreases cfg.mmdbs.len() - j,
    {
        let mmdb = &cfg.mmdbs[j];
        let ghost before = cond_and.conditions@;
        if is_loaded(databases, &mmdb.file) {
            let m = MmdbMatcher::new(mmdb.file.clone(), mmdb.country_code.clone());
            assert forall|sess: Session| #[trigger]
                all_hold(before.push(Matcher::Mmdb(m)), sess) == (config_holds_upto(
                    *cfg,
                    loaded,
                    sess,
                    2,
                ) && mmdbs_ok(cfg.mmdbs@, loaded, sess, j + 1)) by {
                lemma_and_push(before, Matcher::Mmdb(m), sess);
                assert(m.accepts(&sess) == mmdb_ok(cfg.mmdbs@[j as int], sess));
                if mmdbs_ok(cfg.mmdbs@, loaded, sess, j + 1) {
                    assert(loaded.contains(cfg.mmdbs@[j as int].file@));
                }
            }
            cond_and.add(Matcher::Mmdb(m));
            assert(loaded.contains(cfg.mmdbs[j as int].file@));
        } else {
            assert forall|sess: Session|
                mmdbs_ok(cfg.mmdbs@, loaded, sess, j as int) == mmdbs_ok(
                    cfg.mmdbs@,
                    loaded,
                    sess,
                    j + 1,
                ) by {}
        }
        j += 1;
    }
    assert forall|sess: Session| #[trigger]
        all_hold(cond_and.conditions@, sess) == config_holds_upto(*cfg, loaded, sess, 3) by {}

    if cfg.port_ranges.len() > 0 {
        let ghost before = cond_and.conditions@;
        let m = PortMatcher::new(cfg.port_ranges.as_slice());
        assert forall|sess: Session| #[trigger]
            all_hold(before.push(Matcher::Port(m)), sess) == config_holds_upto(
                *cfg,
                loaded,
                sess,
                4,
            ) by {
            lemma_and_push(before, Matcher::Port(m), sess);
            lemma_port_holds(m, sess);
            let list = port_conditions(texts(cfg.port_ranges@));
            assert(m.condition.conditions@ == list);
        }
        cond_and.add(Matcher::Port(m));
    }
    assert forall|sess: Session| #[trigger]
        all_hold(cond_and.conditions@, sess) == config_holds_upto(*cfg, loaded, sess, 4) by {}

    if cfg.networks.len() > 0 {
        let ghost before = cond_and.conditions@;
        let m = NetworkMatcher::new(cfg.networks.as_slice());
        assert forall|sess: Session| #[trigger]
            all_hold(before.push(Matcher::Network(m)), sess) == config_holds_upto(
                *cfg,
                loaded,
                sess,
                5,
            ) by {
            lemma_and_push(before, Matcher::Network(m), sess);
        }
        cond_and.add(Matcher::Network(m));
    }
    assert forall|sess: Session| #[trigger]
        all_hold(cond_and.conditions@, sess) == config_holds_upto(*cfg, loaded, sess, 5) by {}

    if cfg.inbound_tags.len() > 0 {
        let ghost before = cond_and.conditions@;
        let m = InboundTagMatcher::new(cfg.inbound_tags.as_slice());
        assert forall|sess: Session| #[trigger]
            all_hold(before.push(Matcher::InboundTag(m)), sess) == config_holds_upto(
                *cfg,
                loaded,
                sess,
                6,
            ) by {
            lemma_and_push(before, Matcher::InboundTag(m), sess);
            lemma_tag_matcher(m, texts(cfg.inbound_tags@), sess);
        }
        cond_and.add(Matcher::InboundTag(m));
    }
    assert forall|sess: Session| #[trigger]
        all_hold(cond_and.conditions@, sess) == config_holds_upto(*cfg, loaded, sess, 6) by {}

    if cond_and.is_empty() {
        None
    } else {
        let m = Matcher::And(cond_and);
        assert forall|sess: Session| #[trigger]
            matcher_holds(m, sess) == config_holds_upto(*cfg, loaded, sess, 6) by {
            lemma_and_holds(cond_and, sess);
        }
        Some(m)
    }
}

/// The table of the classifier, where one is given.
pub open spec fn table_of(smart: Option<Arc<DomainRule>>) -> Option<Seq<u128>> {
    match smart {
        Some(rule) => Some(rule@),
        None => None,
    }
}

} // verus!
