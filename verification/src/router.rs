//! The router: an ordered list of rules, a cache of decisions, and the
//! decision itself.

use std::sync::Arc;
use vstd::hash_map::StringHashMap;
use vstd::prelude::*;
use crate::config::{texts, RouterConfig};
use crate::domain_rule::DomainRule;
use crate::matcher::{matcher_holds, matcher_wf, Matcher, Rule};
use crate::net::{ip_text, ip_to_string, GeoRecord, IpAddr, Session, SocksAddr};
use crate::config::RuleConfig;
use crate::matcher::SmartMatcher;
use crate::rules::{
    build_condition, is_smart_rule, loaded_as, rule_kept, rule_meets, share, table_of,
};

verus! {

/// The route of a connection whose destination is malformed.
pub open spec fn direct_tag() -> Seq<char> {
    "Direct"@
}

/// The route of a connection that no rule matches.
pub open spec fn default_tag() -> Seq<char> {
    "trojan_out"@
}

/// What a routing decision ends in.
#[derive(Clone, Debug, PartialEq, Eq)]
pub enum RouteStep {
    /// The connection takes the route with this tag.
    Routed(String),
    /// No rule matches this domain by its name: it is to be resolved, and
    /// the decision goes on with the addresses found.
    Resolve(String),
}

/// The end of a routing decision as plain values.
pub enum RouteStepView {
    Routed(Seq<char>),
    Resolve(Seq<char>),
}

impl View for RouteStep {
    type V = RouteStepView;

    open spec fn view(&self) -> RouteStepView {
        match self {
            RouteStep::Routed(tag) => RouteStepView::Routed(tag@),
            RouteStep::Resolve(domain) => RouteStepView::Resolve(domain@),
        }
    }
}

/// What the router knows, as plain values.
pub struct RouterView {
    /// The rules, in the order they are tried.
    pub rules: Seq<Rule>,
    /// Whether a domain that no rule matches is resolved and tried again.
    pub domain_resolve: bool,
    /// The decisions made so far, by cache key.
    pub cache: Map<Seq<char>, Seq<char>>,
}

impl RouterView {
    /// Every rule is well formed.
    pub open spec fn wf(self) -> bool {
        forall|i: int| 0 <= i < self.rules.len() ==> matcher_wf((#[trigger] self.rules[i]).condition)
    }

    /// The state after the decision `tag` for `key` was put in the cache.
    pub open spec fn remember(self, key: Seq<char>, tag: Seq<char>) -> RouterView {
        RouterView { cache: self.cache.insert(key, tag), ..self }
    }
}

/// The key under which the decision for a connection is cached: the
/// domain of a domain destination, the text of an address destination,
/// none for a malformed destination.
pub open spec fn cache_key(sess: Session) -> Option<Seq<char>> {
    match sess.destination {
        SocksAddr::Domain(d, _) => Some(d@),
        SocksAddr::Ip(ip, _) => Some(ip_text(ip)),
        SocksAddr::Unspecified => None,
    }
}

/// The first rule from position `from` on that holds of the connection.
pub open spec fn first_match(rules: Seq<Rule>, sess: Session, from: int) -> Option<int>
    decreases rules.len() - from,
{
    if from < 0 || from >= rules.len() {
        None
    } else if matcher_holds(rules[from].condition, sess) {
        Some(from)
    } else {
        first_match(rules, sess, from + 1)
    }
}

/// The connection as it is tried again once its domain was resolved: the
/// same, but for the address in place of the domain and what the GeoIP
/// databases say of that address.
pub open spec fn derived(sess: Session, ip: IpAddr, countries: Vec<GeoRecord>) -> Session {
    Session {
        network: sess.network,
        destination: SocksAddr::Ip(ip, sess.destination.port()),
        inbound_tag: sess.inbound_tag,
        countries,
    }
}

/// The decision for a connection in state `v`, and the state after it.
/// A malformed destination goes the direct route, uncached. A cached key
/// gets the cached route. Else the first rule that holds decides, and the
/// decision is cached. Else a domain is to be resolved where the router
/// resolves domains. Else the default route is taken and cached.
pub open spec fn decide(v: RouterView, sess: Session) -> (RouteStepView, RouterView) {
    match cache_key(sess) {
        None => (RouteStepView::Routed(direct_tag()), v),
        Some(key) => if v.cache.contains_key(key) {
            (RouteStepView::Routed(v.cache[key]), v)
        } else {
            match first_match(v.rules, sess, 0) {
                Some(i) => (
                    RouteStepView::Routed(v.rules[i].target@),
                    v.remember(key, v.rules[i].target@),
                ),
                None => if sess.destination is Domain && v.domain_resolve {
                    (RouteStepView::Resolve(key), v)
                } else {
                    (RouteStepView::Routed(default_tag()), v.remember(key, default_tag()))
                },
            }
        },
    }
}

/// The decision for a connection whose domain was resolved to `ips`, and
/// the state after it. A cached key gets the cached route. Else the first
/// rule that holds of the connection with the first address in place of
/// the domain decides. Else, and where there is no address, the default
/// route is taken. The decision is cached under the key of the connection
/// as it came.
pub open spec fn decide_resolved(
    v: RouterView,
    sess: Session,
    ips: Seq<IpAddr>,
    countries: Vec<GeoRecord>,
) -> (Seq<char>, RouterView) {
    match cache_key(sess) {
        None => (direct_tag(), v),
        Some(key) => if v.cache.contains_key(key) {
            (v.cache[key], v)
        } else if ips.len() > 0 && first_match(v.rules, derived(sess, ips[0], countries), 0)
            is Some {
            let i = first_match(v.rules, derived(sess, ips[0], countries), 0)->0;
            (v.rules[i].target@, v.remember(key, v.rules[i].target@))
        } else {
            (default_tag(), v.remember(key, default_tag()))
        },
    }
}

/// The first match is a rule that holds, and no rule before it holds.
pub proof fn lemma_first_match(rules: Seq<Rule>, sess: Session, from: int)
    requires
        0 <= from,
    ensures
        match first_match(rules, sess, from) {
            Some(i) => from <= i < rules.len() && matcher_holds(rules[i].condition, sess) && forall|
                k: int,
            |
                from <= k < i ==> !matcher_holds((#[trigger] rules[k]).condition, sess),
            None => forall|k: int|
                from <= k < rules.len() ==> !matcher_holds((#[trigger] rules[k]).condition, sess),
        },
    decreases rules.len() - from,
{
    if from < rules.len() && !matcher_holds(rules[from].condition, sess) {
        lemma_first_match(rules, sess, from + 1);
    }
}

/// Of the rules that hold of a connection, the one that comes first
/// decides: where rule `i` holds and no rule before it does, a connection
/// whose key is not cached takes the route of rule `i`, whatever rules
/// after it hold too.
pub proof fn lemma_earlier_rule_wins(v: RouterView, sess: Session, i: int)
    requires
        0 <= i < v.rules.len(),
        matcher_holds(v.rules[i].condition, sess),
        forall|k: int| 0 <= k < i ==> !matcher_holds((#[trigger] v.rules[k]).condition, sess),
        cache_key(sess) matches Some(key) && !v.cache.contains_key(key),
    ensures
        decide(v, sess).0 == RouteStepView::Routed(v.rules[i].target@),
{
    lemma_first_match(v.rules, sess, 0);
}

/// A decision is kept: once a connection was given a route, every later
/// connection with the same cache key gets that route and leaves the
/// cache as it is, whatever the rules have become in between.
pub proof fn lemma_cache_consistency(
    v: RouterView,
    first: Session,
    second: Session,
    later_rules: Seq<Rule>,
    later_resolve: bool,
)
    requires
        cache_key(first) is Some,
        cache_key(first) == cache_key(second),
        decide(v, first).0 is Routed,
    ensures
        ({
            let (step, after) = decide(v, first);
            let later = RouterView { rules: later_rules, domain_resolve: later_resolve, ..after };
            decide(later, second) == (step, later)
        }),
{
}

/// A decision made after resolving is kept in the same way.
pub proof fn lemma_cache_consistency_resolved(
    v: RouterView,
    first: Session,
    ips: Seq<IpAddr>,
    countries: Vec<GeoRecord>,
    second: Session,
    later_rules: Seq<Rule>,
    later_resolve: bool,
)
    requires
        cache_key(first) is Some,
        cache_key(first) == cache_key(second),
    ensures
        ({
            let (tag, after) = decide_resolved(v, first, ips, countries);
            let later = RouterView { rules: later_rules, domain_resolve: later_resolve, ..after };
            decide(later, second) == (RouteStepView::Routed(tag), later)
        }),
{
}

/// No decision takes anything out of the cache or changes a cached route.
pub proof fn lemma_cache_grows(v: RouterView, sess: Session, key: Seq<char>)
    requires
        v.cache.contains_key(key),
    ensures
        decide(v, sess).1.cache.contains_key(key),
        decide(v, sess).1.cache[key] == v.cache[key],
{
}

/// Nor does a decision made after resolving.
pub proof fn lemma_cache_grows_resolved(
    v: RouterView,
    sess: Session,
    ips: Seq<IpAddr>,
    countries: Vec<GeoRecord>,
    key: Seq<char>,
)
    requires
        v.cache.contains_key(key),
    ensures
        decide_resolved(v, sess, ips, countries).1.cache.contains_key(key),
        decide_resolved(v, sess, ips, countries).1.cache[key] == v.cache[key],
{
}

/// The router.
pub struct Router {
    rules: Vec<Rule>,
    domain_resolve: bool,
    route_cache: StringHashMap<String>,
}

impl View for Router {
    type V = RouterView;

    closed spec fn view(&self) -> RouterView {
        RouterView {
            rules: self.rules@,
            domain_resolve: self.domain_resolve,
            cache: self.route_cache@.map_values(|tag: String| tag@),
        }
    }
}

impl Router {
    /// Appends to `rules` the rules that `routing_rules` configure, in
    /// order. A rule for the built-in classifier is left out where no
    /// classifier is given, any other rule where no category of it asks
    /// anything. A GeoIP entry counts only where its database is one of
    /// `databases`, the databases that could be opened.
    pub fn load_rules(
        rules: &mut Vec<Rule>,
        routing_rules: &[RuleConfig],
        databases: &[String],
        smart: &Option<Arc<DomainRule>>,
    )
        requires
            smart matches Some(rule) ==> rule.wf(),
        ensures
            old(rules)@.len() <= final(rules)@.len(),
            final(rules)@.subrange(0, old(rules)@.len() as int) == old(rules)@,
            loaded_as(
                final(rules)@.subrange(old(rules)@.len() as int, final(rules)@.len() as int),
                routing_rules@,
                texts(databases@),
                table_of(*smart),
            ),
    {
        let ghost loaded = texts(databases@);
        let ghost table = table_of(*smart);
        let ghost start = rules@.len() as int;
        let mut i: usize = 0;
        assert(rules@.subrange(0, start) =~= rules@);
        assert(routing_rules@.subrange(0, 0).len() == 0);
        while i < routing_rules.len()
            invariant
                i <= routing_rules.len(),
                loaded == texts(databases@),
                table == table_of(*smart),
                smart matches Some(rule) ==> rule.wf(),
                start == old(rules)@.len(),
                start <= rules@.len(),
                rules@.subrange(0, start) == old(rules)@,
                loaded_as(
                    rules@.subrange(start, rules@.len() as int),
                    routing_rules@.subrange(0, i as int),
                    loaded,
                    table,
                ),
            decreases routing_rules.len() - i,
        {
            let rule = &routing_rules[i];
            let ghost before = rules@;
            let ghost built = before.subrange(start, before.len() as int);
            let ghost seen = routing_rules@.subrange(0, i as int);
            let ghost more = routing_rules@.subrange(0, i + 1);
            assert(more.drop_last() =~= seen);
            assert(more.last() == *rule);
            if is_smart_rule(rule) {
                match smart {
                    Some(classifier) => {
                        let m = Matcher::Smart(SmartMatcher::new(share(classifier)));
                        rules.push(Rule::new(rule.target_tag.clone(), m));
                    },
                    None => {},
                }
            } else {
                match build_condition(rule, databases) {
                    Some(m) => {
                        rules.push(Rule::new(rule.target_tag.clone(), m));
                    },
                    None => {},
                }
            }
            proof {
                let after = rules@.subrange(start, rules@.len() as int);
                if rule_kept(*rule, loaded, table) {
                    assert(after.drop_last() =~= built);
                    assert(rule_meets(after.last(), *rule, loaded, table));
                } else {
                    assert(after =~= built);
                }
                assert(rules@.subrange(0, start) =~= before.subrange(0, start));
            }
            i += 1;
        }
        assert(routing_rules@.subrange(0, i as int) =~= routing_rules@);
    }

    /// A router with the rules that `router` configures and an empty
    /// cache; with no rule, and without resolving, where no configuration
    /// is given.
    pub fn new(
        router: Option<&RouterConfig>,
        databases: &[String],
        smart: &Option<Arc<DomainRule>>,
    ) -> (r: Self)
        requires
            smart matches Some(rule) ==> rule.wf(),
        ensures
            r@.wf(),
            r@.cache == Map::<Seq<char>, Seq<char>>::empty(),
            match router {
                Some(config) => r@.domain_resolve == config.domain_resolve && loaded_as(
                    r@.rules,
                    config.rules@,
                    texts(databases@),
                    table_of(*smart),
                ),
                None => !r@.domain_resolve && r@.rules.len() == 0,
            },
    {
        let mut rules: Vec<Rule> = Vec::new();
        let mut domain_resolve = false;
        if let Some(config) = router {
            Self::load_rules(&mut rules, config.rules.as_slice(), databases, smart);
            domain_resolve = config.domain_resolve;
            assert(rules@.subrange(0, rules@.len() as int) =~= rules@);
            proof {
                lemma_loaded_wf(rules@, config.rules@, texts(databases@), table_of(*smart));
            }
        }
        let r = Router { rules, domain_resolve, route_cache: StringHashMap::new() };
        assert(r@.cache =~= Map::<Seq<char>, Seq<char>>::empty());
        r
    }

    /// Replaces the rules by those that `router` configures and empties
    /// the cache. Where no configuration is given, the router is left
    /// with no rule.
    pub fn reload(
        &mut self,
        router: Option<&RouterConfig>,
        databases: &[String],
        smart: &Option<Arc<DomainRule>>,
    )
        requires
            smart matches Some(rule) ==> rule.wf(),
        ensures
            final(self)@.wf(),
            final(self)@.cache == Map::<Seq<char>, Seq<char>>::empty(),
            match router {
                Some(config) => final(self)@.domain_resolve == config.domain_resolve && loaded_as(
                    final(self)@.rules,
                    config.rules@,
                    texts(databases@),
                    table_of(*smart),
                ),
                None => final(self)@.domain_resolve == old(self)@.domain_resolve
                    && final(self)@.rules.len() == 0,
            },
    {
        self.rules.clear();
        self.route_cache.clear();
        if let Some(config) = router {
            Self::load_rules(&mut self.rules, config.rules.as_slice(), databases, smart);
            self.domain_resolve = config.domain_resolve;
            assert(self.rules@.subrange(0, self.rules@.len() as int) =~= self.rules@);
            proof {
                lemma_loaded_wf(self.rules@, config.rules@, texts(databases@), table_of(*smart));
            }
        }
        assert(self@.cache =~= Map::<Seq<char>, Seq<char>>::empty());
    }

    /// The first rule that holds of the connection.
    fn find_rule(&self, sess: &Session) -> (r: Option<usize>)
        requires
            self@.wf(),
        ensures
            match r {
                Some(i) => first_match(self@.rules, *sess, 0) == Some(i as int) && i
                    < self@.rules.len(),
                None => first_match(self@.rules, *sess, 0) is None,
            },
    {
        let mut i: usize = 0;
        while i < self.rules.len()
            invariant
                i <= self.rules.len(),
                self@.wf(),
                first_match(self@.rules, *sess, 0) == first_match(self@.rules, *sess, i as int),
            decreases self.rules.len() - i,
        {
            if self.rules[i].condition.eval(sess) {
                return Some(i);
            }
            i += 1;
        }
        None
    }

    /// Puts the decision `tag` for `key` in the cache.
    fn remember(&mut self, key: String, tag: String)
        ensures
            final(self)@ == old(self)@.remember(key@, tag@),
    {
        self.route_cache.insert(key, tag);
        assert(final(self)@.cache =~= old(self)@.cache.insert(key@, tag@));
    }

    /// The cached decision for `key`.
    fn cached(&self, key: &str) -> (r: Option<String>)
        ensures
            match r {
                Some(tag) => self@.cache.contains_key(key@) && self@.cache[key@] == tag@,
                None => !self@.cache.contains_key(key@),
            },
    {
        match self.route_cache.get(key) {
            Some(tag) => Some(tag.clone()),
            None => None,
        }
    }

    /// The route of a connection where deciding it changes nothing: the
    /// direct route for a malformed destination, the cached route for a
    /// cached key, and nothing otherwise.
    pub fn cached_route(&self, sess: &Session) -> (r: Option<String>)
        ensures
            match r {
                Some(tag) => decide(self@, *sess) == (RouteStepView::Routed(tag@), self@),
                None => cache_key(*sess) matches Some(key) && !self@.cache.contains_key(key),
            },
    {
        match &sess.destination {
            SocksAddr::Domain(domain, _) => self.cached(domain.as_str()),
            SocksAddr::Ip(ip, _) => {
                let key = ip_to_string(ip);
                self.cached(key.as_str())
            },
            SocksAddr::Unspecified => Some("Direct".to_owned()),
        }
    }

    /// Decides the route of a connection.
    pub fn pick_route(&mut self, sess: &Session) -> (r: RouteStep)
        requires
            old(self)@.wf(),
        ensures
            final(self)@.wf(),
            (r@, final(self)@) == decide(old(self)@, *sess),
    {
        let cache_key = match &sess.destination {
            SocksAddr::Domain(domain, _) => domain.clone(),
            SocksAddr::Ip(ip, _) => ip_to_string(ip),
            SocksAddr::Unspecified => {
                return RouteStep::Routed("Direct".to_owned());
            },
        };
        if let Some(target) = self.cached(cache_key.as_str()) {
            return RouteStep::Routed(target);
        }
        if let Some(i) = self.find_rule(sess) {
            let target = self.rules[i].target.clone();
            self.remember(cache_key, target.clone());
            return RouteStep::Routed(target);
        }
        if sess.destination.is_domain() && self.domain_resolve {
            return RouteStep::Resolve(cache_key);
        }
        let default_target = "trojan_out".to_owned();
        self.remember(cache_key, default_target.clone());
        RouteStep::Routed(default_target)
    }

    /// Decides the route of a connection whose domain was resolved to
    /// `ips`; `countries` is what the GeoIP databases say of the first of
    /// them.
    pub fn pick_route_resolved(
        &mut self,
        sess: &Session,
        ips: &[IpAddr],
        countries: Vec<GeoRecord>,
    ) -> (r: String)
        requires
            old(self)@.wf(),
        ensures
            final(self)@.wf(),
            (r@, final(self)@) == decide_resolved(old(self)@, *sess, ips@, countries),
    {
        let cache_key = match &sess.destination {
            SocksAddr::Domain(domain, _) => domain.clone(),
            SocksAddr::Ip(ip, _) => ip_to_string(ip),
            SocksAddr::Unspecified => {
                return "Direct".to_owned();
            },
        };
        if let Some(target) = self.cached(cache_key.as_str()) {
            return target;
        }
        if ips.len() > 0 {
            let new_sess = Session {
                network: sess.network,
                destination: SocksAddr::Ip(ips[0], sess.destination.port()),
                inbound_tag: sess.inbound_tag.clone(),
                countries,
            };
            assert(new_sess == derived(*sess, ips@[0], countries));
            if let Some(i) = self.find_rule(&new_sess) {
                let target = self.rules[i].target.clone();
                self.remember(cache_key, target.clone());
                return target;
            }
        }
        let default_target = "trojan_out".to_owned();
        self.remember(cache_key, default_target.clone());
        default_target
    }
}

/// Rules that were loaded are well formed.
pub proof fn lemma_loaded_wf(
    built: Seq<Rule>,
    cfgs: Seq<RuleConfig>,
    loaded: Seq<Seq<char>>,
    table: Option<Seq<u128>>,
)
    requires
        loaded_as(built, cfgs, loaded, table),
    ensures
        forall|i: int| 0 <= i < built.len() ==> matcher_wf((#[trigger] built[i]).condition),
    decreases cfgs.len(),
{
    if cfgs.len() > 0 {
        if rule_kept(cfgs.last(), loaded, table) {
            lemma_loaded_wf(built.drop_last(), cfgs.drop_last(), loaded, table);
            assert forall|i: int| 0 <= i < built.len() implies matcher_wf(
                (#[trigger] built[i]).condition,
            ) by {
                if i < built.len() - 1 {
                    assert(built.drop_last()[i] == built[i]);
                }
            }
        } else {
            lemma_loaded_wf(built, cfgs.drop_last(), loaded, table);
        }
    }
}

} // verus!
