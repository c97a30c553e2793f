//! The fake-DNS allocator: hands out addresses of a private range to
//! domains, remembers which domain holds which address, and recycles the
//! range round-robin.

use std::collections::HashMap;
use vstd::hash_map::StringHashMap;
use vstd::prelude::*;
use vstd::string::StrSliceExecFns;
use crate::dns::{
    encoded_response, read_request, DnsAnswer, DnsAnswerView, DnsQuestion, DnsQuestionView,
    DnsRequest, DnsRequestView, DnsResponse, DnsResponseView, CLASS_IN, OP_QUERY, RCODE_NO_ERROR,
    TYPE_A, TYPE_AAAA, TYPE_HTTPS,
};
use crate::net::{ip_to_u32, ipv4_of, lemma_ipv4_round_trip, u32_to_ip, IpAddr, Ipv4Addr};
use crate::text::{chars_of, contains, has_substring};

verus! {

broadcast use vstd::std_specs::hash::group_hash_axioms;

/// How the filter list is read.
#[derive(Clone, Copy, Debug, PartialEq, Eq, Structural)]
pub enum FakeDnsMode {
    /// Only domains that a filter matches get a fake address.
    Include,
    /// Domains that a filter matches get none.
    Exclude,
}

/// Why no fake address or response came out.
#[derive(Clone, Copy, Debug, PartialEq, Eq, Structural)]
pub enum FakeDnsError {
    /// The request frames no plain query, or the decoder refuses it.
    Malformed,
    /// The request holds no question.
    NoQuestion,
    /// The question's class, by its code, is not Internet.
    UnsupportedClass(u16),
    /// The question's record type, by its code, is none of A, AAAA, HTTPS.
    UnsupportedType(u16),
    /// The filter policy turns the domain away.
    Rejected,
    /// No usable address lies within three steps of the cursor.
    Exhausted,
    /// The response could not be put into wire form.
    Unencodable,
}

/// First address of the default range, 198.18.0.0.
pub const DEFAULT_MIN_CURSOR: u32 = 0xC612_0000;

/// Last address of the default range, 198.18.255.255.
pub const DEFAULT_MAX_CURSOR: u32 = 0xC612_FFFF;

/// Time to live, in seconds, that answers advertise by default.
pub const DEFAULT_TTL: u32 = 1;

/// An address can be handed out unless its low byte is 0 or 255, which
/// would read as a network or broadcast address.
pub open spec fn usable(ip: u32) -> bool {
    ip % 256 != 0 && ip % 256 != 255
}

/// The address after `cursor` in the ring from `min` to `max`.
pub open spec fn step(cursor: u32, min: u32, max: u32) -> u32 {
    if cursor >= max {
        min
    } else {
        (cursor + 1) as u32
    }
}

/// The first usable address within three steps after `cursor`, if any.
pub open spec fn advance(cursor: u32, min: u32, max: u32) -> Option<u32> {
    let c1 = step(cursor, min, max);
    let c2 = step(c1, min, max);
    let c3 = step(c2, min, max);
    if usable(c1) {
        Some(c1)
    } else if usable(c2) {
        Some(c2)
    } else if usable(c3) {
        Some(c3)
    } else {
        None
    }
}

/// The first usable address among `min`, `min + 1`, `min + 2` that is no
/// greater than `max`, if any.
pub open spec fn first_usable(min: u32, max: u32) -> Option<u32> {
    if min <= max && usable(min) {
        Some(min)
    } else if min < max && usable((min + 1) as u32) {
        Some((min + 1) as u32)
    } else if min + 2 <= max && usable((min + 2) as u32) {
        Some((min + 2) as u32)
    } else {
        None
    }
}

/// A range in which the cursor can always move on: from every address of
/// the range a usable one lies within three steps. Reserved addresses
/// come in pairs, `x.255` and the `x+1.0` behind it, so three steps can
/// fall short only where the end of the range and its start, met in
/// turn, hold three reserved addresses together. That is ruled out where
/// the first or the last address is usable, or the second and the last
/// but one are.
pub open spec fn steady_range(min: u32, max: u32) -> bool {
    min <= max && (usable(min) || usable(max) || (min < max && usable((min + 1) as u32) && usable(
        (max - 1) as u32,
    )))
}

/// In a steady range the cursor can move on from every address, so no
/// allocation fails.
pub proof fn lemma_steady_range_advances(min: u32, max: u32, cursor: u32)
    requires
        steady_range(min, max),
        min <= cursor <= max,
    ensures
        advance(cursor, min, max) is Some,
{
    let c1 = step(cursor, min, max);
    let c2 = step(c1, min, max);
    let c3 = step(c2, min, max);
    if !usable(c1) && !usable(c2) && !usable(c3) {
        // Three reserved addresses in a row cannot be consecutive numbers.
        assert(c2 != c1 + 1 || c3 != c2 + 1);
    }
}

/// The default range, 198.18.0.0 - 198.18.255.255, is steady.
pub proof fn lemma_default_range_is_steady()
    ensures
        steady_range(DEFAULT_MIN_CURSOR, DEFAULT_MAX_CURSOR),
{
    assert(usable((DEFAULT_MIN_CURSOR + 1) as u32) && usable((DEFAULT_MAX_CURSOR - 1) as u32));
}

/// A filter entry matches a domain that contains it; the entry `*`
/// matches every domain.
pub open spec fn filter_matches(domain: Seq<char>, filter: Seq<char>) -> bool {
    has_substring(domain, filter) || filter == seq!['*']
}

/// Some filter matches the domain.
pub open spec fn any_filter_matches(domain: Seq<char>, filters: Seq<Seq<char>>) -> bool {
    exists|i: int| 0 <= i < filters.len() && filter_matches(domain, #[trigger] filters[i])
}

/// Whether the policy lets `domain` have a fake address.
pub open spec fn accepted(mode: FakeDnsMode, filters: Seq<Seq<char>>, domain: Seq<char>) -> bool {
    match mode {
        FakeDnsMode::Exclude => !any_filter_matches(domain, filters),
        FakeDnsMode::Include => any_filter_matches(domain, filters),
    }
}

/// What the allocator knows, as plain values.
pub struct FakeDnsView {
    /// The domain that holds each assigned address.
    pub by_ip: Map<u32, Seq<char>>,
    /// The address that each domain holds.
    pub by_domain: Map<Seq<char>, u32>,
    /// The address that the next allocation hands out.
    pub cursor: u32,
    /// First address of the range.
    pub min_cursor: u32,
    /// Last address of the range.
    pub max_cursor: u32,
    /// Time to live that answers advertise.
    pub ttl: u32,
    /// The filter entries, in the order they were added.
    pub filters: Seq<Seq<char>>,
    /// How the filter list is read.
    pub mode: FakeDnsMode,
}

impl FakeDnsView {
    /// The two maps are inverses of each other, every assigned address
    /// lies in the range, and the cursor is a usable address of the range.
    pub open spec fn wf(self) -> bool {
        &&& self.min_cursor <= self.cursor <= self.max_cursor
        &&& usable(self.cursor)
        &&& forall|ip: u32| #[trigger]
            self.by_ip.contains_key(ip) ==> self.min_cursor <= ip <= self.max_cursor
                && self.by_domain.contains_key(self.by_ip[ip]) && self.by_domain[self.by_ip[ip]] == ip
        &&& forall|d: Seq<char>| #[trigger]
            self.by_domain.contains_key(d) ==> self.by_ip.contains_key(self.by_domain[d])
                && self.by_ip[self.by_domain[d]] == d
    }

    /// Whether the policy lets `domain` have a fake address.
    pub open spec fn accepts(self, domain: Seq<char>) -> bool {
        accepted(self.mode, self.filters, domain)
    }

    /// Whether `ip` lies in the range.
    pub open spec fn in_range(self, ip: int) -> bool {
        self.min_cursor <= ip <= self.max_cursor
    }

    /// The state after `domain`, which holds no address yet, was given the
    /// address at the cursor and the cursor went on to `next`. A domain
    /// that held that address before loses it.
    pub open spec fn assign(self, domain: Seq<char>, next: u32) -> FakeDnsView {
        let freed = if self.by_ip.contains_key(self.cursor) {
            self.by_domain.remove(self.by_ip[self.cursor])
        } else {
            self.by_domain
        };
        FakeDnsView {
            by_ip: self.by_ip.insert(self.cursor, domain),
            by_domain: freed.insert(domain, self.cursor),
            cursor: next,
            ..self
        }
    }
}

/// The domain that a question asks for: its name without the dot of the
/// root that ends a fully qualified name.
pub open spec fn queried_domain(q: DnsQuestionView) -> Seq<char> {
    if q.fqdn && q.name.len() > 0 {
        q.name.drop_last()
    } else {
        q.name
    }
}

/// Why a request gets no response in state `v`, if it gets none: the
/// first of these that holds. It has no question; its first question is
/// not of class Internet; that question asks for a type other than A,
/// AAAA and HTTPS; the policy turns the domain away; the domain holds no
/// address and none can be allocated.
pub open spec fn rejection(v: FakeDnsView, req: DnsRequestView) -> Option<FakeDnsError> {
    if req.questions.len() == 0 {
        Some(FakeDnsError::NoQuestion)
    } else {
        let q = req.questions[0];
        let domain = queried_domain(q);
        if q.query_class != CLASS_IN {
            Some(FakeDnsError::UnsupportedClass(q.query_class))
        } else if q.query_type != TYPE_A && q.query_type != TYPE_AAAA && q.query_type != TYPE_HTTPS {
            Some(FakeDnsError::UnsupportedType(q.query_type))
        } else if !v.accepts(domain) {
            Some(FakeDnsError::Rejected)
        } else if !v.by_domain.contains_key(domain) && advance(v.cursor, v.min_cursor, v.max_cursor)
            is None {
            Some(FakeDnsError::Exhausted)
        } else {
            None
        }
    }
}

/// The address that `domain` has once it was asked for in state `v`: the
/// one it holds, or the one at the cursor.
pub open spec fn address_for(v: FakeDnsView, domain: Seq<char>) -> u32 {
    if v.by_domain.contains_key(domain) {
        v.by_domain[domain]
    } else {
        v.cursor
    }
}

/// The state after `domain` was asked for in state `v`: unchanged where
/// it holds an address, else with the address at the cursor assigned.
pub open spec fn state_after(v: FakeDnsView, domain: Seq<char>) -> FakeDnsView {
    if v.by_domain.contains_key(domain) {
        v
    } else {
        v.assign(domain, advance(v.cursor, v.min_cursor, v.max_cursor)->0)
    }
}

/// The response to a request that is not rejected in state `v`: a message
/// of the type Response with id and operation of the request, its two
/// flags where the operation is Query, no error, its first question, and
/// for a question of type A one answer of type A and class Internet with
/// the domain's address and the configured time to live.
pub open spec fn response_for(v: FakeDnsView, req: DnsRequestView) -> DnsResponseView {
    let q = req.questions[0];
    DnsResponseView {
        is_response: true,
        id: req.id,
        op_code: req.op_code,
        recursion_desired: req.op_code == OP_QUERY && req.recursion_desired,
        checking_disabled: req.op_code == OP_QUERY && req.checking_disabled,
        response_code: RCODE_NO_ERROR,
        question: q,
        answer: if q.query_type == TYPE_A {
            Some(
                DnsAnswerView {
                    rr_type: TYPE_A,
                    dns_class: CLASS_IN,
                    ttl: v.ttl,
                    address: ipv4_of(address_for(v, queried_domain(q))),
                },
            )
        } else {
            None
        },
    }
}

/// The domain that `q` asks for.
pub fn queried_name(q: &DnsQuestion) -> (domain: &str)
    ensures
        domain@ == queried_domain(q@),
{
    let name = q.name.as_str();
    let n = name.unicode_len();
    if q.fqdn && n > 0 {
        name.substring_char(0, n - 1)
    } else {
        name
    }
}

/// State of the allocator.
pub struct FakeDns {
    ip_to_domain: HashMap<u32, String>,
    domain_to_ip: StringHashMap<u32>,
    cursor: u32,
    min_cursor: u32,
    max_cursor: u32,
    ttl: u32,
    filters: Vec<String>,
    mode: FakeDnsMode,
}

impl View for FakeDns {
    type V = FakeDnsView;

    closed spec fn view(&self) -> FakeDnsView {
        FakeDnsView {
            by_ip: self.ip_to_domain@.map_values(|d: String| d@),
            by_domain: self.domain_to_ip@,
            cursor: self.cursor,
            min_cursor: self.min_cursor,
            max_cursor: self.max_cursor,
            ttl: self.ttl,
            filters: self.filters@.map_values(|f: String| f@),
            mode: self.mode,
        }
    }
}

/// Whether `ip` can be handed out, read off its last octet.
pub fn is_usable(ip: u32) -> (r: bool)
    ensures
        r == usable(ip),
{
    // avoid network and broadcast addresses
    match u32_to_ip(ip).d {
        0 | 255 => false,
        _ => true,
    }
}

/// Assigning the address at the cursor keeps the maps inverse.
pub proof fn lemma_assign_wf(v: FakeDnsView, domain: Seq<char>, next: u32)
    requires
        v.wf(),
        !v.by_domain.contains_key(domain),
        v.in_range(next as int),
        usable(next),
    ensures
        v.assign(domain, next).wf(),
{
    let w = v.assign(domain, next);
    assert forall|ip: u32| #[trigger] w.by_ip.contains_key(ip) implies w.min_cursor <= ip
        <= w.max_cursor && w.by_domain.contains_key(w.by_ip[ip]) && w.by_domain[w.by_ip[ip]]
        == ip by {
        if ip != v.cursor {
            assert(v.by_ip.contains_key(ip));
            let d = v.by_ip[ip];
            assert(v.by_domain.contains_key(d));
        }
    }
    assert forall|d: Seq<char>| #[trigger] w.by_domain.contains_key(d) implies w.by_ip.contains_key(
        w.by_domain[d],
    ) && w.by_ip[w.by_domain[d]] == d by {
        if d != domain {
            assert(v.by_domain.contains_key(d));
            let ip = v.by_domain[d];
            assert(v.by_ip.contains_key(ip));
        }
    }
}

/// An address that was just assigned leads to its domain and back; the
/// domain that held the address before holds none afterwards.
pub proof fn lemma_assign_round_trip(v: FakeDnsView, domain: Seq<char>, next: u32)
    requires
        v.wf(),
        !v.by_domain.contains_key(domain),
    ensures
        v.assign(domain, next).by_ip.contains_key(v.cursor),
        v.assign(domain, next).by_ip[v.cursor] == domain,
        v.assign(domain, next).by_domain.contains_key(domain),
        v.assign(domain, next).by_domain[domain] == v.cursor,
        v.by_ip.contains_key(v.cursor) ==> !v.assign(domain, next).by_domain.contains_key(
            v.by_ip[v.cursor],
        ),
{
}

/// Every assigned address lies in the range, and so counts as fake.
pub proof fn lemma_assigned_in_range(v: FakeDnsView, ip: u32)
    requires
        v.wf(),
        v.by_ip.contains_key(ip),
    ensures
        v.in_range(ip as int),
{
}

/// The two modes answer every question in opposite ways.
pub proof fn lemma_modes_are_opposite(filters: Seq<Seq<char>>, domain: Seq<char>)
    ensures
        accepted(FakeDnsMode::Include, filters, domain) == !accepted(
            FakeDnsMode::Exclude,
            filters,
            domain,
        ),
{
}

/// With the filter `*` alone, excluding turns every domain away and
/// including lets every domain in.
pub proof fn lemma_wildcard_matches_all(domain: Seq<char>)
    ensures
        !accepted(FakeDnsMode::Exclude, seq![seq!['*']], domain),
        accepted(FakeDnsMode::Include, seq![seq!['*']], domain),
{
    let filters = seq![seq!['*']];
    assert(filter_matches(domain, filters[0]));
}

impl FakeDns {
    /// An allocator over 198.18.0.0 - 198.18.255.255 with no filter and
    /// no mapping. Its first address is the first usable one of the range.
    pub fn new(mode: FakeDnsMode) -> (s: Self)
        ensures
            s@.wf(),
            s@ == (FakeDnsView {
                by_ip: Map::empty(),
                by_domain: Map::empty(),
                cursor: (DEFAULT_MIN_CURSOR + 1) as u32,
                min_cursor: DEFAULT_MIN_CURSOR,
                max_cursor: DEFAULT_MAX_CURSOR,
                ttl: DEFAULT_TTL,
                filters: Seq::empty(),
                mode,
            }),
    {
        let s = FakeDns {
            ip_to_domain: HashMap::new(),
            domain_to_ip: StringHashMap::new(),
            cursor: DEFAULT_MIN_CURSOR + 1,
            min_cursor: DEFAULT_MIN_CURSOR,
            max_cursor: DEFAULT_MAX_CURSOR,
            ttl: DEFAULT_TTL,
            filters: Vec::new(),
            mode,
        };
        assert(s@.by_ip =~= Map::empty());
        assert(s@.filters =~= Seq::empty());
        s
    }

    /// An allocator over `min_cursor ..= max_cursor` whose answers
    /// advertise `ttl`, or nothing where the range starts with no usable
    /// address. Allocation never fails in a range that is steady; in
    /// another range it fails where the cursor cannot move on.
    pub fn with_range(mode: FakeDnsMode, min_cursor: u32, max_cursor: u32, ttl: u32) -> (r: Option<
        Self,
    >)
        ensures
            match first_usable(min_cursor, max_cursor) {
                Some(c) => r is Some && r->0@.wf() && r->0@ == (FakeDnsView {
                    by_ip: Map::empty(),
                    by_domain: Map::empty(),
                    cursor: c,
                    min_cursor,
                    max_cursor,
                    ttl,
                    filters: Seq::empty(),
                    mode,
                }),
                None => r is None,
            },
    {
        if min_cursor > max_cursor {
            return None;
        }
        let cursor = if is_usable(min_cursor) {
            min_cursor
        } else if min_cursor < max_cursor && is_usable(min_cursor + 1) {
            min_cursor + 1
        } else if max_cursor - min_cursor >= 2 && is_usable(min_cursor + 2) {
            min_cursor + 2
        } else {
            return None;
        };
        let s = FakeDns {
            ip_to_domain: HashMap::new(),
            domain_to_ip: StringHashMap::new(),
            cursor,
            min_cursor,
            max_cursor,
            ttl,
            filters: Vec::new(),
            mode,
        };
        assert(s@.by_ip =~= Map::empty());
        assert(s@.filters =~= Seq::empty());
        Some(s)
    }

    /// Appends a filter entry.
    pub fn add_filter(&mut self, filter: String)
        ensures
            final(self)@ == (FakeDnsView { filters: old(self)@.filters.push(filter@), ..old(self)@ }),
            old(self)@.wf() ==> final(self)@.wf(),
    {
        self.filters.push(filter);
        assert(final(self)@.filters =~= old(self)@.filters.push(filter@));
    }

    /// The domain that holds `ip`, if `ip` is an IPv4 address that is
    /// assigned.
    pub fn query_domain(&self, ip: &IpAddr) -> (r: Option<String>)
        ensures
            match ip {
                IpAddr::V4(a) => if self@.by_ip.contains_key(a.value() as u32) {
                    r is Some && r->0@ == self@.by_ip[a.value() as u32]
                } else {
                    r is None
                },
                IpAddr::V6(_) => r is None,
            },
    {
        let ip = match ip {
            IpAddr::V4(ip) => ip,
            _ => {
                return None;
            },
        };
        let n = ip_to_u32(ip);
        match self.ip_to_domain.get(&n) {
            Some(d) => Some(d.clone()),
            None => None,
        }
    }

    /// The fake address that `domain` holds, if it holds one.
    pub fn query_fake_ip(&self, domain: &str) -> (r: Option<IpAddr>)
        ensures
            match r {
                Some(IpAddr::V4(a)) => self@.by_domain.contains_key(domain@) && a.value()
                    == self@.by_domain[domain@],
                Some(IpAddr::V6(_)) => false,
                None => !self@.by_domain.contains_key(domain@),
            },
    {
        match self.domain_to_ip.get(domain) {
            Some(v) => Some(IpAddr::V4(u32_to_ip(*v))),
            None => None,
        }
    }

    /// Whether `ip` lies in the range, assigned or not. No IPv6 address
    /// does.
    pub fn is_fake_ip(&self, ip: &IpAddr) -> (r: bool)
        ensures
            r == match ip {
                IpAddr::V4(a) => self@.in_range(a.value()),
                IpAddr::V6(_) => false,
            },
    {
        let ip = match ip {
            IpAddr::V4(ip) => ip,
            _ => {
                return false;
            },
        };
        let ip = ip_to_u32(ip);
        ip >= self.min_cursor && ip <= self.max_cursor
    }

    /// The address that the cursor moves to next: the first usable one
    /// within three steps round the range.
    fn next_cursor(&self) -> (r: Option<u32>)
        ensures
            r == advance(self@.cursor, self@.min_cursor, self@.max_cursor),
    {
        let mut c = self.cursor;
        let mut tries: u8 = 0;
        while tries < 3
            invariant
                tries <= 3,
                tries == 0 ==> c == self.cursor,
                tries >= 1 ==> !usable(step(self.cursor, self.min_cursor, self.max_cursor)),
                tries == 1 ==> c == step(self.cursor, self.min_cursor, self.max_cursor),
                tries >= 2 ==> !usable(
                    step(
                        step(self.cursor, self.min_cursor, self.max_cursor),
                        self.min_cursor,
                        self.max_cursor,
                    ),
                ),
                tries == 2 ==> c == step(
                    step(self.cursor, self.min_cursor, self.max_cursor),
                    self.min_cursor,
                    self.max_cursor,
                ),
                tries == 3 ==> !usable(
                    step(
                        step(
                            step(self.cursor, self.min_cursor, self.max_cursor),
                            self.min_cursor,
                            self.max_cursor,
                        ),
                        self.min_cursor,
                        self.max_cursor,
                    ),
                ),
            decreases 3 - tries,
        {
            c = if c >= self.max_cursor {
                self.min_cursor
            } else {
                c + 1
            };
            if is_usable(c) {
                return Some(c);
            }
            tries = tries + 1;
        }
        None
    }

    /// Moves the cursor to the next usable address, or leaves it where no
    /// such address lies within three steps.
    pub fn prepare_next_cursor(&mut self) -> (r: Result<(), FakeDnsError>)
        ensures
            match advance(old(self)@.cursor, old(self)@.min_cursor, old(self)@.max_cursor) {
                Some(c) => r is Ok && final(self)@ == (FakeDnsView { cursor: c, ..old(self)@ }),
                None => r == Err::<(), FakeDnsError>(FakeDnsError::Exhausted) && final(self)@ == old(
                    self,
                )@,
            },
            old(self)@.wf() ==> final(self)@.wf(),
    {
        match self.next_cursor() {
            Some(c) => {
                self.cursor = c;
                Ok(())
            },
            None => Err(FakeDnsError::Exhausted),
        }
    }

    /// Whether the filter policy lets `domain` have a fake address.
    pub fn accept(&self, domain: &str) -> (r: bool)
        ensures
            r == self@.accepts(domain@),
    {
        let name = chars_of(domain);
        let mut i: usize = 0;
        while i < self.filters.len()
            invariant
                i <= self.filters.len(),
                name@ == domain@,
                forall|j: int| 0 <= j < i ==> !filter_matches(domain@, #[trigger] self@.filters[j]),
            decreases self.filters.len() - i,
        {
            let f = chars_of(self.filters[i].as_str());
            assert(f@ == self@.filters[i as int]);
            if contains(&name, &f) || (f.len() == 1 && f[0] == '*') {
                assert(f@ =~= seq!['*'] || has_substring(domain@, f@));
                assert(filter_matches(domain@, self@.filters[i as int]));
                return match self.mode {
                    FakeDnsMode::Exclude => false,
                    FakeDnsMode::Include => true,
                };
            }
            assert(f@ != seq!['*']) by {
                if f@ == seq!['*'] {
                    assert(f@.len() == 1 && f@[0] == '*');
                }
            }
            i += 1;
        }
        match self.mode {
            FakeDnsMode::Exclude => true,
            FakeDnsMode::Include => false,
        }
    }

    /// Gives `domain`, which holds no address yet, the address at the
    /// cursor and moves the cursor on. A domain that held that address
    /// loses it. Where the cursor cannot move on, nothing changes.
    pub fn allocate_ip(&mut self, domain: &str) -> (r: Result<Ipv4Addr, FakeDnsError>)
        requires
            old(self)@.wf(),
            !old(self)@.by_domain.contains_key(domain@),
        ensures
            final(self)@.wf(),
            match advance(old(self)@.cursor, old(self)@.min_cursor, old(self)@.max_cursor) {
                Some(c) => r is Ok && r->Ok_0.value() == old(self)@.cursor && final(self)@ == old(
                    self,
                )@.assign(domain@, c),
                None => r == Err::<Ipv4Addr, FakeDnsError>(FakeDnsError::Exhausted) && final(self)@
                    == old(self)@,
            },
            steady_range(old(self)@.min_cursor, old(self)@.max_cursor) ==> r is Ok,
    {
        proof {
            if steady_range(self@.min_cursor, self@.max_cursor) {
                lemma_steady_range_advances(self@.min_cursor, self@.max_cursor, self@.cursor);
            }
        }
        let next = match self.next_cursor() {
            Some(c) => c,
            None => {
                return Err(FakeDnsError::Exhausted);
            },
        };
        let at = self.cursor;
        let ghost before = self@;
        if let Some(prev_domain) = self.ip_to_domain.insert(at, domain.to_owned()) {
            self.domain_to_ip.remove(prev_domain.as_str());
        }
        self.domain_to_ip.insert(domain.to_owned(), at);
        self.cursor = next;
        proof {
            assert(self@.by_ip =~= before.by_ip.insert(at, domain@));
            assert(self@ == before.assign(domain@, next));
            lemma_assign_wf(before, domain@, next);
        }
        Ok(u32_to_ip(at))
    }

    /// The fake address of `domain`: the one it holds, or a newly
    /// allocated one.
    pub fn obtain_ip(&mut self, domain: &str) -> (r: Result<Ipv4Addr, FakeDnsError>)
        requires
            old(self)@.wf(),
        ensures
            final(self)@.wf(),
            old(self)@.by_domain.contains_key(domain@) ==> r is Ok && r->Ok_0.value() == old(
                self,
            )@.by_domain[domain@] && final(self)@ == old(self)@,
            !old(self)@.by_domain.contains_key(domain@) ==> match advance(
                old(self)@.cursor,
                old(self)@.min_cursor,
                old(self)@.max_cursor,
            ) {
                Some(c) => r is Ok && r->Ok_0.value() == old(self)@.cursor && final(self)@ == old(
                    self,
                )@.assign(domain@, c),
                None => r == Err::<Ipv4Addr, FakeDnsError>(FakeDnsError::Exhausted) && final(self)@
                    == old(self)@,
            },
            steady_range(old(self)@.min_cursor, old(self)@.max_cursor) ==> r is Ok,
    {
        let held: Option<u32> = match self.domain_to_ip.get(domain) {
            Some(ip) => Some(*ip),
            None => None,
        };
        match held {
            Some(ip) => Ok(u32_to_ip(ip)),
            None => self.allocate_ip(domain),
        }
    }

    /// Answers a decoded request: checks it, finds or allocates the
    /// address of the domain it asks for, and builds the response. A
    /// request that is rejected changes nothing.
    pub fn respond(&mut self, req: &DnsRequest) -> (r: Result<DnsResponse, FakeDnsError>)
        requires
            old(self)@.wf(),
        ensures
            final(self)@.wf(),
            match rejection(old(self)@, req@) {
                Some(e) => r == Err::<DnsResponse, FakeDnsError>(e) && final(self)@ == old(self)@,
                None => r is Ok && r->Ok_0@ == response_for(old(self)@, req@) && final(self)@
                    == state_after(old(self)@, queried_domain(req@.questions[0])),
            },
    {
        if req.questions.len() == 0 {
            return Err(FakeDnsError::NoQuestion);
        }
        let query = &req.questions[0];
        assert(query@ == req@.questions[0]);
        if query.query_class != CLASS_IN {
            return Err(FakeDnsError::UnsupportedClass(query.query_class));
        }
        let t = query.query_type;
        if t != TYPE_A && t != TYPE_AAAA && t != TYPE_HTTPS {
            return Err(FakeDnsError::UnsupportedType(t));
        }
        let domain = queried_name(query);
        if !self.accept(domain) {
            return Err(FakeDnsError::Rejected);
        }
        let ip = match self.obtain_ip(domain) {
            Ok(ip) => ip,
            Err(e) => {
                return Err(e);
            },
        };
        proof {
            lemma_ipv4_round_trip(address_for(old(self)@, domain@), ip);
        }
        let echo = req.op_code == OP_QUERY;
        let answer = if t == TYPE_A {
            Some(DnsAnswer { ttl: self.ttl, address: ip })
        } else {
            None
        };
        Ok(
            DnsResponse {
                id: req.id,
                op_code: req.op_code,
                recursion_desired: echo && req.recursion_desired,
                checking_disabled: echo && req.checking_disabled,
                response_code: RCODE_NO_ERROR,
                question: query.duplicate(),
                answer,
            },
        )
    }

    /// Answers a DNS query in wire form with a response in wire form that
    /// carries the fake address of the queried domain.
    pub fn generate_fake_response(&mut self, request: &[u8]) -> (r: Result<Vec<u8>, FakeDnsError>)
        requires
            old(self)@.wf(),
        ensures
            final(self)@.wf(),
            match read_request(request@) {
                None => r == Err::<Vec<u8>, FakeDnsError>(FakeDnsError::Malformed) && final(self)@
                    == old(self)@,
                Some(req) => match rejection(old(self)@, req) {
                    Some(e) => r == Err::<Vec<u8>, FakeDnsError>(e) && final(self)@ == old(self)@,
                    None => final(self)@ == state_after(
                        old(self)@,
                        queried_domain(req.questions[0]),
                    ) && match encoded_response(response_for(old(self)@, req)) {
                        Some(bytes) => r is Ok && r->Ok_0@ == bytes,
                        None => r == Err::<Vec<u8>, FakeDnsError>(FakeDnsError::Unencodable),
                    },
                },
            },
    {
        let req = match DnsRequest::from_wire(request) {
            Some(req) => req,
            None => {
                return Err(FakeDnsError::Malformed);
            },
        };
        let resp = match self.respond(&req) {
            Ok(resp) => resp,
            Err(e) => {
                return Err(e);
            },
        };
        match resp.to_wire() {
            Some(bytes) => Ok(bytes),
            None => Err(FakeDnsError::Unencodable),
        }
    }
}

} // verus!
