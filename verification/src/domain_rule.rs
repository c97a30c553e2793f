//! The built-in domain classifier: a sorted table of 128-bit keys, one for
//! each listed registrable domain, with the `.cn` suffix always listed and
//! a fixed set of country suffixes always left out.

use vstd::bytes::{spec_u128_from_le_bytes, u128_from_le_bytes};
use vstd::prelude::*;
use vstd::slice::slice_subrange;
use vstd::string::StringSliceAdditionalSpecFns;
use crate::text::{
    chars_of, dotted, ends_with, is_listed, join_with_dot, labels, listed, split_labels,
    starts_with, str_views, string_of, views,
};

verus! {

/// Two-label suffixes under which the label before them names the
/// registrable domain.
pub open spec fn special_suffixes() -> Seq<Seq<char>> {
    seq![
        "com.cn"@,
        "net.cn"@,
        "org.cn"@,
        "gov.cn"@,
        "edu.cn"@,
        "mil.cn"@,
        "ac.cn"@,
        "ah.cn"@,
        "bj.cn"@,
        "sh.cn"@,
        "tj.cn"@,
        "hz.cn"@,
        "co.uk"@,
        "co.jp"@,
    ]
}

/// Top-level domains under which the label before them names the
/// registrable domain.
pub open spec fn common_suffixes() -> Seq<Seq<char>> {
    seq![
        "cn"@,
        "com"@,
        "net"@,
        "org"@,
        "edu"@,
        "gov"@,
        "mil"@,
        "biz"@,
        "info"@,
        "pro"@,
        "name"@,
        "xyz"@,
    ]
}

/// Country suffixes whose domains never match.
pub open spec fn excluded_country_tlds() -> Seq<Seq<char>> {
    seq![
        ".hk"@,
        ".tw"@,
        ".sg"@,
        ".jp"@,
        ".kr"@,
        ".in"@,
        ".th"@,
        ".vn"@,
        ".my"@,
        ".id"@,
        ".io"@,
        ".uk"@,
        ".de"@,
        ".fr"@,
        ".it"@,
        ".es"@,
        ".nl"@,
        ".ru"@,
        ".us"@,
        ".ca"@,
        ".mx"@,
        ".br"@,
        ".au"@,
        ".nz"@,
    ]
}

/// `domain` without a leading `www.`.
pub open spec fn strip_www(domain: Seq<char>) -> Seq<char> {
    if "www."@.is_prefix_of(domain) {
        domain.subrange("www."@.len() as int, domain.len() as int)
    } else {
        domain
    }
}

/// The registrable part of `domain`: after a leading `www.` is dropped,
/// the last three labels under a special two-label suffix, the last two
/// under a common top-level domain, and the whole name otherwise.
pub open spec fn registrable(domain: Seq<char>) -> Seq<char> {
    let d = strip_www(domain);
    let parts = labels(d);
    let n = parts.len() as int;
    if n < 2 {
        d
    } else if n >= 3 && listed(special_suffixes(), dotted(parts[n - 2], parts[n - 1])) {
        if n == 3 {
            d
        } else {
            dotted(parts[n - 3], dotted(parts[n - 2], parts[n - 1]))
        }
    } else if listed(common_suffixes(), parts[n - 1]) {
        if n == 2 {
            d
        } else {
            dotted(parts[n - 2], parts[n - 1])
        }
    } else {
        d
    }
}

/// The sixteen bytes that a name is keyed by: its last sixteen bytes, or
/// all of them followed by zeros where it has fewer.
pub open spec fn key_bytes(name: Seq<u8>) -> Seq<u8> {
    let len = if name.len() < 16 {
        name.len() as int
    } else {
        16
    };
    Seq::new(
        16,
        |i: int|
            if i < len {
                name[name.len() - len + i]
            } else {
                0u8
            },
    )
}

/// The key of `domain`: the bytes of its registrable part read as a
/// little-endian number; 0 for an empty name.
pub open spec fn domain_key(domain: Seq<char>) -> u128 {
    let name = vstd::utf8::encode_utf8(registrable(domain));
    if name.len() == 0 {
        0
    } else {
        spec_u128_from_le_bytes(key_bytes(name))
    }
}

/// Whether `domain` ends with one of the excluded country suffixes.
pub open spec fn excluded(domain: Seq<char>) -> bool {
    exists|i: int|
        0 <= i < excluded_country_tlds().len() && (#[trigger] excluded_country_tlds()[i]).is_suffix_of(
            domain,
        )
}

/// Whether a table of keys matches `domain`: the domain ends with no
/// excluded country suffix, and it ends with `.cn` or the table lists its
/// key.
pub open spec fn matched(table: Seq<u128>, domain: Seq<char>) -> bool {
    !excluded(domain) && (".cn"@.is_suffix_of(domain) || table.contains(domain_key(domain)))
}

/// Ascending order.
pub open spec fn sorted(keys: Seq<u128>) -> bool {
    forall|i: int, j: int| 0 <= i <= j < keys.len() ==> keys[i] <= keys[j]
}

/// The keys that a table in wire form lists: one for every sixteen bytes,
/// little-endian.
pub open spec fn table_keys(data: Seq<u8>) -> Seq<u128> {
    Seq::new(
        data.len() / 16,
        |i: int| spec_u128_from_le_bytes(data.subrange(16 * i, 16 * i + 16)),
    )
}

/// Why a table in wire form is refused.
#[derive(Clone, Copy, Debug, PartialEq, Eq, Structural)]
pub enum DomainRuleError {
    /// The table holds no byte.
    Empty,
    /// The table's length, given here, is no multiple of 16.
    BadLength(usize),
}

/// The classifier.
pub struct DomainRule {
    binary_domains: Vec<u128>,
}

impl View for DomainRule {
    type V = Seq<u128>;

    /// The listed keys, in the order they are stored.
    closed spec fn view(&self) -> Seq<u128> {
        self.binary_domains@
    }
}

fn special_suffix_list() -> (list: Vec<&'static str>)
    ensures
        str_views(list@) == special_suffixes(),
{
    let list = vec![
        "com.cn",
        "net.cn",
        "org.cn",
        "gov.cn",
        "edu.cn",
        "mil.cn",
        "ac.cn",
        "ah.cn",
        "bj.cn",
        "sh.cn",
        "tj.cn",
        "hz.cn",
        "co.uk",
        "co.jp",
    ];
    assert(str_views(list@) =~= special_suffixes());
    list
}

fn common_suffix_list() -> (list: Vec<&'static str>)
    ensures
        str_views(list@) == common_suffixes(),
{
    let list = vec![
        "cn",
        "com",
        "net",
        "org",
        "edu",
        "gov",
        "mil",
        "biz",
        "info",
        "pro",
        "name",
        "xyz",
    ];
    assert(str_views(list@) =~= common_suffixes());
    list
}

fn excluded_tld_list() -> (list: Vec<&'static str>)
    ensures
        str_views(list@) == excluded_country_tlds(),
{
    let list = vec![
        ".hk",
        ".tw",
        ".sg",
        ".jp",
        ".kr",
        ".in",
        ".th",
        ".vn",
        ".my",
        ".id",
        ".io",
        ".uk",
        ".de",
        ".fr",
        ".it",
        ".es",
        ".nl",
        ".ru",
        ".us",
        ".ca",
        ".mx",
        ".br",
        ".au",
        ".nz",
    ];
    assert(str_views(list@) =~= excluded_country_tlds());
    list
}

/// The characters of `s` from position `from` on.
fn tail_of(s: &Vec<char>, from: usize) -> (out: Vec<char>)
    requires
        from <= s.len(),
    ensures
        out@ == s@.subrange(from as int, s.len() as int),
{
    let mut out: Vec<char> = Vec::new();
    let mut i: usize = from;
    while i < s.len()
        invariant
            from <= i <= s.len(),
            out@ == s@.subrange(from as int, i as int),
        decreases s.len() - i,
    {
        out.push(s[i]);
        assert(s@.subrange(from as int, i as int).push(s@[i as int]) =~= s@.subrange(
            from as int,
            i + 1,
        ));
        i += 1;
    }
    out
}

/// Sorts with std's `sort_unstable` for slices. Trusted: afterwards the
/// vector is in ascending order and holds the same keys, each as often as
/// before.
#[verifier::external_body]
fn sort_keys(keys: &mut Vec<u128>)
    ensures
        sorted(final(keys)@),
        final(keys)@.to_multiset() == old(keys)@.to_multiset(),
{
    keys.sort_unstable();
}

impl DomainRule {
    /// The table is in ascending order.
    pub open spec fn wf(&self) -> bool {
        sorted(self@)
    }

    /// The registrable part of `domain`.
    pub fn get_registrable_domain(domain: &str) -> (r: String)
        ensures
            r@ == registrable(domain@),
    {
        let whole = chars_of(domain);
        let prefix = chars_of("www.");
        let name = if starts_with(&whole, &prefix) {
            tail_of(&whole, prefix.len())
        } else {
            whole
        };
        let parts = split_labels(&name);
        let n = parts.len();
        if n < 2 {
            return string_of(&name);
        }
        assert(views(parts@)[n - 1] == parts@[n - 1]@ && views(parts@)[n - 2] == parts@[n - 2]@);
        if n >= 3 {
            assert(views(parts@)[n - 3] == parts@[n - 3]@);
            let possible_special = join_with_dot(&parts[n - 2], &parts[n - 1]);
            if is_listed(&special_suffix_list(), &possible_special) {
                return if n == 3 {
                    string_of(&name)
                } else {
                    string_of(&join_with_dot(&parts[n - 3], &possible_special))
                };
            }
        }
        if is_listed(&common_suffix_list(), &parts[n - 1]) {
            return if n == 2 {
                string_of(&name)
            } else {
                string_of(&join_with_dot(&parts[n - 2], &parts[n - 1]))
            };
        }
        string_of(&name)
    }

    /// The key under which `domain` is looked up.
    pub fn domain_to_u128(domain: &str) -> (key: u128)
        ensures
            key == domain_key(domain@),
    {
        let name = Self::get_registrable_domain(domain);
        let bytes = name.as_str().as_bytes();
        if bytes.len() == 0 {
            return 0;
        }
        let len: usize = if bytes.len() < 16 {
            bytes.len()
        } else {
            16
        };
        let skip: usize = bytes.len() - len;
        let mut buf: Vec<u8> = Vec::new();
        let mut i: usize = 0;
        while i < 16
            invariant
                i <= 16,
                len == (if bytes@.len() < 16 {
                    bytes@.len() as int
                } else {
                    16
                }),
                skip + len == bytes@.len(),
                bytes@.len() <= usize::MAX,
                buf@.len() == i,
                forall|k: int| 0 <= k < i ==> buf@[k] == key_bytes(bytes@)[k],
            decreases 16 - i,
        {
            if i < len {
                buf.push(bytes[skip + i]);
            } else {
                buf.push(0);
            }
            i += 1;
        }
        assert(buf@ =~= key_bytes(bytes@));
        u128_from_le_bytes(buf.as_slice())
    }

    /// Whether `domain` ends with an excluded country suffix.
    pub fn is_excluded_country_tld(domain: &str) -> (r: bool)
        ensures
            r == excluded(domain@),
    {
        let name = chars_of(domain);
        let tlds = excluded_tld_list();
        let mut i: usize = 0;
        while i < tlds.len()
            invariant
                i <= tlds.len(),
                name@ == domain@,
                str_views(tlds@) == excluded_country_tlds(),
                forall|j: int| 0 <= j < i ==> !(#[trigger] excluded_country_tlds()[j]).is_suffix_of(name@),
            decreases tlds.len() - i,
        {
            let tld = chars_of(tlds[i]);
            assert(str_views(tlds@)[i as int] == tld@);
            if ends_with(&name, &tld) {
                return true;
            }
            i += 1;
        }
        false
    }

    /// Reads a table in wire form: sixteen bytes for each key,
    /// little-endian. A table that is out of order is put in order.
    pub fn new(data: &[u8]) -> (r: Result<Self, DomainRuleError>)
        ensures
            match r {
                Ok(rule) => data@.len() > 0 && data@.len() % 16 == 0 && rule.wf()
                    && rule@.to_multiset() == table_keys(data@).to_multiset() && (sorted(
                    table_keys(data@),
                ) ==> rule@ == table_keys(data@)),
                Err(e) => e == (if data@.len() == 0 {
                    DomainRuleError::Empty
                } else {
                    DomainRuleError::BadLength(data.len())
                }) && (data@.len() == 0 || data@.len() % 16 != 0),
            },
    {
        if data.len() == 0 {
            return Err(DomainRuleError::Empty);
        }
        if data.len() % 16 != 0 {
            return Err(DomainRuleError::BadLength(data.len()));
        }
        let count: usize = data.len() / 16;
        assert(16 * count == data@.len());
        let mut keys: Vec<u128> = Vec::new();
        let mut i: usize = 0;
        while i < count
            invariant
                i <= count,
                16 * count == data@.len(),
                data@.len() <= usize::MAX,
                keys@.len() == i,
                forall|k: int| 0 <= k < i ==> keys@[k] == table_keys(data@)[k],
            decreases count - i,
        {
            let chunk = slice_subrange(data, 16 * i, 16 * i + 16);
            keys.push(u128_from_le_bytes(chunk));
            i += 1;
        }
        assert(keys@ =~= table_keys(data@));
        if !Self::is_sorted(&keys) {
            sort_keys(&mut keys);
        }
        Ok(DomainRule { binary_domains: keys })
    }

    /// Whether `keys` is in ascending order.
    fn is_sorted(keys: &Vec<u128>) -> (r: bool)
        ensures
            r == sorted(keys@),
    {
        if keys.len() < 2 {
            return true;
        }
        let mut i: usize = 1;
        while i < keys.len()
            invariant
                1 <= i <= keys.len(),
                forall|a: int, b: int| 0 <= a <= b < i ==> keys@[a] <= keys@[b],
            decreases keys.len() - i,
        {
            if keys[i - 1] > keys[i] {
                return false;
            }
            i += 1;
        }
        true
    }

    /// Whether the table lists `key`.
    fn lists(&self, key: u128) -> (r: bool)
        requires
            self.wf(),
        ensures
            r == self@.contains(key),
    {
        let mut lo: usize = 0;
        let mut hi: usize = self.binary_domains.len();
        while lo < hi
            invariant
                lo <= hi <= self.binary_domains.len(),
                sorted(self.binary_domains@),
                forall|k: int| 0 <= k < lo ==> self.binary_domains@[k] < key,
                forall|k: int| hi <= k < self.binary_domains.len() ==> self.binary_domains@[k] > key,
            decreases hi - lo,
        {
            let mid: usize = lo + (hi - lo) / 2;
            let at = self.binary_domains[mid];
            if at == key {
                return true;
            } else if at < key {
                lo = mid + 1;
            } else {
                hi = mid;
            }
        }
        false
    }

    /// Whether the classifier matches `domain`.
    pub fn is_match(&self, domain: &str) -> (r: bool)
        requires
            self.wf(),
        ensures
            r == matched(self@, domain@),
    {
        if Self::is_excluded_country_tld(domain) {
            return false;
        }
        let name = chars_of(domain);
        let cn = chars_of(".cn");
        if ends_with(&name, &cn) {
            return true;
        }
        let key = Self::domain_to_u128(domain);
        self.lists(key)
    }
}

} // verus!
