//! Addresses and the connection descriptor that routing decides on.

use vstd::prelude::*;
use crate::text::string_of;

verus! {

/// An IPv4 address `a.b.c.d`, as its four octets from the most significant
/// down.
#[derive(Clone, Copy, Debug, PartialEq, Eq, Structural)]
pub struct Ipv4Addr {
    pub a: u8,
    pub b: u8,
    pub c: u8,
    pub d: u8,
}

/// An IPv6 address, as one 128-bit number in network order.
#[derive(Clone, Copy, Debug, PartialEq, Eq, Structural)]
pub struct Ipv6Addr {
    pub bits: u128,
}

/// An IP address of either family.
#[derive(Clone, Copy, Debug, PartialEq, Eq, Structural)]
pub enum IpAddr {
    V4(Ipv4Addr),
    V6(Ipv6Addr),
}

/// The address whose number is `n`.
pub open spec fn ipv4_of(n: u32) -> Ipv4Addr {
    Ipv4Addr {
        a: (n / 0x100_0000) as u8,
        b: (n / 0x1_0000 % 256) as u8,
        c: (n / 0x100 % 256) as u8,
        d: (n % 256) as u8,
    }
}

impl Ipv4Addr {
    /// The address `a.b.c.d`.
    pub fn new(a: u8, b: u8, c: u8, d: u8) -> (ip: Self)
        ensures
            ip == (Ipv4Addr { a, b, c, d }),
    {
        Ipv4Addr { a, b, c, d }
    }

    /// The four octets, most significant first.
    pub fn octets(&self) -> (o: [u8; 4])
        ensures
            o@ == seq![self.a, self.b, self.c, self.d],
    {
        let o = [self.a, self.b, self.c, self.d];
        assert(o@ =~= seq![self.a, self.b, self.c, self.d]);
        o
    }

    /// The number that the octets spell in network order.
    pub open spec fn value(&self) -> int {
        self.a * 0x100_0000 + self.b * 0x1_0000 + self.c * 0x100 + self.d
    }
}

/// The address whose number is `ip`.
pub fn u32_to_ip(ip: u32) -> (addr: Ipv4Addr)
    ensures
        addr == ipv4_of(ip),
        addr.value() == ip,
{
    let a = (ip >> 24) as u8;
    let b = ((ip >> 16) & 0xff) as u8;
    let c = ((ip >> 8) & 0xff) as u8;
    let d = (ip & 0xff) as u8;
    assert((ip >> 24) == ip / 0x100_0000 && ((ip >> 16) & 0xff) == ip / 0x1_0000 % 256 && ((ip >> 8)
        & 0xff) == ip / 0x100 % 256 && (ip & 0xff) == ip % 256 && ip / 0x100_0000 < 256)
        by (bit_vector);
    Ipv4Addr { a, b, c, d }
}

/// The number of the address `ip`.
pub fn ip_to_u32(ip: &Ipv4Addr) -> (n: u32)
    ensures
        n == ip.value(),
        ipv4_of(n) == *ip,
{
    let a = ip.a as u32;
    let b = ip.b as u32;
    let c = ip.c as u32;
    let d = ip.d as u32;
    let n = (a << 24) | (b << 16) | (c << 8) | d;
    assert(a < 256 && b < 256 && c < 256 && d < 256 && n == ((a << 24) | (b << 16) | (c << 8) | d)
        ==> n == a * 0x100_0000 + b * 0x1_0000 + c * 0x100 + d && n / 0x100_0000 == a && n
        / 0x1_0000 % 256 == b && n / 0x100 % 256 == c && n % 256 == d) by (bit_vector);
    n
}

/// Numbers and addresses correspond one to one.
pub proof fn lemma_ipv4_round_trip(n: u32, ip: Ipv4Addr)
    ensures
        ipv4_of(n).value() == n,
        0 <= ip.value() <= u32::MAX,
        ipv4_of(ip.value() as u32) == ip,
{
    assert((n / 0x100_0000) * 0x100_0000 + (n / 0x1_0000 % 256) * 0x1_0000 + (n / 0x100 % 256)
        * 0x100 + n % 256 == n && n / 0x100_0000 < 256) by (bit_vector);
    let a = ip.a as u32;
    let b = ip.b as u32;
    let c = ip.c as u32;
    let d = ip.d as u32;
    let m = (a * 0x100_0000 + b * 0x1_0000 + c * 0x100 + d) as u32;
    assert(a < 256 && b < 256 && c < 256 && d < 256 && m == a * 0x100_0000 + b * 0x1_0000 + c
        * 0x100 + d ==> m / 0x100_0000 == a && m / 0x1_0000 % 256 == b && m / 0x100 % 256 == c
        && m % 256 == d) by (bit_vector);
}

/// The character of a digit below sixteen: `0` to `9`, then `a` to `f`.
pub open spec fn digit_char(d: int) -> char {
    if d < 10 {
        ((d + 48) as u8) as char
    } else {
        ((d + 87) as u8) as char
    }
}

/// A number in decimal, without leading zeros.
pub open spec fn decimal(n: nat) -> Seq<char>
    decreases n,
{
    if n < 10 {
        seq![digit_char(n as int)]
    } else {
        decimal(n / 10).push(digit_char((n % 10) as int))
    }
}

/// A number in hexadecimal, in lower case and without leading zeros.
pub open spec fn hexadecimal(n: nat) -> Seq<char>
    decreases n,
{
    if n < 16 {
        seq![digit_char(n as int)]
    } else {
        hexadecimal(n / 16).push(digit_char((n % 16) as int))
    }
}

/// The sixteen-bit group `k` of an IPv6 address, counted from the most
/// significant.
pub open spec fn group(bits: u128, k: int) -> nat {
    ((bits as nat) / vstd::arithmetic::power2::pow2((16 * (7 - k)) as nat)) % 0x1_0000
}

/// The eight groups of an IPv6 address, most significant first.
pub open spec fn groups(bits: u128) -> Seq<u16> {
    Seq::new(8, |k: int| group(bits, k) as u16)
}

/// The groups from `start` on, `len` of them, are all zero.
pub open spec fn zero_run(g: Seq<u16>, start: int, len: int) -> bool {
    &&& 0 <= start
    &&& 0 <= len
    &&& start + len <= g.len()
    &&& forall|i: int| start <= i < start + len ==> g[i] == 0
}

/// The run of zero groups at `start` of length `len` is the longest one,
/// and the first of the longest.
pub open spec fn longest_zero_run(g: Seq<u16>, start: int, len: int) -> bool {
    &&& zero_run(g, start, len)
    &&& forall|s: int, l: int| #[trigger] zero_run(g, s, l) ==> l < len || (l == len && s >= start)
}

/// The groups in hexadecimal with colons between them.
pub open spec fn hex_join(g: Seq<u16>) -> Seq<char>
    decreases g.len(),
{
    if g.len() == 0 {
        Seq::empty()
    } else if g.len() == 1 {
        hexadecimal(g[0] as nat)
    } else {
        hex_join(g.drop_last()) + seq![':'] + hexadecimal(g.last() as nat)
    }
}

/// Four octets in decimal with dots between them.
pub open spec fn dotted_quad(a: u8, b: u8, c: u8, d: u8) -> Seq<char> {
    decimal(a as nat) + seq!['.'] + decimal(b as nat) + seq!['.'] + decimal(c as nat) + seq!['.']
        + decimal(d as nat)
}

/// Whether the groups spell an IPv4 address mapped into IPv6: five zero
/// groups, then `ffff`.
pub open spec fn ipv4_mapped(g: Seq<u16>) -> bool {
    g[0] == 0 && g[1] == 0 && g[2] == 0 && g[3] == 0 && g[4] == 0 && g[5] == 0xffff
}

/// The text of an IPv6 address in its canonical form: groups in lower-case
/// hexadecimal without leading zeros; the longest run of two or more zero
/// groups, the first of the longest, written as `::`; a mapped IPv4 address
/// written as `::ffff:` and its dotted quad.
pub open spec fn ipv6_text(g: Seq<u16>) -> Seq<char> {
    if ipv4_mapped(g) {
        seq![':', ':', 'f', 'f', 'f', 'f', ':'] + dotted_quad(
            (g[6] / 256) as u8,
            (g[6] % 256) as u8,
            (g[7] / 256) as u8,
            (g[7] % 256) as u8,
        )
    } else {
        let run = choose|run: (int, int)| longest_zero_run(g, run.0, run.1);
        if run.1 > 1 {
            hex_join(g.subrange(0, run.0)) + seq![':', ':'] + hex_join(
                g.subrange(run.0 + run.1, g.len() as int),
            )
        } else {
            hex_join(g)
        }
    }
}

/// The text of an address, which keys the route cache.
pub open spec fn ip_text(ip: IpAddr) -> Seq<char> {
    match ip {
        IpAddr::V4(a) => dotted_quad(a.a, a.b, a.c, a.d),
        IpAddr::V6(a) => ipv6_text(groups(a.bits)),
    }
}

/// The character of the digit `d`.
fn digit_of(d: u8) -> (c: char)
    requires
        d < 16,
    ensures
        c == digit_char(d as int),
{
    if d < 10 {
        (d + 48) as char
    } else {
        (d + 87) as char
    }
}

/// Appends `n` in decimal.
fn push_decimal(out: &mut Vec<char>, n: u8)
    ensures
        final(out)@ == old(out)@ + decimal(n as nat),
{
    reveal_with_fuel(decimal, 3);
    if n >= 100 {
        out.push(digit_of(n / 100));
    }
    if n >= 10 {
        out.push(digit_of(n / 10 % 10));
    }
    out.push(digit_of(n % 10));
    assert(final(out)@ =~= old(out)@ + decimal(n as nat));
}

/// Appends `n` in hexadecimal.
fn push_hex(out: &mut Vec<char>, n: u16)
    ensures
        final(out)@ == old(out)@ + hexadecimal(n as nat),
{
    reveal_with_fuel(hexadecimal, 4);
    if n >= 0x1000 {
        out.push(digit_of((n / 0x1000) as u8));
    }
    if n >= 0x100 {
        out.push(digit_of((n / 0x100 % 16) as u8));
    }
    if n >= 0x10 {
        out.push(digit_of((n / 0x10 % 16) as u8));
    }
    out.push(digit_of((n % 16) as u8));
    assert(final(out)@ =~= old(out)@ + hexadecimal(n as nat));
}

/// The group `k` of `bits`.
fn group_of(bits: u128, k: u8) -> (g: u16)
    requires
        k < 8,
    ensures
        g == group(bits, k as int),
{
    let shift: u128 = 16 * (7 - k) as u128;
    let g = ((bits >> shift) & 0xffff) as u16;
    proof {
        vstd::bits::lemma_u128_shr_is_div(bits, shift);
        assert((bits >> shift) & 0xffff == (bits >> shift) % 0x1_0000) by (bit_vector);
    }
    g
}

/// Appends the groups `g[from..to]` in hexadecimal with colons between
/// them.
fn push_groups(out: &mut Vec<char>, g: &Vec<u16>, from: usize, to: usize)
    requires
        from <= to <= g.len(),
    ensures
        final(out)@ == old(out)@ + hex_join(g@.subrange(from as int, to as int)),
{
    let mut i: usize = from;
    assert(g@.subrange(from as int, from as int) =~= Seq::<u16>::empty());
    assert(out@ =~= old(out)@ + hex_join(g@.subrange(from as int, i as int)));
    while i < to
        invariant
            from <= i <= to <= g.len(),
            out@ == old(out)@ + hex_join(g@.subrange(from as int, i as int)),
        decreases to - i,
    {
        let ghost done = g@.subrange(from as int, i as int);
        let ghost more = g@.subrange(from as int, i + 1);
        let ghost before = out@;
        assert(more.drop_last() =~= done);
        assert(more.last() == g@[i as int]);
        if i > from {
            out.push(':');
        }
        push_hex(out, g[i]);
        assert(out@ =~= old(out)@ + hex_join(more)) by {
            if i > from {
                assert(out@ =~= before + seq![':'] + hexadecimal(g@[i as int] as nat));
            } else {
                assert(done.len() == 0);
                assert(hex_join(done) =~= Seq::<char>::empty());
            }
        }
        i += 1;
    }
}

/// The longest run of zero groups, the first of the longest, as its start
/// and its length.
fn find_zero_run(g: &Vec<u16>) -> (run: (usize, usize))
    requires
        g.len() == 8,
    ensures
        longest_zero_run(g@, run.0 as int, run.1 as int),
{
    let mut best_start: usize = 0;
    let mut best_len: usize = 0;
    let mut cur_start: usize = 0;
    let mut cur_len: usize = 0;
    let mut i: usize = 0;
    while i < g.len()
        invariant
            i <= g.len() == 8,
            cur_len <= i,
            cur_len > 0 ==> cur_start + cur_len == i,
            cur_len == 0 ==> i == 0 || g@[i - 1] != 0,
            cur_len > 0 ==> zero_run(g@, cur_start as int, cur_len as int) && (cur_start == 0
                || g@[cur_start - 1] != 0),
            zero_run(g@, best_start as int, best_len as int),
            best_start + best_len <= i,
            cur_len <= best_len,
            best_len == 0 ==> best_start == 0,
            cur_len == best_len && cur_len > 0 ==> best_start <= cur_start,
            forall|s: int, l: int| #[trigger]
                zero_run(g@, s, l) && s + l <= i ==> l < best_len || (l == best_len && s
                    >= best_start),
        decreases g.len() - i,
    {
        if g[i] == 0 {
            if cur_len == 0 {
                cur_start = i;
            }
            cur_len += 1;
            if cur_len > best_len {
                best_start = cur_start;
                best_len = cur_len;
            }
        } else {
            cur_len = 0;
        }
        proof {
            assert forall|s: int, l: int| #[trigger]
                zero_run(g@, s, l) && s + l <= i + 1 implies l < best_len || (l == best_len && s
                >= best_start) by {
                if s + l == i + 1 && l > 0 {
                    // The run ends at `i`: it lies within the current run.
                    assert(g@[i as int] == 0);
                    if s < cur_start {
                        assert(g@[cur_start - 1] == 0);
                    }
                } else if l > 0 {
                    assert(zero_run(g@, s, l) && s + l <= i);
                } else {
                    assert(zero_run(g@, s, 0));
                }
            }
        }
        i += 1;
    }
    (best_start, best_len)
}

/// The text of `ip`.
pub fn ip_to_string(ip: &IpAddr) -> (s: String)
    ensures
        s@ == ip_text(*ip),
{
    let mut out: Vec<char> = Vec::new();
    match ip {
        IpAddr::V4(a) => {
            push_quad(&mut out, a.a, a.b, a.c, a.d);
        },
        IpAddr::V6(a) => {
            let mut g: Vec<u16> = Vec::new();
            let mut k: u8 = 0;
            while k < 8
                invariant
                    k <= 8,
                    g@.len() == k,
                    forall|j: int| 0 <= j < k ==> g@[j] == groups(a.bits)[j],
                decreases 8 - k,
            {
                g.push(group_of(a.bits, k));
                k += 1;
            }
            assert(g@ =~= groups(a.bits));
            if g[0] == 0 && g[1] == 0 && g[2] == 0 && g[3] == 0 && g[4] == 0 && g[5] == 0xffff {
                out.push(':');
                out.push(':');
                out.push('f');
                out.push('f');
                out.push('f');
                out.push('f');
                out.push(':');
                assert(out@ =~= seq![':', ':', 'f', 'f', 'f', 'f', ':']);
                push_quad(
                    &mut out,
                    (g[6] / 256) as u8,
                    (g[6] % 256) as u8,
                    (g[7] / 256) as u8,
                    (g[7] % 256) as u8,
                );
            } else {
                let (start, len) = find_zero_run(&g);
                proof {
                    let run = choose|run: (int, int)| longest_zero_run(g@, run.0, run.1);
                    assert(longest_zero_run(g@, (start as int, len as int).0, (start as int, len as int).1));
                    assert(zero_run(g@, run.0, run.1));
                    assert(zero_run(g@, start as int, len as int));
                    assert(run == (start as int, len as int));
                }
                if len > 1 {
                    push_groups(&mut out, &g, 0, start);
                    out.push(':');
                    out.push(':');
                    let ghost head = out@;
                    push_groups(&mut out, &g, start + len, 8);
                    assert(head =~= hex_join(g@.subrange(0, start as int)) + seq![':', ':']);
                } else {
                    push_groups(&mut out, &g, 0, 8);
                    assert(g@.subrange(0, 8) =~= g@);
                }
            }
        },
    }
    string_of(&out)
}

/// Appends four octets in decimal with dots between them.
fn push_quad(out: &mut Vec<char>, a: u8, b: u8, c: u8, d: u8)
    ensures
        final(out)@ == old(out)@ + dotted_quad(a, b, c, d),
{
    push_decimal(out, a);
    out.push('.');
    push_decimal(out, b);
    out.push('.');
    push_decimal(out, c);
    out.push('.');
    push_decimal(out, d);
    assert(out@ =~= old(out)@ + dotted_quad(a, b, c, d));
}

/// Transport of a connection.
#[derive(Clone, Copy, Debug, PartialEq, Eq, Structural)]
pub enum Network {
    Tcp,
    Udp,
}

/// Where a connection wants to go.
#[derive(Clone, Debug, PartialEq, Eq)]
pub enum SocksAddr {
    /// A literal address and a port.
    Ip(IpAddr, u16),
    /// A domain name and a port.
    Domain(String, u16),
    /// Neither a domain nor an address: a malformed destination.
    Unspecified,
}

impl SocksAddr {
    pub open spec fn is_domain_spec(&self) -> bool {
        self is Domain
    }

    /// Whether the destination is a domain name.
    #[verifier::when_used_as_spec(is_domain_spec)]
    pub fn is_domain(&self) -> (r: bool)
        ensures
            r == (self is Domain),
    {
        match self {
            SocksAddr::Domain(_, _) => true,
            _ => false,
        }
    }

    /// The domain name, for a domain destination.
    pub fn domain(&self) -> (r: Option<&String>)
        ensures
            match self {
                SocksAddr::Domain(d, _) => r == Some(d),
                _ => r is None,
            },
    {
        match self {
            SocksAddr::Domain(d, _) => Some(d),
            _ => None,
        }
    }

    /// The address, for an address destination.
    pub fn ip(&self) -> (r: Option<IpAddr>)
        ensures
            match self {
                SocksAddr::Ip(a, _) => r == Some(*a),
                _ => r is None,
            },
    {
        match self {
            SocksAddr::Ip(a, _) => Some(*a),
            _ => None,
        }
    }

    pub open spec fn port_spec(&self) -> u16 {
        match self {
            SocksAddr::Ip(_, p) => *p,
            SocksAddr::Domain(_, p) => *p,
            SocksAddr::Unspecified => 0,
        }
    }

    /// The destination port; 0 for a malformed destination.
    #[verifier::when_used_as_spec(port_spec)]
    pub fn port(&self) -> (r: u16)
        ensures
            r == self.port_spec(),
    {
        match self {
            SocksAddr::Ip(_, p) => *p,
            SocksAddr::Domain(_, p) => *p,
            SocksAddr::Unspecified => 0,
        }
    }
}

/// What a GeoIP database said of the destination address of a connection.
#[derive(Clone, Debug, PartialEq, Eq)]
pub struct GeoRecord {
    /// The database that was asked, by its file name.
    pub database: String,
    /// The ISO code of the country that it gave.
    pub iso_code: String,
}

/// The connection descriptor: what a routing decision reads.
#[derive(Clone, Debug, PartialEq, Eq)]
pub struct Session {
    pub network: Network,
    pub destination: SocksAddr,
    /// Tag of the listener that accepted the connection.
    pub inbound_tag: String,
    /// Countries of the destination address, one record for each database
    /// that knows it. A failed lookup leaves no record.
    pub countries: Vec<GeoRecord>,
}

impl Default for Network {
    /// TCP.
    fn default() -> (n: Self)
        ensures
            n == Network::Tcp,
    {
        Network::Tcp
    }
}

impl Default for Session {
    /// A TCP connection with a malformed destination, no inbound tag and
    /// no GeoIP record.
    fn default() -> (s: Self)
        ensures
            s.network == Network::Tcp,
            s.destination == SocksAddr::Unspecified,
            s.inbound_tag@ == Seq::<char>::empty(),
            s.countries@ == Seq::<GeoRecord>::empty(),
    {
        Session {
            network: Network::Tcp,
            destination: SocksAddr::Unspecified,
            inbound_tag: String::new(),
            countries: Vec::new(),
        }
    }
}

} // verus!
