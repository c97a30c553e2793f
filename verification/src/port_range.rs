//! Port ranges in the form `start-end`.

use vstd::prelude::*;
use crate::text::{chars_of, string_of};

verus! {

/// The number that a run of decimal digits spells.
pub open spec fn digits_value(s: Seq<char>) -> nat
    decreases s.len(),
{
    if s.len() == 0 {
        0
    } else {
        digits_value(s.drop_last()) * 10 + (s.last() as nat - '0' as nat) as nat
    }
}

/// Every character is a decimal digit.
pub open spec fn all_digits(s: Seq<char>) -> bool {
    forall|i: int| 0 <= i < s.len() ==> '0' <= #[trigger] s[i] <= '9'
}

/// The port that a text spells: an optional `+`, then one or more decimal
/// digits whose number is at most 65535.
pub open spec fn parsed_port(s: Seq<char>) -> Option<u16> {
    let digits = if s.len() > 0 && s[0] == '+' {
        s.subrange(1, s.len() as int)
    } else {
        s
    };
    if digits.len() > 0 && all_digits(digits) && digits_value(digits) <= 65535 {
        Some(digits_value(digits) as u16)
    } else {
        None
    }
}

/// Position of the first `'-'` in `s`, or the length of `s` where it
/// holds none.
pub open spec fn first_dash(s: Seq<char>) -> int
    decreases s.len(),
{
    if s.len() == 0 {
        0
    } else if s[0] == '-' {
        0
    } else {
        1 + first_dash(s.drop_first())
    }
}

/// The range that a text spells: two ports with one `-` between them, the
/// first no greater than the second.
pub open spec fn parsed_port_range(s: Seq<char>) -> Option<(u16, u16)> {
    let i = first_dash(s);
    if 0 <= i < s.len() {
        match (parsed_port(s.subrange(0, i)), parsed_port(s.subrange(i + 1, s.len() as int))) {
            (Some(start), Some(end)) => if start <= end {
                Some((start, end))
            } else {
                None
            },
            _ => None,
        }
    } else {
        None
    }
}

proof fn lemma_digits_grow(s: Seq<char>, k: int)
    requires
        0 <= k <= s.len(),
        all_digits(s),
    ensures
        digits_value(s.subrange(0, k)) <= digits_value(s),
    decreases s.len() - k,
{
    if k < s.len() {
        lemma_digits_grow(s, k + 1);
        let longer = s.subrange(0, k + 1);
        assert(longer.drop_last() =~= s.subrange(0, k));
        assert(longer.last() == s[k]);
    } else {
        assert(s.subrange(0, k) =~= s);
    }
}

proof fn lemma_first_dash(s: Seq<char>)
    ensures
        0 <= first_dash(s) <= s.len(),
        first_dash(s) < s.len() ==> s[first_dash(s)] == '-',
        forall|j: int| 0 <= j < first_dash(s) ==> s[j] != '-',
    decreases s.len(),
{
    if s.len() > 0 && s[0] != '-' {
        let t = s.drop_first();
        lemma_first_dash(t);
        assert forall|j: int| 0 <= j < first_dash(s) implies s[j] != '-' by {
            if j > 0 {
                assert(t[j - 1] == s[j]);
            }
        }
    }
}

/// Reads the port that `s[from..to]` spells.
pub fn parse_port(s: &Vec<char>, from: usize, to: usize) -> (r: Option<u16>)
    requires
        from <= to <= s.len(),
    ensures
        r == parsed_port(s@.subrange(from as int, to as int)),
{
    let ghost text = s@.subrange(from as int, to as int);
    let start: usize = if from < to && s[from] == '+' {
        from + 1
    } else {
        from
    };
    let ghost digits = s@.subrange(start as int, to as int);
    assert(digits =~= if text.len() > 0 && text[0] == '+' {
        text.subrange(1, text.len() as int)
    } else {
        text
    });
    if start == to {
        return None;
    }
    let mut value: u32 = 0;
    let mut i: usize = start;
    assert(digits.subrange(0, 0) =~= Seq::<char>::empty());
    while i < to
        invariant
            from <= start <= i <= to <= s.len(),
            text == s@.subrange(from as int, to as int),
            digits == s@.subrange(start as int, to as int),
            digits == (if text.len() > 0 && text[0] == '+' {
                text.subrange(1, text.len() as int)
            } else {
                text
            }),
            digits.len() > 0,
            all_digits(digits.subrange(0, i - start)),
            value == digits_value(digits.subrange(0, i - start)),
            value <= 65535,
        decreases to - i,
    {
        let c = s[i];
        let ghost seen = digits.subrange(0, i - start);
        let ghost next = digits.subrange(0, i + 1 - start);
        assert(next.drop_last() =~= seen);
        assert(next.last() == c);
        if c < '0' || c > '9' {
            assert(!all_digits(digits)) by {
                assert(digits[i - start] == c);
            }
            return None;
        }
        let d: u32 = c as u32 - '0' as u32;
        assert(all_digits(next)) by {
            assert forall|j: int| 0 <= j < next.len() implies '0' <= #[trigger] next[j] <= '9' by {
                if j < seen.len() {
                    assert(seen[j] == next[j]);
                }
            }
        }
        if value * 10 + d > 65535 {
            proof {
                if all_digits(digits) {
                    lemma_digits_grow(digits, i + 1 - start);
                }
            }
            return None;
        }
        value = value * 10 + d;
        i += 1;
    }
    assert(digits.subrange(0, i - start) =~= digits);
    Some(value as u16)
}

/// Reads the range that `text` spells.
pub fn parse_port_range(text: &str) -> (r: Option<(u16, u16)>)
    ensures
        r == parsed_port_range(text@),
{
    let s = chars_of(text);
    let mut i: usize = 0;
    while i < s.len() && s[i] != '-'
        invariant
            i <= s.len(),
            forall|j: int| 0 <= j < i ==> s@[j] != '-',
        decreases s.len() - i,
    {
        i += 1;
    }
    proof {
        lemma_first_dash(s@);
        if first_dash(s@) < i {
        }
    }
    if i >= s.len() {
        return None;
    }
    let start = match parse_port(&s, 0, i) {
        Some(v) => v,
        None => {
            return None;
        },
    };
    let end = match parse_port(&s, i + 1, s.len()) {
        Some(v) => v,
        None => {
            return None;
        },
    };
    if start > end {
        return None;
    }
    Some((start, end))
}

/// Position of the last `':'` in `s`, or `-1` where it holds none.
pub open spec fn last_colon(s: Seq<char>) -> int
    decreases s.len(),
{
    if s.len() == 0 {
        -1
    } else if s.last() == ':' {
        s.len() - 1
    } else {
        last_colon(s.drop_last())
    }
}

/// Why a text names no peer.
#[derive(Clone, Copy, Debug, PartialEq, Eq, Structural)]
pub enum PeerAddressError {
    /// The text holds no `:`.
    NoPort,
    /// What follows the last `:` spells no port.
    BadPort,
}

/// The host and the port of a peer given as `host:port`: the text is
/// split at its last `:`.
pub open spec fn parsed_peer(s: Seq<char>) -> Result<(Seq<char>, u16), PeerAddressError> {
    let i = last_colon(s);
    if 0 <= i < s.len() {
        match parsed_port(s.subrange(i + 1, s.len() as int)) {
            Some(port) => Ok((s.subrange(0, i), port)),
            None => Err(PeerAddressError::BadPort),
        }
    } else {
        Err(PeerAddressError::NoPort)
    }
}

proof fn lemma_last_colon(s: Seq<char>, i: int)
    requires
        0 <= i < s.len(),
        s[i] == ':',
        forall|j: int| i < j < s.len() ==> s[j] != ':',
    ensures
        last_colon(s) == i,
    decreases s.len(),
{
    if s.last() != ':' {
        lemma_last_colon(s.drop_last(), i);
    }
}

proof fn lemma_no_colon(s: Seq<char>)
    requires
        forall|j: int| 0 <= j < s.len() ==> s[j] != ':',
    ensures
        last_colon(s) == -1,
    decreases s.len(),
{
    if s.len() > 0 {
        lemma_no_colon(s.drop_last());
    }
}

/// Splits the address of a peer into host and port.
pub fn split_host_port(addr: &str) -> (r: Result<(String, u16), PeerAddressError>)
    ensures
        match parsed_peer(addr@) {
            Ok((host, port)) => r is Ok && r->Ok_0.0@ == host && r->Ok_0.1 == port,
            Err(e) => r == Err::<(String, u16), PeerAddressError>(e),
        },
{
    let s = chars_of(addr);
    let mut i: usize = s.len();
    while i > 0 && s[i - 1] != ':'
        invariant
            i <= s.len(),
            forall|j: int| i <= j < s.len() ==> s@[j] != ':',
        decreases i,
    {
        i -= 1;
    }
    if i == 0 {
        proof {
            lemma_no_colon(s@);
        }
        return Err(PeerAddressError::NoPort);
    }
    proof {
        lemma_last_colon(s@, i - 1);
    }
    let port = match parse_port(&s, i, s.len()) {
        Some(port) => port,
        None => {
            return Err(PeerAddressError::BadPort);
        },
    };
    let mut host: Vec<char> = Vec::new();
    let mut k: usize = 0;
    while k < i - 1
        invariant
            k <= i - 1,
            i <= s.len(),
            host@ == s@.subrange(0, k as int),
        decreases i - 1 - k,
    {
        host.push(s[k]);
        assert(s@.subrange(0, k as int).push(s@[k as int]) =~= s@.subrange(0, k + 1));
        k += 1;
    }
    Ok((string_of(&host), port))
}

} // verus!
