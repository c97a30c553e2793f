//! DNS messages as the fake-DNS logic reads and writes them, and their
//! wire form.

use trust_dns_proto::error::ProtoError;
use trust_dns_proto::op::{Message, MessageType, OpCode, Query};
use trust_dns_proto::rr::{rdata, DNSClass, Name, RData, Record};
use vstd::prelude::*;
use crate::net::Ipv4Addr;

verus! {

/// Code of the class Internet.
pub const CLASS_IN: u16 = 1;

/// Code of the record type A, an IPv4 address.
pub const TYPE_A: u16 = 1;

/// Code of the record type AAAA, an IPv6 address.
pub const TYPE_AAAA: u16 = 28;

/// Code of the record type HTTPS.
pub const TYPE_HTTPS: u16 = 65;

/// Code of the pseudo-record type OPT, which carries the extensions of a
/// request.
pub const TYPE_OPT: u16 = 41;

/// Code of the operation Query.
pub const OP_QUERY: u8 = 0;

/// Response code for "no error".
pub const RCODE_NO_ERROR: u16 = 0;

/// One question of a DNS message.
#[derive(Clone, Debug, PartialEq, Eq)]
pub struct DnsQuestion {
    /// The labels of the queried name as they stood on the wire.
    pub labels: Vec<Vec<u8>>,
    /// The queried name in ASCII presentation form.
    pub name: String,
    /// Whether the name is fully qualified, so that its presentation form
    /// ends with the root's dot.
    pub fqdn: bool,
    /// Code of the record type asked for.
    pub query_type: u16,
    /// Code of the class asked for.
    pub query_class: u16,
}

/// A question as plain values.
pub struct DnsQuestionView {
    pub labels: Seq<Seq<u8>>,
    pub name: Seq<char>,
    pub fqdn: bool,
    pub query_type: u16,
    pub query_class: u16,
}

impl View for DnsQuestion {
    type V = DnsQuestionView;

    open spec fn view(&self) -> DnsQuestionView {
        DnsQuestionView {
            labels: self.labels@.map_values(|l: Vec<u8>| l@),
            name: self.name@,
            fqdn: self.fqdn,
            query_type: self.query_type,
            query_class: self.query_class,
        }
    }
}

/// What the fake-DNS logic reads of a request.
#[derive(Clone, Debug, PartialEq, Eq)]
pub struct DnsRequest {
    /// Transaction id.
    pub id: u16,
    /// Code of the operation.
    pub op_code: u8,
    pub recursion_desired: bool,
    pub checking_disabled: bool,
    pub questions: Vec<DnsQuestion>,
}

/// A request as plain values.
pub struct DnsRequestView {
    pub id: u16,
    pub op_code: u8,
    pub recursion_desired: bool,
    pub checking_disabled: bool,
    pub questions: Seq<DnsQuestionView>,
}

impl View for DnsRequest {
    type V = DnsRequestView;

    open spec fn view(&self) -> DnsRequestView {
        DnsRequestView {
            id: self.id,
            op_code: self.op_code,
            recursion_desired: self.recursion_desired,
            checking_disabled: self.checking_disabled,
            questions: self.questions@.map_values(|q: DnsQuestion| q@),
        }
    }
}

/// An answer record for the queried name. Its type is always A and its
/// class always Internet: the value holds what is left to choose.
#[derive(Clone, Copy, Debug, PartialEq, Eq, Structural)]
pub struct DnsAnswer {
    /// Time to live, in seconds.
    pub ttl: u32,
    pub address: Ipv4Addr,
}

/// An answer record as plain values, with the type and the class that
/// every answer has.
pub struct DnsAnswerView {
    /// Code of the record type: always that of A.
    pub rr_type: u16,
    /// Code of the class: always that of Internet.
    pub dns_class: u16,
    pub ttl: u32,
    pub address: Ipv4Addr,
}

impl View for DnsAnswer {
    type V = DnsAnswerView;

    open spec fn view(&self) -> DnsAnswerView {
        DnsAnswerView { rr_type: TYPE_A, dns_class: CLASS_IN, ttl: self.ttl, address: self.address }
    }
}

/// A response: the header fields that the logic sets, the question that is
/// echoed, and at most one address answer. The message it stands for is
/// always of the type Response.
#[derive(Clone, Debug, PartialEq, Eq)]
pub struct DnsResponse {
    /// Transaction id.
    pub id: u16,
    /// Code of the operation.
    pub op_code: u8,
    pub recursion_desired: bool,
    pub checking_disabled: bool,
    /// The response code.
    pub response_code: u16,
    pub question: DnsQuestion,
    pub answer: Option<DnsAnswer>,
}

/// A response as plain values, with the message type that every response
/// has.
pub struct DnsResponseView {
    /// Whether the message is a response and no query: always true.
    pub is_response: bool,
    pub id: u16,
    pub op_code: u8,
    pub recursion_desired: bool,
    pub checking_disabled: bool,
    pub response_code: u16,
    pub question: DnsQuestionView,
    pub answer: Option<DnsAnswerView>,
}

impl View for DnsResponse {
    type V = DnsResponseView;

    open spec fn view(&self) -> DnsResponseView {
        DnsResponseView {
            is_response: true,
            id: self.id,
            op_code: self.op_code,
            recursion_desired: self.recursion_desired,
            checking_disabled: self.checking_disabled,
            response_code: self.response_code,
            question: self.question@,
            answer: match self.answer {
                Some(a) => Some(a@),
                None => None,
            },
        }
    }
}

/// A copy of `bytes`.
fn copy_bytes(bytes: &Vec<u8>) -> (out: Vec<u8>)
    ensures
        out@ == bytes@,
{
    let mut out: Vec<u8> = Vec::new();
    let mut i: usize = 0;
    while i < bytes.len()
        invariant
            i <= bytes.len(),
            out@ == bytes@.subrange(0, i as int),
        decreases bytes.len() - i,
    {
        out.push(bytes[i]);
        assert(bytes@.subrange(0, i as int).push(bytes@[i as int]) =~= bytes@.subrange(0, i + 1));
        i += 1;
    }
    assert(bytes@.subrange(0, i as int) =~= bytes@);
    out
}

impl DnsQuestion {
    /// A copy of the question.
    pub fn duplicate(&self) -> (q: Self)
        ensures
            q@ == self@,
    {
        let mut labels: Vec<Vec<u8>> = Vec::new();
        let mut i: usize = 0;
        while i < self.labels.len()
            invariant
                i <= self.labels.len(),
                labels@.len() == i,
                forall|j: int| 0 <= j < i ==> labels@[j]@ == self.labels@[j]@,
            decreases self.labels.len() - i,
        {
            labels.push(copy_bytes(&self.labels[i]));
            i += 1;
        }
        let q = DnsQuestion {
            labels,
            name: self.name.clone(),
            fqdn: self.fqdn,
            query_type: self.query_type,
            query_class: self.query_class,
        };
        assert(q@.labels =~= self@.labels);
        q
    }
}

/// The number that two bytes at `at` spell in network order.
pub open spec fn u16_at(b: Seq<u8>, at: int) -> int {
    b[at] * 256 + b[at + 1]
}

/// Where the name that starts at `at` ends, for a name written out in
/// full: labels of 1 to 63 bytes, each behind its length, and a closing
/// zero. Nothing for a name that holds a compression pointer or another
/// label code, or that runs past the end of the bytes.
pub open spec fn name_end(b: Seq<u8>, at: int) -> Option<int>
    decreases b.len() - at,
{
    if at < 0 || at >= b.len() {
        None
    } else if b[at] == 0 {
        Some(at + 1)
    } else if b[at] >= 64 || at + 1 + b[at] >= b.len() {
        None
    } else {
        name_end(b, at + 1 + b[at])
    }
}

/// Where `n` questions that start at `at` end: each is a name written out
/// in full, a type and a class.
pub open spec fn questions_end(b: Seq<u8>, at: int, n: nat) -> Option<int>
    decreases n,
{
    if n == 0 {
        Some(at)
    } else {
        match name_end(b, at) {
            Some(e) => if e + 4 <= b.len() {
                questions_end(b, e + 4, (n - 1) as nat)
            } else {
                None
            },
            None => None,
        }
    }
}

/// Where `n` records that start at `at` end, where each of them is an OPT
/// pseudo-record: a name written out in full, the type OPT, a class, a
/// time to live, and data behind its length.
pub open spec fn opt_records_end(b: Seq<u8>, at: int, n: nat) -> Option<int>
    decreases n,
{
    if n == 0 {
        Some(at)
    } else {
        match name_end(b, at) {
            Some(e) => if e + 10 <= b.len() && u16_at(b, e) == TYPE_OPT && e + 10 + u16_at(b, e + 8)
                <= b.len() {
                opt_records_end(b, e + 10 + u16_at(b, e + 8), (n - 1) as nat)
            } else {
                None
            },
            None => None,
        }
    }
}

/// Whether the bytes frame a plain query: a header of twelve bytes that
/// counts no answer and no authority record, then the questions it
/// counts, then the additional records it counts, each an OPT
/// pseudo-record, and every name written out in full. What follows the
/// last record does not matter.
pub open spec fn plain_query(b: Seq<u8>) -> bool {
    &&& b.len() >= 12
    &&& u16_at(b, 6) == 0
    &&& u16_at(b, 8) == 0
    &&& questions_end(b, 12, u16_at(b, 4) as nat) matches Some(q)
    &&& opt_records_end(b, q, u16_at(b, 10) as nat) is Some
}

/// The request that bytes are read as: what a plain query decodes to, and
/// nothing for other bytes.
pub open spec fn read_request(b: Seq<u8>) -> Option<DnsRequestView> {
    if plain_query(b) {
        decoded_request(b)
    } else {
        None
    }
}

/// The number that the two bytes at `at` spell.
fn read_u16(b: &[u8], at: usize) -> (n: u16)
    requires
        at + 2 <= b@.len(),
    ensures
        n == u16_at(b@, at as int),
{
    let high = b[at] as u16;
    let low = b[at + 1] as u16;
    high * 256 + low
}

/// The end of the name that starts at `at`.
fn skip_name(b: &[u8], at: usize) -> (r: Option<usize>)
    ensures
        match r {
            Some(e) => name_end(b@, at as int) == Some(e as int) && e <= b@.len(),
            None => name_end(b@, at as int) is None,
        },
{
    let n = b.len();
    if at >= n {
        return None;
    }
    let mut pos: usize = at;
    loop
        invariant
            name_end(b@, at as int) == name_end(b@, pos as int),
            pos < n == b@.len(),
        decreases n - pos,
    {
        let len = b[pos];
        if len == 0 {
            return Some(pos + 1);
        }
        if len >= 64 || n - pos - 1 <= len as usize {
            return None;
        }
        pos = pos + 1 + len as usize;
    }
}

/// The end of the `n` questions that start at `at`.
fn skip_questions(b: &[u8], at: usize, n: u16) -> (r: Option<usize>)
    requires
        at <= b@.len(),
    ensures
        match r {
            Some(e) => questions_end(b@, at as int, n as nat) == Some(e as int) && e <= b@.len(),
            None => questions_end(b@, at as int, n as nat) is None,
        },
{
    let mut pos: usize = at;
    let mut left: u16 = n;
    let size = b.len();
    while left > 0
        invariant
            pos <= b@.len() == size,
            questions_end(b@, at as int, n as nat) == questions_end(b@, pos as int, left as nat),
        decreases left,
    {
        let e = match skip_name(b, pos) {
            Some(e) => e,
            None => {
                return None;
            },
        };
        if b.len() - e < 4 {
            return None;
        }
        pos = e + 4;
        left = left - 1;
    }
    Some(pos)
}

/// The end of the `n` OPT pseudo-records that start at `at`.
fn skip_opt_records(b: &[u8], at: usize, n: u16) -> (r: Option<usize>)
    requires
        at <= b@.len(),
    ensures
        match r {
            Some(e) => opt_records_end(b@, at as int, n as nat) == Some(e as int) && e <= b@.len(),
            None => opt_records_end(b@, at as int, n as nat) is None,
        },
{
    let mut pos: usize = at;
    let mut left: u16 = n;
    let size = b.len();
    while left > 0
        invariant
            pos <= b@.len() == size,
            opt_records_end(b@, at as int, n as nat) == opt_records_end(
                b@,
                pos as int,
                left as nat,
            ),
        decreases left,
    {
        let e = match skip_name(b, pos) {
            Some(e) => e,
            None => {
                return None;
            },
        };
        if b.len() - e < 10 {
            return None;
        }
        if read_u16(b, e) != TYPE_OPT {
            return None;
        }
        let data = read_u16(b, e + 8) as usize;
        if b.len() - e - 10 < data {
            return None;
        }
        pos = e + 10 + data;
        left = left - 1;
    }
    Some(pos)
}

/// Whether the bytes frame a plain query.
pub fn is_plain_query(b: &[u8]) -> (r: bool)
    ensures
        r == plain_query(b@),
{
    if b.len() < 12 {
        return false;
    }
    if read_u16(b, 6) != 0 || read_u16(b, 8) != 0 {
        return false;
    }
    let q = match skip_questions(b, 12, read_u16(b, 4)) {
        Some(q) => q,
        None => {
            return false;
        },
    };
    skip_opt_records(b, q, read_u16(b, 10)).is_some()
}

/// The error of `trust_dns_proto`'s decoder and encoder.
#[verifier::external_type_specification]
#[verifier::external_body]
pub struct ExProtoError(trust_dns_proto::error::ProtoError);

/// What the bytes of a DNS message decode to: nothing where the decoder
/// refuses them.
pub uninterp spec fn decoded_request(bytes: Seq<u8>) -> Option<DnsRequestView>;

/// The wire form of a response: nothing where it has none.
pub uninterp spec fn encoded_response(response: DnsResponseView) -> Option<Seq<u8>>;

/// Decodes a DNS message with `trust_dns_proto`'s `Message::from_vec` and
/// hands out its id, operation code, two flags and questions. It is
/// called on plain queries only. On these the decoder reads the header,
/// names without compression pointers, questions and OPT pseudo-records,
/// and nothing else: it follows no chain of pointers, and it reads no
/// record whose data it would not know by the record's type. Trusted: on
/// a plain query the call returns; it succeeds exactly where
/// `decoded_request` names a request for these bytes, and the result is
/// that request.
#[verifier::external_body]
fn decode_request(request: &[u8]) -> (r: Result<DnsRequest, ProtoError>)
    requires
        plain_query(request@),
    ensures
        match r {
            Ok(req) => decoded_request(request@) == Some(req@),
            Err(_) => decoded_request(request@) is None,
        },
{
    let m = Message::from_vec(request)?;
    let question = |q: &Query| DnsQuestion {
        labels: q.name().iter().map(|l| l.to_vec()).collect(),
        name: q.name().to_ascii(),
        fqdn: q.name().is_fqdn(),
        query_type: q.query_type().into(),
        query_class: q.query_class().into(),
    };
    Ok(DnsRequest {
        id: m.id(),
        op_code: m.op_code().into(),
        recursion_desired: m.recursion_desired(),
        checking_disabled: m.checking_disabled(),
        questions: m.queries().iter().map(question).collect(),
    })
}

/// Builds a `trust_dns_proto` `Message` of the type Response from the
/// fields of `response`, with the answer as a record of type A and class
/// Internet, and encodes it with `Message::to_vec`. Trusted: the call
/// succeeds exactly where `encoded_response` names bytes for this
/// response, and the result is those bytes.
#[verifier::external_body]
fn encode_response(response: &DnsResponse) -> (r: Result<Vec<u8>, ProtoError>)
    ensures
        match r {
            Ok(bytes) => encoded_response(response@) == Some(bytes@),
            Err(_) => encoded_response(response@) is None,
        },
{
    let name = Name::from_labels(response.question.labels.clone())?;
    let mut query = Query::query(name.clone(), response.question.query_type.into());
    query.set_query_class(DNSClass::from_u16(response.question.query_class)?);
    let mut m = Message::new();
    m.set_id(response.id).set_message_type(MessageType::Response)
        .set_op_code(OpCode::from_u8(response.op_code)?)
        .set_recursion_desired(response.recursion_desired)
        .set_checking_disabled(response.checking_disabled)
        .set_response_code(response.response_code.into()).add_query(query);
    if let Some(DnsAnswer { ttl, address: ip }) = response.answer {
        m.add_answer(Record::from_rdata(name, ttl, RData::A(rdata::A([ip.a, ip.b, ip.c, ip.d].into()))));
    }
    m.to_vec()
}

impl DnsRequest {
    /// Reads a request from its wire form; nothing where the bytes frame
    /// no plain query or the decoder refuses them.
    pub fn from_wire(bytes: &[u8]) -> (r: Option<Self>)
        ensures
            match r {
                Some(req) => read_request(bytes@) == Some(req@),
                None => read_request(bytes@) is None,
            },
    {
        if !is_plain_query(bytes) {
            return None;
        }
        match decode_request(bytes) {
            Ok(req) => Some(req),
            Err(_) => None,
        }
    }
}

impl DnsResponse {
    /// The wire form of the response; nothing where it has none, as for a
    /// label of more than 63 bytes.
    pub fn to_wire(&self) -> (r: Option<Vec<u8>>)
        ensures
            match r {
                Some(bytes) => encoded_response(self@) == Some(bytes@),
                None => encoded_response(self@) is None,
            },
    {
        match encode_response(self) {
            Ok(bytes) => Some(bytes),
            Err(_) => None,
        }
    }
}

} // verus!
