use leaf::dns::{is_plain_query, DnsAnswer, DnsQuestion, DnsRequest, DnsResponse};
use leaf::fake_dns::{FakeDns, FakeDnsError, FakeDnsMode};
use leaf::net::{ip_to_u32, u32_to_ip, IpAddr, Ipv4Addr, Ipv6Addr};
use trust_dns_proto::op::{Edns, Message, MessageType, OpCode, Query, ResponseCode};
use trust_dns_proto::rr::rdata::opt::{EdnsCode, EdnsOption};
use trust_dns_proto::rr::{rdata, DNSClass, Name, RData, Record, RecordType};

fn query_bytes(id: u16, name: &str, record_type: RecordType) -> Vec<u8> {
    let mut query = Query::new();
    query.set_name(Name::from_ascii(name).unwrap()).set_query_type(record_type);
    let mut message = Message::new();
    message.set_id(id).set_recursion_desired(true).add_query(query);
    message.to_vec().unwrap()
}

fn v4(a: u8, b: u8, c: u8, d: u8) -> IpAddr {
    IpAddr::V4(Ipv4Addr::new(a, b, c, d))
}

#[test]
fn test_u32_to_ip() {
    let ip1 = Ipv4Addr::new(127, 0, 0, 1);
    let ip2 = u32_to_ip(2130706433u32);
    assert_eq!(ip1, ip2);
}

#[test]
fn test_ip_to_u32() {
    let ip = Ipv4Addr::new(127, 0, 0, 1);
    let ip1 = ip_to_u32(&ip);
    let ip2 = 2130706433u32;
    assert_eq!(ip1, ip2);
}

#[test]
fn address_and_number_round_trip() {
    for n in [0u32, 1, 255, 256, 0xC612_0001, 0xFFFF_FFFF, 0x0102_0304] {
        assert_eq!(ip_to_u32(&u32_to_ip(n)), n);
    }
    assert_eq!(u32_to_ip(0x0102_0304).octets(), [1, 2, 3, 4]);
}

#[test]
fn first_allocation_skips_the_network_address() {
    let mut dns = FakeDns::new(FakeDnsMode::Exclude);
    assert_eq!(dns.allocate_ip("example.com"), Ok(Ipv4Addr::new(198, 18, 0, 1)));
    assert_eq!(dns.allocate_ip("example.org"), Ok(Ipv4Addr::new(198, 18, 0, 2)));
}

#[test]
fn allocation_round_trip() {
    let mut dns = FakeDns::new(FakeDnsMode::Exclude);
    let ip = dns.obtain_ip("example.com").unwrap();
    assert_eq!(dns.query_domain(&IpAddr::V4(ip)), Some("example.com".to_string()));
    assert_eq!(dns.query_fake_ip("example.com"), Some(IpAddr::V4(ip)));
    assert_eq!(dns.obtain_ip("example.com"), Ok(ip));
    assert_eq!(dns.query_fake_ip("example.org"), None);
    assert_eq!(dns.query_domain(&v4(198, 18, 0, 2)), None);
    assert_eq!(dns.query_domain(&IpAddr::V6(Ipv6Addr { bits: 1 })), None);
}

#[test]
fn cursor_skips_reserved_low_bytes() {
    let mut dns = FakeDns::with_range(FakeDnsMode::Exclude, 0x0A00_00FD, 0x0A00_0200, 60).unwrap();
    assert_eq!(dns.allocate_ip("a.example"), Ok(Ipv4Addr::new(10, 0, 0, 253)));
    assert_eq!(dns.allocate_ip("b.example"), Ok(Ipv4Addr::new(10, 0, 0, 254)));
    // 10.0.0.255 and 10.0.1.0 are skipped.
    assert_eq!(dns.allocate_ip("c.example"), Ok(Ipv4Addr::new(10, 0, 1, 1)));
}

#[test]
fn wraparound_evicts_the_old_domain() {
    let mut dns = FakeDns::with_range(FakeDnsMode::Exclude, 0x0A00_0001, 0x0A00_0003, 60).unwrap();
    assert_eq!(dns.obtain_ip("one.example"), Ok(Ipv4Addr::new(10, 0, 0, 1)));
    assert_eq!(dns.obtain_ip("two.example"), Ok(Ipv4Addr::new(10, 0, 0, 2)));
    assert_eq!(dns.obtain_ip("three.example"), Ok(Ipv4Addr::new(10, 0, 0, 3)));
    assert_eq!(dns.obtain_ip("four.example"), Ok(Ipv4Addr::new(10, 0, 0, 1)));
    assert_eq!(dns.query_fake_ip("one.example"), None);
    assert_eq!(dns.query_domain(&v4(10, 0, 0, 1)), Some("four.example".to_string()));
    assert_eq!(dns.query_fake_ip("two.example"), Some(v4(10, 0, 0, 2)));
    // The evicted domain gets the next address in turn.
    assert_eq!(dns.obtain_ip("one.example"), Ok(Ipv4Addr::new(10, 0, 0, 2)));
    assert_eq!(dns.query_fake_ip("two.example"), None);
}

#[test]
fn default_range_wraps_after_the_last_address() {
    let mut dns = FakeDns::new(FakeDnsMode::Exclude);
    let mut last = Ipv4Addr::new(0, 0, 0, 0);
    let mut count = 0u32;
    loop {
        let ip = dns.allocate_ip(&format!("host{}.example", count)).unwrap();
        count += 1;
        if count > 1 && ip == Ipv4Addr::new(198, 18, 0, 1) {
            break;
        }
        assert_ne!(ip.d, 0);
        assert_ne!(ip.d, 255);
        last = ip;
    }
    assert_eq!(last, Ipv4Addr::new(198, 18, 255, 254));
    // 256 blocks of 254 usable addresses each.
    assert_eq!(count, 256 * 254 + 1);
    assert_eq!(dns.query_fake_ip("host0.example"), None);
}

#[test]
fn allocation_fails_when_no_address_is_usable_in_three_steps() {
    // A range of one usable address hands it out again and again.
    let mut dns = FakeDns::with_range(FakeDnsMode::Exclude, 0x0A00_00FE, 0x0A00_0100, 60).unwrap();
    assert_eq!(dns.allocate_ip("a.example"), Ok(Ipv4Addr::new(10, 0, 0, 254)));
    assert_eq!(dns.allocate_ip("b.example"), Ok(Ipv4Addr::new(10, 0, 0, 254)));
    // From 10.0.1.254 in 10.0.0.255 - 10.0.2.0 the three steps end on
    // 10.0.1.255, 10.0.2.0 and 10.0.0.255.
    let mut dns = FakeDns::with_range(FakeDnsMode::Exclude, 0x0A00_00FF, 0x0A00_0200, 60).unwrap();
    for i in 1..=253u8 {
        assert_eq!(dns.allocate_ip(&format!("host{}.example", i)), Ok(Ipv4Addr::new(10, 0, 1, i)));
    }
    assert_eq!(dns.allocate_ip("late.example"), Err(FakeDnsError::Exhausted));
    // Nothing changed.
    assert_eq!(dns.query_fake_ip("late.example"), None);
    assert_eq!(dns.query_domain(&v4(10, 0, 1, 254)), None);
    assert_eq!(dns.query_domain(&v4(10, 0, 1, 253)), Some("host253.example".to_string()));
    assert_eq!(dns.prepare_next_cursor(), Err(FakeDnsError::Exhausted));
    assert_eq!(dns.obtain_ip("late.example"), Err(FakeDnsError::Exhausted));
    assert_eq!(dns.obtain_ip("host7.example"), Ok(Ipv4Addr::new(10, 0, 1, 7)));
}

#[test]
fn range_without_usable_start_is_refused() {
    assert!(FakeDns::with_range(FakeDnsMode::Exclude, 0x0A00_0000, 0x0A00_0000, 1).is_none());
    assert!(FakeDns::with_range(FakeDnsMode::Exclude, 0x0A00_00FF, 0x0A00_0100, 1).is_none());
    assert!(FakeDns::with_range(FakeDnsMode::Exclude, 5, 4, 1).is_none());
    assert!(FakeDns::with_range(FakeDnsMode::Exclude, 0x0A00_00FF, 0x0A00_0101, 1).is_some());
    assert!(FakeDns::with_range(FakeDnsMode::Exclude, 0x0A00_0100, 0x0A00_0101, 1).is_some());
    assert!(FakeDns::with_range(FakeDnsMode::Exclude, 0xFFFF_FFFF, 0xFFFF_FFFF, 1).is_none());
}

#[test]
fn is_fake_ip_is_range_membership() {
    let mut dns = FakeDns::new(FakeDnsMode::Exclude);
    let ip = dns.allocate_ip("example.com").unwrap();
    assert!(dns.is_fake_ip(&IpAddr::V4(ip)));
    assert!(dns.is_fake_ip(&v4(198, 18, 0, 0)));
    assert!(dns.is_fake_ip(&v4(198, 18, 255, 255)));
    assert!(dns.is_fake_ip(&v4(198, 18, 77, 77)));
    assert!(!dns.is_fake_ip(&v4(198, 17, 255, 255)));
    assert!(!dns.is_fake_ip(&v4(198, 19, 0, 0)));
    assert!(!dns.is_fake_ip(&v4(8, 8, 8, 8)));
    assert!(!dns.is_fake_ip(&IpAddr::V6(Ipv6Addr { bits: 0xC612_0001 })));
}

#[test]
fn exclude_mode_rejects_filtered_domains() {
    let mut dns = FakeDns::new(FakeDnsMode::Exclude);
    assert!(dns.accept("ads.example.com"));
    dns.add_filter("ads.".to_string());
    assert!(!dns.accept("ads.example.com"));
    assert!(!dns.accept("www.ads.example.com"));
    assert!(dns.accept("example.com"));
    assert!(dns.accept("ads"));
    let mut dns = FakeDns::new(FakeDnsMode::Exclude);
    dns.add_filter("*".to_string());
    assert!(!dns.accept("example.com"));
    assert!(!dns.accept(""));
}

#[test]
fn include_mode_accepts_filtered_domains_only() {
    let mut dns = FakeDns::new(FakeDnsMode::Include);
    assert!(!dns.accept("ads.example.com"));
    dns.add_filter("ads.".to_string());
    assert!(dns.accept("ads.example.com"));
    assert!(!dns.accept("example.com"));
    dns.add_filter("*".to_string());
    assert!(dns.accept("example.com"));
}

#[test]
fn query_for_a_record_gets_an_address() {
    let mut dns = FakeDns::new(FakeDnsMode::Exclude);
    let response = dns.generate_fake_response(&query_bytes(0x1234, "example.com.", RecordType::A)).unwrap();
    let message = Message::from_vec(&response).unwrap();
    assert_eq!(message.id(), 0x1234);
    assert_eq!(message.message_type(), MessageType::Response);
    assert_eq!(message.op_code(), OpCode::Query);
    assert_eq!(message.response_code(), ResponseCode::NoError);
    assert!(message.recursion_desired());
    assert!(!message.checking_disabled());
    assert_eq!(message.queries().len(), 1);
    assert_eq!(message.queries()[0].name().to_ascii(), "example.com.");
    assert_eq!(message.queries()[0].query_type(), RecordType::A);
    assert_eq!(message.queries()[0].query_class(), DNSClass::IN);
    assert_eq!(message.answers().len(), 1);
    let answer = &message.answers()[0];
    assert_eq!(answer.name().to_ascii(), "example.com.");
    assert_eq!(answer.record_type(), RecordType::A);
    assert_eq!(answer.dns_class(), DNSClass::IN);
    assert_eq!(answer.ttl(), 1);
    match answer.data() {
        Some(RData::A(a)) => assert_eq!(a.0.octets(), [198, 18, 0, 1]),
        other => panic!("unexpected answer {:?}", other),
    }
    assert_eq!(dns.query_domain(&v4(198, 18, 0, 1)), Some("example.com".to_string()));
    assert_eq!(dns.query_fake_ip("example.com"), Some(v4(198, 18, 0, 1)));
}

#[test]
fn repeated_query_reuses_the_address() {
    let mut dns = FakeDns::with_range(FakeDnsMode::Exclude, 0x0A00_0001, 0x0A00_00FE, 300).unwrap();
    let first = dns.generate_fake_response(&query_bytes(1, "example.com.", RecordType::A)).unwrap();
    let second = dns.generate_fake_response(&query_bytes(2, "example.com.", RecordType::A)).unwrap();
    let third = dns.generate_fake_response(&query_bytes(3, "example.org.", RecordType::A)).unwrap();
    let address = |bytes: &[u8]| match Message::from_vec(bytes).unwrap().answers()[0].data() {
        Some(RData::A(a)) => a.0.octets(),
        other => panic!("unexpected answer {:?}", other),
    };
    assert_eq!(address(&first), [10, 0, 0, 1]);
    assert_eq!(address(&second), [10, 0, 0, 1]);
    assert_eq!(address(&third), [10, 0, 0, 2]);
    assert_eq!(Message::from_vec(&third).unwrap().answers()[0].ttl(), 300);
}

#[test]
fn query_for_other_address_types_gets_no_answer_but_maps_the_domain() {
    let mut dns = FakeDns::new(FakeDnsMode::Exclude);
    for (id, record_type) in [(7, RecordType::AAAA), (8, RecordType::HTTPS)] {
        let response = dns.generate_fake_response(&query_bytes(id, "example.com.", record_type)).unwrap();
        let message = Message::from_vec(&response).unwrap();
        assert_eq!(message.id(), id);
        assert_eq!(message.response_code(), ResponseCode::NoError);
        assert_eq!(message.queries()[0].query_type(), record_type);
        assert_eq!(message.answers().len(), 0);
    }
    assert_eq!(dns.query_fake_ip("example.com"), Some(v4(198, 18, 0, 1)));
}

#[test]
fn flags_are_echoed_for_queries_only() {
    let mut query = Query::new();
    query.set_name(Name::from_ascii("example.com.").unwrap()).set_query_type(RecordType::A);
    let mut message = Message::new();
    message.set_id(9).set_op_code(OpCode::Status).set_recursion_desired(true).set_checking_disabled(true);
    message.add_query(query.clone());
    let mut dns = FakeDns::new(FakeDnsMode::Exclude);
    let response = Message::from_vec(&dns.generate_fake_response(&message.to_vec().unwrap()).unwrap()).unwrap();
    assert_eq!(response.op_code(), OpCode::Status);
    assert!(!response.recursion_desired());
    assert!(!response.checking_disabled());

    let mut message = Message::new();
    message.set_id(9).set_recursion_desired(false).set_checking_disabled(true).add_query(query);
    let response = Message::from_vec(&dns.generate_fake_response(&message.to_vec().unwrap()).unwrap()).unwrap();
    assert_eq!(response.op_code(), OpCode::Query);
    assert!(!response.recursion_desired());
    assert!(response.checking_disabled());
}

#[test]
fn name_is_echoed_as_it_came() {
    let mut dns = FakeDns::new(FakeDnsMode::Exclude);
    let response = dns.generate_fake_response(&query_bytes(1, "WWW.Example.COM.", RecordType::A)).unwrap();
    let message = Message::from_vec(&response).unwrap();
    assert_eq!(message.queries()[0].name().to_ascii(), "WWW.Example.COM.");
    assert_eq!(message.answers()[0].name().to_ascii(), "WWW.Example.COM.");
    assert_eq!(dns.query_fake_ip("WWW.Example.COM"), Some(v4(198, 18, 0, 1)));
    assert_eq!(dns.query_fake_ip("www.example.com"), None);
}

#[test]
fn malformed_requests_are_refused() {
    let mut dns = FakeDns::new(FakeDnsMode::Exclude);
    assert_eq!(dns.generate_fake_response(&[]), Err(FakeDnsError::Malformed));
    assert_eq!(dns.generate_fake_response(&[1, 2, 3]), Err(FakeDnsError::Malformed));
    let mut truncated = query_bytes(1, "example.com.", RecordType::A);
    truncated.truncate(truncated.len() - 3);
    assert_eq!(dns.generate_fake_response(&truncated), Err(FakeDnsError::Malformed));
    assert_eq!(
        dns.generate_fake_response(&Message::new().to_vec().unwrap()),
        Err(FakeDnsError::NoQuestion)
    );
    assert_eq!(dns.query_fake_ip("example.com"), None);
}

#[test]
fn unsupported_class_and_type_are_refused() {
    let mut dns = FakeDns::new(FakeDnsMode::Exclude);
    let mut query = Query::new();
    query.set_name(Name::from_ascii("example.com.").unwrap()).set_query_type(RecordType::A);
    query.set_query_class(DNSClass::CH);
    let mut message = Message::new();
    message.add_query(query);
    assert_eq!(
        dns.generate_fake_response(&message.to_vec().unwrap()),
        Err(FakeDnsError::UnsupportedClass(3))
    );
    assert_eq!(
        dns.generate_fake_response(&query_bytes(1, "example.com.", RecordType::MX)),
        Err(FakeDnsError::UnsupportedType(15))
    );
    assert_eq!(
        dns.generate_fake_response(&query_bytes(1, "example.com.", RecordType::TXT)),
        Err(FakeDnsError::UnsupportedType(16))
    );
    assert_eq!(dns.query_fake_ip("example.com"), None);
}

#[test]
fn rejected_domain_gets_no_response_and_no_address() {
    let mut dns = FakeDns::new(FakeDnsMode::Exclude);
    dns.add_filter("ads.".to_string());
    assert_eq!(
        dns.generate_fake_response(&query_bytes(1, "ads.example.com.", RecordType::A)),
        Err(FakeDnsError::Rejected)
    );
    assert_eq!(dns.query_fake_ip("ads.example.com"), None);
    assert!(dns.generate_fake_response(&query_bytes(1, "example.com.", RecordType::A)).is_ok());
    assert_eq!(dns.query_fake_ip("example.com"), Some(v4(198, 18, 0, 1)));
}

#[test]
fn exhausted_range_gives_no_response() {
    let mut dns = FakeDns::with_range(FakeDnsMode::Exclude, 0x0A00_00FF, 0x0A00_0200, 60).unwrap();
    for i in 1..=253u16 {
        assert!(dns.generate_fake_response(&query_bytes(i, &format!("host{}.example.", i), RecordType::A)).is_ok());
    }
    assert_eq!(
        dns.generate_fake_response(&query_bytes(2, "late.example.", RecordType::A)),
        Err(FakeDnsError::Exhausted)
    );
    assert!(dns.generate_fake_response(&query_bytes(3, "host1.example.", RecordType::A)).is_ok());
}

#[test]
fn respond_does_not_look_at_the_labels() {
    let mut dns = FakeDns::new(FakeDnsMode::Exclude);
    let request = DnsRequest {
        id: 1,
        op_code: 0,
        recursion_desired: false,
        checking_disabled: false,
        questions: vec![DnsQuestion {
            labels: vec![vec![b'a'; 64]],
            name: "toolong.".to_string(),
            fqdn: true,
            query_type: 1,
            query_class: 1,
        }],
    };
    let response = dns.respond(&request).unwrap();
    assert_eq!(response.id, 1);
    assert_eq!(response.answer.unwrap().address, Ipv4Addr::new(198, 18, 0, 1));
    assert_eq!(dns.query_fake_ip("toolong"), Some(v4(198, 18, 0, 1)));
}

#[test]
fn respond_reads_the_first_question_only() {
    let question = |name: &str, query_type: u16| DnsQuestion {
        labels: name.trim_end_matches('.').split('.').map(|l| l.as_bytes().to_vec()).collect(),
        name: name.to_string(),
        fqdn: name.ends_with('.'),
        query_type,
        query_class: 1,
    };
    let request = DnsRequest {
        id: 77,
        op_code: 0,
        recursion_desired: true,
        checking_disabled: true,
        questions: vec![question("first.example.", 1), question("second.example.", 15)],
    };
    let mut dns = FakeDns::new(FakeDnsMode::Exclude);
    let response = dns.respond(&request).unwrap();
    assert_eq!(response.question, request.questions[0]);
    assert_eq!(response.response_code, 0);
    assert!(response.recursion_desired && response.checking_disabled);
    assert_eq!(dns.query_fake_ip("first.example"), Some(v4(198, 18, 0, 1)));
    assert_eq!(dns.query_fake_ip("second.example"), None);
    // A name that is not fully qualified is taken whole.
    let request = DnsRequest { questions: vec![question("bare.example", 28)], ..request };
    let response = dns.respond(&request).unwrap();
    assert_eq!(response.answer, None);
    assert_eq!(dns.query_fake_ip("bare.example"), Some(v4(198, 18, 0, 2)));
}

#[test]
fn request_is_read_from_wire() {
    let request = DnsRequest::from_wire(&query_bytes(0xBEEF, "Mail.Example.com.", RecordType::AAAA)).unwrap();
    assert_eq!(request.id, 0xBEEF);
    assert_eq!(request.op_code, 0);
    assert!(request.recursion_desired);
    assert!(!request.checking_disabled);
    assert_eq!(
        request.questions,
        vec![DnsQuestion {
            labels: vec![b"Mail".to_vec(), b"Example".to_vec(), b"com".to_vec()],
            name: "Mail.Example.com.".to_string(),
            fqdn: true,
            query_type: 28,
            query_class: 1,
        }]
    );
    assert_eq!(DnsRequest::from_wire(&[0; 11]), None);
}

#[test]
fn response_is_put_on_the_wire() {
    let mut response = DnsResponse {
        id: 5,
        op_code: 0,
        recursion_desired: true,
        checking_disabled: false,
        response_code: 0,
        question: DnsQuestion {
            labels: vec![b"example".to_vec(), b"com".to_vec()],
            name: "example.com.".to_string(),
            fqdn: true,
            query_type: 1,
            query_class: 1,
        },
        answer: Some(DnsAnswer { ttl: 30, address: Ipv4Addr::new(198, 18, 3, 4) }),
    };
    let expected: Vec<u8> = vec![
        0, 5, 0x81, 0, 0, 1, 0, 1, 0, 0, 0, 0, // header
        7, b'e', b'x', b'a', b'm', b'p', b'l', b'e', 3, b'c', b'o', b'm', 0, 0, 1, 0, 1, // question
        0xC0, 12, 0, 1, 0, 1, 0, 0, 0, 30, 0, 4, 198, 18, 3, 4, // answer
    ];
    assert_eq!(response.to_wire(), Some(expected));
    response.answer = None;
    assert_eq!(response.to_wire().unwrap().len(), 29);
    // A label of 64 bytes has no wire form, nor has an operation code that
    // is not assigned.
    response.question.labels = vec![vec![b'a'; 64]];
    assert_eq!(response.to_wire(), None);
    response.question.labels = vec![b"example".to_vec()];
    response.op_code = 3;
    assert_eq!(response.to_wire(), None);
}

#[test]
fn record_of_a_signing_type_is_refused() {
    // A header that counts one answer, then a record with the root name,
    // type 48, class 1, no time to live and one byte of data.
    let bytes: [u8; 24] = [
        0, 0, 0, 0, 0, 0, 0, 1, 0, 0, 0, 0, // header
        0, 0, 0x30, 0, 1, 0, 0, 0, 0, 0, 1, 0, // record
    ];
    assert!(!is_plain_query(&bytes));
    assert_eq!(DnsRequest::from_wire(&bytes), None);
    let mut dns = FakeDns::new(FakeDnsMode::Exclude);
    assert_eq!(dns.generate_fake_response(&bytes), Err(FakeDnsError::Malformed));
    // The same record in the additional section, behind a question.
    let mut bytes = query_bytes(1, "example.com.", RecordType::A);
    bytes[11] = 1;
    bytes.extend_from_slice(&[0, 0, 0x30, 0, 1, 0, 0, 0, 0, 0, 1, 0]);
    assert!(!is_plain_query(&bytes));
    assert_eq!(dns.generate_fake_response(&bytes), Err(FakeDnsError::Malformed));
    assert_eq!(dns.query_fake_ip("example.com"), None);
}

#[test]
fn query_with_extensions_is_answered() {
    let mut query = Query::new();
    query.set_name(Name::from_ascii("example.com.").unwrap()).set_query_type(RecordType::A);
    let mut edns = Edns::new();
    edns.set_max_payload(1232).set_version(0);
    edns.options_mut().insert(EdnsOption::Unknown(u16::from(EdnsCode::Cookie), vec![1, 2, 3, 4, 5, 6, 7, 8]));
    let mut message = Message::new();
    message.set_id(0x77).set_recursion_desired(true).add_query(query).set_edns(edns);
    let bytes = message.to_vec().unwrap();
    assert_eq!(bytes[11], 1);
    assert!(is_plain_query(&bytes));
    let mut dns = FakeDns::new(FakeDnsMode::Exclude);
    let response = Message::from_vec(&dns.generate_fake_response(&bytes).unwrap()).unwrap();
    assert_eq!(response.id(), 0x77);
    assert_eq!(response.answers().len(), 1);
    assert_eq!(response.additionals().len(), 0);
    assert_eq!(dns.query_fake_ip("example.com"), Some(v4(198, 18, 0, 1)));
}

#[test]
fn plain_query_framing() {
    let plain = query_bytes(1, "example.com.", RecordType::A);
    assert!(is_plain_query(&plain));
    // What follows the last record does not matter.
    let mut longer = plain.clone();
    longer.extend_from_slice(&[0xFF, 0xFF, 0xFF]);
    assert!(is_plain_query(&longer));
    assert_eq!(DnsRequest::from_wire(&longer), DnsRequest::from_wire(&plain));
    // A header alone counts no question and frames a query without one.
    assert!(is_plain_query(&[0; 12]));
    assert!(!is_plain_query(&[0; 11]));
    assert!(!is_plain_query(&[]));
    // A question that is cut short.
    assert!(!is_plain_query(&plain[..plain.len() - 1]));
    // A count of questions that the bytes do not hold.
    let mut more = plain.clone();
    more[5] = 2;
    assert!(!is_plain_query(&more));
    // An answer or an authority record.
    let mut record = Record::from_rdata(
        Name::from_ascii("example.com.").unwrap(),
        60,
        RData::A(rdata::A([1, 2, 3, 4].into())),
    );
    record.set_dns_class(DNSClass::IN);
    let mut message = Message::from_vec(&plain).unwrap();
    message.add_answer(record.clone());
    assert!(!is_plain_query(&message.to_vec().unwrap()));
    let mut message = Message::from_vec(&plain).unwrap();
    message.add_name_server(record.clone());
    assert!(!is_plain_query(&message.to_vec().unwrap()));
    // An additional record that is no OPT pseudo-record.
    let mut message = Message::from_vec(&plain).unwrap();
    message.add_additional(record);
    let bytes = message.to_vec().unwrap();
    assert!(!is_plain_query(&bytes));
    let mut dns = FakeDns::new(FakeDnsMode::Exclude);
    assert_eq!(dns.generate_fake_response(&bytes), Err(FakeDnsError::Malformed));
}

#[test]
fn name_with_a_compression_pointer_is_refused() {
    // Two questions, the second a pointer to the name of the first.
    let mut bytes = query_bytes(1, "example.com.", RecordType::A);
    bytes[5] = 2;
    bytes.extend_from_slice(&[0xC0, 12, 0, 1, 0, 1]);
    assert!(Message::from_vec(&bytes).is_ok());
    assert!(!is_plain_query(&bytes));
    let mut dns = FakeDns::new(FakeDnsMode::Exclude);
    assert_eq!(dns.generate_fake_response(&bytes), Err(FakeDnsError::Malformed));
    // Two questions written out in full are read, and the first is answered.
    let mut bytes = query_bytes(1, "example.com.", RecordType::A);
    bytes[5] = 2;
    bytes.extend_from_slice(&[3, b'o', b'r', b'g', 0, 0, 1, 0, 1]);
    assert!(is_plain_query(&bytes));
    assert_eq!(DnsRequest::from_wire(&bytes).unwrap().questions.len(), 2);
    assert!(dns.generate_fake_response(&bytes).is_ok());
    assert_eq!(dns.query_fake_ip("example.com"), Some(v4(198, 18, 0, 1)));
    assert_eq!(dns.query_fake_ip("org"), None);
    // A label code that is neither a length nor a pointer.
    let mut bytes = query_bytes(1, "example.com.", RecordType::A);
    bytes[12] = 0x47;
    assert!(!is_plain_query(&bytes));
}
