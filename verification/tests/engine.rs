use dnsrelay::engine::{LocalTable, filter_questions, from_answer, merge_response, report_answers};
use dnsrelay::engine::{process_udp_message, process_tcp_request, UdpOutcome, TcpStep};
use dnsrelay::message::{DnsMessage, DnsHeader, DnsQuestion, DnsResourceRecord, DnsRRData};
use dnsrelay::message::{DnsOpcode, DnsRcode, DnsType, DnsClass, Ipv4Address, Ipv6Address};
use dnsrelay::table::{Endpoint, HostAddress, table_new};

fn name(labels: &[&str]) -> Vec<String> {
    labels.iter().map(|s| s.to_string()).collect()
}

fn a_record(labels: &[&str], ip: Ipv4Address) -> DnsResourceRecord {
    DnsResourceRecord {
        name: name(labels),
        rtype: DnsType::A,
        rclass: DnsClass::Internet,
        ttl: 10,
        data: DnsRRData::A(ip),
    }
}

fn question(labels: &[&str], qtype: DnsType) -> DnsQuestion {
    DnsQuestion { qname: name(labels), qtype, qclass: DnsClass::Internet }
}

fn client(port: u16) -> Endpoint {
    Endpoint { host: HostAddress::V4(Ipv4Address::new(192, 168, 0, 1)), port }
}

fn query(id: u16, questions: Vec<DnsQuestion>) -> DnsMessage {
    DnsMessage {
        header: DnsHeader { id, query: true, recur_desired: true, ..Default::default() },
        question: questions,
        ..Default::default()
    }
}

fn response(id: u16, answers: Vec<DnsResourceRecord>) -> DnsMessage {
    DnsMessage {
        header: DnsHeader { id, query: false, ..Default::default() },
        answer: answers,
        ..Default::default()
    }
}

fn busy_wait_millis(ms: u128) {
    let t0 = std::time::Instant::now();
    while t0.elapsed().as_millis() < ms {}
}

#[test]
fn filter_drains_local_a_questions() {
    let mut table = LocalTable::new();
    table.add_entry(name(&["example", "com"]), a_record(&["example", "com"], Ipv4Address::new(1, 2, 3, 4)));
    let mut questions = vec![
        question(&["example", "com"], DnsType::A),
        question(&["example", "com"], DnsType::AAAA),
        question(&["other", "com"], DnsType::A),
    ];
    let answers = filter_questions(&mut questions, &table);
    assert_eq!(questions.len(), 2);
    assert_eq!(questions[0].qtype, DnsType::AAAA);
    assert_eq!(questions[1].qname, name(&["other", "com"]));
    assert_eq!(answers.len(), 1);
    assert_eq!(answers[0].data, DnsRRData::A(Ipv4Address::new(1, 2, 3, 4)));
}

#[test]
fn add_entry_appends_to_existing_name() {
    let mut table = LocalTable::new();
    table.add_entry(name(&["d", "test"]), a_record(&["d", "test"], Ipv4Address::new(1, 1, 1, 1)));
    table.add_entry(name(&["d", "test"]), a_record(&["d", "test"], Ipv4Address::new(2, 2, 2, 2)));
    let mut questions = vec![question(&["d", "test"], DnsType::A)];
    let answers = filter_questions(&mut questions, &table);
    assert!(questions.is_empty());
    assert_eq!(answers.len(), 2);
    assert_eq!(answers[0].data, DnsRRData::A(Ipv4Address::new(1, 1, 1, 1)));
    assert_eq!(answers[1].data, DnsRRData::A(Ipv4Address::new(2, 2, 2, 2)));
}

#[test]
fn from_answer_plain() {
    let answers = vec![a_record(&["example", "com"], Ipv4Address::new(1, 2, 3, 4))];
    let reply = from_answer(0x1234, &answers);
    assert_eq!(reply.header.id, 0x1234);
    assert_eq!(reply.header.query, false);
    assert_eq!(reply.header.opcode, DnsOpcode::Query);
    assert_eq!(reply.header.recur_desired, true);
    assert_eq!(reply.header.recur_available, false);
    assert_eq!(reply.header.rcode, DnsRcode::NoErrorCondition);
    assert_eq!(reply.answer.len(), 1);
    assert!(reply.question.is_empty());
}

#[test]
fn from_answer_blocked_refuses_with_empty_answers() {
    let answers = vec![
        a_record(&["ads", "test"], Ipv4Address::new(0, 0, 0, 0)),
        a_record(&["ads", "test"], Ipv4Address::new(1, 2, 3, 4)),
    ];
    let reply = from_answer(7, &answers);
    assert_eq!(reply.header.rcode, DnsRcode::Refused);
    assert!(reply.answer.is_empty());
}

#[test]
fn merge_appends_local_answers() {
    let resp = response(9, vec![a_record(&["up", "test"], Ipv4Address::new(5, 5, 5, 5))]);
    let merged = merge_response(resp, vec![a_record(&["loc", "test"], Ipv4Address::new(6, 6, 6, 6))]);
    assert_eq!(merged.answer.len(), 2);
    assert_eq!(merged.answer[0].name, name(&["up", "test"]));
    assert_eq!(merged.answer[1].name, name(&["loc", "test"]));
}

#[test]
fn report_selects_address_answers() {
    let msg = DnsMessage {
        header: DnsHeader { id: 3, ..Default::default() },
        answer: vec![
            a_record(&["a", "test"], Ipv4Address::new(1, 1, 1, 1)),
            DnsResourceRecord {
                name: name(&["a", "test"]),
                rtype: DnsType::NS,
                rclass: DnsClass::Internet,
                ttl: 10,
                data: DnsRRData::NS(name(&["ns", "test"])),
            },
            DnsResourceRecord {
                name: name(&["a", "test"]),
                rtype: DnsType::AAAA,
                rclass: DnsClass::Internet,
                ttl: 10,
                data: DnsRRData::AAAA(Ipv6Address::new(0, 0, 0, 0, 0, 0, 0, 1)),
            },
        ],
        ..Default::default()
    };
    let picked = report_answers(&msg);
    assert_eq!(picked.len(), 2);
    assert_eq!(picked[0].rtype, DnsType::A);
    assert_eq!(picked[1].rtype, DnsType::AAAA);
}

#[test]
fn udp_all_local_answers_without_upstream() {
    let mut corr = table_new(100);
    let mut local = LocalTable::new();
    local.add_entry(name(&["example", "com"]), a_record(&["example", "com"], Ipv4Address::new(1, 2, 3, 4)));
    let q = query(0xaaaa, vec![question(&["example", "com"], DnsType::A)]);
    match process_udp_message(&mut corr, &local, q, client(1000), 2) {
        UdpOutcome::Reply { message, dest } => {
            assert_eq!(dest, client(1000));
            assert_eq!(message.header.query, false);
            assert_eq!(message.header.id, 0xaaaa);
            assert_eq!(message.header.rcode, DnsRcode::NoErrorCondition);
            assert_eq!(message.answer.len(), 1);
        },
        _ => panic!("expected an immediate reply"),
    }
}

#[test]
fn udp_blocked_entry_refused() {
    let mut corr = table_new(100);
    let mut local = LocalTable::new();
    local.add_entry(name(&["blocked", "test"]), a_record(&["blocked", "test"], Ipv4Address::new(0, 0, 0, 0)));
    let q = query(0x2222, vec![question(&["blocked", "test"], DnsType::A)]);
    match process_udp_message(&mut corr, &local, q, client(1001), 2) {
        UdpOutcome::Reply { message, dest } => {
            assert_eq!(dest, client(1001));
            assert_eq!(message.header.query, false);
            assert_eq!(message.header.rcode, DnsRcode::Refused);
            assert!(message.answer.is_empty());
        },
        _ => panic!("expected an immediate refusal"),
    }
}

#[test]
fn udp_mixed_query_forwards_residual_and_merges_reply() {
    let mut corr = table_new(100);
    let mut local = LocalTable::new();
    local.add_entry(name(&["example", "com"]), a_record(&["example", "com"], Ipv4Address::new(1, 2, 3, 4)));
    let q = query(
        0x1111,
        vec![
            question(&["example", "com"], DnsType::A),
            question(&["example", "com"], DnsType::AAAA),
        ],
    );
    match process_udp_message(&mut corr, &local, q, client(1002), 2) {
        UdpOutcome::Forward { message } => {
            assert_eq!(message.question.len(), 1);
            assert_eq!(message.question[0].qtype, DnsType::AAAA);
        },
        _ => panic!("expected a forward"),
    }
    // The upstream reply is merged with the local answer and sent to the
    // original client.
    let upstream = response(
        0x1111,
        vec![DnsResourceRecord {
            name: name(&["example", "com"]),
            rtype: DnsType::AAAA,
            rclass: DnsClass::Internet,
            ttl: 60,
            data: DnsRRData::AAAA(Ipv6Address::new(0x2001, 0xdb8, 0, 0, 0, 0, 0, 5)),
        }],
    );
    match process_udp_message(&mut corr, &local, upstream, client(9999), 2) {
        UdpOutcome::Reply { message, dest } => {
            assert_eq!(dest, client(1002));
            assert_eq!(message.answer.len(), 2);
            assert_eq!(
                message.answer[0].data,
                DnsRRData::AAAA(Ipv6Address::new(0x2001, 0xdb8, 0, 0, 0, 0, 0, 5))
            );
            assert_eq!(message.answer[1].data, DnsRRData::A(Ipv4Address::new(1, 2, 3, 4)));
        },
        _ => panic!("expected the merged reply"),
    }
}

#[test]
fn udp_reply_within_ttl_reaches_original_client() {
    let mut corr = table_new(100);
    let local = LocalTable::new();
    let mut q = query(0x3039, vec![question(&["ksqsf", "moe"], DnsType::AAAA)]);
    q.question[0].qclass = DnsClass::Any;
    let original = q.clone();
    match process_udp_message(&mut corr, &local, q, client(4242), 2) {
        UdpOutcome::Forward { message } => {
            // The upstream sees a byte-identical question section.
            let codec = dnsrelay::codec::DnsMessageCodec::new(false);
            let mut forwarded_bytes = Vec::new();
            let mut original_bytes = Vec::new();
            codec.encode(message, &mut forwarded_bytes).expect("encode");
            codec.encode(original, &mut original_bytes).expect("encode");
            assert_eq!(forwarded_bytes, original_bytes);
        },
        _ => panic!("expected a forward"),
    }
    let upstream = response(0x3039, vec![a_record(&["ksqsf", "moe"], Ipv4Address::new(9, 9, 9, 9))]);
    match process_udp_message(&mut corr, &local, upstream, client(5353), 2) {
        UdpOutcome::Reply { message, dest } => {
            assert_eq!(dest, client(4242));
            assert_eq!(message.header.id, 0x3039);
            assert_eq!(message.answer.len(), 1);
        },
        _ => panic!("expected a reply to the original client"),
    }
}

#[test]
fn udp_reply_after_ttl_expiry_is_dropped() {
    let mut corr = table_new(100);
    let local = LocalTable::new();
    let q = query(0x0777, vec![question(&["slow", "test"], DnsType::A)]);
    match process_udp_message(&mut corr, &local, q, client(1), 0) {
        UdpOutcome::Forward { .. } => {},
        _ => panic!("expected a forward"),
    }
    busy_wait_millis(20);
    let upstream = response(0x0777, vec![a_record(&["slow", "test"], Ipv4Address::new(9, 9, 9, 9))]);
    match process_udp_message(&mut corr, &local, upstream, client(2), 0) {
        UdpOutcome::Drop => {},
        _ => panic!("expected the late reply to be dropped"),
    }
}

#[test]
fn udp_reply_for_unknown_id_is_dropped() {
    let mut corr = table_new(100);
    let local = LocalTable::new();
    let upstream = response(0xbeef, vec![a_record(&["spoof", "test"], Ipv4Address::new(6, 6, 6, 6))]);
    match process_udp_message(&mut corr, &local, upstream, client(3), 2) {
        UdpOutcome::Drop => {},
        _ => panic!("expected the unknown reply to be dropped"),
    }
}

#[test]
fn udp_second_forward_overwrites_first_client() {
    let mut corr = table_new(100);
    let local = LocalTable::new();
    let q1 = query(0x00aa, vec![question(&["one", "test"], DnsType::A)]);
    let q2 = query(0x00aa, vec![question(&["two", "test"], DnsType::A)]);
    match process_udp_message(&mut corr, &local, q1, client(11), 60) {
        UdpOutcome::Forward { .. } => {},
        _ => panic!("expected a forward"),
    }
    match process_udp_message(&mut corr, &local, q2, client(22), 60) {
        UdpOutcome::Forward { .. } => {},
        _ => panic!("expected a forward"),
    }
    let upstream = response(0x00aa, vec![a_record(&["two", "test"], Ipv4Address::new(2, 2, 2, 2))]);
    match process_udp_message(&mut corr, &local, upstream, client(33), 60) {
        UdpOutcome::Reply { dest, .. } => {
            assert_eq!(dest, client(22));
        },
        _ => panic!("expected a reply to the second client"),
    }
}

#[test]
fn tcp_local_request_skips_upstream() {
    let mut local = LocalTable::new();
    local.add_entry(name(&["example", "com"]), a_record(&["example", "com"], Ipv4Address::new(1, 2, 3, 4)));
    let q = query(0x4242, vec![question(&["example", "com"], DnsType::A)]);
    match process_tcp_request(q, &local) {
        TcpStep::Local { reply } => {
            assert_eq!(reply.header.id, 0x4242);
            assert_eq!(reply.header.query, false);
            assert_eq!(reply.answer.len(), 1);
        },
        _ => panic!("expected a local reply"),
    }
}

#[test]
fn tcp_upstream_roundtrip_merges_answer() {
    let local = LocalTable::new();
    let q = query(0x4242, vec![question(&["foo", "bar"], DnsType::A)]);
    let (upstream_query, local_answers) = match process_tcp_request(q, &local) {
        TcpStep::Upstream { query, local_answers } => (query, local_answers),
        _ => panic!("expected an upstream step"),
    };
    assert_eq!(upstream_query.header.id, 0x4242);
    assert!(local_answers.is_empty());
    // The upstream replies within the timeout; the merged response keeps
    // the id and the answer.
    let upstream_reply = response(
        0x4242,
        vec![a_record(&["foo", "bar"], Ipv4Address::new(93, 184, 216, 34))],
    );
    let merged = merge_response(upstream_reply, local_answers);
    assert_eq!(merged.header.id, 0x4242);
    assert_eq!(merged.answer.len(), 1);
    assert_eq!(merged.answer[0].data, DnsRRData::A(Ipv4Address::new(93, 184, 216, 34)));
}

#[test]
fn tcp_later_requests_served_after_a_dropped_one() {
    // A request whose upstream round-trip failed is simply dropped; the
    // next request on the connection is processed on its own.
    let mut local = LocalTable::new();
    local.add_entry(name(&["example", "com"]), a_record(&["example", "com"], Ipv4Address::new(1, 2, 3, 4)));
    let q1 = query(0x0001, vec![question(&["unanswered", "test"], DnsType::A)]);
    match process_tcp_request(q1, &local) {
        TcpStep::Upstream { .. } => {},  // upstream never replies: dropped by the caller
        _ => panic!("expected an upstream step"),
    }
    let q2 = query(0x0002, vec![question(&["example", "com"], DnsType::A)]);
    match process_tcp_request(q2, &local) {
        TcpStep::Local { reply } => {
            assert_eq!(reply.header.id, 0x0002);
            assert_eq!(reply.answer.len(), 1);
        },
        _ => panic!("expected a local reply"),
    }
}
