use dnsrelay::codec::{msg_well_formed, wire_length, DnsMessageCodec};
use dnsrelay::wire::CodecError;
use dnsrelay::message::{DnsMessage, DnsHeader, DnsQuestion, DnsResourceRecord, DnsRRData};
use dnsrelay::message::{DnsOpcode, DnsRcode, DnsType, DnsClass, Ipv4Address, Ipv6Address};

fn name(labels: &[&str]) -> Vec<String> {
    labels.iter().map(|s| s.to_string()).collect()
}

#[test]
fn test_both_1() {
    let message = DnsMessage {
        header: DnsHeader { id: 12345, query: true, truncated: true, ..Default::default() },
        question: vec![DnsQuestion {
            qname: name(&["ksqsf", "moe"]),
            qtype: DnsType::AAAA,
            qclass: DnsClass::Any,
        }],
        ..Default::default()
    };
    let mut buf = Vec::new();
    let codec = DnsMessageCodec::new(false);
    codec.encode(message, &mut buf).expect("encode");
    let decoded = codec.decode(&mut buf).expect("no error").expect("parse complete");
    assert_eq!(decoded.header.id, 12345);
    assert_eq!(decoded.header.query, true);
    assert_eq!(decoded.header.truncated, false); // truncated is overwritten
    assert_eq!(decoded.question[0].qname, name(&["ksqsf", "moe"]));
}

#[test]
fn test_both_2() {
    let message = DnsMessage {
        header: DnsHeader { id: 12345, truncated: true, ..Default::default() },
        question: vec![DnsQuestion {
            qname: name(&["ksqsf", "moe"]),
            qtype: DnsType::AAAA,
            qclass: DnsClass::Any,
        }],
        answer: vec![DnsResourceRecord {
            name: name(&["ksqsf", "moe"]),
            rtype: DnsType::A,
            rclass: DnsClass::Internet,
            ttl: 120,
            data: DnsRRData::A(Ipv4Address::new(127, 0, 0, 1)),
        }],
        ..Default::default()
    };
    let mut buf = Vec::with_capacity(4096);
    let codec = DnsMessageCodec::new(false);
    codec.encode(message, &mut buf).expect("encode");
    let decoded = codec.decode(&mut buf).expect("no error").expect("parse complete");
    assert_eq!(decoded.header.id, 12345);
    assert_eq!(decoded.header.truncated, false);
    assert_eq!(decoded.answer[0].name, name(&["ksqsf", "moe"]));
    assert_eq!(decoded.answer[0].ttl, 120);
    assert_eq!(decoded.answer[0].data, DnsRRData::A(Ipv4Address::new(127, 0, 0, 1)));
}

#[test]
fn test_many() {
    let mut buf = Vec::with_capacity(4096);
    let codec = DnsMessageCodec::new(true);
    let message = DnsMessage {
        header: DnsHeader { id: 12345, truncated: true, ..Default::default() },
        question: vec![DnsQuestion {
            qname: name(&["ksqsf", "moe"]),
            qtype: DnsType::AAAA,
            qclass: DnsClass::Any,
        }],
        answer: vec![DnsResourceRecord {
            name: name(&["ksqsf", "moe"]),
            rtype: DnsType::A,
            rclass: DnsClass::Internet,
            ttl: 120,
            data: DnsRRData::A(Ipv4Address::new(127, 0, 0, 1)),
        }],
        ..Default::default()
    };
    for _ in 0..16 {
        codec.encode(message.clone(), &mut buf).expect("encode");
    }
    for _ in 0..16 {
        codec.decode(&mut buf).expect("decode");
    }
    match codec.decode(&mut buf) {
        Ok(Some(_)) => unreachable!(),
        _ => (),
    }
}

#[test]
fn roundtrip_all_record_types() {
    let message = DnsMessage {
        header: DnsHeader {
            id: 7,
            query: false,
            opcode: DnsOpcode::Query,
            authoritative: true,
            truncated: false,
            recur_desired: true,
            recur_available: true,
            rcode: DnsRcode::NoErrorCondition,
        },
        question: vec![DnsQuestion {
            qname: name(&["example", "com"]),
            qtype: DnsType::Any,
            qclass: DnsClass::Internet,
        }],
        answer: vec![
            DnsResourceRecord {
                name: name(&["example", "com"]),
                rtype: DnsType::A,
                rclass: DnsClass::Internet,
                ttl: 60,
                data: DnsRRData::A(Ipv4Address::new(1, 2, 3, 4)),
            },
            DnsResourceRecord {
                name: name(&["example", "com"]),
                rtype: DnsType::AAAA,
                rclass: DnsClass::Internet,
                ttl: 60,
                data: DnsRRData::AAAA(Ipv6Address::new(0x2001, 0xdb8, 0, 0, 0, 0, 0, 1)),
            },
            DnsResourceRecord {
                name: name(&["example", "com"]),
                rtype: DnsType::MX,
                rclass: DnsClass::Internet,
                ttl: 60,
                data: DnsRRData::MX(10, name(&["mail", "example", "com"])),
            },
            DnsResourceRecord {
                name: name(&["www", "example", "com"]),
                rtype: DnsType::CNAME,
                rclass: DnsClass::Internet,
                ttl: 60,
                data: DnsRRData::CNAME(name(&["example", "com"])),
            },
            DnsResourceRecord {
                name: name(&["example", "com"]),
                rtype: DnsType::TXT,
                rclass: DnsClass::Internet,
                ttl: 60,
                data: DnsRRData::TXT(vec!["v=spf1 -all".to_string(), "x".to_string()]),
            },
        ],
        authority: vec![DnsResourceRecord {
            name: name(&["example", "com"]),
            rtype: DnsType::SOA,
            rclass: DnsClass::Internet,
            ttl: 60,
            data: DnsRRData::SOA(
                name(&["ns1", "example", "com"]),
                name(&["hostmaster", "example", "com"]),
                2024010101,
                7200,
                3600,
                1209600,
                300,
            ),
        }],
        additional: vec![DnsResourceRecord {
            name: name(&["example", "com"]),
            rtype: DnsType::NS,
            rclass: DnsClass::Internet,
            ttl: 60,
            data: DnsRRData::NS(name(&["ns1", "example", "com"])),
        }],
    };
    let codec = DnsMessageCodec::new(false);
    let mut buf = Vec::new();
    codec.encode(message.clone(), &mut buf).expect("encode");
    let decoded = codec.decode(&mut buf).expect("no error").expect("parse complete");
    assert!(buf.is_empty());
    assert_eq!(decoded.header.id, 7);
    assert_eq!(decoded.header.query, false);
    assert_eq!(decoded.header.authoritative, true);
    assert_eq!(decoded.header.recur_available, true);
    assert_eq!(decoded.question.len(), 1);
    assert_eq!(decoded.question[0].qname, name(&["example", "com"]));
    assert_eq!(decoded.question[0].qtype, DnsType::Any);
    assert_eq!(decoded.answer.len(), 5);
    assert_eq!(decoded.answer[0].data, DnsRRData::A(Ipv4Address::new(1, 2, 3, 4)));
    assert_eq!(
        decoded.answer[1].data,
        DnsRRData::AAAA(Ipv6Address::new(0x2001, 0xdb8, 0, 0, 0, 0, 0, 1))
    );
    assert_eq!(decoded.answer[2].data, DnsRRData::MX(10, name(&["mail", "example", "com"])));
    assert_eq!(decoded.answer[3].data, DnsRRData::CNAME(name(&["example", "com"])));
    assert_eq!(
        decoded.answer[4].data,
        DnsRRData::TXT(vec!["v=spf1 -all".to_string(), "x".to_string()])
    );
    assert_eq!(decoded.authority.len(), 1);
    assert_eq!(
        decoded.authority[0].data,
        DnsRRData::SOA(
            name(&["ns1", "example", "com"]),
            name(&["hostmaster", "example", "com"]),
            2024010101,
            7200,
            3600,
            1209600,
            300,
        )
    );
    assert_eq!(decoded.additional.len(), 1);
    assert_eq!(decoded.additional[0].data, DnsRRData::NS(name(&["ns1", "example", "com"])));
}

#[test]
fn datagram_truncated_to_512_with_tc_bit() {
    // A TXT answer of around 600 bytes on the wire.
    let big = "a".repeat(200);
    let message = DnsMessage {
        header: DnsHeader { id: 99, query: false, ..Default::default() },
        answer: vec![DnsResourceRecord {
            name: name(&["big", "example"]),
            rtype: DnsType::TXT,
            rclass: DnsClass::Internet,
            ttl: 1,
            data: DnsRRData::TXT(vec![big.clone(), big.clone(), big.clone()]),
        }],
        ..Default::default()
    };
    let codec = DnsMessageCodec::new(false);
    let mut buf = Vec::new();
    codec.encode(message, &mut buf).expect("encode");
    assert_eq!(buf.len(), 512);
    assert_ne!(buf[2] & 0b10, 0); // TC bit set
}

#[test]
fn datagram_small_clears_tc_bit() {
    let message = DnsMessage {
        header: DnsHeader { id: 1, query: true, truncated: true, ..Default::default() },
        ..Default::default()
    };
    let codec = DnsMessageCodec::new(false);
    let mut buf = Vec::new();
    codec.encode(message, &mut buf).expect("encode");
    assert_eq!(buf.len(), 12);
    assert_eq!(buf[2] & 0b10, 0); // TC bit cleared
}

#[test]
fn stream_framing_prefix_and_consumption() {
    let message = DnsMessage {
        header: DnsHeader { id: 0x4242, query: true, ..Default::default() },
        question: vec![DnsQuestion {
            qname: name(&["foo", "bar"]),
            qtype: DnsType::A,
            qclass: DnsClass::Internet,
        }],
        ..Default::default()
    };
    let codec = DnsMessageCodec::new(true);
    let mut buf = Vec::new();
    codec.encode(message, &mut buf).expect("encode");
    let framed_len = ((buf[0] as usize) << 8) | buf[1] as usize;
    assert_eq!(framed_len + 2, buf.len());

    // An incomplete frame yields no message and consumes nothing.
    let mut partial = buf[..buf.len() - 1].to_vec();
    let before = partial.clone();
    assert!(codec.decode(&mut partial).expect("no error").is_none());
    assert_eq!(partial, before);

    // The complete frame yields the message and empties the buffer.
    let decoded = codec.decode(&mut buf).expect("no error").expect("parse complete");
    assert_eq!(decoded.header.id, 0x4242);
    assert_eq!(decoded.question[0].qname, name(&["foo", "bar"]));
    assert!(buf.is_empty());
}

/// Builds the 12 header bytes directly.
fn header_bytes(id: u16, flags1: u8, flags2: u8, qd: u16, an: u16, ns: u16, ar: u16) -> Vec<u8> {
    let mut b = Vec::new();
    for v in [id, ((flags1 as u16) << 8) | flags2 as u16, qd, an, ns, ar] {
        b.push((v >> 8) as u8);
        b.push((v & 0xff) as u8);
    }
    b
}

fn push_name(b: &mut Vec<u8>, labels: &[&str]) {
    for l in labels {
        b.push(l.len() as u8);
        b.extend_from_slice(l.as_bytes());
    }
    b.push(0);
}

#[test]
fn resync_skips_unsupported_record_by_rdlength() {
    // One question, three answers; the second answer has an unsupported
    // rtype with RDLENGTH 5, and must be skipped by exactly 5 bytes.
    let mut b = header_bytes(0x1234, 0x80, 0x00, 0, 3, 0, 0);
    // answer 1: A record
    push_name(&mut b, &["a", "test"]);
    b.extend_from_slice(&[0, 1, 0, 1]); // type A, class IN
    b.extend_from_slice(&[0, 0, 0, 60]); // ttl
    b.extend_from_slice(&[0, 4, 9, 9, 9, 9]); // rdlen 4, 9.9.9.9
    // answer 2: unsupported type 99 with rdlen 5
    push_name(&mut b, &["b", "test"]);
    b.extend_from_slice(&[0, 99, 0, 1]);
    b.extend_from_slice(&[0, 0, 0, 60]);
    b.extend_from_slice(&[0, 5, 1, 2, 3, 4, 5]); // rdlen 5 and 5 junk bytes
    // answer 3: A record again
    push_name(&mut b, &["c", "test"]);
    b.extend_from_slice(&[0, 1, 0, 1]);
    b.extend_from_slice(&[0, 0, 0, 60]);
    b.extend_from_slice(&[0, 4, 8, 8, 8, 8]);

    let codec = DnsMessageCodec::new(false);
    let decoded = codec.decode(&mut b).expect("no error").expect("parse complete");
    assert_eq!(decoded.answer.len(), 2);
    assert_eq!(decoded.answer[0].name, name(&["a", "test"]));
    assert_eq!(decoded.answer[0].data, DnsRRData::A(Ipv4Address::new(9, 9, 9, 9)));
    assert_eq!(decoded.answer[1].name, name(&["c", "test"]));
    assert_eq!(decoded.answer[1].data, DnsRRData::A(Ipv4Address::new(8, 8, 8, 8)));
}

#[test]
fn name_pointer_shares_first_qname() {
    // Two questions; the second one's qname is a pointer to the first.
    let mut b = header_bytes(0x2222, 0x00, 0x00, 2, 0, 0, 0);
    let first_name_offset = b.len() as u16; // 12
    push_name(&mut b, &["ksqsf", "moe"]);
    b.extend_from_slice(&[0, 28, 0, 1]); // AAAA, IN
    b.push(0xc0 | (first_name_offset >> 8) as u8);
    b.push((first_name_offset & 0xff) as u8);
    b.extend_from_slice(&[0, 1, 0, 1]); // A, IN

    let codec = DnsMessageCodec::new(false);
    let decoded = codec.decode(&mut b).expect("no error").expect("parse complete");
    assert_eq!(decoded.question.len(), 2);
    assert_eq!(decoded.question[0].qname, name(&["ksqsf", "moe"]));
    assert_eq!(decoded.question[1].qname, name(&["ksqsf", "moe"]));
    assert_eq!(decoded.question[1].qtype, DnsType::A);
}

#[test]
fn unknown_opcode_rejects_message() {
    // flags1 = 0x80 | (7 << 3): response with opcode 7.
    let mut b = header_bytes(1, 0x80 | (7 << 3), 0x00, 0, 0, 0, 0);
    let codec = DnsMessageCodec::new(false);
    assert!(matches!(codec.decode(&mut b), Err(CodecError::UnknownOpcode(7))));
}

#[test]
fn unknown_rcode_rejects_message() {
    let mut b = header_bytes(1, 0x80, 0x0c, 0, 0, 0, 0); // rcode 12
    let codec = DnsMessageCodec::new(false);
    assert!(matches!(codec.decode(&mut b), Err(CodecError::UnknownRcode(12))));
}

#[test]
fn reserved_label_form_is_malformed() {
    let mut b = header_bytes(1, 0x00, 0x00, 1, 0, 0, 0);
    b.push(0x40); // 01 prefix: reserved
    b.extend_from_slice(&[0, 1, 0, 1]);
    let codec = DnsMessageCodec::new(false);
    assert!(matches!(codec.decode(&mut b), Err(CodecError::MalformedName)));
}

#[test]
fn promised_record_beyond_buffer_is_unexpected_end() {
    // Header promises one question, but the buffer ends right after it.
    let mut b = header_bytes(1, 0x00, 0x00, 1, 0, 0, 0);
    let codec = DnsMessageCodec::new(false);
    assert!(matches!(codec.decode(&mut b), Err(CodecError::UnexpectedEnd)));
}

#[test]
fn short_datagram_is_incomplete() {
    let mut b = vec![0u8; 11];
    let codec = DnsMessageCodec::new(false);
    assert!(codec.decode(&mut b).expect("no error").is_none());
    assert_eq!(b.len(), 11);
}

#[test]
fn roundtrip_root_name_and_max_label() {
    let max_label = "x".repeat(63);
    let message = DnsMessage {
        header: DnsHeader { id: 21, query: true, ..Default::default() },
        question: vec![
            DnsQuestion { qname: Vec::new(), qtype: DnsType::NS, qclass: DnsClass::Internet },
            DnsQuestion {
                qname: vec![max_label.clone(), "test".to_string()],
                qtype: DnsType::A,
                qclass: DnsClass::Internet,
            },
        ],
        ..Default::default()
    };
    let codec = DnsMessageCodec::new(false);
    let mut buf = Vec::new();
    codec.encode(message, &mut buf).expect("encode");
    let decoded = codec.decode(&mut buf).expect("no error").expect("parse complete");
    assert_eq!(decoded.question.len(), 2);
    assert!(decoded.question[0].qname.is_empty());
    assert_eq!(decoded.question[1].qname, vec![max_label, "test".to_string()]);
}

#[test]
fn roundtrip_empty_txt_rdata() {
    let message = DnsMessage {
        header: DnsHeader { id: 8, query: false, ..Default::default() },
        answer: vec![DnsResourceRecord {
            name: name(&["t", "test"]),
            rtype: DnsType::TXT,
            rclass: DnsClass::Internet,
            ttl: 5,
            data: DnsRRData::TXT(Vec::new()),
        }],
        ..Default::default()
    };
    let codec = DnsMessageCodec::new(false);
    let mut buf = Vec::new();
    codec.encode(message, &mut buf).expect("encode");
    let decoded = codec.decode(&mut buf).expect("no error").expect("parse complete");
    assert_eq!(decoded.answer.len(), 1);
    assert_eq!(decoded.answer[0].data, DnsRRData::TXT(Vec::new()));
}

#[test]
fn datagram_decode_leaves_trailing_bytes() {
    let message = DnsMessage {
        header: DnsHeader { id: 6, query: true, ..Default::default() },
        question: vec![question_a("tail.test")],
        ..Default::default()
    };
    let codec = DnsMessageCodec::new(false);
    let mut buf = Vec::new();
    codec.encode(message, &mut buf).expect("encode");
    buf.extend_from_slice(&[0xde, 0xad]);
    let decoded = codec.decode(&mut buf).expect("no error").expect("parse complete");
    assert_eq!(decoded.header.id, 6);
    assert_eq!(buf, vec![0xde, 0xad]);
}

fn question_a(dotted: &str) -> DnsQuestion {
    DnsQuestion {
        qname: dotted.split('.').map(String::from).collect(),
        qtype: DnsType::A,
        qclass: DnsClass::Internet,
    }
}

#[test]
fn well_formedness_guard() {
    let good = DnsMessage {
        header: DnsHeader { id: 1, query: true, ..Default::default() },
        question: vec![question_a("ok.test")],
        ..Default::default()
    };
    assert!(msg_well_formed(&good));
    // Header (12) + name (1+2+1+4+1) + type and class (4).
    assert_eq!(wire_length(&good), 25);

    let overlong = DnsMessage {
        header: DnsHeader { id: 1, query: true, ..Default::default() },
        question: vec![DnsQuestion {
            qname: vec!["y".repeat(64)],
            qtype: DnsType::A,
            qclass: DnsClass::Internet,
        }],
        ..Default::default()
    };
    assert!(!msg_well_formed(&overlong));

    let empty_label = DnsMessage {
        header: DnsHeader { id: 1, query: true, ..Default::default() },
        question: vec![DnsQuestion {
            qname: vec![String::new()],
            qtype: DnsType::A,
            qclass: DnsClass::Internet,
        }],
        ..Default::default()
    };
    assert!(!msg_well_formed(&empty_label));
}

#[test]
fn stream_bad_frame_consumed_next_frame_served() {
    let codec = DnsMessageCodec::new(true);
    // First frame: a message with an unknown opcode (flags 0x38 = opcode 7).
    let mut bad = header_bytes(1, 0x38, 0x00, 0, 0, 0, 0);
    let mut buf = vec![0u8, bad.len() as u8];
    buf.append(&mut bad);
    // Second frame: a valid query.
    let good = DnsMessage {
        header: DnsHeader { id: 0x5151, query: true, ..Default::default() },
        question: vec![DnsQuestion {
            qname: name(&["next", "test"]),
            qtype: DnsType::A,
            qclass: DnsClass::Internet,
        }],
        ..Default::default()
    };
    codec.encode(good, &mut buf).expect("encode");
    assert!(matches!(codec.decode(&mut buf), Err(CodecError::UnknownOpcode(7))));
    let decoded = codec.decode(&mut buf).expect("no error").expect("parse complete");
    assert_eq!(decoded.header.id, 0x5151);
    assert!(buf.is_empty());
}

#[test]
fn unknown_qtype_skips_question_only() {
    // Two questions: the first with unknown type 200, the second valid.
    let mut b = header_bytes(5, 0x00, 0x00, 2, 0, 0, 0);
    push_name(&mut b, &["x"]);
    b.extend_from_slice(&[0, 200, 0, 1]);
    push_name(&mut b, &["y"]);
    b.extend_from_slice(&[0, 1, 0, 1]);
    let codec = DnsMessageCodec::new(false);
    let decoded = codec.decode(&mut b).expect("no error").expect("parse complete");
    assert_eq!(decoded.question.len(), 1);
    assert_eq!(decoded.question[0].qname, name(&["y"]));
}
