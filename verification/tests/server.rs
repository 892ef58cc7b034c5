use dns_in_a_weekend::server::{
    encode_reply, handle_query, lookup_answer, read_packet, read_query, reply_to, resolver_for,
    Handling,
};
use dns_in_a_weekend::{
    ByteCursor, DNSError, DNSHeader, DNSHeaderFlag, DNSPacket, DNSQuery, DNSQuestion, DNSRecord,
    DNSRecordClass, DNSRecordType, FromBytes, Opts, ToBytes,
};

fn example_packet() -> DNSPacket {
    DNSPacket {
        header: DNSHeader {
            id: 0x6056,
            flags: DNSHeaderFlag::Other(33152),
            num_questions: 1,
            num_answers: 1,
            num_authorities: 1,
            num_additionals: 2,
        },
        questions: vec![DNSQuestion::new("www.example.com", DNSRecordType::A, DNSRecordClass::IN)],
        answers: vec![DNSRecord {
            name: "www.example.com".to_string(),
            record_type: DNSRecordType::A,
            class: DNSRecordClass::IN,
            ttl: 21147,
            data: vec![93, 184, 216, 34],
        }],
        authorities: vec![DNSRecord {
            name: "example.com".to_string(),
            record_type: DNSRecordType::NS,
            class: DNSRecordClass::CH,
            ttl: 0xffff_ffff,
            data: b"\x01a\x0ciana-servers\x03net\0".to_vec(),
        }],
        additionals: vec![
            DNSRecord {
                name: "a.iana-servers.net".to_string(),
                record_type: DNSRecordType::AAAA,
                class: DNSRecordClass::HS,
                ttl: 0,
                data: vec![0x20, 1, 5, 0, 0, 0x8f, 0, 0, 0, 0, 0, 0, 0, 0, 0, 0x53],
            },
            DNSRecord {
                name: "x".to_string(),
                record_type: DNSRecordType::TXT,
                class: DNSRecordClass::CS,
                ttl: 1,
                data: vec![],
            },
        ],
    }
}

fn same_packet(a: &DNSPacket, b: &DNSPacket) -> bool {
    a.header == b.header
        && a.questions == b.questions
        && a.answers == b.answers
        && a.authorities == b.authorities
        && a.additionals == b.additionals
}

#[test]
fn the_options_hold_the_port() {
    let opts = Opts { port: 5353 };
    assert_eq!(opts.port, 5353);
}

#[test]
fn a_packet_round_trips() {
    let packet = example_packet();
    let mut bytes = vec![];
    let count = packet.to_bytes(&mut bytes).unwrap();
    // the count leaves out the terminator of each of the five names
    assert_eq!(count + 5, bytes.len());
    let decoded = read_packet(&bytes).unwrap();
    assert!(same_packet(&decoded, &packet));

    let again = encode_reply(&decoded).unwrap();
    assert_eq!(again, bytes);
}

#[test]
fn a_packet_is_written_section_by_section() {
    let packet = example_packet();
    let mut expected = vec![];
    packet.header.to_bytes(&mut expected).unwrap();
    packet.questions[0].to_bytes(&mut expected).unwrap();
    packet.answers[0].to_bytes(&mut expected).unwrap();
    packet.authorities[0].to_bytes(&mut expected).unwrap();
    packet.additionals[0].to_bytes(&mut expected).unwrap();
    packet.additionals[1].to_bytes(&mut expected).unwrap();
    assert_eq!(encode_reply(&packet).unwrap(), expected);
}

#[test]
fn a_record_is_written_field_by_field() {
    let record = &example_packet().answers[0];
    let mut bytes = vec![];
    let count = record.to_bytes(&mut bytes).unwrap();
    let mut expected = b"\x03www\x07example\x03com\0".to_vec();
    expected.extend_from_slice(&[0, 1, 0, 1, 0, 0, 0x52, 0x9b, 0, 4, 93, 184, 216, 34]);
    assert_eq!(bytes, expected);
    assert_eq!(count, 16 + 10 + 4);

    let mut cursor = ByteCursor::new(&bytes);
    assert_eq!(&DNSRecord::from_bytes(&mut cursor).unwrap(), record);
    assert_eq!(cursor.position(), bytes.len());
}

#[test]
fn a_header_keeps_the_order_of_its_counts() {
    let header = DNSHeader {
        id: 0xabcd,
        flags: DNSHeaderFlag::RecursionDesired,
        num_questions: 1,
        num_answers: 2,
        num_authorities: 3,
        num_additionals: 4,
    };
    let mut bytes = vec![];
    assert_eq!(header.to_bytes(&mut bytes).unwrap(), 12);
    assert_eq!(bytes, vec![0xab, 0xcd, 1, 0, 0, 1, 0, 2, 0, 3, 0, 4]);
    let mut cursor = ByteCursor::new(&bytes);
    assert_eq!(DNSHeader::from_bytes(&mut cursor).unwrap(), header);
    assert_eq!(cursor.position(), 12);

    let mut cursor = ByteCursor::new(&bytes[..11]);
    assert!(matches!(DNSHeader::from_bytes(&mut cursor), Err(DNSError::IOError)));
}

#[test]
fn flags_decode_to_their_names() {
    assert_eq!(DNSHeaderFlag::from(0u16), DNSHeaderFlag::NoFlags);
    assert_eq!(DNSHeaderFlag::from(256u16), DNSHeaderFlag::RecursionDesired);
    assert_eq!(DNSHeaderFlag::from(33152u16), DNSHeaderFlag::Other(33152));
    assert_eq!(u16::from(DNSHeaderFlag::NoFlags), 0);
    assert_eq!(u16::from(DNSHeaderFlag::RecursionDesired), 256);
    assert_eq!(u16::from(DNSHeaderFlag::Other(7)), 7);
    // a value that is not canonical does not come back as itself
    let header = DNSHeader {
        id: 1,
        flags: DNSHeaderFlag::Other(0),
        num_questions: 0,
        num_answers: 0,
        num_authorities: 0,
        num_additionals: 0,
    };
    let mut bytes = vec![];
    header.to_bytes(&mut bytes).unwrap();
    let mut cursor = ByteCursor::new(&bytes);
    assert_eq!(DNSHeader::from_bytes(&mut cursor).unwrap().flags, DNSHeaderFlag::NoFlags);
}

#[test]
fn codes_of_types_and_classes() {
    let types = [
        (DNSRecordType::A, 1u16),
        (DNSRecordType::NS, 2),
        (DNSRecordType::CNAME, 5),
        (DNSRecordType::SOA, 6),
        (DNSRecordType::TXT, 16),
        (DNSRecordType::AAAA, 28),
        (DNSRecordType::OPT, 41),
    ];
    for (record_type, code) in types {
        assert_eq!(record_type.code(), code);
        assert_eq!(DNSRecordType::try_from(code).unwrap(), record_type);
    }
    let classes = [
        (DNSRecordClass::IN, 1u16),
        (DNSRecordClass::CS, 2),
        (DNSRecordClass::CH, 3),
        (DNSRecordClass::HS, 4),
    ];
    for (class, code) in classes {
        assert_eq!(class.code(), code);
        assert_eq!(DNSRecordClass::try_from(code).unwrap(), class);
    }
    for code in 0..=u16::MAX {
        if !types.iter().any(|(_, known)| *known == code) {
            assert!(matches!(DNSRecordType::try_from(code), Err(DNSError::BadRecordType(c)) if c == code));
        }
        if !(1..=4).contains(&code) {
            assert!(matches!(DNSRecordClass::try_from(code), Err(DNSError::BadRecordClass(c)) if c == code));
        }
    }
}

#[test]
fn an_unknown_code_fails_decoding_with_the_code() {
    let mut bytes = b"\x01a\0".to_vec();
    bytes.extend_from_slice(&[0, 99, 0, 77]);
    let mut cursor = ByteCursor::new(&bytes);
    assert!(matches!(DNSQuestion::from_bytes(&mut cursor), Err(DNSError::BadRecordType(99))));

    let mut bytes = b"\x01a\0".to_vec();
    bytes.extend_from_slice(&[0, 1, 0x12, 0x34]);
    let mut cursor = ByteCursor::new(&bytes);
    assert!(matches!(DNSQuestion::from_bytes(&mut cursor), Err(DNSError::BadRecordClass(0x1234))));

    // a question reads both codes before it looks at either
    let mut bytes = b"\x01a\0".to_vec();
    bytes.extend_from_slice(&[0, 99, 0]);
    let mut cursor = ByteCursor::new(&bytes);
    assert!(matches!(DNSQuestion::from_bytes(&mut cursor), Err(DNSError::IOError)));

    // a record looks at the type as soon as it is read
    let mut cursor = ByteCursor::new(&bytes);
    assert!(matches!(DNSRecord::from_bytes(&mut cursor), Err(DNSError::BadRecordType(99))));

    let mut bytes = b"\x01a\0".to_vec();
    bytes.extend_from_slice(&[0, 1, 0, 9, 0, 0, 0, 0, 0, 0]);
    let mut cursor = ByteCursor::new(&bytes);
    assert!(matches!(DNSRecord::from_bytes(&mut cursor), Err(DNSError::BadRecordClass(9))));
}

#[test]
fn a_record_believes_its_data_length() {
    let mut bytes = b"\x01a\0".to_vec();
    bytes.extend_from_slice(&[0, 16, 0, 1, 0, 0, 0, 5, 0, 3, 1, 2]);
    let mut cursor = ByteCursor::new(&bytes);
    assert!(matches!(DNSRecord::from_bytes(&mut cursor), Err(DNSError::IOError)));
    bytes.extend_from_slice(&[3, 4]);
    let mut cursor = ByteCursor::new(&bytes);
    let record = DNSRecord::from_bytes(&mut cursor).unwrap();
    assert_eq!(record.data, vec![1, 2, 3]);
    assert_eq!(record.ttl, 5);
    assert_eq!(cursor.position(), bytes.len() - 1);
}

#[test]
fn a_packet_believes_its_counts() {
    let mut packet = example_packet();
    packet.header.num_answers = 2;
    let mut bytes = vec![];
    packet.to_bytes(&mut bytes).unwrap();
    // the authority record is read as the second answer, and then one is missing
    assert!(matches!(read_packet(&bytes), Err(DNSError::IOError)));

    let mut packet = example_packet();
    packet.header.num_additionals = 1;
    let mut bytes = vec![];
    packet.to_bytes(&mut bytes).unwrap();
    let decoded = read_packet(&bytes).unwrap();
    assert_eq!(decoded.additionals.len(), 1);
}

#[test]
fn data_of_more_than_65535_bytes_are_refused() {
    let mut record = example_packet().answers.remove(0);
    record.data = vec![0; 65535];
    let mut bytes = vec![];
    assert_eq!(record.to_bytes(&mut bytes).unwrap(), 16 + 10 + 65535);
    assert_eq!(&bytes[25..27], &[0xff, 0xff]);

    record.data = vec![0; 65536];
    let mut bytes = vec![];
    assert!(matches!(record.to_bytes(&mut bytes), Err(DNSError::IntTooLarge)));

    let mut packet = example_packet();
    packet.authorities[0].data = vec![0; 65536];
    assert!(matches!(encode_reply(&packet), Err(DNSError::IntTooLarge)));
    packet.answers[0].name = format!("{}.com", "a".repeat(300));
    assert!(matches!(
        encode_reply(&packet),
        Err(DNSError::DomainNameHasTooLongPart { .. })
    ));
}

#[test]
fn a_query_is_read_and_answered_under_its_id() {
    let query = DNSQuery::with_id(
        0xbeef,
        "www.example.com",
        DNSRecordType::A,
        DNSRecordClass::IN,
        DNSHeaderFlag::RecursionDesired,
    );
    let mut datagram = vec![];
    assert_eq!(query.to_bytes(&mut datagram).unwrap(), 12 + 16 + 4);
    assert_eq!(&datagram[..4], &[0xbe, 0xef, 1, 0]);

    let read = read_query(&datagram).unwrap();
    assert_eq!(read.header, query.header);
    assert_eq!(read.question, query.question);

    let resolver = resolver_for(&read);
    assert_eq!(resolver.record_type, DNSRecordType::A);
    assert_eq!(resolver.lookups.len(), 1);
    assert_eq!(resolver.lookups[0].domain_name, "www.example.com");

    let cached = example_packet();
    let reply = reply_to(&read, cached.clone());
    assert_eq!(reply.header.id, 0xbeef);
    assert_eq!(reply.header.flags, cached.header.flags);
    assert_eq!(reply.header.num_answers, cached.header.num_answers);
    assert_eq!(reply.questions, cached.questions);
    assert_eq!(reply.answers, cached.answers);
    assert_eq!(reply.authorities, cached.authorities);
    assert_eq!(reply.additionals, cached.additionals);

    let bytes = encode_reply(&reply).unwrap();
    assert_eq!(&bytes[..2], &[0xbe, 0xef]);

    assert!(matches!(read_query(&datagram[..20]), Err(DNSError::IOError)));
}

#[test]
fn fresh_queries_differ_only_in_their_id() {
    let a = DNSQuery::new("example.com", DNSRecordType::NS, DNSRecordClass::CH, DNSHeaderFlag::NoFlags);
    let b = DNSQuery::new("example.com", DNSRecordType::NS, DNSRecordClass::CH, DNSHeaderFlag::NoFlags);
    let mut first = vec![];
    let mut second = vec![];
    a.to_bytes(&mut first).unwrap();
    b.to_bytes(&mut second).unwrap();
    assert_eq!(first[2..], second[2..]);
    assert_eq!(a.question.name, "example.com");
    assert_eq!(a.header.num_questions, 1);
}

#[test]
fn a_reply_without_an_address_has_no_answer() {
    let mut packet = example_packet();
    packet.answers.clear();
    packet.header.num_answers = 0;
    let bytes = encode_reply(&packet).unwrap();
    assert!(matches!(lookup_answer(&bytes), Err(DNSError::NoIpAddressFound)));
    assert!(matches!(lookup_answer(&bytes[..30]), Err(DNSError::IOError)));
    let bytes = encode_reply(&example_packet()).unwrap();
    assert_eq!(lookup_answer(&bytes).unwrap(), "93.184.216.34");
}

#[test]
fn a_cached_packet_is_the_reply_and_nothing_cached_is_resolved() {
    let query = DNSQuery::with_id(
        77,
        "www.example.com",
        DNSRecordType::AAAA,
        DNSRecordClass::IN,
        DNSHeaderFlag::NoFlags,
    );
    match handle_query(&query, Some(example_packet())) {
        Handling::Reply(reply) => {
            assert_eq!(reply.header.id, 77);
            assert_eq!(reply.answers, example_packet().answers);
        }
        other => panic!("unexpected: {:?}", other),
    }
    match handle_query(&query, None) {
        Handling::Resolve(resolver) => {
            assert_eq!(resolver.record_type, DNSRecordType::AAAA);
            assert_eq!(resolver.lookups.len(), 1);
            assert_eq!(resolver.lookups[0].domain_name, "www.example.com");
            assert_eq!(resolver.lookups[0].nameserver.to_string(), "198.41.0.4");
        }
        other => panic!("unexpected: {:?}", other),
    }
}
