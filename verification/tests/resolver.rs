use dns_in_a_weekend::resolver::{next_step, root_nameserver, Resolver, Step};
use dns_in_a_weekend::{
    encode, ByteCursor, DNSError, DNSHeader, DNSHeaderFlag, DNSPacket, DNSQuestion, DNSRecord,
    DNSRecordClass, DNSRecordType, FromBytes, IpAddress, Ipv4Address, Ipv6Address, ToBytes,
};

fn v4(a: u8, b: u8, c: u8, d: u8) -> IpAddress {
    IpAddress::V4(Ipv4Address { octets: [a, b, c, d] })
}

fn record(name: &str, record_type: DNSRecordType, data: Vec<u8>) -> DNSRecord {
    DNSRecord { name: name.to_string(), record_type, class: DNSRecordClass::IN, ttl: 60, data }
}

fn name_data(name: &str) -> Vec<u8> {
    let mut data = vec![];
    encode::dns_name(&mut data, name).unwrap();
    data
}

/// A reply as it comes from the wire: built, encoded and decoded again.
fn reply(
    name: &str,
    answers: Vec<DNSRecord>,
    authorities: Vec<DNSRecord>,
    additionals: Vec<DNSRecord>,
) -> DNSPacket {
    let packet = DNSPacket {
        header: DNSHeader {
            id: 7,
            flags: DNSHeaderFlag::Other(0x8000),
            num_questions: 1,
            num_answers: answers.len() as u16,
            num_authorities: authorities.len() as u16,
            num_additionals: additionals.len() as u16,
        },
        questions: vec![DNSQuestion::new(name, DNSRecordType::A, DNSRecordClass::IN)],
        answers,
        authorities,
        additionals,
    };
    let mut bytes = vec![];
    packet.to_bytes(&mut bytes).unwrap();
    let mut cursor = ByteCursor::new(&bytes);
    let decoded = DNSPacket::from_bytes(&mut cursor).unwrap();
    assert_eq!(cursor.position(), bytes.len());
    decoded
}

fn asks(resolver: &Resolver, name: &str, nameserver: IpAddress) {
    assert!(!resolver.is_done());
    let (to, query) = resolver.next_query();
    assert_eq!(to, nameserver);
    assert_eq!(query.question.name, name);
    assert_eq!(query.question.record_type, resolver.record_type);
    assert_eq!(query.question.class, DNSRecordClass::IN);
    assert_eq!(query.header.flags, DNSHeaderFlag::NoFlags);
    assert_eq!(query.header.num_questions, 1);
    assert_eq!(query.header.num_answers, 0);
    assert_eq!(query.header.num_authorities, 0);
    assert_eq!(query.header.num_additionals, 0);
}

#[test]
fn the_root_is_198_41_0_4() {
    assert_eq!(root_nameserver(), v4(198, 41, 0, 4));
    assert_eq!(root_nameserver().to_string(), "198.41.0.4");
}

#[test]
fn an_answer_of_the_family_asked_for_answers() {
    let response = reply(
        "www.example.com",
        vec![
            record("www.example.com", DNSRecordType::TXT, vec![1, 2, 3, 4]),
            record("www.example.com", DNSRecordType::A, vec![93, 184, 216, 34]),
        ],
        vec![record("example.com", DNSRecordType::NS, name_data("ns.example.com"))],
        vec![record("ns.example.com", DNSRecordType::A, vec![1, 1, 1, 1])],
    );
    assert!(matches!(
        next_step(&response, DNSRecordType::A),
        Step::Answered(a) if a == v4(93, 184, 216, 34)
    ));
    // asked for the other family, the same reply only names a nameserver
    assert!(matches!(
        next_step(&response, DNSRecordType::AAAA),
        Step::AskNameserver(a) if a == v4(1, 1, 1, 1)
    ));
    assert_eq!(response.get_answer(), Some(v4(93, 184, 216, 34)));
    assert_eq!(response.get_answer_for(DNSRecordType::A), Some(v4(93, 184, 216, 34)));
    assert_eq!(response.get_answer_for(DNSRecordType::AAAA), None);
    assert_eq!(response.get_answer_for(DNSRecordType::TXT), None);
}

#[test]
fn an_aaaa_answer_answers_an_aaaa_question() {
    let mut data = vec![0u8; 16];
    data[15] = 1;
    let response = reply("localhost", vec![record("localhost", DNSRecordType::AAAA, data)], vec![], vec![]);
    let expected = IpAddress::V6(Ipv6Address { segments: [0, 0, 0, 0, 0, 0, 0, 1] });
    assert!(matches!(next_step(&response, DNSRecordType::AAAA), Step::Answered(a) if a == expected));
    assert!(matches!(next_step(&response, DNSRecordType::A), Step::Failed(DNSError::Other)));
    assert_eq!(response.get_answer(), Some(expected));
    assert_eq!(response.ip(), None);
}

#[test]
fn glue_comes_before_the_name_of_a_nameserver() {
    let response = reply(
        "www.example.com",
        vec![record("www.example.com", DNSRecordType::CNAME, name_data("example.com"))],
        vec![record("com", DNSRecordType::NS, name_data("a.gtld-servers.net"))],
        vec![
            record("a.gtld-servers.net", DNSRecordType::A, vec![1, 2]),
            record("a.gtld-servers.net", DNSRecordType::A, vec![192, 5, 6, 30]),
        ],
    );
    assert!(matches!(
        next_step(&response, DNSRecordType::A),
        Step::AskNameserver(a) if a == v4(192, 5, 6, 30)
    ));
    assert_eq!(response.get_nameserver_ip(), Some(v4(192, 5, 6, 30)));
    assert_eq!(
        response.get_nameserver_from_authorities().unwrap(),
        Some("a.gtld-servers.net".to_string())
    );
    assert_eq!(response.get_nameserver_from_additionals().unwrap(), None);
    assert_eq!(response.get_nameserver().unwrap(), Some("a.gtld-servers.net".to_string()));
    assert_eq!(response.get_cname_record().unwrap(), Some("example.com".to_string()));
}

#[test]
fn the_name_of_a_nameserver_comes_before_an_alias() {
    let response = reply(
        "www.example.com",
        vec![record("www.example.com", DNSRecordType::CNAME, name_data("example.com"))],
        vec![
            record("com", DNSRecordType::SOA, vec![0]),
            record("com", DNSRecordType::NS, name_data("a.gtld-servers.net")),
            record("com", DNSRecordType::NS, name_data("b.gtld-servers.net")),
        ],
        vec![],
    );
    assert!(matches!(
        next_step(&response, DNSRecordType::A),
        Step::ResolveNameserver(name) if name == "a.gtld-servers.net"
    ));
}

#[test]
fn a_nameserver_named_only_among_the_additional_records_is_no_referral() {
    let response = reply(
        "www.example.com",
        vec![],
        vec![],
        vec![record("com", DNSRecordType::NS, name_data("a.gtld-servers.net"))],
    );
    assert_eq!(response.get_nameserver_from_authorities().unwrap(), None);
    assert_eq!(response.get_nameserver().unwrap(), Some("a.gtld-servers.net".to_string()));
    assert!(matches!(next_step(&response, DNSRecordType::A), Step::Failed(DNSError::Other)));
}

#[test]
fn an_empty_reply_fails() {
    let response = reply("www.example.com", vec![], vec![], vec![]);
    assert!(matches!(next_step(&response, DNSRecordType::A), Step::Failed(DNSError::Other)));
}

#[test]
fn a_name_that_does_not_decode_fails_the_resolution() {
    let response = reply(
        "www.example.com",
        vec![],
        vec![record("com", DNSRecordType::NS, b"\x05ab".to_vec())],
        vec![],
    );
    assert!(matches!(response.get_nameserver_from_authorities(), Err(DNSError::IOError)));
    assert!(matches!(next_step(&response, DNSRecordType::A), Step::Failed(DNSError::IOError)));

    let response = reply(
        "www.example.com",
        vec![record("www.example.com", DNSRecordType::CNAME, vec![0xc0, 0x00])],
        vec![],
        vec![],
    );
    assert!(matches!(response.get_cname_record(), Err(DNSError::CompressionLoop)));
    assert!(matches!(
        next_step(&response, DNSRecordType::A),
        Step::Failed(DNSError::CompressionLoop)
    ));
}

#[test]
fn test_resolve() {
    // the walk from the root to an answer, with the replies scripted
    let mut resolver = Resolver::new("facebook.com", DNSRecordType::A);
    asks(&resolver, "facebook.com", v4(198, 41, 0, 4));

    let from_root = reply(
        "facebook.com",
        vec![],
        vec![record("com", DNSRecordType::NS, name_data("a.gtld-servers.net"))],
        vec![record("a.gtld-servers.net", DNSRecordType::A, vec![192, 5, 6, 30])],
    );
    assert!(resolver.receive(from_root).is_none());
    asks(&resolver, "facebook.com", v4(192, 5, 6, 30));

    let from_tld = reply(
        "facebook.com",
        vec![],
        vec![record("facebook.com", DNSRecordType::NS, name_data("a.ns.facebook.com"))],
        vec![record("a.ns.facebook.com", DNSRecordType::A, vec![129, 134, 30, 12])],
    );
    assert!(resolver.receive(from_tld).is_none());
    asks(&resolver, "facebook.com", v4(129, 134, 30, 12));

    let answer = reply(
        "facebook.com",
        vec![record("facebook.com", DNSRecordType::A, vec![157, 240, 1, 35])],
        vec![],
        vec![],
    );
    let resolved = resolver.receive(answer).unwrap().unwrap();
    println!("{:#?}", resolved);
    assert_eq!(resolved.1, v4(157, 240, 1, 35));
    assert_eq!(resolved.0.answers[0].data, vec![157, 240, 1, 35]);
    assert!(resolver.is_done());
}

#[test]
fn a_nameserver_without_glue_is_resolved_from_the_root() {
    let mut resolver = Resolver::new("www.example.com", DNSRecordType::A);
    let referral = reply(
        "www.example.com",
        vec![],
        vec![record("example.com", DNSRecordType::NS, name_data("ns.example.net"))],
        vec![],
    );
    assert!(resolver.receive(referral).is_none());
    assert_eq!(resolver.lookups.len(), 2);
    asks(&resolver, "ns.example.net", v4(198, 41, 0, 4));

    let glue = reply(
        "ns.example.net",
        vec![],
        vec![],
        vec![record("a.gtld-servers.net", DNSRecordType::A, vec![192, 5, 6, 30])],
    );
    assert!(resolver.receive(glue).is_none());
    asks(&resolver, "ns.example.net", v4(192, 5, 6, 30));

    let nameserver = reply(
        "ns.example.net",
        vec![record("ns.example.net", DNSRecordType::A, vec![10, 1, 2, 3])],
        vec![],
        vec![],
    );
    assert!(resolver.receive(nameserver).is_none());
    assert_eq!(resolver.lookups.len(), 1);
    asks(&resolver, "www.example.com", v4(10, 1, 2, 3));

    let answer = reply(
        "www.example.com",
        vec![record("www.example.com", DNSRecordType::A, vec![93, 184, 216, 34])],
        vec![],
        vec![],
    );
    let (packet, address) = resolver.receive(answer).unwrap().unwrap();
    assert_eq!(address, v4(93, 184, 216, 34));
    assert_eq!(packet.ip(), Some("93.184.216.34".to_string()));
    assert!(resolver.is_done());
}

#[test]
fn an_alias_is_resolved_in_place_of_the_name() {
    let mut resolver = Resolver::new("www.metafilter.com", DNSRecordType::A);
    let alias = reply(
        "www.metafilter.com",
        vec![record("www.metafilter.com", DNSRecordType::CNAME, name_data("metafilter.com"))],
        vec![],
        vec![],
    );
    assert!(resolver.receive(alias).is_none());
    assert_eq!(resolver.lookups.len(), 1);
    asks(&resolver, "metafilter.com", v4(198, 41, 0, 4));

    let answer = reply(
        "metafilter.com",
        vec![record("metafilter.com", DNSRecordType::A, vec![54, 203, 56, 158])],
        vec![],
        vec![],
    );
    let (packet, address) = resolver.receive(answer).unwrap().unwrap();
    assert_eq!(address, v4(54, 203, 56, 158));
    assert_eq!(packet.questions[0].name, "metafilter.com");
    assert!(resolver.is_done());
}

#[test]
fn an_alias_met_while_resolving_a_nameserver_gives_the_nameserver() {
    let mut resolver = Resolver::new("www.example.com", DNSRecordType::A);
    let referral = reply(
        "www.example.com",
        vec![],
        vec![record("example.com", DNSRecordType::NS, name_data("ns.example.net"))],
        vec![],
    );
    assert!(resolver.receive(referral).is_none());
    let alias = reply(
        "ns.example.net",
        vec![record("ns.example.net", DNSRecordType::CNAME, name_data("real.example.net"))],
        vec![],
        vec![],
    );
    assert!(resolver.receive(alias).is_none());
    assert_eq!(resolver.lookups.len(), 2);
    asks(&resolver, "real.example.net", v4(198, 41, 0, 4));
    let found = reply(
        "real.example.net",
        vec![record("real.example.net", DNSRecordType::A, vec![10, 9, 8, 7])],
        vec![],
        vec![],
    );
    assert!(resolver.receive(found).is_none());
    asks(&resolver, "www.example.com", v4(10, 9, 8, 7));
}

#[test]
fn a_failure_ends_every_lookup() {
    let mut resolver = Resolver::new("www.example.com", DNSRecordType::A);
    let referral = reply(
        "www.example.com",
        vec![],
        vec![record("example.com", DNSRecordType::NS, name_data("ns.example.net"))],
        vec![],
    );
    assert!(resolver.receive(referral).is_none());
    let nothing = reply("ns.example.net", vec![], vec![], vec![]);
    assert!(matches!(resolver.receive(nothing), Some(Err(DNSError::Other))));
    assert!(resolver.is_done());
    assert_eq!(resolver.lookups.len(), 0);
}
