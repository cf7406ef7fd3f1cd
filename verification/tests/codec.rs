use dns_server::name::{parse_domain_name, serialize_domain_name, DomainName, NameError};
use dns_server::protocol::{DecodeError, DnsHeader, DnsMessage, DnsQuestion, DnsResourceRecord};

fn name_from(labels: &[&[u8]]) -> DomainName {
    DomainName {
        labels: labels.iter().map(|l| l.to_vec()).collect(),
    }
}

fn example_com() -> DomainName {
    name_from(&[b"example", b"com"])
}

#[test]
fn name_round_trip() {
    let name = example_com();
    let bytes = serialize_domain_name(&name);
    assert_eq!(
        bytes,
        vec![7, b'e', b'x', b'a', b'm', b'p', b'l', b'e', 3, b'c', b'o', b'm', 0]
    );
    let (parsed, end) = parse_domain_name(&bytes, 0).unwrap();
    assert_eq!(end, bytes.len());
    assert_eq!(parsed.labels, name.labels);
    assert!(parsed.matches(&name));
}

#[test]
fn root_name_round_trip() {
    let name = name_from(&[]);
    let bytes = serialize_domain_name(&name);
    assert_eq!(bytes, vec![0]);
    let (parsed, end) = parse_domain_name(&bytes, 0).unwrap();
    assert_eq!(end, 1);
    assert!(parsed.labels.is_empty());
}

#[test]
fn name_rejects_long_label() {
    let mut bytes = vec![64u8];
    bytes.extend(std::iter::repeat(b'a').take(64));
    bytes.push(0);
    assert!(matches!(parse_domain_name(&bytes, 0), Err(NameError::LabelTooLong)));
}

#[test]
fn name_rejects_non_ascii() {
    let bytes = vec![2u8, 0xC3, 0xA9, 0];
    assert!(matches!(parse_domain_name(&bytes, 0), Err(NameError::InvalidLabel)));
}

#[test]
fn name_rejects_truncation() {
    let bytes = vec![3u8, b'a'];
    assert!(matches!(parse_domain_name(&bytes, 0), Err(NameError::Truncated)));
    let bytes = vec![3u8, b'a', b'b', b'c'];
    assert!(matches!(parse_domain_name(&bytes, 0), Err(NameError::Truncated)));
}

#[test]
fn header_serializes_big_endian() {
    let header = DnsHeader {
        id: 0x1234,
        flags: 0x8180,
        qdcount: 1,
        ancount: 2,
        nscount: 0,
        arcount: 0,
    };
    let mut out = Vec::new();
    header.serialize(&mut out);
    assert_eq!(
        out,
        vec![0x12, 0x34, 0x81, 0x80, 0x00, 0x01, 0x00, 0x02, 0x00, 0x00, 0x00, 0x00]
    );
}

fn sample_message() -> DnsMessage {
    DnsMessage {
        header: DnsHeader {
            id: 0xBEEF,
            flags: 0x8180,
            qdcount: 1,
            ancount: 1,
            nscount: 0,
            arcount: 0,
        },
        questions: vec![DnsQuestion {
            name: example_com(),
            qtype: 1,
            qclass: 1,
        }],
        answers: vec![DnsResourceRecord {
            name: example_com(),
            rtype: 1,
            rclass: 1,
            ttl: 3600,
            rdlength: 4,
            rdata: vec![192, 168, 1, 1],
        }],
    }
}

#[test]
fn message_round_trip() {
    let m = sample_message();
    let bytes = m.serialize();
    let parsed = DnsMessage::parse(&bytes).unwrap();
    assert_eq!(parsed.header, m.header);
    assert_eq!(parsed.questions.len(), 1);
    assert_eq!(parsed.questions[0].name.labels, m.questions[0].name.labels);
    assert_eq!(parsed.questions[0].qtype, 1);
    assert_eq!(parsed.questions[0].qclass, 1);
    assert_eq!(parsed.answers.len(), 1);
    let a = &parsed.answers[0];
    assert_eq!(a.name.labels, m.answers[0].name.labels);
    assert_eq!(a.rtype, 1);
    assert_eq!(a.rclass, 1);
    assert_eq!(a.ttl, 3600);
    assert_eq!(a.rdlength, 4);
    assert_eq!(a.rdata, vec![192, 168, 1, 1]);
}

#[test]
fn every_prefix_is_truncation_safe() {
    let m = sample_message();
    let bytes = m.serialize();
    for k in 0..bytes.len() {
        match DnsMessage::parse(&bytes[..k]) {
            Ok(_) => panic!("a strict prefix of this encoding cannot parse"),
            Err(e) => assert!(matches!(
                e,
                DecodeError::TruncatedHeader
                    | DecodeError::TruncatedQuestion
                    | DecodeError::TruncatedRecord
            )),
        }
    }
    assert!(DnsMessage::parse(&bytes).is_ok());
}

#[test]
fn short_buffer_is_truncated_header() {
    assert!(matches!(
        DnsMessage::parse(&[0u8; 5]),
        Err(DecodeError::TruncatedHeader)
    ));
    assert!(matches!(
        DnsMessage::parse(&[]),
        Err(DecodeError::TruncatedHeader)
    ));
}

#[test]
fn missing_question_is_truncated_question() {
    // qdcount says one question but the buffer ends at the header.
    let bytes = vec![0, 1, 0, 0, 0, 1, 0, 0, 0, 0, 0, 0];
    assert!(matches!(
        DnsMessage::parse(&bytes),
        Err(DecodeError::TruncatedQuestion)
    ));
}

#[test]
fn missing_record_is_truncated_record() {
    // ancount says one answer but only a name and two bytes follow.
    let mut bytes = vec![0, 1, 0, 0, 0, 0, 0, 1, 0, 0, 0, 0];
    bytes.extend_from_slice(&[0, 0, 1]);
    assert!(matches!(DnsMessage::parse(&bytes), Err(DecodeError::TruncatedRecord)));
}

#[test]
fn short_rdata_is_truncated_record() {
    // A record declaring five rdata bytes but carrying two.
    let mut bytes = vec![0, 1, 0, 0, 0, 0, 0, 1, 0, 0, 0, 0];
    bytes.extend_from_slice(&[0, 0, 1, 0, 1, 0, 0, 0, 60, 0, 5, 9, 9]);
    assert!(matches!(DnsMessage::parse(&bytes), Err(DecodeError::TruncatedRecord)));
}

#[test]
fn label_errors_surface_through_message_parse() {
    // A question whose name has a length byte of 64 (a compression pointer
    // in full DNS) is rejected as too long.
    let mut bytes = vec![0, 1, 0, 0, 0, 1, 0, 0, 0, 0, 0, 0];
    bytes.push(64);
    bytes.extend(std::iter::repeat(b'a').take(70));
    assert!(matches!(DnsMessage::parse(&bytes), Err(DecodeError::LabelTooLong)));

    let mut bytes = vec![0, 1, 0, 0, 0, 1, 0, 0, 0, 0, 0, 0];
    bytes.extend_from_slice(&[1, 0xFF, 0, 0, 1, 0, 1]);
    assert!(matches!(
        DnsMessage::parse(&bytes),
        Err(DecodeError::InvalidLabelEncoding)
    ));
}

#[test]
fn trailing_bytes_are_ignored() {
    let m = sample_message();
    let mut bytes = m.serialize();
    let clean = DnsMessage::parse(&bytes).unwrap();
    bytes.extend_from_slice(&[0xAB, 0xCD, 0xEF]);
    let padded = DnsMessage::parse(&bytes).unwrap();
    assert_eq!(padded.header, clean.header);
    assert_eq!(padded.answers.len(), clean.answers.len());
    assert_eq!(padded.answers[0].rdata, clean.answers[0].rdata);
}
