use dns_server::cache::DnsCache;
use dns_server::handler::QueryHandler;
use dns_server::name::DomainName;
use dns_server::protocol::{DnsHeader, DnsMessage, DnsQuestion};
use dns_server::resolver::{Resolver, StaticAnswerSource};

fn name_of(text: &[&[u8]]) -> DomainName {
    DomainName {
        labels: text.iter().map(|l| l.to_vec()).collect(),
    }
}

fn fresh_handler() -> QueryHandler<StaticAnswerSource> {
    QueryHandler::new(Resolver::new(DnsCache::new(), StaticAnswerSource::new()))
}

fn query_datagram(id: u16, questions: Vec<DnsQuestion>) -> Vec<u8> {
    let msg = DnsMessage {
        header: DnsHeader {
            id,
            flags: 0x0100,
            qdcount: questions.len() as u16,
            ancount: 0,
            nscount: 0,
            arcount: 0,
        },
        questions,
        answers: Vec::new(),
    };
    msg.serialize()
}

#[test]
fn end_to_end_a_query() {
    let mut handler = fresh_handler();
    let name = name_of(&[b"example", b"com"]);
    let query = query_datagram(
        0x1234,
        vec![DnsQuestion {
            name: name.clone(),
            qtype: 1,
            qclass: 1,
        }],
    );
    let response = handler.handle_query(&query, 100).expect("a parsed query gets a reply");
    let msg = DnsMessage::parse(&response).expect("the reply must itself decode");
    assert_eq!(msg.header.id, 0x1234);
    assert_eq!(msg.header.flags, 0x8180);
    assert_eq!(msg.header.qdcount, 1);
    assert_eq!(msg.header.ancount, 1);
    assert_eq!(msg.header.nscount, 0);
    assert_eq!(msg.header.arcount, 0);
    assert_eq!(msg.questions.len(), 1);
    assert!(msg.questions[0].name.matches(&name));
    assert_eq!(msg.answers.len(), 1);
    let a = &msg.answers[0];
    assert!(a.name.matches(&name));
    assert_eq!(a.rtype, 1);
    assert_eq!(a.rdlength, 4);
    assert_eq!(a.rdata.len(), 4);
}

#[test]
fn short_datagram_is_dropped() {
    let mut handler = fresh_handler();
    assert!(handler.handle_query(&[0u8; 5], 100).is_none());
    assert!(handler.handle_query(&[], 100).is_none());
    assert!(handler.handle_query(&[0u8; 11], 100).is_none());
}

#[test]
fn malformed_datagram_is_dropped() {
    let mut handler = fresh_handler();
    // The header promises a question that is not there.
    let bytes = vec![0, 7, 0, 0, 0, 1, 0, 0, 0, 0, 0, 0];
    assert!(handler.handle_query(&bytes, 100).is_none());
}

#[test]
fn unsupported_query_type_yields_empty_wellformed_response() {
    let mut handler = fresh_handler();
    let name = name_of(&[b"example", b"com"]);
    let query = query_datagram(
        0x4242,
        vec![DnsQuestion {
            name: name.clone(),
            qtype: 15,
            qclass: 1,
        }],
    );
    let response = handler.handle_query(&query, 100).expect("a parsed query gets a reply");
    let msg = DnsMessage::parse(&response).expect("the reply must itself decode");
    assert_eq!(msg.header.id, 0x4242);
    assert_eq!(msg.header.flags, 0x8180);
    assert_eq!(msg.header.qdcount, 1);
    assert_eq!(msg.header.ancount, 0);
    assert!(msg.answers.is_empty());
    assert_eq!(msg.questions.len(), 1);
}

#[test]
fn answers_follow_question_order() {
    let mut handler = fresh_handler();
    let name = name_of(&[b"example", b"com"]);
    let query = query_datagram(
        7,
        vec![
            DnsQuestion {
                name: name.clone(),
                qtype: 1,
                qclass: 1,
            },
            DnsQuestion {
                name: name.clone(),
                qtype: 28,
                qclass: 1,
            },
        ],
    );
    let response = handler.handle_query(&query, 100).unwrap();
    let msg = DnsMessage::parse(&response).unwrap();
    assert_eq!(msg.header.qdcount, 2);
    assert_eq!(msg.header.ancount, 2);
    assert_eq!(msg.answers[0].rtype, 1);
    assert_eq!(msg.answers[1].rtype, 28);
}

#[test]
fn repeated_queries_are_answered_from_cache() {
    let mut handler = fresh_handler();
    let name = name_of(&[b"example", b"com"]);
    let query = query_datagram(
        1,
        vec![DnsQuestion {
            name: name.clone(),
            qtype: 1,
            qclass: 1,
        }],
    );
    let first = handler.handle_query(&query, 100).unwrap();
    assert_eq!(handler.resolver.source.queries_served, 1);
    let second = handler.handle_query(&query, 100).unwrap();
    assert_eq!(handler.resolver.source.queries_served, 1);
    let m1 = DnsMessage::parse(&first).unwrap();
    let m2 = DnsMessage::parse(&second).unwrap();
    assert_eq!(m1.answers[0].rdata, m2.answers[0].rdata);
}
