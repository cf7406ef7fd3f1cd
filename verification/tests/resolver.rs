use dns_server::cache::DnsCache;
use dns_server::name::DomainName;
use dns_server::protocol::{DnsQuestion, DnsResourceRecord, RecordV};
use dns_server::resolver::{AnswerSource, Resolver, StaticAnswerSource};
use vstd::prelude::Seq;

fn name_of(text: &[&[u8]]) -> DomainName {
    DomainName {
        labels: text.iter().map(|l| l.to_vec()).collect(),
    }
}

fn question(name: &DomainName, qtype: u16) -> DnsQuestion {
    DnsQuestion {
        name: name.clone(),
        qtype,
        qclass: 1,
    }
}

/// An answer source that counts how often it is consulted.
struct CountingSource {
    consultations: usize,
}

impl AnswerSource for CountingSource {
    fn answer_table(&self, _name: Seq<Seq<u8>>, _qtype: u16) -> Seq<RecordV> {
        // The table is specification-only and never evaluated at run time.
        unreachable!()
    }

    fn answers(&mut self, name: &DomainName, qtype: u16) -> Vec<DnsResourceRecord> {
        self.consultations += 1;
        vec![DnsResourceRecord {
            name: name.clone(),
            rtype: qtype,
            rclass: 1,
            ttl: 60,
            rdlength: 4,
            rdata: vec![10, 0, 0, 1],
        }]
    }
}

#[test]
fn second_resolve_hits_cache_without_consulting_source() {
    let mut resolver = Resolver::new(DnsCache::new(), CountingSource { consultations: 0 });
    let name = name_of(&[b"example", b"com"]);
    let q = question(&name, 1);
    let first = resolver.resolve(&q, 100);
    assert_eq!(resolver.source.consultations, 1);
    assert_eq!(first.len(), 1);
    let second = resolver.resolve(&q, 100);
    assert_eq!(resolver.source.consultations, 1, "cache hit must not consult the source");
    assert_eq!(second.len(), 1);
    assert_eq!(second[0].rdata, first[0].rdata);
    assert_eq!(second[0].ttl, first[0].ttl);
    assert!(second[0].name.matches(&first[0].name));
}

#[test]
fn static_source_answers_a_question() {
    let mut resolver = Resolver::new(DnsCache::new(), StaticAnswerSource::new());
    let name = name_of(&[b"example", b"com"]);
    let answers = resolver.resolve(&question(&name, 1), 0);
    assert_eq!(answers.len(), 1);
    let a = &answers[0];
    assert!(a.name.matches(&name));
    assert_eq!(a.rtype, 1);
    assert_eq!(a.rclass, 1);
    assert_eq!(a.ttl, 3600);
    assert_eq!(a.rdlength, 4);
    assert_eq!(a.rdata, vec![192, 168, 1, 1]);
}

#[test]
fn static_source_answers_aaaa_question() {
    let mut resolver = Resolver::new(DnsCache::new(), StaticAnswerSource::new());
    let name = name_of(&[b"example", b"com"]);
    let answers = resolver.resolve(&question(&name, 28), 0);
    assert_eq!(answers.len(), 1);
    let a = &answers[0];
    assert_eq!(a.rtype, 28);
    assert_eq!(a.rdlength, 16);
    assert_eq!(
        a.rdata,
        vec![0x20, 0x01, 0x0d, 0xb8, 0, 0, 0, 0, 0, 0, 0, 0, 0, 0, 0, 1]
    );
}

#[test]
fn static_source_answers_cname_question() {
    let mut resolver = Resolver::new(DnsCache::new(), StaticAnswerSource::new());
    let name = name_of(&[b"alias", b"test"]);
    let answers = resolver.resolve(&question(&name, 5), 0);
    assert_eq!(answers.len(), 1);
    let a = &answers[0];
    assert_eq!(a.rtype, 5);
    // The rdata is the wire encoding of "example.com".
    let expected = vec![7, b'e', b'x', b'a', b'm', b'p', b'l', b'e', 3, b'c', b'o', b'm', 0];
    assert_eq!(a.rdata, expected);
    assert_eq!(a.rdlength, expected.len() as u16);
}

#[test]
fn unsupported_type_resolves_empty_and_caches_nothing() {
    let mut resolver = Resolver::new(DnsCache::new(), CountingSource { consultations: 0 });
    let name = name_of(&[b"example", b"com"]);
    let q = question(&name, 15);
    assert!(resolver.resolve(&q, 100).is_empty());
    assert_eq!(resolver.source.consultations, 0);
    assert!(resolver.cache.get(&name, 15, 100).is_none());
}

#[test]
fn resolver_uses_stored_ttl_window() {
    let mut resolver = Resolver::new(DnsCache::new(), CountingSource { consultations: 0 });
    let name = name_of(&[b"example", b"com"]);
    let q = question(&name, 1);
    resolver.resolve(&q, 100);
    assert_eq!(resolver.source.consultations, 1);
    // Within the 60-second TTL the cache answers; past it the source again.
    resolver.resolve(&q, 159);
    assert_eq!(resolver.source.consultations, 1);
    resolver.resolve(&q, 160);
    assert_eq!(resolver.source.consultations, 2);
}
