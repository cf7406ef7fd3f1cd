use dns_server::cache::DnsCache;
use dns_server::name::DomainName;
use dns_server::protocol::DnsResourceRecord;

fn name_of(text: &[&[u8]]) -> DomainName {
    DomainName {
        labels: text.iter().map(|l| l.to_vec()).collect(),
    }
}

fn record(name: &DomainName, rtype: u16, ttl: u32, rdata: Vec<u8>) -> DnsResourceRecord {
    DnsResourceRecord {
        name: name.clone(),
        rtype,
        rclass: 1,
        ttl,
        rdlength: rdata.len() as u16,
        rdata,
    }
}

#[test]
fn store_then_get_until_ttl_elapses() {
    let mut cache = DnsCache::new();
    let name = name_of(&[b"a", b"com"]);
    let rec = record(&name, 1, 5, vec![1, 2, 3, 4]);
    cache.store(name.clone(), 1, vec![rec], 100);
    let hit = cache.get(&name, 1, 100).expect("fresh entry must hit");
    assert_eq!(hit.len(), 1);
    assert_eq!(hit[0].rdata, vec![1, 2, 3, 4]);
    assert!(cache.get(&name, 1, 104).is_some());
    // expiry is 105; a lookup at or past it misses.
    assert!(cache.get(&name, 1, 105).is_none());
    assert!(cache.get(&name, 1, 200).is_none());
}

#[test]
fn key_independence() {
    let mut cache = DnsCache::new();
    let name = name_of(&[b"a", b"com"]);
    let rec = record(&name, 1, 60, vec![1, 2, 3, 4]);
    cache.store(name.clone(), 1, vec![rec], 100);
    assert!(cache.get(&name, 1, 100).is_some());
    assert!(cache.get(&name, 28, 100).is_none());
    let other = name_of(&[b"b", b"com"]);
    assert!(cache.get(&other, 1, 100).is_none());
}

#[test]
fn expiry_uses_minimum_ttl() {
    let mut cache = DnsCache::new();
    let name = name_of(&[b"a", b"com"]);
    let records = vec![
        record(&name, 1, 10, vec![1, 1, 1, 1]),
        record(&name, 1, 5, vec![2, 2, 2, 2]),
    ];
    cache.store(name.clone(), 1, records, 100);
    let hit = cache.get(&name, 1, 104).expect("still within the shorter TTL");
    assert_eq!(hit.len(), 2);
    assert!(cache.get(&name, 1, 105).is_none());
}

#[test]
fn empty_store_uses_default_ttl() {
    let mut cache = DnsCache::new();
    let name = name_of(&[b"a", b"com"]);
    cache.store(name.clone(), 1, Vec::new(), 100);
    let hit = cache.get(&name, 1, 399).expect("default TTL is 300 seconds");
    assert!(hit.is_empty());
    assert!(cache.get(&name, 1, 400).is_none());
}

#[test]
fn store_overwrites_existing_entry() {
    let mut cache = DnsCache::new();
    let name = name_of(&[b"a", b"com"]);
    cache.store(name.clone(), 1, vec![record(&name, 1, 60, vec![1, 1, 1, 1])], 100);
    cache.store(name.clone(), 1, vec![record(&name, 1, 60, vec![9, 9, 9, 9])], 100);
    let hit = cache.get(&name, 1, 100).unwrap();
    assert_eq!(hit.len(), 1);
    assert_eq!(hit[0].rdata, vec![9, 9, 9, 9]);
}

#[test]
fn cleanup_drops_only_expired_entries() {
    let mut cache = DnsCache::new();
    let short = name_of(&[b"short", b"com"]);
    let long = name_of(&[b"long", b"com"]);
    cache.store(short.clone(), 1, vec![record(&short, 1, 5, vec![1, 1, 1, 1])], 100);
    cache.store(long.clone(), 1, vec![record(&long, 1, 100, vec![2, 2, 2, 2])], 100);
    cache.cleanup(150);
    // The short entry is gone even for a lookup dated before its expiry.
    assert!(cache.get(&short, 1, 100).is_none());
    assert!(cache.get(&long, 1, 150).is_some());
}
