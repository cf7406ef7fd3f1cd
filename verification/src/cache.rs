//! The TTL-keyed record cache: an in-memory store from (name, record type)
//! to records with one expiry instant, driven by a caller-supplied clock in
//! whole seconds.

use vstd::prelude::*;
use vstd::map::*;
use crate::name::DomainName;
use crate::protocol::{DnsResourceRecord, RecordV, valid_answers, clone_records};

verus! {

/// The TTL applied when an empty record set is stored.
pub const DEFAULT_TTL: u32 = 300;

/// The mathematical value of one cache entry.
#[verifier::ext_equal]
pub ghost struct EntryV {
    pub records: Seq<RecordV>,
    pub expiry: u64,
}

/// One stored entry: its key, its records, and the instant at which they
/// cease to be valid.
pub struct CacheEntry {
    pub name: DomainName,
    pub rtype: u16,
    pub records: Vec<DnsResourceRecord>,
    pub expiry: u64,
}

impl CacheEntry {
    /// The key this entry is stored under.
    pub open spec fn key(&self) -> (Seq<Seq<u8>>, u16) {
        (self.name@, self.rtype)
    }

    /// The mathematical value of this entry.
    pub open spec fn val(&self) -> EntryV {
        EntryV { records: self.records.deep_view(), expiry: self.expiry }
    }
}

/// The map held by an entry list: later entries win, though a well-formed
/// cache never stores one key twice.
pub open spec fn entries_map(s: Seq<CacheEntry>) -> Map<(Seq<Seq<u8>>, u16), EntryV>
    decreases s.len(),
{
    if s.len() == 0 {
        Map::empty()
    } else {
        entries_map(s.drop_last()).insert(s.last().key(), s.last().val())
    }
}

/// What a lookup under `k` at instant `now` yields from cache contents `m`:
/// the stored records if the key is present and not yet expired, a miss
/// otherwise.
pub open spec fn lookup_spec(
    m: Map<(Seq<Seq<u8>>, u16), EntryV>,
    name: Seq<Seq<u8>>,
    rtype: u16,
    now: u64,
) -> Option<Seq<RecordV>> {
    let k = (name, rtype);
    if m.contains_key(k) && m[k].expiry > now {
        Some(m[k].records)
    } else {
        None
    }
}

/// The minimum TTL across a record set, or `DEFAULT_TTL` for an empty set.
pub open spec fn min_ttl(rs: Seq<RecordV>) -> u32
    decreases rs.len(),
{
    if rs.len() == 0 {
        DEFAULT_TTL
    } else if rs.len() == 1 {
        rs[0].ttl
    } else {
        let rest = min_ttl(rs.drop_first());
        if rs[0].ttl <= rest {
            rs[0].ttl
        } else {
            rest
        }
    }
}

/// The expiry instant of records stored at `now`.
pub open spec fn expiry_at(now: u64, rs: Seq<RecordV>) -> u64 {
    (now + min_ttl(rs)) as u64
}

pub proof fn lemma_min_ttl_push(rs: Seq<RecordV>, r: RecordV)
    ensures
        min_ttl(rs.push(r)) == if rs.len() == 0 {
            r.ttl
        } else if min_ttl(rs) <= r.ttl {
            min_ttl(rs)
        } else {
            r.ttl
        },
    decreases rs.len(),
{
    if rs.len() == 0 {
        assert(rs.push(r)[0] == r);
    } else {
        assert(rs.push(r).drop_first() =~= rs.drop_first().push(r));
        lemma_min_ttl_push(rs.drop_first(), r);
    }
}

/// An in-memory store mapping (name, record type) to records with a single
/// computed expiry instant. The entries live in a plain list whose keys are
/// kept unique, viewed as a map; a lookup walks the list, which keeps the
/// reasoning simple at a linear cost per operation.
pub struct DnsCache {
    pub entries: Vec<CacheEntry>,
}

impl View for DnsCache {
    type V = Map<(Seq<Seq<u8>>, u16), EntryV>;

    open spec fn view(&self) -> Map<(Seq<Seq<u8>>, u16), EntryV> {
        entries_map(self.entries@)
    }
}

pub proof fn lemma_entries_map_index(s: Seq<CacheEntry>, i: int)
    requires
        0 <= i < s.len(),
        forall|a: int, b: int| 0 <= a < b < s.len() ==> #[trigger] s[a].key() != #[trigger] s[b].key(),
    ensures
        entries_map(s).contains_key(s[i].key()),
        entries_map(s)[s[i].key()] == s[i].val(),
    decreases s.len(),
{
    if i == s.len() - 1 {
    } else {
        assert(s[i].key() != s[s.len() - 1].key());
        assert(s.drop_last()[i] == s[i]);
        lemma_entries_map_index(s.drop_last(), i);
    }
}

pub proof fn lemma_entries_map_domain(s: Seq<CacheEntry>, k: (Seq<Seq<u8>>, u16))
    requires
        entries_map(s).contains_key(k),
    ensures
        exists|i: int| 0 <= i < s.len() && #[trigger] s[i].key() == k,
    decreases s.len(),
{
    if s.len() > 0 {
        if s.last().key() == k {
            assert(s[s.len() - 1].key() == k);
        } else {
            lemma_entries_map_domain(s.drop_last(), k);
            let i = choose|i: int| 0 <= i < s.drop_last().len() && #[trigger] s.drop_last()[i].key()
                == k;
            assert(s[i].key() == k);
        }
    }
}

pub proof fn lemma_entries_map_update(s: Seq<CacheEntry>, i: int, e: CacheEntry)
    requires
        0 <= i < s.len(),
        s[i].key() == e.key(),
        forall|a: int, b: int| 0 <= a < b < s.len() ==> #[trigger] s[a].key() != #[trigger] s[b].key(),
    ensures
        entries_map(s.update(i, e)) == entries_map(s).insert(e.key(), e.val()),
    decreases s.len(),
{
    let s2 = s.update(i, e);
    if i == s.len() - 1 {
        assert(s2.drop_last() =~= s.drop_last());
        assert(s2.last() == e);
        assert(entries_map(s2) =~= entries_map(s).insert(e.key(), e.val()));
    } else {
        assert(s2.drop_last() =~= s.drop_last().update(i, e));
        assert(s2.last() == s.last());
        assert forall|a: int, b: int|
            0 <= a < b < s.drop_last().len() implies #[trigger] s.drop_last()[a].key()
            != #[trigger] s.drop_last()[b].key() by {
            assert(s[a].key() != s[b].key());
        }
        assert(s.drop_last()[i] == s[i]);
        lemma_entries_map_update(s.drop_last(), i, e);
        assert(s[i].key() != s[s.len() - 1].key());
        assert(entries_map(s2) =~= entries_map(s).insert(e.key(), e.val()));
    }
}

impl DnsCache {
    /// Well-formed: no key stored twice, and every entry's records are a
    /// sound answer set for its own key.
    pub open spec fn wf(&self) -> bool {
        &&& forall|a: int, b: int|
            0 <= a < b < self.entries.len() ==> #[trigger] self.entries[a].key()
                != #[trigger] self.entries[b].key()
        &&& forall|i: int|
            0 <= i < self.entries.len() ==> valid_answers(
                #[trigger] self.entries[i].val().records,
                self.entries[i].key().0,
                self.entries[i].key().1,
            )
    }

    /// An empty cache.
    pub fn new() -> (r: Self)
        ensures
            r.wf(),
            r@ == Map::<(Seq<Seq<u8>>, u16), EntryV>::empty(),
    {
        let r = DnsCache { entries: Vec::new() };
        r
    }

    /// Computes the minimum TTL among `records`, `DEFAULT_TTL` when empty.
    fn min_ttl_of(records: &Vec<DnsResourceRecord>) -> (r: u32)
        ensures
            r == min_ttl(records.deep_view()),
    {
        if records.len() == 0 {
            return DEFAULT_TTL;
        }
        let mut m: u32 = records[0].ttl;
        let mut i: usize = 1;
        proof {
            assert(records.deep_view().take(1) =~= seq![records.deep_view()[0]]);
            assert(records.deep_view()[0] == records@[0]@);
        }
        while i < records.len()
            invariant
                1 <= i <= records.len(),
                records.len() >= 1,
                m == min_ttl(records.deep_view().take(i as int)),
            decreases records.len() - i,
        {
            let t = records[i].ttl;
            proof {
                lemma_min_ttl_push(records.deep_view().take(i as int), records.deep_view()[i as int]);
                assert(records.deep_view().take(i as int).push(records.deep_view()[i as int])
                    =~= records.deep_view().take(i + 1));
                assert(records.deep_view()[i as int] == records@[i as int]@);
            }
            if t < m {
                m = t;
            }
            i = i + 1;
        }
        proof {
            assert(records.deep_view().take(records.deep_view().len() as int)
                =~= records.deep_view());
        }
        m
    }

    /// Stores `records` under (`name`, `record_type`), replacing any entry
    /// under that key, with expiry `now` plus the minimum TTL among the
    /// records (`DEFAULT_TTL` when the set is empty).
    #[verifier::loop_isolation(false)]
    pub fn store(
        &mut self,
        name: DomainName,
        record_type: u16,
        records: Vec<DnsResourceRecord>,
        now: u64,
    )
        requires
            old(self).wf(),
            valid_answers(records.deep_view(), name@, record_type),
            now <= u64::MAX - u32::MAX as u64,
        ensures
            final(self).wf(),
            final(self)@ == old(self)@.insert(
                (name@, record_type),
                EntryV {
                    records: records.deep_view(),
                    expiry: expiry_at(now, records.deep_view()),
                },
            ),
    {
        let ttl = Self::min_ttl_of(&records);
        let expiry: u64 = now + ttl as u64;
        let entry = CacheEntry { name, rtype: record_type, records, expiry };
        let ghost k = entry.key();
        let ghost v = entry.val();
        let mut i: usize = 0;
        while i < self.entries.len()
            invariant
                i <= self.entries.len(),
                forall|j: int| 0 <= j < i ==> #[trigger] self.entries[j].key() != k,
                self.entries == old(self).entries,
            decreases self.entries.len() - i,
        {
            let same_name = self.entries[i].name.matches(&entry.name);
            if same_name && self.entries[i].rtype == record_type {
                let ghost olds = self.entries@;
                self.entries.remove(i);
                self.entries.insert(i, entry);
                proof {
                    assert(self.entries@ =~= olds.update(i as int, entry));
                    lemma_entries_map_update(olds, i as int, entry);
                    assert forall|a: int, b: int|
                        0 <= a < b < self.entries.len() implies #[trigger] self.entries[a].key()
                        != #[trigger] self.entries[b].key() by {
                        assert(olds[a].key() != olds[b].key());
                    }
                }
                return;
            }
            i = i + 1;
        }
        let ghost olds = self.entries@;
        self.entries.push(entry);
        proof {
            assert(self.entries@.drop_last() =~= olds);
            assert(self@ == old(self)@.insert(k, v));
            assert forall|a: int, b: int|
                0 <= a < b < self.entries.len() implies #[trigger] self.entries[a].key()
                != #[trigger] self.entries[b].key() by {
                if b == self.entries.len() - 1 {
                    assert(self.entries[a].key() == olds[a].key());
                }
            }
        }
    }

    /// Returns a copy of the records stored under (`name`, `record_type`) if
    /// the key is present and its expiry is strictly in the future;
    /// otherwise a miss. An expired entry behaves exactly like an absent one.
    #[verifier::loop_isolation(false)]
    pub fn get(&self, name: &DomainName, record_type: u16, now: u64) -> (r: Option<
        Vec<DnsResourceRecord>,
    >)
        requires
            self.wf(),
        ensures
            match r {
                Some(recs) => {
                    &&& lookup_spec(self@, name@, record_type, now) == Some(recs.deep_view())
                    &&& valid_answers(recs.deep_view(), name@, record_type)
                },
                None => lookup_spec(self@, name@, record_type, now) is None,
            },
    {
        let ghost k = (name@, record_type);
        let mut i: usize = 0;
        while i < self.entries.len()
            invariant
                i <= self.entries.len(),
                forall|j: int| 0 <= j < i ==> #[trigger] self.entries[j].key() != k,
            decreases self.entries.len() - i,
        {
            let same_name = self.entries[i].name.matches(name);
            if same_name && self.entries[i].rtype == record_type {
                proof {
                    lemma_entries_map_index(self.entries@, i as int);
                }
                if self.entries[i].expiry > now {
                    let recs = clone_records(&self.entries[i].records);
                    return Some(recs);
                } else {
                    return None;
                }
            }
            i = i + 1;
        }
        proof {
            if self@.contains_key(k) {
                lemma_entries_map_domain(self.entries@, k);
            }
        }
        None
    }

    /// Removes every entry whose expiry has passed; entries expiring exactly
    /// at `now` are removed too, since a lookup at `now` would miss them.
    #[verifier::loop_isolation(false)]
    pub fn cleanup(&mut self, now: u64)
        requires
            old(self).wf(),
        ensures
            final(self).wf(),
            forall|k: (Seq<Seq<u8>>, u16)|
                final(self)@.contains_key(k) <==> (#[trigger] old(self)@.contains_key(k)
                    && old(self)@[k].expiry > now),
            forall|k: (Seq<Seq<u8>>, u16)|
                final(self)@.contains_key(k) ==> #[trigger] final(self)@[k] == old(self)@[k],
    {
        let ghost s = self.entries@;
        let mut kept: Vec<CacheEntry> = Vec::new();
        let mut i: usize = 0;
        proof {
            assert(entries_map(kept@) =~= live_part(entries_map(s.take(0)), now));
            assert(s.take(0) =~= Seq::<CacheEntry>::empty());
        }
        while i < self.entries.len()
            invariant
                i <= self.entries.len(),
                self.entries == old(self).entries,
                forall|a: int, b: int| 0 <= a < b < kept@.len() ==> #[trigger] kept@[a].key()
                    != #[trigger] kept@[b].key(),
                forall|j: int| 0 <= j < kept@.len() ==> exists|a: int|
                    0 <= a < i && #[trigger] kept@[j].key() == s[a].key() && kept@[j].val()
                        == s[a].val(),
                entries_map(kept@) == live_part(entries_map(s.take(i as int)), now),
            decreases self.entries.len() - i,
        {
            let ghost pm = entries_map(s.take(i as int));
            proof {
                assert(s.take(i + 1) =~= s.take(i as int).push(s[i as int]));
                assert(s.take(i + 1).drop_last() =~= s.take(i as int));
                assert forall|a: int| 0 <= a < i implies #[trigger] s[a].key()
                    != s[i as int].key() by {
                    assert(self.entries[a].key() != self.entries[i as int].key());
                }
                if pm.contains_key(s[i as int].key()) {
                    lemma_entries_map_domain(s.take(i as int), s[i as int].key());
                }
            }
            if self.entries[i].expiry > now {
                let e = clone_entry(&self.entries[i]);
                let ghost oldkept = kept@;
                kept.push(e);
                proof {
                    assert(kept@.drop_last() =~= oldkept);
                    assert(kept@.last().key() == s[i as int].key());
                    assert(kept@.last().val() == s[i as int].val());
                    assert(entries_map(kept@) =~= live_part(entries_map(s.take(i + 1)), now));
                    assert forall|a: int, b: int|
                        0 <= a < b < kept@.len() implies #[trigger] kept@[a].key()
                        != #[trigger] kept@[b].key() by {
                        if b == kept@.len() - 1 {
                            let w = choose|w: int|
                                0 <= w < i && #[trigger] oldkept[a].key() == s[w].key()
                                    && oldkept[a].val() == s[w].val();
                            assert(s[w].key() != s[i as int].key());
                        }
                    }
                    assert forall|j: int| 0 <= j < kept@.len() implies exists|a: int|
                        0 <= a < i + 1 && #[trigger] kept@[j].key() == s[a].key() && kept@[j].val()
                            == s[a].val() by {
                        if j < kept@.len() - 1 {
                            let w = choose|w: int|
                                0 <= w < i && #[trigger] oldkept[j].key() == s[w].key()
                                    && oldkept[j].val() == s[w].val();
                            assert(kept@[j].key() == s[w].key() && kept@[j].val() == s[w].val());
                        } else {
                            assert(kept@[j].key() == s[i as int].key() && kept@[j].val()
                                == s[i as int].val());
                        }
                    }
                }
            } else {
                proof {
                    assert(entries_map(kept@) =~= live_part(entries_map(s.take(i + 1)), now));
                }
            }
            i = i + 1;
        }
        proof {
            assert(s.take(s.len() as int) =~= s);
        }
        self.entries = kept;
        proof {
            assert forall|j: int| 0 <= j < self.entries.len() implies valid_answers(
                #[trigger] self.entries[j].val().records,
                self.entries[j].key().0,
                self.entries[j].key().1,
            ) by {
                let a = choose|a: int|
                    0 <= a < s.len() && #[trigger] self.entries@[j].key() == s[a].key()
                        && self.entries@[j].val() == s[a].val();
                assert(valid_answers(s[a].val().records, s[a].key().0, s[a].key().1));
            }
        }
    }
}

/// The still-live part of cache contents `m` at instant `now`.
pub open spec fn live_part(
    m: Map<(Seq<Seq<u8>>, u16), EntryV>,
    now: u64,
) -> Map<(Seq<Seq<u8>>, u16), EntryV> {
    Map::new(|k: (Seq<Seq<u8>>, u16)| m.contains_key(k) && m[k].expiry > now, |k: (Seq<Seq<u8>>, u16)| m[k])
}

/// Copies one cache entry.
fn clone_entry(e: &CacheEntry) -> (r: CacheEntry)
    ensures
        r.key() == e.key(),
        r.val() == e.val(),
{
    CacheEntry {
        name: e.name.clone(),
        rtype: e.rtype,
        records: clone_records(&e.records),
        expiry: e.expiry,
    }
}

/// Cache TTL law: records stored at `now` are returned by a lookup at `now`
/// whenever their minimum TTL is positive, and a lookup once that TTL has
/// elapsed misses.
pub proof fn lemma_store_then_lookup(
    m: Map<(Seq<Seq<u8>>, u16), EntryV>,
    name: Seq<Seq<u8>>,
    rtype: u16,
    records: Seq<RecordV>,
    now: u64,
    later: u64,
)
    requires
        now <= u64::MAX - u32::MAX as u64,
    ensures
        min_ttl(records) > 0 ==> lookup_spec(
            m.insert((name, rtype), EntryV { records, expiry: expiry_at(now, records) }),
            name,
            rtype,
            now,
        ) == Some(records),
        later >= now + min_ttl(records) ==> lookup_spec(
            m.insert((name, rtype), EntryV { records, expiry: expiry_at(now, records) }),
            name,
            rtype,
            later,
        ) is None,
{
}

/// Cache key independence: a store under one key leaves lookups under every
/// other key unchanged.
pub proof fn lemma_store_key_independence(
    m: Map<(Seq<Seq<u8>>, u16), EntryV>,
    name: Seq<Seq<u8>>,
    rtype: u16,
    e: EntryV,
    name2: Seq<Seq<u8>>,
    rtype2: u16,
    now: u64,
)
    requires
        (name, rtype) != (name2, rtype2),
    ensures
        lookup_spec(m.insert((name, rtype), e), name2, rtype2, now) == lookup_spec(
            m,
            name2,
            rtype2,
            now,
        ),
{
}

} // verus!
