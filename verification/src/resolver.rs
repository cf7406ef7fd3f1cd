//! Query resolution: a cache-first lookup that falls back to an answer
//! source on miss and then populates the cache with exactly the records it
//! returns.

use vstd::prelude::*;
use crate::name::DomainName;
use crate::protocol::{DnsQuestion, DnsResourceRecord, QuestionV, RecordV, valid_answers,
    clone_records};
use crate::name::{NameError, encoded_name, lemma_encoded_name_len, lemma_name_round_trip,
    serialize_domain_name, spec_parse_labels, wf_name};
use crate::cache::{DnsCache, EntryV, expiry_at, lookup_spec, min_ttl};

verus! {

/// The qtype code of an IPv4 address record.
pub const QTYPE_A: u16 = 1;

/// The qtype code of an IPv6 address record.
pub const QTYPE_AAAA: u16 = 28;

/// The qtype code of a canonical-name record.
pub const QTYPE_CNAME: u16 = 5;

/// The record types the resolver has resolution logic for; every other type
/// resolves to an empty answer list.
pub open spec fn resolvable(qtype: u16) -> bool {
    qtype == QTYPE_A || qtype == QTYPE_AAAA || qtype == QTYPE_CNAME
}

/// A supplier of resolution data: given a question key it returns zero or
/// more candidate records for exactly that key, each declaring its true
/// rdata length. Implementations may be backed by zone files, an upstream
/// resolver, or a static table. A source that knows nothing for a key — or
/// fails to reach its backing data — answers with an empty list, so the
/// responder still sends a best-effort empty reply.
pub trait AnswerSource {
    /// The records this source would currently supply for a question key.
    spec fn answer_table(&self, name: Seq<Seq<u8>>, qtype: u16) -> Seq<RecordV>;

    /// Returns exactly this source's current table entry for
    /// (`name`, `qtype`).
    fn answers(&mut self, name: &DomainName, qtype: u16) -> (r: Vec<DnsResourceRecord>)
        ensures
            r.deep_view() == old(self).answer_table(name@, qtype),
            valid_answers(r.deep_view(), name@, qtype);
}

/// The fixed target name of the placeholder canonical-name record.
pub open spec fn cname_target() -> Seq<Seq<u8>> {
    seq![
        seq![101u8, 120u8, 97u8, 109u8, 112u8, 108u8, 101u8],
        seq![99u8, 111u8, 109u8],
    ]
}

/// The records the static source supplies for (`name`, `qtype`): one fixed
/// IPv4 address for address queries, one fixed IPv6 address for IPv6
/// address queries, one fixed target for canonical-name queries — each with
/// a one-hour TTL — and nothing for any other type.
pub open spec fn placeholder_records(name: Seq<Seq<u8>>, qtype: u16) -> Seq<RecordV> {
    if qtype == QTYPE_A {
        seq![
            RecordV {
                name,
                rtype: QTYPE_A,
                rclass: 1,
                ttl: 3600,
                rdlength: 4,
                rdata: seq![192u8, 168u8, 1u8, 1u8],
            },
        ]
    } else if qtype == QTYPE_AAAA {
        seq![
            RecordV {
                name,
                rtype: QTYPE_AAAA,
                rclass: 1,
                ttl: 3600,
                rdlength: 16,
                rdata: seq![
                    0x20u8, 0x01u8, 0x0du8, 0xb8u8, 0u8, 0u8, 0u8, 0u8, 0u8, 0u8, 0u8, 0u8, 0u8,
                    0u8, 0u8, 1u8,
                ],
            },
        ]
    } else if qtype == QTYPE_CNAME {
        seq![
            RecordV {
                name,
                rtype: QTYPE_CNAME,
                rclass: 1,
                ttl: 3600,
                rdlength: encoded_name(cname_target()).len() as u16,
                rdata: encoded_name(cname_target()),
            },
        ]
    } else {
        Seq::empty()
    }
}

/// Builds exactly the placeholder records of `placeholder_records`.
pub fn placeholder_answers(name: &DomainName, qtype: u16) -> (r: Vec<DnsResourceRecord>)
    ensures
        r.deep_view() == placeholder_records(name@, qtype),
        valid_answers(r.deep_view(), name@, qtype),
{
    let mut r: Vec<DnsResourceRecord> = Vec::new();
    if qtype == QTYPE_A {
        let rdata: Vec<u8> = vec![192u8, 168u8, 1u8, 1u8];
        proof {
            assert(rdata@ =~= seq![192u8, 168u8, 1u8, 1u8]);
        }
        let rec = DnsResourceRecord {
            name: name.clone(),
            rtype: QTYPE_A,
            rclass: 1,
            ttl: 3600,
            rdlength: 4,
            rdata,
        };
        r.push(rec);
    } else if qtype == QTYPE_AAAA {
        let rdata: Vec<u8> = vec![
            0x20u8, 0x01u8, 0x0du8, 0xb8u8, 0u8, 0u8, 0u8, 0u8, 0u8, 0u8, 0u8, 0u8, 0u8, 0u8,
            0u8, 1u8,
        ];
        proof {
            assert(rdata@ =~= seq![
                0x20u8, 0x01u8, 0x0du8, 0xb8u8, 0u8, 0u8, 0u8, 0u8, 0u8, 0u8, 0u8, 0u8, 0u8, 0u8,
                0u8, 1u8,
            ]);
        }
        let rec = DnsResourceRecord {
            name: name.clone(),
            rtype: QTYPE_AAAA,
            rclass: 1,
            ttl: 3600,
            rdlength: 16,
            rdata,
        };
        r.push(rec);
    } else if qtype == QTYPE_CNAME {
        let target = DomainName {
            labels: vec![
                vec![101u8, 120u8, 97u8, 109u8, 112u8, 108u8, 101u8],
                vec![99u8, 111u8, 109u8],
            ],
        };
        proof {
            assert(target@ =~~= cname_target());
            assert(wf_name(target@));
            lemma_encoded_name_len(target@);
        }
        let rdata: Vec<u8> = serialize_domain_name(&target);
        let rdlength: u16 = rdata.len() as u16;
        let rec = DnsResourceRecord {
            name: name.clone(),
            rtype: QTYPE_CNAME,
            rclass: 1,
            ttl: 3600,
            rdlength,
            rdata,
        };
        r.push(rec);
    }
    proof {
        assert(r.deep_view() =~~= placeholder_records(name@, qtype)) by {
            if r.deep_view().len() > 0 {
                assert(r.deep_view()[0] == r@[0]@);
            }
        }
        assert forall|i: int| 0 <= i < r.deep_view().len() implies
            #[trigger] r.deep_view()[i].name == name@ && r.deep_view()[i].rtype == qtype
            && r.deep_view()[i].rdlength as int == r.deep_view()[i].rdata.len() by {
            assert(r.deep_view()[i] == r@[i]@);
        }
    }
    r
}

/// A static answer source supplying the fixed placeholder records of
/// `placeholder_records`, in place of real zone data; it counts the queries
/// it has served.
pub struct StaticAnswerSource {
    pub queries_served: u64,
}

impl StaticAnswerSource {
    /// A fresh static source.
    pub fn new() -> (r: Self)
        ensures
            r.queries_served == 0,
    {
        StaticAnswerSource { queries_served: 0 }
    }
}

impl AnswerSource for StaticAnswerSource {
    open spec fn answer_table(&self, name: Seq<Seq<u8>>, qtype: u16) -> Seq<RecordV> {
        placeholder_records(name, qtype)
    }

    fn answers(&mut self, name: &DomainName, qtype: u16) -> (r: Vec<DnsResourceRecord>)
        ensures
            final(self).queries_served == if old(self).queries_served < u64::MAX {
                (old(self).queries_served + 1) as u64
            } else {
                old(self).queries_served
            },
    {
        if self.queries_served < 0xFFFF_FFFF_FFFF_FFFF {
            self.queries_served = self.queries_served + 1;
        }
        placeholder_answers(name, qtype)
    }
}

/// The resolver: a cache plus an answer source consulted on miss.
pub struct Resolver<A: AnswerSource> {
    pub cache: DnsCache,
    pub source: A,
}

impl<A: AnswerSource> Resolver<A> {
    /// Well-formed: the cache is.
    pub open spec fn wf(&self) -> bool {
        self.cache.wf()
    }

    /// A resolver over the given cache and answer source.
    pub fn new(cache: DnsCache, source: A) -> (r: Self)
        requires
            cache.wf(),
        ensures
            r.wf(),
            r.cache == cache,
            r.source == source,
    {
        Resolver { cache, source }
    }

    /// Resolves one question: a live cache entry is returned as it is, with
    /// the answer source left untouched; on a miss a resolvable type is
    /// answered by the source and the cache is filled with exactly the
    /// records returned, while any other type yields an empty answer list
    /// and changes nothing.
    pub fn resolve(&mut self, question: &DnsQuestion, now: u64) -> (r: Vec<DnsResourceRecord>)
        requires
            old(self).wf(),
            now <= u64::MAX - u32::MAX as u64,
        ensures
            final(self).wf(),
            valid_answers(r.deep_view(), question.name@, question.qtype),
            match lookup_spec(old(self).cache@, question.name@, question.qtype, now) {
                Some(cached) => {
                    &&& r.deep_view() == cached
                    &&& final(self).cache@ == old(self).cache@
                    &&& final(self).source == old(self).source
                },
                None => if resolvable(question.qtype) {
                    &&& r.deep_view() == old(self).source.answer_table(
                        question.name@,
                        question.qtype,
                    )
                    &&& final(self).cache@ == old(self).cache@.insert(
                        (question.name@, question.qtype),
                        EntryV {
                            records: r.deep_view(),
                            expiry: expiry_at(now, r.deep_view()),
                        },
                    )
                } else {
                    &&& r.deep_view().len() == 0
                    &&& final(self).cache@ == old(self).cache@
                    &&& final(self).source == old(self).source
                },
            },
    {
        let cached = self.cache.get(&question.name, question.qtype, now);
        match cached {
            Some(records) => records,
            None => {
                if question.qtype == QTYPE_A || question.qtype == QTYPE_AAAA || question.qtype
                    == QTYPE_CNAME {
                    let answers = self.source.answers(&question.name, question.qtype);
                    let stored = clone_records(&answers);
                    let keyname = question.name.clone();
                    self.cache.store(keyname, question.qtype, stored, now);
                    answers
                } else {
                    Vec::new()
                }
            },
        }
    }
}


/// One resolution step, exactly as `Resolver::resolve` behaves on one
/// question: a live cache entry is returned with cache and source untouched;
/// a miss of a resolvable type is answered from the source's table and
/// cached (the source itself may advance to any state); any other type
/// yields an empty list and changes nothing.
pub open spec fn resolve_step<A: AnswerSource>(
    cache0: Map<(Seq<Seq<u8>>, u16), EntryV>,
    source0: A,
    q: QuestionV,
    now: u64,
    r: Seq<RecordV>,
    cache1: Map<(Seq<Seq<u8>>, u16), EntryV>,
    source1: A,
) -> bool {
    match lookup_spec(cache0, q.name, q.qtype, now) {
        Some(cached) => r == cached && cache1 == cache0 && source1 == source0,
        None => if resolvable(q.qtype) {
            &&& r == source0.answer_table(q.name, q.qtype)
            &&& cache1 == cache0.insert(
                (q.name, q.qtype),
                EntryV { records: r, expiry: expiry_at(now, r) },
            )
        } else {
            r.len() == 0 && cache1 == cache0 && source1 == source0
        },
    }
}

/// The dispatcher's resolution trace: `ans` is the in-order concatenation of
/// one `resolve_step` answer list per question, the cache and the source
/// evolving step by step from (`cache0`, `source0`) to (`cache1`, `source1`).
pub open spec fn dispatch_rel<A: AnswerSource>(
    cache0: Map<(Seq<Seq<u8>>, u16), EntryV>,
    source0: A,
    qs: Seq<QuestionV>,
    now: u64,
    ans: Seq<RecordV>,
    cache1: Map<(Seq<Seq<u8>>, u16), EntryV>,
    source1: A,
) -> bool
    decreases qs.len(),
{
    if qs.len() == 0 {
        ans == Seq::<RecordV>::empty() && cache1 == cache0 && source1 == source0
    } else {
        exists|step: (Seq<RecordV>, Map<(Seq<Seq<u8>>, u16), EntryV>, A, Seq<RecordV>)|
            {
                &&& #[trigger] resolve_step(cache0, source0, qs[0], now, step.0, step.1, step.2)
                &&& dispatch_rel(step.1, step.2, qs.drop_first(), now, step.3, cache1, source1)
                &&& ans == step.0 + step.3
            }
    }
}

/// Extends a resolution trace by one more question at its end.
pub proof fn lemma_dispatch_rel_push<A: AnswerSource>(
    cache0: Map<(Seq<Seq<u8>>, u16), EntryV>,
    source0: A,
    qs: Seq<QuestionV>,
    now: u64,
    ans: Seq<RecordV>,
    cache1: Map<(Seq<Seq<u8>>, u16), EntryV>,
    source1: A,
    q: QuestionV,
    r: Seq<RecordV>,
    cache2: Map<(Seq<Seq<u8>>, u16), EntryV>,
    source2: A,
)
    requires
        dispatch_rel(cache0, source0, qs, now, ans, cache1, source1),
        resolve_step(cache1, source1, q, now, r, cache2, source2),
    ensures
        dispatch_rel(cache0, source0, qs.push(q), now, ans + r, cache2, source2),
    decreases qs.len(),
{
    if qs.len() == 0 {
        let w = (r, cache2, source2, Seq::<RecordV>::empty());
        assert(qs.push(q)[0] == q);
        assert(qs.push(q).drop_first() =~= Seq::<QuestionV>::empty());
        assert(resolve_step(cache0, source0, qs.push(q)[0], now, w.0, w.1, w.2));
        assert(dispatch_rel(w.1, w.2, qs.push(q).drop_first(), now, w.3, cache2, source2));
        assert(ans + r =~= w.0 + w.3);
        assert(dispatch_rel(cache0, source0, qs.push(q), now, ans + r, cache2, source2));
    } else {
        let step = choose|step: (Seq<RecordV>, Map<(Seq<Seq<u8>>, u16), EntryV>, A, Seq<RecordV>)|
            {
                &&& #[trigger] resolve_step(cache0, source0, qs[0], now, step.0, step.1, step.2)
                &&& dispatch_rel(step.1, step.2, qs.drop_first(), now, step.3, cache1, source1)
                &&& ans == step.0 + step.3
            };
        lemma_dispatch_rel_push(step.1, step.2, qs.drop_first(), now, step.3, cache1, source1, q,
            r, cache2, source2);
        let w = (step.0, step.1, step.2, step.3 + r);
        assert(qs.push(q)[0] == qs[0]);
        assert(qs.push(q).drop_first() =~= qs.drop_first().push(q));
        assert(resolve_step(cache0, source0, qs.push(q)[0], now, w.0, w.1, w.2));
        assert(dispatch_rel(w.1, w.2, qs.push(q).drop_first(), now, w.3, cache2, source2));
        assert(ans + r =~= w.0 + w.3);
        assert(dispatch_rel(cache0, source0, qs.push(q), now, ans + r, cache2, source2));
    }
}

/// A one-question trace is one `resolve_step`: the whole answer section is
/// that question's resolution — the cached records on a live hit, the
/// source's table entry on a resolvable miss, nothing otherwise.
pub proof fn lemma_dispatch_rel_single<A: AnswerSource>(
    cache0: Map<(Seq<Seq<u8>>, u16), EntryV>,
    source0: A,
    q: QuestionV,
    now: u64,
    ans: Seq<RecordV>,
    cache1: Map<(Seq<Seq<u8>>, u16), EntryV>,
    source1: A,
)
    requires
        dispatch_rel(cache0, source0, seq![q], now, ans, cache1, source1),
    ensures
        resolve_step(cache0, source0, q, now, ans, cache1, source1),
{
    let qs = seq![q];
    let step = choose|step: (Seq<RecordV>, Map<(Seq<Seq<u8>>, u16), EntryV>, A, Seq<RecordV>)|
        {
            &&& #[trigger] resolve_step(cache0, source0, qs[0], now, step.0, step.1, step.2)
            &&& dispatch_rel(step.1, step.2, qs.drop_first(), now, step.3, cache1, source1)
            &&& ans == step.0 + step.3
        };
    assert(qs.drop_first().len() == 0);
    assert(step.3 == Seq::<RecordV>::empty());
    assert(ans =~= step.0);
    assert(step.1 == cache1 && step.2 == source1);
}

/// End-to-end content for the static source: a one-question trace over a
/// question with no live cache entry answers with exactly the placeholder
/// records for its type — for an address question, one address record of
/// four rdata bytes.
pub proof fn lemma_dispatch_static_miss(
    cache0: Map<(Seq<Seq<u8>>, u16), EntryV>,
    source0: StaticAnswerSource,
    q: QuestionV,
    now: u64,
    ans: Seq<RecordV>,
    cache1: Map<(Seq<Seq<u8>>, u16), EntryV>,
    source1: StaticAnswerSource,
)
    requires
        dispatch_rel(cache0, source0, seq![q], now, ans, cache1, source1),
        lookup_spec(cache0, q.name, q.qtype, now) is None,
        resolvable(q.qtype),
    ensures
        ans == placeholder_records(q.name, q.qtype),
        ans.len() == 1,
        ans[0].name == q.name,
        ans[0].rtype == q.qtype,
        ans[0].rclass == 1,
        ans[0].ttl == 3600,
        q.qtype == QTYPE_A ==> ans[0].rdata.len() == 4 && ans[0].rdlength == 4,
        q.qtype == QTYPE_AAAA ==> ans[0].rdata.len() == 16 && ans[0].rdlength == 16,
        q.qtype == QTYPE_CNAME ==> ans[0].rdata == encoded_name(cname_target())
            && spec_parse_labels(ans[0].rdata, 0) == Ok::<(Seq<Seq<u8>>, int), NameError>(
            (cname_target(), ans[0].rdata.len() as int),
        ),
{
    lemma_dispatch_rel_single(cache0, source0, q, now, ans, cache1, source1);
    if q.qtype == QTYPE_CNAME {
        assert(wf_name(cname_target()));
        lemma_name_round_trip(cname_target());
    }
}

/// Resolver caching law: once a missed resolution of a resolvable type has
/// filled the cache with the records it returned, a lookup under the same
/// question at the same instant yields exactly those records — so an
/// immediately following `resolve` answers from the cache and leaves the
/// answer source untouched, as its cache-hit contract states. This needs the
/// stored records' minimum TTL to be positive; a record set carrying a zero
/// TTL expires at once.
pub proof fn lemma_resolver_caching(
    m: Map<(Seq<Seq<u8>>, u16), EntryV>,
    name: Seq<Seq<u8>>,
    qtype: u16,
    records: Seq<RecordV>,
    now: u64,
)
    requires
        now <= u64::MAX - u32::MAX as u64,
        min_ttl(records) > 0,
    ensures
        lookup_spec(
            m.insert((name, qtype), EntryV { records, expiry: expiry_at(now, records) }),
            name,
            qtype,
            now,
        ) == Some(records),
{
}

} // verus!
