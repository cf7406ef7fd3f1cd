//! The query dispatcher: decodes an inbound datagram, resolves each
//! question in order, assembles a response echoing the transaction id and
//! question list, and encodes it. A datagram that does not decode produces
//! no response at all.

use vstd::prelude::*;
use crate::protocol::{
    DnsHeader, DnsMessage, DnsQuestion, DnsResourceRecord, MessageV, QuestionV, RecordV,
    clone_questions,
    lemma_message_round_trip, spec_parse_message, wf_message, wf_question, wf_record,
};
use crate::cache::{EntryV, lookup_spec};
use crate::resolver::{AnswerSource, Resolver, StaticAnswerSource, dispatch_rel,
    lemma_dispatch_rel_push, lemma_dispatch_static_miss, resolvable, resolve_step};

verus! {

/// The flag word of a standard no-error response.
pub const RESPONSE_FLAGS: u16 = 0x8180;

/// What the dispatcher owes for a decoded query `q`: a well-formed response
/// that echoes the transaction id, the question count and the question list,
/// carries the standard no-error flags, counts its answers truthfully, and
/// holds no authority or additional records.
pub open spec fn response_matches(resp: MessageV, q: MessageV) -> bool {
    &&& resp.header.id == q.header.id
    &&& resp.header.flags == RESPONSE_FLAGS
    &&& resp.header.qdcount == q.header.qdcount
    &&& resp.header.nscount == 0
    &&& resp.header.arcount == 0
    &&& resp.questions == q.questions
    &&& resp.header.ancount as int == resp.answers.len()
    &&& wf_message(resp)
}

/// The dispatcher: owns the resolver (and through it the cache) for its
/// whole lifetime.
pub struct QueryHandler<A: AnswerSource> {
    pub resolver: Resolver<A>,
}

impl<A: AnswerSource> QueryHandler<A> {
    /// Well-formed: the resolver is.
    pub open spec fn wf(&self) -> bool {
        self.resolver.wf()
    }

    /// A handler over the given resolver.
    pub fn new(resolver: Resolver<A>) -> (r: Self)
        requires
            resolver.wf(),
        ensures
            r.wf(),
            r.resolver == resolver,
    {
        QueryHandler { resolver }
    }

    /// Builds the response for a decoded query: resolves every question in
    /// input order, concatenates the answers — the whole section is a
    /// `dispatch_rel` resolution trace over the question list — echoes the
    /// id and question list, and sets the standard no-error response flags.
    /// Should the collected answers ever outnumber what a 16-bit count can
    /// say, the section is cut at 65535 records so the count stays truthful.
    /// When every question has an unresolvable type and no live cache entry,
    /// the answer section is empty and nothing is consulted or cached.
    #[verifier::loop_isolation(false)]
    pub fn create_response(&mut self, query: &DnsMessage, now: u64) -> (r: DnsMessage)
        requires
            old(self).wf(),
            query.wf(),
            now <= u64::MAX - u32::MAX as u64,
        ensures
            final(self).wf(),
            response_matches(r@, query@),
            (forall|i: int|
                0 <= i < query@.questions.len() ==> !resolvable(
                    #[trigger] query@.questions[i].qtype,
                ) && lookup_spec(
                    old(self).resolver.cache@,
                    query@.questions[i].name,
                    query@.questions[i].qtype,
                    now,
                ) is None) ==> r@.answers.len() == 0
                && final(self).resolver.cache@ == old(self).resolver.cache@
                && final(self).resolver.source == old(self).resolver.source,
            exists|all: Seq<RecordV>|
                #[trigger] dispatch_rel(
                    old(self).resolver.cache@,
                    old(self).resolver.source,
                    query@.questions,
                    now,
                    all,
                    final(self).resolver.cache@,
                    final(self).resolver.source,
                ) && r@.answers == if all.len() <= 65535 {
                    all
                } else {
                    all.take(65535)
                },
    {
        let ghost untouched = forall|i: int|
            0 <= i < query@.questions.len() ==> !resolvable(#[trigger] query@.questions[i].qtype)
                && lookup_spec(
                old(self).resolver.cache@,
                query@.questions[i].name,
                query@.questions[i].qtype,
                now,
            ) is None;
        let mut answers: Vec<DnsResourceRecord> = Vec::new();
        let mut i: usize = 0;
        proof {
            assert(query@.questions.take(0) =~= Seq::<QuestionV>::empty());
            assert(answers.deep_view() =~= Seq::<RecordV>::empty());
            assert(dispatch_rel(
                old(self).resolver.cache@,
                old(self).resolver.source,
                query@.questions.take(0),
                now,
                answers.deep_view(),
                self.resolver.cache@,
                self.resolver.source,
            ));
        }
        while i < query.questions.len()
            invariant
                i <= query.questions.len(),
                self.resolver.wf(),
                forall|j: int| 0 <= j < answers@.len() ==> wf_record(#[trigger] answers.deep_view()[j]),
                untouched ==> answers@.len() == 0 && self.resolver.cache@
                    == old(self).resolver.cache@ && self.resolver.source
                    == old(self).resolver.source,
                dispatch_rel(
                    old(self).resolver.cache@,
                    old(self).resolver.source,
                    query@.questions.take(i as int),
                    now,
                    answers.deep_view(),
                    self.resolver.cache@,
                    self.resolver.source,
                ),
            decreases query.questions.len() - i,
        {
            proof {
                assert(query.questions.deep_view()[i as int] == query.questions@[i as int]@);
                assert(wf_message(query@));
            }
            let question = &query.questions[i];
            proof {
                if untouched {
                    assert(!resolvable(query@.questions[i as int].qtype));
                    assert(lookup_spec(
                        old(self).resolver.cache@,
                        query@.questions[i as int].name,
                        query@.questions[i as int].qtype,
                        now,
                    ) is None);
                    assert(question@ == query@.questions[i as int]);
                }
            }
            let ghost oldanswers = answers.deep_view();
            let ghost cache_before = self.resolver.cache@;
            let ghost source_before = self.resolver.source;
            let mut resolved = self.resolver.resolve(question, now);
            let ghost resolvedv = resolved.deep_view();
            answers.append(&mut resolved);
            proof {
                assert(question@ == query@.questions[i as int]);
                assert(resolve_step(
                    cache_before,
                    source_before,
                    query@.questions[i as int],
                    now,
                    resolvedv,
                    self.resolver.cache@,
                    self.resolver.source,
                ));
                lemma_dispatch_rel_push(
                    old(self).resolver.cache@,
                    old(self).resolver.source,
                    query@.questions.take(i as int),
                    now,
                    oldanswers,
                    cache_before,
                    source_before,
                    query@.questions[i as int],
                    resolvedv,
                    self.resolver.cache@,
                    self.resolver.source,
                );
                assert(query@.questions.take(i as int).push(query@.questions[i as int])
                    =~= query@.questions.take(i + 1));
            }
            proof {
                assert(answers.deep_view() =~= oldanswers + resolvedv) by {
                    assert forall|j: int| 0 <= j < answers.deep_view().len() implies answers.deep_view()[j]
                        == (oldanswers + resolvedv)[j] by {
                        assert(answers.deep_view()[j] == answers@[j]@);
                    }
                }
                assert forall|j: int| 0 <= j < answers@.len() implies wf_record(
                    #[trigger] answers.deep_view()[j],
                ) by {
                    if j >= oldanswers.len() {
                        assert(answers.deep_view()[j] == resolvedv[j - oldanswers.len()]);
                        assert(wf_question(query@.questions[i as int]));
                    }
                }
            }
            i = i + 1;
        }
        proof {
            assert(query@.questions.take(query@.questions.len() as int) =~= query@.questions);
        }
        let ghost all = answers.deep_view();
        if answers.len() > 65535 {
            let ghost pre = answers@;
            answers.truncate(65535);
            proof {
                assert forall|j: int| 0 <= j < answers@.len() implies wf_record(
                    #[trigger] answers.deep_view()[j],
                ) by {
                    assert(answers@[j] == pre[j]);
                    assert(wf_record(all[j]));
                    assert(all[j] == pre[j]@);
                    assert(answers.deep_view()[j] == answers@[j]@);
                }
                assert(answers.deep_view() =~= all.take(65535)) by {
                    assert forall|j: int| 0 <= j < answers@.len() implies answers.deep_view()[j]
                        == all.take(65535)[j] by {
                        assert(answers.deep_view()[j] == answers@[j]@);
                        assert(answers@[j] == pre[j]);
                        assert(all[j] == pre[j]@);
                    }
                }
            }
        }
        let ancount: u16 = answers.len() as u16;
        let questions = clone_questions(&query.questions);
        let header = DnsHeader {
            id: query.header.id,
            flags: RESPONSE_FLAGS,
            qdcount: query.header.qdcount,
            ancount,
            nscount: 0,
            arcount: 0,
        };
        let r = DnsMessage { header, questions, answers };
        proof {
            assert(r@.questions == query@.questions);
            assert(wf_message(r@));
        }
        r
    }

    /// Handles one inbound datagram: a buffer that decodes yields exactly
    /// one encoded response that satisfies `response_matches` and whose
    /// answer section is a `dispatch_rel` resolution trace over the query's
    /// questions — in particular, a query whose every question has an
    /// unresolvable type and no live cache entry gets an answer count of
    /// zero with nothing consulted or cached. A buffer that does not decode
    /// — in particular any buffer shorter than 12 bytes — yields nothing and
    /// leaves the cache and the answer source untouched.
    pub fn handle_query(&mut self, query: &[u8], now: u64) -> (r: Option<Vec<u8>>)
        requires
            old(self).wf(),
            now <= u64::MAX - u32::MAX as u64,
        ensures
            final(self).wf(),
            query@.len() < 12 ==> r is None,
            match spec_parse_message(query@) {
                Ok(q) => r matches Some(bytes) && spec_parse_message(bytes@) matches Ok(resp)
                    && response_matches(resp, q) && (exists|all: Seq<RecordV>|
                    #[trigger] dispatch_rel(
                        old(self).resolver.cache@,
                        old(self).resolver.source,
                        q.questions,
                        now,
                        all,
                        final(self).resolver.cache@,
                        final(self).resolver.source,
                    ) && resp.answers == if all.len() <= 65535 {
                        all
                    } else {
                        all.take(65535)
                    }) && ((forall|i: int|
                    0 <= i < q.questions.len() ==> !resolvable(#[trigger] q.questions[i].qtype)
                        && lookup_spec(
                        old(self).resolver.cache@,
                        q.questions[i].name,
                        q.questions[i].qtype,
                        now,
                    ) is None) ==> resp.header.ancount == 0 && resp.answers.len() == 0
                    && final(self).resolver.cache@ == old(self).resolver.cache@
                    && final(self).resolver.source == old(self).resolver.source),
                Err(_) => r is None && final(self).resolver.cache@ == old(self).resolver.cache@
                    && final(self).resolver.source == old(self).resolver.source,
            },
    {
        let msg = match DnsMessage::parse(query) {
            Ok(m) => m,
            Err(_) => {
                return None;
            },
        };
        let response = self.create_response(&msg, now);
        let bytes = response.serialize();
        proof {
            lemma_message_round_trip(response@);
        }
        Some(bytes)
    }
}

/// End-to-end law for the static source: a decoded query holding exactly one
/// address question with no live cache entry is answered, per the
/// dispatcher's contract, with an answer count of one — a single address
/// record of class 1 carrying the question's own name and four rdata bytes.
pub proof fn lemma_single_address_query_response(
    cache0: Map<(Seq<Seq<u8>>, u16), EntryV>,
    source0: StaticAnswerSource,
    q: MessageV,
    now: u64,
    resp: MessageV,
    cache1: Map<(Seq<Seq<u8>>, u16), EntryV>,
    source1: StaticAnswerSource,
)
    requires
        q.questions.len() == 1,
        q.questions[0].qtype == 1,
        lookup_spec(cache0, q.questions[0].name, 1, now) is None,
        response_matches(resp, q),
        exists|all: Seq<RecordV>|
            #[trigger] dispatch_rel(cache0, source0, q.questions, now, all, cache1, source1)
                && resp.answers == if all.len() <= 65535 {
                all
            } else {
                all.take(65535)
            },
    ensures
        resp.header.ancount == 1,
        resp.answers.len() == 1,
        resp.answers[0].rtype == 1,
        resp.answers[0].rclass == 1,
        resp.answers[0].name == q.questions[0].name,
        resp.answers[0].rdata.len() == 4,
        resp.answers[0].rdlength == 4,
{
    let all = choose|all: Seq<RecordV>|
        #[trigger] dispatch_rel(cache0, source0, q.questions, now, all, cache1, source1)
            && resp.answers == if all.len() <= 65535 {
            all
        } else {
            all.take(65535)
        };
    assert(q.questions =~= seq![q.questions[0]]);
    lemma_dispatch_static_miss(cache0, source0, q.questions[0], now, all, cache1, source1);
}

} // verus!
