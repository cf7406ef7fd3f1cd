//! The DNS wire-format codec: structured messages, their big-endian binary
//! encoding, and a bound-checked decoder that never reads past the buffer.

use vstd::prelude::*;
use crate::name::{
    DomainName, NameError, clone_bytes, encoded_name, spec_parse_labels, wf_name,
    lemma_spec_parse_labels_ok, lemma_parse_encoded_labels, lemma_parse_labels_prefix,
    serialize_domain_name, parse_domain_name,
};

verus! {

/// Decoding failures, always local to one datagram.
#[derive(Clone, Copy, Debug, PartialEq, Eq, Structural)]
pub enum DecodeError {
    /// Fewer than 12 bytes remained for the fixed header.
    TruncatedHeader,
    /// The buffer was exhausted while reading a question.
    TruncatedQuestion,
    /// The buffer was exhausted while reading a resource record.
    TruncatedRecord,
    /// A name label length byte exceeded 63.
    LabelTooLong,
    /// A name label byte was not ASCII text.
    InvalidLabelEncoding,
}

/// How a name-level error surfaces while decoding a question.
pub open spec fn name_err_in_question(e: NameError) -> DecodeError {
    match e {
        NameError::Truncated => DecodeError::TruncatedQuestion,
        NameError::LabelTooLong => DecodeError::LabelTooLong,
        NameError::InvalidLabel => DecodeError::InvalidLabelEncoding,
    }
}

/// How a name-level error surfaces while decoding a resource record.
pub open spec fn name_err_in_record(e: NameError) -> DecodeError {
    match e {
        NameError::Truncated => DecodeError::TruncatedRecord,
        NameError::LabelTooLong => DecodeError::LabelTooLong,
        NameError::InvalidLabel => DecodeError::InvalidLabelEncoding,
    }
}

/// The fixed 12-byte message header.
#[derive(Clone, Copy, Debug, PartialEq, Eq, Structural)]
pub struct DnsHeader {
    pub id: u16,
    pub flags: u16,
    pub qdcount: u16,
    pub ancount: u16,
    pub nscount: u16,
    pub arcount: u16,
}

/// A question: a name, a query type and a query class.
pub struct DnsQuestion {
    pub name: DomainName,
    pub qtype: u16,
    pub qclass: u16,
}

/// A resource record; `rdata` is opaque and `rdlength` must equal its length.
pub struct DnsResourceRecord {
    pub name: DomainName,
    pub rtype: u16,
    pub rclass: u16,
    pub ttl: u32,
    pub rdlength: u16,
    pub rdata: Vec<u8>,
}

/// A whole message: header, questions and answer records.
pub struct DnsMessage {
    pub header: DnsHeader,
    pub questions: Vec<DnsQuestion>,
    pub answers: Vec<DnsResourceRecord>,
}

/// The mathematical value of a question.
#[verifier::ext_equal]
pub ghost struct QuestionV {
    pub name: Seq<Seq<u8>>,
    pub qtype: u16,
    pub qclass: u16,
}

/// The mathematical value of a resource record.
#[verifier::ext_equal]
pub ghost struct RecordV {
    pub name: Seq<Seq<u8>>,
    pub rtype: u16,
    pub rclass: u16,
    pub ttl: u32,
    pub rdlength: u16,
    pub rdata: Seq<u8>,
}

/// The mathematical value of a message.
#[verifier::ext_equal]
pub ghost struct MessageV {
    pub header: DnsHeader,
    pub questions: Seq<QuestionV>,
    pub answers: Seq<RecordV>,
}

impl View for DnsQuestion {
    type V = QuestionV;

    open spec fn view(&self) -> QuestionV {
        QuestionV { name: self.name@, qtype: self.qtype, qclass: self.qclass }
    }
}

impl DeepView for DnsQuestion {
    type V = QuestionV;

    open spec fn deep_view(&self) -> QuestionV {
        self.view()
    }
}

impl View for DnsResourceRecord {
    type V = RecordV;

    open spec fn view(&self) -> RecordV {
        RecordV {
            name: self.name@,
            rtype: self.rtype,
            rclass: self.rclass,
            ttl: self.ttl,
            rdlength: self.rdlength,
            rdata: self.rdata@,
        }
    }
}

impl DeepView for DnsResourceRecord {
    type V = RecordV;

    open spec fn deep_view(&self) -> RecordV {
        self.view()
    }
}

impl View for DnsMessage {
    type V = MessageV;

    open spec fn view(&self) -> MessageV {
        MessageV {
            header: self.header,
            questions: self.questions.deep_view(),
            answers: self.answers.deep_view(),
        }
    }
}

/// A well-formed question: its name is well formed.
pub open spec fn wf_question(q: QuestionV) -> bool {
    wf_name(q.name)
}

/// A well-formed record: its name is well formed and its declared rdata
/// length equals the actual rdata byte count.
pub open spec fn wf_record(r: RecordV) -> bool {
    &&& wf_name(r.name)
    &&& r.rdlength as int == r.rdata.len()
}

/// A well-formed message: the header counts equal the sequence lengths and
/// every question and record is itself well formed.
pub open spec fn wf_message(m: MessageV) -> bool {
    &&& m.header.qdcount as int == m.questions.len()
    &&& m.header.ancount as int == m.answers.len()
    &&& forall|i: int| 0 <= i < m.questions.len() ==> #[trigger] wf_question(m.questions[i])
    &&& forall|i: int| 0 <= i < m.answers.len() ==> #[trigger] wf_record(m.answers[i])
}

impl DnsQuestion {
    /// Whether this question is well formed.
    pub open spec fn wf(&self) -> bool {
        wf_question(self@)
    }
}

impl DnsResourceRecord {
    /// Whether this record is well formed.
    pub open spec fn wf(&self) -> bool {
        wf_record(self@)
    }
}

impl DnsMessage {
    /// Whether this message is well formed.
    pub open spec fn wf(&self) -> bool {
        wf_message(self@)
    }
}

/// The two big-endian bytes of a 16-bit value.
pub open spec fn be16(v: u16) -> Seq<u8> {
    seq![(v / 256) as u8, (v % 256) as u8]
}

/// The four big-endian bytes of a 32-bit value: its high half, then its
/// low half.
pub open spec fn be32(v: u32) -> Seq<u8> {
    be16((v / 0x10000) as u16) + be16((v % 0x10000) as u16)
}

/// The 16-bit value whose big-endian bytes sit at `pos`.
pub open spec fn be16_at(s: Seq<u8>, pos: int) -> u16 {
    (s[pos] as int * 256 + s[pos + 1] as int) as u16
}

/// The 32-bit value whose big-endian bytes sit at `pos`.
pub open spec fn be32_at(s: Seq<u8>, pos: int) -> u32 {
    (be16_at(s, pos) as int * 0x10000 + be16_at(s, pos + 2) as int) as u32
}

/// The wire bytes of a header.
pub open spec fn encoded_header(h: DnsHeader) -> Seq<u8> {
    be16(h.id) + be16(h.flags) + be16(h.qdcount) + be16(h.ancount) + be16(h.nscount) + be16(
        h.arcount,
    )
}

/// The wire bytes of one question.
pub open spec fn encoded_question(q: QuestionV) -> Seq<u8> {
    encoded_name(q.name) + be16(q.qtype) + be16(q.qclass)
}

/// The wire bytes of a question sequence, in order.
pub open spec fn encoded_questions(qs: Seq<QuestionV>) -> Seq<u8>
    decreases qs.len(),
{
    if qs.len() == 0 {
        Seq::empty()
    } else {
        encoded_question(qs[0]) + encoded_questions(qs.drop_first())
    }
}

/// The wire bytes of one resource record.
pub open spec fn encoded_record(r: RecordV) -> Seq<u8> {
    encoded_name(r.name) + be16(r.rtype) + be16(r.rclass) + be32(r.ttl) + be16(r.rdlength)
        + r.rdata
}

/// The wire bytes of a record sequence, in order.
pub open spec fn encoded_records(rs: Seq<RecordV>) -> Seq<u8>
    decreases rs.len(),
{
    if rs.len() == 0 {
        Seq::empty()
    } else {
        encoded_record(rs[0]) + encoded_records(rs.drop_first())
    }
}

/// The wire bytes of a whole message: header, then questions, then answers.
pub open spec fn encoded_message(m: MessageV) -> Seq<u8> {
    encoded_header(m.header) + encoded_questions(m.questions) + encoded_records(m.answers)
}

pub proof fn lemma_encoded_questions_push(qs: Seq<QuestionV>, q: QuestionV)
    ensures
        encoded_questions(qs.push(q)) == encoded_questions(qs) + encoded_question(q),
    decreases qs.len(),
{
    if qs.len() == 0 {
        assert(qs.push(q).drop_first() =~= qs);
        assert(encoded_questions(qs.push(q)) =~= encoded_questions(qs) + encoded_question(q));
    } else {
        assert(qs.push(q).drop_first() =~= qs.drop_first().push(q));
        lemma_encoded_questions_push(qs.drop_first(), q);
        assert(encoded_questions(qs.push(q)) =~= encoded_questions(qs) + encoded_question(q));
    }
}

pub proof fn lemma_encoded_records_push(rs: Seq<RecordV>, r: RecordV)
    ensures
        encoded_records(rs.push(r)) == encoded_records(rs) + encoded_record(r),
    decreases rs.len(),
{
    if rs.len() == 0 {
        assert(rs.push(r).drop_first() =~= rs);
        assert(encoded_records(rs.push(r)) =~= encoded_records(rs) + encoded_record(r));
    } else {
        assert(rs.push(r).drop_first() =~= rs.drop_first().push(r));
        lemma_encoded_records_push(rs.drop_first(), r);
        assert(encoded_records(rs.push(r)) =~= encoded_records(rs) + encoded_record(r));
    }
}

/// Appends the bytes of `src` to `out`.
pub fn append_bytes(out: &mut Vec<u8>, src: &Vec<u8>)
    ensures
        final(out)@ == old(out)@ + src@,
{
    let mut i: usize = 0;
    proof {
        assert(out@ =~= old(out)@ + src@.take(0));
    }
    while i < src.len()
        invariant
            i <= src.len(),
            out@ == old(out)@ + src@.take(i as int),
        decreases src.len() - i,
    {
        out.push(src[i]);
        proof {
            assert(old(out)@ + src@.take(i as int).push(src@[i as int]) =~= old(out)@ + src@.take(
                i + 1,
            ));
        }
        i = i + 1;
    }
    proof {
        assert(src@.take(src@.len() as int) =~= src@);
    }
}

/// Appends the two big-endian bytes of `v` to `out`.
pub fn write_u16(out: &mut Vec<u8>, v: u16)
    ensures
        final(out)@ == old(out)@ + be16(v),
{
    out.push((v / 256) as u8);
    out.push((v % 256) as u8);
    proof {
        assert(out@ =~= old(out)@ + be16(v));
    }
}

/// Appends the four big-endian bytes of `v` to `out`.
pub fn write_u32(out: &mut Vec<u8>, v: u32)
    ensures
        final(out)@ == old(out)@ + be32(v),
{
    write_u16(out, (v / 0x10000) as u16);
    write_u16(out, (v % 0x10000) as u16);
    proof {
        assert(out@ =~= old(out)@ + be32(v));
    }
}

/// Reads the 16-bit big-endian value at `pos`.
pub fn read_u16(buf: &[u8], pos: usize) -> (r: u16)
    requires
        pos + 2 <= buf@.len(),
    ensures
        r == be16_at(buf@, pos as int),
{
    let hi: u16 = buf[pos] as u16;
    let lo: u16 = buf[pos + 1] as u16;
    hi * 256 + lo
}

/// Reads the 32-bit big-endian value at `pos`.
pub fn read_u32(buf: &[u8], pos: usize) -> (r: u32)
    requires
        pos + 4 <= buf@.len(),
    ensures
        r == be32_at(buf@, pos as int),
{
    let total: usize = buf.len();
    proof {
        assert(pos + 2 <= total);
    }
    let hi: u32 = read_u16(buf, pos) as u32;
    let lo: u32 = read_u16(buf, pos + 2) as u32;
    hi * 0x10000 + lo
}

impl Clone for DnsQuestion {
    fn clone(&self) -> (r: Self)
        ensures
            r@ == self@,
    {
        DnsQuestion { name: self.name.clone(), qtype: self.qtype, qclass: self.qclass }
    }
}

impl Clone for DnsResourceRecord {
    fn clone(&self) -> (r: Self)
        ensures
            r@ == self@,
    {
        DnsResourceRecord {
            name: self.name.clone(),
            rtype: self.rtype,
            rclass: self.rclass,
            ttl: self.ttl,
            rdlength: self.rdlength,
            rdata: clone_bytes(&self.rdata),
        }
    }
}

impl DnsHeader {
    /// Writes the six header fields in order, big endian.
    pub fn serialize(&self, out: &mut Vec<u8>)
        ensures
            final(out)@ == old(out)@ + encoded_header(*self),
    {
        write_u16(out, self.id);
        write_u16(out, self.flags);
        write_u16(out, self.qdcount);
        write_u16(out, self.ancount);
        write_u16(out, self.nscount);
        write_u16(out, self.arcount);
        proof {
            assert(out@ =~= old(out)@ + encoded_header(*self));
        }
    }

    /// Reads the six header fields; fails if fewer than 12 bytes remain.
    pub fn parse(buf: &[u8]) -> (r: Result<Self, DecodeError>)
        ensures
            buf@.len() >= 12 ==> r == Ok::<DnsHeader, DecodeError>(spec_header_at(buf@)),
            buf@.len() < 12 ==> r == Err::<DnsHeader, DecodeError>(DecodeError::TruncatedHeader),
    {
        if buf.len() < 12 {
            return Err(DecodeError::TruncatedHeader);
        }
        Ok(
            DnsHeader {
                id: read_u16(buf, 0),
                flags: read_u16(buf, 2),
                qdcount: read_u16(buf, 4),
                ancount: read_u16(buf, 6),
                nscount: read_u16(buf, 8),
                arcount: read_u16(buf, 10),
            },
        )
    }
}

/// The header whose twelve bytes open `s`.
pub open spec fn spec_header_at(s: Seq<u8>) -> DnsHeader {
    DnsHeader {
        id: be16_at(s, 0),
        flags: be16_at(s, 2),
        qdcount: be16_at(s, 4),
        ancount: be16_at(s, 6),
        nscount: be16_at(s, 8),
        arcount: be16_at(s, 10),
    }
}

/// The mathematical parser for one question starting at `pos`.
pub open spec fn spec_parse_question(s: Seq<u8>, pos: int) -> Result<(QuestionV, int), DecodeError> {
    match spec_parse_labels(s, pos) {
        Ok(parsed) => {
            let p = parsed.1;
            if p + 4 > s.len() {
                Err(DecodeError::TruncatedQuestion)
            } else {
                Ok(
                    (
                        QuestionV {
                            name: parsed.0,
                            qtype: be16_at(s, p),
                            qclass: be16_at(s, p + 2),
                        },
                        p + 4,
                    ),
                )
            }
        },
        Err(e) => Err(name_err_in_question(e)),
    }
}

/// The mathematical parser for exactly `count` questions starting at `pos`.
pub open spec fn spec_parse_questions(s: Seq<u8>, pos: int, count: int) -> Result<
    (Seq<QuestionV>, int),
    DecodeError,
>
    decreases count,
{
    if count <= 0 {
        Ok((Seq::empty(), pos))
    } else {
        match spec_parse_question(s, pos) {
            Ok(parsed) => match spec_parse_questions(s, parsed.1, count - 1) {
                Ok(rest) => Ok((seq![parsed.0] + rest.0, rest.1)),
                Err(e) => Err(e),
            },
            Err(e) => Err(e),
        }
    }
}

/// The mathematical parser for one resource record starting at `pos`.
pub open spec fn spec_parse_record(s: Seq<u8>, pos: int) -> Result<(RecordV, int), DecodeError> {
    match spec_parse_labels(s, pos) {
        Ok(parsed) => {
            let p = parsed.1;
            if p + 10 > s.len() {
                Err(DecodeError::TruncatedRecord)
            } else {
                let rdlength = be16_at(s, p + 8);
                if p + 10 + rdlength as int > s.len() {
                    Err(DecodeError::TruncatedRecord)
                } else {
                    Ok(
                        (
                            RecordV {
                                name: parsed.0,
                                rtype: be16_at(s, p),
                                rclass: be16_at(s, p + 2),
                                ttl: be32_at(s, p + 4),
                                rdlength,
                                rdata: s.subrange(p + 10, p + 10 + rdlength as int),
                            },
                            p + 10 + rdlength as int,
                        ),
                    )
                }
            }
        },
        Err(e) => Err(name_err_in_record(e)),
    }
}

/// The mathematical parser for exactly `count` records starting at `pos`.
pub open spec fn spec_parse_records(s: Seq<u8>, pos: int, count: int) -> Result<
    (Seq<RecordV>, int),
    DecodeError,
>
    decreases count,
{
    if count <= 0 {
        Ok((Seq::empty(), pos))
    } else {
        match spec_parse_record(s, pos) {
            Ok(parsed) => match spec_parse_records(s, parsed.1, count - 1) {
                Ok(rest) => Ok((seq![parsed.0] + rest.0, rest.1)),
                Err(e) => Err(e),
            },
            Err(e) => Err(e),
        }
    }
}

/// The mathematical parser for a whole message: a 12-byte header, then
/// exactly `qdcount` questions and `ancount` answer records. Bytes past the
/// answer section are ignored.
pub open spec fn spec_parse_message(s: Seq<u8>) -> Result<MessageV, DecodeError> {
    if s.len() < 12 {
        Err(DecodeError::TruncatedHeader)
    } else {
        let header = spec_header_at(s);
        match spec_parse_questions(s, 12, header.qdcount as int) {
            Ok(qparsed) => match spec_parse_records(s, qparsed.1, header.ancount as int) {
                Ok(aparsed) => Ok(
                    MessageV { header, questions: qparsed.0, answers: aparsed.0 },
                ),
                Err(e) => Err(e),
            },
            Err(e) => Err(e),
        }
    }
}

impl DnsQuestion {
    /// Writes this question: its name, then qtype and qclass, big endian.
    pub fn serialize(&self, out: &mut Vec<u8>)
        ensures
            final(out)@ == old(out)@ + encoded_question(self@),
    {
        let namebytes = serialize_domain_name(&self.name);
        append_bytes(out, &namebytes);
        write_u16(out, self.qtype);
        write_u16(out, self.qclass);
        proof {
            assert(out@ =~= old(out)@ + encoded_question(self@));
        }
    }

    /// Reads one question at `pos`, exactly as `spec_parse_question`
    /// describes; on success it also returns the position just past it.
    pub fn parse(buf: &[u8], pos: usize) -> (r: Result<(Self, usize), DecodeError>)
        ensures
            match spec_parse_question(buf@, pos as int) {
                Ok(parsed) => {
                    &&& r is Ok
                    &&& r->Ok_0.0@ == parsed.0
                    &&& r->Ok_0.0.wf()
                    &&& r->Ok_0.1 as int == parsed.1
                    &&& r->Ok_0.1 <= buf@.len()
                },
                Err(e) => r == Err::<(Self, usize), DecodeError>(e),
            },
    {
        let parsed_name = match parse_domain_name(buf, pos) {
            Ok(np) => np,
            Err(e) => {
                return Err(
                    match e {
                        NameError::Truncated => DecodeError::TruncatedQuestion,
                        NameError::LabelTooLong => DecodeError::LabelTooLong,
                        NameError::InvalidLabel => DecodeError::InvalidLabelEncoding,
                    },
                );
            },
        };
        let name = parsed_name.0;
        let p = parsed_name.1;
        if buf.len() - p < 4 {
            return Err(DecodeError::TruncatedQuestion);
        }
        let qtype = read_u16(buf, p);
        let qclass = read_u16(buf, p + 2);
        Ok((DnsQuestion { name, qtype, qclass }, p + 4))
    }
}

impl DnsResourceRecord {
    /// Writes this record: name, type, class, TTL, rdata length, rdata.
    pub fn serialize(&self, out: &mut Vec<u8>)
        ensures
            final(out)@ == old(out)@ + encoded_record(self@),
    {
        let namebytes = serialize_domain_name(&self.name);
        append_bytes(out, &namebytes);
        write_u16(out, self.rtype);
        write_u16(out, self.rclass);
        write_u32(out, self.ttl);
        write_u16(out, self.rdlength);
        append_bytes(out, &self.rdata);
        proof {
            assert(out@ =~= old(out)@ + encoded_record(self@));
        }
    }

    /// Reads one resource record at `pos`, exactly as `spec_parse_record`
    /// describes; on success it also returns the position just past it.
    #[verifier::loop_isolation(false)]
    pub fn parse(buf: &[u8], pos: usize) -> (r: Result<(Self, usize), DecodeError>)
        ensures
            match spec_parse_record(buf@, pos as int) {
                Ok(parsed) => {
                    &&& r is Ok
                    &&& r->Ok_0.0@ == parsed.0
                    &&& r->Ok_0.0.wf()
                    &&& r->Ok_0.1 as int == parsed.1
                    &&& r->Ok_0.1 <= buf@.len()
                },
                Err(e) => r == Err::<(Self, usize), DecodeError>(e),
            },
    {
        let parsed_name = match parse_domain_name(buf, pos) {
            Ok(np) => np,
            Err(e) => {
                return Err(
                    match e {
                        NameError::Truncated => DecodeError::TruncatedRecord,
                        NameError::LabelTooLong => DecodeError::LabelTooLong,
                        NameError::InvalidLabel => DecodeError::InvalidLabelEncoding,
                    },
                );
            },
        };
        let name = parsed_name.0;
        let p = parsed_name.1;
        if buf.len() - p < 10 {
            return Err(DecodeError::TruncatedRecord);
        }
        let rtype = read_u16(buf, p);
        let rclass = read_u16(buf, p + 2);
        let ttl = read_u32(buf, p + 4);
        let rdlength = read_u16(buf, p + 8);
        let start = p + 10;
        if buf.len() - start < rdlength as usize {
            return Err(DecodeError::TruncatedRecord);
        }
        let mut rdata: Vec<u8> = Vec::new();
        let mut j: usize = 0;
        while j < rdlength as usize
            invariant
                j <= rdlength as usize,
                rdata@ == buf@.subrange(start as int, start as int + j as int),
            decreases rdlength as usize - j,
        {
            rdata.push(buf[start + j]);
            proof {
                assert(rdata@ =~= buf@.subrange(start as int, start as int + j as int + 1));
            }
            j = j + 1;
        }
        Ok(
            (
                DnsResourceRecord { name, rtype, rclass, ttl, rdlength, rdata },
                start + rdlength as usize,
            ),
        )
    }
}

/// A successful question parse yields a well-formed question and stops
/// inside the buffer.
pub proof fn lemma_spec_parse_question_ok(s: Seq<u8>, pos: int)
    requires
        spec_parse_question(s, pos) is Ok,
    ensures
        wf_question(spec_parse_question(s, pos)->Ok_0.0),
        pos < spec_parse_question(s, pos)->Ok_0.1 <= s.len(),
{
    lemma_spec_parse_labels_ok(s, pos);
}

/// A successful record parse yields a well-formed record and stops inside
/// the buffer.
pub proof fn lemma_spec_parse_record_ok(s: Seq<u8>, pos: int)
    requires
        spec_parse_record(s, pos) is Ok,
    ensures
        wf_record(spec_parse_record(s, pos)->Ok_0.0),
        pos < spec_parse_record(s, pos)->Ok_0.1 <= s.len(),
{
    lemma_spec_parse_labels_ok(s, pos);
}

/// A successful question-list parse yields exactly `count` well-formed
/// questions and does not move backwards.
pub proof fn lemma_spec_parse_questions_ok(s: Seq<u8>, pos: int, count: int)
    requires
        spec_parse_questions(s, pos, count) is Ok,
        0 <= count,
    ensures
        spec_parse_questions(s, pos, count)->Ok_0.0.len() == count,
        pos <= spec_parse_questions(s, pos, count)->Ok_0.1,
        count > 0 ==> spec_parse_questions(s, pos, count)->Ok_0.1 <= s.len(),
        forall|i: int|
            0 <= i < count ==> #[trigger] wf_question(spec_parse_questions(s, pos, count)->Ok_0.0[i]),
    decreases count,
{
    if count > 0 {
        let first = spec_parse_question(s, pos)->Ok_0;
        lemma_spec_parse_question_ok(s, pos);
        lemma_spec_parse_questions_ok(s, first.1, count - 1);
        let rest = spec_parse_questions(s, first.1, count - 1)->Ok_0;
        let all = spec_parse_questions(s, pos, count)->Ok_0;
        assert forall|i: int| 0 <= i < count implies #[trigger] wf_question(all.0[i]) by {
            if i > 0 {
                assert(all.0[i] == rest.0[i - 1]);
            }
        }
    }
}

/// A successful record-list parse yields exactly `count` well-formed records
/// and does not move backwards.
pub proof fn lemma_spec_parse_records_ok(s: Seq<u8>, pos: int, count: int)
    requires
        spec_parse_records(s, pos, count) is Ok,
        0 <= count,
    ensures
        spec_parse_records(s, pos, count)->Ok_0.0.len() == count,
        pos <= spec_parse_records(s, pos, count)->Ok_0.1,
        count > 0 ==> spec_parse_records(s, pos, count)->Ok_0.1 <= s.len(),
        forall|i: int|
            0 <= i < count ==> #[trigger] wf_record(spec_parse_records(s, pos, count)->Ok_0.0[i]),
    decreases count,
{
    if count > 0 {
        let first = spec_parse_record(s, pos)->Ok_0;
        lemma_spec_parse_record_ok(s, pos);
        lemma_spec_parse_records_ok(s, first.1, count - 1);
        let rest = spec_parse_records(s, first.1, count - 1)->Ok_0;
        let all = spec_parse_records(s, pos, count)->Ok_0;
        assert forall|i: int| 0 <= i < count implies #[trigger] wf_record(all.0[i]) by {
            if i > 0 {
                assert(all.0[i] == rest.0[i - 1]);
            }
        }
    }
}

/// A successfully parsed message is well formed: its header counts equal its
/// sequence lengths and every question and record is well formed.
pub proof fn lemma_spec_parse_message_ok(s: Seq<u8>)
    requires
        spec_parse_message(s) is Ok,
    ensures
        wf_message(spec_parse_message(s)->Ok_0),
{
    let header = spec_header_at(s);
    lemma_spec_parse_questions_ok(s, 12, header.qdcount as int);
    let qparsed = spec_parse_questions(s, 12, header.qdcount as int)->Ok_0;
    lemma_spec_parse_records_ok(s, qparsed.1, header.ancount as int);
}

impl DnsMessage {
    /// Reads a whole message: a 12-byte header, then exactly `qdcount`
    /// questions and `ancount` answer records, every multi-byte read checked
    /// against the remaining buffer length. Trailing bytes are ignored.
    #[verifier::loop_isolation(false)]
    pub fn parse(buf: &[u8]) -> (r: Result<Self, DecodeError>)
        ensures
            match spec_parse_message(buf@) {
                Ok(m) => r is Ok && r->Ok_0@ == m && r->Ok_0.wf(),
                Err(e) => r == Err::<Self, DecodeError>(e),
            },
    {
        let header = match DnsHeader::parse(buf) {
            Ok(h) => h,
            Err(e) => {
                return Err(e);
            },
        };
        let ghost wholeq = spec_parse_questions(buf@, 12, header.qdcount as int);
        let mut questions: Vec<DnsQuestion> = Vec::new();
        let mut cur: usize = 12;
        let mut i: u16 = 0;
        proof {
            if wholeq is Ok {
                assert(Seq::<QuestionV>::empty() + wholeq->Ok_0.0 =~= wholeq->Ok_0.0);
            }
            assert(questions.deep_view() =~= Seq::<QuestionV>::empty());
        }
        while i < header.qdcount
            invariant
                i <= header.qdcount,
                12 <= cur <= buf@.len(),
                questions.deep_view().len() == i as int,
                match spec_parse_questions(buf@, cur as int, header.qdcount as int - i as int) {
                    Ok(parsed) => wholeq == Ok::<(Seq<QuestionV>, int), DecodeError>(
                        (questions.deep_view() + parsed.0, parsed.1),
                    ),
                    Err(e) => wholeq == Err::<(Seq<QuestionV>, int), DecodeError>(e),
                },
            decreases header.qdcount - i,
        {
            let parsed = match DnsQuestion::parse(buf, cur) {
                Ok(qp) => qp,
                Err(e) => {
                    return Err(e);
                },
            };
            let ghost oldqs = questions.deep_view();
            let ghost specq = spec_parse_question(buf@, cur as int)->Ok_0;
            proof {
                lemma_spec_parse_question_ok(buf@, cur as int);
            }
            questions.push(parsed.0);
            proof {
                assert(questions.deep_view() =~= oldqs.push(specq.0)) by {
                    assert forall|j: int| 0 <= j < questions.deep_view().len() implies
                        questions.deep_view()[j] == oldqs.push(specq.0)[j] by {
                        assert(questions.deep_view()[j] == questions@[j]@);
                    }
                }
                if spec_parse_questions(buf@, specq.1, header.qdcount as int - i as int - 1) is Ok {
                    let rest = spec_parse_questions(
                        buf@,
                        specq.1,
                        header.qdcount as int - i as int - 1,
                    )->Ok_0;
                    assert(oldqs + (seq![specq.0] + rest.0) =~= oldqs.push(specq.0) + rest.0);
                }
            }
            cur = parsed.1;
            i = i + 1;
        }
        proof {
            assert(questions.deep_view() + Seq::<QuestionV>::empty() =~= questions.deep_view());
            assert(wholeq == Ok::<(Seq<QuestionV>, int), DecodeError>(
                (questions.deep_view(), cur as int),
            ));
        }
        let ghost wholea = spec_parse_records(buf@, cur as int, header.ancount as int);
        let mut answers: Vec<DnsResourceRecord> = Vec::new();
        let mut k: u16 = 0;
        proof {
            if wholea is Ok {
                assert(Seq::<RecordV>::empty() + wholea->Ok_0.0 =~= wholea->Ok_0.0);
            }
            assert(answers.deep_view() =~= Seq::<RecordV>::empty());
        }
        while k < header.ancount
            invariant
                k <= header.ancount,
                12 <= cur <= buf@.len(),
                answers.deep_view().len() == k as int,
                match spec_parse_records(buf@, cur as int, header.ancount as int - k as int) {
                    Ok(parsed) => wholea == Ok::<(Seq<RecordV>, int), DecodeError>(
                        (answers.deep_view() + parsed.0, parsed.1),
                    ),
                    Err(e) => wholea == Err::<(Seq<RecordV>, int), DecodeError>(e),
                },
            decreases header.ancount - k,
        {
            let parsed = match DnsResourceRecord::parse(buf, cur) {
                Ok(rp) => rp,
                Err(e) => {
                    return Err(e);
                },
            };
            let ghost oldans = answers.deep_view();
            let ghost specr = spec_parse_record(buf@, cur as int)->Ok_0;
            proof {
                lemma_spec_parse_record_ok(buf@, cur as int);
            }
            answers.push(parsed.0);
            proof {
                assert(answers.deep_view() =~= oldans.push(specr.0)) by {
                    assert forall|j: int| 0 <= j < answers.deep_view().len() implies
                        answers.deep_view()[j] == oldans.push(specr.0)[j] by {
                        assert(answers.deep_view()[j] == answers@[j]@);
                    }
                }
                if spec_parse_records(buf@, specr.1, header.ancount as int - k as int - 1) is Ok {
                    let rest = spec_parse_records(
                        buf@,
                        specr.1,
                        header.ancount as int - k as int - 1,
                    )->Ok_0;
                    assert(oldans + (seq![specr.0] + rest.0) =~= oldans.push(specr.0) + rest.0);
                }
            }
            cur = parsed.1;
            k = k + 1;
        }
        proof {
            assert(answers.deep_view() + Seq::<RecordV>::empty() =~= answers.deep_view());
            lemma_spec_parse_message_ok(buf@);
        }
        Ok(DnsMessage { header, questions, answers })
    }

    /// Writes the whole message: header fields in order, then each question,
    /// then each answer record.
    #[verifier::loop_isolation(false)]
    pub fn serialize(&self) -> (r: Vec<u8>)
        ensures
            r@ == encoded_message(self@),
    {
        let mut out: Vec<u8> = Vec::new();
        self.header.serialize(&mut out);
        let mut i: usize = 0;
        proof {
            assert(encoded_questions(self@.questions.take(0)) =~= Seq::<u8>::empty());
            assert(out@ =~= encoded_header(self.header) + encoded_questions(
                self@.questions.take(0),
            ));
        }
        while i < self.questions.len()
            invariant
                i <= self.questions.len(),
                out@ == encoded_header(self.header) + encoded_questions(
                    self@.questions.take(i as int),
                ),
            decreases self.questions.len() - i,
        {
            proof {
                assert(self.questions.deep_view()[i as int] == self.questions@[i as int]@);
            }
            self.questions[i].serialize(&mut out);
            proof {
                lemma_encoded_questions_push(self@.questions.take(i as int), self@.questions[i as int]);
                assert(self@.questions.take(i as int).push(self@.questions[i as int])
                    =~= self@.questions.take(i + 1));
                assert(out@ =~= encoded_header(self.header) + encoded_questions(
                    self@.questions.take(i + 1),
                ));
            }
            i = i + 1;
        }
        proof {
            assert(self@.questions.take(self@.questions.len() as int) =~= self@.questions);
        }
        let mut k: usize = 0;
        proof {
            assert(encoded_records(self@.answers.take(0)) =~= Seq::<u8>::empty());
            assert(out@ =~= encoded_header(self.header) + encoded_questions(self@.questions)
                + encoded_records(self@.answers.take(0)));
        }
        while k < self.answers.len()
            invariant
                k <= self.answers.len(),
                out@ == encoded_header(self.header) + encoded_questions(self@.questions)
                    + encoded_records(self@.answers.take(k as int)),
            decreases self.answers.len() - k,
        {
            proof {
                assert(self.answers.deep_view()[k as int] == self.answers@[k as int]@);
            }
            self.answers[k].serialize(&mut out);
            proof {
                lemma_encoded_records_push(self@.answers.take(k as int), self@.answers[k as int]);
                assert(self@.answers.take(k as int).push(self@.answers[k as int])
                    =~= self@.answers.take(k + 1));
                assert(out@ =~= encoded_header(self.header) + encoded_questions(self@.questions)
                    + encoded_records(self@.answers.take(k + 1)));
            }
            k = k + 1;
        }
        proof {
            assert(self@.answers.take(self@.answers.len() as int) =~= self@.answers);
            assert(out@ =~= encoded_message(self@));
        }
        out
    }
}

/// A window of `s` equal to `e` makes every sub-window of it equal to the
/// matching sub-window of `e`.
pub proof fn lemma_slice_eq(s: Seq<u8>, pos: int, e: Seq<u8>, a: int, b: int)
    requires
        0 <= pos,
        pos + e.len() <= s.len(),
        s.subrange(pos, pos + e.len()) == e,
        0 <= a <= b <= e.len(),
    ensures
        s.subrange(pos + a, pos + b) == e.subrange(a, b),
{
    assert(s.subrange(pos + a, pos + b) =~= e.subrange(a, b)) by {
        assert forall|j: int| 0 <= j < b - a implies s.subrange(pos + a, pos + b)[j] == e.subrange(
            a,
            b,
        )[j] by {
            assert(s[pos + a + j] == s.subrange(pos, pos + e.len())[a + j]);
        }
    }
}

/// Reading back the two bytes that `be16` wrote yields the value written.
pub proof fn lemma_be16_at_of(v: u16, s: Seq<u8>, pos: int)
    requires
        0 <= pos,
        pos + 2 <= s.len(),
        s[pos] == be16(v)[0],
        s[pos + 1] == be16(v)[1],
    ensures
        be16_at(s, pos) == v,
{
    assert(be16(v)[0] == (v / 256) as u8);
    assert(be16(v)[1] == (v % 256) as u8);
    assert(v as int == (v as int / 256) * 256 + (v as int % 256));
}

/// Reading back the four bytes that `be32` wrote yields the value written.
pub proof fn lemma_be32_at_of(v: u32, s: Seq<u8>, pos: int)
    requires
        0 <= pos,
        pos + 4 <= s.len(),
        forall|j: int| 0 <= j < 4 ==> s[pos + j] == be32(v)[j],
    ensures
        be32_at(s, pos) == v,
{
    let hi = (v / 0x10000) as u16;
    let lo = (v % 0x10000) as u16;
    assert(be32(v)[0] == be16(hi)[0]);
    assert(be32(v)[1] == be16(hi)[1]);
    assert(be32(v)[2] == be16(lo)[0]);
    assert(be32(v)[3] == be16(lo)[1]);
    assert(s[pos] == be32(v)[0]);
    assert(s[pos + 1] == be32(v)[1]);
    assert(s[pos + 2] == be32(v)[2]);
    assert(s[pos + 3] == be32(v)[3]);
    lemma_be16_at_of(hi, s, pos);
    lemma_be16_at_of(lo, s, pos + 2);
    assert(v as int == (v as int / 0x10000) * 0x10000 + (v as int % 0x10000));
}

/// If the encoding of a well-formed question sits in `s` at `pos`, parsing
/// at `pos` recovers exactly that question and consumes exactly its encoding.
pub proof fn lemma_parse_encoded_question(q: QuestionV, s: Seq<u8>, pos: int)
    requires
        wf_question(q),
        0 <= pos,
        pos + encoded_question(q).len() <= s.len(),
        s.subrange(pos, pos + encoded_question(q).len()) == encoded_question(q),
    ensures
        spec_parse_question(s, pos) == Ok::<(QuestionV, int), DecodeError>(
            (q, pos + encoded_question(q).len()),
        ),
{
    let enc = encoded_question(q);
    let en = encoded_name(q.name);
    let nl = en.len() as int;
    assert(enc.len() == nl + 4);
    lemma_slice_eq(s, pos, enc, 0, nl);
    assert(enc.subrange(0, nl) =~= en);
    lemma_parse_encoded_labels(q.name, s, pos);
    let p = pos + nl;
    assert forall|j: int| 0 <= j < 4 implies #[trigger] s[p + j] == enc[nl + j] by {
        assert(s[p + j] == s.subrange(pos, pos + enc.len())[nl + j]);
    }
    assert(enc[nl] == be16(q.qtype)[0]);
    assert(enc[nl + 1] == be16(q.qtype)[1]);
    assert(enc[nl + 2] == be16(q.qclass)[0]);
    assert(enc[nl + 3] == be16(q.qclass)[1]);
    lemma_be16_at_of(q.qtype, s, p);
    lemma_be16_at_of(q.qclass, s, p + 2);
    assert(spec_parse_question(s, pos)->Ok_0.0 =~= q);
}

/// If the encoding of a sequence of well-formed questions sits in `s` at
/// `pos`, parsing that many questions recovers exactly the sequence.
pub proof fn lemma_parse_encoded_questions(qs: Seq<QuestionV>, s: Seq<u8>, pos: int)
    requires
        forall|i: int| 0 <= i < qs.len() ==> #[trigger] wf_question(qs[i]),
        0 <= pos,
        pos + encoded_questions(qs).len() <= s.len(),
        s.subrange(pos, pos + encoded_questions(qs).len()) == encoded_questions(qs),
    ensures
        spec_parse_questions(s, pos, qs.len() as int) == Ok::<(Seq<QuestionV>, int), DecodeError>(
            (qs, pos + encoded_questions(qs).len()),
        ),
    decreases qs.len(),
{
    let enc = encoded_questions(qs);
    if qs.len() == 0 {
        assert(qs =~= Seq::<QuestionV>::empty());
        assert(enc.len() == 0);
    } else {
        let e0 = encoded_question(qs[0]);
        let er = encoded_questions(qs.drop_first());
        assert(enc == e0 + er);
        lemma_slice_eq(s, pos, enc, 0, e0.len() as int);
        assert(enc.subrange(0, e0.len() as int) =~= e0);
        assert(wf_question(qs[0]));
        lemma_parse_encoded_question(qs[0], s, pos);
        lemma_slice_eq(s, pos, enc, e0.len() as int, enc.len() as int);
        assert(enc.subrange(e0.len() as int, enc.len() as int) =~= er);
        assert(forall|i: int|
            0 <= i < qs.drop_first().len() ==> qs.drop_first()[i] == qs[i + 1]
                && #[trigger] wf_question(qs[i + 1]));
        lemma_parse_encoded_questions(qs.drop_first(), s, pos + e0.len());
        assert(seq![qs[0]] + qs.drop_first() =~= qs);
    }
}

/// If the encoding of a well-formed record sits in `s` at `pos`, parsing at
/// `pos` recovers exactly that record and consumes exactly its encoding.
pub proof fn lemma_parse_encoded_record(r: RecordV, s: Seq<u8>, pos: int)
    requires
        wf_record(r),
        0 <= pos,
        pos + encoded_record(r).len() <= s.len(),
        s.subrange(pos, pos + encoded_record(r).len()) == encoded_record(r),
    ensures
        spec_parse_record(s, pos) == Ok::<(RecordV, int), DecodeError>(
            (r, pos + encoded_record(r).len()),
        ),
{
    let enc = encoded_record(r);
    let en = encoded_name(r.name);
    let nl = en.len() as int;
    let dl = r.rdata.len() as int;
    assert(enc.len() == nl + 10 + dl);
    lemma_slice_eq(s, pos, enc, 0, nl);
    assert(enc.subrange(0, nl) =~= en);
    lemma_parse_encoded_labels(r.name, s, pos);
    let p = pos + nl;
    assert forall|j: int| 0 <= j < 10 + dl implies #[trigger] s[p + j] == enc[nl + j] by {
        assert(s[p + j] == s.subrange(pos, pos + enc.len())[nl + j]);
    }
    assert(enc[nl] == be16(r.rtype)[0]);
    assert(enc[nl + 1] == be16(r.rtype)[1]);
    assert(enc[nl + 2] == be16(r.rclass)[0]);
    assert(enc[nl + 3] == be16(r.rclass)[1]);
    assert(forall|j: int| 0 <= j < 4 ==> enc[nl + 4 + j] == be32(r.ttl)[j]);
    assert(enc[nl + 8] == be16(r.rdlength)[0]);
    assert(enc[nl + 9] == be16(r.rdlength)[1]);
    lemma_be16_at_of(r.rtype, s, p);
    lemma_be16_at_of(r.rclass, s, p + 2);
    lemma_be32_at_of(r.ttl, s, p + 4);
    lemma_be16_at_of(r.rdlength, s, p + 8);
    assert(s.subrange(p + 10, p + 10 + dl) =~= r.rdata) by {
        assert forall|j: int| 0 <= j < dl implies s.subrange(p + 10, p + 10 + dl)[j]
            == r.rdata[j] by {
            assert(s[p + 10 + j] == enc[nl + 10 + j]);
            assert(enc[nl + 10 + j] == r.rdata[j]);
        }
    }
    assert(spec_parse_record(s, pos)->Ok_0.0 =~= r);
}

/// If the encoding of a sequence of well-formed records sits in `s` at
/// `pos`, parsing that many records recovers exactly the sequence.
pub proof fn lemma_parse_encoded_records(rs: Seq<RecordV>, s: Seq<u8>, pos: int)
    requires
        forall|i: int| 0 <= i < rs.len() ==> #[trigger] wf_record(rs[i]),
        0 <= pos,
        pos + encoded_records(rs).len() <= s.len(),
        s.subrange(pos, pos + encoded_records(rs).len()) == encoded_records(rs),
    ensures
        spec_parse_records(s, pos, rs.len() as int) == Ok::<(Seq<RecordV>, int), DecodeError>(
            (rs, pos + encoded_records(rs).len()),
        ),
    decreases rs.len(),
{
    let enc = encoded_records(rs);
    if rs.len() == 0 {
        assert(rs =~= Seq::<RecordV>::empty());
        assert(enc.len() == 0);
    } else {
        let e0 = encoded_record(rs[0]);
        let er = encoded_records(rs.drop_first());
        assert(enc == e0 + er);
        lemma_slice_eq(s, pos, enc, 0, e0.len() as int);
        assert(enc.subrange(0, e0.len() as int) =~= e0);
        assert(wf_record(rs[0]));
        lemma_parse_encoded_record(rs[0], s, pos);
        lemma_slice_eq(s, pos, enc, e0.len() as int, enc.len() as int);
        assert(enc.subrange(e0.len() as int, enc.len() as int) =~= er);
        assert(forall|i: int|
            0 <= i < rs.drop_first().len() ==> rs.drop_first()[i] == rs[i + 1]
                && #[trigger] wf_record(rs[i + 1]));
        lemma_parse_encoded_records(rs.drop_first(), s, pos + e0.len());
        assert(seq![rs[0]] + rs.drop_first() =~= rs);
    }
}

/// Round trip: decoding the encoding of any well-formed message yields that
/// message back, field for field.
pub proof fn lemma_message_round_trip(m: MessageV)
    requires
        wf_message(m),
    ensures
        spec_parse_message(encoded_message(m)) == Ok::<MessageV, DecodeError>(m),
{
    let s = encoded_message(m);
    let eh = encoded_header(m.header);
    let eq = encoded_questions(m.questions);
    let er = encoded_records(m.answers);
    assert(eh.len() == 12);
    assert(s == eh + eq + er);
    assert(s.len() == 12 + eq.len() + er.len());
    assert forall|j: int| 0 <= j < 12 implies #[trigger] s[j] == eh[j] by {
        assert(s[j] == (eh + eq)[j]);
    }
    assert(eh[0] == be16(m.header.id)[0]);
    assert(eh[1] == be16(m.header.id)[1]);
    assert(eh[2] == be16(m.header.flags)[0]);
    assert(eh[3] == be16(m.header.flags)[1]);
    assert(eh[4] == be16(m.header.qdcount)[0]);
    assert(eh[5] == be16(m.header.qdcount)[1]);
    assert(eh[6] == be16(m.header.ancount)[0]);
    assert(eh[7] == be16(m.header.ancount)[1]);
    assert(eh[8] == be16(m.header.nscount)[0]);
    assert(eh[9] == be16(m.header.nscount)[1]);
    assert(eh[10] == be16(m.header.arcount)[0]);
    assert(eh[11] == be16(m.header.arcount)[1]);
    lemma_be16_at_of(m.header.id, s, 0);
    lemma_be16_at_of(m.header.flags, s, 2);
    lemma_be16_at_of(m.header.qdcount, s, 4);
    lemma_be16_at_of(m.header.ancount, s, 6);
    lemma_be16_at_of(m.header.nscount, s, 8);
    lemma_be16_at_of(m.header.arcount, s, 10);
    assert(spec_header_at(s) == m.header);
    assert(s.subrange(12, 12 + eq.len() as int) =~= eq) by {
        assert forall|j: int| 0 <= j < eq.len() implies s.subrange(12, 12 + eq.len() as int)[j]
            == eq[j] by {
            assert(s[12 + j] == (eh + eq)[12 + j]);
        }
    }
    lemma_parse_encoded_questions(m.questions, s, 12);
    let qend = 12 + eq.len() as int;
    assert(s.subrange(qend, qend + er.len() as int) =~= er) by {
        assert forall|j: int| 0 <= j < er.len() implies s.subrange(qend, qend + er.len() as int)[j]
            == er[j] by {
            assert(s[qend + j] == er[j]);
        }
    }
    lemma_parse_encoded_records(m.answers, s, qend);
    assert(spec_parse_message(s)->Ok_0 =~= m);
}

/// Cutting a buffer behind a question that parses either leaves the parse
/// unchanged or turns it into a question truncation failure.
pub proof fn lemma_parse_question_prefix(s: Seq<u8>, pos: int, k: int)
    requires
        spec_parse_question(s, pos) is Ok,
        0 <= pos,
        0 <= k <= s.len(),
    ensures
        k >= spec_parse_question(s, pos)->Ok_0.1 ==> spec_parse_question(s.take(k), pos)
            == spec_parse_question(s, pos),
        k < spec_parse_question(s, pos)->Ok_0.1 ==> spec_parse_question(s.take(k), pos)
            == Err::<(QuestionV, int), DecodeError>(DecodeError::TruncatedQuestion),
{
    let np = spec_parse_labels(s, pos)->Ok_0.1;
    let end = spec_parse_question(s, pos)->Ok_0.1;
    assert(end == np + 4);
    lemma_spec_parse_labels_ok(s, pos);
    lemma_parse_labels_prefix(s, pos, k);
    let t = s.take(k);
    if k < np {
    } else if k < end {
        assert(t.len() == k < np + 4);
    } else {
        assert(be16_at(t, np) == be16_at(s, np));
        assert(be16_at(t, np + 2) == be16_at(s, np + 2));
    }
}

/// Cutting a buffer behind a question list that parses either leaves the
/// parse unchanged or turns it into a question truncation failure.
pub proof fn lemma_parse_questions_prefix(s: Seq<u8>, pos: int, count: int, k: int)
    requires
        spec_parse_questions(s, pos, count) is Ok,
        0 <= pos,
        0 <= count,
        0 <= k <= s.len(),
    ensures
        k >= spec_parse_questions(s, pos, count)->Ok_0.1 ==> spec_parse_questions(s.take(k), pos, count)
            == spec_parse_questions(s, pos, count),
        pos <= k < spec_parse_questions(s, pos, count)->Ok_0.1 ==> spec_parse_questions(
            s.take(k),
            pos,
            count,
        ) == Err::<(Seq<QuestionV>, int), DecodeError>(DecodeError::TruncatedQuestion),
    decreases count,
{
    if count > 0 {
        let first_end = spec_parse_question(s, pos)->Ok_0.1;
        lemma_spec_parse_question_ok(s, pos);
        lemma_spec_parse_questions_ok(s, first_end, count - 1);
        lemma_parse_question_prefix(s, pos, k);
        if k >= first_end {
            lemma_parse_questions_prefix(s, first_end, count - 1, k);
        }
    }
}

/// Cutting a buffer behind a record that parses either leaves the parse
/// unchanged or turns it into a record truncation failure.
pub proof fn lemma_parse_record_prefix(s: Seq<u8>, pos: int, k: int)
    requires
        spec_parse_record(s, pos) is Ok,
        0 <= pos,
        0 <= k <= s.len(),
    ensures
        k >= spec_parse_record(s, pos)->Ok_0.1 ==> spec_parse_record(s.take(k), pos)
            == spec_parse_record(s, pos),
        k < spec_parse_record(s, pos)->Ok_0.1 ==> spec_parse_record(s.take(k), pos)
            == Err::<(RecordV, int), DecodeError>(DecodeError::TruncatedRecord),
{
    let np = spec_parse_labels(s, pos)->Ok_0.1;
    let rdl = be16_at(s, np + 8) as int;
    let end = spec_parse_record(s, pos)->Ok_0.1;
    assert(end == np + 10 + rdl);
    lemma_spec_parse_labels_ok(s, pos);
    lemma_parse_labels_prefix(s, pos, k);
    let t = s.take(k);
    if k < np {
        assert(k < end);
    } else if k < np + 10 {
        assert(t.len() == k < np + 10);
        assert(k < end);
    } else {
        assert(be16_at(t, np) == be16_at(s, np));
        assert(be16_at(t, np + 2) == be16_at(s, np + 2));
        assert(be32_at(t, np + 4) == be32_at(s, np + 4));
        assert(be16_at(t, np + 8) == be16_at(s, np + 8));
        if k < end {
            assert(np + 10 + rdl > t.len());
        } else {
            assert(t.subrange(np + 10, np + 10 + rdl) =~= s.subrange(np + 10, np + 10 + rdl));
        }
    }
}

/// Cutting a buffer behind a record list that parses either leaves the parse
/// unchanged or turns it into a record truncation failure.
pub proof fn lemma_parse_records_prefix(s: Seq<u8>, pos: int, count: int, k: int)
    requires
        spec_parse_records(s, pos, count) is Ok,
        0 <= pos,
        0 <= count,
        0 <= k <= s.len(),
    ensures
        k >= spec_parse_records(s, pos, count)->Ok_0.1 ==> spec_parse_records(s.take(k), pos, count)
            == spec_parse_records(s, pos, count),
        pos <= k < spec_parse_records(s, pos, count)->Ok_0.1 ==> spec_parse_records(
            s.take(k),
            pos,
            count,
        ) == Err::<(Seq<RecordV>, int), DecodeError>(DecodeError::TruncatedRecord),
    decreases count,
{
    if count > 0 {
        let first_end = spec_parse_record(s, pos)->Ok_0.1;
        lemma_spec_parse_record_ok(s, pos);
        lemma_spec_parse_records_ok(s, first_end, count - 1);
        lemma_parse_record_prefix(s, pos, k);
        if k >= first_end {
            lemma_parse_records_prefix(s, first_end, count - 1, k);
        }
    }
}

/// Truncation safety: cutting a buffer whose parse succeeds at any byte
/// length either leaves the parsed message unchanged or fails with a
/// truncation error — never with another error and never with another
/// message, and the parser never reads past the bytes it is given.
pub proof fn lemma_parse_message_prefix(s: Seq<u8>, k: int)
    requires
        spec_parse_message(s) is Ok,
        0 <= k <= s.len(),
    ensures
        spec_parse_message(s.take(k)) is Ok ==> spec_parse_message(s.take(k))
            == spec_parse_message(s),
        spec_parse_message(s.take(k)) is Err ==> {
            ||| spec_parse_message(s.take(k))->Err_0 == DecodeError::TruncatedHeader
            ||| spec_parse_message(s.take(k))->Err_0 == DecodeError::TruncatedQuestion
            ||| spec_parse_message(s.take(k))->Err_0 == DecodeError::TruncatedRecord
        },
{
    let t = s.take(k);
    if k < 12 {
        assert(t.len() < 12);
    } else {
        assert(be16_at(t, 0) == be16_at(s, 0));
        assert(be16_at(t, 2) == be16_at(s, 2));
        assert(be16_at(t, 4) == be16_at(s, 4));
        assert(be16_at(t, 6) == be16_at(s, 6));
        assert(be16_at(t, 8) == be16_at(s, 8));
        assert(be16_at(t, 10) == be16_at(s, 10));
        assert(spec_header_at(t) == spec_header_at(s));
        let h = spec_header_at(s);
        lemma_spec_parse_questions_ok(s, 12, h.qdcount as int);
        let qp = spec_parse_questions(s, 12, h.qdcount as int)->Ok_0;
        lemma_parse_questions_prefix(s, 12, h.qdcount as int, k);
        if k >= qp.1 {
            lemma_spec_parse_records_ok(s, qp.1, h.ancount as int);
            lemma_parse_records_prefix(s, qp.1, h.ancount as int, k);
        }
    }
}

/// Truncation safety for encodings: any byte-length cut of the encoding of a
/// well-formed message either parses back to that very message or fails with
/// a truncation error.
pub proof fn lemma_truncation_safety(m: MessageV, k: int)
    requires
        wf_message(m),
        0 <= k <= encoded_message(m).len(),
    ensures
        spec_parse_message(encoded_message(m).take(k)) is Ok ==> spec_parse_message(
            encoded_message(m).take(k),
        ) == Ok::<MessageV, DecodeError>(m),
        spec_parse_message(encoded_message(m).take(k)) is Err ==> {
            ||| spec_parse_message(encoded_message(m).take(k))->Err_0 == DecodeError::TruncatedHeader
            ||| spec_parse_message(encoded_message(m).take(k))->Err_0
                == DecodeError::TruncatedQuestion
            ||| spec_parse_message(encoded_message(m).take(k))->Err_0 == DecodeError::TruncatedRecord
        },
{
    lemma_message_round_trip(m);
    lemma_parse_message_prefix(encoded_message(m), k);
}

/// Whether `rs` is a sound answer set for the key (`name`, `qtype`): every
/// record carries exactly that name and type and declares its true rdata
/// length. Such records are well formed whenever the name itself is.
pub open spec fn valid_answers(rs: Seq<RecordV>, name: Seq<Seq<u8>>, qtype: u16) -> bool {
    forall|i: int|
        0 <= i < rs.len() ==> #[trigger] rs[i].name == name && rs[i].rtype == qtype
            && rs[i].rdlength as int == rs[i].rdata.len()
}

/// Copies a record list.
pub fn clone_records(rs: &Vec<DnsResourceRecord>) -> (r: Vec<DnsResourceRecord>)
    ensures
        r.deep_view() == rs.deep_view(),
{
    let mut r: Vec<DnsResourceRecord> = Vec::new();
    let mut i: usize = 0;
    while i < rs.len()
        invariant
            i <= rs.len(),
            r@.len() == i,
            forall|j: int| 0 <= j < i ==> #[trigger] r@[j]@ == rs@[j]@,
        decreases rs.len() - i,
    {
        let c = rs[i].clone();
        r.push(c);
        i = i + 1;
    }
    proof {
        assert forall|j: int| 0 <= j < r@.len() implies r.deep_view()[j] == rs.deep_view()[j] by {
            assert(r@[j]@ == rs@[j]@);
        }
        assert(r.deep_view() =~= rs.deep_view());
    }
    r
}

/// Copies a question list.
pub fn clone_questions(qs: &Vec<DnsQuestion>) -> (r: Vec<DnsQuestion>)
    ensures
        r.deep_view() == qs.deep_view(),
{
    let mut r: Vec<DnsQuestion> = Vec::new();
    let mut i: usize = 0;
    while i < qs.len()
        invariant
            i <= qs.len(),
            r@.len() == i,
            forall|j: int| 0 <= j < i ==> #[trigger] r@[j]@ == qs@[j]@,
        decreases qs.len() - i,
    {
        let c = qs[i].clone();
        r.push(c);
        i = i + 1;
    }
    proof {
        assert forall|j: int| 0 <= j < r@.len() implies r.deep_view()[j] == qs.deep_view()[j] by {
            assert(r@[j]@ == qs@[j]@);
        }
        assert(r.deep_view() =~= qs.deep_view());
    }
    r
}

} // verus!
