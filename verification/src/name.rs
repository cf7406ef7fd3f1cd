//! Domain names and their wire encoding.
//!
//! A domain name is an ordered sequence of labels. On the wire each label is
//! emitted as a length byte (1..=63) followed by its bytes, and the whole name
//! is terminated by a single zero length byte. Label compression pointers are
//! not supported: a length byte above 63 is rejected.
//!
//! Valid label text is deliberately read as plain ASCII: the decoder rejects
//! any label byte at or above 128 as `InvalidLabel`. Internationalised names
//! travel in their ASCII-compatible form on the wire, so nothing beyond ASCII
//! is accepted here by design.

use vstd::prelude::*;

verus! {

/// Wire-format decoding failures for a domain name, before the surrounding
/// context (question or record) is known.
#[derive(Clone, Copy, Debug, PartialEq, Eq, Structural)]
pub enum NameError {
    /// The buffer ended before the terminating zero length byte.
    Truncated,
    /// A length byte exceeded 63 (compression pointers are rejected too).
    LabelTooLong,
    /// A label byte was not ASCII text.
    InvalidLabel,
}

/// A domain name as an ordered sequence of labels.
pub struct DomainName {
    pub labels: Vec<Vec<u8>>,
}

impl View for DomainName {
    type V = Seq<Seq<u8>>;

    open spec fn view(&self) -> Seq<Seq<u8>> {
        self.labels.deep_view()
    }
}

impl Clone for DomainName {
    fn clone(&self) -> (r: Self)
        ensures
            r@ == self@,
    {
        let mut labels: Vec<Vec<u8>> = Vec::new();
        let mut i: usize = 0;
        while i < self.labels.len()
            invariant
                i <= self.labels.len(),
                labels@.len() == i,
                forall|j: int| 0 <= j < i ==> #[trigger] labels@[j]@ == self.labels@[j]@,
            decreases self.labels.len() - i,
        {
            let l: Vec<u8> = clone_bytes(&self.labels[i]);
            labels.push(l);
            i = i + 1;
        }
        proof {
            assert forall|j: int| 0 <= j < labels@.len() implies labels.deep_view()[j]
                == self.labels.deep_view()[j] by {
                assert(labels@[j].deep_view() =~= labels@[j]@);
                assert(self.labels@[j].deep_view() =~= self.labels@[j]@);
            }
            assert(labels.deep_view() =~= self.labels.deep_view());
        }
        DomainName { labels }
    }
}

impl DomainName {
    /// Whether this name is well formed: every label 1..=63 ASCII bytes.
    pub open spec fn wf(&self) -> bool {
        wf_name(self@)
    }

    /// Field-for-field equality of two names.
    pub fn matches(&self, other: &DomainName) -> (r: bool)
        ensures
            r == (self@ == other@),
    {
        if self.labels.len() != other.labels.len() {
            proof {
                assert(self@.len() != other@.len());
            }
            return false;
        }
        let mut i: usize = 0;
        while i < self.labels.len()
            invariant
                i <= self.labels.len(),
                self.labels.len() == other.labels.len(),
                forall|j: int| 0 <= j < i ==> self@[j] == other@[j],
            decreases self.labels.len() - i,
        {
            let same = bytes_eq(&self.labels[i], &other.labels[i]);
            proof {
                assert(self.labels[i as int].deep_view() =~= self.labels[i as int]@);
                assert(other.labels[i as int].deep_view() =~= other.labels[i as int]@);
            }
            if !same {
                proof {
                    assert(self@[i as int] != other@[i as int]);
                }
                return false;
            }
            i = i + 1;
        }
        proof {
            assert(self@ =~= other@);
        }
        true
    }
}

/// Copies a byte vector.
pub fn clone_bytes(b: &Vec<u8>) -> (r: Vec<u8>)
    ensures
        r@ == b@,
{
    let mut r: Vec<u8> = Vec::new();
    let mut i: usize = 0;
    while i < b.len()
        invariant
            i <= b.len(),
            r@ == b@.take(i as int),
        decreases b.len() - i,
    {
        r.push(b[i]);
        proof {
            assert(r@ =~= b@.take(i + 1));
        }
        i = i + 1;
    }
    proof {
        assert(r@ =~= b@);
    }
    r
}

/// Compares two byte vectors field for field.
pub fn bytes_eq(a: &Vec<u8>, b: &Vec<u8>) -> (r: bool)
    ensures
        r == (a@ == b@),
{
    if a.len() != b.len() {
        return false;
    }
    let mut i: usize = 0;
    while i < a.len()
        invariant
            i <= a.len(),
            a.len() == b.len(),
            forall|j: int| 0 <= j < i ==> a@[j] == b@[j],
        decreases a.len() - i,
    {
        if a[i] != b[i] {
            return false;
        }
        i = i + 1;
    }
    proof {
        assert(a@ =~= b@);
    }
    true
}

/// A well-formed label: 1 to 63 bytes, each plain ASCII.
pub open spec fn wf_label(l: Seq<u8>) -> bool {
    &&& 1 <= l.len() <= 63
    &&& forall|i: int| 0 <= i < l.len() ==> l[i] < 128
}

/// A well-formed name: every label well formed.
pub open spec fn wf_name(n: Seq<Seq<u8>>) -> bool {
    forall|i: int| 0 <= i < n.len() ==> #[trigger] wf_label(n[i])
}

/// The wire bytes of a label list, without the terminating zero byte.
pub open spec fn encoded_labels(n: Seq<Seq<u8>>) -> Seq<u8>
    decreases n.len(),
{
    if n.len() == 0 {
        Seq::empty()
    } else {
        seq![n[0].len() as u8] + n[0] + encoded_labels(n.drop_first())
    }
}

/// The wire bytes of a whole name: its labels followed by a zero length byte.
pub open spec fn encoded_name(n: Seq<Seq<u8>>) -> Seq<u8> {
    encoded_labels(n) + seq![0u8]
}

pub proof fn lemma_encoded_labels_push(n: Seq<Seq<u8>>, l: Seq<u8>)
    ensures
        encoded_labels(n.push(l)) == encoded_labels(n) + seq![l.len() as u8] + l,
    decreases n.len(),
{
    if n.len() == 0 {
        assert(n.push(l).drop_first() =~= n);
        assert(encoded_labels(n.push(l)) =~= encoded_labels(n) + seq![l.len() as u8] + l);
    } else {
        assert(n.push(l).drop_first() =~= n.drop_first().push(l));
        lemma_encoded_labels_push(n.drop_first(), l);
        assert(encoded_labels(n.push(l)) =~= encoded_labels(n) + seq![l.len() as u8] + l);
    }
}

/// The encoding of a well-formed name is at least one byte and at most
/// 64 bytes per label plus the terminator.
pub proof fn lemma_encoded_name_len(n: Seq<Seq<u8>>)
    ensures
        encoded_name(n).len() >= 1,
        wf_name(n) ==> encoded_name(n).len() <= 1 + 64 * n.len(),
    decreases n.len(),
{
    if n.len() > 0 {
        lemma_encoded_name_len(n.drop_first());
        if wf_name(n) {
            assert(wf_name(n.drop_first())) by {
                assert(forall|i: int|
                    0 <= i < n.drop_first().len() ==> #[trigger] wf_label(n.drop_first()[i])
                        && n.drop_first()[i] == n[i + 1]);
            }
            assert(wf_label(n[0]));
        }
    }
}

/// The mathematical parser for a label sequence starting at `pos`: reads
/// length-prefixed labels until a zero length byte, rejecting a length above
/// 63 and any non-ASCII label byte, and never looking past `s`. On success it
/// yields the labels and the position one past the terminating zero byte.
pub open spec fn spec_parse_labels(s: Seq<u8>, pos: int) -> Result<(Seq<Seq<u8>>, int), NameError>
    decreases s.len() - pos,
{
    if pos < 0 || pos >= s.len() {
        Err(NameError::Truncated)
    } else {
        let len = s[pos] as int;
        if len == 0 {
            Ok((Seq::empty(), pos + 1))
        } else if len > 63 {
            Err(NameError::LabelTooLong)
        } else if pos + 1 + len > s.len() {
            Err(NameError::Truncated)
        } else {
            let label = s.subrange(pos + 1, pos + 1 + len);
            if exists|k: int| 0 <= k < label.len() && label[k] >= 128 {
                Err(NameError::InvalidLabel)
            } else {
                match spec_parse_labels(s, pos + 1 + len) {
                    Ok((rest, end)) => Ok((seq![label] + rest, end)),
                    Err(e) => Err(e),
                }
            }
        }
    }
}

/// A successful parse yields a well-formed name and stops inside the buffer.
pub proof fn lemma_spec_parse_labels_ok(s: Seq<u8>, pos: int)
    requires
        spec_parse_labels(s, pos) is Ok,
    ensures
        wf_name(spec_parse_labels(s, pos)->Ok_0.0),
        pos < spec_parse_labels(s, pos)->Ok_0.1 <= s.len(),
    decreases s.len() - pos,
{
    let len = s[pos] as int;
    if len == 0 {
    } else {
        let label = s.subrange(pos + 1, pos + 1 + len);
        lemma_spec_parse_labels_ok(s, pos + 1 + len);
        let rest = spec_parse_labels(s, pos + 1 + len)->Ok_0.0;
        let n = spec_parse_labels(s, pos)->Ok_0.0;
        assert(wf_label(label));
        assert forall|i: int| 0 <= i < n.len() implies #[trigger] wf_label(n[i]) by {
            if i > 0 {
                assert(n[i] == rest[i - 1]);
            }
        }
    }
}

/// Parses a domain name from `buf` starting at `pos`, exactly as
/// `spec_parse_labels` describes; on success it also returns the position
/// just past the terminating zero byte.
#[verifier::loop_isolation(false)]
pub fn parse_domain_name(buf: &[u8], pos: usize) -> (r: Result<(DomainName, usize), NameError>)
    ensures
        match spec_parse_labels(buf@, pos as int) {
            Ok(parsed) => {
                &&& r is Ok
                &&& r->Ok_0.0@ == parsed.0
                &&& r->Ok_0.0.wf()
                &&& r->Ok_0.1 as int == parsed.1
                &&& r->Ok_0.1 <= buf@.len()
            },
            Err(e) => r == Err::<(DomainName, usize), NameError>(e),
        },
{
    let ghost whole = spec_parse_labels(buf@, pos as int);
    let mut acc: Vec<Vec<u8>> = Vec::new();
    let mut cur: usize = pos;
    proof {
        assert(acc.deep_view() =~= Seq::<Seq<u8>>::empty());
        if whole is Ok {
            assert(Seq::<Seq<u8>>::empty() + whole->Ok_0.0 =~= whole->Ok_0.0);
        }
    }
    loop
        invariant
            pos <= cur,
            cur <= buf@.len() || cur == pos,
            match spec_parse_labels(buf@, cur as int) {
                Ok(parsed) => whole == Ok::<(Seq<Seq<u8>>, int), NameError>(
                    (acc.deep_view() + parsed.0, parsed.1),
                ),
                Err(e) => whole == Err::<(Seq<Seq<u8>>, int), NameError>(e),
            },
            whole == spec_parse_labels(buf@, pos as int),
        decreases buf@.len() - cur,
    {
        if cur >= buf.len() {
            return Err(NameError::Truncated);
        }
        let len: usize = buf[cur] as usize;
        if len == 0 {
            proof {
                lemma_spec_parse_labels_ok(buf@, pos as int);
                assert(acc.deep_view() + Seq::<Seq<u8>>::empty() =~= acc.deep_view());
            }
            return Ok((DomainName { labels: acc }, cur + 1));
        }
        if len > 63 {
            return Err(NameError::LabelTooLong);
        }
        let remaining: usize = buf.len() - cur;
        if len > remaining - 1 {
            return Err(NameError::Truncated);
        }
        let ghost speclabel = buf@.subrange(cur + 1, cur as int + 1 + len as int);
        let mut label: Vec<u8> = Vec::new();
        proof {
            assert(label@ =~= speclabel.take(0));
        }
        let mut k: usize = 0;
        while k < len
            invariant
                k <= len,
                cur as int + 1 + len as int <= buf@.len(),
                label@ == speclabel.take(k as int),
                speclabel == buf@.subrange(cur + 1, cur as int + 1 + len as int),
                forall|j: int| 0 <= j < k ==> speclabel[j] < 128,
            decreases len - k,
        {
            let b: u8 = buf[cur + 1 + k];
            if b >= 128 {
                proof {
                    assert(speclabel[k as int] == b);
                    assert(speclabel.len() == len as int);
                    assert(exists|j: int| 0 <= j < speclabel.len() && speclabel[j] >= 128);
                }
                return Err(NameError::InvalidLabel);
            }
            label.push(b);
            proof {
                assert(label@ =~= speclabel.take(k + 1));
            }
            k = k + 1;
        }
        proof {
            assert(label@ =~= speclabel);
            assert(forall|j: int| 0 <= j < speclabel.len() ==> speclabel[j] < 128);
        }
        let ghost oldacc = acc.deep_view();
        acc.push(label);
        proof {
            assert(acc.deep_view() =~= oldacc.push(speclabel)) by {
                assert forall|j: int| 0 <= j < acc.deep_view().len() implies acc.deep_view()[j]
                    == oldacc.push(speclabel)[j] by {
                    assert(acc@[j].deep_view() =~= acc@[j]@);
                }
            }
            if spec_parse_labels(buf@, cur as int + 1 + len as int) is Ok {
                let parsed = spec_parse_labels(buf@, cur as int + 1 + len as int)->Ok_0;
                assert(oldacc + (seq![speclabel] + parsed.0) =~= oldacc.push(speclabel)
                    + parsed.0);
            }
        }
        cur = cur + 1 + len;
    }
}

/// If the wire encoding of a well-formed name `n` sits in `s` at `pos`, then
/// parsing at `pos` recovers exactly `n` and consumes exactly the encoding.
pub proof fn lemma_parse_encoded_labels(n: Seq<Seq<u8>>, s: Seq<u8>, pos: int)
    requires
        wf_name(n),
        0 <= pos,
        pos + encoded_name(n).len() <= s.len(),
        s.subrange(pos, pos + encoded_name(n).len()) == encoded_name(n),
    ensures
        spec_parse_labels(s, pos) == Ok::<(Seq<Seq<u8>>, int), NameError>(
            (n, pos + encoded_name(n).len()),
        ),
    decreases n.len(),
{
    let enc = encoded_name(n);
    if n.len() == 0 {
        assert(enc =~= seq![0u8]);
        assert(s[pos] == enc[0]);
        assert(spec_parse_labels(s, pos) == Ok::<(Seq<Seq<u8>>, int), NameError>(
            (Seq::empty(), pos + 1),
        ));
        assert(n =~= Seq::<Seq<u8>>::empty());
    } else {
        let l = n[0];
        let rest = n.drop_first();
        let renc = encoded_name(rest);
        assert(wf_label(l));
        assert(enc =~= seq![l.len() as u8] + l + renc);
        let llen = l.len() as int;
        assert(s[pos] == enc[0]);
        assert(s[pos] as int == llen);
        assert(pos + 1 + llen <= s.len());
        let label = s.subrange(pos + 1, pos + 1 + llen);
        assert(label =~= l) by {
            assert forall|j: int| 0 <= j < llen implies label[j] == l[j] by {
                assert(label[j] == s[pos + 1 + j]);
                assert(s[pos + 1 + j] == enc[1 + j]);
                assert(enc[1 + j] == l[j]);
            }
        }
        assert(forall|k: int| 0 <= k < label.len() ==> label[k] < 128);
        assert(wf_name(rest)) by {
            assert(forall|i: int|
                0 <= i < rest.len() ==> rest[i] == n[i + 1] && #[trigger] wf_label(n[i + 1]));
        }
        assert(s.subrange(pos + 1 + llen, pos + 1 + llen + renc.len()) =~= renc) by {
            assert forall|j: int| 0 <= j < renc.len() implies s.subrange(
                pos + 1 + llen,
                pos + 1 + llen + renc.len(),
            )[j] == renc[j] by {
                assert(s[pos + 1 + llen + j] == enc[1 + llen + j]);
                assert(enc[1 + llen + j] == renc[j]);
            }
        }
        lemma_parse_encoded_labels(rest, s, pos + 1 + llen);
        assert(seq![label] + rest =~= n);
    }
}

/// Domain-name round trip: decoding the encoding of any well-formed name
/// yields that name back, consuming the whole encoding.
pub proof fn lemma_name_round_trip(n: Seq<Seq<u8>>)
    requires
        wf_name(n),
    ensures
        spec_parse_labels(encoded_name(n), 0) == Ok::<(Seq<Seq<u8>>, int), NameError>(
            (n, encoded_name(n).len() as int),
        ),
{
    let enc = encoded_name(n);
    assert(enc.subrange(0, enc.len() as int) =~= enc);
    lemma_parse_encoded_labels(n, enc, 0);
}

/// Truncation safety for names: cutting a buffer whose parse succeeds either
/// leaves the parse unchanged (the cut lies at or past the consumed bytes) or
/// turns it into a truncation failure — never into another error or another
/// name.
pub proof fn lemma_parse_labels_prefix(s: Seq<u8>, pos: int, k: int)
    requires
        spec_parse_labels(s, pos) is Ok,
        0 <= pos,
        0 <= k <= s.len(),
    ensures
        k >= spec_parse_labels(s, pos)->Ok_0.1 ==> spec_parse_labels(s.take(k), pos)
            == spec_parse_labels(s, pos),
        k < spec_parse_labels(s, pos)->Ok_0.1 ==> spec_parse_labels(s.take(k), pos)
            == Err::<(Seq<Seq<u8>>, int), NameError>(NameError::Truncated),
    decreases s.len() - pos,
{
    let end = spec_parse_labels(s, pos)->Ok_0.1;
    lemma_spec_parse_labels_ok(s, pos);
    let t = s.take(k);
    if k <= pos {
        assert(pos >= t.len());
    } else {
        assert(t[pos] == s[pos]);
        let len = s[pos] as int;
        if len == 0 {
        } else {
            let label = s.subrange(pos + 1, pos + 1 + len);
            lemma_spec_parse_labels_ok(s, pos + 1 + len);
            let rend = spec_parse_labels(s, pos + 1 + len)->Ok_0.1;
            assert(end == rend);
            if k < pos + 1 + len {
                assert(pos + 1 + len > t.len());
                assert(k < end);
            } else {
                let tlabel = t.subrange(pos + 1, pos + 1 + len);
                assert(tlabel =~= label);
                lemma_parse_labels_prefix(s, pos + 1 + len, k);
            }
        }
    }
}

/// Serializes a domain name into wire form: one length-prefixed label per
/// segment, terminated by a zero length byte. No compression is emitted.
pub fn serialize_domain_name(name: &DomainName) -> (r: Vec<u8>)
    ensures
        r@ == encoded_name(name@),
{
    let mut r: Vec<u8> = Vec::new();
    let mut i: usize = 0;
    while i < name.labels.len()
        invariant
            i <= name.labels.len(),
            r@ == encoded_labels(name@.take(i as int)),
        decreases name.labels.len() - i,
    {
        let label: &Vec<u8> = &name.labels[i];
        r.push(label.len() as u8);
        let mut j: usize = 0;
        while j < label.len()
            invariant
                j <= label.len(),
                label@ == name@[i as int],
                i < name.labels.len(),
                r@ == encoded_labels(name@.take(i as int)) + seq![label@.len() as u8]
                    + label@.take(j as int),
            decreases label.len() - j,
        {
            r.push(label[j]);
            proof {
                assert(label@.take(j as int).push(label@[j as int]) =~= label@.take(j + 1));
                assert(r@ =~= encoded_labels(name@.take(i as int)) + seq![label@.len() as u8]
                    + label@.take(j + 1));
            }
            j = j + 1;
        }
        proof {
            lemma_encoded_labels_push(name@.take(i as int), name@[i as int]);
            assert(name@.take(i as int).push(name@[i as int]) =~= name@.take(i + 1));
            assert(label@.take(label@.len() as int) =~= label@);
            assert(r@ =~= encoded_labels(name@.take(i + 1)));
        }
        i = i + 1;
    }
    r.push(0u8);
    proof {
        assert(name@.take(name@.len() as int) =~= name@);
        assert(r@ =~= encoded_name(name@));
    }
    r
}

} // verus!
