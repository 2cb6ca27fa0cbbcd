//! Whole messages, and the pure logic of one query/response exchange:
//! parse a request, derive the response, encode it.

use vstd::prelude::*;

use crate::errors::{DecodeError, EncodeError};
use crate::header::{parse_header, DnsHeader};
use crate::name::wf_name;
use crate::question::{parse_question, spec_question_bytes, DnsQuestion, QuestionModel};
use crate::record::{spec_answer_bytes, AnswerModel, DnsAnswer};

verus! {

/// A message: one header, the question entries, the answer records.
#[derive(Debug, PartialEq, Eq)]
pub struct DnsMessage {
    /// The header.
    pub header: DnsHeader,
    /// The question entries, in wire order.
    pub questions: Vec<DnsQuestion>,
    /// The answer records, in wire order.
    pub answers: Vec<DnsAnswer>,
}

/// The mathematical content of a message.
pub struct MessageModel {
    /// The header.
    pub header: DnsHeader,
    /// The question entries, in wire order.
    pub questions: Seq<QuestionModel>,
    /// The answer records, in wire order.
    pub answers: Seq<AnswerModel>,
}

/// The contents of a question list.
pub open spec fn questions_view(qs: Seq<DnsQuestion>) -> Seq<QuestionModel> {
    Seq::new(qs.len(), |i: int| qs[i]@)
}

/// The contents of an answer list.
pub open spec fn answers_view(ans: Seq<DnsAnswer>) -> Seq<AnswerModel> {
    Seq::new(ans.len(), |i: int| ans[i]@)
}

impl View for DnsMessage {
    type V = MessageModel;

    open spec fn view(&self) -> MessageModel {
        MessageModel {
            header: self.header,
            questions: questions_view(self.questions@),
            answers: answers_view(self.answers@),
        }
    }
}

/// `n` consecutive questions read from `buf` starting at `pos`, paired
/// with the position just past the last one.
pub open spec fn parse_questions(buf: Seq<u8>, pos: int, n: nat) -> Result<
    (Seq<QuestionModel>, int),
    DecodeError,
>
    decreases n,
{
    if n == 0 {
        Ok((Seq::empty(), pos))
    } else {
        match parse_question(buf, pos) {
            Err(e) => Err(e),
            Ok((q, end)) => match parse_questions(buf, end, (n - 1) as nat) {
                Err(e) => Err(e),
                Ok((qs, after)) => Ok((seq![q] + qs, after)),
            },
        }
    }
}

/// The request read from a received datagram: the header from the first
/// 12 bytes, then as many questions as the header announces.  Any answer
/// records in the datagram are left unread, as a server has no use for
/// them.
pub open spec fn parse_request(buf: Seq<u8>) -> Result<MessageModel, DecodeError> {
    if buf.len() < 12 {
        Err(DecodeError::TooShort)
    } else {
        let h = parse_header(buf);
        match parse_questions(buf, 12, h.qdcount as nat) {
            Err(e) => Err(e),
            Ok((qs, _)) => Ok(MessageModel { header: h, questions: qs, answers: Seq::empty() }),
        }
    }
}

impl DnsMessage {
    /// Decode a request: the header, then `qdcount` questions.  A buffer
    /// shorter than 12 bytes is rejected with `TooShort`; a question
    /// that cannot be decoded rejects the whole datagram.
    pub fn parse_request(buffer: &[u8]) -> (r: Result<DnsMessage, DecodeError>)
        ensures
            match r {
                Ok(m) => {
                    &&& parse_request(buffer@) == Ok::<_, DecodeError>(m@)
                    &&& m@.questions.len() == m@.header.qdcount
                    &&& m@.header.wf()
                },
                Err(e) => parse_request(buffer@) == Err::<MessageModel, _>(e),
            },
            buffer@.len() < 12 ==> r == Err::<DnsMessage, _>(DecodeError::TooShort),
    {
        let header = match DnsHeader::from_bytes(buffer) {
            Ok(h) => h,
            Err(e) => {
                return Err(e);
            },
        };
        let qd = header.qdcount;
        let mut questions: Vec<DnsQuestion> = Vec::new();
        let mut offset: usize = 12;
        let mut i: u16 = 0;
        proof {
            if let Ok((rest, after)) = parse_questions(buffer@, 12, qd as nat) {
                assert(questions_view(questions@) + rest =~= rest);
            }
        }
        while i < qd
            invariant
                i <= qd,
                questions@.len() == i,
                12 <= offset <= buffer@.len(),
                header == parse_header(buffer@),
                header.wf(),
                qd == header.qdcount,
                match parse_questions(buffer@, offset as int, (qd - i) as nat) {
                    Ok((rest, after)) => parse_questions(buffer@, 12, qd as nat) == Ok::<
                        _,
                        DecodeError,
                    >((questions_view(questions@) + rest, after)),
                    Err(e) => parse_questions(buffer@, 12, qd as nat) == Err::<
                        (Seq<QuestionModel>, int),
                        _,
                    >(e),
                },
            decreases qd - i,
        {
            let q = match DnsQuestion::from_bytes(buffer, &mut offset) {
                Ok(q) => q,
                Err(e) => {
                    return Err(e);
                },
            };
            let ghost done = questions_view(questions@);
            questions.push(q);
            proof {
                if let Ok((rest, after)) = parse_questions(
                    buffer@,
                    offset as int,
                    (qd - i - 1) as nat,
                ) {
                    assert(questions_view(questions@) + rest =~= done + (seq![q@] + rest));
                }
            }
            i = i + 1;
        }
        proof {
            assert(questions_view(questions@) + Seq::<QuestionModel>::empty() =~= questions_view(
                questions@,
            ));
        }
        let m = DnsMessage { header, questions, answers: Vec::new() };
        proof {
            assert(answers_view(m.answers@) =~= Seq::<AnswerModel>::empty());
        }
        Ok(m)
    }
}

/// The record data used when no resolved address is available.
pub open spec fn default_addr() -> Seq<u8> {
    seq![8u8, 8u8, 8u8, 8u8]
}

/// The content of one optional resolved address.
pub open spec fn addr_view(a: Option<Vec<u8>>) -> Option<Seq<u8>> {
    match a {
        Some(v) => Some(v@),
        None => None,
    }
}

/// The contents of a list of optional resolved addresses.
pub open spec fn addrs_view(a: Seq<Option<Vec<u8>>>) -> Seq<Option<Seq<u8>>> {
    Seq::new(a.len(), |i: int| addr_view(a[i]))
}

/// The response header derived from a request header: the identifier and
/// flags are kept, the message becomes a response, the status is no
/// error for a standard query and not-implemented for any other opcode,
/// and both counts announce one answer per question.
pub open spec fn response_header(h: DnsHeader, n: u16) -> DnsHeader {
    DnsHeader {
        qr: true,
        rcode: if h.opcode == 0 {
            0u8
        } else {
            4u8
        },
        qdcount: n,
        ancount: n,
        ..h
    }
}

/// The answer synthesized for one question: the question's name, an
/// address record of the internet class, a 60-second time to live, and
/// either the resolved address or the default record data.
pub open spec fn answer_for(q: QuestionModel, addr: Option<Seq<u8>>) -> AnswerModel {
    let data = match addr {
        Some(a) => a,
        None => default_addr(),
    };
    AnswerModel {
        name: q.name,
        qtype: 1u16,
        qclass: 1u16,
        ttl: 60u32,
        data_len: data.len() as u16,
        data,
    }
}

/// The whole response derived from a request: the derived header, the
/// questions echoed in order, and one answer per question in the same
/// order.
pub open spec fn spec_response(m: MessageModel, addrs: Seq<Option<Seq<u8>>>) -> MessageModel {
    MessageModel {
        header: response_header(m.header, m.questions.len() as u16),
        questions: m.questions,
        answers: Seq::new(m.questions.len(), |i: int| answer_for(m.questions[i], addrs[i])),
    }
}

/// Build the response to a parsed request.  `addrs[i]` is the resolved
/// address for question `i`, or nothing where no resolver was available
/// or the lookup failed; the default record data then stands in.
pub fn build_response(req: &DnsMessage, addrs: &Vec<Option<Vec<u8>>>) -> (resp: DnsMessage)
    requires
        addrs@.len() == req.questions@.len(),
        req.questions@.len() <= u16::MAX,
        forall|i: int|
            0 <= i < addrs@.len() ==> ((#[trigger] addrs@[i]) matches Some(v) ==> v@.len()
                <= u16::MAX),
    ensures
        resp@ == spec_response(req@, addrs_view(addrs@)),
{
    let n_usize = req.questions.len();
    let n = n_usize as u16;
    let mut header = req.header;
    header.set_is_resp(true);
    header.set_id(req.header.id);
    header.set_num_questions(n);
    header.set_answer_count(n);
    header.rcode = if header.opcode == 0 {
        0
    } else {
        4
    };
    let mut questions: Vec<DnsQuestion> = Vec::new();
    let mut i: usize = 0;
    while i < n_usize
        invariant
            i <= n_usize,
            n_usize == req.questions@.len(),
            questions@.len() == i,
            forall|j: int| 0 <= j < i ==> (#[trigger] questions@[j])@ == req.questions@[j]@,
        decreases n_usize - i,
    {
        questions.push(req.questions[i].clone());
        i = i + 1;
    }
    let mut answers: Vec<DnsAnswer> = Vec::new();
    let mut k: usize = 0;
    while k < n_usize
        invariant
            k <= n_usize,
            n_usize == req.questions@.len(),
            n_usize == addrs@.len(),
            answers@.len() == k,
            forall|i: int|
                0 <= i < addrs@.len() ==> ((#[trigger] addrs@[i]) matches Some(v) ==> v@.len()
                    <= u16::MAX),
            forall|j: int|
                0 <= j < k ==> (#[trigger] answers@[j])@ == answer_for(
                    req.questions@[j]@,
                    addr_view(addrs@[j]),
                ),
        decreases n_usize - k,
    {
        let name = req.questions[k].qname.clone();
        let data: Vec<u8> = match &addrs[k] {
            Some(v) => vstd::slice::slice_to_vec(v.as_slice()),
            None => {
                let mut d: Vec<u8> = Vec::new();
                d.push(8);
                d.push(8);
                d.push(8);
                d.push(8);
                assert(d@ =~= default_addr());
                d
            },
        };
        let data_len = data.len() as u16;
        answers.push(DnsAnswer { name, qtype: 1, qclass: 1, ttl: 60, data_len, data });
        k = k + 1;
    }
    let resp = DnsMessage { header, questions, answers };
    proof {
        let model = spec_response(req@, addrs_view(addrs@));
        assert(resp@.questions =~= model.questions);
        assert(resp@.answers =~= model.answers);
    }
    resp
}

/// The encoding of the questions, in order.
pub open spec fn spec_questions_bytes(qs: Seq<QuestionModel>) -> Seq<u8>
    decreases qs.len(),
{
    if qs.len() == 0 {
        Seq::empty()
    } else {
        spec_question_bytes(qs[0]) + spec_questions_bytes(qs.skip(1))
    }
}

/// The encoding of the answer records, in order.
pub open spec fn spec_answers_bytes(ans: Seq<AnswerModel>) -> Seq<u8>
    decreases ans.len(),
{
    if ans.len() == 0 {
        Seq::empty()
    } else {
        spec_answer_bytes(ans[0]) + spec_answers_bytes(ans.skip(1))
    }
}

/// The encoding of a whole message: the header, then every question,
/// then every answer.
pub open spec fn spec_message_bytes(m: MessageModel) -> Seq<u8> {
    m.header.spec_bytes() + spec_questions_bytes(m.questions) + spec_answers_bytes(m.answers)
}

/// Whether every name of the message satisfies the length invariants,
/// so that the message can be encoded.
pub open spec fn all_names_wf(m: MessageModel) -> bool {
    (forall|i: int|
        0 <= i < m.questions.len() ==> wf_name(#[trigger] m.questions[i].name)) && (forall|i: int|
        0 <= i < m.answers.len() ==> wf_name(#[trigger] m.answers[i].name))
}

/// A response echoes the request: the questions are kept as they were,
/// and there is exactly one answer per question, in the same order, each
/// carrying its own question's name.
pub proof fn lemma_response_echoes_questions(m: MessageModel, addrs: Seq<Option<Seq<u8>>>)
    ensures
        spec_response(m, addrs).questions == m.questions,
        spec_response(m, addrs).answers.len() == m.questions.len(),
        forall|i: int|
            0 <= i < m.questions.len() ==> #[trigger] spec_response(m, addrs).answers[i].name
                == m.questions[i].name,
{
}

/// A response header is consistent with the response body: it is marked
/// as a response, it keeps the request's identifier, and its counts are
/// the numbers of questions and answers actually carried.
pub proof fn lemma_response_header_invariant(m: MessageModel, addrs: Seq<Option<Seq<u8>>>)
    requires
        m.questions.len() <= u16::MAX,
    ensures
        spec_response(m, addrs).header.qr,
        spec_response(m, addrs).header.id == m.header.id,
        spec_response(m, addrs).header.qdcount == spec_response(m, addrs).questions.len(),
        spec_response(m, addrs).header.ancount == spec_response(m, addrs).answers.len(),
{
}

/// Question encodings concatenate.
proof fn lemma_questions_bytes_concat(a: Seq<QuestionModel>, b: Seq<QuestionModel>)
    ensures
        spec_questions_bytes(a + b) == spec_questions_bytes(a) + spec_questions_bytes(b),
    decreases a.len(),
{
    if a.len() == 0 {
        assert(a + b =~= b);
        assert(spec_questions_bytes(a) + spec_questions_bytes(b) =~= spec_questions_bytes(b));
    } else {
        lemma_questions_bytes_concat(a.skip(1), b);
        assert((a + b).skip(1) =~= a.skip(1) + b);
        assert((a + b)[0] == a[0]);
        assert(spec_questions_bytes(a + b) =~= spec_questions_bytes(a) + spec_questions_bytes(b));
    }
}

/// Encoding one more question appends its bytes.
proof fn lemma_questions_bytes_snoc(qs: Seq<QuestionModel>, n: int)
    requires
        0 <= n < qs.len(),
    ensures
        spec_questions_bytes(qs.take(n + 1)) == spec_questions_bytes(qs.take(n))
            + spec_question_bytes(qs[n]),
{
    let single = seq![qs[n]];
    assert(qs.take(n + 1) =~= qs.take(n) + single);
    lemma_questions_bytes_concat(qs.take(n), single);
    assert(single.skip(1) =~= Seq::<QuestionModel>::empty());
    assert(spec_questions_bytes(Seq::<QuestionModel>::empty()) =~= Seq::<u8>::empty());
    assert(spec_questions_bytes(single) =~= spec_question_bytes(qs[n]));
    assert(spec_questions_bytes(qs.take(n + 1)) =~= spec_questions_bytes(qs.take(n))
        + spec_question_bytes(qs[n]));
}

/// Answer encodings concatenate.
proof fn lemma_answers_bytes_concat(a: Seq<AnswerModel>, b: Seq<AnswerModel>)
    ensures
        spec_answers_bytes(a + b) == spec_answers_bytes(a) + spec_answers_bytes(b),
    decreases a.len(),
{
    if a.len() == 0 {
        assert(a + b =~= b);
        assert(spec_answers_bytes(a) + spec_answers_bytes(b) =~= spec_answers_bytes(b));
    } else {
        lemma_answers_bytes_concat(a.skip(1), b);
        assert((a + b).skip(1) =~= a.skip(1) + b);
        assert((a + b)[0] == a[0]);
        assert(spec_answers_bytes(a + b) =~= spec_answers_bytes(a) + spec_answers_bytes(b));
    }
}

/// Encoding one more answer appends its bytes.
proof fn lemma_answers_bytes_snoc(ans: Seq<AnswerModel>, n: int)
    requires
        0 <= n < ans.len(),
    ensures
        spec_answers_bytes(ans.take(n + 1)) == spec_answers_bytes(ans.take(n)) + spec_answer_bytes(
            ans[n],
        ),
{
    let single = seq![ans[n]];
    assert(ans.take(n + 1) =~= ans.take(n) + single);
    lemma_answers_bytes_concat(ans.take(n), single);
    assert(single.skip(1) =~= Seq::<AnswerModel>::empty());
    assert(spec_answers_bytes(Seq::<AnswerModel>::empty()) =~= Seq::<u8>::empty());
    assert(spec_answers_bytes(single) =~= spec_answer_bytes(ans[n]));
    assert(spec_answers_bytes(ans.take(n + 1)) =~= spec_answers_bytes(ans.take(n))
        + spec_answer_bytes(ans[n]));
}

impl DnsMessage {
    /// Append the encoding of the whole message: the header, every
    /// question in order, then every answer in order.  A name violating
    /// the length invariants rejects the whole message, and the buffer
    /// is then left unchanged.
    pub fn write_bytes(&self, buf: &mut Vec<u8>) -> (r: Result<(), EncodeError>)
        requires
            forall|i: int|
                0 <= i < self.answers@.len() ==> (#[trigger] self.answers@[i]).data@.len()
                    <= u16::MAX,
        ensures
            match r {
                Ok(()) => all_names_wf(self@) && final(buf)@ == old(buf)@ + spec_message_bytes(
                    self@,
                ),
                Err(e) => {
                    &&& e == EncodeError::NameTooLong
                    &&& !all_names_wf(self@)
                    &&& final(buf)@ == old(buf)@
                },
            },
    {
        let ghost qmodels = questions_view(self.questions@);
        let ghost amodels = answers_view(self.answers@);
        let mut out: Vec<u8> = Vec::new();
        self.header.write_bytes(&mut out);
        proof {
            assert(qmodels.take(0) =~= Seq::<QuestionModel>::empty());
            assert(out@ =~= self.header.spec_bytes() + spec_questions_bytes(qmodels.take(0)));
        }
        let mut i: usize = 0;
        while i < self.questions.len()
            invariant
                i <= self.questions@.len(),
                qmodels == questions_view(self.questions@),
                out@ == self.header.spec_bytes() + spec_questions_bytes(qmodels.take(i as int)),
                forall|j: int| 0 <= j < i ==> wf_name(#[trigger] qmodels[j].name),
                buf@ == old(buf)@,
            decreases self.questions@.len() - i,
        {
            match self.questions[i].write_bytes(&mut out) {
                Ok(()) => {},
                Err(e) => {
                    assert(!wf_name(qmodels[i as int].name));
                    assert(self@.questions == qmodels);
                    assert(!all_names_wf(self@));
                    return Err(e);
                },
            }
            proof {
                lemma_questions_bytes_snoc(qmodels, i as int);
                assert(out@ =~= self.header.spec_bytes() + spec_questions_bytes(
                    qmodels.take(i + 1),
                ));
            }
            i = i + 1;
        }
        proof {
            assert(qmodels.take(i as int) =~= qmodels);
            assert(amodels.take(0) =~= Seq::<AnswerModel>::empty());
            assert(out@ =~= self.header.spec_bytes() + spec_questions_bytes(qmodels)
                + spec_answers_bytes(amodels.take(0)));
        }
        let mut k: usize = 0;
        while k < self.answers.len()
            invariant
                k <= self.answers@.len(),
                qmodels == questions_view(self.questions@),
                amodels == answers_view(self.answers@),
                forall|i: int|
                    0 <= i < self.answers@.len() ==> (#[trigger] self.answers@[i]).data@.len()
                        <= u16::MAX,
                out@ == self.header.spec_bytes() + spec_questions_bytes(qmodels)
                    + spec_answers_bytes(amodels.take(k as int)),
                forall|j: int| 0 <= j < qmodels.len() ==> wf_name(#[trigger] qmodels[j].name),
                forall|j: int| 0 <= j < k ==> wf_name(#[trigger] amodels[j].name),
                buf@ == old(buf)@,
            decreases self.answers@.len() - k,
        {
            match self.answers[k].write_bytes(&mut out) {
                Ok(()) => {},
                Err(e) => {
                    assert(!wf_name(amodels[k as int].name));
                    assert(self@.answers == amodels);
                    assert(!all_names_wf(self@));
                    return Err(e);
                },
            }
            proof {
                lemma_answers_bytes_snoc(amodels, k as int);
                assert(out@ =~= self.header.spec_bytes() + spec_questions_bytes(qmodels)
                    + spec_answers_bytes(amodels.take(k + 1)));
            }
            k = k + 1;
        }
        proof {
            assert(amodels.take(k as int) =~= amodels);
        }
        buf.append(&mut out);
        assert(buf@ =~= old(buf)@ + spec_message_bytes(self@));
        Ok(())
    }
}

/// Process one received datagram without an upstream resolver: parse the
/// request and encode the response, every answer carrying the default
/// record data.  A datagram that cannot be parsed, or whose response
/// cannot be encoded, is dropped and gets no response.
pub fn process_datagram(buffer: &[u8]) -> (r: Option<Vec<u8>>)
    ensures
        buffer@.len() < 12 ==> r is None,
        match parse_request(buffer@) {
            Err(_) => r is None,
            Ok(m) => {
                let resp = spec_response(
                    m,
                    Seq::new(m.questions.len(), |i: int| None::<Seq<u8>>),
                );
                if all_names_wf(resp) {
                    r matches Some(b) && b@ == spec_message_bytes(resp)
                } else {
                    r is None
                }
            },
        },
{
    let req = match DnsMessage::parse_request(buffer) {
        Ok(m) => m,
        Err(_) => {
            return None;
        },
    };
    let nq = req.questions.len();
    let mut addrs: Vec<Option<Vec<u8>>> = Vec::new();
    let mut i: usize = 0;
    while i < nq
        invariant
            i <= nq,
            addrs@.len() == i,
            forall|j: int| 0 <= j < i ==> (#[trigger] addrs@[j]) is None,
        decreases nq - i,
    {
        addrs.push(None);
        i = i + 1;
    }
    proof {
        assert(addrs_view(addrs@) =~= Seq::new(
            req@.questions.len(),
            |i: int| None::<Seq<u8>>,
        ));
    }
    let resp = build_response(&req, &addrs);
    proof {
        let model = spec_response(req@, addrs_view(addrs@));
        assert(resp@ == model);
        assert(resp.answers@.len() == model.answers.len());
        assert(model.answers.len() == req@.questions.len());
        assert(addrs@.len() == req@.questions.len());
        assert forall|j: int|
            0 <= j < resp.answers@.len() implies (#[trigger] resp.answers@[j]).data@.len()
            <= u16::MAX by {
            assert(0 <= j < req@.questions.len());
            assert(model.answers[j] == answer_for(req@.questions[j], addrs_view(addrs@)[j]));
            assert(addrs@[j] is None);
            assert(addrs_view(addrs@)[j] == addr_view(addrs@[j]));
            assert(model.answers[j].data == default_addr());
            assert(resp.answers@[j]@ == resp@.answers[j]);
            assert(resp.answers@[j].data@ == model.answers[j].data);
        }
    }
    let mut out: Vec<u8> = Vec::new();
    match resp.write_bytes(&mut out) {
        Ok(()) => Some(out),
        Err(_) => None,
    }
}

} // verus!
