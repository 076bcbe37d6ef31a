use crate::error::{CoreError, DecodeError, Stage};
use crate::header::{DNSHeader, HEADER_LEN, MAX_COUNT};
use crate::wire::u16_at;
use crate::question::{parse_questions, questions_of, questions_wire, Question, QuestionView};
use crate::record::{parsed_records, records_of, records_wire, RecordView, ResourceRecord};
use vstd::prelude::*;
use vstd::slice::slice_subrange;

verus! {

/// A message from a client: a header and its questions.
#[derive(Debug)]
pub struct DnsQuery {
    pub header: DNSHeader,
    pub questions: Vec<Question>,
}

/// A message from a resolver: a header, the questions it answers, and the
/// answers. The authority and additional sections are not kept.
#[derive(Debug)]
pub struct DnsResponse {
    pub header: DNSHeader,
    pub questions: Vec<Question>,
    pub answers: Vec<ResourceRecord>,
}

/// A query as the contracts see it.
pub struct QueryView {
    pub header: DNSHeader,
    pub questions: Seq<QuestionView>,
}

/// A response as the contracts see it.
pub struct ResponseView {
    pub header: DNSHeader,
    pub questions: Seq<QuestionView>,
    pub answers: Seq<RecordView>,
}

impl View for DnsQuery {
    type V = QueryView;

    open spec fn view(&self) -> QueryView {
        QueryView { header: self.header, questions: questions_of(self.questions@) }
    }
}

impl View for DnsResponse {
    type V = ResponseView;

    open spec fn view(&self) -> ResponseView {
        ResponseView {
            header: self.header,
            questions: questions_of(self.questions@),
            answers: records_of(self.answers@),
        }
    }
}

impl QueryView {
    /// The header counts the questions that follow it.
    pub open spec fn wf(self) -> bool {
        self.header.qdcount == self.questions.len()
    }

    /// The header as it is encoded: it counts the questions that follow,
    /// whatever count the header holds. The other fields are as they stand.
    pub open spec fn framed_header(self) -> DNSHeader {
        DNSHeader { qdcount: self.questions.len() as u16, ..self.header }
    }

    /// The query as it is encoded: with the header that counts its
    /// questions.
    pub open spec fn framed(self) -> QueryView {
        QueryView { header: self.framed_header(), ..self }
    }

    /// The query that asks the `i`-th question alone: the same header but
    /// for a question count of one.
    pub open spec fn single(self, i: int) -> QueryView {
        QueryView {
            header: DNSHeader { qdcount: 1, ..self.header },
            questions: seq![self.questions[i]],
        }
    }

    /// One query for each question, in the order of the questions.
    pub open spec fn split(self) -> Seq<QueryView> {
        Seq::new(self.questions.len(), |i: int| self.single(i))
    }
}

impl ResponseView {
    /// The header counts the questions and the answers that follow it, and
    /// every answer announces the length of its payload.
    pub open spec fn wf(self) -> bool {
        &&& self.header.qdcount == self.questions.len()
        &&& self.header.ancount == self.answers.len()
        &&& forall|i: int| 0 <= i < self.answers.len() ==> (#[trigger] self.answers[i]).wf()
    }

    /// The header as it is encoded: it counts the questions and the answers
    /// that follow, whatever counts the header holds. The other fields are
    /// as they stand.
    pub open spec fn framed_header(self) -> DNSHeader {
        DNSHeader {
            qdcount: self.questions.len() as u16,
            ancount: self.answers.len() as u16,
            ..self.header
        }
    }

    /// The response as it is encoded: with the header that counts its
    /// questions and answers.
    pub open spec fn framed(self) -> ResponseView {
        ResponseView { header: self.framed_header(), ..self }
    }
}

/// The views of a sequence of queries.
pub open spec fn queries_of(queries: Seq<DnsQuery>) -> Seq<QueryView> {
    Seq::new(queries.len(), |i: int| queries[i]@)
}

/// A query on the wire: the header with the count of the questions that
/// follow, then each question.
pub open spec fn query_wire(q: QueryView) -> Seq<u8> {
    q.framed_header().wire() + questions_wire(q.questions)
}

/// A response on the wire: the header with the counts of the questions and
/// of the answers that follow, each question, each answer.
pub open spec fn response_wire(r: ResponseView) -> Seq<u8> {
    r.framed_header().wire() + questions_wire(r.questions) + records_wire(r.answers)
}

/// Why the message fails to decode when `cause` stops the given section.
pub open spec fn failed(stage: Stage, cause: DecodeError) -> CoreError {
    CoreError::DecodeFailed { stage, cause }
}

/// Parses a query: twelve header bytes, then as many questions as the
/// header counts. What follows the questions is not looked at.
pub open spec fn parse_query(buf: Seq<u8>) -> Result<QueryView, CoreError> {
    if buf.len() < HEADER_LEN {
        Err(failed(Stage::Header, DecodeError::TruncatedMessage))
    } else {
        let header = DNSHeader::from_wire(buf);
        match parse_questions(buf.skip(HEADER_LEN as int), 0, header.qdcount as nat) {
            Err(e) => Err(failed(Stage::Question, e)),
            Ok((questions, _)) => Ok(QueryView { header, questions }),
        }
    }
}

/// Parses a response: twelve header bytes, as many questions as the header
/// counts, and behind them as many answers as it counts.
pub open spec fn parse_response(buf: Seq<u8>) -> Result<ResponseView, CoreError> {
    if buf.len() < HEADER_LEN {
        Err(failed(Stage::Header, DecodeError::TruncatedMessage))
    } else {
        let header = DNSHeader::from_wire(buf);
        match parse_questions(buf.skip(HEADER_LEN as int), 0, header.qdcount as nat) {
            Err(e) => Err(failed(Stage::Question, e)),
            Ok((questions, end)) => match parsed_records(
                buf.skip(HEADER_LEN + end),
                header.ancount as nat,
            ) {
                Err(e) => Err(failed(Stage::Record, e)),
                Ok(answers) => Ok(ResponseView { header, questions, answers }),
            },
        }
    }
}

/// The fifth to eighth byte of a message hold the question count and the
/// answer count of its header.
pub proof fn lemma_counts_at(header: DNSHeader, body: Seq<u8>)
    ensures
        (header.wire() + body).len() >= HEADER_LEN,
        u16_at(header.wire() + body, 4) == header.qdcount,
        u16_at(header.wire() + body, 6) == header.ancount,
{
    let bytes = header.wire() + body;
    let packed = header.wire();
    assert(bytes[4] == packed[4] && bytes[5] == packed[5]);
    assert(bytes[6] == packed[6] && bytes[7] == packed[7]);
}

impl Clone for DnsQuery {
    /// A copy with the same header and questions.
    fn clone(&self) -> (copy: DnsQuery)
        ensures
            copy@ == self@,
    {
        let mut questions: Vec<Question> = Vec::new();
        let mut i: usize = 0;
        while i < self.questions.len()
            invariant
                i <= self.questions.len(),
                questions.len() == i,
                forall|j: int| 0 <= j < i ==> questions[j]@ == self.questions[j]@,
            decreases self.questions.len() - i,
        {
            questions.push(self.questions[i].clone());
            i += 1;
        }
        assert(questions_of(questions@) =~= questions_of(self.questions@));
        DnsQuery { header: self.header, questions }
    }
}

impl DnsQuery {
    /// Decodes a query from a datagram.
    pub fn deserialize(buffer: &[u8]) -> (r: Result<DnsQuery, CoreError>)
        ensures
            match r {
                Ok(query) => parse_query(buffer@) == Ok::<_, CoreError>(query@),
                Err(e) => parse_query(buffer@) == Err::<QueryView, _>(e),
            },
            r matches Ok(query) ==> query@.wf() && query.header.wf(),
    {
        let header = match DNSHeader::deserialize(buffer) {
            Ok(header) => header,
            Err(cause) => {
                return Err(CoreError::DecodeFailed { stage: Stage::Header, cause });
            },
        };
        let body = slice_subrange(buffer, HEADER_LEN, buffer.len());
        match Question::deserialize(body, header.qdcount) {
            Err(cause) => Err(CoreError::DecodeFailed { stage: Stage::Question, cause }),
            Ok((questions, _)) => Ok(DnsQuery { header, questions }),
        }
    }

    /// Encodes the query: the header, then each question. The question
    /// count that is written is the number of questions that follow, not
    /// the count that the header holds; the other fields of the header are
    /// written as they stand. The count has 16 bits, so the query may hold
    /// at most 65535 questions.
    pub fn serialize(&self) -> (bytes: Vec<u8>)
        requires
            self.questions.len() <= MAX_COUNT,
        ensures
            bytes@ == query_wire(self@),
            bytes@.len() >= HEADER_LEN,
            u16_at(bytes@, 4) == self.questions.len(),
    {
        let mut header = self.header;
        header.qdcount = self.questions.len() as u16;
        let mut buffer: Vec<u8> = Vec::new();
        let head = header.serialize();
        buffer.extend_from_slice(head.as_slice());
        write_questions(&mut buffer, &self.questions);
        proof {
            lemma_counts_at(header, questions_wire(self@.questions));
        }
        buffer
    }

    /// Splits the query into one query for each question, in the order of
    /// the questions. Each has the header of this query but for a question
    /// count of one. The query itself is left as it is.
    pub fn split_questions(&mut self) -> (queries: Vec<DnsQuery>)
        ensures
            *final(self) == *old(self),
            queries_of(queries@) == old(self)@.split(),
    {
        let mut queries: Vec<DnsQuery> = Vec::new();
        let mut i: usize = 0;
        while i < self.questions.len()
            invariant
                *self == *old(self),
                i <= self.questions.len(),
                queries.len() == i,
                forall|j: int| 0 <= j < i ==> queries[j]@ == old(self)@.single(j),
            decreases self.questions.len() - i,
        {
            let mut header = self.header;
            header.qdcount = 1;
            let mut questions: Vec<Question> = Vec::new();
            questions.push(self.questions[i].clone());
            assert(questions_of(questions@) =~= seq![self@.questions[i as int]]);
            queries.push(DnsQuery { header, questions });
            i += 1;
        }
        queries
    }
}

/// Appends each question in full.
fn write_questions(buffer: &mut Vec<u8>, questions: &Vec<Question>)
    ensures
        final(buffer)@ == old(buffer)@ + questions_wire(questions_of(questions@)),
{
    let ghost all = questions_of(questions@);
    let mut i: usize = 0;
    assert(all.skip(0) =~= all);
    while i < questions.len()
        invariant
            i <= questions.len(),
            all == questions_of(questions@),
            buffer@ + questions_wire(all.skip(i as int)) == old(buffer)@ + questions_wire(all),
        decreases questions.len() - i,
    {
        let bytes = questions[i].serialize();
        proof {
            let tail = all.skip(i as int);
            assert(tail.drop_first() =~= all.skip(i + 1));
        }
        buffer.extend_from_slice(bytes.as_slice());
        i += 1;
    }
}

/// Appends each record in full.
fn write_records(buffer: &mut Vec<u8>, records: &Vec<ResourceRecord>)
    ensures
        final(buffer)@ == old(buffer)@ + records_wire(records_of(records@)),
{
    let ghost all = records_of(records@);
    let mut i: usize = 0;
    assert(all.skip(0) =~= all);
    while i < records.len()
        invariant
            i <= records.len(),
            all == records_of(records@),
            buffer@ + records_wire(all.skip(i as int)) == old(buffer)@ + records_wire(all),
        decreases records.len() - i,
    {
        let bytes = records[i].serialize();
        proof {
            let tail = all.skip(i as int);
            assert(tail.drop_first() =~= all.skip(i + 1));
        }
        buffer.extend_from_slice(bytes.as_slice());
        i += 1;
    }
}

impl DnsResponse {
    /// Decodes a response from a datagram. The answers are read from the
    /// place where the question section ends.
    pub fn deserialize(buffer: &[u8]) -> (r: Result<DnsResponse, CoreError>)
        ensures
            match r {
                Ok(response) => parse_response(buffer@) == Ok::<_, CoreError>(response@),
                Err(e) => parse_response(buffer@) == Err::<ResponseView, _>(e),
            },
            r matches Ok(response) ==> response@.wf() && response.header.wf(),
    {
        let header = match DNSHeader::deserialize(buffer) {
            Ok(header) => header,
            Err(cause) => {
                return Err(CoreError::DecodeFailed { stage: Stage::Header, cause });
            },
        };
        let body = slice_subrange(buffer, HEADER_LEN, buffer.len());
        let (questions, end) = match Question::deserialize(body, header.qdcount) {
            Ok(found) => found,
            Err(cause) => {
                return Err(CoreError::DecodeFailed { stage: Stage::Question, cause });
            },
        };
        let rest = slice_subrange(buffer, HEADER_LEN + end, buffer.len());
        match ResourceRecord::deserialize(rest, header.ancount) {
            Err(cause) => Err(CoreError::DecodeFailed { stage: Stage::Record, cause }),
            Ok(answers) => Ok(DnsResponse { header, questions, answers }),
        }
    }

    /// Encodes the response: the header, each question, each answer. The
    /// question count and the answer count that are written are the numbers
    /// of questions and of answers that follow, not the counts that the
    /// header holds; the other fields of the header are written as they
    /// stand. Each count has 16 bits, so the response may hold at most
    /// 65535 questions and at most 65535 answers.
    pub fn serialize(&self) -> (bytes: Vec<u8>)
        requires
            self.questions.len() <= MAX_COUNT,
            self.answers.len() <= MAX_COUNT,
        ensures
            bytes@ == response_wire(self@),
            bytes@.len() >= HEADER_LEN,
            u16_at(bytes@, 4) == self.questions.len(),
            u16_at(bytes@, 6) == self.answers.len(),
    {
        let mut header = self.header;
        header.qdcount = self.questions.len() as u16;
        header.ancount = self.answers.len() as u16;
        let mut buffer: Vec<u8> = Vec::new();
        let head = header.serialize();
        buffer.extend_from_slice(head.as_slice());
        write_questions(&mut buffer, &self.questions);
        write_records(&mut buffer, &self.answers);
        proof {
            lemma_counts_at(
                header,
                questions_wire(self@.questions) + records_wire(self@.answers),
            );
        }
        buffer
    }
}

} // verus!
