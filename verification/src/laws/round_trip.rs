//! What is written is read back: headers, names, questions, records and
//! whole messages.

use crate::error::{parsed, CoreError};
use crate::header::{DNSHeader, HEADER_LEN, MAX_COUNT};
use crate::message::{
    lemma_counts_at, parse_query, parse_response, query_wire, response_wire, QueryView,
    ResponseView,
};
use crate::name::{
    label_wire, name_fits, name_wire, parse_name, parse_plain_name, MAX_LABEL,
    MAX_QUESTION_LABEL,
};
use crate::question::{
    parse_question, parse_questions, question_wire, questions_fit, questions_wire, QuestionView,
};
use crate::record::{
    parse_record, parse_records, record_fits, record_wire, records_fit, records_wire, RecordView,
};
use crate::wire::{
    label_text, lemma_u16_round_trip, lemma_u32_round_trip, u16_at, u16_wire, u32_at, u32_wire,
};
use vstd::prelude::*;
use vstd::utf8::{encode_utf8, encode_utf8_decode_utf8, encode_utf8_valid_utf8};

verus! {

/// The flag fields of a header that fit their bits are read back from its
/// third and fourth byte.
proof fn lemma_flags_round_trip(h: DNSHeader)
    requires
        h.wf(),
    ensures
        h.flags_hi() / 128 == h.qr,
        (h.flags_hi() / 8) % 16 == h.opcode,
        (h.flags_hi() / 4) % 2 == h.aa,
        (h.flags_hi() / 2) % 2 == h.tc,
        h.flags_hi() % 2 == h.rd,
        h.flags_lo() / 128 == h.ra,
        (h.flags_lo() / 16) % 8 == h.z,
        h.flags_lo() % 16 == h.rcode,
{
    let (qr, opcode, aa, tc, rd) = (h.qr, h.opcode, h.aa, h.tc, h.rd);
    let (ra, z, rcode) = (h.ra, h.z, h.rcode);
    let hi = h.flags_hi();
    let lo = h.flags_lo();
    assert(hi == qr * 128 + opcode * 8 + aa * 4 + tc * 2 + rd);
    assert(lo == ra * 128 + z * 16 + rcode);
    assert(hi / 128 == qr && (hi / 8) % 16 == opcode && (hi / 4) % 2 == aa && (hi / 2) % 2 == tc
        && hi % 2 == rd) by (bit_vector)
        requires
            qr < 2 && opcode < 16 && aa < 2 && tc < 2 && rd < 2,
            hi == qr * 128 + opcode * 8 + aa * 4 + tc * 2 + rd,
    ;
    assert(lo / 128 == ra && (lo / 16) % 8 == z && lo % 16 == rcode) by (bit_vector)
        requires
            ra < 2 && z < 8 && rcode < 16,
            lo == ra * 128 + z * 16 + rcode,
    ;
}

/// Packing a header whose flag fields fit their bits and unpacking the
/// result gives the header back, whatever follows the twelve bytes.
pub proof fn lemma_header_round_trip(h: DNSHeader, rest: Seq<u8>)
    requires
        h.wf(),
    ensures
        h.wire().len() == 12,
        DNSHeader::from_wire(h.wire() + rest) == h,
{
    let packed = h.wire();
    let bytes = packed + rest;
    let g = DNSHeader::from_wire(bytes);
    assert forall|i: int| 0 <= i < 12 implies bytes[i] == packed[i] by {}
    lemma_flags_round_trip(h);
    assert(bytes[2] == h.flags_hi() && bytes[3] == h.flags_lo());
    assert(g.id == h.id) by {
        assert(bytes[0] == packed[0] && bytes[1] == packed[1]);
    }
    assert(g.qdcount == h.qdcount) by {
        assert(bytes[4] == packed[4] && bytes[5] == packed[5]);
    }
    assert(g.ancount == h.ancount) by {
        assert(bytes[6] == packed[6] && bytes[7] == packed[7]);
    }
    assert(g.nscount == h.nscount) by {
        assert(bytes[8] == packed[8] && bytes[9] == packed[9]);
    }
    assert(g.arcount == h.arcount) by {
        assert(bytes[10] == packed[10] && bytes[11] == packed[11]);
    }
}

/// Unpacking twelve bytes gives a header whose flag fields fit their bits,
/// and packing it again gives the same twelve bytes.
pub proof fn lemma_header_wire_of_parsed(bytes: Seq<u8>)
    requires
        bytes.len() >= 12,
    ensures
        DNSHeader::from_wire(bytes).wf(),
        DNSHeader::from_wire(bytes).wire() == bytes.subrange(0, 12),
{
    let h = DNSHeader::from_wire(bytes);
    let b2 = bytes[2];
    let b3 = bytes[3];
    assert(((b2 / 128) % 2) * 128 + (((b2 / 8) % 16) % 16) * 8 + (((b2 / 4) % 2) % 2) * 4 + (((b2
        / 2) % 2) % 2) * 2 + (b2 % 2) % 2 == b2) by (bit_vector);
    assert(((b3 / 128) % 2) * 128 + (((b3 / 16) % 8) % 8) * 16 + (b3 % 16) % 16 == b3)
        by (bit_vector);
    assert(h.flags_hi() == b2);
    assert(h.flags_lo() == b3);
    assert(h.wire() =~= bytes.subrange(0, 12));
}

/// A label that was written is read back as the same text.
pub proof fn lemma_label_text_of_wire(label: Seq<char>)
    ensures
        label_text(encode_utf8(label)) == label,
{
    encode_utf8_valid_utf8(label);
    encode_utf8_decode_utf8(label);
}

/// A name of the question section that was written in full is read back
/// unchanged wherever it stands in a buffer, before or behind a pointer,
/// if each of its labels has between 1 and 191 bytes.
pub proof fn lemma_name_round_trip(
    before: Seq<u8>,
    name: Seq<Seq<char>>,
    after: Seq<u8>,
    jumped: bool,
)
    requires
        name_fits(name, MAX_QUESTION_LABEL as int),
    ensures
        parse_name(before + name_wire(name) + after, before.len() as int, jumped) == parsed(
            name,
            (before.len() + name_wire(name).len()) as int,
        ),
    decreases name.len(),
{
    let buf = before + name_wire(name) + after;
    let pos = before.len() as int;
    if name.len() == 0 {
        assert(name_wire(name) =~= seq![0u8]);
        assert(name =~= Seq::<Seq<char>>::empty());
    } else {
        let label = name[0];
        let rest = name.drop_first();
        let bytes = encode_utf8(label);
        let next = pos + 1 + bytes.len();
        let front = before + label_wire(label);
        assert(front + name_wire(rest) + after =~= buf);
        assert(buf.subrange(pos + 1, next) =~= bytes);
        lemma_label_text_of_wire(label);
        lemma_name_round_trip(front, rest, after, jumped);
        assert(seq![label] + rest =~= name);
    }
}

/// A name of the answer section that was written in full is read back
/// unchanged wherever it stands in a buffer, if each of its labels has
/// between 1 and 255 bytes.
pub proof fn lemma_plain_name_round_trip(before: Seq<u8>, name: Seq<Seq<char>>, after: Seq<u8>)
    requires
        name_fits(name, MAX_LABEL as int),
    ensures
        parse_plain_name(before + name_wire(name) + after, before.len() as int) == parsed(
            name,
            (before.len() + name_wire(name).len()) as int,
        ),
    decreases name.len(),
{
    let buf = before + name_wire(name) + after;
    let pos = before.len() as int;
    if name.len() == 0 {
        assert(name_wire(name) =~= seq![0u8]);
        assert(name =~= Seq::<Seq<char>>::empty());
    } else {
        let label = name[0];
        let rest = name.drop_first();
        let bytes = encode_utf8(label);
        let next = pos + 1 + bytes.len();
        let front = before + label_wire(label);
        assert(front + name_wire(rest) + after =~= buf);
        assert(buf.subrange(pos + 1, next) =~= bytes);
        lemma_label_text_of_wire(label);
        lemma_plain_name_round_trip(front, rest, after);
        assert(seq![label] + rest =~= name);
    }
}

/// A question that was written is read back unchanged wherever it stands in
/// a buffer, if each label of its name has between 1 and 191 bytes.
pub proof fn lemma_question_round_trip(before: Seq<u8>, q: QuestionView, after: Seq<u8>)
    requires
        name_fits(q.name, MAX_QUESTION_LABEL as int),
    ensures
        parse_question(before + question_wire(q) + after, before.len() as int) == parsed(
            q,
            (before.len() + question_wire(q).len()) as int,
        ),
{
    let buf = before + question_wire(q) + after;
    let fields = u16_wire(q.qtype) + u16_wire(q.qclass);
    let end = (before.len() + name_wire(q.name).len()) as int;
    lemma_name_round_trip(before, q.name, fields + after, false);
    assert(before + name_wire(q.name) + (fields + after) =~= buf);
    assert(buf[end] == fields[0] && buf[end + 1] == fields[1]);
    assert(buf[end + 2] == fields[2] && buf[end + 3] == fields[3]);
    lemma_u16_round_trip(q.qtype);
    lemma_u16_round_trip(q.qclass);
    assert(u16_at(buf, end) == q.qtype);
    assert(u16_at(buf, end + 2) == q.qclass);
    assert(question_wire(q).len() == name_wire(q.name).len() + 4);
}

/// Where all questions are read back, so are the first of them and the
/// others.
proof fn lemma_questions_fit_apart(questions: Seq<QuestionView>)
    requires
        questions_fit(questions),
        questions.len() > 0,
    ensures
        name_fits(questions[0].name, MAX_QUESTION_LABEL as int),
        questions_fit(questions.drop_first()),
{
    let rest = questions.drop_first();
    assert forall|i: int| 0 <= i < rest.len() implies name_fits(
        (#[trigger] rest[i]).name,
        MAX_QUESTION_LABEL as int,
    ) by {
        assert(rest[i] == questions[i + 1]);
    }
}

/// Where all records are read back, so are the first of them and the
/// others.
proof fn lemma_records_fit_apart(records: Seq<RecordView>)
    requires
        records_fit(records),
        records.len() > 0,
    ensures
        record_fits(records[0]),
        records_fit(records.drop_first()),
{
    let rest = records.drop_first();
    assert forall|i: int| 0 <= i < rest.len() implies record_fits(#[trigger] rest[i]) by {
        assert(rest[i] == records[i + 1]);
    }
}

/// Where one question is read from its bytes and the others from the
/// bytes behind them, all are read from the bytes of all.
proof fn lemma_questions_join(
    before: Seq<u8>,
    one: Seq<u8>,
    others: Seq<u8>,
    after: Seq<u8>,
    q: QuestionView,
    rest: Seq<QuestionView>,
)
    requires
        parse_question(before + one + (others + after), before.len() as int) == parsed(
            q,
            (before.len() + one.len()) as int,
        ),
        parse_questions(before + one + others + after, (before + one).len() as int, rest.len())
            == parsed(rest, ((before + one).len() + others.len()) as int),
    ensures
        parse_questions(before + (one + others) + after, before.len() as int, rest.len() + 1)
            == parsed(seq![q] + rest, (before.len() + (one + others).len()) as int),
{
    lemma_regroup(before, one, others, after);
}

/// Where one record is read from its bytes and the others from the bytes
/// behind them, all are read from the bytes of all.
proof fn lemma_records_join(
    before: Seq<u8>,
    one: Seq<u8>,
    others: Seq<u8>,
    after: Seq<u8>,
    r: RecordView,
    rest: Seq<RecordView>,
)
    requires
        parse_record(before + one + (others + after), before.len() as int) == parsed(
            r,
            (before.len() + one.len()) as int,
        ),
        parse_records(before + one + others + after, (before + one).len() as int, rest.len())
            == parsed(rest, ((before + one).len() + others.len()) as int),
    ensures
        parse_records(before + (one + others) + after, before.len() as int, rest.len() + 1)
            == parsed(seq![r] + rest, (before.len() + (one + others).len()) as int),
{
    lemma_regroup(before, one, others, after);
}

/// Bytes that stand one after the other may be grouped in any way.
proof fn lemma_regroup(before: Seq<u8>, one: Seq<u8>, rest: Seq<u8>, after: Seq<u8>)
    ensures
        before + (one + rest) + after == before + one + (rest + after),
        before + (one + rest) + after == before + one + rest + after,
{
    assert(before + (one + rest) + after =~= before + one + (rest + after));
    assert(before + (one + rest) + after =~= before + one + rest + after);
}

/// Questions that were written one after the other are read back unchanged
/// wherever they stand in a buffer, if each label of their names has
/// between 1 and 191 bytes.
pub proof fn lemma_questions_round_trip(
    before: Seq<u8>,
    questions: Seq<QuestionView>,
    after: Seq<u8>,
)
    requires
        questions_fit(questions),
    ensures
        parse_questions(
            before + questions_wire(questions) + after,
            before.len() as int,
            questions.len(),
        ) == parsed(questions, (before.len() + questions_wire(questions).len()) as int),
    decreases questions.len(),
{
    if questions.len() == 0 {
        assert(questions =~= Seq::<QuestionView>::empty());
    } else {
        let q = questions[0];
        let rest = questions.drop_first();
        let one = question_wire(q);
        let others = questions_wire(rest);
        lemma_questions_fit_apart(questions);
        assert(questions_wire(questions) == one + others);
        lemma_question_round_trip(before, q, others + after);
        lemma_questions_round_trip(before + one, rest, after);
        lemma_questions_join(before, one, others, after, q, rest);
        assert(seq![q] + rest =~= questions);
    }
}

/// A record that was written is read back unchanged wherever it stands in a
/// buffer, if each label of its name has between 1 and 255 bytes and its
/// length field is the length of its payload.
pub proof fn lemma_record_round_trip(before: Seq<u8>, r: RecordView, after: Seq<u8>)
    requires
        record_fits(r),
    ensures
        parse_record(before + record_wire(r) + after, before.len() as int) == parsed(
            r,
            (before.len() + record_wire(r).len()) as int,
        ),
{
    let buf = before + record_wire(r) + after;
    let fields = u16_wire(r.rtype) + u16_wire(r.class) + u32_wire(r.ttl) + u16_wire(r.rdlength);
    let end = (before.len() + name_wire(r.name).len()) as int;
    lemma_plain_name_round_trip(before, r.name, fields + r.rdata + after);
    assert(before + name_wire(r.name) + (fields + r.rdata + after) =~= buf);
    assert(fields.len() == 10);
    assert forall|i: int| 0 <= i < 10 implies buf[end + i] == fields[i] by {}
    lemma_u16_round_trip(r.rtype);
    lemma_u16_round_trip(r.class);
    lemma_u32_round_trip(r.ttl);
    lemma_u16_round_trip(r.rdlength);
    assert(u16_at(buf, end) == r.rtype) by {
        assert(buf[end] == fields[0] && buf[end + 1] == fields[1]);
    }
    assert(u16_at(buf, end + 2) == r.class) by {
        assert(buf[end + 2] == fields[2] && buf[end + 3] == fields[3]);
    }
    assert(u32_at(buf, end + 4) == r.ttl) by {
        assert(buf[end + 4] == fields[4] && buf[end + 5] == fields[5]);
        assert(buf[end + 6] == fields[6] && buf[end + 7] == fields[7]);
    }
    assert(u16_at(buf, end + 8) == r.rdlength) by {
        assert(buf[end + 8] == fields[8] && buf[end + 9] == fields[9]);
    }
    assert(buf.subrange(end + 10, end + 10 + r.rdlength) =~= r.rdata);
    assert(record_wire(r).len() == name_wire(r.name).len() + 10 + r.rdata.len());
}

/// Records that were written one after the other are read back unchanged
/// wherever they stand in a buffer, if each of them is read back alone.
pub proof fn lemma_records_round_trip(before: Seq<u8>, records: Seq<RecordView>, after: Seq<u8>)
    requires
        records_fit(records),
    ensures
        parse_records(before + records_wire(records) + after, before.len() as int, records.len())
            == parsed(records, (before.len() + records_wire(records).len()) as int),
    decreases records.len(),
{
    if records.len() == 0 {
        assert(records =~= Seq::<RecordView>::empty());
    } else {
        let r = records[0];
        let rest = records.drop_first();
        let one = record_wire(r);
        let others = records_wire(rest);
        lemma_records_fit_apart(records);
        assert(records_wire(records) == one + others);
        lemma_record_round_trip(before, r, others + after);
        lemma_records_round_trip(before + one, rest, after);
        lemma_records_join(before, one, others, after, r, rest);
        assert(seq![r] + rest =~= records);
    }
}

/// Questions at the start of a buffer are read back unchanged.
proof fn lemma_questions_first(questions: Seq<QuestionView>, after: Seq<u8>)
    requires
        questions_fit(questions),
    ensures
        parse_questions(questions_wire(questions) + after, 0, questions.len()) == parsed(
            questions,
            questions_wire(questions).len() as int,
        ),
{
    lemma_questions_round_trip(Seq::empty(), questions, after);
    assert(Seq::<u8>::empty() + questions_wire(questions) + after =~= questions_wire(questions)
        + after);
}

/// Records at the start of a buffer are read back unchanged.
proof fn lemma_records_first(records: Seq<RecordView>, after: Seq<u8>)
    requires
        records_fit(records),
    ensures
        parse_records(records_wire(records) + after, 0, records.len()) == parsed(
            records,
            records_wire(records).len() as int,
        ),
{
    lemma_records_round_trip(Seq::empty(), records, after);
    assert(Seq::<u8>::empty() + records_wire(records) + after =~= records_wire(records) + after);
}

/// A message begins with its header, and its other sections follow the
/// twelve bytes of the header.
proof fn lemma_message_sections(header: DNSHeader, body: Seq<u8>)
    requires
        header.wf(),
    ensures
        (header.wire() + body).len() >= HEADER_LEN,
        DNSHeader::from_wire(header.wire() + body) == header,
        (header.wire() + body).skip(HEADER_LEN as int) == body,
{
    lemma_header_round_trip(header, body);
    assert((header.wire() + body).skip(HEADER_LEN as int) =~= body);
}

/// Behind two sections stands the third.
proof fn lemma_sections_follow(first: Seq<u8>, second: Seq<u8>, third: Seq<u8>)
    ensures
        (first + (second + third)).skip((first.len() + second.len()) as int) == third,
        (second + third).skip(second.len() as int) == third,
{
    assert((first + (second + third)).skip((first.len() + second.len()) as int) =~= third);
    assert((second + third).skip(second.len() as int) =~= third);
}

/// A buffer that begins with the header of a query and goes on with its
/// questions decodes to that query.
proof fn lemma_query_of_sections(buf: Seq<u8>, q: QueryView, end: int)
    requires
        buf.len() >= HEADER_LEN,
        DNSHeader::from_wire(buf) == q.header,
        q.wf(),
        parse_questions(buf.skip(HEADER_LEN as int), 0, q.questions.len()) == parsed(
            q.questions,
            end,
        ),
    ensures
        parse_query(buf) == Ok::<_, CoreError>(q),
{
}

/// A buffer that begins with the header of a response and goes on with its
/// questions and then its answers decodes to that response.
proof fn lemma_response_of_sections(buf: Seq<u8>, r: ResponseView, mid: int, end: int)
    requires
        buf.len() >= HEADER_LEN,
        DNSHeader::from_wire(buf) == r.header,
        r.wf(),
        parse_questions(buf.skip(HEADER_LEN as int), 0, r.questions.len()) == parsed(
            r.questions,
            mid,
        ),
        parse_records(buf.skip(HEADER_LEN + mid), 0, r.answers.len()) == parsed(r.answers, end),
    ensures
        parse_response(buf) == Ok::<_, CoreError>(r),
{
}

/// An encoded query counts the questions that follow its header, and an
/// encoded response its questions and its answers, whatever counts the
/// header of the message holds.
pub proof fn lemma_encoded_counts(q: QueryView, r: ResponseView)
    requires
        q.questions.len() <= MAX_COUNT,
        r.questions.len() <= MAX_COUNT,
        r.answers.len() <= MAX_COUNT,
    ensures
        u16_at(query_wire(q), 4) == q.questions.len(),
        u16_at(response_wire(r), 4) == r.questions.len(),
        u16_at(response_wire(r), 6) == r.answers.len(),
{
    lemma_counts_at(q.framed_header(), questions_wire(q.questions));
    lemma_counts_at(r.framed_header(), questions_wire(r.questions) + records_wire(r.answers));
    assert(response_wire(r) =~= r.framed_header().wire() + (questions_wire(r.questions)
        + records_wire(r.answers)));
}

/// A query that was encoded is decoded to the same query with the header
/// that counts its questions, whatever follows it in the datagram, if the
/// flag fields of its header fit their bits, it holds at most 65535
/// questions, and each label has between 1 and 191 bytes. Where the header
/// counted the questions before, the query is decoded unchanged.
pub proof fn lemma_query_round_trip(q: QueryView, after: Seq<u8>)
    requires
        q.header.wf(),
        q.questions.len() <= MAX_COUNT,
        questions_fit(q.questions),
    ensures
        parse_query(query_wire(q) + after) == Ok::<_, CoreError>(q.framed()),
        q.wf() ==> q.framed() == q,
{
    let buf = query_wire(q) + after;
    let head = q.framed_header();
    let asked = questions_wire(q.questions);
    lemma_message_sections(head, asked + after);
    lemma_regroup(Seq::empty(), head.wire(), asked, after);
    assert(buf =~= head.wire() + (asked + after));
    lemma_questions_first(q.questions, after);
    lemma_query_of_sections(buf, q.framed(), asked.len() as int);
}

/// A response that was encoded is decoded to the same response with the
/// header that counts its questions and answers, whatever follows it in
/// the datagram, if the flag fields of its header fit their bits, it holds
/// at most 65535 questions and answers, each label of a question has
/// between 1 and 191 bytes, each label of an answer has between 1 and 255
/// bytes, and each answer announces the length of its payload. Where the
/// header counted the questions and answers before, the response is
/// decoded unchanged.
pub proof fn lemma_response_round_trip(r: ResponseView, after: Seq<u8>)
    requires
        r.header.wf(),
        r.questions.len() <= MAX_COUNT,
        r.answers.len() <= MAX_COUNT,
        questions_fit(r.questions),
        records_fit(r.answers),
    ensures
        parse_response(response_wire(r) + after) == Ok::<_, CoreError>(r.framed()),
        r.wf() ==> r.framed() == r,
{
    let buf = response_wire(r) + after;
    let head = r.framed_header();
    let asked = questions_wire(r.questions);
    let given = records_wire(r.answers);
    let body = asked + (given + after);
    assert(buf == head.wire() + body) by {
        lemma_regroup(head.wire(), asked, given, after);
        assert(head.wire() + (asked + (given + after)) =~= head.wire() + asked + (given + after));
    }
    lemma_message_sections(head, body);
    lemma_sections_follow(head.wire(), asked, given + after);
    lemma_questions_first(r.questions, given + after);
    lemma_records_first(r.answers, after);
    assert(r.framed().wf()) by {
        assert forall|i: int| 0 <= i < r.answers.len() implies (#[trigger] r.answers[i]).wf() by {
            assert(record_fits(r.answers[i]));
        }
    }
    lemma_response_of_sections(buf, r.framed(), asked.len() as int, given.len() as int);
}

} // verus!
