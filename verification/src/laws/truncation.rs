//! What was written and then cut short is not read.

use crate::error::{rejected, DecodeError, Stage};
use crate::header::{HEADER_LEN, MAX_COUNT};
use crate::laws::round_trip::{
    lemma_header_round_trip, lemma_name_round_trip, lemma_plain_name_round_trip,
    lemma_question_round_trip, lemma_questions_round_trip, lemma_record_round_trip,
};
use crate::message::{
    failed, parse_query, parse_response, query_wire, response_wire, QueryView, ResponseView,
};
use crate::name::{
    label_wire, name_fits, name_wire, parse_name, parse_plain_name, MAX_LABEL, MAX_QUESTION_LABEL,
};
use crate::question::{
    parse_question, parse_questions, question_wire, questions_fit, questions_wire, QuestionView,
};
use crate::record::{
    parse_record, parse_records, record_fits, record_wire, records_fit, records_wire, RecordView,
};
use crate::wire::{lemma_u16_round_trip, u16_wire, u32_wire};
use vstd::prelude::*;
use vstd::utf8::encode_utf8;

verus! {

/// A name of the question section that was written and then cut short
/// is not read: parsing it fails as truncated, wherever in the name the cut
/// falls.
pub proof fn lemma_truncated_name(
    before: Seq<u8>,
    name: Seq<Seq<char>>,
    cut: int,
    jumped: bool,
)
    requires
        name_fits(name, MAX_QUESTION_LABEL as int),
        0 <= cut < name_wire(name).len(),
    ensures
        parse_name(before + name_wire(name).take(cut), before.len() as int, jumped) == rejected::<
            Seq<Seq<char>>,
        >(DecodeError::TruncatedMessage),
    decreases name.len(),
{
    let buf = before + name_wire(name).take(cut);
    if cut > 0 && name.len() > 0 {
        let label = name[0];
        let rest = name.drop_first();
        let bytes = encode_utf8(label);
        if cut >= 1 + bytes.len() {
            let front = before + label_wire(label);
            let left = cut - 1 - bytes.len();
            assert(front + name_wire(rest).take(left) =~= buf);
            lemma_truncated_name(front, rest, left, jumped);
        }
    }
}

/// A name of the answer section that was written and then cut short
/// is not read: parsing it fails as truncated, wherever in the name the cut
/// falls.
pub proof fn lemma_truncated_plain_name(
    before: Seq<u8>,
    name: Seq<Seq<char>>,
    cut: int,
)
    requires
        name_fits(name, MAX_LABEL as int),
        0 <= cut < name_wire(name).len(),
    ensures
        parse_plain_name(before + name_wire(name).take(cut), before.len() as int) == rejected::<
            Seq<Seq<char>>,
        >(DecodeError::TruncatedMessage),
    decreases name.len(),
{
    let buf = before + name_wire(name).take(cut);
    if cut > 0 && name.len() > 0 {
        let label = name[0];
        let rest = name.drop_first();
        let bytes = encode_utf8(label);
        if cut >= 1 + bytes.len() {
            let front = before + label_wire(label);
            let left = cut - 1 - bytes.len();
            assert(front + name_wire(rest).take(left) =~= buf);
            lemma_truncated_plain_name(front, rest, left);
        }
    }
}

/// A question that was written and then cut short is not read: parsing it
/// fails as truncated, wherever the cut falls.
pub proof fn lemma_truncated_question(before: Seq<u8>, q: QuestionView, cut: int)
    requires
        name_fits(q.name, MAX_QUESTION_LABEL as int),
        0 <= cut < question_wire(q).len(),
    ensures
        parse_question(before + question_wire(q).take(cut), before.len() as int) == rejected::<
            QuestionView,
        >(DecodeError::TruncatedMessage),
{
    let buf = before + question_wire(q).take(cut);
    let written = name_wire(q.name);
    let fields = u16_wire(q.qtype) + u16_wire(q.qclass);
    if cut < written.len() {
        assert(before + written.take(cut) =~= buf);
        lemma_truncated_name(before, q.name, cut, false);
    } else {
        let left = fields.take(cut - written.len());
        assert(before + written + left =~= buf);
        lemma_name_round_trip(before, q.name, left, false);
    }
}

/// Questions that were written one after the other and then cut short are
/// not read: parsing as many as were written fails as truncated, wherever
/// the cut falls.
pub proof fn lemma_truncated_questions(before: Seq<u8>, questions: Seq<QuestionView>, cut: int)
    requires
        questions_fit(questions),
        0 <= cut < questions_wire(questions).len(),
    ensures
        parse_questions(
            before + questions_wire(questions).take(cut),
            before.len() as int,
            questions.len(),
        ) == rejected::<Seq<QuestionView>>(DecodeError::TruncatedMessage),
    decreases questions.len(),
{
    let buf = before + questions_wire(questions).take(cut);
    if questions.len() > 0 {
        let q = questions[0];
        let rest = questions.drop_first();
        let one = question_wire(q);
        if cut < one.len() {
            assert(before + one.take(cut) =~= buf);
            lemma_truncated_question(before, q, cut);
        } else {
            let left = cut - one.len();
            let front = before + one;
            assert(before + one + questions_wire(rest).take(left) =~= buf);
            lemma_question_round_trip(before, q, questions_wire(rest).take(left));
            lemma_truncated_questions(front, rest, left);
        }
    }
}

/// A record that was written and then cut short is not read: parsing it
/// fails as truncated, whether the cut falls in the name, in the fixed
/// fields or in the payload.
pub proof fn lemma_truncated_record(before: Seq<u8>, r: RecordView, cut: int)
    requires
        record_fits(r),
        0 <= cut < record_wire(r).len(),
    ensures
        parse_record(before + record_wire(r).take(cut), before.len() as int) == rejected::<
            RecordView,
        >(DecodeError::TruncatedMessage),
{
    let buf = before + record_wire(r).take(cut);
    let written = name_wire(r.name);
    let fields = u16_wire(r.rtype) + u16_wire(r.class) + u32_wire(r.ttl) + u16_wire(r.rdlength);
    if cut < written.len() {
        assert(before + written.take(cut) =~= buf);
        lemma_truncated_plain_name(before, r.name, cut);
    } else {
        let left = (fields + r.rdata).take(cut - written.len());
        assert(before + written + left =~= buf);
        lemma_plain_name_round_trip(before, r.name, left);
        if cut - written.len() >= 10 {
            lemma_u16_round_trip(r.rdlength);
        }
    }
}

/// Records that were written one after the other and then cut short are
/// not read: parsing as many as were written fails as truncated, wherever
/// the cut falls.
pub proof fn lemma_truncated_records(before: Seq<u8>, records: Seq<RecordView>, cut: int)
    requires
        records_fit(records),
        0 <= cut < records_wire(records).len(),
    ensures
        parse_records(before + records_wire(records).take(cut), before.len() as int, records.len())
            == rejected::<Seq<RecordView>>(DecodeError::TruncatedMessage),
    decreases records.len(),
{
    let buf = before + records_wire(records).take(cut);
    if records.len() > 0 {
        let r = records[0];
        let rest = records.drop_first();
        let one = record_wire(r);
        if cut < one.len() {
            assert(before + one.take(cut) =~= buf);
            lemma_truncated_record(before, r, cut);
        } else {
            let left = cut - one.len();
            let front = before + one;
            assert(before + one + records_wire(rest).take(left) =~= buf);
            lemma_record_round_trip(before, r, records_wire(rest).take(left));
            lemma_truncated_records(front, rest, left);
        }
    }
}

/// A query of at most 65535 questions that was encoded and then cut short
/// is not decoded: decoding fails as truncated, in the header where the cut
/// falls in the first twelve bytes and in the questions where it falls
/// behind them.
pub proof fn lemma_truncated_query(q: QueryView, cut: int)
    requires
        q.header.wf(),
        q.questions.len() <= MAX_COUNT,
        questions_fit(q.questions),
        0 <= cut < query_wire(q).len(),
    ensures
        parse_query(query_wire(q).take(cut)) == Err::<QueryView, _>(
            failed(
                if cut < HEADER_LEN {
                    Stage::Header
                } else {
                    Stage::Question
                },
                DecodeError::TruncatedMessage,
            ),
        ),
{
    let buf = query_wire(q).take(cut);
    let asked = questions_wire(q.questions);
    if cut >= HEADER_LEN {
        let left = asked.take(cut - HEADER_LEN);
        lemma_header_round_trip(q.framed_header(), left);
        lemma_truncated_questions(Seq::empty(), q.questions, cut - HEADER_LEN);
        assert(Seq::<u8>::empty() + left =~= buf.skip(HEADER_LEN as int));
    }
}

/// A response of at most 65535 questions and answers that was encoded and
/// then cut short is not decoded: decoding fails as truncated, in the
/// header, the questions or the answers, whichever the cut falls in.
pub proof fn lemma_truncated_response(r: ResponseView, cut: int)
    requires
        r.header.wf(),
        r.questions.len() <= MAX_COUNT,
        r.answers.len() <= MAX_COUNT,
        questions_fit(r.questions),
        records_fit(r.answers),
        0 <= cut < response_wire(r).len(),
    ensures
        parse_response(response_wire(r).take(cut)) == Err::<ResponseView, _>(
            failed(
                if cut < HEADER_LEN {
                    Stage::Header
                } else if cut < HEADER_LEN + questions_wire(r.questions).len() {
                    Stage::Question
                } else {
                    Stage::Record
                },
                DecodeError::TruncatedMessage,
            ),
        ),
{
    let buf = response_wire(r).take(cut);
    let asked = questions_wire(r.questions);
    let given = records_wire(r.answers);
    if cut >= HEADER_LEN {
        let left = (asked + given).take(cut - HEADER_LEN);
        lemma_header_round_trip(r.framed_header(), left);
        if cut < HEADER_LEN + asked.len() {
            lemma_truncated_questions(Seq::empty(), r.questions, cut - HEADER_LEN);
            assert(Seq::<u8>::empty() + asked.take(cut - HEADER_LEN) =~= buf.skip(
                HEADER_LEN as int,
            ));
        } else {
            let rest = given.take(cut - HEADER_LEN - asked.len());
            lemma_questions_round_trip(Seq::empty(), r.questions, rest);
            assert(Seq::<u8>::empty() + asked + rest =~= buf.skip(HEADER_LEN as int));
            lemma_truncated_records(Seq::empty(), r.answers, cut - HEADER_LEN - asked.len());
            assert(Seq::<u8>::empty() + rest =~= buf.skip(HEADER_LEN + asked.len()));
        }
    }
}

} // verus!
