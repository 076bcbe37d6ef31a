use crate::error::{parsed, rejected, DecodeError, Parse};
use crate::name::{
    lemma_parse_name_end, name_fits, name_of, name_wire, parse_name, read_name, write_name,
    MAX_QUESTION_LABEL,
};
use crate::wire::{get_u16, owned_bytes, put_u16, u16_at, u16_wire};
use vstd::prelude::*;

verus! {

/// One entry of the question section.
#[derive(Debug)]
pub struct Question {
    pub labels: Vec<String>,
    pub qtype: u16,
    pub qclass: u16,
}

/// A question as the contracts see it: the labels as text, and the two
/// fixed fields.
pub struct QuestionView {
    pub name: Seq<Seq<char>>,
    pub qtype: u16,
    pub qclass: u16,
}

impl View for Question {
    type V = QuestionView;

    open spec fn view(&self) -> QuestionView {
        QuestionView { name: name_of(self.labels@), qtype: self.qtype, qclass: self.qclass }
    }
}

impl Clone for Question {
    /// A copy with the same labels, type and class.
    fn clone(&self) -> (copy: Question)
        ensures
            copy@ == self@,
    {
        let labels = self.labels.clone();
        Question { labels, qtype: self.qtype, qclass: self.qclass }
    }
}

/// The views of a sequence of questions.
pub open spec fn questions_of(questions: Seq<Question>) -> Seq<QuestionView> {
    Seq::new(questions.len(), |i: int| questions[i]@)
}

/// What parsing questions gives: the questions and the position behind the
/// last of them.
pub type QuestionsParse = Parse<Seq<QuestionView>>;

/// A question on the wire: the name in full, then type and class.
pub open spec fn question_wire(q: QuestionView) -> Seq<u8> {
    name_wire(q.name) + u16_wire(q.qtype) + u16_wire(q.qclass)
}

/// Questions on the wire, one after the other.
pub open spec fn questions_wire(questions: Seq<QuestionView>) -> Seq<u8>
    decreases questions.len(),
{
    if questions.len() == 0 {
        Seq::empty()
    } else {
        question_wire(questions[0]) + questions_wire(questions.drop_first())
    }
}

/// Parses the question at `pos` of a message without its header: a name,
/// then type and class behind the place where the name was written.
pub open spec fn parse_question(buf: Seq<u8>, pos: int) -> Parse<QuestionView> {
    match parse_name(buf, pos, false) {
        Err(e) => Err(e),
        Ok((name, end)) => if end + 4 > buf.len() {
            Err(DecodeError::TruncatedMessage)
        } else {
            Ok(
                (
                    QuestionView { name, qtype: u16_at(buf, end), qclass: u16_at(buf, end + 2) },
                    end + 4,
                ),
            )
        },
    }
}

/// Parses `count` questions from `pos` on.
pub open spec fn parse_questions(buf: Seq<u8>, pos: int, count: nat) -> QuestionsParse
    decreases count,
{
    if count == 0 {
        Ok((Seq::empty(), pos))
    } else {
        match parse_question(buf, pos) {
            Err(e) => Err(e),
            Ok((q, next)) => match parse_questions(buf, next, (count - 1) as nat) {
                Err(e) => Err(e),
                Ok((rest, end)) => Ok((seq![q] + rest, end)),
            },
        }
    }
}

/// Every name among the questions is read back by the question section:
/// each label has between 1 and 191 bytes.
pub open spec fn questions_fit(questions: Seq<QuestionView>) -> bool {
    forall|i: int|
        0 <= i < questions.len() ==> name_fits(
            (#[trigger] questions[i]).name,
            MAX_QUESTION_LABEL as int,
        )
}

/// Parsing gives as many questions as were asked for, and ends inside the
/// buffer at or behind the place where it began.
pub proof fn lemma_parse_questions_len(buf: Seq<u8>, pos: int, count: nat)
    requires
        0 <= pos <= buf.len(),
    ensures
        parse_questions(buf, pos, count) matches Ok((questions, end)) ==> questions.len() == count
            && pos <= end <= buf.len(),
    decreases count,
{
    if count > 0 {
        lemma_parse_name_end(buf, pos, false);
        match parse_question(buf, pos) {
            Ok((q, next)) => {
                lemma_parse_questions_len(buf, next, (count - 1) as nat);
            },
            Err(e) => {},
        }
    }
}

/// What the whole parse comes to once `prefix` has been read and `rest` is
/// what parsing gives from the current position on.
spec fn resumed(prefix: Seq<QuestionView>, rest: QuestionsParse) -> QuestionsParse {
    match rest {
        Ok((questions, end)) => Ok((prefix + questions, end)),
        Err(e) => Err(e),
    }
}

impl Question {
    /// Parses `qcount` questions from the start of `buffer`, which holds a
    /// message from the end of its header on, and gives them back with the
    /// position behind the last one. A compression pointer counts from the
    /// start of the message, twelve bytes before `buffer`.
    pub fn deserialize(buffer: &[u8], qcount: u16) -> (r: Result<
        (Vec<Question>, usize),
        DecodeError,
    >)
        ensures
            match r {
                Ok((questions, end)) => parse_questions(buffer@, 0, qcount as nat) == parsed(
                    questions_of(questions@),
                    end as int,
                ),
                Err(e) => parse_questions(buffer@, 0, qcount as nat) == rejected::<
                    Seq<QuestionView>,
                >(e),
            },
            r matches Ok((questions, end)) ==> questions.len() == qcount && end <= buffer@.len(),
    {
        proof {
            lemma_parse_questions_len(buffer@, 0, qcount as nat);
        }
        let ghost buf = buffer@;
        let ghost goal = parse_questions(buf, 0, qcount as nat);
        let mut questions: Vec<Question> = Vec::new();
        let mut pos: usize = 0;
        let mut done: u16 = 0;
        while done < qcount
            invariant
                done <= qcount,
                buf == buffer@,
                goal == parse_questions(buf, 0, qcount as nat),
                goal == resumed(
                    questions_of(questions@),
                    parse_questions(buf, pos as int, (qcount - done) as nat),
                ),
            decreases qcount - done,
        {
            let ghost before = questions_of(questions@);
            let (labels, end) = match read_name(buffer, pos) {
                Ok(found) => found,
                Err(e) => {
                    return Err(e);
                },
            };
            if buffer.len() < 4 || end > buffer.len() - 4 {
                return Err(DecodeError::TruncatedMessage);
            }
            let qtype = get_u16(buffer, end);
            let qclass = get_u16(buffer, end + 2);
            let question = Question { labels, qtype, qclass };
            proof {
                match parse_questions(buf, end + 4, (qcount - done - 1) as nat) {
                    Ok((qs, e)) => {
                        assert(before.push(question@) + qs =~= before + (seq![question@] + qs));
                    },
                    Err(e) => {},
                }
            }
            questions.push(question);
            assert(questions_of(questions@) =~= before.push(question@));
            pos = end + 4;
            done += 1;
        }
        Ok((questions, pos))
    }

    /// Writes the question in full: each label behind its length byte, the
    /// terminating zero, then type and class. No compression is written.
    pub fn serialize(&self) -> (bytes: Vec<u8>)
        ensures
            bytes@ == question_wire(self@),
    {
        let mut buffer: Vec<u8> = Vec::new();
        write_name(&mut buffer, &self.labels);
        put_u16(&mut buffer, self.qtype);
        put_u16(&mut buffer, self.qclass);
        owned_bytes(&buffer)
    }
}

} // verus!
