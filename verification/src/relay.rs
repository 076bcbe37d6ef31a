use crate::error::CoreError;
use crate::header::{DNSHeader, MAX_COUNT};
use crate::message::{
    parse_response, queries_of, query_wire, DnsQuery, DnsResponse, QueryView, ResponseView,
};
use crate::record::{records_of, RecordView, ResourceRecord};
use vstd::prelude::*;

verus! {

/// The views of a sequence of responses.
pub open spec fn responses_of(responses: Seq<DnsResponse>) -> Seq<ResponseView> {
    Seq::new(responses.len(), |i: int| responses[i]@)
}

/// The answers of all the replies, those of the first reply first.
pub open spec fn all_answers(replies: Seq<ResponseView>) -> Seq<RecordView>
    decreases replies.len(),
{
    if replies.len() == 0 {
        Seq::empty()
    } else {
        replies[0].answers + all_answers(replies.drop_first())
    }
}

/// The response for the client: the header of the first reply with the
/// counts set to the questions of the query and to all the answers, the
/// questions of the query, and the answers of the replies in the order of
/// the replies. There is none without a reply, nor where a count does not
/// fit its 16 bits.
pub open spec fn merged(query: QueryView, replies: Seq<ResponseView>) -> Option<ResponseView> {
    let answers = all_answers(replies);
    if replies.len() == 0 || query.questions.len() > MAX_COUNT || answers.len() > MAX_COUNT {
        None
    } else {
        Some(
            ResponseView {
                header: DNSHeader {
                    qdcount: query.questions.len() as u16,
                    ancount: answers.len() as u16,
                    ..replies[0].header
                },
                questions: query.questions,
                answers,
            },
        )
    }
}

/// Merges the replies to the single questions of `query` into the response
/// for the client. A merged response holds no more questions or answers
/// than its counts can say, so it can be encoded.
pub fn merge(query: DnsQuery, replies: Vec<DnsResponse>) -> (r: Option<DnsResponse>)
    ensures
        match r {
            Some(response) => merged(query@, responses_of(replies@)) == Some(response@),
            None => merged(query@, responses_of(replies@)) is None,
        },
        r matches Some(response) ==> response.questions.len() <= MAX_COUNT
            && response.answers.len() <= MAX_COUNT,
{
    if replies.len() == 0 || query.questions.len() > MAX_COUNT {
        return None;
    }
    let ghost all = responses_of(replies@);
    let mut header = replies[0].header;
    let mut answers: Vec<ResourceRecord> = Vec::new();
    for reply in it: replies
        invariant
            all == responses_of(replies@),
            answers.len() <= MAX_COUNT,
            records_of(answers@) == all_answers(all.take(it.index() as int)),
    {
        let ghost came = reply@;
        let mut reply = reply;
        proof {
            let sooner = all.take(it.index() as int);
            let later = all.skip(it.index() + 1);
            assert(sooner + seq![came] =~= all.take(it.index() + 1));
            assert(all.take(it.index() + 1) + later =~= all);
            assert(all_answers(seq![came].drop_first()) =~= Seq::<RecordView>::empty());
            lemma_all_answers_concat(sooner, seq![came]);
            lemma_all_answers_concat(all.take(it.index() + 1), later);
        }
        if reply.answers.len() > MAX_COUNT - answers.len() {
            return None;
        }
        answers.append(&mut reply.answers);
    }
    assert(all.take(all.len() as int) =~= all);
    header.qdcount = query.questions.len() as u16;
    header.ancount = answers.len() as u16;
    Some(DnsResponse { header, questions: query.questions, answers })
}

/// The answers of two runs of replies, one after the other, are the
/// answers of the first run and then those of the second.
pub proof fn lemma_all_answers_concat(first: Seq<ResponseView>, second: Seq<ResponseView>)
    ensures
        all_answers(first + second) == all_answers(first) + all_answers(second),
    decreases first.len(),
{
    if first.len() > 0 {
        lemma_all_answers_concat(first.drop_first(), second);
        assert((first + second).drop_first() =~= first.drop_first() + second);
    }
}

/// What one exchange with the upstream resolver came to.
#[derive(Debug)]
pub enum Outcome {
    /// The datagram that the resolver sent back.
    Reply(Vec<u8>),
    /// The request could not be sent.
    SendFailed,
    /// No reply could be received.
    ReceiveFailed,
    /// No reply came in time.
    TimedOut,
}

/// An outcome as the contracts see it.
pub enum OutcomeView {
    Reply(Seq<u8>),
    SendFailed,
    ReceiveFailed,
    TimedOut,
}

impl View for Outcome {
    type V = OutcomeView;

    open spec fn view(&self) -> OutcomeView {
        match self {
            Outcome::Reply(datagram) => OutcomeView::Reply(datagram@),
            Outcome::SendFailed => OutcomeView::SendFailed,
            Outcome::ReceiveFailed => OutcomeView::ReceiveFailed,
            Outcome::TimedOut => OutcomeView::TimedOut,
        }
    }
}

/// What the relay does after an outcome was delivered.
#[derive(Debug)]
pub enum Step {
    /// Replies are still awaited.
    Pending,
    /// Every reply came: this is the response for the client.
    Merged(DnsResponse),
    /// The request failed. Nothing is sent to the client.
    Failed(CoreError),
    /// The outcome belongs to no open exchange and changed nothing.
    Ignored,
}

/// A step as the contracts see it.
pub enum StepView {
    Pending,
    Merged(ResponseView),
    Failed(CoreError),
    Ignored,
}

impl View for Step {
    type V = StepView;

    open spec fn view(&self) -> StepView {
        match self {
            Step::Pending => StepView::Pending,
            Step::Merged(response) => StepView::Merged(response@),
            Step::Failed(e) => StepView::Failed(*e),
            Step::Ignored => StepView::Ignored,
        }
    }
}

/// One client request on its way through the relay.
#[derive(Debug)]
pub enum Relay {
    /// The single questions are with the resolver; `replies[i]` holds the
    /// reply to the `i`-th question once it came.
    Forwarding { query: DnsQuery, replies: Vec<Option<DnsResponse>> },
    /// The replies were merged into the response for the client.
    Merged,
    /// The request failed.
    Failed,
}

/// A relay as the contracts see it.
pub enum RelayView {
    Forwarding { query: QueryView, replies: Seq<Option<ResponseView>> },
    Merged,
    Failed,
}

/// The views of the replies that came so far.
pub open spec fn replies_of(replies: Seq<Option<DnsResponse>>) -> Seq<Option<ResponseView>> {
    Seq::new(
        replies.len(),
        |i: int|
            match replies[i] {
                Some(reply) => Some(reply@),
                None => None,
            },
    )
}

impl View for Relay {
    type V = RelayView;

    open spec fn view(&self) -> RelayView {
        match self {
            Relay::Forwarding { query, replies } => RelayView::Forwarding {
                query: query@,
                replies: replies_of(replies@),
            },
            Relay::Merged => RelayView::Merged,
            Relay::Failed => RelayView::Failed,
        }
    }
}

/// Every reply came.
pub open spec fn complete(replies: Seq<Option<ResponseView>>) -> bool {
    forall|i: int| 0 <= i < replies.len() ==> (#[trigger] replies[i]) is Some
}

/// The replies, once every one of them came.
pub open spec fn gathered(replies: Seq<Option<ResponseView>>) -> Seq<ResponseView> {
    Seq::new(replies.len(), |i: int| replies[i]->Some_0)
}

/// The error that stands for an exchange that brought no reply.
pub open spec fn upstream_error(outcome: OutcomeView) -> CoreError {
    match outcome {
        OutcomeView::SendFailed => CoreError::UpstreamSendFailed,
        OutcomeView::ReceiveFailed => CoreError::UpstreamReceiveFailed,
        _ => CoreError::UpstreamTimeout,
    }
}

impl RelayView {
    /// The relay that has forwarded the questions of `query` and awaits a
    /// reply to each.
    pub open spec fn awaiting(query: QueryView) -> RelayView {
        RelayView::Forwarding {
            query,
            replies: Seq::new(query.questions.len(), |i: int| None::<ResponseView>),
        }
    }

    /// The relay after the outcome of the `index`-th exchange, and what is
    /// to be done. An outcome for an exchange that is not open changes
    /// nothing. An exchange that failed, or a reply that does not decode,
    /// fails the request. A reply that decodes is kept; with the last of
    /// them the replies are merged in the order of the questions.
    pub open spec fn step(self, index: int, outcome: OutcomeView) -> (RelayView, StepView) {
        match self {
            RelayView::Forwarding { query, replies } => {
                if index < 0 || index >= replies.len() || replies[index] is Some {
                    (self, StepView::Ignored)
                } else {
                    match outcome {
                        OutcomeView::Reply(datagram) => match parse_response(datagram) {
                            Err(e) => (RelayView::Failed, StepView::Failed(e)),
                            Ok(reply) => {
                                let filled = replies.update(index, Some(reply));
                                if complete(filled) {
                                    match merged(query, gathered(filled)) {
                                        Some(response) => (
                                            RelayView::Merged,
                                            StepView::Merged(response),
                                        ),
                                        None => (
                                            RelayView::Failed,
                                            StepView::Failed(CoreError::CountOverflow),
                                        ),
                                    }
                                } else {
                                    (
                                        RelayView::Forwarding { query, replies: filled },
                                        StepView::Pending,
                                    )
                                }
                            },
                        },
                        _ => (RelayView::Failed, StepView::Failed(upstream_error(outcome))),
                    }
                }
            },
            _ => (self, StepView::Ignored),
        }
    }
}

/// Tells whether every reply came.
fn all_came(replies: &Vec<Option<DnsResponse>>) -> (b: bool)
    ensures
        b == complete(replies_of(replies@)),
{
    let mut i: usize = 0;
    while i < replies.len()
        invariant
            i <= replies.len(),
            forall|j: int| 0 <= j < i ==> (#[trigger] replies_of(replies@)[j]) is Some,
        decreases replies.len() - i,
    {
        if replies[i].is_none() {
            assert(replies_of(replies@)[i as int] is None);
            return false;
        }
        i += 1;
    }
    true
}

/// Takes the replies out of their slots, in the order of the slots.
fn gather(replies: Vec<Option<DnsResponse>>) -> (out: Vec<DnsResponse>)
    requires
        complete(replies_of(replies@)),
    ensures
        responses_of(out@) == gathered(replies_of(replies@)),
{
    let ghost all = replies_of(replies@);
    let mut out: Vec<DnsResponse> = Vec::new();
    for slot in it: replies
        invariant
            all == replies_of(replies@),
            complete(all),
            out.len() == it.index(),
            forall|j: int| 0 <= j < out.len() ==> all[j] == Some((#[trigger] out[j])@),
    {
        assert(all[it.index() as int] is Some);
        if let Some(reply) = slot {
            out.push(reply);
        }
    }
    out
}

impl Relay {
    /// Takes up the query of a client: splits it into its single
    /// questions and encodes each as the datagram for the resolver, in the
    /// order of the questions. A query without a question is refused.
    pub fn begin(query: DnsQuery) -> (r: Result<(Relay, Vec<Vec<u8>>), CoreError>)
        ensures
            match r {
                Ok((relay, requests)) => {
                    &&& query@.questions.len() > 0
                    &&& relay@ == RelayView::awaiting(query@)
                    &&& requests.len() == query@.questions.len()
                    &&& forall|i: int|
                        0 <= i < requests.len() ==> (#[trigger] requests[i])@ == query_wire(
                            query@.single(i),
                        )
                },
                Err(e) => e == CoreError::NoQuestion && query@.questions.len() == 0,
            },
    {
        let mut query = query;
        if query.questions.len() == 0 {
            return Err(CoreError::NoQuestion);
        }
        let parts = query.split_questions();
        assert(parts.len() == query@.split().len());
        let mut requests: Vec<Vec<u8>> = Vec::new();
        let mut replies: Vec<Option<DnsResponse>> = Vec::new();
        let mut i: usize = 0;
        while i < parts.len()
            invariant
                i <= parts.len(),
                requests.len() == i,
                replies.len() == i,
                parts.len() == query@.questions.len(),
                queries_of(parts@) == query@.split(),
                forall|j: int|
                    0 <= j < i ==> (#[trigger] requests[j])@ == query_wire(query@.single(j)),
                forall|j: int| 0 <= j < i ==> (#[trigger] replies[j]) is None,
            decreases parts.len() - i,
        {
            assert(queries_of(parts@)[i as int] == query@.single(i as int));
            assert(parts[i as int]@.questions.len() == parts[i as int].questions.len());
            requests.push(parts[i].serialize());
            replies.push(None);
            i += 1;
        }
        assert(replies_of(replies@) =~= Seq::new(
            query@.questions.len(),
            |i: int| None::<ResponseView>,
        ));
        Ok((Relay::Forwarding { query, replies }, requests))
    }

    /// Delivers the outcome of the `index`-th exchange and says what is to
    /// be done next. A merged response holds no more questions or answers
    /// than its counts can say, so it can be encoded.
    pub fn deliver(self, index: usize, outcome: Outcome) -> (r: (Relay, Step))
        ensures
            (r.0@, r.1@) == self@.step(index as int, outcome@),
            r.1 matches Step::Merged(response) ==> response.questions.len() <= MAX_COUNT
                && response.answers.len() <= MAX_COUNT,
    {
        match self {
            Relay::Forwarding { query, replies } => {
                let mut replies = replies;
                if index >= replies.len() || replies[index].is_some() {
                    return (Relay::Forwarding { query, replies }, Step::Ignored);
                }
                match outcome {
                    Outcome::Reply(datagram) => match DnsResponse::deserialize(
                        datagram.as_slice(),
                    ) {
                        Err(e) => (Relay::Failed, Step::Failed(e)),
                        Ok(reply) => {
                            let ghost before = replies_of(replies@);
                            let ghost came = reply@;
                            replies.set(index, Some(reply));
                            assert(replies_of(replies@) =~= before.update(
                                index as int,
                                Some(came),
                            ));
                            if all_came(&replies) {
                                match merge(query, gather(replies)) {
                                    Some(response) => (Relay::Merged, Step::Merged(response)),
                                    None => (Relay::Failed, Step::Failed(CoreError::CountOverflow)),
                                }
                            } else {
                                (Relay::Forwarding { query, replies }, Step::Pending)
                            }
                        },
                    },
                    Outcome::SendFailed => (
                        Relay::Failed,
                        Step::Failed(CoreError::UpstreamSendFailed),
                    ),
                    Outcome::ReceiveFailed => (
                        Relay::Failed,
                        Step::Failed(CoreError::UpstreamReceiveFailed),
                    ),
                    Outcome::TimedOut => (Relay::Failed, Step::Failed(CoreError::UpstreamTimeout)),
                }
            },
            Relay::Merged => (Relay::Merged, Step::Ignored),
            Relay::Failed => (Relay::Failed, Step::Ignored),
        }
    }
}

} // verus!
