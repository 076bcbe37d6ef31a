//! Splitting a query and merging the replies: nothing is lost, the order
//! of the questions is kept, and the order of arrival does not matter.

use crate::error::CoreError;
use crate::header::{DNSHeader, MAX_COUNT};
use crate::message::{parse_response, QueryView, ResponseView};
use crate::question::QuestionView;
use crate::record::RecordView;
use crate::relay::{
    all_answers, complete, gathered, lemma_all_answers_concat, merged, upstream_error,
    OutcomeView, RelayView, StepView,
};
use vstd::prelude::*;
use vstd::set_lib::{lemma_int_range, lemma_len_subset, lemma_subset_equality, set_int_range};

verus! {

/// The questions of the queries, those of the first query first.
pub open spec fn all_questions(queries: Seq<QueryView>) -> Seq<QuestionView>
    decreases queries.len(),
{
    if queries.len() == 0 {
        Seq::empty()
    } else {
        queries[0].questions + all_questions(queries.drop_first())
    }
}

/// The queries from the `k`-th on of a split hold the questions from the
/// `k`-th on.
proof fn lemma_split_from(q: QueryView, k: int)
    requires
        0 <= k <= q.questions.len(),
    ensures
        all_questions(q.split().skip(k)) == q.questions.skip(k),
    decreases q.questions.len() - k,
{
    let parts = q.split().skip(k);
    if k < q.questions.len() {
        lemma_split_from(q, k + 1);
        assert(parts.drop_first() =~= q.split().skip(k + 1));
    }
}

/// Splitting loses and reorders nothing: there is one query for each
/// question, the `i`-th holds the `i`-th question alone under the header of
/// the query with a question count of one, and the questions of all of
/// them, taken in order, are the questions of the query.
pub proof fn lemma_split_covers_questions(q: QueryView)
    ensures
        q.split().len() == q.questions.len(),
        forall|i: int|
            0 <= i < q.questions.len() ==> (#[trigger] q.split()[i]).questions == seq![
                q.questions[i],
            ] && q.split()[i].header == (DNSHeader { qdcount: 1, ..q.header }) && q.split()[i].wf(),
        all_questions(q.split()) == q.questions,
{
    lemma_split_from(q, 0);
    assert(q.split().skip(0) =~= q.split());
}

/// The place among all the answers at which those of the `i`-th reply
/// begin: behind the answers of the replies before it.
pub open spec fn answers_before(replies: Seq<ResponseView>, i: int) -> int {
    all_answers(replies.take(i)).len() as int
}

/// The answers that stand among `answers` in the places of the `i`-th
/// reply.
pub open spec fn answers_at(
    answers: Seq<RecordView>,
    replies: Seq<ResponseView>,
    i: int,
) -> Seq<RecordView> {
    answers.subrange(
        answers_before(replies, i),
        answers_before(replies, i) + replies[i].answers.len(),
    )
}

/// Splitting a query, getting one reply for each single question and
/// merging the replies gives a response that asks the questions of the
/// query, counts them, and holds the answers of the replies in the order of
/// the questions: those to the `i`-th question stand behind all the answers
/// to the questions before it.
pub proof fn lemma_split_merge(query: QueryView, replies: Seq<ResponseView>)
    requires
        replies.len() == query.split().len(),
        replies.len() >= 1,
        query.questions.len() <= MAX_COUNT,
        all_answers(replies).len() <= MAX_COUNT,
    ensures
        merged(query, replies) is Some,
        merged(query, replies) matches Some(response) ==> {
            &&& response.questions == query.questions
            &&& response.header.qdcount == query.questions.len()
            &&& response.answers == all_answers(replies)
            &&& response.header.ancount == response.answers.len()
            &&& response.header == (DNSHeader {
                qdcount: response.header.qdcount,
                ancount: response.header.ancount,
                ..replies[0].header
            })
        },
        merged(query, replies) matches Some(response) ==> forall|i: int|
            0 <= i < replies.len() ==> #[trigger] answers_at(response.answers, replies, i)
                == replies[i].answers && answers_before(replies, i) + replies[i].answers.len()
                <= response.answers.len(),
{
    let response = merged(query, replies)->Some_0;
    assert forall|i: int| 0 <= i < replies.len() implies #[trigger] answers_at(
        response.answers,
        replies,
        i,
    ) == replies[i].answers && answers_before(replies, i) + replies[i].answers.len()
        <= response.answers.len() by {
        let front = replies.take(i);
        let one = seq![replies[i]];
        let back = replies.skip(i + 1);
        assert(front + one =~= replies.take(i + 1));
        assert(replies.take(i + 1) + back =~= replies);
        lemma_all_answers_concat(front, one);
        lemma_all_answers_concat(replies.take(i + 1), back);
    }
}

/// A merged response counts what it holds: its header says how many
/// questions and how many answers follow, and where each answer of each
/// reply announces the length of its payload, so does each answer of the
/// merged response.
pub proof fn lemma_merged_is_consistent(query: QueryView, replies: Seq<ResponseView>)
    ensures
        merged(query, replies) matches Some(response) ==> {
            &&& response.header.qdcount == response.questions.len()
            &&& response.header.ancount == response.answers.len()
            &&& (forall|i: int, j: int|
                0 <= i < replies.len() && 0 <= j < replies[i].answers.len() ==> (
                #[trigger] replies[i].answers[j]).wf()) ==> response.wf()
        },
{
    if merged(query, replies) is Some && (forall|i: int, j: int|
        0 <= i < replies.len() && 0 <= j < replies[i].answers.len() ==> (
        #[trigger] replies[i].answers[j]).wf()) {
        lemma_all_answers_wf(replies);
    }
}

/// Where each answer of each reply announces the length of its payload, so
/// does each of the answers of all the replies.
proof fn lemma_all_answers_wf(replies: Seq<ResponseView>)
    requires
        forall|i: int, j: int|
            0 <= i < replies.len() && 0 <= j < replies[i].answers.len() ==> (
            #[trigger] replies[i].answers[j]).wf(),
    ensures
        forall|k: int| 0 <= k < all_answers(replies).len() ==> (#[trigger] all_answers(
            replies,
        )[k]).wf(),
    decreases replies.len(),
{
    if replies.len() > 0 {
        let rest = replies.drop_first();
        lemma_all_answers_wf(rest);
        assert forall|k: int| 0 <= k < all_answers(replies).len() implies (#[trigger] all_answers(
            replies,
        )[k]).wf() by {
            if k >= replies[0].answers.len() {
                assert(all_answers(replies)[k] == all_answers(rest)[k - replies[0].answers.len()]);
            }
        }
    }
}

/// The relay after the outcomes were delivered one after the other.
pub open spec fn run(start: RelayView, deliveries: Seq<(int, OutcomeView)>) -> RelayView
    decreases deliveries.len(),
{
    if deliveries.len() == 0 {
        start
    } else {
        run(start, deliveries.drop_last()).step(deliveries.last().0, deliveries.last().1).0
    }
}

/// What is to be done after the last of the deliveries.
pub open spec fn last_step(start: RelayView, deliveries: Seq<(int, OutcomeView)>) -> StepView {
    run(start, deliveries.drop_last()).step(deliveries.last().0, deliveries.last().1).1
}

/// The deliveries bring, in some order, each of the replies once: there
/// are as many as replies, each brings a datagram that decodes to the reply
/// of its exchange, and no two are for the same exchange.
pub open spec fn brings_each_once(
    replies: Seq<ResponseView>,
    deliveries: Seq<(int, OutcomeView)>,
) -> bool {
    &&& deliveries.len() == replies.len()
    &&& forall|k: int|
        0 <= k < deliveries.len() ==> 0 <= (#[trigger] deliveries[k]).0 < replies.len()
            && deliveries[k].1 is Reply && parse_response(deliveries[k].1->Reply_0) == Ok::<
            _,
            CoreError,
        >(replies[deliveries[k].0])
    &&& forall|j: int, k: int|
        0 <= j < k < deliveries.len() ==> (#[trigger] deliveries[j]).0 != (
        #[trigger] deliveries[k]).0
}

/// The exchanges whose outcome is among the first `k` deliveries.
spec fn delivered(deliveries: Seq<(int, OutcomeView)>, k: int) -> Set<int> {
    Set::new(|i: int| exists|j: int| 0 <= j < k && (#[trigger] deliveries[j]).0 == i)
}

/// The replies that the first `k` deliveries brought, each in its slot.
spec fn slots(
    replies: Seq<ResponseView>,
    deliveries: Seq<(int, OutcomeView)>,
    k: int,
) -> Seq<Option<ResponseView>> {
    Seq::new(
        replies.len(),
        |i: int|
            if delivered(deliveries, k).contains(i) {
                Some(replies[i])
            } else {
                None
            },
    )
}

/// The first `k` deliveries are for `k` different exchanges.
proof fn lemma_delivered_len(
    replies: Seq<ResponseView>,
    deliveries: Seq<(int, OutcomeView)>,
    k: int,
)
    requires
        brings_each_once(replies, deliveries),
        0 <= k <= deliveries.len(),
    ensures
        delivered(deliveries, k).finite(),
        delivered(deliveries, k).len() == k,
        delivered(deliveries, k).subset_of(set_int_range(0, replies.len() as int)),
    decreases k,
{
    if k == 0 {
        assert(delivered(deliveries, k) =~= Set::<int>::empty());
    } else {
        lemma_delivered_len(replies, deliveries, k - 1);
        let earlier = delivered(deliveries, k - 1);
        let index = deliveries[k - 1].0;
        assert(delivered(deliveries, k) =~= earlier.insert(index));
    }
}

/// The `k`-th delivery is for an open exchange, and puts its reply into
/// the slot of that exchange.
proof fn lemma_step_fills_slot(
    replies: Seq<ResponseView>,
    deliveries: Seq<(int, OutcomeView)>,
    k: int,
)
    requires
        brings_each_once(replies, deliveries),
        0 <= k < deliveries.len(),
    ensures
        slots(replies, deliveries, k)[deliveries[k].0] is None,
        slots(replies, deliveries, k).update(deliveries[k].0, Some(replies[deliveries[k].0]))
            == slots(replies, deliveries, k + 1),
{
}

/// Before the last reply came the relay holds each reply that came in its
/// slot, and awaits the others.
proof fn lemma_run_before_last(
    query: QueryView,
    replies: Seq<ResponseView>,
    deliveries: Seq<(int, OutcomeView)>,
    k: int,
)
    requires
        replies.len() == query.questions.len(),
        brings_each_once(replies, deliveries),
        0 <= k < deliveries.len(),
    ensures
        run(RelayView::awaiting(query), deliveries.take(k)) == (RelayView::Forwarding {
            query,
            replies: slots(replies, deliveries, k),
        }),
        k > 0 ==> last_step(RelayView::awaiting(query), deliveries.take(k)) == StepView::Pending,
    decreases k,
{
    if k == 0 {
        assert(slots(replies, deliveries, 0) =~= Seq::new(
            query.questions.len(),
            |i: int| None::<ResponseView>,
        ));
    } else {
        lemma_run_before_last(query, replies, deliveries, k - 1);
        lemma_step_fills_slot(replies, deliveries, k - 1);
        assert(deliveries.take(k).drop_last() =~= deliveries.take(k - 1));
        let filled = slots(replies, deliveries, k);
        lemma_delivered_len(replies, deliveries, k);
        lemma_int_range(0, replies.len() as int);
        if complete(filled) {
            assert(set_int_range(0, replies.len() as int).subset_of(delivered(deliveries, k))) by {
                assert forall|i: int| 0 <= i < replies.len() implies delivered(
                    deliveries,
                    k,
                ).contains(i) by {
                    assert(filled[i] is Some);
                }
            }
            lemma_len_subset(set_int_range(0, replies.len() as int), delivered(deliveries, k));
        }
    }
}

/// With the last delivery every reply has come, each in its slot.
proof fn lemma_last_reply_completes(
    replies: Seq<ResponseView>,
    deliveries: Seq<(int, OutcomeView)>,
)
    requires
        replies.len() >= 1,
        brings_each_once(replies, deliveries),
    ensures
        slots(replies, deliveries, deliveries.len() - 1)[deliveries.last().0] is None,
        complete(
            slots(replies, deliveries, deliveries.len() - 1).update(
                deliveries.last().0,
                Some(replies[deliveries.last().0]),
            ),
        ),
        gathered(
            slots(replies, deliveries, deliveries.len() - 1).update(
                deliveries.last().0,
                Some(replies[deliveries.last().0]),
            ),
        ) == replies,
{
    let n = deliveries.len() as int;
    lemma_step_fills_slot(replies, deliveries, n - 1);
    lemma_delivered_len(replies, deliveries, n);
    lemma_int_range(0, n);
    lemma_subset_equality(delivered(deliveries, n), set_int_range(0, n));
}

/// The order in which the replies arrive does not matter. Where each
/// exchange of a request brings its reply once, in whatever order, every
/// delivery but the last leaves the relay waiting, and the last one gives
/// the replies merged in the order of the questions, or fails where the
/// merged response would hold more questions or answers than a count can
/// say.
pub proof fn lemma_arrival_order_is_immaterial(
    query: QueryView,
    replies: Seq<ResponseView>,
    deliveries: Seq<(int, OutcomeView)>,
)
    requires
        replies.len() == query.questions.len(),
        replies.len() >= 1,
        brings_each_once(replies, deliveries),
    ensures
        forall|k: int|
            0 < k < deliveries.len() ==> last_step(
                RelayView::awaiting(query),
                #[trigger] deliveries.take(k),
            ) == StepView::Pending,
        last_step(RelayView::awaiting(query), deliveries) == (match merged(query, replies) {
            Some(response) => StepView::Merged(response),
            None => StepView::Failed(CoreError::CountOverflow),
        }),
        run(RelayView::awaiting(query), deliveries) == (match merged(query, replies) {
            Some(response) => RelayView::Merged,
            None => RelayView::Failed,
        }),
{
    let start = RelayView::awaiting(query);
    let n = deliveries.len() as int;
    assert forall|k: int| 0 < k < n implies last_step(start, #[trigger] deliveries.take(k))
        == StepView::Pending by {
        lemma_run_before_last(query, replies, deliveries, k);
    }
    lemma_run_before_last(query, replies, deliveries, n - 1);
    lemma_last_reply_completes(replies, deliveries);
}

/// Once a request was merged or has failed, whatever is delivered is
/// ignored and changes nothing: no second response is made, and a failed
/// request gets none.
pub proof fn lemma_ended_relay_ignores(relay: RelayView, index: int, outcome: OutcomeView)
    requires
        relay is Merged || relay is Failed,
    ensures
        relay.step(index, outcome) == (relay, StepView::Ignored),
{
}

/// An exchange that fails while the request is open fails the request
/// with the error of that exchange, whatever replies came before.
pub proof fn lemma_failed_exchange_fails_request(
    relay: RelayView,
    index: int,
    outcome: OutcomeView,
)
    requires
        relay matches RelayView::Forwarding { replies, .. } && 0 <= index < replies.len()
            && replies[index] is None,
        !(outcome is Reply),
    ensures
        relay.step(index, outcome) == (
            RelayView::Failed,
            StepView::Failed(upstream_error(outcome)),
        ),
{
}

} // verus!
