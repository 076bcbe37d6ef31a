use dns_forwarder::{
    merge, CoreError, DNSHeader, DecodeError, DnsQuery, DnsResponse, Outcome, Question, Relay,
    ResourceRecord, Stage, Step,
};

fn header(id: u16, qdcount: u16, ancount: u16) -> DNSHeader {
    DNSHeader {
        id,
        qr: 0,
        opcode: 0,
        aa: 0,
        tc: 0,
        rd: 1,
        ra: 0,
        z: 0,
        rcode: 0,
        qdcount,
        ancount,
        nscount: 0,
        arcount: 0,
    }
}

fn question(name: &[&str]) -> Question {
    Question { labels: name.iter().map(|p| p.to_string()).collect(), qtype: 1, qclass: 1 }
}

fn a_record(name: &[&str], ttl: u32, address: [u8; 4]) -> ResourceRecord {
    ResourceRecord {
        name: name.iter().map(|p| p.to_string()).collect(),
        rtype: 1,
        class: 1,
        ttl,
        rdlength: 4,
        rdata: address.to_vec(),
    }
}

// What the resolver sends back for one question.
fn reply(id: u16, name: &[&str], answers: Vec<ResourceRecord>) -> DnsResponse {
    let mut head = header(id, 1, answers.len() as u16);
    head.qr = 1;
    head.ra = 1;
    DnsResponse { header: head, questions: vec![question(name)], answers }
}

#[test]
fn one_question_end_to_end() {
    let client = DnsQuery { header: header(0x1234, 1, 0), questions: vec![question(&["www", "example", "com"])] };
    let datagram = client.serialize();

    let query = DnsQuery::deserialize(&datagram).unwrap();
    let (relay, requests) = Relay::begin(query).unwrap();
    assert_eq!(requests.len(), 1);
    assert_eq!(requests[0], datagram);

    let upstream = reply(0x1234, &["www", "example", "com"], vec![a_record(&["www", "example", "com"], 60, [93, 184, 216, 34])]);
    let (relay, step) = relay.deliver(0, Outcome::Reply(upstream.serialize()));
    assert!(matches!(relay, Relay::Merged));
    let response = match step {
        Step::Merged(response) => response,
        other => panic!("{:?}", other),
    };
    let sent = response.serialize();
    let seen = DnsResponse::deserialize(&sent).unwrap();
    assert_eq!(seen.header.id, 0x1234);
    assert_eq!(seen.header.qr, 1);
    assert_eq!(seen.header.qdcount, 1);
    assert_eq!(seen.header.ancount, 1);
    assert_eq!(seen.questions[0].labels, vec!["www".to_string(), "example".to_string(), "com".to_string()]);
    assert_eq!(seen.answers.len(), 1);
    assert_eq!(seen.answers[0].ttl, 60);
    assert_eq!(seen.answers[0].rdata, vec![93, 184, 216, 34]);
}

fn two_questions() -> DnsQuery {
    DnsQuery { header: header(7, 2, 0), questions: vec![question(&["a", "com"]), question(&["b", "com"])] }
}

fn merged_of(order: [usize; 2]) -> DnsResponse {
    let replies = [
        reply(7, &["a", "com"], vec![a_record(&["a", "com"], 10, [1, 1, 1, 1])]).serialize(),
        reply(8, &["b", "com"], vec![a_record(&["b", "com"], 20, [2, 2, 2, 2])]).serialize(),
    ];
    let (relay, requests) = Relay::begin(two_questions()).unwrap();
    assert_eq!(requests.len(), 2);
    let (relay, step) = relay.deliver(order[0], Outcome::Reply(replies[order[0]].clone()));
    assert!(matches!(step, Step::Pending));
    assert!(matches!(relay, Relay::Forwarding { .. }));
    let (relay, step) = relay.deliver(order[1], Outcome::Reply(replies[order[1]].clone()));
    assert!(matches!(relay, Relay::Merged));
    match step {
        Step::Merged(response) => response,
        other => panic!("{:?}", other),
    }
}

#[test]
fn two_questions_are_forwarded_one_by_one() {
    let (_, requests) = Relay::begin(two_questions()).unwrap();
    let first = DnsQuery::deserialize(&requests[0]).unwrap();
    let second = DnsQuery::deserialize(&requests[1]).unwrap();
    assert_eq!(first.header.qdcount, 1);
    assert_eq!(first.header.id, 7);
    assert_eq!(first.header.rd, 1);
    assert_eq!(first.questions.len(), 1);
    assert_eq!(first.questions[0].labels, vec!["a".to_string(), "com".to_string()]);
    assert_eq!(second.header.qdcount, 1);
    assert_eq!(second.questions[0].labels, vec!["b".to_string(), "com".to_string()]);
}

#[test]
fn answers_come_in_the_order_of_the_questions() {
    for order in [[0, 1], [1, 0]] {
        let response = merged_of(order);
        assert_eq!(response.header.id, 7);
        assert_eq!(response.header.qr, 1);
        assert_eq!(response.header.qdcount, 2);
        assert_eq!(response.header.ancount, 2);
        assert_eq!(response.questions.len(), 2);
        assert_eq!(response.questions[0].labels, vec!["a".to_string(), "com".to_string()]);
        assert_eq!(response.questions[1].labels, vec!["b".to_string(), "com".to_string()]);
        assert_eq!(response.answers.len(), 2);
        assert_eq!(response.answers[0].rdata, vec![1, 1, 1, 1]);
        assert_eq!(response.answers[1].rdata, vec![2, 2, 2, 2]);
    }
}

#[test]
fn merged_response_does_not_depend_on_arrival() {
    assert_eq!(merged_of([0, 1]).serialize(), merged_of([1, 0]).serialize());
}

#[test]
fn merge_takes_the_first_header_and_counts_anew() {
    let first = reply(1, &["a"], vec![a_record(&["a"], 1, [1, 0, 0, 0]), a_record(&["a"], 2, [2, 0, 0, 0])]);
    let second = reply(2, &["b"], vec![]);
    let third = reply(3, &["c"], vec![a_record(&["c"], 3, [3, 0, 0, 0])]);
    let query = DnsQuery { header: header(9, 3, 0), questions: vec![question(&["a"]), question(&["b"]), question(&["c"])] };
    let response = merge(query, vec![first, second, third]).unwrap();
    assert_eq!(response.header.id, 1);
    assert_eq!(response.header.qr, 1);
    assert_eq!(response.header.ra, 1);
    assert_eq!(response.header.qdcount, 3);
    assert_eq!(response.header.ancount, 3);
    assert_eq!(response.questions.len(), 3);
    assert_eq!(response.questions[2].labels, vec!["c".to_string()]);
    let ttls: Vec<u32> = response.answers.iter().map(|a| a.ttl).collect();
    assert_eq!(ttls, vec![1, 2, 3]);
}

#[test]
fn merge_without_a_reply_gives_nothing() {
    let query = DnsQuery { header: header(9, 1, 0), questions: vec![question(&["a"])] };
    assert!(merge(query, vec![]).is_none());
}

#[test]
fn merge_gives_nothing_where_the_answers_outgrow_the_count() {
    let many = |n: usize| -> Vec<ResourceRecord> { (0..n).map(|_| a_record(&[], 0, [0, 0, 0, 0])).collect() };
    let query = DnsQuery { header: header(9, 2, 0), questions: vec![question(&["a"]), question(&["b"])] };
    let fits = merge(query, vec![reply(1, &["a"], many(65535)), reply(1, &["b"], vec![])]).unwrap();
    assert_eq!(fits.header.ancount, 65535);
    assert_eq!(fits.answers.len(), 65535);

    let query = DnsQuery { header: header(9, 2, 0), questions: vec![question(&["a"]), question(&["b"])] };
    assert!(merge(query, vec![reply(1, &["a"], many(40000)), reply(1, &["b"], many(25536))]).is_none());
}

#[test]
fn query_without_a_question_is_refused() {
    let query = DnsQuery { header: header(1, 0, 0), questions: vec![] };
    assert_eq!(Relay::begin(query).unwrap_err(), CoreError::NoQuestion);
}

#[test]
fn failed_exchange_fails_the_request() {
    let cases = [
        (Outcome::SendFailed, CoreError::UpstreamSendFailed),
        (Outcome::ReceiveFailed, CoreError::UpstreamReceiveFailed),
        (Outcome::TimedOut, CoreError::UpstreamTimeout),
    ];
    for (outcome, error) in cases {
        let (relay, _) = Relay::begin(two_questions()).unwrap();
        let good = reply(7, &["a", "com"], vec![a_record(&["a", "com"], 10, [1, 1, 1, 1])]).serialize();
        let (relay, step) = relay.deliver(0, Outcome::Reply(good.clone()));
        assert!(matches!(step, Step::Pending));
        let (relay, step) = relay.deliver(1, outcome);
        assert!(matches!(relay, Relay::Failed));
        match step {
            Step::Failed(e) => assert_eq!(e, error),
            other => panic!("{:?}", other),
        }
        let (relay, step) = relay.deliver(1, Outcome::Reply(good));
        assert!(matches!(relay, Relay::Failed));
        assert!(matches!(step, Step::Ignored));
    }
}

#[test]
fn reply_that_does_not_decode_fails_the_request() {
    let good = reply(7, &["a", "com"], vec![a_record(&["a", "com"], 10, [1, 1, 1, 1])]).serialize();
    let cases = [
        (5, Stage::Header),
        (14, Stage::Question),
        (good.len() - 2, Stage::Record),
    ];
    for (cut, stage) in cases {
        let (relay, _) = Relay::begin(two_questions()).unwrap();
        let (relay, step) = relay.deliver(0, Outcome::Reply(good[..cut].to_vec()));
        assert!(matches!(relay, Relay::Failed));
        match step {
            Step::Failed(e) => assert_eq!(e, CoreError::DecodeFailed { stage, cause: DecodeError::TruncatedMessage }),
            other => panic!("{:?}", other),
        }
    }
}

#[test]
fn outcome_for_no_open_exchange_is_ignored() {
    let good = reply(7, &["a", "com"], vec![a_record(&["a", "com"], 10, [1, 1, 1, 1])]).serialize();
    let (relay, _) = Relay::begin(two_questions()).unwrap();
    let (relay, step) = relay.deliver(2, Outcome::Reply(good.clone()));
    assert!(matches!(step, Step::Ignored));
    let (relay, step) = relay.deliver(0, Outcome::Reply(good.clone()));
    assert!(matches!(step, Step::Pending));
    let (relay, step) = relay.deliver(0, Outcome::SendFailed);
    assert!(matches!(step, Step::Ignored));
    assert!(matches!(relay, Relay::Forwarding { .. }));
    let (relay, step) = relay.deliver(1, Outcome::Reply(good.clone()));
    assert!(matches!(step, Step::Merged(_)));
    let (relay, step) = relay.deliver(1, Outcome::Reply(good));
    assert!(matches!(relay, Relay::Merged));
    assert!(matches!(step, Step::Ignored));
}

#[test]
fn relay_fails_where_the_answers_outgrow_the_count() {
    let many = |n: usize| -> Vec<ResourceRecord> { (0..n).map(|_| a_record(&[], 0, [0, 0, 0, 0])).collect() };
    let (relay, _) = Relay::begin(two_questions()).unwrap();
    let (relay, _) = relay.deliver(0, Outcome::Reply(reply(7, &["a", "com"], many(40000)).serialize()));
    let (relay, step) = relay.deliver(1, Outcome::Reply(reply(7, &["b", "com"], many(40000)).serialize()));
    assert!(matches!(relay, Relay::Failed));
    match step {
        Step::Failed(e) => assert_eq!(e, CoreError::CountOverflow),
        other => panic!("{:?}", other),
    }
}

#[test]
fn merged_response_is_encoded_with_its_counts() {
    let response = merged_of([1, 0]);
    let bytes = response.serialize();
    assert_eq!(&bytes[4..8], &[0, 2, 0, 2]);
    let seen = DnsResponse::deserialize(&bytes).unwrap();
    assert_eq!(seen.questions.len(), 2);
    assert_eq!(seen.answers.len(), 2);
}

#[test]
fn requests_count_their_one_question() {
    let mut query = two_questions();
    query.header.qdcount = 40;
    let (_, requests) = Relay::begin(query).unwrap();
    for request in &requests {
        assert_eq!(&request[4..6], &[0, 1]);
    }
}
