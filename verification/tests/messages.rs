use dns_forwarder::{
    CoreError, DNSHeader, DecodeError, DnsQuery, DnsResponse, Question, ResourceRecord, Stage,
};

fn header(qdcount: u16, ancount: u16) -> DNSHeader {
    DNSHeader {
        id: 0xABCD,
        qr: 1,
        opcode: 0,
        aa: 0,
        tc: 0,
        rd: 1,
        ra: 1,
        z: 0,
        rcode: 0,
        qdcount,
        ancount,
        nscount: 0,
        arcount: 0,
    }
}

fn question(name: &[&str], qtype: u16) -> Question {
    Question { labels: name.iter().map(|p| p.to_string()).collect(), qtype, qclass: 1 }
}

fn record(name: &[&str], rdata: &[u8]) -> ResourceRecord {
    ResourceRecord {
        name: name.iter().map(|p| p.to_string()).collect(),
        rtype: 16,
        class: 1,
        ttl: 300,
        rdlength: rdata.len() as u16,
        rdata: rdata.to_vec(),
    }
}

fn sample_response() -> DnsResponse {
    DnsResponse {
        header: header(2, 3),
        questions: vec![question(&["a", "example"], 1), question(&["b", "example"], 16)],
        answers: vec![record(&["a", "example"], &[1, 2, 3, 4]), record(&["b", "example"], b"hello"), record(&["b", "example"], &[])],
    }
}

fn failed(stage: Stage) -> CoreError {
    CoreError::DecodeFailed { stage, cause: DecodeError::TruncatedMessage }
}

#[test]
fn response_is_written_section_by_section() {
    let response = sample_response();
    let mut expected = response.header.serialize().to_vec();
    for q in &response.questions {
        expected.extend_from_slice(&q.serialize());
    }
    for a in &response.answers {
        expected.extend_from_slice(&a.serialize());
    }
    assert_eq!(response.serialize(), expected);
}

#[test]
fn response_is_read_back() {
    let response = sample_response();
    let bytes = response.serialize();
    let back = DnsResponse::deserialize(&bytes).unwrap();
    assert_eq!(back.header.id, 0xABCD);
    assert_eq!(back.header.qdcount, 2);
    assert_eq!(back.header.ancount, 3);
    assert_eq!(back.questions.len(), 2);
    assert_eq!(back.questions[1].labels, response.questions[1].labels);
    assert_eq!(back.questions[1].qtype, 16);
    assert_eq!(back.answers.len(), 3);
    assert_eq!(back.answers[1].name, response.answers[1].name);
    assert_eq!(back.answers[1].rdata, b"hello".to_vec());
    assert_eq!(back.answers[2].rdlength, 0);
    assert_eq!(back.serialize(), bytes);
}

#[test]
fn bytes_behind_the_message_are_not_read() {
    let mut bytes = sample_response().serialize();
    let len = bytes.len();
    bytes.resize(512, 0);
    let back = DnsResponse::deserialize(&bytes).unwrap();
    assert_eq!(back.serialize(), bytes[..len]);

    let query = DnsQuery { header: header(1, 0), questions: vec![question(&["a"], 1)] };
    let mut bytes = query.serialize();
    let len = bytes.len();
    bytes.resize(512, 0xFF);
    assert_eq!(DnsQuery::deserialize(&bytes).unwrap().serialize(), bytes[..len]);
}

#[test]
fn answers_are_read_behind_a_compressed_question() {
    let mut bytes = header(2, 1).serialize().to_vec();
    bytes.extend_from_slice(&[1, b'a', 3, b'c', b'o', b'm', 0, 0, 1, 0, 1]);
    bytes.extend_from_slice(&[1, b'b', 0xC0, 14, 0, 1, 0, 1]);
    bytes.extend_from_slice(&record(&["b", "com"], &[9, 9, 9, 9]).serialize());
    let response = DnsResponse::deserialize(&bytes).unwrap();
    assert_eq!(response.questions[1].labels, vec!["b".to_string(), "com".to_string()]);
    assert_eq!(response.answers.len(), 1);
    assert_eq!(response.answers[0].name, vec!["b".to_string(), "com".to_string()]);
    assert_eq!(response.answers[0].rdata, vec![9, 9, 9, 9]);
}

#[test]
fn response_cut_short_fails_in_the_section_of_the_cut() {
    let response = sample_response();
    let bytes = response.serialize();
    let questions_end = 12 + response.questions.iter().map(|q| q.serialize().len()).sum::<usize>();
    for cut in 0..bytes.len() {
        let expected = if cut < 12 {
            failed(Stage::Header)
        } else if cut < questions_end {
            failed(Stage::Question)
        } else {
            failed(Stage::Record)
        };
        assert_eq!(DnsResponse::deserialize(&bytes[..cut]).unwrap_err(), expected, "cut at {}", cut);
    }
}

#[test]
fn query_cut_short_fails_in_the_section_of_the_cut() {
    let query = DnsQuery { header: header(2, 0), questions: vec![question(&["a", "example"], 1), question(&["b"], 1)] };
    let bytes = query.serialize();
    for cut in 0..bytes.len() {
        let expected = if cut < 12 { failed(Stage::Header) } else { failed(Stage::Question) };
        assert_eq!(DnsQuery::deserialize(&bytes[..cut]).unwrap_err(), expected, "cut at {}", cut);
    }
}

#[test]
fn malformed_pointer_is_reported_with_its_stage() {
    let mut bytes = header(1, 0).serialize().to_vec();
    bytes.extend_from_slice(&[0xC0, 200, 0, 1, 0, 1]);
    assert_eq!(
        DnsQuery::deserialize(&bytes).unwrap_err(),
        CoreError::DecodeFailed { stage: Stage::Question, cause: DecodeError::MalformedPointer }
    );
    assert_eq!(
        DnsResponse::deserialize(&bytes).unwrap_err(),
        CoreError::DecodeFailed { stage: Stage::Question, cause: DecodeError::MalformedPointer }
    );
}

#[test]
fn query_keeps_the_counts_of_its_header() {
    let mut head = header(1, 0);
    head.nscount = 4;
    head.arcount = 5;
    let query = DnsQuery { header: head, questions: vec![question(&["a"], 1)] };
    let back = DnsQuery::deserialize(&query.serialize()).unwrap();
    assert_eq!(back.header.nscount, 4);
    assert_eq!(back.header.arcount, 5);
    assert_eq!(back.questions.len(), 1);
}

#[test]
fn split_of_a_query_without_questions_is_empty() {
    let mut query = DnsQuery { header: header(0, 0), questions: vec![] };
    assert!(query.split_questions().is_empty());
}

#[test]
fn split_questions_add_up_to_the_questions() {
    let mut query = DnsQuery {
        header: header(3, 0),
        questions: vec![question(&["a"], 1), question(&["b"], 2), question(&["c"], 3)],
    };
    let parts = query.split_questions();
    let total: usize = parts.iter().map(|p| p.questions.len()).sum();
    assert_eq!(total, query.questions.len());
    let types: Vec<u16> = parts.iter().map(|p| p.questions[0].qtype).collect();
    assert_eq!(types, vec![1, 2, 3]);
    for part in &parts {
        assert_eq!(part.header.qdcount, 1);
        assert_eq!(part.header.id, 0xABCD);
        assert_eq!(part.header.ra, 1);
    }
}

#[test]
fn copies_are_equal_to_what_they_copy() {
    let query = DnsQuery { header: header(1, 0), questions: vec![question(&["a", "b"], 1)] };
    let copy = query.clone();
    assert_eq!(copy.serialize(), query.serialize());
    let q = question(&["x"], 5);
    assert_eq!(q.clone().serialize(), q.serialize());
}

fn count_at(bytes: &[u8], pos: usize) -> usize {
    (bytes[pos] as usize) * 256 + bytes[pos + 1] as usize
}

#[test]
fn encoded_query_counts_the_questions_that_follow() {
    let query = DnsQuery { header: header(5, 0), questions: vec![] };
    let bytes = query.serialize();
    assert_eq!(bytes.len(), 12);
    assert_eq!(count_at(&bytes, 4), 0);
    assert_eq!(bytes, header(0, 0).serialize());

    let query = DnsQuery { header: header(0, 0), questions: vec![question(&["a"], 1), question(&["b"], 1)] };
    let bytes = query.serialize();
    assert_eq!(count_at(&bytes, 4), 2);
    let back = DnsQuery::deserialize(&bytes).unwrap();
    assert_eq!(back.header.qdcount, 2);
    assert_eq!(back.questions.len(), 2);
}

#[test]
fn encoded_query_keeps_the_other_header_fields() {
    let mut head = header(9, 0);
    head.nscount = 4;
    head.arcount = 5;
    let query = DnsQuery { header: head, questions: vec![question(&["a"], 1)] };
    let back = DNSHeader::deserialize(&query.serialize()).unwrap();
    assert_eq!(back.id, 0xABCD);
    assert_eq!((back.qr, back.rd, back.ra), (1, 1, 1));
    assert_eq!(back.qdcount, 1);
    assert_eq!(back.ancount, 0);
    assert_eq!(back.nscount, 4);
    assert_eq!(back.arcount, 5);
}

#[test]
fn encoded_response_counts_the_questions_and_answers_that_follow() {
    let mut response = sample_response();
    response.header.qdcount = 9;
    response.header.ancount = 0;
    response.header.nscount = 6;
    let bytes = response.serialize();
    assert_eq!(count_at(&bytes, 4), 2);
    assert_eq!(count_at(&bytes, 6), 3);
    assert_eq!(count_at(&bytes, 8), 6);
    assert_eq!(bytes, sample_response_with_nscount(6).serialize());
    let back = DnsResponse::deserialize(&bytes).unwrap();
    assert_eq!(back.header.qdcount, 2);
    assert_eq!(back.header.ancount, 3);
    assert_eq!(back.questions.len(), 2);
    assert_eq!(back.answers.len(), 3);

    let empty = DnsResponse { header: header(3, 4), questions: vec![], answers: vec![] };
    let bytes = empty.serialize();
    assert_eq!(bytes.len(), 12);
    assert_eq!(count_at(&bytes, 4), 0);
    assert_eq!(count_at(&bytes, 6), 0);
}

fn sample_response_with_nscount(nscount: u16) -> DnsResponse {
    let mut response = sample_response();
    response.header.nscount = nscount;
    response
}

#[test]
fn encoded_response_counts_up_to_the_largest_count() {
    let answers: Vec<ResourceRecord> = (0..65535).map(|_| record(&[], &[])).collect();
    let response = DnsResponse { header: header(0, 0), questions: vec![], answers };
    let bytes = response.serialize();
    assert_eq!(count_at(&bytes, 4), 0);
    assert_eq!(count_at(&bytes, 6), 65535);
    assert_eq!(bytes.len(), 12 + 65535 * 11);
}
