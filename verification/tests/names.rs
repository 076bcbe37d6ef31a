use dns_forwarder::{DecodeError, Question, ResourceRecord};

fn labels(parts: &[&str]) -> Vec<String> {
    parts.iter().map(|p| p.to_string()).collect()
}

// The section of a message behind its header: "www.example.com A IN" in
// full, then "mail" with a pointer to "example.com" at offset 12 + 4.
fn compressed_section() -> Vec<u8> {
    let mut section = vec![3, b'w', b'w', b'w', 7, b'e', b'x', b'a', b'm', b'p', b'l', b'e', 3, b'c', b'o', b'm', 0];
    section.extend_from_slice(&[0, 1, 0, 1]);
    section.extend_from_slice(&[4, b'm', b'a', b'i', b'l', 0xC0, 16]);
    section.extend_from_slice(&[0, 15, 0, 1]);
    section
}

#[test]
fn pointer_gives_the_labels_of_the_full_name() {
    let section = compressed_section();
    let (questions, end) = Question::deserialize(&section, 2).unwrap();
    assert_eq!(questions.len(), 2);
    assert_eq!(questions[0].labels, labels(&["www", "example", "com"]));
    assert_eq!(questions[1].labels, labels(&["mail", "example", "com"]));
    assert_eq!(questions[1].qtype, 15);
    assert_eq!(questions[1].qclass, 1);
    assert_eq!(end, section.len());

    let full = Question { labels: labels(&["mail", "example", "com"]), qtype: 15, qclass: 1 };
    let (plain, _) = Question::deserialize(&full.serialize(), 1).unwrap();
    assert_eq!(plain[0].labels, questions[1].labels);
}

#[test]
fn position_is_behind_the_pointer_not_behind_its_target() {
    let section = compressed_section();
    let (_, end) = Question::deserialize(&section, 2).unwrap();
    assert_eq!(end, 21 + 7 + 4);
}

#[test]
fn each_name_may_follow_one_pointer() {
    // Two questions, each a bare pointer to the name at offset 12 + 12.
    let mut section = vec![0xC0, 24, 0, 1, 0, 1, 0xC0, 24, 0, 2, 0, 1];
    section.extend_from_slice(&[1, b'a', 0]);
    let (questions, end) = Question::deserialize(&section, 2).unwrap();
    assert_eq!(questions[0].labels, labels(&["a"]));
    assert_eq!(questions[1].labels, labels(&["a"]));
    assert_eq!(questions[1].qtype, 2);
    assert_eq!(end, 12);
}

#[test]
fn second_pointer_ends_the_name() {
    // The pointer at 0 leads to offset 12 + 6, where "ab" is followed by a
    // pointer back to 12 + 0.
    let section = vec![0xC0, 18, 0, 1, 0, 1, 2, b'a', b'b', 0xC0, 12];
    let (questions, end) = Question::deserialize(&section, 1).unwrap();
    assert_eq!(questions[0].labels, labels(&["ab"]));
    assert_eq!(questions[0].qtype, 1);
    assert_eq!(end, 6);
}

#[test]
fn pointer_to_itself_ends_the_name() {
    let section = vec![0xC0, 12, 0, 1, 0, 1];
    let (questions, end) = Question::deserialize(&section, 1).unwrap();
    assert!(questions[0].labels.is_empty());
    assert_eq!(end, 6);
}

#[test]
fn pointer_offset_uses_all_fourteen_bits() {
    // Offset 0x010C = 268 leads to 256 in the section.
    let mut section = vec![0xC1, 0x0C, 0, 1, 0, 1];
    section.resize(256, 0xAA);
    section.extend_from_slice(&[1, b'z', 0]);
    let (questions, end) = Question::deserialize(&section, 1).unwrap();
    assert_eq!(questions[0].labels, labels(&["z"]));
    assert_eq!(end, 6);
}

#[test]
fn pointer_behind_the_buffer_is_malformed() {
    let section = vec![0xC0, 18, 0, 1, 0, 1];
    assert_eq!(Question::deserialize(&section, 1).unwrap_err(), DecodeError::MalformedPointer);
    let section = vec![0xFF, 0xFF, 0, 1, 0, 1];
    assert_eq!(Question::deserialize(&section, 1).unwrap_err(), DecodeError::MalformedPointer);
}

#[test]
fn pointer_into_the_header_is_malformed() {
    let section = vec![0xC0, 11, 0, 1, 0, 1];
    assert_eq!(Question::deserialize(&section, 1).unwrap_err(), DecodeError::MalformedPointer);
    let section = vec![0xC0, 0, 0, 1, 0, 1];
    assert_eq!(Question::deserialize(&section, 1).unwrap_err(), DecodeError::MalformedPointer);
}

#[test]
fn pointer_cut_in_two_is_truncated() {
    let section = vec![1, b'a', 0xC0];
    assert_eq!(Question::deserialize(&section, 1).unwrap_err(), DecodeError::TruncatedMessage);
}

#[test]
fn name_cut_short_is_truncated() {
    let full = [3, 119, 119, 119, 7, 101, 120, 97, 109, 112, 108, 101, 3, 99, 111, 109, 0, 0, 1, 0, 1];
    for cut in 0..full.len() {
        assert_eq!(
            Question::deserialize(&full[..cut], 1).unwrap_err(),
            DecodeError::TruncatedMessage,
            "cut at {}",
            cut
        );
    }
    assert!(Question::deserialize(&full, 1).is_ok());
}

#[test]
fn more_questions_than_bytes_is_truncated() {
    let full = [1, b'a', 0, 0, 1, 0, 1];
    assert_eq!(Question::deserialize(&full, 2).unwrap_err(), DecodeError::TruncatedMessage);
}

#[test]
fn no_question_reads_nothing() {
    let (questions, end) = Question::deserialize(&[], 0).unwrap();
    assert!(questions.is_empty());
    assert_eq!(end, 0);
}

#[test]
fn malformed_text_is_replaced() {
    let section = [2, 0xFF, b'a', 0, 0, 1, 0, 1];
    let (questions, _) = Question::deserialize(&section, 1).unwrap();
    assert_eq!(questions[0].labels, vec!["\u{FFFD}a".to_string()]);
    let records = ResourceRecord::deserialize(&[1, 0x80, 0, 0, 1, 0, 1, 0, 0, 0, 0, 0, 0], 1).unwrap();
    assert_eq!(records[0].name, vec!["\u{FFFD}".to_string()]);
}

#[test]
fn text_of_more_than_one_byte_is_kept() {
    let question = Question { labels: vec!["é".to_string(), "日本".to_string()], qtype: 1, qclass: 1 };
    let bytes = question.serialize();
    assert_eq!(bytes, [2, 0xC3, 0xA9, 6, 0xE6, 0x97, 0xA5, 0xE6, 0x9C, 0xAC, 0, 0, 1, 0, 1]);
    let (back, end) = Question::deserialize(&bytes, 1).unwrap();
    assert_eq!(back[0].labels, question.labels);
    assert_eq!(end, bytes.len());
}

#[test]
fn long_label_is_read_back_in_a_question_up_to_191_bytes() {
    let question = Question { labels: vec!["x".repeat(191)], qtype: 1, qclass: 1 };
    let bytes = question.serialize();
    assert_eq!(bytes[0], 191);
    let (back, _) = Question::deserialize(&bytes, 1).unwrap();
    assert_eq!(back[0].labels, question.labels);

    let question = Question { labels: vec!["x".repeat(192)], qtype: 1, qclass: 1 };
    let bytes = question.serialize();
    assert_eq!(bytes[0], 192);
    assert!(Question::deserialize(&bytes, 1).is_err());
}

#[test]
fn length_byte_wraps_for_a_label_over_255_bytes() {
    let question = Question { labels: vec!["y".repeat(300)], qtype: 1, qclass: 1 };
    let bytes = question.serialize();
    assert_eq!(bytes.len(), 1 + 300 + 1 + 4);
    assert_eq!(bytes[0], 44);
}

#[test]
fn answer_names_do_not_follow_pointers() {
    // In a question this is a pointer to offset 12; in an answer it is the
    // length of a label of 192 bytes, which the buffer does not hold.
    let bytes = [0xC0, 12, 0, 1, 0, 1, 0, 0, 0, 60, 0, 0];
    assert_eq!(ResourceRecord::deserialize(&bytes, 1).unwrap_err(), DecodeError::TruncatedMessage);

    let mut bytes = vec![0xC0];
    bytes.extend_from_slice(&[b'q'; 192]);
    bytes.extend_from_slice(&[0, 0, 1, 0, 1, 0, 0, 0, 60, 0, 0]);
    let records = ResourceRecord::deserialize(&bytes, 1).unwrap();
    assert_eq!(records[0].name, vec!["q".repeat(192)]);
    let back = records[0].serialize();
    assert_eq!(back, bytes);
}
