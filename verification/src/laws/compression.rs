//! Names that end in a compression pointer.

use crate::error::parsed;
use crate::header::HEADER_LEN;
use crate::laws::round_trip::{lemma_label_text_of_wire, lemma_name_round_trip};
use crate::name::{
    is_pointer, labels_wire, name_fits, name_wire, parse_name, pointer_offset, NameParse,
    MAX_QUESTION_LABEL,
};
use vstd::prelude::*;
use vstd::utf8::encode_utf8;

verus! {

/// The two bytes of a compression pointer to `offset`, counted from the
/// start of the message.
pub open spec fn pointer_wire(offset: int) -> Seq<u8> {
    seq![(192 + offset / 256) as u8, (offset % 256) as u8]
}

/// The bytes stand in the buffer from `pos` on.
pub open spec fn stands_at(buf: Seq<u8>, pos: int, bytes: Seq<u8>) -> bool {
    0 <= pos && pos + bytes.len() <= buf.len() && buf.subrange(pos, pos + bytes.len()) == bytes
}

/// The parse `rest` with the labels `head` put before its labels.
pub open spec fn prepended(head: Seq<Seq<char>>, rest: NameParse) -> NameParse {
    match rest {
        Ok((labels, end)) => Ok((head + labels, end)),
        Err(e) => Err(e),
    }
}

/// Where labels of between 1 and 191 bytes stand in a buffer, a name is
/// read as those labels and then what is read behind them.
pub proof fn lemma_labels_then_rest(buf: Seq<u8>, pos: int, head: Seq<Seq<char>>, jumped: bool)
    requires
        name_fits(head, MAX_QUESTION_LABEL as int),
        stands_at(buf, pos, labels_wire(head)),
    ensures
        parse_name(buf, pos, jumped) == prepended(
            head,
            parse_name(buf, pos + labels_wire(head).len(), jumped),
        ),
    decreases head.len(),
{
    if head.len() > 0 {
        let label = head[0];
        let rest = head.drop_first();
        let bytes = encode_utf8(label);
        let written = labels_wire(head);
        let next = pos + 1 + bytes.len();
        assert(buf[pos] == buf.subrange(pos, pos + written.len())[0]);
        assert(buf.subrange(pos + 1, next) =~= bytes) by {
            assert forall|i: int| 0 <= i < bytes.len() implies buf[pos + 1 + i] == bytes[i] by {
                assert(buf[pos + 1 + i] == buf.subrange(pos, pos + written.len())[1 + i]);
            }
        }
        assert(buf.subrange(next, next + labels_wire(rest).len()) =~= labels_wire(rest)) by {
            assert forall|i: int| 0 <= i < labels_wire(rest).len() implies buf[next + i]
                == labels_wire(rest)[i] by {
                assert(buf[next + i] == buf.subrange(pos, pos + written.len())[1 + bytes.len()
                    + i]);
            }
        }
        lemma_label_text_of_wire(label);
        lemma_labels_then_rest(buf, next, rest, jumped);
        match parse_name(buf, pos + written.len(), jumped) {
            Ok((labels, end)) => {
                assert(seq![label] + (rest + labels) =~= head + labels);
            },
            Err(e) => {},
        }
    }
}

/// A name of a question that ends in a pointer to a name written in full
/// elsewhere in the message is read as the labels before the pointer and
/// then the labels of that name: the labels that the same name gives when
/// it is written without compression. The section goes on behind the two
/// bytes of the pointer.
pub proof fn lemma_pointer_to_full_name(
    buf: Seq<u8>,
    pos: int,
    head: Seq<Seq<char>>,
    target: int,
    tail: Seq<Seq<char>>,
)
    requires
        name_fits(head, MAX_QUESTION_LABEL as int),
        name_fits(tail, MAX_QUESTION_LABEL as int),
        0 <= target,
        target + HEADER_LEN < 0x4000,
        stands_at(buf, pos, labels_wire(head) + pointer_wire(target + HEADER_LEN)),
        stands_at(buf, target, name_wire(tail)),
    ensures
        parse_name(buf, pos, false) == parsed(head + tail, pos + labels_wire(head).len() + 2),
        parse_name(name_wire(head + tail), 0, false) == parsed(
            head + tail,
            name_wire(head + tail).len() as int,
        ),
{
    let written = labels_wire(head) + pointer_wire(target + HEADER_LEN);
    let at = pos + labels_wire(head).len();
    let here = buf.subrange(pos, pos + written.len());
    assert(buf.subrange(pos, at) =~= labels_wire(head));
    lemma_labels_then_rest(buf, pos, head, false);
    assert(buf[at] == here[at - pos]);
    assert(buf[at + 1] == here[at - pos + 1]);
    let full = name_wire(tail);
    let before = buf.subrange(0, target);
    let after = buf.subrange(target + full.len(), buf.len() as int);
    assert(before + full + after =~= buf);
    lemma_name_round_trip(before, tail, after, true);
    lemma_name_round_trip(Seq::empty(), head + tail, Seq::empty(), false);
}

/// Of two chained pointers only the first is followed: where a pointer
/// leads to labels that end in another pointer, the name is those labels
/// and ends there, and the section goes on behind the first pointer. This
/// holds as well where the second pointer leads back to the first.
pub proof fn lemma_second_pointer_ends_name(
    buf: Seq<u8>,
    pos: int,
    target: int,
    labels: Seq<Seq<char>>,
)
    requires
        0 <= pos,
        pos + 2 <= buf.len(),
        is_pointer(buf[pos]),
        pointer_offset(buf[pos], buf[pos + 1]) == target + HEADER_LEN,
        name_fits(labels, MAX_QUESTION_LABEL as int),
        stands_at(buf, target, labels_wire(labels)),
        target + labels_wire(labels).len() < buf.len(),
        is_pointer(buf[target + labels_wire(labels).len()]),
    ensures
        parse_name(buf, pos, false) == parsed(labels, pos + 2),
{
    lemma_labels_then_rest(buf, target, labels, true);
}

} // verus!
