use crate::error::{parsed, rejected, DecodeError, Parse};
use crate::header::HEADER_LEN;
use crate::wire::{get_u16, label_text, text_from_bytes};
use vstd::prelude::*;
use vstd::slice::slice_subrange;
use vstd::utf8::encode_utf8;

verus! {

/// What parsing a name gives: its labels and the position at which the
/// section goes on after the name.
pub type NameParse = Parse<Seq<Seq<char>>>;

/// The labels of a name as the codec's contracts see them.
pub open spec fn name_of(labels: Seq<String>) -> Seq<Seq<char>> {
    Seq::new(labels.len(), |i: int| labels[i]@)
}

/// One label on the wire: a length byte, then the label's UTF-8 bytes. The
/// length byte holds the length modulo 256, so only a label of at most 255
/// bytes is framed by it.
pub open spec fn label_wire(label: Seq<char>) -> Seq<u8> {
    seq![(encode_utf8(label).len() % 256) as u8] + encode_utf8(label)
}

/// The labels of a name on the wire, one after the other.
pub open spec fn labels_wire(name: Seq<Seq<char>>) -> Seq<u8>
    decreases name.len(),
{
    if name.len() == 0 {
        Seq::empty()
    } else {
        label_wire(name[0]) + labels_wire(name.drop_first())
    }
}

/// A name on the wire: its labels, then the zero byte that ends it. No
/// compression pointer is ever written.
pub open spec fn name_wire(name: Seq<Seq<char>>) -> Seq<u8> {
    labels_wire(name) + seq![0u8]
}

/// A length byte whose two high bits are set announces a compression
/// pointer.
pub open spec fn is_pointer(byte: u8) -> bool {
    byte >= 192
}

/// The offset that the two bytes of a compression pointer hold, counted
/// from the start of the message.
pub open spec fn pointer_offset(first: u8, second: u8) -> int {
    (first - 192) * 256 + second
}

/// Parses a name of the question section at `pos`. `buf` is the message
/// without its header, so a pointer to offset `o` of the message leads to
/// `o - 12` in `buf`. The first pointer of a name is followed; a pointer
/// met after that ends the name. The position that comes back is the one
/// behind the name where it was written, not where a pointer led.
pub open spec fn parse_name(buf: Seq<u8>, pos: int, jumped: bool) -> NameParse
    decreases
            (if jumped {
                0int
            } else {
                1int
            }),
            buf.len() - pos,
{
    if pos < 0 || pos >= buf.len() {
        Err(DecodeError::TruncatedMessage)
    } else if is_pointer(buf[pos]) {
        if jumped {
            Ok((Seq::empty(), pos))
        } else if pos + 1 >= buf.len() {
            Err(DecodeError::TruncatedMessage)
        } else {
            let offset = pointer_offset(buf[pos], buf[pos + 1]);
            if offset < HEADER_LEN || offset - HEADER_LEN >= buf.len() {
                Err(DecodeError::MalformedPointer)
            } else {
                match parse_name(buf, offset - HEADER_LEN, true) {
                    Ok((labels, _)) => Ok((labels, pos + 2)),
                    Err(e) => Err(e),
                }
            }
        }
    } else if buf[pos] == 0 {
        Ok((Seq::empty(), pos + 1))
    } else {
        let next = pos + 1 + buf[pos];
        if next > buf.len() {
            Err(DecodeError::TruncatedMessage)
        } else {
            match parse_name(buf, next, jumped) {
                Ok((labels, end)) => Ok(
                    (seq![label_text(buf.subrange(pos + 1, next))] + labels, end),
                ),
                Err(e) => Err(e),
            }
        }
    }
}

/// Parses a name of the answer section at `pos`. Every length byte other
/// than zero is taken as the length of a label: no pointer is recognised.
pub open spec fn parse_plain_name(buf: Seq<u8>, pos: int) -> NameParse
    decreases buf.len() - pos,
{
    if pos < 0 || pos >= buf.len() {
        Err(DecodeError::TruncatedMessage)
    } else if buf[pos] == 0 {
        Ok((Seq::empty(), pos + 1))
    } else {
        let next = pos + 1 + buf[pos];
        if next > buf.len() {
            Err(DecodeError::TruncatedMessage)
        } else {
            match parse_plain_name(buf, next) {
                Ok((labels, end)) => Ok(
                    (seq![label_text(buf.subrange(pos + 1, next))] + labels, end),
                ),
                Err(e) => Err(e),
            }
        }
    }
}

/// A name that parses ends behind the place where it began, inside the
/// buffer.
pub proof fn lemma_parse_name_end(buf: Seq<u8>, pos: int, jumped: bool)
    ensures
        parse_name(buf, pos, jumped) matches Ok((_, end)) ==> pos <= end <= buf.len() && (!jumped
            ==> pos < end),
    decreases
            (if jumped {
                0int
            } else {
                1int
            }),
            buf.len() - pos,
{
    if 0 <= pos < buf.len() && !is_pointer(buf[pos]) && buf[pos] != 0 {
        let next = pos + 1 + buf[pos];
        if next <= buf.len() {
            lemma_parse_name_end(buf, next, jumped);
        }
    }
}

/// A name that parses ends behind the place where it began, inside the
/// buffer.
pub proof fn lemma_parse_plain_name_end(buf: Seq<u8>, pos: int)
    ensures
        parse_plain_name(buf, pos) matches Ok((_, end)) ==> pos < end <= buf.len(),
    decreases buf.len() - pos,
{
    if 0 <= pos < buf.len() && buf[pos] != 0 {
        let next = pos + 1 + buf[pos];
        if next <= buf.len() {
            lemma_parse_plain_name_end(buf, next);
        }
    }
}

/// The longest label, in bytes, that the question section reads back: a
/// longer one has a length byte that announces a pointer.
pub const MAX_QUESTION_LABEL: usize = 191;

/// The longest label, in bytes, that a length byte can frame.
pub const MAX_LABEL: usize = 255;

/// The label is not empty and its UTF-8 bytes are at most `limit`.
pub open spec fn label_fits(label: Seq<char>, limit: int) -> bool {
    1 <= encode_utf8(label).len() <= limit
}

/// Every label of the name is not empty and at most `limit` bytes long.
pub open spec fn name_fits(name: Seq<Seq<char>>, limit: int) -> bool {
    forall|i: int| 0 <= i < name.len() ==> label_fits(#[trigger] name[i], limit)
}

/// What the whole parse comes to once `prefix` has been read and `rest` is
/// what parsing gives from the current position on.
spec fn resumed(prefix: Seq<Seq<char>>, rest: NameParse, jumped: bool, resume: int) -> NameParse {
    match rest {
        Ok((labels, end)) => Ok(
            (
                prefix + labels,
                if jumped {
                    resume
                } else {
                    end
                },
            ),
        ),
        Err(e) => Err(e),
    }
}

/// Appends a name to `buffer`: each label behind its length byte, then the
/// terminating zero.
pub fn write_name(buffer: &mut Vec<u8>, labels: &Vec<String>)
    ensures
        final(buffer)@ == old(buffer)@ + name_wire(name_of(labels@)),
{
    let ghost name = name_of(labels@);
    let mut i: usize = 0;
    assert(name.skip(0) =~= name);
    while i < labels.len()
        invariant
            i <= labels.len(),
            name == name_of(labels@),
            buffer@ + labels_wire(name.skip(i as int)) == old(buffer)@ + labels_wire(name),
        decreases labels.len() - i,
    {
        let bytes = labels[i].as_str().as_bytes();
        let len: usize = bytes.len();
        proof {
            let tail = name.skip(i as int);
            assert(tail.drop_first() =~= name.skip(i + 1));
        }
        buffer.push((len % 256) as u8);
        buffer.extend_from_slice(bytes);
        i += 1;
    }
    buffer.push(0);
}

/// Reads the label whose length byte stands at `pos`, and gives it back
/// with the position behind it.
fn read_label(buffer: &[u8], pos: usize) -> (r: Result<(String, usize), DecodeError>)
    requires
        pos < buffer@.len(),
    ensures
        r == (if pos + 1 + buffer@[pos as int] > buffer@.len() {
            Err(DecodeError::TruncatedMessage)
        } else {
            Ok((r->Ok_0.0, (pos + 1 + buffer@[pos as int]) as usize))
        }),
        r matches Ok((text, next)) ==> text@ == label_text(
            buffer@.subrange(pos + 1, next as int),
        ),
{
    let len: usize = buffer[pos] as usize;
    if len > buffer.len() - pos - 1 {
        return Err(DecodeError::TruncatedMessage);
    }
    let text = text_from_bytes(slice_subrange(buffer, pos + 1, pos + 1 + len));
    Ok((text, pos + 1 + len))
}

/// Reads a name of the question section at `start`, following at most one
/// compression pointer.
pub fn read_name(buffer: &[u8], start: usize) -> (r: Result<(Vec<String>, usize), DecodeError>)
    ensures
        match r {
            Ok((labels, end)) => parse_name(buffer@, start as int, false) == parsed(
                name_of(labels@),
                end as int,
            ),
            Err(e) => parse_name(buffer@, start as int, false) == rejected::<Seq<Seq<char>>>(e),
        },
{
    let ghost buf = buffer@;
    let ghost goal = parse_name(buf, start as int, false);
    let mut labels: Vec<String> = Vec::new();
    let mut pos: usize = start;
    let mut jumped = false;
    let mut resume: usize = 0;
    loop
        invariant
            buf == buffer@,
            goal == parse_name(buf, start as int, false),
            goal == resumed(
                name_of(labels@),
                parse_name(buf, pos as int, jumped),
                jumped,
                resume as int,
            ),
        decreases
                (if jumped {
                    0int
                } else {
                    1int
                }),
                buffer@.len() - pos,
    {
        if pos >= buffer.len() {
            return Err(DecodeError::TruncatedMessage);
        }
        let len: u8 = buffer[pos];
        assert((len & 0xC0 == 0xC0) == (len >= 192)) by (bit_vector);
        if len & 0xC0 == 0xC0 {
            if jumped {
                return Ok((labels, resume));
            }
            if pos + 1 >= buffer.len() {
                return Err(DecodeError::TruncatedMessage);
            }
            let field: u16 = get_u16(buffer, pos);
            let offset: usize = (field - 0xC000) as usize;
            if offset < HEADER_LEN || offset - HEADER_LEN >= buffer.len() {
                return Err(DecodeError::MalformedPointer);
            }
            resume = pos + 2;
            pos = offset - HEADER_LEN;
            jumped = true;
        } else if len == 0 {
            if jumped {
                return Ok((labels, resume));
            } else {
                return Ok((labels, pos + 1));
            }
        } else {
            let ghost before = name_of(labels@);
            match read_label(buffer, pos) {
                Err(e) => {
                    return Err(e);
                },
                Ok((text, next)) => {
                    proof {
                        match parse_name(buf, next as int, jumped) {
                            Ok((l, e)) => {
                                assert(before.push(text@) + l =~= before + (seq![text@] + l));
                            },
                            Err(e) => {},
                        }
                    }
                    labels.push(text);
                    assert(name_of(labels@) =~= before.push(text@));
                    pos = next;
                },
            }
        }
    }
}

/// Reads a name of the answer section at `start`, where no pointer is
/// recognised.
pub fn read_plain_name(buffer: &[u8], start: usize) -> (r: Result<
    (Vec<String>, usize),
    DecodeError,
>)
    ensures
        match r {
            Ok((labels, end)) => parse_plain_name(buffer@, start as int) == parsed(
                name_of(labels@),
                end as int,
            ),
            Err(e) => parse_plain_name(buffer@, start as int) == rejected::<Seq<Seq<char>>>(e),
        },
{
    let ghost buf = buffer@;
    let ghost goal = parse_plain_name(buf, start as int);
    let mut labels: Vec<String> = Vec::new();
    let mut pos: usize = start;
    loop
        invariant
            buf == buffer@,
            goal == parse_plain_name(buf, start as int),
            goal == resumed(name_of(labels@), parse_plain_name(buf, pos as int), false, 0),
        decreases buffer@.len() - pos,
    {
        if pos >= buffer.len() {
            return Err(DecodeError::TruncatedMessage);
        }
        if buffer[pos] == 0 {
            return Ok((labels, pos + 1));
        }
        let ghost before = name_of(labels@);
        match read_label(buffer, pos) {
            Err(e) => {
                return Err(e);
            },
            Ok((text, next)) => {
                proof {
                    match parse_plain_name(buf, next as int) {
                        Ok((l, e)) => {
                            assert(before.push(text@) + l =~= before + (seq![text@] + l));
                        },
                        Err(e) => {},
                    }
                }
                labels.push(text);
                assert(name_of(labels@) =~= before.push(text@));
                pos = next;
            },
        }
    }
}

} // verus!
