use byteorder::{BigEndian, ByteOrder};
use nom::AsBytes;
use vstd::prelude::*;
use vstd::slice::slice_subrange;
use vstd::utf8::{decode_utf8, valid_utf8};

verus! {

/// The two bytes of a 16-bit number in network byte order.
pub open spec fn u16_wire(x: u16) -> Seq<u8> {
    seq![(x / 256) as u8, (x % 256) as u8]
}

/// The four bytes of a 32-bit number in network byte order.
pub open spec fn u32_wire(x: u32) -> Seq<u8> {
    seq![
        (x / 0x100_0000) as u8,
        ((x / 0x1_0000) % 256) as u8,
        ((x / 0x100) % 256) as u8,
        (x % 256) as u8,
    ]
}

/// The 16-bit number that the two bytes from `pos` on hold in network byte
/// order.
pub open spec fn u16_at(bytes: Seq<u8>, pos: int) -> u16 {
    (bytes[pos] * 256 + bytes[pos + 1]) as u16
}

/// The 32-bit number that the four bytes from `pos` on hold in network byte
/// order.
pub open spec fn u32_at(bytes: Seq<u8>, pos: int) -> u32 {
    (bytes[pos] * 0x100_0000 + bytes[pos + 1] * 0x1_0000 + bytes[pos + 2] * 0x100 + bytes[pos
        + 3]) as u32
}

/// The text that `String::from_utf8_lossy` makes of bytes that are not
/// valid UTF-8.
pub uninterp spec fn lossy_text(bytes: Seq<u8>) -> Seq<char>;

/// The text of a label: the decoded bytes where they are valid UTF-8, and
/// the lossy replacement text where they are not.
pub open spec fn label_text(bytes: Seq<u8>) -> Seq<char> {
    if valid_utf8(bytes) {
        decode_utf8(bytes)
    } else {
        lossy_text(bytes)
    }
}

/// Calls `byteorder::BigEndian::read_u16`. Taken on trust: the result is
/// the number that the first two bytes of `buf` hold in network byte order.
/// The call panics on a slice of fewer than two bytes, which the
/// precondition rules out.
#[verifier::external_body]
pub(crate) fn read_u16_be(buf: &[u8]) -> (x: u16)
    requires
        buf@.len() >= 2,
    ensures
        x == u16_at(buf@, 0),
{
    BigEndian::read_u16(buf)
}

/// Calls `nom::AsBytes::as_bytes` on the slice of `buffer` and copies what
/// comes back. Taken on trust: for a byte slice that call hands back the
/// slice itself, so the copy holds the bytes of `buffer`.
#[verifier::external_body]
pub(crate) fn owned_bytes(buffer: &Vec<u8>) -> (out: Vec<u8>)
    ensures
        out@ == buffer@,
{
    buffer.as_slice().as_bytes().to_owned()
}

/// Calls `String::from_utf8_lossy`. Taken on trust: bytes that are valid
/// UTF-8 give the text they encode; for other bytes the result, in which
/// each malformed sequence is replaced by U+FFFD, depends on the bytes alone
/// and is only named here, as `lossy_text`.
#[verifier::external_body]
pub(crate) fn text_from_bytes(bytes: &[u8]) -> (text: String)
    ensures
        text@ == (if valid_utf8(bytes@) {
            decode_utf8(bytes@)
        } else {
            lossy_text(bytes@)
        }),
{
    String::from_utf8_lossy(bytes).into_owned()
}

/// Reading the two bytes of a 16-bit number gives the number back.
pub proof fn lemma_u16_round_trip(x: u16)
    ensures
        u16_wire(x).len() == 2,
        u16_at(u16_wire(x), 0) == x,
{
}

/// Reading the four bytes of a 32-bit number gives the number back.
pub proof fn lemma_u32_round_trip(x: u32)
    ensures
        u32_wire(x).len() == 4,
        u32_at(u32_wire(x), 0) == x,
{
}

/// The high-order byte of a 16-bit number.
pub fn high_byte(x: u16) -> (b: u8)
    ensures
        b == x / 256,
{
    assert((x >> 8) == x / 256 && (x >> 8) < 256) by (bit_vector);
    (x >> 8) as u8
}

/// The low-order byte of a 16-bit number.
pub fn low_byte(x: u16) -> (b: u8)
    ensures
        b == x % 256,
{
    assert((x & 0xff) == x % 256 && (x & 0xff) < 256) by (bit_vector);
    (x & 0xff) as u8
}

/// Reads the 16-bit number whose two bytes stand at `pos`.
pub fn get_u16(buffer: &[u8], pos: usize) -> (x: u16)
    requires
        pos + 2 <= buffer@.len(),
    ensures
        x == u16_at(buffer@, pos as int),
{
    assert(buffer.len() == buffer@.len());
    read_u16_be(slice_subrange(buffer, pos, pos + 2))
}

/// Reads the 32-bit number whose four bytes stand at `pos`.
pub fn get_u32(buffer: &[u8], pos: usize) -> (x: u32)
    requires
        pos + 4 <= buffer@.len(),
    ensures
        x == u32_at(buffer@, pos as int),
{
    let (b0, b1, b2, b3) = (buffer[pos], buffer[pos + 1], buffer[pos + 2], buffer[pos + 3]);
    let x: u32 = ((b0 as u32) << 24) | ((b1 as u32) << 16) | ((b2 as u32) << 8) | (b3 as u32);
    assert(x == b0 * 0x100_0000 + b1 * 0x1_0000 + b2 * 0x100 + b3) by (bit_vector)
        requires
            x == ((b0 as u32) << 24) | ((b1 as u32) << 16) | ((b2 as u32) << 8) | (b3 as u32),
    ;
    x
}

/// Appends the two bytes of a 16-bit number in network byte order.
pub fn put_u16(buffer: &mut Vec<u8>, x: u16)
    ensures
        final(buffer)@ == old(buffer)@ + u16_wire(x),
{
    buffer.push(high_byte(x));
    buffer.push(low_byte(x));
}

/// Appends the four bytes of a 32-bit number in network byte order.
pub fn put_u32(buffer: &mut Vec<u8>, x: u32)
    ensures
        final(buffer)@ == old(buffer)@ + u32_wire(x),
{
    assert((x >> 24) == x / 0x100_0000 && (x >> 24) < 256) by (bit_vector);
    assert(((x >> 16) & 0xff) == (x / 0x1_0000) % 256 && ((x >> 16) & 0xff) < 256) by (bit_vector);
    assert(((x >> 8) & 0xff) == (x / 0x100) % 256 && ((x >> 8) & 0xff) < 256) by (bit_vector);
    assert((x & 0xff) == x % 256 && (x & 0xff) < 256) by (bit_vector);
    buffer.push((x >> 24) as u8);
    buffer.push(((x >> 16) & 0xff) as u8);
    buffer.push(((x >> 8) & 0xff) as u8);
    buffer.push((x & 0xff) as u8);
}

} // verus!
