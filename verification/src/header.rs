use crate::error::DecodeError;
use crate::wire::{get_u16, high_byte, low_byte, u16_at};
use vstd::prelude::*;

verus! {

/// The number of bytes of a header, which precede the questions in a
/// message.
pub const HEADER_LEN: usize = 12;

/// The largest number of entries that the header can count in a section.
pub const MAX_COUNT: usize = 65535;

/// The fixed twelve-byte header of a DNS message.
#[derive(Debug, Clone, Copy)]
pub struct DNSHeader {
    pub id: u16,
    pub qr: u8,
    pub opcode: u8,
    pub aa: u8,
    pub tc: u8,
    pub rd: u8,
    pub ra: u8,
    pub z: u8,
    pub rcode: u8,
    pub qdcount: u16,
    pub ancount: u16,
    pub nscount: u16,
    pub arcount: u16,
}

impl DNSHeader {
    /// Every flag field fits the bits that the format gives it.
    pub open spec fn wf(&self) -> bool {
        &&& self.qr < 2
        &&& self.opcode < 16
        &&& self.aa < 2
        &&& self.tc < 2
        &&& self.rd < 2
        &&& self.ra < 2
        &&& self.z < 8
        &&& self.rcode < 16
    }

    /// The third byte: qr, opcode, aa, tc, rd from the high bit down.
    pub open spec fn flags_hi(&self) -> u8 {
        ((self.qr % 2) * 128 + (self.opcode % 16) * 8 + (self.aa % 2) * 4 + (self.tc % 2) * 2
            + self.rd % 2) as u8
    }

    /// The fourth byte: ra, z, rcode from the high bit down.
    pub open spec fn flags_lo(&self) -> u8 {
        ((self.ra % 2) * 128 + (self.z % 8) * 16 + self.rcode % 16) as u8
    }

    /// The twelve bytes that stand for this header on the wire.
    pub open spec fn wire(&self) -> Seq<u8> {
        seq![
            (self.id / 256) as u8,
            (self.id % 256) as u8,
            self.flags_hi(),
            self.flags_lo(),
            (self.qdcount / 256) as u8,
            (self.qdcount % 256) as u8,
            (self.ancount / 256) as u8,
            (self.ancount % 256) as u8,
            (self.nscount / 256) as u8,
            (self.nscount % 256) as u8,
            (self.arcount / 256) as u8,
            (self.arcount % 256) as u8,
        ]
    }

    /// Packs the header into its twelve bytes. Each flag field is cut to the
    /// bits that the format gives it before it is packed. This is a
    /// deliberate choice for fields that are out of range: such a field
    /// contributes its low bits and never spills into the bits of its
    /// neighbours, so every field of the packed header is the field reduced
    /// to its width.
    pub fn serialize(&self) -> (bytes: [u8; 12])
        ensures
            bytes@ == self.wire(),
    {
        let (qr, opcode, aa, tc, rd) = (self.qr, self.opcode, self.aa, self.tc, self.rd);
        let (ra, z, rcode) = (self.ra, self.z, self.rcode);
        let b2: u8 = ((qr & 1) << 7) | ((opcode & 15) << 3) | ((aa & 1) << 2) | ((tc & 1) << 1) | (
        rd & 1);
        let b3: u8 = ((ra & 1) << 7) | ((z & 7) << 4) | (rcode & 15);
        assert(b2 == (qr % 2) * 128 + (opcode % 16) * 8 + (aa % 2) * 4 + (tc % 2) * 2 + rd % 2)
            by (bit_vector)
            requires
                b2 == ((qr & 1) << 7) | ((opcode & 15) << 3) | ((aa & 1) << 2) | ((tc & 1) << 1) | (
                rd & 1),
        ;
        assert(b3 == (ra % 2) * 128 + (z % 8) * 16 + rcode % 16) by (bit_vector)
            requires
                b3 == ((ra & 1) << 7) | ((z & 7) << 4) | (rcode & 15),
        ;
        let bytes: [u8; 12] = [
            high_byte(self.id),
            low_byte(self.id),
            b2,
            b3,
            high_byte(self.qdcount),
            low_byte(self.qdcount),
            high_byte(self.ancount),
            low_byte(self.ancount),
            high_byte(self.nscount),
            low_byte(self.nscount),
            high_byte(self.arcount),
            low_byte(self.arcount),
        ];
        bytes
    }

    /// The header that the first twelve bytes of `bytes` stand for.
    pub open spec fn from_wire(bytes: Seq<u8>) -> DNSHeader {
        DNSHeader {
            id: u16_at(bytes, 0),
            qr: bytes[2] / 128,
            opcode: (bytes[2] / 8) % 16,
            aa: (bytes[2] / 4) % 2,
            tc: (bytes[2] / 2) % 2,
            rd: bytes[2] % 2,
            ra: bytes[3] / 128,
            z: (bytes[3] / 16) % 8,
            rcode: bytes[3] % 16,
            qdcount: u16_at(bytes, 4),
            ancount: u16_at(bytes, 6),
            nscount: u16_at(bytes, 8),
            arcount: u16_at(bytes, 10),
        }
    }

    /// Unpacks a header from the first twelve bytes of `buffer`. A buffer of
    /// fewer than twelve bytes is truncated; what follows the twelfth byte
    /// is not looked at.
    pub fn deserialize(buffer: &[u8]) -> (r: Result<DNSHeader, DecodeError>)
        ensures
            r == (if buffer@.len() < HEADER_LEN {
                Err(DecodeError::TruncatedMessage)
            } else {
                Ok(DNSHeader::from_wire(buffer@))
            }),
            r matches Ok(h) ==> h.wf(),
    {
        if buffer.len() < HEADER_LEN {
            return Err(DecodeError::TruncatedMessage);
        }
        let id = get_u16(buffer, 0);
        let b2: u8 = buffer[2];
        let b3: u8 = buffer[3];
        let qr: u8 = b2 >> 7;
        let opcode: u8 = (b2 >> 3) & 0b1111;
        let aa: u8 = (b2 >> 2) & 0b1;
        let tc: u8 = (b2 >> 1) & 0b1;
        let rd: u8 = b2 & 0b1;
        let ra: u8 = b3 >> 7;
        let z: u8 = (b3 >> 4) & 0b111;
        let rcode: u8 = b3 & 0b1111;
        assert(b2 >> 7 == b2 / 128 && (b2 >> 3) & 0b1111 == (b2 / 8) % 16 && (b2 >> 2) & 0b1 == (b2
            / 4) % 2 && (b2 >> 1) & 0b1 == (b2 / 2) % 2 && b2 & 0b1 == b2 % 2) by (bit_vector);
        assert(b3 >> 7 == b3 / 128 && (b3 >> 4) & 0b111 == (b3 / 16) % 8 && b3 & 0b1111 == b3 % 16)
            by (bit_vector);
        let qdcount = get_u16(buffer, 4);
        let ancount = get_u16(buffer, 6);
        let nscount = get_u16(buffer, 8);
        let arcount = get_u16(buffer, 10);
        Ok(
            DNSHeader {
                id,
                qr,
                opcode,
                aa,
                tc,
                rd,
                ra,
                z,
                rcode,
                qdcount,
                ancount,
                nscount,
                arcount,
            },
        )
    }
}

} // verus!
