//! The fixed 12-byte message header and its bit-packed flag word.

use vstd::prelude::*;

use crate::errors::DecodeError;
use crate::wire::{be16, be16_val, push_u16, read_u16_at};

verus! {

/// The header of a DNS message.
///
/// Flag word layout, bit 15 being the most significant bit of the third
/// byte on the wire: `qr`@15, `opcode`@11..=14, `aa`@10, `tc`@9, `rd`@8,
/// `ra`@7, `z`@4..=6, `rcode`@0..=3.  The reserved bits `z` are always
/// written as zero and always decode as zero.
#[derive(Clone, Copy, Debug, PartialEq, Eq, Structural)]
pub struct DnsHeader {
    /// Packet identifier, echoed in the response.
    pub id: u16,
    /// True on a response, false on a query.
    pub qr: bool,
    /// Operation code, a 4-bit field.
    pub opcode: u8,
    /// Authoritative answer.
    pub aa: bool,
    /// Truncation.
    pub tc: bool,
    /// Recursion desired.
    pub rd: bool,
    /// Recursion available.
    pub ra: bool,
    /// Reserved bits, always encoded as zero.
    pub z: u8,
    /// Response code, a 4-bit field.
    pub rcode: u8,
    /// Number of question entries.
    pub qdcount: u16,
    /// Number of answer records.
    pub ancount: u16,
    /// Number of authority records.
    pub nscount: u16,
    /// Number of additional records.
    pub arcount: u16,
}

/// The bit of a flag.
pub open spec fn bool_bit(b: bool) -> u16 {
    if b {
        1
    } else {
        0
    }
}

impl DnsHeader {
    /// The 4-bit fields fit in their slots of the flag word.
    pub open spec fn wf(self) -> bool {
        self.opcode < 16 && self.rcode < 16
    }

    /// The packed 16-bit flag word, with the reserved bits written as zero.
    pub open spec fn flags_word(self) -> u16 {
        (bool_bit(self.qr) << 15) | ((self.opcode as u16) << 11) | (bool_bit(self.aa) << 10) | (
        bool_bit(self.tc) << 9) | (bool_bit(self.rd) << 8) | (bool_bit(self.ra) << 7) | (
        self.rcode as u16)
    }

    /// The 12 bytes of the encoded header.
    pub open spec fn spec_bytes(self) -> Seq<u8> {
        be16(self.id) + be16(self.flags_word()) + be16(self.qdcount) + be16(self.ancount) + be16(
            self.nscount,
        ) + be16(self.arcount)
    }
}

/// The header read from the first 12 bytes of a buffer.
pub open spec fn parse_header(buf: Seq<u8>) -> DnsHeader
    recommends
        buf.len() >= 12,
{
    let w = be16_val(buf[2], buf[3]);
    DnsHeader {
        id: be16_val(buf[0], buf[1]),
        qr: (w >> 15) & 1 == 1,
        opcode: ((w >> 11) & 0xF) as u8,
        aa: (w >> 10) & 1 == 1,
        tc: (w >> 9) & 1 == 1,
        rd: (w >> 8) & 1 == 1,
        ra: (w >> 7) & 1 == 1,
        z: 0,
        rcode: (w & 0xF) as u8,
        qdcount: be16_val(buf[4], buf[5]),
        ancount: be16_val(buf[6], buf[7]),
        nscount: be16_val(buf[8], buf[9]),
        arcount: be16_val(buf[10], buf[11]),
    }
}

/// Each field of a packed flag word reads back as it was written, as long
/// as every field stays within its slot.
proof fn lemma_flags_extract(q: u16, o: u16, a: u16, t: u16, rd: u16, ra: u16, rc: u16)
    requires
        q < 2,
        o < 16,
        a < 2,
        t < 2,
        rd < 2,
        ra < 2,
        rc < 16,
    ensures
        ((q << 15) | (o << 11) | (a << 10) | (t << 9) | (rd << 8) | (ra << 7) | rc) >> 15 & 1 == q,
        ((q << 15) | (o << 11) | (a << 10) | (t << 9) | (rd << 8) | (ra << 7) | rc) >> 11 & 0xF
            == o,
        ((q << 15) | (o << 11) | (a << 10) | (t << 9) | (rd << 8) | (ra << 7) | rc) >> 10 & 1 == a,
        ((q << 15) | (o << 11) | (a << 10) | (t << 9) | (rd << 8) | (ra << 7) | rc) >> 9 & 1 == t,
        ((q << 15) | (o << 11) | (a << 10) | (t << 9) | (rd << 8) | (ra << 7) | rc) >> 8 & 1 == rd,
        ((q << 15) | (o << 11) | (a << 10) | (t << 9) | (rd << 8) | (ra << 7) | rc) >> 7 & 1 == ra,
        ((q << 15) | (o << 11) | (a << 10) | (t << 9) | (rd << 8) | (ra << 7) | rc) & 0xF == rc,
{
    assert(((q << 15) | (o << 11) | (a << 10) | (t << 9) | (rd << 8) | (ra << 7) | rc) >> 15 & 1
        == q && ((q << 15) | (o << 11) | (a << 10) | (t << 9) | (rd << 8) | (ra << 7) | rc) >> 11
        & 0xF == o && ((q << 15) | (o << 11) | (a << 10) | (t << 9) | (rd << 8) | (ra << 7) | rc)
        >> 10 & 1 == a && ((q << 15) | (o << 11) | (a << 10) | (t << 9) | (rd << 8) | (ra << 7)
        | rc) >> 9 & 1 == t && ((q << 15) | (o << 11) | (a << 10) | (t << 9) | (rd << 8) | (ra
        << 7) | rc) >> 8 & 1 == rd && ((q << 15) | (o << 11) | (a << 10) | (t << 9) | (rd << 8) | (
    ra << 7) | rc) >> 7 & 1 == ra && ((q << 15) | (o << 11) | (a << 10) | (t << 9) | (rd << 8) | (
    ra << 7) | rc) & 0xF == rc) by (bit_vector)
        requires
            q < 2 && o < 16 && a < 2 && t < 2 && rd < 2 && ra < 2 && rc < 16,
    ;
}

/// Decoding an encoded header restores every field, except the reserved
/// bits, which always decode as zero.
pub proof fn lemma_header_roundtrip(h: DnsHeader)
    requires
        h.wf(),
    ensures
        parse_header(h.spec_bytes()) == (DnsHeader { z: 0, ..h }),
{
    let b = h.spec_bytes();
    crate::wire::lemma_be16_roundtrip(h.id);
    crate::wire::lemma_be16_roundtrip(h.flags_word());
    crate::wire::lemma_be16_roundtrip(h.qdcount);
    crate::wire::lemma_be16_roundtrip(h.ancount);
    crate::wire::lemma_be16_roundtrip(h.nscount);
    crate::wire::lemma_be16_roundtrip(h.arcount);
    assert(b[0] == be16(h.id)[0] && b[1] == be16(h.id)[1]);
    assert(b[2] == be16(h.flags_word())[0] && b[3] == be16(h.flags_word())[1]);
    assert(b[4] == be16(h.qdcount)[0] && b[5] == be16(h.qdcount)[1]);
    assert(b[6] == be16(h.ancount)[0] && b[7] == be16(h.ancount)[1]);
    assert(b[8] == be16(h.nscount)[0] && b[9] == be16(h.nscount)[1]);
    assert(b[10] == be16(h.arcount)[0] && b[11] == be16(h.arcount)[1]);
    lemma_flags_extract(
        bool_bit(h.qr),
        h.opcode as u16,
        bool_bit(h.aa),
        bool_bit(h.tc),
        bool_bit(h.rd),
        bool_bit(h.ra),
        h.rcode as u16,
    );
}

impl DnsHeader {
    /// Decode a header from the first 12 bytes of `buffer`.
    pub fn from_bytes(buffer: &[u8]) -> (r: Result<DnsHeader, DecodeError>)
        ensures
            match r {
                Ok(h) => buffer@.len() >= 12 && h == parse_header(buffer@) && h.wf(),
                Err(e) => buffer@.len() < 12 && e == DecodeError::TooShort,
            },
    {
        if buffer.len() < 12 {
            return Err(DecodeError::TooShort);
        }
        let w = read_u16_at(buffer, 2);
        proof {
            assert(((w >> 11) & 0xF) < 16 && (w & 0xF) < 16) by (bit_vector);
        }
        Ok(
            DnsHeader {
                id: read_u16_at(buffer, 0),
                qr: (w >> 15) & 1 == 1,
                opcode: ((w >> 11) & 0xF) as u8,
                aa: (w >> 10) & 1 == 1,
                tc: (w >> 9) & 1 == 1,
                rd: (w >> 8) & 1 == 1,
                ra: (w >> 7) & 1 == 1,
                z: 0,
                rcode: (w & 0xF) as u8,
                qdcount: read_u16_at(buffer, 4),
                ancount: read_u16_at(buffer, 6),
                nscount: read_u16_at(buffer, 8),
                arcount: read_u16_at(buffer, 10),
            },
        )
    }

    /// Append the 12 encoded header bytes.  The reserved bits are written
    /// as zero whatever `self.z` holds.
    pub fn write_bytes(&self, buf: &mut Vec<u8>)
        ensures
            final(buf)@ == old(buf)@ + self.spec_bytes(),
    {
        push_u16(buf, self.id);
        let flags = (if self.qr {
            1u16
        } else {
            0u16
        } << 15) | ((self.opcode as u16) << 11) | (if self.aa {
            1u16
        } else {
            0u16
        } << 10) | (if self.tc {
            1u16
        } else {
            0u16
        } << 9) | (if self.rd {
            1u16
        } else {
            0u16
        } << 8) | (if self.ra {
            1u16
        } else {
            0u16
        } << 7) | (self.rcode as u16);
        push_u16(buf, flags);
        push_u16(buf, self.qdcount);
        push_u16(buf, self.ancount);
        push_u16(buf, self.nscount);
        push_u16(buf, self.arcount);
        assert(buf@ =~= old(buf)@ + self.spec_bytes());
    }

    /// Mark the header as a response or a query.
    pub fn set_is_resp(&mut self, qr: bool)
        ensures
            *final(self) == (DnsHeader { qr, ..*old(self) }),
    {
        self.qr = qr;
    }

    /// Set the packet identifier.
    pub fn set_id(&mut self, id: u16)
        ensures
            *final(self) == (DnsHeader { id, ..*old(self) }),
    {
        self.id = id;
    }

    /// Set the number of question entries.
    pub fn set_num_questions(&mut self, qdcount: u16)
        ensures
            *final(self) == (DnsHeader { qdcount, ..*old(self) }),
    {
        self.qdcount = qdcount;
    }

    /// Set the number of answer records.
    pub fn set_answer_count(&mut self, ancount: u16)
        ensures
            *final(self) == (DnsHeader { ancount, ..*old(self) }),
    {
        self.ancount = ancount;
    }
}

} // verus!
