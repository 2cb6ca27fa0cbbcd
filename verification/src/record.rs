//! Resource records, used here for the answer section.

use vstd::prelude::*;

use crate::errors::{DecodeError, EncodeError};
use crate::name::{parse_name, spec_name_bytes, wf_name, DomainName, MAX_POINTER_HOPS};
use crate::wire::{be16, be16_val, be32, be32_val, push_u16, push_u32, read_u16_at, read_u32_at};

verus! {

/// One answer record of a message.
#[derive(Debug, PartialEq, Eq)]
pub struct DnsAnswer {
    /// The name the record answers for.
    pub name: DomainName,
    /// The record type.
    pub qtype: u16,
    /// The record class.
    pub qclass: u16,
    /// How long the record may be cached, in seconds.
    pub ttl: u32,
    /// The length of `data`.  Encoding recomputes the field from `data`
    /// rather than trusting a stale value.
    pub data_len: u16,
    /// The record data, copied verbatim from or to the wire.
    pub data: Vec<u8>,
}

/// The mathematical content of an answer record.
pub struct AnswerModel {
    /// The labels of the record's name.
    pub name: Seq<Seq<u8>>,
    /// The record type.
    pub qtype: u16,
    /// The record class.
    pub qclass: u16,
    /// How long the record may be cached, in seconds.
    pub ttl: u32,
    /// The declared length of the record data.
    pub data_len: u16,
    /// The record data.
    pub data: Seq<u8>,
}

impl View for DnsAnswer {
    type V = AnswerModel;

    open spec fn view(&self) -> AnswerModel {
        AnswerModel {
            name: self.name@,
            qtype: self.qtype,
            qclass: self.qclass,
            ttl: self.ttl,
            data_len: self.data_len,
            data: self.data@,
        }
    }
}

/// The encoding of an answer record: the literal name, type, class, a
/// 32-bit time to live, then the data prefixed by its 16-bit length.
/// The length written is always that of the data itself.
pub open spec fn spec_answer_bytes(a: AnswerModel) -> Seq<u8> {
    spec_name_bytes(a.name) + be16(a.qtype) + be16(a.qclass) + be32(a.ttl) + be16(
        a.data.len() as u16,
    ) + a.data
}

/// The answer record read from `buf` starting at `pos`, paired with the
/// position just past it.
pub open spec fn parse_answer(buf: Seq<u8>, pos: int) -> Result<(AnswerModel, int), DecodeError> {
    match parse_name(buf, pos, MAX_POINTER_HOPS as nat) {
        Err(e) => Err(e),
        Ok((name, end)) => if end + 10 <= buf.len() {
            let data_len = be16_val(buf[end + 8], buf[end + 9]);
            if end + 10 + data_len <= buf.len() {
                Ok(
                    (
                        AnswerModel {
                            name,
                            qtype: be16_val(buf[end], buf[end + 1]),
                            qclass: be16_val(buf[end + 2], buf[end + 3]),
                            ttl: be32_val(buf[end + 4], buf[end + 5], buf[end + 6], buf[end + 7]),
                            data_len,
                            data: buf.subrange(end + 10, end + 10 + data_len),
                        },
                        end + 10 + data_len,
                    ),
                )
            } else {
                Err(DecodeError::TooShort)
            }
        } else {
            Err(DecodeError::TooShort)
        },
    }
}

impl DnsAnswer {
    /// An empty record: no name, zero fields, no data.
    pub fn new() -> (r: DnsAnswer)
        ensures
            r@.name == Seq::<Seq<u8>>::empty(),
            r@.qtype == 0u16,
            r@.qclass == 0u16,
            r@.ttl == 0u32,
            r@.data_len == 0u16,
            r@.data == Seq::<u8>::empty(),
    {
        let r = DnsAnswer {
            name: DomainName { labels: Vec::new() },
            qtype: 0,
            qclass: 0,
            ttl: 0,
            data_len: 0,
            data: Vec::new(),
        };
        assert(r@.name =~= Seq::<Seq<u8>>::empty());
        assert(r@.data =~= Seq::<u8>::empty());
        r
    }

    /// Store the octets of a resolved address as the record data, and
    /// keep the declared length in step with it.
    pub fn set_ip_addr(&mut self, octets: &[u8])
        requires
            octets@.len() <= u16::MAX,
        ensures
            final (self).name == old(self).name,
            final (self).qtype == old(self).qtype,
            final (self).qclass == old(self).qclass,
            final (self).ttl == old(self).ttl,
            final (self).data@ == octets@,
            final (self).data_len == octets@.len() as u16,
    {
        self.data = vstd::slice::slice_to_vec(octets);
        self.data_len = self.data.len() as u16;
    }

    /// Decode an answer record from `buffer` starting at `*offset`,
    /// advancing `*offset` past it.  On failure the offset is left
    /// unchanged.
    pub fn from_bytes(buffer: &[u8], offset: &mut usize) -> (r: Result<DnsAnswer, DecodeError>)
        ensures
            match r {
                Ok(a) => {
                    &&& parse_answer(buffer@, *old(offset) as int) == Ok::<_, DecodeError>(
                        (a@, *final(offset) as int),
                    )
                    &&& *old(offset) < *final(offset) <= buffer@.len()
                },
                Err(e) => {
                    &&& parse_answer(buffer@, *old(offset) as int) == Err::<(AnswerModel, int), _>(
                        e,
                    )
                    &&& *final(offset) == *old(offset)
                },
            },
    {
        let (name, consumed) = match DomainName::decode(buffer, *offset) {
            Ok(p) => p,
            Err(e) => {
                return Err(e);
            },
        };
        let blen = buffer.len();
        let end = *offset + consumed;
        if blen - end < 10 {
            return Err(DecodeError::TooShort);
        }
        let data_len = read_u16_at(buffer, end + 8);
        if (blen - end) - 10 < data_len as usize {
            return Err(DecodeError::TooShort);
        }
        let qtype = read_u16_at(buffer, end);
        let qclass = read_u16_at(buffer, end + 2);
        let ttl = read_u32_at(buffer, end + 4);
        let data: Vec<u8> = vstd::slice::slice_to_vec(
            vstd::slice::slice_subrange(buffer, end + 10, end + 10 + data_len as usize),
        );
        *offset = end + 10 + data_len as usize;
        Ok(DnsAnswer { name, qtype, qclass, ttl, data_len, data })
    }

    /// Append the encoded record: the literal name, type, class, time to
    /// live, then the data prefixed by its recomputed length.  A name
    /// violating the length invariants is rejected, and the buffer is
    /// then left unchanged.
    pub fn write_bytes(&self, buf: &mut Vec<u8>) -> (r: Result<(), EncodeError>)
        requires
            self.data@.len() <= u16::MAX,
        ensures
            match r {
                Ok(()) => wf_name(self@.name) && final(buf)@ == old(buf)@ + spec_answer_bytes(
                    self@,
                ),
                Err(e) => {
                    &&& e == EncodeError::NameTooLong
                    &&& !wf_name(self@.name)
                    &&& final(buf)@ == old(buf)@
                },
            },
    {
        match self.name.write_bytes(buf) {
            Ok(()) => {},
            Err(e) => {
                return Err(e);
            },
        }
        push_u16(buf, self.qtype);
        push_u16(buf, self.qclass);
        push_u32(buf, self.ttl);
        push_u16(buf, self.data.len() as u16);
        buf.extend_from_slice(self.data.as_slice());
        assert(buf@ =~= old(buf)@ + spec_answer_bytes(self@));
        Ok(())
    }
}

} // verus!
