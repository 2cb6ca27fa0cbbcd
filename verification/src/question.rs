//! Question entries: a queried name with its type and class.

use vstd::prelude::*;

use crate::errors::{DecodeError, EncodeError};
use crate::name::{parse_name, spec_name_bytes, wf_name, DomainName, MAX_POINTER_HOPS};
use crate::wire::{be16, be16_val, push_u16, read_u16_at};

verus! {

/// One question entry of a message.
#[derive(Debug, PartialEq, Eq)]
pub struct DnsQuestion {
    /// The queried name.
    pub qname: DomainName,
    /// The queried record type.
    pub qtype: u16,
    /// The queried class.
    pub qclass: u16,
}

/// The mathematical content of a question.
pub struct QuestionModel {
    /// The labels of the queried name.
    pub name: Seq<Seq<u8>>,
    /// The queried record type.
    pub qtype: u16,
    /// The queried class.
    pub qclass: u16,
}

impl View for DnsQuestion {
    type V = QuestionModel;

    open spec fn view(&self) -> QuestionModel {
        QuestionModel { name: self.qname@, qtype: self.qtype, qclass: self.qclass }
    }
}

impl Clone for DnsQuestion {
    /// The copy has exactly the content of the original.
    fn clone(&self) -> (res: Self)
        ensures
            res@ == self@,
    {
        DnsQuestion { qname: self.qname.clone(), qtype: self.qtype, qclass: self.qclass }
    }
}

/// The encoding of a question: the literal name, then type and class as
/// big-endian 16-bit values.
pub open spec fn spec_question_bytes(q: QuestionModel) -> Seq<u8> {
    spec_name_bytes(q.name) + be16(q.qtype) + be16(q.qclass)
}

/// The question read from `buf` starting at `pos`, paired with the
/// position just past it.
pub open spec fn parse_question(buf: Seq<u8>, pos: int) -> Result<(QuestionModel, int), DecodeError> {
    match parse_name(buf, pos, MAX_POINTER_HOPS as nat) {
        Err(e) => Err(e),
        Ok((name, end)) => if end + 4 <= buf.len() {
            Ok(
                (
                    QuestionModel {
                        name,
                        qtype: be16_val(buf[end], buf[end + 1]),
                        qclass: be16_val(buf[end + 2], buf[end + 3]),
                    },
                    end + 4,
                ),
            )
        } else {
            Err(DecodeError::TooShort)
        },
    }
}

impl DnsQuestion {
    /// Decode a question from `buffer` starting at `*offset`, advancing
    /// `*offset` past it.  On failure the offset is left unchanged.
    pub fn from_bytes(buffer: &[u8], offset: &mut usize) -> (r: Result<DnsQuestion, DecodeError>)
        ensures
            match r {
                Ok(q) => {
                    &&& parse_question(buffer@, *old(offset) as int) == Ok::<_, DecodeError>(
                        (q@, *final(offset) as int),
                    )
                    &&& *old(offset) < *final(offset) <= buffer@.len()
                },
                Err(e) => {
                    &&& parse_question(buffer@, *old(offset) as int) == Err::<
                        (QuestionModel, int),
                        _,
                    >(e)
                    &&& *final(offset) == *old(offset)
                },
            },
    {
        let (qname, consumed) = match DomainName::decode(buffer, *offset) {
            Ok(p) => p,
            Err(e) => {
                return Err(e);
            },
        };
        let blen = buffer.len();
        let end = *offset + consumed;
        if blen - end < 4 {
            return Err(DecodeError::TooShort);
        }
        let qtype = read_u16_at(buffer, end);
        let qclass = read_u16_at(buffer, end + 2);
        *offset = end + 4;
        Ok(DnsQuestion { qname, qtype, qclass })
    }

    /// Append the encoded question: the literal name, then type and
    /// class.  A name violating the length invariants is rejected, and
    /// the buffer is then left unchanged.
    pub fn write_bytes(&self, buf: &mut Vec<u8>) -> (r: Result<(), EncodeError>)
        ensures
            match r {
                Ok(()) => wf_name(self@.name) && final(buf)@ == old(buf)@ + spec_question_bytes(
                    self@,
                ),
                Err(e) => {
                    &&& e == EncodeError::NameTooLong
                    &&& !wf_name(self@.name)
                    &&& final(buf)@ == old(buf)@
                },
            },
    {
        match self.qname.write_bytes(buf) {
            Ok(()) => {},
            Err(e) => {
                return Err(e);
            },
        }
        push_u16(buf, self.qtype);
        push_u16(buf, self.qclass);
        assert(buf@ =~= old(buf)@ + spec_question_bytes(self@));
        Ok(())
    }
}

} // verus!
