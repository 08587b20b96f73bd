//! Query types and the question section entry.

use vstd::prelude::*;
use crate::buffer::{
    BytePacketBuffer, DnsError, spec_u16, enc_u16, spliced, lemma_spliced_concat,
};
use crate::name::{name_walk, enc_name, labels_fit};

verus! {

/// A record type as carried on the wire; unrecognized values are kept in
/// `UNKNOWN`.
#[derive(PartialEq, Eq, Structural, Debug, Clone, Hash, Copy)]
pub enum QueryType {
    UNKNOWN(u16),
    A,
    NS,
    CNAME,
    MX,
    AAAA,
}

impl QueryType {
    /// The 16-bit wire value of this query type.
    pub open spec fn spec_to_num(self) -> u16 {
        match self {
            QueryType::UNKNOWN(x) => x,
            QueryType::A => 1,
            QueryType::NS => 2,
            QueryType::CNAME => 5,
            QueryType::MX => 15,
            QueryType::AAAA => 28,
        }
    }

    pub fn to_num(&self) -> (r: u16)
        ensures
            r == self.spec_to_num(),
    {
        match *self {
            QueryType::UNKNOWN(x) => x,
            QueryType::A => 1,
            QueryType::NS => 2,
            QueryType::CNAME => 5,
            QueryType::MX => 15,
            QueryType::AAAA => 28,
        }
    }

    /// The query type a 16-bit wire value decodes to.
    pub open spec fn spec_from_num(num: u16) -> QueryType {
        if num == 1 {
            QueryType::A
        } else if num == 2 {
            QueryType::NS
        } else if num == 5 {
            QueryType::CNAME
        } else if num == 15 {
            QueryType::MX
        } else if num == 28 {
            QueryType::AAAA
        } else {
            QueryType::UNKNOWN(num)
        }
    }

    pub fn from_num(num: u16) -> (r: QueryType)
        ensures
            r == QueryType::spec_from_num(num),
    {
        match num {
            1 => QueryType::A,
            2 => QueryType::NS,
            5 => QueryType::CNAME,
            15 => QueryType::MX,
            28 => QueryType::AAAA,
            _ => QueryType::UNKNOWN(num),
        }
    }
}

/// One entry of the question section: a domain name and a query type.
/// The class is always `IN` on emission and ignored on decode.
#[derive(Debug, Clone, PartialEq, Eq)]
pub struct DnsQuestion {
    pub name: Vec<u8>,
    pub qtype: QueryType,
}

/// The mathematical model of a question.
pub struct SpecQuestion {
    pub name: Seq<u8>,
    pub qtype: QueryType,
}

impl View for DnsQuestion {
    type V = SpecQuestion;

    open spec fn view(&self) -> SpecQuestion {
        SpecQuestion { name: self.name@, qtype: self.qtype }
    }
}

/// A question decoded from `buf` at `pos`: a name, the query type, and the
/// ignored class, with the position just past them.
pub open spec fn spec_read_question(buf: Seq<u8>, pos: int) -> Result<
    (SpecQuestion, int),
    DnsError,
> {
    match name_walk(buf, pos, 0) {
        Err(e) => Err(e),
        Ok((nm, p1)) => if p1 + 4 > 512 {
            Err(DnsError::EndOfBuffer)
        } else {
            Ok(
                (
                    SpecQuestion {
                        name: nm,
                        qtype: QueryType::spec_from_num(spec_u16(buf[p1], buf[p1 + 1])),
                    },
                    p1 + 4,
                ),
            )
        },
    }
}

/// The wire bytes of a question: the name, the type, and class `IN`.
pub open spec fn enc_question(q: SpecQuestion) -> Seq<u8> {
    enc_name(q.name) + enc_u16(q.qtype.spec_to_num()) + enc_u16(1)
}

impl DnsQuestion {
    pub fn new(name: Vec<u8>, qtype: QueryType) -> (r: DnsQuestion)
        ensures
            r.name == name,
            r.qtype == qtype,
    {
        DnsQuestion { name, qtype }
    }

    /// Decode a question at the cursor: its name is appended to `self.name`
    /// and its type replaces `self.qtype`; the 16-bit class is read and
    /// ignored.
    pub fn read(&mut self, buffer: &mut BytePacketBuffer) -> (r: Result<(), DnsError>)
        ensures
            final(buffer).buf == old(buffer).buf,
            match spec_read_question(old(buffer).buf@, old(buffer).pos as int) {
                Ok(res) => r == Ok::<(), DnsError>(()) && final(self).name@ == old(self).name@
                    + res.0.name && final(self).qtype == res.0.qtype && final(buffer).pos == res.1,
                Err(e) => r == Err::<(), DnsError>(e),
            },
    {
        match buffer.read_qname(&mut self.name) {
            Ok(()) => (),
            Err(e) => return Err(e),
        };
        let qtype_num = match buffer.read_u16() {
            Ok(v) => v,
            Err(e) => return Err(e),
        };
        self.qtype = QueryType::from_num(qtype_num);
        match buffer.read_u16() {
            Ok(_) => (),
            Err(e) => return Err(e),
        };
        Ok(())
    }

    /// Encode this question at the cursor: its name in uncompressed form,
    /// its type, and class `IN`.
    pub fn write(&self, buffer: &mut BytePacketBuffer) -> (r: Result<(), DnsError>)
        ensures
            r is Ok <==> labels_fit(self.name@) && old(buffer).pos + enc_question(self@).len()
                <= 512,
            r is Ok ==> final(buffer).buf@ == spliced(
                old(buffer).buf@,
                old(buffer).pos as int,
                enc_question(self@),
            ) && final(buffer).pos == old(buffer).pos + enc_question(self@).len(),
            match r {
                Ok(()) => true,
                Err(e) => (e == DnsError::LabelTooLong && !labels_fit(self.name@)) || (e
                    == DnsError::EndOfBuffer && old(buffer).pos + enc_question(self@).len() > 512),
            },
    {
        let ghost buf0 = buffer.buf@;
        let ghost p0 = buffer.pos as int;
        match buffer.write_qname(&self.name) {
            Ok(()) => (),
            Err(e) => {
                proof {
                    assert(enc_question(self@).len() == enc_name(self.name@).len() + 4);
                }
                return Err(e);
            },
        };
        let typenum = self.qtype.to_num();
        match buffer.write_u16(typenum) {
            Ok(()) => (),
            Err(e) => return Err(e),
        };
        match buffer.write_u16(1) {
            Ok(()) => (),
            Err(e) => return Err(e),
        };
        proof {
            lemma_spliced_concat(buf0, p0, enc_name(self.name@), enc_u16(self.qtype.spec_to_num()));
            lemma_spliced_concat(
                buf0,
                p0,
                enc_name(self.name@) + enc_u16(self.qtype.spec_to_num()),
                enc_u16(1),
            );
            assert(enc_name(self.name@) + enc_u16(self.qtype.spec_to_num()) + enc_u16(1)
                =~= enc_question(self@));
        }
        Ok(())
    }
}

} // verus!
