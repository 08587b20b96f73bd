//! DNS header codec: the fixed 12 bytes at the start of every message.
//!
//! The header carries the transaction id, two flag bytes whose bit layout
//! is fixed by the wire protocol, and the four section counts. Reserved
//! bits round-trip as set; an unknown result code decodes leniently to
//! `NOERROR`.

use vstd::prelude::*;
use crate::buffer::{
    BytePacketBuffer, DnsError, spec_u16, enc_u16, spliced, lemma_spliced_push,
    lemma_spliced_concat, lemma_u16_roundtrip,
};

verus! {

/// The 4-bit response code of a DNS message.
#[derive(Clone, Copy, Debug, PartialEq, Eq, Structural)]
pub enum ResultCode {
    NOERROR,
    FORMERR,
    SERVFAIL,
    NXDOMAIN,
    NOTIMP,
    REFUSED,
}

impl ResultCode {
    /// The code a 4-bit wire value decodes to; unknown values map to
    /// `NOERROR` (lenient ingress).
    pub open spec fn spec_from_num(num: u8) -> ResultCode {
        if num == 1 {
            ResultCode::FORMERR
        } else if num == 2 {
            ResultCode::SERVFAIL
        } else if num == 3 {
            ResultCode::NXDOMAIN
        } else if num == 4 {
            ResultCode::NOTIMP
        } else if num == 5 {
            ResultCode::REFUSED
        } else {
            ResultCode::NOERROR
        }
    }

    pub fn from_num(num: u8) -> (r: ResultCode)
        ensures
            r == ResultCode::spec_from_num(num),
    {
        match num {
            1 => ResultCode::FORMERR,
            2 => ResultCode::SERVFAIL,
            3 => ResultCode::NXDOMAIN,
            4 => ResultCode::NOTIMP,
            5 => ResultCode::REFUSED,
            _ => ResultCode::NOERROR,
        }
    }

    /// The wire value of this code.
    pub open spec fn spec_to_num(self) -> u8 {
        match self {
            ResultCode::NOERROR => 0,
            ResultCode::FORMERR => 1,
            ResultCode::SERVFAIL => 2,
            ResultCode::NXDOMAIN => 3,
            ResultCode::NOTIMP => 4,
            ResultCode::REFUSED => 5,
        }
    }

    pub fn to_num(&self) -> (r: u8)
        ensures
            r == self.spec_to_num(),
    {
        match self {
            ResultCode::NOERROR => 0,
            ResultCode::FORMERR => 1,
            ResultCode::SERVFAIL => 2,
            ResultCode::NXDOMAIN => 3,
            ResultCode::NOTIMP => 4,
            ResultCode::REFUSED => 5,
        }
    }
}

/// The decoded DNS message header.
#[derive(Clone, Copy, Debug, PartialEq, Eq, Structural)]
pub struct DnsHeader {
    pub id: u16,
    pub response: bool,
    pub opcode: u8,
    pub authoritative_answer: bool,
    pub truncated_message: bool,
    pub recursion_desired: bool,
    pub recursion_available: bool,
    pub z: bool,
    pub authed_data: bool,
    pub checking_disabled: bool,
    pub rescode: ResultCode,
    pub questions: u16,
    pub answers: u16,
    pub authoritative_entries: u16,
    pub resource_entries: u16,
}

/// 1 for true, 0 for false, as packed into a flag byte.
pub open spec fn b2u8(b: bool) -> u8 {
    if b {
        1
    } else {
        0
    }
}

/// The first flag byte: `response`, 4-bit `opcode`, `authoritative_answer`,
/// `truncated_message`, `recursion_desired`, high bit first.
pub open spec fn flags_a(h: DnsHeader) -> u8 {
    (b2u8(h.response) << 7) | (h.opcode << 3) | (b2u8(h.authoritative_answer) << 2) | (b2u8(
        h.truncated_message,
    ) << 1) | b2u8(h.recursion_desired)
}

/// The second flag byte: `recursion_available`, `z`, `authed_data`,
/// `checking_disabled`, 4-bit `rescode`, high bit first.
pub open spec fn flags_b(h: DnsHeader) -> u8 {
    (b2u8(h.recursion_available) << 7) | (b2u8(h.z) << 6) | (b2u8(h.authed_data) << 5) | (b2u8(
        h.checking_disabled,
    ) << 4) | h.rescode.spec_to_num()
}

/// The 12 wire bytes of a header.
pub open spec fn header_bytes(h: DnsHeader) -> Seq<u8> {
    enc_u16(h.id) + seq![flags_a(h), flags_b(h)] + enc_u16(h.questions) + enc_u16(h.answers)
        + enc_u16(h.authoritative_entries) + enc_u16(h.resource_entries)
}

/// The header decoded from 12 wire bytes.
pub open spec fn parse_header(b: Seq<u8>) -> DnsHeader
    recommends
        b.len() == 12,
{
    let a = b[2];
    let f = b[3];
    DnsHeader {
        id: spec_u16(b[0], b[1]),
        response: (a & 0x80) > 0,
        opcode: (a >> 3) & 0x0f,
        authoritative_answer: (a & 4) > 0,
        truncated_message: (a & 2) > 0,
        recursion_desired: (a & 1) > 0,
        recursion_available: (f & 0x80) > 0,
        z: (f & 0x40) > 0,
        authed_data: (f & 0x20) > 0,
        checking_disabled: (f & 0x10) > 0,
        rescode: ResultCode::spec_from_num(f & 0x0f),
        questions: spec_u16(b[4], b[5]),
        answers: spec_u16(b[6], b[7]),
        authoritative_entries: spec_u16(b[8], b[9]),
        resource_entries: spec_u16(b[10], b[11]),
    }
}

/// Header round-trip: a header with a 4-bit opcode decodes from its own
/// wire bytes unchanged.
pub proof fn lemma_header_roundtrip(h: DnsHeader)
    requires
        h.opcode < 16,
    ensures
        parse_header(header_bytes(h)) == h,
{
    let resp = b2u8(h.response);
    let op = h.opcode;
    let aa = b2u8(h.authoritative_answer);
    let tc = b2u8(h.truncated_message);
    let rd = b2u8(h.recursion_desired);
    let a = flags_a(h);
    assert(((a & 0x80) > 0) == (resp == 1) && ((a >> 3) & 0x0f) == op && ((a & 4) > 0) == (aa == 1)
        && ((a & 2) > 0) == (tc == 1) && ((a & 1) > 0) == (rd == 1)) by (bit_vector)
        requires
            a == (resp << 7) | (op << 3) | (aa << 2) | (tc << 1) | rd,
            resp <= 1,
            op < 16,
            aa <= 1,
            tc <= 1,
            rd <= 1,
    ;
    let ra = b2u8(h.recursion_available);
    let z = b2u8(h.z);
    let ad = b2u8(h.authed_data);
    let cd = b2u8(h.checking_disabled);
    let rc = h.rescode.spec_to_num();
    let f = flags_b(h);
    assert(((f & 0x80) > 0) == (ra == 1) && ((f & 0x40) > 0) == (z == 1) && ((f & 0x20) > 0) == (ad
        == 1) && ((f & 0x10) > 0) == (cd == 1) && (f & 0x0f) == rc) by (bit_vector)
        requires
            f == (ra << 7) | (z << 6) | (ad << 5) | (cd << 4) | rc,
            ra <= 1,
            z <= 1,
            ad <= 1,
            cd <= 1,
            rc <= 5,
    ;
    lemma_u16_roundtrip(h.id);
    lemma_u16_roundtrip(h.questions);
    lemma_u16_roundtrip(h.answers);
    lemma_u16_roundtrip(h.authoritative_entries);
    lemma_u16_roundtrip(h.resource_entries);
}

impl DnsHeader {
    /// The header `new` returns: every field zero, false, or `NOERROR`.
    pub open spec fn spec_new() -> DnsHeader {
        DnsHeader {
            id: 0,
            response: false,
            opcode: 0,
            authoritative_answer: false,
            truncated_message: false,
            recursion_desired: false,
            recursion_available: false,
            z: false,
            authed_data: false,
            checking_disabled: false,
            rescode: ResultCode::NOERROR,
            questions: 0,
            answers: 0,
            authoritative_entries: 0,
            resource_entries: 0,
        }
    }

    /// A header with every field zero, false, or `NOERROR`.
    pub fn new() -> (r: DnsHeader)
        ensures
            r == (DnsHeader {
                id: 0,
                response: false,
                opcode: 0,
                authoritative_answer: false,
                truncated_message: false,
                recursion_desired: false,
                recursion_available: false,
                z: false,
                authed_data: false,
                checking_disabled: false,
                rescode: ResultCode::NOERROR,
                questions: 0,
                answers: 0,
                authoritative_entries: 0,
                resource_entries: 0,
            }),
    {
        DnsHeader {
            id: 0,
            response: false,
            opcode: 0,
            authoritative_answer: false,
            truncated_message: false,
            recursion_desired: false,
            recursion_available: false,
            z: false,
            authed_data: false,
            checking_disabled: false,
            rescode: ResultCode::NOERROR,
            questions: 0,
            answers: 0,
            authoritative_entries: 0,
            resource_entries: 0,
        }
    }

    /// Decode the 12 header bytes at the cursor into `self`. Fails, leaving
    /// header and buffer unchanged, if they would cross byte 511.
    pub fn read(&mut self, buffer: &mut BytePacketBuffer) -> (r: Result<(), DnsError>)
        ensures
            final(buffer).buf == old(buffer).buf,
            old(buffer).pos + 12 <= 512 ==> r == Ok::<(), DnsError>(()) && *final(self)
                == parse_header(
                old(buffer).buf@.subrange(old(buffer).pos as int, old(buffer).pos + 12),
            ) && final(buffer).pos == old(buffer).pos + 12,
            old(buffer).pos + 12 > 512 ==> r == Err::<(), DnsError>(DnsError::EndOfBuffer)
                && *final(self) == *old(self) && *final(buffer) == *old(buffer),
    {
        if buffer.pos() > 500 {
            return Err(DnsError::EndOfBuffer);
        }
        let ghost sub = buffer.buf@.subrange(buffer.pos as int, buffer.pos + 12);
        let id = match buffer.read_u16() {
            Ok(v) => v,
            Err(e) => return Err(e),
        };
        let a = match buffer.read() {
            Ok(v) => v,
            Err(e) => return Err(e),
        };
        let f = match buffer.read() {
            Ok(v) => v,
            Err(e) => return Err(e),
        };
        let questions = match buffer.read_u16() {
            Ok(v) => v,
            Err(e) => return Err(e),
        };
        let answers = match buffer.read_u16() {
            Ok(v) => v,
            Err(e) => return Err(e),
        };
        let authoritative_entries = match buffer.read_u16() {
            Ok(v) => v,
            Err(e) => return Err(e),
        };
        let resource_entries = match buffer.read_u16() {
            Ok(v) => v,
            Err(e) => return Err(e),
        };
        self.id = id;
        self.recursion_desired = (a & 1) > 0;
        self.truncated_message = (a & 2) > 0;
        self.authoritative_answer = (a & 4) > 0;
        self.opcode = (a >> 3) & 0x0f;
        self.response = (a & 0x80) > 0;
        self.rescode = ResultCode::from_num(f & 0x0f);
        self.checking_disabled = (f & 0x10) > 0;
        self.authed_data = (f & 0x20) > 0;
        self.z = (f & 0x40) > 0;
        self.recursion_available = (f & 0x80) > 0;
        self.questions = questions;
        self.answers = answers;
        self.authoritative_entries = authoritative_entries;
        self.resource_entries = resource_entries;
        proof {
            assert forall|k: int| 0 <= k < 12 implies sub[k] == old(buffer).buf@[old(buffer).pos
                + k] by {}
        }
        Ok(())
    }

    /// Encode the 12 header bytes at the cursor. Fails, leaving the buffer
    /// unchanged, if they would cross byte 511.
    #[verifier::rlimit(60)]
    pub fn write(&self, buffer: &mut BytePacketBuffer) -> (r: Result<(), DnsError>)
        ensures
            old(buffer).pos + 12 <= 512 ==> r == Ok::<(), DnsError>(()) && final(buffer).buf@
                == spliced(old(buffer).buf@, old(buffer).pos as int, header_bytes(*self))
                && final(buffer).pos == old(buffer).pos + 12,
            old(buffer).pos + 12 > 512 ==> r == Err::<(), DnsError>(DnsError::EndOfBuffer)
                && *final(buffer) == *old(buffer),
    {
        if buffer.pos() > 500 {
            return Err(DnsError::EndOfBuffer);
        }
        let ghost buf0 = buffer.buf@;
        let ghost p0 = buffer.pos as int;
        match buffer.write_u16(self.id) {
            Ok(()) => (),
            Err(e) => return Err(e),
        };
        let resp: u8 = if self.response {
            1
        } else {
            0
        };
        let aa: u8 = if self.authoritative_answer {
            1
        } else {
            0
        };
        let tc: u8 = if self.truncated_message {
            1
        } else {
            0
        };
        let rd: u8 = if self.recursion_desired {
            1
        } else {
            0
        };
        let a = (resp << 7) | (self.opcode << 3) | (aa << 2) | (tc << 1) | rd;
        match buffer.write_u8(a) {
            Ok(()) => (),
            Err(e) => return Err(e),
        };
        let ra: u8 = if self.recursion_available {
            1
        } else {
            0
        };
        let zb: u8 = if self.z {
            1
        } else {
            0
        };
        let ad: u8 = if self.authed_data {
            1
        } else {
            0
        };
        let cd: u8 = if self.checking_disabled {
            1
        } else {
            0
        };
        let f = (ra << 7) | (zb << 6) | (ad << 5) | (cd << 4) | self.rescode.to_num();
        match buffer.write_u8(f) {
            Ok(()) => (),
            Err(e) => return Err(e),
        };
        proof {
            lemma_spliced_push(buf0, p0, enc_u16(self.id), a);
            lemma_spliced_push(buf0, p0, enc_u16(self.id).push(a), f);
        }
        match buffer.write_u16(self.questions) {
            Ok(()) => (),
            Err(e) => return Err(e),
        };
        match buffer.write_u16(self.answers) {
            Ok(()) => (),
            Err(e) => return Err(e),
        };
        match buffer.write_u16(self.authoritative_entries) {
            Ok(()) => (),
            Err(e) => return Err(e),
        };
        match buffer.write_u16(self.resource_entries) {
            Ok(()) => (),
            Err(e) => return Err(e),
        };
        proof {
            let w2 = enc_u16(self.id).push(a).push(f);
            lemma_spliced_concat(buf0, p0, w2, enc_u16(self.questions));
            let w3 = w2 + enc_u16(self.questions);
            lemma_spliced_concat(buf0, p0, w3, enc_u16(self.answers));
            let w4 = w3 + enc_u16(self.answers);
            lemma_spliced_concat(buf0, p0, w4, enc_u16(self.authoritative_entries));
            let w5 = w4 + enc_u16(self.authoritative_entries);
            lemma_spliced_concat(buf0, p0, w5, enc_u16(self.resource_entries));
            let w6 = w5 + enc_u16(self.resource_entries);
            assert(a == flags_a(*self));
            assert(f == flags_b(*self));
            assert(w6 =~= header_bytes(*self));
        }
        Ok(())
    }
}

} // verus!
