//! The full DNS message: a header and its four record sections.
//!
//! Decoding reads the header and then as many questions and records as its
//! counts announce. Encoding first rewrites the four header counts from the
//! actual section lengths, so an emitted message is always consistent.

use vstd::prelude::*;
use crate::buffer::{BytePacketBuffer, DnsError, spliced, lemma_spliced_concat};
use crate::header::{DnsHeader, parse_header, header_bytes};
use crate::name::labels_fit;
use crate::question::{DnsQuestion, QueryType, SpecQuestion, spec_read_question, enc_question};
use crate::record::{
    DnsRecord, SpecRecord, spec_read_record, enc_record, rec_labels_fit,
};

verus! {

/// The questions of a vector, as their models.
pub open spec fn view_questions(v: Seq<DnsQuestion>) -> Seq<SpecQuestion> {
    v.map_values(|q: DnsQuestion| q@)
}

/// The records of a vector, as their models.
pub open spec fn view_records(v: Seq<DnsRecord>) -> Seq<SpecRecord> {
    v.map_values(|r: DnsRecord| r@)
}

/// The mathematical model of a DNS message.
pub struct SpecPacket {
    pub header: DnsHeader,
    pub questions: Seq<SpecQuestion>,
    pub answers: Seq<SpecRecord>,
    pub authorities: Seq<SpecRecord>,
    pub resources: Seq<SpecRecord>,
}

/// A DNS message: one header and the four ordered sections.
#[derive(Debug, Clone)]
pub struct DnsPacket {
    pub header: DnsHeader,
    pub questions: Vec<DnsQuestion>,
    pub answers: Vec<DnsRecord>,
    pub authorities: Vec<DnsRecord>,
    pub resources: Vec<DnsRecord>,
}

impl View for DnsPacket {
    type V = SpecPacket;

    open spec fn view(&self) -> SpecPacket {
        SpecPacket {
            header: self.header,
            questions: view_questions(self.questions@),
            answers: view_records(self.answers@),
            authorities: view_records(self.authorities@),
            resources: view_records(self.resources@),
        }
    }
}

/// `n` questions decoded one after the other from `buf` at `pos`.
pub open spec fn spec_read_questions(buf: Seq<u8>, pos: int, n: int) -> Result<
    (Seq<SpecQuestion>, int),
    DnsError,
>
    decreases n,
{
    if n <= 0 {
        Ok((Seq::empty(), pos))
    } else {
        match spec_read_question(buf, pos) {
            Err(e) => Err(e),
            Ok((q, p1)) => match spec_read_questions(buf, p1, n - 1) {
                Err(e) => Err(e),
                Ok((rest, p2)) => Ok((seq![q] + rest, p2)),
            },
        }
    }
}

/// `n` records decoded one after the other from `buf` at `pos`.
pub open spec fn spec_read_records(buf: Seq<u8>, pos: int, n: int) -> Result<
    (Seq<SpecRecord>, int),
    DnsError,
>
    decreases n,
{
    if n <= 0 {
        Ok((Seq::empty(), pos))
    } else {
        match spec_read_record(buf, pos) {
            Err(e) => Err(e),
            Ok((r, p1)) => match spec_read_records(buf, p1, n - 1) {
                Err(e) => Err(e),
                Ok((rest, p2)) => Ok((seq![r] + rest, p2)),
            },
        }
    }
}

/// A whole message decoded from `buf` at `pos`: the header, then each
/// section with as many entries as the header counts.
pub open spec fn spec_read_packet(buf: Seq<u8>, pos: int) -> Result<(SpecPacket, int), DnsError> {
    if pos + 12 > 512 {
        Err(DnsError::EndOfBuffer)
    } else {
        let h = parse_header(buf.subrange(pos, pos + 12));
        match spec_read_questions(buf, pos + 12, h.questions as int) {
            Err(e) => Err(e),
            Ok((qs, p1)) => match spec_read_records(buf, p1, h.answers as int) {
                Err(e) => Err(e),
                Ok((ans, p2)) => match spec_read_records(buf, p2, h.authoritative_entries as int) {
                    Err(e) => Err(e),
                    Ok((auth, p3)) => match spec_read_records(buf, p3, h.resource_entries as int) {
                        Err(e) => Err(e),
                        Ok((res, p4)) => Ok(
                            (
                                SpecPacket {
                                    header: h,
                                    questions: qs,
                                    answers: ans,
                                    authorities: auth,
                                    resources: res,
                                },
                                p4,
                            ),
                        ),
                    },
                },
            },
        }
    }
}

/// Read `count` questions at the cursor into a vector.
fn read_questions(buffer: &mut BytePacketBuffer, count: u16) -> (r: Result<
    Vec<DnsQuestion>,
    DnsError,
>)
    ensures
        final(buffer).buf == old(buffer).buf,
        match spec_read_questions(old(buffer).buf@, old(buffer).pos as int, count as int) {
            Ok(res) => r is Ok && view_questions(r->Ok_0@) == res.0 && final(buffer).pos == res.1,
            Err(e) => r == Err::<Vec<DnsQuestion>, DnsError>(e),
        },
{
    let ghost buf0 = buffer.buf@;
    let ghost p0 = buffer.pos as int;
    let mut out: Vec<DnsQuestion> = Vec::new();
    let mut i: u16 = 0;
    while i < count
        invariant
            i <= count,
            buffer.buf == old(buffer).buf,
            buf0 == old(buffer).buf@,
            p0 == old(buffer).pos as int,
            spec_read_questions(buf0, p0, count as int) == (match spec_read_questions(
                buf0,
                buffer.pos as int,
                count as int - i as int,
            ) {
                Ok(res) => Ok::<(Seq<SpecQuestion>, int), DnsError>(
                    (view_questions(out@) + res.0, res.1),
                ),
                Err(e) => Err::<(Seq<SpecQuestion>, int), DnsError>(e),
            }),
        decreases count as int - i as int,
    {
        let mut question = DnsQuestion::new(Vec::new(), QueryType::UNKNOWN(0));
        let ghost out_pre = view_questions(out@);
        match question.read(buffer) {
            Ok(()) => (),
            Err(e) => return Err(e),
        };
        out.push(question);
        proof {
            assert(view_questions(out@) =~= out_pre.push(question@));
            match spec_read_questions(buf0, buffer.pos as int, count as int - i as int - 1) {
                Ok(res) => {
                    assert(out_pre + (seq![question@] + res.0) =~= view_questions(out@) + res.0);
                },
                Err(e) => {},
            }
        }
        i = i + 1;
    }
    proof {
        assert(view_questions(out@) + Seq::<SpecQuestion>::empty() =~= view_questions(out@));
    }
    Ok(out)
}

/// Read `count` records at the cursor into a vector.
fn read_records(buffer: &mut BytePacketBuffer, count: u16) -> (r: Result<Vec<DnsRecord>, DnsError>)
    ensures
        final(buffer).buf == old(buffer).buf,
        match spec_read_records(old(buffer).buf@, old(buffer).pos as int, count as int) {
            Ok(res) => r is Ok && view_records(r->Ok_0@) == res.0 && final(buffer).pos == res.1,
            Err(e) => r == Err::<Vec<DnsRecord>, DnsError>(e),
        },
{
    let ghost buf0 = buffer.buf@;
    let ghost p0 = buffer.pos as int;
    let mut out: Vec<DnsRecord> = Vec::new();
    let mut i: u16 = 0;
    while i < count
        invariant
            i <= count,
            buffer.buf == old(buffer).buf,
            buf0 == old(buffer).buf@,
            p0 == old(buffer).pos as int,
            spec_read_records(buf0, p0, count as int) == (match spec_read_records(
                buf0,
                buffer.pos as int,
                count as int - i as int,
            ) {
                Ok(res) => Ok::<(Seq<SpecRecord>, int), DnsError>(
                    (view_records(out@) + res.0, res.1),
                ),
                Err(e) => Err::<(Seq<SpecRecord>, int), DnsError>(e),
            }),
        decreases count as int - i as int,
    {
        let ghost out_pre = view_records(out@);
        let rec = match DnsRecord::read(buffer) {
            Ok(v) => v,
            Err(e) => return Err(e),
        };
        out.push(rec);
        proof {
            assert(view_records(out@) =~= out_pre.push(rec@));
            match spec_read_records(buf0, buffer.pos as int, count as int - i as int - 1) {
                Ok(res) => {
                    assert(out_pre + (seq![rec@] + res.0) =~= view_records(out@) + res.0);
                },
                Err(e) => {},
            }
        }
        i = i + 1;
    }
    proof {
        assert(view_records(out@) + Seq::<SpecRecord>::empty() =~= view_records(out@));
    }
    Ok(out)
}

impl DnsPacket {
    /// An empty message with a zeroed header.
    pub fn new() -> (r: DnsPacket)
        ensures
            r.header == DnsHeader::spec_new(),
            r.questions@.len() == 0,
            r.answers@.len() == 0,
            r.authorities@.len() == 0,
            r.resources@.len() == 0,
    {
        DnsPacket {
            header: DnsHeader::new(),
            questions: Vec::new(),
            answers: Vec::new(),
            authorities: Vec::new(),
            resources: Vec::new(),
        }
    }

    /// Decode a whole message at the cursor, as `spec_read_packet` states.
    pub fn from_buffer(buffer: &mut BytePacketBuffer) -> (r: Result<DnsPacket, DnsError>)
        ensures
            final(buffer).buf == old(buffer).buf,
            match spec_read_packet(old(buffer).buf@, old(buffer).pos as int) {
                Ok(res) => r is Ok && r->Ok_0@ == res.0 && final(buffer).pos == res.1,
                Err(e) => r == Err::<DnsPacket, DnsError>(e),
            },
    {
        let mut result = DnsPacket::new();
        match result.header.read(buffer) {
            Ok(()) => (),
            Err(e) => return Err(e),
        };
        let questions = match read_questions(buffer, result.header.questions) {
            Ok(v) => v,
            Err(e) => return Err(e),
        };
        result.questions = questions;
        let answers = match read_records(buffer, result.header.answers) {
            Ok(v) => v,
            Err(e) => return Err(e),
        };
        result.answers = answers;
        let authorities = match read_records(buffer, result.header.authoritative_entries) {
            Ok(v) => v,
            Err(e) => return Err(e),
        };
        result.authorities = authorities;
        let resources = match read_records(buffer, result.header.resource_entries) {
            Ok(v) => v,
            Err(e) => return Err(e),
        };
        result.resources = resources;
        Ok(result)
    }
}

/// The header of `p` with its four counts rewritten from the actual
/// section lengths, as the encoder emits it.
pub open spec fn counts_synced(p: SpecPacket) -> DnsHeader {
    DnsHeader {
        questions: #[verifier::truncate] (p.questions.len() as u16),
        answers: #[verifier::truncate] (p.answers.len() as u16),
        authoritative_entries: #[verifier::truncate] (p.authorities.len() as u16),
        resource_entries: #[verifier::truncate] (p.resources.len() as u16),
        ..p.header
    }
}

/// The wire bytes of a question section, in order.
pub open spec fn enc_questions(qs: Seq<SpecQuestion>) -> Seq<u8>
    decreases qs.len(),
{
    if qs.len() == 0 {
        Seq::empty()
    } else {
        enc_question(qs[0]) + enc_questions(qs.drop_first())
    }
}

/// The wire bytes of a record section, in order; `UNKNOWN` records
/// contribute nothing.
pub open spec fn enc_records(rs: Seq<SpecRecord>) -> Seq<u8>
    decreases rs.len(),
{
    if rs.len() == 0 {
        Seq::empty()
    } else {
        enc_record(rs[0]) + enc_records(rs.drop_first())
    }
}

/// The wire bytes of a whole message, with the header counts synchronized
/// to the section lengths.
pub open spec fn enc_packet(p: SpecPacket) -> Seq<u8> {
    header_bytes(counts_synced(p)) + enc_questions(p.questions) + enc_records(p.answers)
        + enc_records(p.authorities) + enc_records(p.resources)
}

/// Every question's name passes the encoder's label check.
pub open spec fn questions_fit(qs: Seq<SpecQuestion>) -> bool
    decreases qs.len(),
{
    qs.len() == 0 || (labels_fit(qs[0].name) && questions_fit(qs.drop_first()))
}

/// Every record's names pass the encoder's label check.
pub open spec fn records_fit(rs: Seq<SpecRecord>) -> bool
    decreases rs.len(),
{
    rs.len() == 0 || (rec_labels_fit(rs[0]) && records_fit(rs.drop_first()))
}

/// When encoding a whole message succeeds: every label fits and the wire
/// bytes end by byte 511.
pub open spec fn packet_writable(p: SpecPacket, pos: int) -> bool {
    questions_fit(p.questions) && records_fit(p.answers) && records_fit(p.authorities)
        && records_fit(p.resources) && pos + enc_packet(p).len() <= 512
}

/// Write a question section at the cursor, in order.
fn write_questions(buffer: &mut BytePacketBuffer, qs: &Vec<DnsQuestion>) -> (r: Result<
    (),
    DnsError,
>)
    ensures
        r is Ok <==> questions_fit(view_questions(qs@)) && (enc_questions(
            view_questions(qs@),
        ).len() == 0 || old(buffer).pos + enc_questions(view_questions(qs@)).len() <= 512),
        r is Ok ==> final(buffer).buf@ == spliced(
            old(buffer).buf@,
            old(buffer).pos as int,
            enc_questions(view_questions(qs@)),
        ) && final(buffer).pos == old(buffer).pos + enc_questions(view_questions(qs@)).len(),
        match r {
            Ok(()) => true,
            Err(e) => (e == DnsError::LabelTooLong && !questions_fit(view_questions(qs@))) || (e
                == DnsError::EndOfBuffer && old(buffer).pos + enc_questions(
                view_questions(qs@),
            ).len() > 512),
        },
{
    let ghost buf0 = buffer.buf@;
    let ghost p0 = buffer.pos as int;
    let ghost all = view_questions(qs@);
    let ghost mut written: Seq<u8> = Seq::empty();
    proof {
        assert(spliced(buf0, p0, written) =~= buf0);
        assert(all.skip(0) =~= all);
    }
    let mut i: usize = 0;
    while i < qs.len()
        invariant
            i <= qs.len(),
            all == view_questions(qs@),
            buf0 == old(buffer).buf@,
            p0 == old(buffer).pos as int,
            buffer.buf@ == spliced(buf0, p0, written),
            buffer.pos as int == p0 + written.len(),
            enc_questions(all) == written + enc_questions(all.skip(i as int)),
            questions_fit(all) <==> questions_fit(all.skip(i as int)),
            written.len() > 0 ==> buffer.pos <= 512,
        decreases qs.len() - i,
    {
        let ghost w0 = written;
        let ghost tail = all.skip(i as int);
        proof {
            assert(tail[0] == all[i as int]);
            assert(tail.drop_first() =~= all.skip(i as int + 1));
            assert(qs@[i as int]@ == all[i as int]);
        }
        match qs[i].write(buffer) {
            Ok(()) => (),
            Err(e) => return Err(e),
        };
        proof {
            lemma_spliced_concat(buf0, p0, w0, enc_question(all[i as int]));
            written = w0 + enc_question(all[i as int]);
        }
        i = i + 1;
    }
    proof {
        assert(written + enc_questions(all.skip(qs@.len() as int)) =~= written);
    }
    Ok(())
}

/// Write a record section at the cursor, in order; `UNKNOWN` records are
/// dropped.
fn write_records(buffer: &mut BytePacketBuffer, rs: &Vec<DnsRecord>) -> (r: Result<(), DnsError>)
    ensures
        r is Ok <==> records_fit(view_records(rs@)) && (enc_records(view_records(rs@)).len()
            == 0 || old(buffer).pos + enc_records(view_records(rs@)).len() <= 512),
        r is Ok ==> final(buffer).buf@ == spliced(
            old(buffer).buf@,
            old(buffer).pos as int,
            enc_records(view_records(rs@)),
        ) && final(buffer).pos == old(buffer).pos + enc_records(view_records(rs@)).len(),
        match r {
            Ok(()) => true,
            Err(e) => (e == DnsError::LabelTooLong && !records_fit(view_records(rs@))) || (e
                == DnsError::EndOfBuffer && old(buffer).pos + enc_records(view_records(rs@)).len()
                > 512),
        },
{
    let ghost buf0 = buffer.buf@;
    let ghost p0 = buffer.pos as int;
    let ghost all = view_records(rs@);
    let ghost mut written: Seq<u8> = Seq::empty();
    proof {
        assert(spliced(buf0, p0, written) =~= buf0);
        assert(all.skip(0) =~= all);
    }
    let mut i: usize = 0;
    while i < rs.len()
        invariant
            i <= rs.len(),
            all == view_records(rs@),
            buf0 == old(buffer).buf@,
            p0 == old(buffer).pos as int,
            buffer.buf@ == spliced(buf0, p0, written),
            buffer.pos as int == p0 + written.len(),
            enc_records(all) == written + enc_records(all.skip(i as int)),
            records_fit(all) <==> records_fit(all.skip(i as int)),
            written.len() > 0 ==> buffer.pos <= 512,
        decreases rs.len() - i,
    {
        let ghost w0 = written;
        let ghost tail = all.skip(i as int);
        proof {
            assert(tail[0] == all[i as int]);
            assert(tail.drop_first() =~= all.skip(i as int + 1));
            assert(rs@[i as int]@ == all[i as int]);
        }
        match rs[i].write(buffer) {
            Ok(_) => (),
            Err(e) => return Err(e),
        };
        proof {
            lemma_spliced_concat(buf0, p0, w0, enc_record(all[i as int]));
            written = w0 + enc_record(all[i as int]);
        }
        i = i + 1;
    }
    proof {
        assert(written + enc_records(all.skip(rs@.len() as int)) =~= written);
    }
    Ok(())
}

impl DnsPacket {
    /// Encode this message at the cursor. The four header counts are first
    /// rewritten from the section lengths — also when encoding then fails —
    /// so an emitted message always announces exactly what it carries.
    #[verifier::rlimit(100)]
    pub fn write(&mut self, buffer: &mut BytePacketBuffer) -> (r: Result<(), DnsError>)
        requires
            old(self).questions@.len() <= 0xffff,
            old(self).answers@.len() <= 0xffff,
            old(self).authorities@.len() <= 0xffff,
            old(self).resources@.len() <= 0xffff,
        ensures
            final(self).header == counts_synced(old(self)@),
            final(self).questions == old(self).questions,
            final(self).answers == old(self).answers,
            final(self).authorities == old(self).authorities,
            final(self).resources == old(self).resources,
            r is Ok <==> packet_writable(old(self)@, old(buffer).pos as int),
            r is Ok ==> final(buffer).buf@ == spliced(
                old(buffer).buf@,
                old(buffer).pos as int,
                enc_packet(old(self)@),
            ) && final(buffer).pos == old(buffer).pos + enc_packet(old(self)@).len(),
            match r {
                Ok(()) => true,
                Err(e) => (e == DnsError::LabelTooLong && !(questions_fit(old(self)@.questions)
                    && records_fit(old(self)@.answers) && records_fit(old(self)@.authorities)
                    && records_fit(old(self)@.resources))) || (e == DnsError::EndOfBuffer && old(
                    buffer,
                ).pos + enc_packet(old(self)@).len() > 512),
            },
    {
        let ghost buf0 = buffer.buf@;
        let ghost p0 = buffer.pos as int;
        let ghost total = enc_packet(old(self)@);
        self.header.questions = self.questions.len() as u16;
        self.header.answers = self.answers.len() as u16;
        self.header.authoritative_entries = self.authorities.len() as u16;
        self.header.resource_entries = self.resources.len() as u16;
        proof {
            assert(self.header == counts_synced(old(self)@));
        }
        match self.header.write(buffer) {
            Ok(()) => (),
            Err(e) => return Err(e),
        };
        match write_questions(buffer, &self.questions) {
            Ok(()) => (),
            Err(e) => return Err(e),
        };
        proof {
            lemma_spliced_concat(
                buf0,
                p0,
                header_bytes(counts_synced(old(self)@)),
                enc_questions(old(self)@.questions),
            );
        }
        match write_records(buffer, &self.answers) {
            Ok(()) => (),
            Err(e) => return Err(e),
        };
        proof {
            lemma_spliced_concat(
                buf0,
                p0,
                header_bytes(counts_synced(old(self)@)) + enc_questions(old(self)@.questions),
                enc_records(old(self)@.answers),
            );
        }
        match write_records(buffer, &self.authorities) {
            Ok(()) => (),
            Err(e) => return Err(e),
        };
        proof {
            lemma_spliced_concat(
                buf0,
                p0,
                header_bytes(counts_synced(old(self)@)) + enc_questions(old(self)@.questions)
                    + enc_records(old(self)@.answers),
                enc_records(old(self)@.authorities),
            );
        }
        match write_records(buffer, &self.resources) {
            Ok(()) => (),
            Err(e) => return Err(e),
        };
        proof {
            lemma_spliced_concat(
                buf0,
                p0,
                header_bytes(counts_synced(old(self)@)) + enc_questions(old(self)@.questions)
                    + enc_records(old(self)@.answers) + enc_records(old(self)@.authorities),
                enc_records(old(self)@.resources),
            );
            assert(header_bytes(counts_synced(old(self)@)) + enc_questions(old(self)@.questions)
                + enc_records(old(self)@.answers) + enc_records(old(self)@.authorities)
                + enc_records(old(self)@.resources) =~= total);
        }
        Ok(())
    }
}

} // verus!
