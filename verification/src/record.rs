//! Resource-record codec: the tagged record variants and their wire form.
//!
//! A record is a name, a 16-bit type, a 16-bit class (ignored on decode,
//! `IN` on encode), a 32-bit TTL, a 16-bit RDLENGTH and the RDATA it
//! measures. Recognized types get typed variants; anything else decodes to
//! `UNKNOWN`, whose RDATA is skipped, and is dropped again on encode.

use vstd::prelude::*;
use crate::buffer::{
    BytePacketBuffer, DnsError, spec_u16, spec_u32, enc_u16, enc_u32, spliced,
    lemma_spliced_concat, lemma_spliced_push, lemma_spliced_empty, lemma_subrange_of_subrange,
    lemma_u16_at, lemma_u32_at,
};
use crate::name::{name_walk, enc_name, labels_fit, wf_name, lemma_name_roundtrip};
use crate::question::QueryType;

verus! {

/// An IPv4 address as its four network-order octets.
#[derive(Clone, Copy, Debug, PartialEq, Eq, Structural)]
pub struct Ipv4Addr {
    pub o0: u8,
    pub o1: u8,
    pub o2: u8,
    pub o3: u8,
}

impl Ipv4Addr {
    pub fn new(o0: u8, o1: u8, o2: u8, o3: u8) -> (r: Ipv4Addr)
        ensures
            r == (Ipv4Addr { o0, o1, o2, o3 }),
    {
        Ipv4Addr { o0, o1, o2, o3 }
    }
}

/// An IPv6 address as its eight 16-bit groups, network order.
#[derive(Clone, Copy, Debug, PartialEq, Eq, Structural)]
pub struct Ipv6Addr {
    pub g0: u16,
    pub g1: u16,
    pub g2: u16,
    pub g3: u16,
    pub g4: u16,
    pub g5: u16,
    pub g6: u16,
    pub g7: u16,
}

impl Ipv6Addr {
    pub fn new(g0: u16, g1: u16, g2: u16, g3: u16, g4: u16, g5: u16, g6: u16, g7: u16) -> (r:
        Ipv6Addr)
        ensures
            r == (Ipv6Addr { g0, g1, g2, g3, g4, g5, g6, g7 }),
    {
        Ipv6Addr { g0, g1, g2, g3, g4, g5, g6, g7 }
    }
}

/// A resource record, one variant per recognized type.
#[derive(Debug, Clone, PartialEq, Eq)]
pub enum DnsRecord {
    UNKNOWN { domain: Vec<u8>, qtype: u16, data_len: u16, ttl: u32 },
    A { domain: Vec<u8>, addr: Ipv4Addr, ttl: u32 },
    NS { domain: Vec<u8>, host: Vec<u8>, ttl: u32 },
    CNAME { domain: Vec<u8>, host: Vec<u8>, ttl: u32 },
    MX { domain: Vec<u8>, priority: u16, host: Vec<u8>, ttl: u32 },
    AAAA { domain: Vec<u8>, addr: Ipv6Addr, ttl: u32 },
}

/// The mathematical model of a resource record.
pub enum SpecRecord {
    UNKNOWN { domain: Seq<u8>, qtype: u16, data_len: u16, ttl: u32 },
    A { domain: Seq<u8>, addr: Ipv4Addr, ttl: u32 },
    NS { domain: Seq<u8>, host: Seq<u8>, ttl: u32 },
    CNAME { domain: Seq<u8>, host: Seq<u8>, ttl: u32 },
    MX { domain: Seq<u8>, priority: u16, host: Seq<u8>, ttl: u32 },
    AAAA { domain: Seq<u8>, addr: Ipv6Addr, ttl: u32 },
}

impl View for DnsRecord {
    type V = SpecRecord;

    open spec fn view(&self) -> SpecRecord {
        match *self {
            DnsRecord::UNKNOWN { domain, qtype, data_len, ttl } => SpecRecord::UNKNOWN {
                domain: domain@,
                qtype,
                data_len,
                ttl,
            },
            DnsRecord::A { domain, addr, ttl } => SpecRecord::A { domain: domain@, addr, ttl },
            DnsRecord::NS { domain, host, ttl } => SpecRecord::NS {
                domain: domain@,
                host: host@,
                ttl,
            },
            DnsRecord::CNAME { domain, host, ttl } => SpecRecord::CNAME {
                domain: domain@,
                host: host@,
                ttl,
            },
            DnsRecord::MX { domain, priority, host, ttl } => SpecRecord::MX {
                domain: domain@,
                priority,
                host: host@,
                ttl,
            },
            DnsRecord::AAAA { domain, addr, ttl } => SpecRecord::AAAA { domain: domain@, addr, ttl },
        }
    }
}

/// A record decoded from `buf` at `pos`, with the position just past it.
/// After the name come type, class (ignored), TTL and RDLENGTH; the RDATA
/// is then read by type, and skipped whole for an unrecognized type.
pub open spec fn spec_read_record(buf: Seq<u8>, pos: int) -> Result<(SpecRecord, int), DnsError> {
    match name_walk(buf, pos, 0) {
        Err(e) => Err(e),
        Ok((domain, p1)) => if p1 + 10 > 512 {
            Err(DnsError::EndOfBuffer)
        } else {
            let qtype_num = spec_u16(buf[p1], buf[p1 + 1]);
            let ttl = spec_u32(buf[p1 + 4], buf[p1 + 5], buf[p1 + 6], buf[p1 + 7]);
            let data_len = spec_u16(buf[p1 + 8], buf[p1 + 9]);
            let p2 = p1 + 10;
            match QueryType::spec_from_num(qtype_num) {
                QueryType::A => if p2 + 4 > 512 {
                    Err(DnsError::EndOfBuffer)
                } else {
                    Ok(
                        (
                            SpecRecord::A {
                                domain,
                                addr: Ipv4Addr {
                                    o0: buf[p2],
                                    o1: buf[p2 + 1],
                                    o2: buf[p2 + 2],
                                    o3: buf[p2 + 3],
                                },
                                ttl,
                            },
                            p2 + 4,
                        ),
                    )
                },
                QueryType::AAAA => if p2 + 16 > 512 {
                    Err(DnsError::EndOfBuffer)
                } else {
                    Ok(
                        (
                            SpecRecord::AAAA {
                                domain,
                                addr: Ipv6Addr {
                                    g0: spec_u16(buf[p2], buf[p2 + 1]),
                                    g1: spec_u16(buf[p2 + 2], buf[p2 + 3]),
                                    g2: spec_u16(buf[p2 + 4], buf[p2 + 5]),
                                    g3: spec_u16(buf[p2 + 6], buf[p2 + 7]),
                                    g4: spec_u16(buf[p2 + 8], buf[p2 + 9]),
                                    g5: spec_u16(buf[p2 + 10], buf[p2 + 11]),
                                    g6: spec_u16(buf[p2 + 12], buf[p2 + 13]),
                                    g7: spec_u16(buf[p2 + 14], buf[p2 + 15]),
                                },
                                ttl,
                            },
                            p2 + 16,
                        ),
                    )
                },
                QueryType::NS => match name_walk(buf, p2, 0) {
                    Err(e) => Err(e),
                    Ok((host, p3)) => Ok((SpecRecord::NS { domain, host, ttl }, p3)),
                },
                QueryType::CNAME => match name_walk(buf, p2, 0) {
                    Err(e) => Err(e),
                    Ok((host, p3)) => Ok((SpecRecord::CNAME { domain, host, ttl }, p3)),
                },
                QueryType::MX => if p2 + 2 > 512 {
                    Err(DnsError::EndOfBuffer)
                } else {
                    match name_walk(buf, p2 + 2, 0) {
                        Err(e) => Err(e),
                        Ok((host, p3)) => Ok(
                            (
                                SpecRecord::MX {
                                    domain,
                                    priority: spec_u16(buf[p2], buf[p2 + 1]),
                                    host,
                                    ttl,
                                },
                                p3,
                            ),
                        ),
                    }
                },
                QueryType::UNKNOWN(_) => Ok(
                    (
                        SpecRecord::UNKNOWN { domain, qtype: qtype_num, data_len, ttl },
                        p2 + data_len,
                    ),
                ),
            }
        },
    }
}

/// The wire bytes of a record. The RDLENGTH field equals the length of the
/// RDATA that follows it; an `UNKNOWN` record is dropped, encoding to
/// nothing.
pub open spec fn enc_record(r: SpecRecord) -> Seq<u8> {
    match r {
        SpecRecord::UNKNOWN { .. } => Seq::empty(),
        SpecRecord::A { domain, addr, ttl } => enc_name(domain) + enc_u16(1) + enc_u16(1)
            + enc_u32(ttl) + enc_u16(4) + seq![addr.o0, addr.o1, addr.o2, addr.o3],
        SpecRecord::NS { domain, host, ttl } => enc_name(domain) + enc_u16(2) + enc_u16(1)
            + enc_u32(ttl) + enc_u16(#[verifier::truncate] (enc_name(host).len() as u16))
            + enc_name(host),
        SpecRecord::CNAME { domain, host, ttl } => enc_name(domain) + enc_u16(5) + enc_u16(1)
            + enc_u32(ttl) + enc_u16(#[verifier::truncate] (enc_name(host).len() as u16))
            + enc_name(host),
        SpecRecord::MX { domain, priority, host, ttl } => enc_name(domain) + enc_u16(15) + enc_u16(
            1,
        ) + enc_u32(ttl) + enc_u16(#[verifier::truncate] ((2 + enc_name(host).len()) as u16))
            + enc_u16(priority) + enc_name(host),
        SpecRecord::AAAA { domain, addr, ttl } => enc_name(domain) + enc_u16(28) + enc_u16(1)
            + enc_u32(ttl) + enc_u16(16) + enc_u16(addr.g0) + enc_u16(addr.g1) + enc_u16(addr.g2)
            + enc_u16(addr.g3) + enc_u16(addr.g4) + enc_u16(addr.g5) + enc_u16(addr.g6) + enc_u16(
            addr.g7,
        ),
    }
}

/// When the encoder succeeds on `r` at `pos`: always for `UNKNOWN` (which
/// writes nothing), else exactly when every label fits and the wire bytes
/// end by byte 511.
pub open spec fn rec_writable(r: SpecRecord, pos: int) -> bool {
    r is UNKNOWN || (rec_labels_fit(r) && pos + enc_record(r).len() <= 512)
}

/// Every name the encoder would write for `r` has labels of at most 63
/// bytes.
pub open spec fn rec_labels_fit(r: SpecRecord) -> bool {
    match r {
        SpecRecord::UNKNOWN { .. } => true,
        SpecRecord::A { domain, .. } => labels_fit(domain),
        SpecRecord::AAAA { domain, .. } => labels_fit(domain),
        SpecRecord::NS { domain, host, .. } => labels_fit(domain) && labels_fit(host),
        SpecRecord::CNAME { domain, host, .. } => labels_fit(domain) && labels_fit(host),
        SpecRecord::MX { domain, host, .. } => labels_fit(domain) && labels_fit(host),
    }
}

/// The wire bytes of a record whose RDATA is a name, with an optional
/// 16-bit preference field before it (as `MX` has): the RDLENGTH counts
/// the preference and the uncompressed name.
pub open spec fn enc_name_rdata(
    domain: Seq<u8>,
    type_num: u16,
    ttl: u32,
    priority: Option<u16>,
    host: Seq<u8>,
) -> Seq<u8> {
    let rdata = match priority {
        Some(p) => enc_u16(p) + enc_name(host),
        None => enc_name(host),
    };
    enc_name(domain) + enc_u16(type_num) + enc_u16(1) + enc_u32(ttl) + enc_u16(
        #[verifier::truncate] (rdata.len() as u16),
    ) + rdata
}

/// Emit a record whose RDATA holds a name: after the fixed fields a zero
/// placeholder stands for RDLENGTH, the RDATA is written, and the measured
/// length is patched over the placeholder.
#[verifier::rlimit(100)]
fn write_name_rdata(
    buffer: &mut BytePacketBuffer,
    domain: &Vec<u8>,
    type_num: u16,
    ttl: u32,
    priority: Option<u16>,
    host: &Vec<u8>,
) -> (r: Result<(), DnsError>)
    ensures
        r is Ok <==> labels_fit(domain@) && labels_fit(host@) && old(buffer).pos + enc_name_rdata(
            domain@,
            type_num,
            ttl,
            priority,
            host@,
        ).len() <= 512,
        r is Ok ==> final(buffer).buf@ == spliced(
            old(buffer).buf@,
            old(buffer).pos as int,
            enc_name_rdata(domain@, type_num, ttl, priority, host@),
        ) && final(buffer).pos == old(buffer).pos + enc_name_rdata(
            domain@,
            type_num,
            ttl,
            priority,
            host@,
        ).len(),
        match r {
            Ok(()) => true,
            Err(e) => (e == DnsError::LabelTooLong && !(labels_fit(domain@) && labels_fit(host@)))
                || (e == DnsError::EndOfBuffer && old(buffer).pos + enc_name_rdata(
                domain@,
                type_num,
                ttl,
                priority,
                host@,
            ).len() > 512),
        },
{
    let ghost buf0 = buffer.buf@;
    let ghost p0 = buffer.pos as int;
    let ghost total = enc_name_rdata(domain@, type_num, ttl, priority, host@);
    let ghost rdata = (match priority {
        Some(p) => enc_u16(p) + enc_name(host@),
        None => enc_name(host@),
    });
    proof {
        assert(total.len() == enc_name(domain@).len() + 10 + rdata.len());
    }
    match buffer.write_qname(domain) {
        Ok(()) => (),
        Err(e) => return Err(e),
    };
    match buffer.write_u16(type_num) {
        Ok(()) => (),
        Err(e) => return Err(e),
    };
    match buffer.write_u16(0x0001) {
        Ok(()) => (),
        Err(e) => return Err(e),
    };
    match buffer.write_u32(ttl) {
        Ok(()) => (),
        Err(e) => return Err(e),
    };
    proof {
        let w1 = enc_name(domain@);
        lemma_spliced_concat(buf0, p0, w1, enc_u16(type_num));
        let w2 = w1 + enc_u16(type_num);
        lemma_spliced_concat(buf0, p0, w2, enc_u16(1));
        let w3 = w2 + enc_u16(1);
        lemma_spliced_concat(buf0, p0, w3, enc_u32(ttl));
    }
    let ghost wpre = enc_name(domain@) + enc_u16(type_num) + enc_u16(1) + enc_u32(ttl);
    let pos_ph = buffer.pos();
    match buffer.write_u16(0) {
        Ok(()) => (),
        Err(e) => return Err(e),
    };
    proof {
        lemma_spliced_concat(buf0, p0, wpre, enc_u16(0));
    }
    match priority {
        Some(p) => {
            match buffer.write_u16(p) {
                Ok(()) => (),
                Err(e) => return Err(e),
            };
            proof {
                lemma_spliced_concat(buf0, p0, wpre + enc_u16(0), enc_u16(p));
            }
        },
        None => (),
    }
    let ghost wmid = (match priority {
        Some(p) => wpre + enc_u16(0) + enc_u16(p),
        None => wpre + enc_u16(0),
    });
    match buffer.write_qname(host) {
        Ok(()) => (),
        Err(e) => return Err(e),
    };
    proof {
        lemma_spliced_concat(buf0, p0, wmid, enc_name(host@));
    }
    let size = buffer.pos() - (pos_ph + 2);
    buffer.set_u16(pos_ph, size as u16);
    proof {
        let w_with_ph = wmid + enc_name(host@);
        assert(size == rdata.len());
        assert(spliced(spliced(buf0, p0, w_with_ph), pos_ph as int, enc_u16(size as u16))
            =~= spliced(buf0, p0, total));
    }
    Ok(())
}

/// A record whose names are stored well-formed: labels of 1 to 63 bytes,
/// already lowercase. `UNKNOWN` is excluded — it has no wire form.
pub open spec fn rec_wf(r: SpecRecord) -> bool {
    match r {
        SpecRecord::UNKNOWN { .. } => false,
        SpecRecord::A { domain, .. } => wf_name(domain),
        SpecRecord::AAAA { domain, .. } => wf_name(domain),
        SpecRecord::NS { domain, host, .. } => wf_name(domain) && wf_name(host),
        SpecRecord::CNAME { domain, host, .. } => wf_name(domain) && wf_name(host),
        SpecRecord::MX { domain, host, .. } => wf_name(domain) && wf_name(host),
    }
}

/// Record round-trip: wherever the wire form of a well-formed typed record
/// sits in a frame, decoding from its start yields the record unchanged
/// and stops just past its RDATA.
#[verifier::rlimit(100)]
pub proof fn lemma_record_roundtrip(buf: Seq<u8>, p: int, r: SpecRecord)
    requires
        buf.len() == 512,
        rec_wf(r),
        0 <= p,
        p + enc_record(r).len() <= 512,
        buf.subrange(p, p + enc_record(r).len()) == enc_record(r),
    ensures
        spec_read_record(buf, p) == Ok::<(SpecRecord, int), DnsError>(
            (r, p + enc_record(r).len()),
        ),
{
    let el = enc_record(r);
    let ll = el.len() as int;
    match r {
        SpecRecord::UNKNOWN { .. } => {},
        SpecRecord::A { domain, addr, ttl } => {
            let ed = enc_name(domain);
            let dl = ed.len() as int;
            assert(el.subrange(0, dl) =~= ed);
            lemma_subrange_of_subrange(buf, p, el, 0, dl);
            lemma_name_roundtrip(buf, p, domain);
            let p1 = p + dl;
            assert(el.subrange(dl, dl + 2) =~= enc_u16(1));
            lemma_u16_at(buf, p, el, dl, 1);
            assert(el.subrange(dl + 4, dl + 8) =~= enc_u32(ttl));
            lemma_u32_at(buf, p, el, dl + 4, ttl);
            assert(el.subrange(dl + 8, dl + 10) =~= enc_u16(4));
            lemma_u16_at(buf, p, el, dl + 8, 4);
            let p2 = p1 + 10;
            assert(buf[p2] == addr.o0 && buf[p2 + 1] == addr.o1 && buf[p2 + 2] == addr.o2 && buf[p2
                + 3] == addr.o3) by {
                assert(buf.subrange(p, p + ll)[dl + 10] == buf[p2]);
                assert(buf.subrange(p, p + ll)[dl + 11] == buf[p2 + 1]);
                assert(buf.subrange(p, p + ll)[dl + 12] == buf[p2 + 2]);
                assert(buf.subrange(p, p + ll)[dl + 13] == buf[p2 + 3]);
            }
        },
        SpecRecord::AAAA { domain, addr, ttl } => {
            let ed = enc_name(domain);
            let dl = ed.len() as int;
            assert(el.subrange(0, dl) =~= ed);
            lemma_subrange_of_subrange(buf, p, el, 0, dl);
            lemma_name_roundtrip(buf, p, domain);
            assert(el.subrange(dl, dl + 2) =~= enc_u16(28));
            lemma_u16_at(buf, p, el, dl, 28);
            assert(el.subrange(dl + 4, dl + 8) =~= enc_u32(ttl));
            lemma_u32_at(buf, p, el, dl + 4, ttl);
            assert(el.subrange(dl + 8, dl + 10) =~= enc_u16(16));
            lemma_u16_at(buf, p, el, dl + 8, 16);
            assert(el.subrange(dl + 10, dl + 12) =~= enc_u16(addr.g0));
            lemma_u16_at(buf, p, el, dl + 10, addr.g0);
            assert(el.subrange(dl + 12, dl + 14) =~= enc_u16(addr.g1));
            lemma_u16_at(buf, p, el, dl + 12, addr.g1);
            assert(el.subrange(dl + 14, dl + 16) =~= enc_u16(addr.g2));
            lemma_u16_at(buf, p, el, dl + 14, addr.g2);
            assert(el.subrange(dl + 16, dl + 18) =~= enc_u16(addr.g3));
            lemma_u16_at(buf, p, el, dl + 16, addr.g3);
            assert(el.subrange(dl + 18, dl + 20) =~= enc_u16(addr.g4));
            lemma_u16_at(buf, p, el, dl + 18, addr.g4);
            assert(el.subrange(dl + 20, dl + 22) =~= enc_u16(addr.g5));
            lemma_u16_at(buf, p, el, dl + 20, addr.g5);
            assert(el.subrange(dl + 22, dl + 24) =~= enc_u16(addr.g6));
            lemma_u16_at(buf, p, el, dl + 22, addr.g6);
            assert(el.subrange(dl + 24, dl + 26) =~= enc_u16(addr.g7));
            lemma_u16_at(buf, p, el, dl + 24, addr.g7);
        },
        SpecRecord::NS { domain, host, ttl } => {
            lemma_name_rdata_roundtrip(buf, p, el, domain, 2, ttl, None, host);
        },
        SpecRecord::CNAME { domain, host, ttl } => {
            lemma_name_rdata_roundtrip(buf, p, el, domain, 5, ttl, None, host);
        },
        SpecRecord::MX { domain, priority, host, ttl } => {
            assert(el =~= enc_name_rdata(domain, 15, ttl, Some(priority), host));
            lemma_name_rdata_roundtrip(
                buf,
                p,
                enc_name_rdata(domain, 15, ttl, Some(priority), host),
                domain,
                15,
                ttl,
                Some(priority),
                host,
            );
        },
    }
}

/// The shared decode argument for the record variants whose RDATA holds a
/// name: the fixed fields read back, and the name in the RDATA decodes by
/// the name round-trip.
#[verifier::rlimit(100)]
proof fn lemma_name_rdata_roundtrip(
    buf: Seq<u8>,
    p: int,
    el: Seq<u8>,
    domain: Seq<u8>,
    type_num: u16,
    ttl: u32,
    priority: Option<u16>,
    host: Seq<u8>,
)
    requires
        buf.len() == 512,
        wf_name(domain),
        wf_name(host),
        0 <= p,
        el == enc_name_rdata(domain, type_num, ttl, priority, host),
        p + el.len() <= 512,
        buf.subrange(p, p + el.len()) == el,
    ensures
        name_walk(buf, p, 0) == Ok::<(Seq<u8>, int), DnsError>(
            (domain, p + enc_name(domain).len()),
        ),
        spec_u16(buf[p + enc_name(domain).len()], buf[p + enc_name(domain).len() + 1]) == type_num,
        spec_u32(
            buf[p + enc_name(domain).len() + 4],
            buf[p + enc_name(domain).len() + 5],
            buf[p + enc_name(domain).len() + 6],
            buf[p + enc_name(domain).len() + 7],
        ) == ttl,
        priority is Some ==> spec_u16(
            buf[p + enc_name(domain).len() + 10],
            buf[p + enc_name(domain).len() + 11],
        ) == priority->0,
        name_walk(
            buf,
            p + enc_name(domain).len() + 10 + (if priority is Some {
                2int
            } else {
                0int
            }),
            0,
        ) == Ok::<(Seq<u8>, int), DnsError>((host, p + el.len())),
{
    let ed = enc_name(domain);
    let dl = ed.len() as int;
    let eh = enc_name(host);
    let rdl = (if priority is Some {
        2int
    } else {
        0int
    }) + eh.len();
    assert(el.len() == dl + 10 + rdl);
    assert(el.subrange(0, dl) =~= ed);
    lemma_subrange_of_subrange(buf, p, el, 0, dl);
    lemma_name_roundtrip(buf, p, domain);
    assert(el.subrange(dl, dl + 2) =~= enc_u16(type_num));
    lemma_u16_at(buf, p, el, dl, type_num);
    assert(el.subrange(dl + 4, dl + 8) =~= enc_u32(ttl));
    lemma_u32_at(buf, p, el, dl + 4, ttl);
    let ph = dl + 10 + (if priority is Some {
        2int
    } else {
        0int
    });
    match priority {
        Some(pr) => {
            assert(el.subrange(dl + 10, dl + 12) =~= enc_u16(pr));
            lemma_u16_at(buf, p, el, dl + 10, pr);
        },
        None => {},
    }
    assert(el.subrange(ph, ph + eh.len()) =~= eh);
    lemma_subrange_of_subrange(buf, p, el, ph, ph + eh.len());
    lemma_name_roundtrip(buf, p + ph, host);
}

impl DnsRecord {
    /// Decode one record at the cursor, as `spec_read_record` states.
    #[verifier::rlimit(100)]
    pub fn read(buffer: &mut BytePacketBuffer) -> (r: Result<DnsRecord, DnsError>)
        ensures
            final(buffer).buf == old(buffer).buf,
            match spec_read_record(old(buffer).buf@, old(buffer).pos as int) {
                Ok(res) => r is Ok && r->Ok_0@ == res.0 && final(buffer).pos == res.1,
                Err(e) => r == Err::<DnsRecord, DnsError>(e),
            },
    {
        let mut domain: Vec<u8> = Vec::new();
        match buffer.read_qname(&mut domain) {
            Ok(()) => (),
            Err(e) => return Err(e),
        };
        let qtype_num = match buffer.read_u16() {
            Ok(v) => v,
            Err(e) => return Err(e),
        };
        let qtype = QueryType::from_num(qtype_num);
        match buffer.read_u16() {
            Ok(_) => (),
            Err(e) => return Err(e),
        };
        let ttl = match buffer.read_u32() {
            Ok(v) => v,
            Err(e) => return Err(e),
        };
        let data_len = match buffer.read_u16() {
            Ok(v) => v,
            Err(e) => return Err(e),
        };
        match qtype {
            QueryType::A => {
                let o0 = match buffer.read() {
                    Ok(v) => v,
                    Err(e) => return Err(e),
                };
                let o1 = match buffer.read() {
                    Ok(v) => v,
                    Err(e) => return Err(e),
                };
                let o2 = match buffer.read() {
                    Ok(v) => v,
                    Err(e) => return Err(e),
                };
                let o3 = match buffer.read() {
                    Ok(v) => v,
                    Err(e) => return Err(e),
                };
                Ok(DnsRecord::A { domain, addr: Ipv4Addr::new(o0, o1, o2, o3), ttl })
            },
            QueryType::AAAA => {
                let g0 = match buffer.read_u16() {
                    Ok(v) => v,
                    Err(e) => return Err(e),
                };
                let g1 = match buffer.read_u16() {
                    Ok(v) => v,
                    Err(e) => return Err(e),
                };
                let g2 = match buffer.read_u16() {
                    Ok(v) => v,
                    Err(e) => return Err(e),
                };
                let g3 = match buffer.read_u16() {
                    Ok(v) => v,
                    Err(e) => return Err(e),
                };
                let g4 = match buffer.read_u16() {
                    Ok(v) => v,
                    Err(e) => return Err(e),
                };
                let g5 = match buffer.read_u16() {
                    Ok(v) => v,
                    Err(e) => return Err(e),
                };
                let g6 = match buffer.read_u16() {
                    Ok(v) => v,
                    Err(e) => return Err(e),
                };
                let g7 = match buffer.read_u16() {
                    Ok(v) => v,
                    Err(e) => return Err(e),
                };
                Ok(
                    DnsRecord::AAAA {
                        domain,
                        addr: Ipv6Addr::new(g0, g1, g2, g3, g4, g5, g6, g7),
                        ttl,
                    },
                )
            },
            QueryType::NS => {
                let mut host: Vec<u8> = Vec::new();
                match buffer.read_qname(&mut host) {
                    Ok(()) => (),
                    Err(e) => return Err(e),
                };
                Ok(DnsRecord::NS { domain, host, ttl })
            },
            QueryType::CNAME => {
                let mut host: Vec<u8> = Vec::new();
                match buffer.read_qname(&mut host) {
                    Ok(()) => (),
                    Err(e) => return Err(e),
                };
                Ok(DnsRecord::CNAME { domain, host, ttl })
            },
            QueryType::MX => {
                let priority = match buffer.read_u16() {
                    Ok(v) => v,
                    Err(e) => return Err(e),
                };
                let mut host: Vec<u8> = Vec::new();
                match buffer.read_qname(&mut host) {
                    Ok(()) => (),
                    Err(e) => return Err(e),
                };
                Ok(DnsRecord::MX { domain, priority, host, ttl })
            },
            QueryType::UNKNOWN(_) => {
                buffer.step(data_len as usize);
                Ok(DnsRecord::UNKNOWN { domain, qtype: qtype_num, data_len, ttl })
            },
        }
    }

    /// Encode this record at the cursor and return how many bytes were
    /// written. Fixed-size RDATA is emitted after its RDLENGTH; for a name
    /// in the RDATA a zero placeholder is emitted, the name written, and
    /// the measured length patched back in place. `UNKNOWN` records are
    /// silently dropped.
    #[verifier::rlimit(100)]
    pub fn write(&self, buffer: &mut BytePacketBuffer) -> (r: Result<usize, DnsError>)
        ensures
            r is Ok <==> rec_writable(self@, old(buffer).pos as int),
            r is Ok ==> r == Ok::<usize, DnsError>(enc_record(self@).len() as usize)
                && final(buffer).buf@ == spliced(
                old(buffer).buf@,
                old(buffer).pos as int,
                enc_record(self@),
            ) && final(buffer).pos == old(buffer).pos + enc_record(self@).len(),
            match r {
                Ok(_) => true,
                Err(e) => (e == DnsError::LabelTooLong && !rec_labels_fit(self@)) || (e
                    == DnsError::EndOfBuffer && old(buffer).pos + enc_record(self@).len() > 512),
            },
    {
        let start_pos = buffer.pos();
        let ghost buf0 = buffer.buf@;
        let ghost p0 = buffer.pos as int;
        match self {
            DnsRecord::A { domain, addr, ttl } => {
                proof {
                    assert(enc_record(self@).len() == enc_name(domain@).len() + 14);
                }
                match buffer.write_qname(domain) {
                    Ok(()) => (),
                    Err(e) => return Err(e),
                };
                match buffer.write_u16(QueryType::A.to_num()) {
                    Ok(()) => (),
                    Err(e) => return Err(e),
                };
                match buffer.write_u16(0x0001) {
                    Ok(()) => (),
                    Err(e) => return Err(e),
                };
                match buffer.write_u32(*ttl) {
                    Ok(()) => (),
                    Err(e) => return Err(e),
                };
                match buffer.write_u16(0x0004) {
                    Ok(()) => (),
                    Err(e) => return Err(e),
                };
                proof {
                    let w1 = enc_name(domain@);
                    lemma_spliced_concat(buf0, p0, w1, enc_u16(1));
                    let w2 = w1 + enc_u16(1);
                    lemma_spliced_concat(buf0, p0, w2, enc_u16(1));
                    let w3 = w2 + enc_u16(1);
                    lemma_spliced_concat(buf0, p0, w3, enc_u32(*ttl));
                    let w4 = w3 + enc_u32(*ttl);
                    lemma_spliced_concat(buf0, p0, w4, enc_u16(4));
                }
                match buffer.write_u8(addr.o0) {
                    Ok(()) => (),
                    Err(e) => return Err(e),
                };
                match buffer.write_u8(addr.o1) {
                    Ok(()) => (),
                    Err(e) => return Err(e),
                };
                match buffer.write_u8(addr.o2) {
                    Ok(()) => (),
                    Err(e) => return Err(e),
                };
                match buffer.write_u8(addr.o3) {
                    Ok(()) => (),
                    Err(e) => return Err(e),
                };
                proof {
                    let w5 = enc_name(domain@) + enc_u16(1) + enc_u16(1) + enc_u32(*ttl) + enc_u16(
                        4,
                    );
                    lemma_spliced_push(buf0, p0, w5, addr.o0);
                    lemma_spliced_push(buf0, p0, w5.push(addr.o0), addr.o1);
                    lemma_spliced_push(buf0, p0, w5.push(addr.o0).push(addr.o1), addr.o2);
                    lemma_spliced_push(
                        buf0,
                        p0,
                        w5.push(addr.o0).push(addr.o1).push(addr.o2),
                        addr.o3,
                    );
                    assert(w5.push(addr.o0).push(addr.o1).push(addr.o2).push(addr.o3)
                        =~= enc_record(self@));
                }
            },
            DnsRecord::AAAA { domain, addr, ttl } => {
                proof {
                    assert(enc_record(self@).len() == enc_name(domain@).len() + 26);
                }
                match buffer.write_qname(domain) {
                    Ok(()) => (),
                    Err(e) => return Err(e),
                };
                match buffer.write_u16(QueryType::AAAA.to_num()) {
                    Ok(()) => (),
                    Err(e) => return Err(e),
                };
                match buffer.write_u16(0x0001) {
                    Ok(()) => (),
                    Err(e) => return Err(e),
                };
                match buffer.write_u32(*ttl) {
                    Ok(()) => (),
                    Err(e) => return Err(e),
                };
                match buffer.write_u16(0x0010) {
                    Ok(()) => (),
                    Err(e) => return Err(e),
                };
                match buffer.write_u16(addr.g0) {
                    Ok(()) => (),
                    Err(e) => return Err(e),
                };
                match buffer.write_u16(addr.g1) {
                    Ok(()) => (),
                    Err(e) => return Err(e),
                };
                match buffer.write_u16(addr.g2) {
                    Ok(()) => (),
                    Err(e) => return Err(e),
                };
                match buffer.write_u16(addr.g3) {
                    Ok(()) => (),
                    Err(e) => return Err(e),
                };
                match buffer.write_u16(addr.g4) {
                    Ok(()) => (),
                    Err(e) => return Err(e),
                };
                match buffer.write_u16(addr.g5) {
                    Ok(()) => (),
                    Err(e) => return Err(e),
                };
                match buffer.write_u16(addr.g6) {
                    Ok(()) => (),
                    Err(e) => return Err(e),
                };
                match buffer.write_u16(addr.g7) {
                    Ok(()) => (),
                    Err(e) => return Err(e),
                };
                proof {
                    let w1 = enc_name(domain@);
                    lemma_spliced_concat(buf0, p0, w1, enc_u16(28));
                    let w2 = w1 + enc_u16(28);
                    lemma_spliced_concat(buf0, p0, w2, enc_u16(1));
                    let w3 = w2 + enc_u16(1);
                    lemma_spliced_concat(buf0, p0, w3, enc_u32(*ttl));
                    let w4 = w3 + enc_u32(*ttl);
                    lemma_spliced_concat(buf0, p0, w4, enc_u16(16));
                    let w5 = w4 + enc_u16(16);
                    lemma_spliced_concat(buf0, p0, w5, enc_u16(addr.g0));
                    let w6 = w5 + enc_u16(addr.g0);
                    lemma_spliced_concat(buf0, p0, w6, enc_u16(addr.g1));
                    let w7 = w6 + enc_u16(addr.g1);
                    lemma_spliced_concat(buf0, p0, w7, enc_u16(addr.g2));
                    let w8 = w7 + enc_u16(addr.g2);
                    lemma_spliced_concat(buf0, p0, w8, enc_u16(addr.g3));
                    let w9 = w8 + enc_u16(addr.g3);
                    lemma_spliced_concat(buf0, p0, w9, enc_u16(addr.g4));
                    let w10 = w9 + enc_u16(addr.g4);
                    lemma_spliced_concat(buf0, p0, w10, enc_u16(addr.g5));
                    let w11 = w10 + enc_u16(addr.g5);
                    lemma_spliced_concat(buf0, p0, w11, enc_u16(addr.g6));
                    let w12 = w11 + enc_u16(addr.g6);
                    lemma_spliced_concat(buf0, p0, w12, enc_u16(addr.g7));
                    assert(w12 + enc_u16(addr.g7) =~= enc_record(self@));
                }
            },
            DnsRecord::NS { domain, host, ttl } => {
                proof {
                    assert(enc_name_rdata(domain@, 2, *ttl, None, host@) =~= enc_record(self@));
                }
                match write_name_rdata(buffer, domain, QueryType::NS.to_num(), *ttl, None, host) {
                    Ok(()) => (),
                    Err(e) => return Err(e),
                };
            },
            DnsRecord::CNAME { domain, host, ttl } => {
                proof {
                    assert(enc_name_rdata(domain@, 5, *ttl, None, host@) =~= enc_record(self@));
                }
                match write_name_rdata(
                    buffer,
                    domain,
                    QueryType::CNAME.to_num(),
                    *ttl,
                    None,
                    host,
                ) {
                    Ok(()) => (),
                    Err(e) => return Err(e),
                };
            },
            DnsRecord::MX { domain, priority, host, ttl } => {
                proof {
                    assert(enc_name_rdata(domain@, 15, *ttl, Some(*priority), host@) =~= enc_record(
                        self@,
                    ));
                }
                match write_name_rdata(
                    buffer,
                    domain,
                    QueryType::MX.to_num(),
                    *ttl,
                    Some(*priority),
                    host,
                ) {
                    Ok(()) => (),
                    Err(e) => return Err(e),
                };
            },
            DnsRecord::UNKNOWN { .. } => {
                proof {
                    lemma_spliced_empty(buf0, p0);
                }
            },
        }
        Ok(buffer.pos() - start_pos)
    }
}

} // verus!
