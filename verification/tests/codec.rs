use dns_resolver::buffer::{BytePacketBuffer, DnsError};
use dns_resolver::header::{DnsHeader, ResultCode};
use dns_resolver::packet::DnsPacket;
use dns_resolver::question::{DnsQuestion, QueryType};
use dns_resolver::record::{DnsRecord, Ipv4Addr, Ipv6Addr};

fn name(s: &str) -> Vec<u8> {
    s.as_bytes().to_vec()
}

#[test]
fn bound_read_past_end_fails() {
    let mut buffer = BytePacketBuffer::new();
    buffer.seek(512);
    assert_eq!(buffer.read(), Err(DnsError::EndOfBuffer));
    buffer.seek(511);
    assert_eq!(buffer.read(), Ok(0));
    assert_eq!(buffer.read(), Err(DnsError::EndOfBuffer));
}

#[test]
fn bound_write_past_end_fails() {
    let mut buffer = BytePacketBuffer::new();
    buffer.seek(512);
    assert_eq!(buffer.write_u8(7), Err(DnsError::EndOfBuffer));
    buffer.seek(511);
    assert_eq!(buffer.write_u8(7), Ok(()));
    assert_eq!(buffer.write_u8(7), Err(DnsError::EndOfBuffer));
    assert_eq!(buffer.buf[511], 7);
}

#[test]
fn bound_wide_reads_and_writes() {
    let mut buffer = BytePacketBuffer::new();
    buffer.seek(511);
    assert_eq!(buffer.read_u16(), Err(DnsError::EndOfBuffer));
    buffer.seek(509);
    assert_eq!(buffer.read_u32(), Err(DnsError::EndOfBuffer));
    buffer.seek(511);
    assert_eq!(buffer.write_u16(0x0102), Err(DnsError::EndOfBuffer));
    buffer.seek(510);
    assert_eq!(buffer.write_u16(0x0102), Ok(()));
    assert_eq!(buffer.buf[510], 1);
    assert_eq!(buffer.buf[511], 2);
}

#[test]
fn bound_get_range_checks_end() {
    let buffer = BytePacketBuffer::new();
    assert!(buffer.get_range(510, 2).is_err());
    assert!(buffer.get_range(0, 512).is_err());
    let slice = buffer.get_range(500, 11).unwrap();
    assert_eq!(slice.len(), 11);
}

#[test]
fn u16_u32_round_trip_values() {
    let mut buffer = BytePacketBuffer::new();
    buffer.write_u16(0xBEEF).unwrap();
    buffer.write_u32(0xDEADC0DE).unwrap();
    assert_eq!(&buffer.buf[0..6], &[0xBE, 0xEF, 0xDE, 0xAD, 0xC0, 0xDE]);
    buffer.seek(0);
    assert_eq!(buffer.read_u16(), Ok(0xBEEF));
    assert_eq!(buffer.read_u32(), Ok(0xDEADC0DE));
}

#[test]
fn patch_u16_leaves_cursor() {
    let mut buffer = BytePacketBuffer::new();
    buffer.seek(100);
    buffer.set_u16(10, 0x0203);
    assert_eq!(buffer.pos(), 100);
    assert_eq!(buffer.buf[10], 2);
    assert_eq!(buffer.buf[11], 3);
}

#[test]
fn header_round_trip() {
    let mut header = DnsHeader::new();
    header.id = 0x1234;
    header.response = true;
    header.opcode = 9;
    header.authoritative_answer = true;
    header.truncated_message = false;
    header.recursion_desired = true;
    header.recursion_available = true;
    header.z = true;
    header.authed_data = false;
    header.checking_disabled = true;
    header.rescode = ResultCode::REFUSED;
    header.questions = 1;
    header.answers = 513;
    header.authoritative_entries = 7;
    header.resource_entries = 0xFFFF;
    let mut buffer = BytePacketBuffer::new();
    header.write(&mut buffer).unwrap();
    assert_eq!(buffer.pos(), 12);
    buffer.seek(0);
    let mut decoded = DnsHeader::new();
    decoded.read(&mut buffer).unwrap();
    assert_eq!(decoded, header);
}

#[test]
fn header_write_past_end_fails() {
    let header = DnsHeader::new();
    let mut buffer = BytePacketBuffer::new();
    buffer.seek(501);
    assert_eq!(header.write(&mut buffer), Err(DnsError::EndOfBuffer));
    buffer.seek(500);
    assert_eq!(header.write(&mut buffer), Ok(()));
}

#[test]
fn result_code_from_num_maps_unknown_to_noerror() {
    assert_eq!(ResultCode::from_num(0), ResultCode::NOERROR);
    assert_eq!(ResultCode::from_num(1), ResultCode::FORMERR);
    assert_eq!(ResultCode::from_num(2), ResultCode::SERVFAIL);
    assert_eq!(ResultCode::from_num(3), ResultCode::NXDOMAIN);
    assert_eq!(ResultCode::from_num(4), ResultCode::NOTIMP);
    assert_eq!(ResultCode::from_num(5), ResultCode::REFUSED);
    assert_eq!(ResultCode::from_num(6), ResultCode::NOERROR);
    assert_eq!(ResultCode::from_num(255), ResultCode::NOERROR);
}

#[test]
fn query_type_numbers() {
    assert_eq!(QueryType::A.to_num(), 1);
    assert_eq!(QueryType::NS.to_num(), 2);
    assert_eq!(QueryType::CNAME.to_num(), 5);
    assert_eq!(QueryType::MX.to_num(), 15);
    assert_eq!(QueryType::AAAA.to_num(), 28);
    assert_eq!(QueryType::UNKNOWN(700).to_num(), 700);
    assert_eq!(QueryType::from_num(1), QueryType::A);
    assert_eq!(QueryType::from_num(2), QueryType::NS);
    assert_eq!(QueryType::from_num(5), QueryType::CNAME);
    assert_eq!(QueryType::from_num(15), QueryType::MX);
    assert_eq!(QueryType::from_num(28), QueryType::AAAA);
    assert_eq!(QueryType::from_num(700), QueryType::UNKNOWN(700));
}

#[test]
fn name_round_trip_plain() {
    let mut buffer = BytePacketBuffer::new();
    buffer.write_qname(&name("google.com")).unwrap();
    let end = buffer.pos();
    assert_eq!(end, 12); // 1 + 6 + 1 + 3 + 1 bytes
    buffer.seek(0);
    let mut out = Vec::new();
    buffer.read_qname(&mut out).unwrap();
    assert_eq!(out, name("google.com"));
    assert_eq!(buffer.pos(), end);
}

#[test]
fn name_round_trip_lowercases() {
    let mut buffer = BytePacketBuffer::new();
    buffer.write_qname(&name("GoOgLe.CoM")).unwrap();
    buffer.seek(0);
    let mut out = Vec::new();
    buffer.read_qname(&mut out).unwrap();
    assert_eq!(out, name("google.com"));
}

#[test]
fn name_longest_label_accepted() {
    let label: String = "a".repeat(63);
    let mut buffer = BytePacketBuffer::new();
    buffer.write_qname(&name(&label)).unwrap();
    buffer.seek(0);
    let mut out = Vec::new();
    buffer.read_qname(&mut out).unwrap();
    assert_eq!(out, name(&label));
}

#[test]
fn name_label_over_63_rejected() {
    let label: String = "a".repeat(64);
    let mut buffer = BytePacketBuffer::new();
    assert_eq!(buffer.write_qname(&name(&label)), Err(DnsError::LabelTooLong));
}

#[test]
fn name_write_past_end_fails() {
    let mut buffer = BytePacketBuffer::new();
    buffer.seek(505);
    assert_eq!(buffer.write_qname(&name("google.com")), Err(DnsError::EndOfBuffer));
}

#[test]
fn compressed_name_matches_plain_form() {
    let mut buffer = BytePacketBuffer::new();
    buffer.seek(20);
    buffer.write_qname(&name("google.com")).unwrap();
    // a pointer at 100 to the name at offset 20
    buffer.set(100, 0xC0);
    buffer.set(101, 20);
    buffer.seek(100);
    let mut out = Vec::new();
    buffer.read_qname(&mut out).unwrap();
    assert_eq!(out, name("google.com"));
    assert_eq!(buffer.pos(), 102);
}

#[test]
fn compressed_name_after_labels() {
    // "mail" + pointer to "google.com"
    let mut buffer = BytePacketBuffer::new();
    buffer.seek(20);
    buffer.write_qname(&name("google.com")).unwrap();
    buffer.seek(60);
    buffer.write_u8(4).unwrap();
    for b in b"mail" {
        buffer.write_u8(*b).unwrap();
    }
    buffer.write_u8(0xC0).unwrap();
    buffer.write_u8(20).unwrap();
    buffer.seek(60);
    let mut out = Vec::new();
    buffer.read_qname(&mut out).unwrap();
    assert_eq!(out, name("mail.google.com"));
    assert_eq!(buffer.pos(), 67);
}

#[test]
fn self_pointer_fails_pointer_loop() {
    let mut buffer = BytePacketBuffer::new();
    buffer.set(10, 0xC0);
    buffer.set(11, 10);
    buffer.seek(10);
    let mut out = Vec::new();
    assert_eq!(buffer.read_qname(&mut out), Err(DnsError::PointerLoop));
}

#[test]
fn five_jump_chain_succeeds_six_fails() {
    let mut buffer = BytePacketBuffer::new();
    // the name itself at offset 200
    buffer.seek(200);
    buffer.write_qname(&name("example.com")).unwrap();
    // a chain of pointers 10 -> 20 -> 30 -> 40 -> 50 -> 200
    for (at, to) in [(10, 20), (20, 30), (30, 40), (40, 50), (50, 200)] {
        buffer.set(at, 0xC0);
        buffer.set(at + 1, to as u8);
    }
    buffer.seek(10);
    let mut out = Vec::new();
    assert_eq!(buffer.read_qname(&mut out), Ok(()));
    assert_eq!(out, name("example.com"));
    // one more hop in front makes six jumps
    buffer.set(4, 0xC0);
    buffer.set(5, 10);
    buffer.seek(4);
    let mut out2 = Vec::new();
    assert_eq!(buffer.read_qname(&mut out2), Err(DnsError::PointerLoop));
}

#[test]
fn question_round_trip() {
    let question = DnsQuestion::new(name("www.example.org"), QueryType::MX);
    let mut buffer = BytePacketBuffer::new();
    question.write(&mut buffer).unwrap();
    buffer.seek(0);
    let mut decoded = DnsQuestion::new(Vec::new(), QueryType::UNKNOWN(0));
    decoded.read(&mut buffer).unwrap();
    assert_eq!(decoded, question);
}

#[test]
fn record_round_trip_a() {
    let record = DnsRecord::A {
        domain: name("example.com"),
        addr: Ipv4Addr::new(93, 184, 216, 34),
        ttl: 3600,
    };
    let mut buffer = BytePacketBuffer::new();
    let written = record.write(&mut buffer).unwrap();
    assert_eq!(written, buffer.pos());
    buffer.seek(0);
    assert_eq!(DnsRecord::read(&mut buffer).unwrap(), record);
    assert_eq!(buffer.pos(), written);
}

#[test]
fn record_round_trip_aaaa() {
    let record = DnsRecord::AAAA {
        domain: name("example.com"),
        addr: Ipv6Addr::new(0x2606, 0x2800, 0x220, 0x1, 0x248, 0x1893, 0x25c8, 0x1946),
        ttl: 60,
    };
    let mut buffer = BytePacketBuffer::new();
    record.write(&mut buffer).unwrap();
    buffer.seek(0);
    assert_eq!(DnsRecord::read(&mut buffer).unwrap(), record);
}

#[test]
fn record_round_trip_ns() {
    let record = DnsRecord::NS {
        domain: name("com"),
        host: name("a.gtld-servers.net"),
        ttl: 172800,
    };
    let mut buffer = BytePacketBuffer::new();
    record.write(&mut buffer).unwrap();
    buffer.seek(0);
    assert_eq!(DnsRecord::read(&mut buffer).unwrap(), record);
}

#[test]
fn record_round_trip_cname() {
    let record = DnsRecord::CNAME {
        domain: name("www.example.com"),
        host: name("example.com"),
        ttl: 300,
    };
    let mut buffer = BytePacketBuffer::new();
    record.write(&mut buffer).unwrap();
    buffer.seek(0);
    assert_eq!(DnsRecord::read(&mut buffer).unwrap(), record);
}

#[test]
fn record_round_trip_mx() {
    let record = DnsRecord::MX {
        domain: name("example.com"),
        priority: 10,
        host: name("mail.example.com"),
        ttl: 3600,
    };
    let mut buffer = BytePacketBuffer::new();
    record.write(&mut buffer).unwrap();
    buffer.seek(0);
    assert_eq!(DnsRecord::read(&mut buffer).unwrap(), record);
}

#[test]
fn record_rdlength_matches_rdata() {
    // NS record for domain "x": name(3) + type(2) + class(2) + ttl(4) = 11
    // bytes before RDLENGTH, so RDLENGTH sits at offset 11.
    let record = DnsRecord::NS { domain: name("x"), host: name("a.bc"), ttl: 0 };
    let mut buffer = BytePacketBuffer::new();
    record.write(&mut buffer).unwrap();
    // host "a.bc" encodes as 1 'a' 2 'b' 'c' 0 = 6 bytes
    assert_eq!(buffer.buf[11], 0);
    assert_eq!(buffer.buf[12], 6);
    assert_eq!(buffer.pos(), 11 + 2 + 6);
}

#[test]
fn record_mx_rdlength_counts_priority() {
    let record = DnsRecord::MX { domain: name("x"), priority: 5, host: name("a.bc"), ttl: 0 };
    let mut buffer = BytePacketBuffer::new();
    record.write(&mut buffer).unwrap();
    assert_eq!(buffer.buf[11], 0);
    assert_eq!(buffer.buf[12], 8);
}

#[test]
fn unknown_record_preserved_on_decode() {
    let mut buffer = BytePacketBuffer::new();
    buffer.write_qname(&name("odd.example")).unwrap();
    buffer.write_u16(99).unwrap(); // unrecognized type
    buffer.write_u16(1).unwrap();
    buffer.write_u32(120).unwrap();
    buffer.write_u16(5).unwrap(); // RDLENGTH
    let rdata_start = buffer.pos();
    for b in [1, 2, 3, 4, 5] {
        buffer.write_u8(b).unwrap();
    }
    buffer.seek(0);
    let record = DnsRecord::read(&mut buffer).unwrap();
    assert_eq!(
        record,
        DnsRecord::UNKNOWN { domain: name("odd.example"), qtype: 99, data_len: 5, ttl: 120 }
    );
    // the cursor advanced exactly RDLENGTH past the RDATA
    assert_eq!(buffer.pos(), rdata_start + 5);
}

#[test]
fn unknown_record_dropped_on_encode() {
    let record = DnsRecord::UNKNOWN { domain: name("odd.example"), qtype: 99, data_len: 5, ttl: 120 };
    let mut buffer = BytePacketBuffer::new();
    assert_eq!(record.write(&mut buffer), Ok(0));
    assert_eq!(buffer.pos(), 0);
    assert_eq!(buffer.buf[0], 0);
}

#[test]
fn packet_counts_synchronized() {
    let mut packet = DnsPacket::new();
    packet.header.questions = 40; // stale counts are overwritten
    packet.header.answers = 40;
    packet.questions.push(DnsQuestion::new(name("example.com"), QueryType::A));
    packet.answers.push(DnsRecord::A {
        domain: name("example.com"),
        addr: Ipv4Addr::new(1, 2, 3, 4),
        ttl: 60,
    });
    packet.answers.push(DnsRecord::A {
        domain: name("example.com"),
        addr: Ipv4Addr::new(5, 6, 7, 8),
        ttl: 60,
    });
    packet.authorities.push(DnsRecord::NS {
        domain: name("com"),
        host: name("ns.example.com"),
        ttl: 60,
    });
    let mut buffer = BytePacketBuffer::new();
    packet.write(&mut buffer).unwrap();
    assert_eq!(packet.header.questions, 1);
    assert_eq!(packet.header.answers, 2);
    assert_eq!(packet.header.authoritative_entries, 1);
    assert_eq!(packet.header.resource_entries, 0);
    // the emitted header carries the same counts
    assert_eq!(&buffer.buf[4..12], &[0, 1, 0, 2, 0, 1, 0, 0]);
}

#[test]
fn packet_round_trip() {
    let mut packet = DnsPacket::new();
    packet.header.id = 7;
    packet.header.response = true;
    packet.questions.push(DnsQuestion::new(name("example.com"), QueryType::A));
    packet.answers.push(DnsRecord::A {
        domain: name("example.com"),
        addr: Ipv4Addr::new(1, 2, 3, 4),
        ttl: 60,
    });
    packet.resources.push(DnsRecord::AAAA {
        domain: name("example.com"),
        addr: Ipv6Addr::new(1, 2, 3, 4, 5, 6, 7, 8),
        ttl: 60,
    });
    let mut buffer = BytePacketBuffer::new();
    packet.write(&mut buffer).unwrap();
    buffer.seek(0);
    let decoded = DnsPacket::from_buffer(&mut buffer).unwrap();
    assert_eq!(decoded.header, packet.header);
    assert_eq!(decoded.questions, packet.questions);
    assert_eq!(decoded.answers, packet.answers);
    assert_eq!(decoded.authorities, packet.authorities);
    assert_eq!(decoded.resources, packet.resources);
}

#[test]
fn query_wire_bytes_exact() {
    let mut packet = DnsPacket::new();
    packet.header.id = 12745;
    packet.header.questions = 1;
    packet.header.recursion_desired = true;
    packet.header.authed_data = true;
    packet.questions.push(DnsQuestion::new(name("google.com"), QueryType::A));
    let mut buffer = BytePacketBuffer::new();
    packet.write(&mut buffer).unwrap();
    let expected: [u8; 28] = [
        0x31, 0xC9, 0x01, 0x20, 0x00, 0x01, 0x00, 0x00, 0x00, 0x00, 0x00, 0x00, 0x06, 0x67, 0x6F,
        0x6F, 0x67, 0x6C, 0x65, 0x03, 0x63, 0x6F, 0x6D, 0x00, 0x00, 0x01, 0x00, 0x01,
    ];
    assert_eq!(buffer.pos(), expected.len());
    assert_eq!(&buffer.buf[0..expected.len()], &expected);
}
