use dns_resolver::buffer::BytePacketBuffer;
use dns_resolver::buffer::DnsError;
use dns_resolver::header::ResultCode;
use dns_resolver::packet::DnsPacket;
use dns_resolver::question::{DnsQuestion, QueryType};
use dns_resolver::record::{DnsRecord, Ipv4Addr};
use dns_resolver::resolver::{build_query, root_ns, ResolveAction, Resolver};
use dns_resolver::server::make_response;

fn dname(s: &str) -> Vec<u8> {
    s.as_bytes().to_vec()
}

fn response_skeleton(rescode: ResultCode) -> DnsPacket {
    let mut packet = DnsPacket::new();
    packet.header.response = true;
    packet.header.rescode = rescode;
    packet
}

#[test]
fn build_query_shape() {
    let packet = build_query(6666, dname("yahoo.com"), QueryType::MX);
    assert_eq!(packet.header.id, 6666);
    assert!(packet.header.recursion_desired);
    assert_eq!(packet.header.questions, 1);
    assert_eq!(packet.questions.len(), 1);
    assert_eq!(packet.questions[0], DnsQuestion::new(dname("yahoo.com"), QueryType::MX));
    assert!(packet.answers.is_empty());
    assert!(packet.authorities.is_empty());
    assert!(packet.resources.is_empty());
}

#[test]
fn start_queries_the_root() {
    let (resolver, action) = Resolver::start(dname("google.com"), QueryType::A);
    assert_eq!(resolver.frames.len(), 1);
    match action {
        ResolveAction::Query { ns, qname, qtype } => {
            assert_eq!(ns, root_ns());
            assert_eq!(qname, dname("google.com"));
            assert_eq!(qtype, QueryType::A);
        }
        ResolveAction::Done(_) => panic!("expected a query"),
    }
}

#[test]
fn nxdomain_returns_immediately() {
    let (mut resolver, _) = Resolver::start(dname("nosuch.example"), QueryType::A);
    let response = response_skeleton(ResultCode::NXDOMAIN);
    match resolver.on_response(response) {
        ResolveAction::Done(done) => {
            assert_eq!(done.header.rescode, ResultCode::NXDOMAIN);
            assert!(done.answers.is_empty());
        }
        ResolveAction::Query { .. } => panic!("engine must not ask upstream again"),
    }
    assert!(resolver.frames.is_empty());
}

#[test]
fn answers_with_noerror_return() {
    let (mut resolver, _) = Resolver::start(dname("example.com"), QueryType::A);
    let mut response = response_skeleton(ResultCode::NOERROR);
    response.answers.push(DnsRecord::A {
        domain: dname("example.com"),
        addr: Ipv4Addr::new(93, 184, 216, 34),
        ttl: 60,
    });
    match resolver.on_response(response) {
        ResolveAction::Done(done) => assert_eq!(done.answers.len(), 1),
        ResolveAction::Query { .. } => panic!("engine must return the answer"),
    }
}

fn delegation_response(with_glue: bool) -> DnsPacket {
    let mut response = response_skeleton(ResultCode::NOERROR);
    response.authorities.push(DnsRecord::NS {
        domain: dname("com"),
        host: dname("a.gtld-servers.net"),
        ttl: 172800,
    });
    if with_glue {
        response.resources.push(DnsRecord::A {
            domain: dname("a.gtld-servers.net"),
            addr: Ipv4Addr::new(192, 5, 6, 30),
            ttl: 172800,
        });
    }
    response
}

#[test]
fn glued_delegation_adopts_glue_address() {
    let (mut resolver, _) = Resolver::start(dname("www.google.com"), QueryType::A);
    match resolver.on_response(delegation_response(true)) {
        ResolveAction::Query { ns, qname, qtype } => {
            assert_eq!(ns, Ipv4Addr::new(192, 5, 6, 30));
            assert_eq!(qname, dname("www.google.com"));
            assert_eq!(qtype, QueryType::A);
        }
        ResolveAction::Done(_) => panic!("engine must follow the delegation"),
    }
    assert_eq!(resolver.frames.len(), 1);
}

#[test]
fn unglued_delegation_resolves_ns_from_root() {
    let (mut resolver, _) = Resolver::start(dname("www.google.com"), QueryType::A);
    match resolver.on_response(delegation_response(false)) {
        ResolveAction::Query { ns, qname, qtype } => {
            assert_eq!(ns, root_ns());
            assert_eq!(qname, dname("a.gtld-servers.net"));
            assert_eq!(qtype, QueryType::A);
        }
        ResolveAction::Done(_) => panic!("engine must resolve the nameserver host"),
    }
    assert_eq!(resolver.frames.len(), 2);
}

#[test]
fn unglued_delegation_without_a_returns_prior_response() {
    let (mut resolver, _) = Resolver::start(dname("www.google.com"), QueryType::A);
    let prior = delegation_response(false);
    let prior_authorities = prior.authorities.clone();
    match resolver.on_response(prior) {
        ResolveAction::Query { .. } => (),
        ResolveAction::Done(_) => panic!("engine must resolve the nameserver host"),
    }
    // the sub-resolution ends with no A answer at all
    let empty = response_skeleton(ResultCode::NXDOMAIN);
    match resolver.on_response(empty) {
        ResolveAction::Done(done) => {
            assert_eq!(done.authorities, prior_authorities);
            assert_eq!(done.header.rescode, ResultCode::NOERROR);
        }
        ResolveAction::Query { .. } => panic!("engine must give the prior response back"),
    }
}

#[test]
fn unglued_delegation_with_a_continues() {
    let (mut resolver, _) = Resolver::start(dname("www.google.com"), QueryType::A);
    resolver.on_response(delegation_response(false));
    let mut sub = response_skeleton(ResultCode::NOERROR);
    sub.answers.push(DnsRecord::A {
        domain: dname("a.gtld-servers.net"),
        addr: Ipv4Addr::new(192, 5, 6, 30),
        ttl: 60,
    });
    match resolver.on_response(sub) {
        ResolveAction::Query { ns, qname, qtype } => {
            assert_eq!(ns, Ipv4Addr::new(192, 5, 6, 30));
            assert_eq!(qname, dname("www.google.com"));
            assert_eq!(qtype, QueryType::A);
        }
        ResolveAction::Done(_) => panic!("engine must retry with the resolved address"),
    }
    assert_eq!(resolver.frames.len(), 1);
}

#[test]
fn no_matching_authority_returns_response() {
    let (mut resolver, _) = Resolver::start(dname("www.example.org"), QueryType::A);
    // the only NS is for an unrelated zone
    let response = delegation_response(true);
    match resolver.on_response(response) {
        ResolveAction::Done(done) => assert_eq!(done.header.rescode, ResultCode::NOERROR),
        ResolveAction::Query { .. } => panic!("no delegation matches www.example.org"),
    }
}

#[test]
fn get_resolved_ns_prefers_glued_match() {
    let packet = delegation_response(true);
    assert_eq!(
        packet.get_resolved_ns(&dname("www.google.com")),
        Some(Ipv4Addr::new(192, 5, 6, 30))
    );
    assert_eq!(packet.get_resolved_ns(&dname("www.example.org")), None);
}

#[test]
fn get_unresolved_ns_matches_suffix() {
    let packet = delegation_response(false);
    assert_eq!(packet.get_resolved_ns(&dname("www.google.com")), None);
    assert_eq!(
        packet.get_unresolved_ns(&dname("www.google.com")),
        Some(dname("a.gtld-servers.net"))
    );
    assert_eq!(packet.get_unresolved_ns(&dname("www.example.org")), None);
}

#[test]
fn get_random_a_takes_first_a_answer() {
    let mut packet = response_skeleton(ResultCode::NOERROR);
    packet.answers.push(DnsRecord::CNAME {
        domain: dname("www.example.com"),
        host: dname("example.com"),
        ttl: 60,
    });
    packet.answers.push(DnsRecord::A {
        domain: dname("example.com"),
        addr: Ipv4Addr::new(10, 0, 0, 1),
        ttl: 60,
    });
    packet.answers.push(DnsRecord::A {
        domain: dname("example.com"),
        addr: Ipv4Addr::new(10, 0, 0, 2),
        ttl: 60,
    });
    assert_eq!(packet.get_random_a(), Some(Ipv4Addr::new(10, 0, 0, 1)));
    assert_eq!(response_skeleton(ResultCode::NOERROR).get_random_a(), None);
}

#[test]
fn pointer_chain_of_seven_fails_decode() {
    // a query whose question name is a chain of seven pointer hops
    let mut buffer = BytePacketBuffer::new();
    buffer.set_u16(0, 77); // id
    buffer.set_u16(4, 1); // one question
    // question section starts at 12; chain 12 -> 30 -> 32 -> ... -> 42 -> 44
    buffer.set(12, 0xC0);
    buffer.set(13, 30);
    for hop in 0..6u8 {
        let at = 30 + 2 * (hop as usize);
        buffer.set(at, 0xC0);
        buffer.set(at + 1, 32 + 2 * hop);
    }
    buffer.set(44, 0); // an ordinary empty name ends the chain too late
    let result = DnsPacket::from_buffer(&mut buffer);
    assert_eq!(result.err(), Some(DnsError::PointerLoop));
}

#[test]
fn handler_answers_servfail_on_engine_failure() {
    let question = DnsQuestion::new(dname("www.google.com"), QueryType::A);
    let response = make_response(77, Some(question), None);
    assert_eq!(response.header.id, 77);
    assert_eq!(response.header.rescode, ResultCode::SERVFAIL);
    assert!(response.header.response);
    assert!(response.header.recursion_desired);
    assert!(response.header.recursion_available);
    assert!(response.questions.is_empty());
    assert!(response.answers.is_empty());
}

#[test]
fn handler_answers_formerr_without_question() {
    let response = make_response(4242, None, None);
    assert_eq!(response.header.id, 4242);
    assert_eq!(response.header.rescode, ResultCode::FORMERR);
    assert!(response.questions.is_empty());
    assert!(response.answers.is_empty());
    assert!(response.authorities.is_empty());
    assert!(response.resources.is_empty());
}

#[test]
fn handler_copies_engine_result() {
    let question = DnsQuestion::new(dname("example.com"), QueryType::A);
    let mut result = response_skeleton(ResultCode::NOERROR);
    result.answers.push(DnsRecord::A {
        domain: dname("example.com"),
        addr: Ipv4Addr::new(1, 2, 3, 4),
        ttl: 60,
    });
    result.authorities.push(DnsRecord::NS {
        domain: dname("com"),
        host: dname("ns.example.com"),
        ttl: 60,
    });
    let response = make_response(9, Some(question.clone()), Some(result));
    assert_eq!(response.header.rescode, ResultCode::NOERROR);
    assert_eq!(response.questions, vec![question]);
    assert_eq!(response.answers.len(), 1);
    assert_eq!(response.authorities.len(), 1);
    assert!(response.resources.is_empty());
}

#[test]
fn take_first_question_pops_in_order() {
    let mut packet = DnsPacket::new();
    packet.questions.push(DnsQuestion::new(dname("first.example"), QueryType::A));
    packet.questions.push(DnsQuestion::new(dname("second.example"), QueryType::NS));
    let taken = packet.take_first_question().unwrap();
    assert_eq!(taken, DnsQuestion::new(dname("first.example"), QueryType::A));
    assert_eq!(packet.questions.len(), 1);
    let mut empty = DnsPacket::new();
    assert!(empty.take_first_question().is_none());
}

#[test]
fn zero_question_request_gets_formerr_with_echoed_id() {
    // a request datagram with no question at all
    let mut request = DnsPacket::new();
    request.header.id = 5151;
    let mut buffer = BytePacketBuffer::new();
    request.write(&mut buffer).unwrap();
    buffer.seek(0);
    let mut decoded = DnsPacket::from_buffer(&mut buffer).unwrap();
    let question = decoded.take_first_question();
    assert!(question.is_none());
    let response = make_response(decoded.header.id, question, None);
    assert_eq!(response.header.id, 5151);
    assert_eq!(response.header.rescode, ResultCode::FORMERR);
    assert!(response.questions.is_empty());
    assert!(response.answers.is_empty());
}
