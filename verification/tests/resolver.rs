use dns_resolver::protocol::lookup::{
    build_query, build_response, ends_with, next_step, step_after_resolving, LookupStep,
};
use dns_resolver::protocol::packet::DnsPacket;
use dns_resolver::protocol::question::DnsQuestion;
use dns_resolver::protocol::record::DnsRecord;
use dns_resolver::types::query_type::QueryType;
use dns_resolver::types::result_code::ResultCode;

fn ns(domain: &str, host: &str) -> DnsRecord {
    DnsRecord::NS { domain: domain.to_string(), host: host.to_string(), ttl: 100 }
}

fn a(domain: &str, addr: u32) -> DnsRecord {
    DnsRecord::A { domain: domain.to_string(), addr, ttl: 100 }
}

#[test]
fn ends_with_compares_bytes() {
    assert!(ends_with("www.google.com", "google.com"));
    assert!(ends_with("www.google.com", ""));
    assert!(ends_with("com", "com"));
    assert!(!ends_with("com", "google.com"));
    assert!(!ends_with("www.google.com", "google.org"));
}

#[test]
fn build_query_has_one_question() {
    let q = build_query("google.com", QueryType::A, true);
    assert_eq!(q.header.id, 6969);
    assert_eq!(q.header.question_count, 1);
    assert!(q.header.recursion_desired);
    assert_eq!(q.questions, vec![DnsQuestion::new("google.com".to_string(), QueryType::A)]);
    assert!(q.answers.is_empty());
    let q = build_query("google.com", QueryType::MX, false);
    assert!(!q.header.recursion_desired);
}

#[test]
fn build_response_without_a_question_is_formerr() {
    let r = build_response(5, None, None);
    assert_eq!(r.header.id, 5);
    assert!(r.header.query_or_response && r.header.recursion_desired && r.header.recursion_available);
    assert_eq!(r.header.response_code, ResultCode::FORMERR);
    assert!(r.questions.is_empty());
}

#[test]
fn build_response_when_forwarding_failed_is_servfail() {
    let q = DnsQuestion::new("x.org".to_string(), QueryType::A);
    let r = build_response(6, Some(q), None);
    assert_eq!(r.header.response_code, ResultCode::SERVFAIL);
    assert!(r.questions.is_empty());
}

#[test]
fn build_response_copies_the_upstream_sections() {
    let q = DnsQuestion::new("x.org".to_string(), QueryType::A);
    let mut up = DnsPacket::new();
    up.header.id = 999;
    up.header.response_code = ResultCode::NXDOMAIN;
    up.answers.push(a("x.org", 1));
    up.authorities.push(ns("org", "ns.org"));
    up.resources.push(a("ns.org", 2));
    let r = build_response(7, Some(q.clone()), Some(up.clone()));
    assert_eq!(r.header.id, 7);
    assert_eq!(r.header.response_code, ResultCode::NOERR);
    assert_eq!(r.questions, vec![q]);
    assert_eq!(r.answers, up.answers);
    assert_eq!(r.authorities, up.authorities);
    assert_eq!(r.resources, up.resources);
}

#[test]
fn get_random_a_takes_the_first_a_answer() {
    let mut p = DnsPacket::new();
    assert_eq!(p.get_random_a(), None);
    p.answers.push(ns("x", "y"));
    p.answers.push(a("x", 0x01020304));
    p.answers.push(a("x", 0x05060708));
    assert_eq!(p.get_random_a(), Some(0x01020304));
}

#[test]
fn name_servers_for_a_name() {
    let mut p = DnsPacket::new();
    p.authorities.push(ns("org", "a.org-servers.net"));
    p.authorities.push(ns("com", "a.gtld-servers.net"));
    p.authorities.push(ns("com", "b.gtld-servers.net"));
    p.resources.push(a("b.gtld-servers.net", 0xc0210e1e));
    assert_eq!(p.get_unresolved_ns("google.com"), Some("a.gtld-servers.net"));
    assert_eq!(p.get_resolved_ns("google.com"), Some(0xc0210e1e));
    assert_eq!(p.get_unresolved_ns("example.net"), None);
    assert_eq!(p.get_resolved_ns("wikipedia.org"), None);
}

#[test]
fn next_step_decisions() {
    let mut answered = DnsPacket::new();
    answered.answers.push(a("google.com", 1));
    assert!(matches!(next_step("google.com", &answered), LookupStep::Done));

    let mut missing = DnsPacket::new();
    missing.header.response_code = ResultCode::NXDOMAIN;
    missing.authorities.push(ns("com", "a.gtld-servers.net"));
    assert!(matches!(next_step("nope.com", &missing), LookupStep::Done));

    let mut referral = DnsPacket::new();
    referral.authorities.push(ns("com", "a.gtld-servers.net"));
    referral.resources.push(a("a.gtld-servers.net", 0xc005061e));
    assert!(matches!(next_step("google.com", &referral), LookupStep::AskServer(0xc005061e)));

    let mut bare = DnsPacket::new();
    bare.authorities.push(ns("com", "a.gtld-servers.net"));
    match next_step("google.com", &bare) {
        LookupStep::ResolveServer(h) => assert_eq!(h, "a.gtld-servers.net"),
        _ => panic!("expected a server to resolve"),
    }

    let mut failed = DnsPacket::new();
    failed.header.response_code = ResultCode::SERVFAIL;
    failed.answers.push(a("google.com", 1));
    assert!(matches!(next_step("google.com", &failed), LookupStep::Done));
}

#[test]
fn step_after_resolving_asks_the_first_address_or_stops() {
    let mut resolved = DnsPacket::new();
    resolved.answers.push(DnsRecord::NS { domain: "a".to_string(), host: "b".to_string(), ttl: 1 });
    assert!(matches!(step_after_resolving(&resolved), LookupStep::Done));
    resolved.answers.push(DnsRecord::A { domain: "ns.a".to_string(), addr: 0x0a00_0002, ttl: 1 });
    resolved.answers.push(DnsRecord::A { domain: "ns.a".to_string(), addr: 0x0a00_0003, ttl: 1 });
    assert!(matches!(step_after_resolving(&resolved), LookupStep::AskServer(0x0a00_0002)));
    assert!(matches!(step_after_resolving(&DnsPacket::new()), LookupStep::Done));
}
