use mdns::codec::{DnsName, DnsPacket, DnsQuestion, DnsRecord};
use mdns::engine::MdnsService;
use mdns::error::MdnsError;
use mdns::registry::{MdnsRegistry, ServiceRecord};
use mdns::text::ipv4_string;

fn name(s: &str) -> DnsName {
    DnsName::new(s).unwrap()
}

fn service_with_svc1() -> MdnsService {
    let mut s = MdnsService::new();
    s.register_local_service(
        "svc1.local".to_string(),
        "_http._tcp.local".to_string(),
        8080,
        None,
        "host1.local".to_string(),
    )
    .unwrap();
    s
}

fn query_for(service_type: &str) -> DnsPacket {
    let mut p = DnsPacket::new();
    p.questions.push(DnsQuestion { qname: name(service_type), qtype: 12, qclass: 1 });
    p
}

fn expected_answers(ip: [u8; 4]) -> Vec<DnsRecord> {
    vec![
        DnsRecord::PTR { name: name("_http._tcp.local"), ttl: 120, ptr_name: name("svc1.local") },
        DnsRecord::SRV { name: name("svc1.local"), ttl: 120, priority: 0, weight: 0, port: 8080, target: name("host1.local") },
        DnsRecord::A { name: name("host1.local"), ttl: 120, ip },
    ]
}

#[test]
fn advertisement_of_registered_service() {
    let s = service_with_svc1();
    let p = s.create_advertise_packet(Some([192, 168, 1, 20])).unwrap();
    assert_eq!(p.flags, 0x8400);
    assert!(p.questions.is_empty());
    assert_eq!(p.answers, expected_answers([192, 168, 1, 20]));
}

#[test]
fn advertisement_of_empty_registry() {
    let s = MdnsService::new();
    let p = s.create_advertise_packet(None).unwrap();
    assert_eq!(p.flags, 0x8400);
    assert_eq!(p.answers.len(), 0);
    let p2 = s.create_advertise_packet(Some([1, 2, 3, 4])).unwrap();
    assert_eq!(p2.answers.len(), 0);
}

#[test]
fn advertisement_without_local_address_fails() {
    let s = service_with_svc1();
    assert_eq!(s.create_advertise_packet(None), Err(MdnsError::NoLocalAddress));
}

#[test]
fn advertisement_uses_service_ttl() {
    let mut s = MdnsService::new();
    s.register_local_service("a.local".to_string(), "_x._udp.local".to_string(), 1, Some(7), "h.local".to_string())
        .unwrap();
    let p = s.create_advertise_packet(Some([1, 1, 1, 1])).unwrap();
    assert_eq!(p.answers.len(), 3);
    for r in &p.answers {
        let ttl = match r {
            DnsRecord::A { ttl, .. } | DnsRecord::PTR { ttl, .. } | DnsRecord::SRV { ttl, .. } => *ttl,
        };
        assert_eq!(ttl, 7);
    }
}

#[test]
fn query_is_answered_with_source_address() {
    let s = service_with_svc1();
    let responses = s.process_query(&query_for("_http._tcp.local"), Some([10, 0, 0, 5]));
    assert_eq!(responses.len(), 1);
    assert_eq!(responses[0].flags, 0x8400);
    assert_eq!(responses[0].answers, expected_answers([10, 0, 0, 5]));
}

#[test]
fn query_from_non_ipv4_source_omits_a_record() {
    let s = service_with_svc1();
    let responses = s.process_query(&query_for("_http._tcp.local"), None);
    assert_eq!(responses.len(), 1);
    assert_eq!(responses[0].answers.len(), 2);
}

#[test]
fn query_matching_is_exact() {
    let s = service_with_svc1();
    assert!(s.process_query(&query_for("_HTTP._tcp.local"), Some([10, 0, 0, 5])).is_empty());
    assert!(s.process_query(&query_for("_http._tcp.loca"), Some([10, 0, 0, 5])).is_empty());
    assert_eq!(s.process_query(&query_for("_http._tcp.local"), Some([10, 0, 0, 5])).len(), 1);
}

#[test]
fn query_other_type_or_class_is_ignored() {
    let s = service_with_svc1();
    let mut p = DnsPacket::new();
    p.questions.push(DnsQuestion { qname: name("_http._tcp.local"), qtype: 1, qclass: 1 });
    p.questions.push(DnsQuestion { qname: name("_http._tcp.local"), qtype: 12, qclass: 3 });
    assert!(s.process_query(&p, Some([10, 0, 0, 5])).is_empty());
}

#[test]
fn one_response_per_matching_question() {
    let mut s = service_with_svc1();
    s.register_local_service("svc2.local".to_string(), "_ftp._tcp.local".to_string(), 21, None, "host1.local".to_string())
        .unwrap();
    let mut p = query_for("_http._tcp.local");
    p.questions.push(DnsQuestion { qname: name("_none._tcp.local"), qtype: 12, qclass: 1 });
    p.questions.push(DnsQuestion { qname: name("_ftp._tcp.local"), qtype: 12, qclass: 1 });
    let responses = s.process_query(&p, Some([10, 0, 0, 5]));
    assert_eq!(responses.len(), 2);
    assert_eq!(responses[0].answers[1], DnsRecord::SRV { name: name("svc1.local"), ttl: 120, priority: 0, weight: 0, port: 8080, target: name("host1.local") });
    assert_eq!(responses[1].answers[1], DnsRecord::SRV { name: name("svc2.local"), ttl: 120, priority: 0, weight: 0, port: 21, target: name("host1.local") });
}

#[test]
fn response_a_record_adds_node() {
    let mut s = MdnsService::new();
    let mut p = DnsPacket::new();
    p.flags = 0x8400;
    p.answers.push(DnsRecord::A { name: name("host2.local"), ttl: 120, ip: [10, 0, 0, 9] });
    p.answers.push(DnsRecord::PTR { name: name("_http._tcp.local"), ttl: 120, ptr_name: name("svc9.local") });
    let bytes = p.serialize();
    let decoded = DnsPacket::parse(&bytes).unwrap();
    s.process_response(&decoded);
    let nodes = s.registry.list_nodes();
    assert_eq!(nodes.len(), 1);
    assert_eq!(nodes[0].id, "host2.local");
    assert_eq!(nodes[0].ip_address, "10.0.0.9");
    assert_eq!(nodes[0].ttl, Some(120));
}

#[test]
fn rediscovered_node_is_replaced() {
    let mut s = MdnsService::new();
    let mut p = DnsPacket::new();
    p.flags = 0x8400;
    p.answers.push(DnsRecord::A { name: name("host2.local"), ttl: 120, ip: [10, 0, 0, 9] });
    p.answers.push(DnsRecord::A { name: name("host2.local"), ttl: 60, ip: [10, 0, 0, 10] });
    s.process_response(&p);
    let nodes = s.registry.list_nodes();
    assert_eq!(nodes.len(), 1);
    assert_eq!(nodes[0].ip_address, "10.0.0.10");
    assert_eq!(nodes[0].ttl, Some(60));
}

#[test]
fn response_from_non_ipv4_source_is_absorbed() {
    let mut s = MdnsService::new();
    let mut p = DnsPacket::new();
    p.flags = 0x8400;
    p.answers.push(DnsRecord::A { name: name("host2.local"), ttl: 120, ip: [10, 0, 0, 9] });
    let out = s.handle_datagram(&p.serialize(), None);
    assert!(out.is_empty());
    let nodes = s.registry.list_nodes();
    assert_eq!(nodes.len(), 1);
    assert_eq!(nodes[0].id, "host2.local");
    assert_eq!(nodes[0].ip_address, "10.0.0.9");
    assert_eq!(nodes[0].ttl, Some(120));
}

#[test]
fn node_name_that_is_not_utf8_is_skipped() {
    let mut s = MdnsService::new();
    let mut p = DnsPacket::new();
    p.flags = 0x8400;
    p.answers.push(DnsRecord::A { name: DnsName { labels: vec![vec![0xff, 0xfe]] }, ttl: 120, ip: [10, 0, 0, 9] });
    s.process_response(&p);
    assert!(s.registry.list_nodes().is_empty());
}

#[test]
fn datagram_dispatch() {
    let mut s = service_with_svc1();
    let query = query_for("_http._tcp.local").serialize();
    let out = s.handle_datagram(&query, Some([10, 0, 0, 5]));
    assert_eq!(out.len(), 1);
    assert_eq!(out[0].answers, expected_answers([10, 0, 0, 5]));

    let mut resp = DnsPacket::new();
    resp.flags = 0x8400;
    resp.answers.push(DnsRecord::A { name: name("host3.local"), ttl: 30, ip: [172, 16, 0, 1] });
    let out = s.handle_datagram(&resp.serialize(), Some([172, 16, 0, 1]));
    assert!(out.is_empty());
    assert_eq!(s.registry.list_nodes()[0].ip_address, "172.16.0.1");

    assert!(s.handle_datagram(&[1, 2, 3], Some([1, 2, 3, 4])).is_empty());
    assert_eq!(s.registry.list_nodes().len(), 1);
}

#[test]
fn query_packet_bytes() {
    let p = MdnsService::query_packet("_http._tcp.local").unwrap();
    assert_eq!(p.flags, 0);
    let mut expected: Vec<u8> = vec![0, 0, 0, 0, 0, 1, 0, 0, 0, 0, 0, 0];
    expected.push(5);
    expected.extend(b"_http");
    expected.push(4);
    expected.extend(b"_tcp");
    expected.push(5);
    expected.extend(b"local");
    expected.extend([0, 0, 12, 0, 1]);
    assert_eq!(p.serialize(), expected);
    assert_eq!(MdnsService::query_packet("bad..name"), Err(MdnsError::InvalidName));
}

#[test]
fn registration_last_write_wins() {
    let mut s = service_with_svc1();
    s.register_local_service("svc1.local".to_string(), "_ipp._tcp.local".to_string(), 631, Some(30), "host9.local".to_string())
        .unwrap();
    let services = s.registry.list_services();
    assert_eq!(services.len(), 1);
    assert_eq!(services[0].service_type, "_ipp._tcp.local");
    assert_eq!(services[0].port, 631);
    assert_eq!(services[0].ttl, Some(30));
    assert_eq!(services[0].origin, "host9.local");
    assert_eq!(services[0].priority, Some(0));
    assert_eq!(services[0].weight, Some(0));
}

#[test]
fn registration_with_invalid_name_fails() {
    let mut s = MdnsService::new();
    let r = s.register_local_service("bad..id".to_string(), "_http._tcp.local".to_string(), 1, None, "h.local".to_string());
    assert_eq!(r, Err(MdnsError::InvalidName));
    assert!(s.registry.list_services().is_empty());
}

#[test]
fn registry_upserts_in_place() {
    let mut r = MdnsRegistry::new();
    let mk = |id: &str, port: u16| ServiceRecord {
        id: id.to_string(),
        service_type: "_t._tcp.local".to_string(),
        port,
        ttl: None,
        origin: "o.local".to_string(),
        priority: None,
        weight: None,
    };
    r.add_service(mk("a", 1));
    r.add_service(mk("b", 2));
    r.add_service(mk("a", 3));
    let list = r.list_services();
    assert_eq!(list.len(), 2);
    assert_eq!((list[0].id.as_str(), list[0].port), ("a", 3));
    assert_eq!((list[1].id.as_str(), list[1].port), ("b", 2));
    assert_eq!(r.service_count(), 2);
    assert!(r.has_service(&"b".to_string()));
    assert!(!r.has_service(&"c".to_string()));
}

#[test]
fn ipv4_text_forms() {
    assert_eq!(ipv4_string([10, 0, 0, 9]), "10.0.0.9");
    assert_eq!(ipv4_string([192, 168, 100, 255]), "192.168.100.255");
    assert_eq!(ipv4_string([0, 0, 0, 0]), "0.0.0.0");
}
