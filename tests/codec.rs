use mdns::codec::{DnsName, DnsPacket, DnsQuestion, DnsRecord};
use mdns::error::MdnsError;

fn name(s: &str) -> DnsName {
    DnsName::new(s).unwrap()
}

fn sample_packet() -> DnsPacket {
    let mut p = DnsPacket::new();
    p.flags = 0x8400;
    p.questions.push(DnsQuestion { qname: name("_http._tcp.local"), qtype: 12, qclass: 1 });
    p.answers.push(DnsRecord::PTR { name: name("_http._tcp.local"), ttl: 120, ptr_name: name("svc1.local") });
    p.answers.push(DnsRecord::SRV {
        name: name("svc1.local"),
        ttl: 4500,
        priority: 1,
        weight: 2,
        port: 8080,
        target: name("host1.local"),
    });
    p.answers.push(DnsRecord::A { name: name("host1.local"), ttl: 0xdeadbeef, ip: [10, 0, 0, 9] });
    p
}

#[test]
fn round_trip_reproduces_message() {
    let p = sample_packet();
    let bytes = p.serialize();
    assert_eq!(DnsPacket::parse(&bytes), Ok(p));
}

#[test]
fn round_trip_of_empty_message() {
    let p = DnsPacket::new();
    let bytes = p.serialize();
    assert_eq!(bytes.len(), 12);
    assert_eq!(DnsPacket::parse(&bytes), Ok(p));
}

#[test]
fn round_trip_of_root_name() {
    let mut p = DnsPacket::new();
    p.questions.push(DnsQuestion { qname: name(""), qtype: 1, qclass: 1 });
    let bytes = p.serialize();
    assert_eq!(DnsPacket::parse(&bytes), Ok(p));
}

#[test]
fn every_truncated_prefix_fails() {
    let bytes = sample_packet().serialize();
    for n in 0..bytes.len() {
        assert_eq!(DnsPacket::parse(&bytes[..n]), Err(MdnsError::DecodeError), "prefix of {} bytes", n);
    }
}

#[test]
fn overlong_rdata_length_fails() {
    let mut p = DnsPacket::new();
    p.answers.push(DnsRecord::A { name: name("a"), ttl: 1, ip: [1, 2, 3, 4] });
    let mut bytes = p.serialize();
    // the data length field sits just before the four address bytes
    let at = bytes.len() - 6;
    bytes[at] = 0;
    bytes[at + 1] = 200;
    assert_eq!(DnsPacket::parse(&bytes), Err(MdnsError::DecodeError));
}

#[test]
fn label_over_63_bytes_fails_to_decode() {
    let mut bytes = vec![0u8, 0, 0, 0, 0, 1, 0, 0, 0, 0, 0, 0];
    bytes.push(64);
    bytes.extend(std::iter::repeat(b'a').take(64));
    bytes.extend([0, 0, 12, 0, 1]);
    assert_eq!(DnsPacket::parse(&bytes), Err(MdnsError::DecodeError));
}

#[test]
fn unknown_record_type_fails_to_decode() {
    let mut p = DnsPacket::new();
    p.answers.push(DnsRecord::A { name: name("a"), ttl: 1, ip: [1, 2, 3, 4] });
    let mut bytes = p.serialize();
    // type field of the record: after header (12) and name (3)
    bytes[16] = 16;
    assert_eq!(DnsPacket::parse(&bytes), Err(MdnsError::DecodeError));
}

#[test]
fn short_buffer_is_a_decode_error() {
    assert_eq!(DnsPacket::parse(&[0, 0, 0x84]), Err(MdnsError::DecodeError));
    assert_eq!(DnsPacket::parse(&[]), Err(MdnsError::DecodeError));
}

#[test]
fn a_record_wire_bytes() {
    let mut p = DnsPacket::new();
    p.flags = 0x8400;
    p.answers.push(DnsRecord::A { name: name("a"), ttl: 120, ip: [1, 2, 3, 4] });
    let expected: Vec<u8> = vec![
        0, 0, 0x84, 0, 0, 0, 0, 1, 0, 0, 0, 0, 1, b'a', 0, 0, 1, 0, 1, 0, 0, 0, 120, 0, 4, 1, 2, 3, 4,
    ];
    assert_eq!(p.serialize(), expected);
}

#[test]
fn srv_record_wire_bytes() {
    let mut p = DnsPacket::new();
    p.answers.push(DnsRecord::SRV { name: name("s"), ttl: 0x01020304, priority: 5, weight: 6, port: 0x1f90, target: name("h") });
    let expected: Vec<u8> = vec![
        0, 0, 0, 0, 0, 0, 0, 1, 0, 0, 0, 0, 1, b's', 0, 0, 33, 0, 1, 1, 2, 3, 4, 0, 9, 0, 5, 0, 6, 0x1f, 0x90, 1,
        b'h', 0,
    ];
    assert_eq!(p.serialize(), expected);
}

#[test]
fn name_from_text() {
    let n = name("_http._tcp.local");
    assert_eq!(n.labels, vec![b"_http".to_vec(), b"_tcp".to_vec(), b"local".to_vec()]);
    assert_eq!(n.text_bytes(), b"_http._tcp.local".to_vec());
    assert_eq!(name("").labels.len(), 0);
}

#[test]
fn invalid_names_are_refused() {
    assert_eq!(DnsName::new("a..b"), Err(MdnsError::InvalidName));
    assert_eq!(DnsName::new("host."), Err(MdnsError::InvalidName));
    let long_label = "x".repeat(64);
    assert_eq!(DnsName::new(&long_label), Err(MdnsError::InvalidName));
    assert!(DnsName::new(&"x".repeat(63)).is_ok());
    // four labels of 63 bytes: 4 * 64 + 1 = 257 bytes on the wire
    let long_name = vec!["y".repeat(63); 4].join(".");
    assert_eq!(DnsName::new(&long_name), Err(MdnsError::InvalidName));
    let fits = vec!["y".repeat(63), "y".repeat(63), "y".repeat(63), "y".repeat(61)].join(".");
    assert!(DnsName::new(&fits).is_ok());
}

#[test]
fn qr_bit_marks_responses() {
    let mut p = DnsPacket::new();
    assert!(!p.is_response());
    p.flags = 0x8400;
    assert!(p.is_response());
}


#[test]
fn overlong_rdata_in_later_answer_fails() {
    let mut p = DnsPacket::new();
    p.answers.push(DnsRecord::A { name: name("a"), ttl: 1, ip: [1, 2, 3, 4] });
    p.answers.push(DnsRecord::A { name: name("b"), ttl: 1, ip: [5, 6, 7, 8] });
    let mut bytes = p.serialize();
    let at = bytes.len() - 6;
    bytes[at] = 0;
    bytes[at + 1] = 5;
    assert_eq!(DnsPacket::parse(&bytes), Err(MdnsError::DecodeError));
}

#[test]
fn well_formedness_check() {
    assert!(sample_packet().is_well_formed());
    let mut p = DnsPacket::new();
    p.answers.push(DnsRecord::A { name: DnsName { labels: vec![vec![b'x'; 64]] }, ttl: 1, ip: [1, 2, 3, 4] });
    assert!(!p.is_well_formed());
    let mut q = DnsPacket::new();
    q.questions.push(DnsQuestion { qname: DnsName { labels: vec![vec![]] }, qtype: 12, qclass: 1 });
    assert!(!q.is_well_formed());
}
