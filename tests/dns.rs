use dns_server::address::{parse_ipv4, parse_octet};
use dns_server::flags::{response_flags_word, HeaderFlags};
use dns_server::handler::{handle_query, Outcome};
use dns_server::query::{parse_query_domain, parse_question};
use dns_server::response::{create_response_packet, question_section_end};
use dns_server::table::resolve;

fn encode_name(name: &str) -> Vec<u8> {
    let mut out = Vec::new();
    if !name.is_empty() {
        for label in name.split('.') {
            out.push(label.len() as u8);
            out.extend_from_slice(label.as_bytes());
        }
    }
    out.push(0);
    out
}

fn query_with(id: u16, name: &[u8], qtype: u16, qclass: u16) -> Vec<u8> {
    let mut q = Vec::new();
    q.extend_from_slice(&id.to_be_bytes());
    q.extend_from_slice(&[0x01, 0x00, 0x00, 0x01, 0x00, 0x00, 0x00, 0x00, 0x00, 0x00]);
    q.extend_from_slice(name);
    q.extend_from_slice(&qtype.to_be_bytes());
    q.extend_from_slice(&qclass.to_be_bytes());
    q
}

fn a_query(id: u16, name: &str) -> Vec<u8> {
    query_with(id, &encode_name(name), 1, 1)
}

#[test]
fn parses_dotted_name() {
    let q = a_query(0x1234, "www.example.com");
    assert_eq!(parse_query_domain(&q), Some("www.example.com".to_string()));
    assert_eq!(parse_question(&q), Some(b"www.example.com".to_vec()));
}

#[test]
fn parses_root_name_as_empty() {
    let q = a_query(7, "");
    assert_eq!(parse_query_domain(&q), Some(String::new()));
}

#[test]
fn parses_with_trailing_bytes() {
    let mut q = a_query(7, "a.b");
    q.extend_from_slice(&[9, 9, 9]);
    assert_eq!(parse_query_domain(&q), Some("a.b".to_string()));
}

#[test]
fn parses_utf8_label() {
    let q = a_query(7, "ü.de");
    assert_eq!(parse_query_domain(&q), Some("ü.de".to_string()));
}

#[test]
fn rejects_non_utf8_label() {
    let q = query_with(7, &[2, 0xff, 0xfe, 0], 1, 1);
    assert_eq!(parse_query_domain(&q), None);
    assert_eq!(parse_question(&q), Some(vec![0xff, 0xfe]));
}

#[test]
fn mx_query_is_not_parsed() {
    let q = query_with(7, &encode_name("www.example.com"), 15, 1);
    assert_eq!(parse_query_domain(&q), None);
    assert!(matches!(handle_query(&q), Outcome::Unparsed));
}

#[test]
fn other_class_is_not_parsed() {
    let q = query_with(7, &encode_name("www.example.com"), 1, 3);
    assert_eq!(parse_query_domain(&q), None);
    let q = query_with(7, &encode_name("www.example.com"), 28, 1);
    assert_eq!(parse_query_domain(&q), None);
}

#[test]
fn every_truncation_is_rejected() {
    let q = a_query(7, "www.example.com");
    for n in 0..q.len() {
        assert_eq!(parse_query_domain(&q[..n]), None, "prefix of {} bytes", n);
        assert_eq!(question_section_end(&q[..n]), None, "prefix of {} bytes", n);
    }
}

#[test]
fn label_running_past_the_end_is_rejected() {
    let mut q = query_with(7, &[], 1, 1);
    q.truncate(12);
    q.extend_from_slice(&[10, b'a', b'b']);
    assert_eq!(parse_query_domain(&q), None);
    assert_eq!(question_section_end(&q), None);
}

#[test]
fn short_and_empty_buffers_are_rejected() {
    assert_eq!(parse_query_domain(&[]), None);
    assert_eq!(parse_query_domain(&[0u8; 12]), None);
    assert_eq!(parse_query_domain(&[0u8; 15]), None);
    let mut q = vec![0u8; 13];
    q.extend_from_slice(&[0, 1, 0, 1]);
    assert_eq!(parse_query_domain(&q), Some(String::new()));
}

#[test]
fn octets_parse_as_u8() {
    let t = |s: &str| parse_octet(s.as_bytes(), 0, s.len());
    assert_eq!(t("0"), Some(0));
    assert_eq!(t("255"), Some(255));
    assert_eq!(t("007"), Some(7));
    assert_eq!(t("+7"), Some(7));
    assert_eq!(t("256"), None);
    assert_eq!(t("1000"), None);
    assert_eq!(t(""), None);
    assert_eq!(t("+"), None);
    assert_eq!(t("-0"), None);
    assert_eq!(t("1a"), None);
    for n in 0..=255u32 {
        assert_eq!(t(&n.to_string()), Some(n as u8));
        assert_eq!(t(&n.to_string()), n.to_string().parse::<u8>().ok());
    }
    assert_eq!(parse_octet(b"x12y", 1, 3), Some(12));
}

#[test]
fn addresses_parse_as_four_octets() {
    assert_eq!(parse_ipv4(b"192.0.2.1"), Some(vec![192, 0, 2, 1]));
    assert_eq!(parse_ipv4(b"142.250.185.46"), Some(vec![142, 250, 185, 46]));
    assert_eq!(parse_ipv4(b"1.2.3"), None);
    assert_eq!(parse_ipv4(b"1.2.3.4.5"), None);
    assert_eq!(parse_ipv4(b"1.2.3.256"), None);
    assert_eq!(parse_ipv4(b"1..3.4"), None);
    assert_eq!(parse_ipv4(b"a.b.c.d"), None);
    assert_eq!(parse_ipv4(b""), None);
}

#[test]
fn response_flags_are_0x8180() {
    assert_eq!(response_flags_word(), 0x8180);
    assert_eq!(HeaderFlags::response_flags().encode(), 0x8180);
    let all = HeaderFlags {
        response: true,
        opcode: 15,
        authoritative: true,
        truncated: true,
        recursion_desired: true,
        recursion_available: true,
        reserved: 7,
        rcode: 15,
    };
    assert_eq!(all.encode(), 0xffff);
    let only_aa = HeaderFlags {
        response: false,
        opcode: 0,
        authoritative: true,
        truncated: false,
        recursion_desired: false,
        recursion_available: false,
        reserved: 0,
        rcode: 3,
    };
    assert_eq!(only_aa.encode(), 0x0403);
}

#[test]
fn resolution_table() {
    assert_eq!(resolve("www.example.com"), "192.0.2.1");
    assert_eq!(resolve("www.google.com"), "142.250.185.46");
    assert_eq!(resolve("rust-lang.org"), "104.16.53.67");
    assert_eq!(resolve("unknown.test"), "127.0.0.1");
    assert_eq!(resolve("WWW.EXAMPLE.COM"), "127.0.0.1");
    assert_eq!(resolve(""), "127.0.0.1");
}

#[test]
fn resolution_is_total() {
    for d in ["www.example.com", "www.google.com", "rust-lang.org", "x", "", "a.b.c"] {
        let ip = resolve(d);
        assert!(!ip.is_empty());
        assert!(parse_ipv4(ip.as_bytes()).is_some());
    }
}

#[test]
fn www_example_com_is_answered() {
    let q = a_query(0xbeef, "www.example.com");
    let domain = parse_query_domain(&q).unwrap();
    let ip = resolve(&domain);
    assert_eq!(ip, "192.0.2.1");
    let r = create_response_packet(&q, &domain, ip).unwrap();
    let n = r.len();
    assert_eq!(&r[n - 4..], &[192, 0, 2, 1]);
    assert_eq!(&r[n - 10..n - 6], &[0, 0, 1, 44]);
    assert_eq!(&r[n - 6..n - 4], &[0, 4]);
    assert_eq!(&r[n - 16..n - 10], &[0xc0, 0x0c, 0, 1, 0, 1]);
}

#[test]
fn unknown_test_falls_back() {
    let q = a_query(0x0102, "unknown.test");
    let domain = parse_query_domain(&q).unwrap();
    assert_eq!(domain, "unknown.test");
    let ip = resolve(&domain);
    assert_eq!(ip, "127.0.0.1");
    let r = create_response_packet(&q, &domain, ip).unwrap();
    assert_eq!(&r[r.len() - 4..], &[127, 0, 0, 1]);
}

#[test]
fn response_layout() {
    let q = a_query(0xabcd, "rust-lang.org");
    let r = create_response_packet(&q, "rust-lang.org", "104.16.53.67").unwrap();
    let qe = question_section_end(&q).unwrap();
    assert_eq!(qe, q.len());
    let mut expected = vec![0xab, 0xcd, 0x81, 0x80, 0x00, 0x01, 0x00, 0x01, 0, 0, 0, 0];
    expected.extend_from_slice(&q[12..qe]);
    expected.extend_from_slice(&[0xc0, 0x0c, 0, 1, 0, 1, 0, 0, 1, 44, 0, 4, 104, 16, 53, 67]);
    assert_eq!(r, expected);
}

#[test]
fn response_keeps_id_and_question() {
    let mut q = a_query(0x9a9a, "www.google.com");
    q[4] = 0x00;
    q[5] = 0x02;
    q.extend_from_slice(&[1, 2, 3]);
    let r = create_response_packet(&q, "www.google.com", "142.250.185.46").unwrap();
    let qe = question_section_end(&q).unwrap();
    assert_eq!(qe, q.len() - 3);
    assert_eq!(&r[0..2], &q[0..2]);
    assert_eq!(&r[4..6], &[0x00, 0x02]);
    assert_eq!(&r[12..qe], &q[12..qe]);
    assert_eq!(r.len(), qe + 16);
}

#[test]
fn mixed_case_question_is_echoed() {
    let q = a_query(1, "WwW.ExAmPlE.cOm");
    let r = create_response_packet(&q, "WwW.ExAmPlE.cOm", "127.0.0.1").unwrap();
    let qe = question_section_end(&q).unwrap();
    assert_eq!(&r[12..qe], &q[12..qe]);
}

#[test]
fn bad_address_builds_nothing() {
    let q = a_query(1, "a.b");
    assert_eq!(create_response_packet(&q, "a.b", "1.2.3"), None);
    assert_eq!(create_response_packet(&q, "a.b", "1.2.3.4.5"), None);
    assert_eq!(create_response_packet(&q, "a.b", "300.1.1.1"), None);
    assert_eq!(create_response_packet(&q, "a.b", "localhost"), None);
    assert_eq!(create_response_packet(&q, "a.b", ""), None);
    let r = create_response_packet(&q, "a.b", "+1.2.3.4").unwrap();
    assert_eq!(&r[r.len() - 4..], &[1, 2, 3, 4]);
}

#[test]
fn malformed_query_builds_nothing() {
    assert_eq!(create_response_packet(&[], "a", "1.2.3.4"), None);
    let q = a_query(1, "a.b");
    assert_eq!(create_response_packet(&q[..q.len() - 1], "a.b", "1.2.3.4"), None);
}

#[test]
fn handled_query_replies() {
    let q = a_query(0x4242, "www.example.com");
    match handle_query(&q) {
        Outcome::Reply { domain, packet } => {
            assert_eq!(domain, "www.example.com");
            assert_eq!(&packet[0..2], &[0x42, 0x42]);
            assert_eq!(&packet[packet.len() - 4..], &[192, 0, 2, 1]);
        }
        _ => panic!("expected a reply"),
    }
    assert!(matches!(handle_query(&q[..q.len() - 2]), Outcome::Unparsed));
}
