use dns_codec::errors::DecodeError;
use dns_codec::header::DnsHeader;
use dns_codec::message::{build_response, process_datagram, DnsMessage};
use dns_codec::name::DomainName;
use dns_codec::question::DnsQuestion;
use dns_codec::record::DnsAnswer;

fn name_from(labels: &[&str]) -> DomainName {
    DomainName {
        labels: labels.iter().map(|l| l.as_bytes().to_vec()).collect(),
    }
}

fn make_request(id: u16, opcode: u8, names: &[&[&str]]) -> Vec<u8> {
    let header = DnsHeader {
        id,
        qr: false,
        opcode,
        aa: false,
        tc: false,
        rd: true,
        ra: false,
        z: 0,
        rcode: 0,
        qdcount: names.len() as u16,
        ancount: 0,
        nscount: 0,
        arcount: 0,
    };
    let mut buf: Vec<u8> = Vec::new();
    header.write_bytes(&mut buf);
    for labels in names {
        let q = DnsQuestion {
            qname: name_from(labels),
            qtype: 1,
            qclass: 1,
        };
        q.write_bytes(&mut buf).unwrap();
    }
    buf
}

struct ParsedResponse {
    header: DnsHeader,
    questions: Vec<DnsQuestion>,
    answers: Vec<DnsAnswer>,
}

fn parse_response(bytes: &[u8]) -> ParsedResponse {
    let header = DnsHeader::from_bytes(bytes).unwrap();
    let mut offset = 12usize;
    let mut questions = Vec::new();
    for _ in 0..header.qdcount {
        questions.push(DnsQuestion::from_bytes(bytes, &mut offset).unwrap());
    }
    let mut answers = Vec::new();
    for _ in 0..header.ancount {
        answers.push(DnsAnswer::from_bytes(bytes, &mut offset).unwrap());
    }
    assert_eq!(offset, bytes.len());
    ParsedResponse {
        header,
        questions,
        answers,
    }
}

#[test]
fn response_to_standard_query() {
    let request = make_request(0x1234, 0, &[&["codecrafters", "io"]]);
    let response = process_datagram(&request).unwrap();
    let parsed = parse_response(&response);
    assert!(parsed.header.qr);
    assert_eq!(parsed.header.id, 0x1234);
    assert_eq!(parsed.header.rcode, 0);
    assert_eq!(parsed.header.qdcount, 1);
    assert_eq!(parsed.header.ancount, 1);
    assert_eq!(parsed.questions.len(), 1);
    assert_eq!(parsed.questions[0].qname, name_from(&["codecrafters", "io"]));
    assert_eq!(parsed.questions[0].qtype, 1);
    assert_eq!(parsed.questions[0].qclass, 1);
    assert_eq!(parsed.answers.len(), 1);
    let answer = &parsed.answers[0];
    assert_eq!(answer.name, name_from(&["codecrafters", "io"]));
    assert_eq!(answer.qtype, 1);
    assert_eq!(answer.qclass, 1);
    assert_eq!(answer.ttl, 60);
    assert_eq!(answer.data_len, 4);
    assert_eq!(answer.data.len(), 4);
}

#[test]
fn response_to_unsupported_opcode() {
    let request = make_request(0x1234, 5, &[&["codecrafters", "io"]]);
    let response = process_datagram(&request).unwrap();
    let parsed = parse_response(&response);
    assert!(parsed.header.qr);
    assert_eq!(parsed.header.id, 0x1234);
    assert_eq!(parsed.header.rcode, 4);
    assert_eq!(parsed.header.qdcount, 1);
    assert_eq!(parsed.header.ancount, 1);
    assert_eq!(parsed.questions[0].qname, name_from(&["codecrafters", "io"]));
    assert_eq!(parsed.answers.len(), 1);
}

#[test]
fn short_buffer_gets_no_response() {
    let buf = vec![0u8; 11];
    assert_eq!(process_datagram(&buf), None);
    assert_eq!(process_datagram(&[]), None);
    assert_eq!(
        DnsMessage::parse_request(&buf),
        Err(DecodeError::TooShort)
    );
}

#[test]
fn malformed_question_drops_datagram() {
    // a question whose name is a pointer past the end of the buffer
    let mut request = make_request(1, 0, &[]);
    request[5] = 1; // qdcount = 1
    request.push(0xC0);
    request.push(0xFF);
    request.push(0);
    request.push(1);
    request.push(0);
    request.push(1);
    assert_eq!(
        DnsMessage::parse_request(&request),
        Err(DecodeError::MalformedName)
    );
    assert_eq!(process_datagram(&request), None);
}

#[test]
fn two_questions_two_answers_in_order() {
    let request = make_request(7, 0, &[&["foo", "example"], &["bar", "example"]]);
    let response = process_datagram(&request).unwrap();
    let parsed = parse_response(&response);
    assert_eq!(parsed.header.qdcount, 2);
    assert_eq!(parsed.header.ancount, 2);
    assert_eq!(parsed.questions[0].qname, name_from(&["foo", "example"]));
    assert_eq!(parsed.questions[1].qname, name_from(&["bar", "example"]));
    assert_eq!(parsed.answers[0].name, name_from(&["foo", "example"]));
    assert_eq!(parsed.answers[1].name, name_from(&["bar", "example"]));
}

#[test]
fn parse_request_reads_announced_questions() {
    let request = make_request(3, 0, &[&["a"], &["b"]]);
    let m = DnsMessage::parse_request(&request).unwrap();
    assert_eq!(m.header.qdcount, 2);
    assert_eq!(m.questions.len(), 2);
    assert_eq!(m.questions[0].qname, name_from(&["a"]));
    assert_eq!(m.questions[1].qname, name_from(&["b"]));
    assert!(m.answers.is_empty());
}

#[test]
fn build_response_uses_resolved_address() {
    let request = make_request(9, 0, &[&["resolved", "example"]]);
    let req = DnsMessage::parse_request(&request).unwrap();
    let addrs = vec![Some(vec![192, 0, 2, 7])];
    let resp = build_response(&req, &addrs);
    assert_eq!(resp.answers.len(), 1);
    assert_eq!(resp.answers[0].data, vec![192, 0, 2, 7]);
    assert_eq!(resp.answers[0].data_len, 4);
    assert_eq!(resp.answers[0].name, name_from(&["resolved", "example"]));
    let mut out: Vec<u8> = Vec::new();
    resp.write_bytes(&mut out).unwrap();
    let parsed = parse_response(&out);
    assert_eq!(parsed.answers[0].data, vec![192, 0, 2, 7]);
}

#[test]
fn build_response_falls_back_to_default_address() {
    let request = make_request(9, 0, &[&["unresolved", "example"]]);
    let req = DnsMessage::parse_request(&request).unwrap();
    let addrs = vec![None];
    let resp = build_response(&req, &addrs);
    assert_eq!(resp.answers[0].data, vec![8, 8, 8, 8]);
    assert_eq!(resp.answers[0].data_len, 4);
}

#[test]
fn response_uses_default_data_without_resolver() {
    let request = make_request(2, 0, &[&["plain"]]);
    let response = process_datagram(&request).unwrap();
    let parsed = parse_response(&response);
    assert_eq!(parsed.answers[0].data, vec![8, 8, 8, 8]);
}

#[test]
fn response_echoes_compressed_question_name() {
    // a hand-built request whose question name is a compression pointer
    // to a literal name stored after the question; the response carries
    // the expanded name
    let mut request: Vec<u8> = Vec::new();
    let header = DnsHeader {
        id: 11,
        qr: false,
        opcode: 0,
        aa: false,
        tc: false,
        rd: false,
        ra: false,
        z: 0,
        rcode: 0,
        qdcount: 1,
        ancount: 0,
        nscount: 0,
        arcount: 0,
    };
    header.write_bytes(&mut request);
    // question at offset 12: pointer to offset 18, type 1, class 1
    request.extend_from_slice(&[0xC0, 18, 0, 1, 0, 1]);
    // the name "ab" at offset 18
    request.extend_from_slice(&[2, b'a', b'b', 0]);
    let m = DnsMessage::parse_request(&request).unwrap();
    assert_eq!(m.questions[0].qname, name_from(&["ab"]));
    let response = process_datagram(&request).unwrap();
    let parsed = parse_response(&response);
    assert_eq!(parsed.questions[0].qname, name_from(&["ab"]));
    assert_eq!(parsed.answers[0].name, name_from(&["ab"]));
}

#[test]
fn unencodable_question_name_drops_datagram() {
    // the question's name decodes with a 100-byte label, so the request
    // parses, but the echoed name cannot be encoded and no response is
    // produced
    let mut request = make_request(4, 0, &[]);
    request[5] = 1; // qdcount = 1
    request.push(100);
    request.extend_from_slice(&[b'z'; 100]);
    request.push(0);
    request.extend_from_slice(&[0, 1, 0, 1]);
    assert!(DnsMessage::parse_request(&request).is_ok());
    assert_eq!(process_datagram(&request), None);
}
