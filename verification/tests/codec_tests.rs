use dns_codec::errors::{DecodeError, EncodeError};
use dns_codec::header::DnsHeader;
use dns_codec::name::DomainName;
use dns_codec::question::DnsQuestion;
use dns_codec::record::DnsAnswer;

fn name_from(labels: &[&str]) -> DomainName {
    DomainName {
        labels: labels.iter().map(|l| l.as_bytes().to_vec()).collect(),
    }
}

#[test]
fn header_roundtrip_preserves_fields_except_reserved() {
    let h = DnsHeader {
        id: 0xABCD,
        qr: true,
        opcode: 9,
        aa: true,
        tc: false,
        rd: true,
        ra: false,
        z: 7,
        rcode: 3,
        qdcount: 1,
        ancount: 2,
        nscount: 3,
        arcount: 4,
    };
    let mut buf: Vec<u8> = Vec::new();
    h.write_bytes(&mut buf);
    assert_eq!(buf.len(), 12);
    let d = DnsHeader::from_bytes(&buf).unwrap();
    assert_eq!(d.id, h.id);
    assert_eq!(d.qr, h.qr);
    assert_eq!(d.opcode, h.opcode);
    assert_eq!(d.aa, h.aa);
    assert_eq!(d.tc, h.tc);
    assert_eq!(d.rd, h.rd);
    assert_eq!(d.ra, h.ra);
    assert_eq!(d.z, 0);
    assert_eq!(d.rcode, h.rcode);
    assert_eq!(d.qdcount, h.qdcount);
    assert_eq!(d.ancount, h.ancount);
    assert_eq!(d.nscount, h.nscount);
    assert_eq!(d.arcount, h.arcount);
}

#[test]
fn header_decode_known_bytes() {
    // flags 0x8D05: qr, opcode 1, aa, rd, rcode 5
    let bytes = vec![
        0x12, 0x34, 0x8D, 0x05, 0x00, 0x01, 0x00, 0x02, 0x00, 0x03, 0x00, 0x04,
    ];
    let h = DnsHeader::from_bytes(&bytes).unwrap();
    assert_eq!(h.id, 0x1234);
    assert!(h.qr);
    assert_eq!(h.opcode, 1);
    assert!(h.aa);
    assert!(!h.tc);
    assert!(h.rd);
    assert!(!h.ra);
    assert_eq!(h.z, 0);
    assert_eq!(h.rcode, 5);
    assert_eq!(h.qdcount, 1);
    assert_eq!(h.ancount, 2);
    assert_eq!(h.nscount, 3);
    assert_eq!(h.arcount, 4);
}

#[test]
fn header_too_short_is_rejected() {
    let bytes = vec![0u8; 11];
    assert_eq!(DnsHeader::from_bytes(&bytes), Err(DecodeError::TooShort));
}

#[test]
fn header_reserved_bits_written_as_zero() {
    let mut h = DnsHeader {
        id: 0,
        qr: false,
        opcode: 0,
        aa: false,
        tc: false,
        rd: false,
        ra: false,
        z: 7,
        rcode: 0,
        qdcount: 0,
        ancount: 0,
        nscount: 0,
        arcount: 0,
    };
    h.set_id(0x0102);
    let mut buf: Vec<u8> = Vec::new();
    h.write_bytes(&mut buf);
    assert_eq!(buf, vec![0x01, 0x02, 0, 0, 0, 0, 0, 0, 0, 0, 0, 0]);
}

#[test]
fn header_setters_update_fields() {
    let mut h = DnsHeader::from_bytes(&[0u8; 12]).unwrap();
    h.set_is_resp(true);
    h.set_id(0x4242);
    h.set_num_questions(7);
    h.set_answer_count(9);
    assert!(h.qr);
    assert_eq!(h.id, 0x4242);
    assert_eq!(h.qdcount, 7);
    assert_eq!(h.ancount, 9);
}

#[test]
fn name_roundtrip() {
    let n = name_from(&["codecrafters", "io"]);
    let mut buf: Vec<u8> = Vec::new();
    n.write_bytes(&mut buf).unwrap();
    let mut expected: Vec<u8> = vec![12];
    expected.extend_from_slice(b"codecrafters");
    expected.push(2);
    expected.extend_from_slice(b"io");
    expected.push(0);
    assert_eq!(buf, expected);
    let (decoded, consumed) = DomainName::decode(&buf, 0).unwrap();
    assert_eq!(decoded, n);
    assert_eq!(consumed, buf.len());
}

#[test]
fn name_encode_rejects_long_label() {
    let long = "a".repeat(64);
    let n = name_from(&[&long]);
    let mut buf: Vec<u8> = Vec::new();
    assert_eq!(n.write_bytes(&mut buf), Err(EncodeError::NameTooLong));
    assert!(buf.is_empty());
    assert!(!n.is_well_formed());
}

#[test]
fn name_encode_rejects_empty_label() {
    let n = name_from(&["ok", ""]);
    let mut buf: Vec<u8> = Vec::new();
    assert_eq!(n.write_bytes(&mut buf), Err(EncodeError::NameTooLong));
    assert!(buf.is_empty());
}

#[test]
fn name_encode_rejects_total_length_over_255() {
    // five labels of 63 bytes encode to 5 * 64 + 1 = 321 bytes
    let label = "x".repeat(63);
    let n = name_from(&[&label, &label, &label, &label, &label]);
    let mut buf: Vec<u8> = Vec::new();
    assert_eq!(n.write_bytes(&mut buf), Err(EncodeError::NameTooLong));
    assert!(buf.is_empty());
}

#[test]
fn name_decode_pointer() {
    // "abc.de" written at offset 0, a pointer to it at offset 8
    let mut buf: Vec<u8> = vec![3, b'a', b'b', b'c', 2, b'd', b'e', 0];
    buf.push(0xC0);
    buf.push(0x00);
    let (at_pointer, consumed) = DomainName::decode(&buf, 8).unwrap();
    let (at_name, _) = DomainName::decode(&buf, 0).unwrap();
    assert_eq!(at_pointer, at_name);
    assert_eq!(at_pointer, name_from(&["abc", "de"]));
    assert_eq!(consumed, 2);
}

#[test]
fn name_decode_label_then_pointer() {
    let mut buf: Vec<u8> = vec![3, b'a', b'b', b'c', 2, b'd', b'e', 0];
    buf.push(2);
    buf.push(b'x');
    buf.push(b'y');
    buf.push(0xC0);
    buf.push(0x00);
    let (decoded, consumed) = DomainName::decode(&buf, 8).unwrap();
    assert_eq!(decoded, name_from(&["xy", "abc", "de"]));
    assert_eq!(consumed, 5);
}

#[test]
fn name_decode_pointer_out_of_range() {
    let buf: Vec<u8> = vec![0xC0, 0x50];
    assert_eq!(
        DomainName::decode(&buf, 0),
        Err(DecodeError::MalformedName)
    );
}

#[test]
fn name_decode_self_pointer_exceeds_hop_bound() {
    let buf: Vec<u8> = vec![0xC0, 0x00];
    assert_eq!(
        DomainName::decode(&buf, 0),
        Err(DecodeError::MalformedName)
    );
}

#[test]
fn name_decode_pointer_cycle_exceeds_hop_bound() {
    // two pointers referring to each other
    let buf: Vec<u8> = vec![0xC0, 0x02, 0xC0, 0x00];
    assert_eq!(
        DomainName::decode(&buf, 0),
        Err(DecodeError::MalformedName)
    );
}

#[test]
fn name_decode_label_overruns_buffer() {
    let buf: Vec<u8> = vec![5, b'a', b'b'];
    assert_eq!(
        DomainName::decode(&buf, 0),
        Err(DecodeError::MalformedName)
    );
}

#[test]
fn name_decode_missing_terminator() {
    let buf: Vec<u8> = vec![1, b'a'];
    assert_eq!(
        DomainName::decode(&buf, 0),
        Err(DecodeError::MalformedName)
    );
}

#[test]
fn question_roundtrip() {
    let q = DnsQuestion {
        qname: name_from(&["example", "com"]),
        qtype: 1,
        qclass: 1,
    };
    let mut buf: Vec<u8> = Vec::new();
    q.write_bytes(&mut buf).unwrap();
    let mut offset = 0usize;
    let d = DnsQuestion::from_bytes(&buf, &mut offset).unwrap();
    assert_eq!(d, q);
    assert_eq!(offset, buf.len());
}

#[test]
fn question_too_short_after_name() {
    let n = name_from(&["example"]);
    let mut buf: Vec<u8> = Vec::new();
    n.write_bytes(&mut buf).unwrap();
    buf.push(0);
    buf.push(1);
    // only two of the four type/class bytes are present
    let mut offset = 0usize;
    assert_eq!(
        DnsQuestion::from_bytes(&buf, &mut offset),
        Err(DecodeError::TooShort)
    );
    assert_eq!(offset, 0);
}

#[test]
fn record_roundtrip() {
    let a = DnsAnswer {
        name: name_from(&["example", "com"]),
        qtype: 1,
        qclass: 1,
        ttl: 3600,
        data_len: 4,
        data: vec![1, 2, 3, 4],
    };
    let mut buf: Vec<u8> = Vec::new();
    a.write_bytes(&mut buf).unwrap();
    let mut offset = 0usize;
    let d = DnsAnswer::from_bytes(&buf, &mut offset).unwrap();
    assert_eq!(d, a);
    assert_eq!(offset, buf.len());
}

#[test]
fn record_length_recomputed_from_data() {
    let a = DnsAnswer {
        name: name_from(&["a"]),
        qtype: 1,
        qclass: 1,
        ttl: 0,
        data_len: 99,  // stale; must not be trusted
        data: vec![9, 9],
    };
    let mut buf: Vec<u8> = Vec::new();
    a.write_bytes(&mut buf).unwrap();
    // name "a" takes 3 bytes, then type(2) class(2) ttl(4), then rdlength
    assert_eq!(&buf[11..13], &[0, 2]);
    assert_eq!(&buf[13..], &[9, 9]);
}

#[test]
fn record_too_short_rdata() {
    let a = DnsAnswer {
        name: name_from(&["a"]),
        qtype: 1,
        qclass: 1,
        ttl: 0,
        data_len: 4,
        data: vec![1, 2, 3, 4],
    };
    let mut buf: Vec<u8> = Vec::new();
    a.write_bytes(&mut buf).unwrap();
    buf.truncate(buf.len() - 1);
    let mut offset = 0usize;
    assert_eq!(
        DnsAnswer::from_bytes(&buf, &mut offset),
        Err(DecodeError::TooShort)
    );
    assert_eq!(offset, 0);
}

#[test]
fn answer_new_is_empty() {
    let a = DnsAnswer::new();
    assert!(a.name.labels.is_empty());
    assert_eq!(a.qtype, 0);
    assert_eq!(a.qclass, 0);
    assert_eq!(a.ttl, 0);
    assert_eq!(a.data_len, 0);
    assert!(a.data.is_empty());
}

#[test]
fn answer_set_ip_addr_stores_octets() {
    let mut a = DnsAnswer::new();
    a.set_ip_addr(&[192, 0, 2, 1]);
    assert_eq!(a.data, vec![192, 0, 2, 1]);
    assert_eq!(a.data_len, 4);
    a.set_ip_addr(&[0x20, 0x01, 0x0d, 0xb8, 0, 0, 0, 0, 0, 0, 0, 0, 0, 0, 0, 1]);
    assert_eq!(a.data_len, 16);
}

#[test]
fn oversized_label_decodes_but_is_not_reencodable() {
    // a length byte of 100 is below the pointer range and is accepted by
    // the decoder, but the resulting name violates the 63-byte label
    // invariant and cannot be encoded again
    let mut buf: Vec<u8> = vec![100];
    buf.extend_from_slice(&[b'z'; 100]);
    buf.push(0);
    let (name, consumed) = DomainName::decode(&buf, 0).unwrap();
    assert_eq!(consumed, 102);
    assert_eq!(name.labels.len(), 1);
    assert_eq!(name.labels[0].len(), 100);
    assert!(!name.is_well_formed());
    let mut out: Vec<u8> = Vec::new();
    assert_eq!(name.write_bytes(&mut out), Err(EncodeError::NameTooLong));
    assert!(out.is_empty());
}

#[test]
fn name_decode_at_nonzero_cursor() {
    let mut buf: Vec<u8> = vec![0xFF, 0xFF, 0xFF];
    buf.push(3);
    buf.extend_from_slice(b"www");
    buf.push(0);
    let (name, consumed) = DomainName::decode(&buf, 3).unwrap();
    assert_eq!(name, name_from(&["www"]));
    assert_eq!(consumed, 5);
}
