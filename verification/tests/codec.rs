use dns_dropper::dns::{
    DnsHeader, DnsPacket, DnsQuestion, DnsRecord, RecordType, ResultCode,
};
use dns_dropper::packet::BytePacketBuffer;

fn sample_header() -> DnsHeader {
    let mut h = DnsHeader::new();
    h.id = 0xbeef;
    h.recursion_desired = true;
    h.truncated_message = false;
    h.authoritative_answer = true;
    h.opcode = 2;
    h.response = true;
    h.result_code = ResultCode::REFUSED;
    h.checking_disabled = true;
    h.authed_data = false;
    h.z = true;
    h.recursion_available = true;
    h
}

#[test]
fn result_code_normalises_unknown_values() {
    assert_eq!(ResultCode::from_num(0), ResultCode::NOERROR);
    assert_eq!(ResultCode::from_num(1), ResultCode::FORMERR);
    assert_eq!(ResultCode::from_num(2), ResultCode::SERVFAIL);
    assert_eq!(ResultCode::from_num(3), ResultCode::NXDOMAIN);
    assert_eq!(ResultCode::from_num(4), ResultCode::NOTIMP);
    assert_eq!(ResultCode::from_num(5), ResultCode::REFUSED);
    assert_eq!(ResultCode::from_num(6), ResultCode::NOERROR);
    assert_eq!(ResultCode::from_num(255), ResultCode::NOERROR);
}

#[test]
fn record_type_numbers_match_the_wire_registry() {
    assert_eq!(RecordType::A.to_num(), 1);
    assert_eq!(RecordType::NS.to_num(), 2);
    assert_eq!(RecordType::CNAME.to_num(), 5);
    assert_eq!(RecordType::MX.to_num(), 15);
    assert_eq!(RecordType::AAAA.to_num(), 28);
    assert_eq!(RecordType::HTTPS.to_num(), 65);
    assert_eq!(RecordType::UNKNOWN(999).to_num(), 999);
    assert_eq!(RecordType::from_num(1), RecordType::A);
    assert_eq!(RecordType::from_num(65), RecordType::HTTPS);
    assert_eq!(RecordType::from_num(999), RecordType::UNKNOWN(999));
}

#[test]
fn header_round_trips_through_its_wire_form() {
    let h = sample_header();
    let mut buf = BytePacketBuffer::new();
    h.write(&mut buf).unwrap();
    assert_eq!(buf.pos(), 12);
    buf.seek(0).unwrap();
    let mut back = DnsHeader::new();
    back.read(&mut buf).unwrap();
    assert_eq!(back, h);
}

#[test]
fn header_flag_bytes_are_rfc_bit_compatible() {
    let mut h = DnsHeader::new();
    h.id = 0x1234;
    h.recursion_desired = true;
    h.response = true;
    h.result_code = ResultCode::NXDOMAIN;
    h.recursion_available = true;
    h.questions = 1;
    let mut buf = BytePacketBuffer::new();
    h.write(&mut buf).unwrap();
    assert_eq!(
        &buf.buf[0..12],
        &[0x12, 0x34, 0x81, 0x83, 0, 1, 0, 0, 0, 0, 0, 0]
    );
}

#[test]
fn question_round_trips_and_writes_class_one() {
    let q = DnsQuestion::new(b"example.com".to_vec(), RecordType::MX);
    let mut buf = BytePacketBuffer::new();
    q.write(&mut buf).unwrap();
    // name(13) + type(2) + class(2)
    assert_eq!(buf.pos(), 17);
    assert_eq!(&buf.buf[13..17], &[0, 15, 0, 1]);
    buf.seek(0).unwrap();
    let mut back = DnsQuestion::new(Vec::new(), RecordType::UNKNOWN(0));
    back.read(&mut buf).unwrap();
    assert_eq!(back, q);
}

fn round_trip_record(rec: DnsRecord) {
    let mut buf = BytePacketBuffer::new();
    let written = rec.write(&mut buf).unwrap();
    assert_eq!(written, buf.pos());
    buf.seek(0).unwrap();
    let back = DnsRecord::read(&mut buf).unwrap();
    assert_eq!(back, rec);
}

#[test]
fn a_record_round_trips() {
    round_trip_record(DnsRecord::A {
        domain: b"example.com".to_vec(),
        addr: vec![93, 184, 216, 34],
        ttl: 3600,
    });
}

#[test]
fn aaaa_record_round_trips() {
    round_trip_record(DnsRecord::AAAA {
        domain: b"example.com".to_vec(),
        addr: vec![0x2606, 0x2800, 0x220, 0x1, 0x248, 0x1893, 0x25c8, 0x1946],
        ttl: 120,
    });
}

#[test]
fn ns_record_round_trips_with_backpatched_rdlen() {
    let rec = DnsRecord::NS {
        domain: b"example.com".to_vec(),
        host: b"ns1.example.com".to_vec(),
        ttl: 86400,
    };
    let mut buf = BytePacketBuffer::new();
    rec.write(&mut buf).unwrap();
    // rdlen stands after name(13) + type(2) + class(2) + ttl(4)
    assert_eq!(&buf.buf[21..23], &[0, 17]);
    buf.seek(0).unwrap();
    assert_eq!(DnsRecord::read(&mut buf).unwrap(), rec);
}

#[test]
fn cname_record_round_trips() {
    round_trip_record(DnsRecord::CNAME {
        domain: b"www.example.com".to_vec(),
        host: b"example.com".to_vec(),
        ttl: 60,
    });
}

#[test]
fn mx_record_round_trips_with_priority() {
    round_trip_record(DnsRecord::MX {
        domain: b"example.com".to_vec(),
        priority: 10,
        host: b"mail.example.com".to_vec(),
        ttl: 300,
    });
}

#[test]
fn unknown_record_writes_nothing() {
    let rec = DnsRecord::UNKNOWN {
        domain: b"example.com".to_vec(),
        record_type: 99,
        data_len: 4,
        ttl: 60,
    };
    let mut buf = BytePacketBuffer::new();
    assert_eq!(rec.write(&mut buf).unwrap(), 0);
    assert_eq!(buf.pos(), 0);
}

#[test]
fn unknown_record_rdata_is_skipped_on_read() {
    let mut buf = BytePacketBuffer::new();
    buf.write_qname(&b"example.com".to_vec()).unwrap();
    buf.write_u16(99).unwrap(); // type
    buf.write_u16(1).unwrap(); // class
    buf.write_u32(60).unwrap(); // ttl
    buf.write_u16(4).unwrap(); // rdlen
    buf.write_u32(0xaabbccdd).unwrap(); // opaque rdata
    let end = buf.pos();
    buf.seek(0).unwrap();
    let rec = DnsRecord::read(&mut buf).unwrap();
    assert_eq!(
        rec,
        DnsRecord::UNKNOWN {
            domain: b"example.com".to_vec(),
            record_type: 99,
            data_len: 4,
            ttl: 60,
        }
    );
    assert_eq!(buf.pos(), end);
}

#[test]
fn packet_round_trips_and_counts_are_reconciled() {
    let mut p = DnsPacket::new();
    p.header.id = 0x4242;
    p.header.recursion_desired = true;
    // stale counts: write must reconcile them to the section lengths
    p.header.questions = 77;
    p.questions
        .push(DnsQuestion::new(b"example.com".to_vec(), RecordType::A));
    p.answers.push(DnsRecord::A {
        domain: b"example.com".to_vec(),
        addr: vec![93, 184, 216, 34],
        ttl: 3600,
    });
    p.authorities.push(DnsRecord::NS {
        domain: b"example.com".to_vec(),
        host: b"ns1.example.com".to_vec(),
        ttl: 86400,
    });
    p.resources.push(DnsRecord::MX {
        domain: b"example.com".to_vec(),
        priority: 5,
        host: b"mail.example.com".to_vec(),
        ttl: 300,
    });

    let mut buf = BytePacketBuffer::new();
    p.write(&mut buf).unwrap();
    assert_eq!(p.header.questions, 1);
    assert_eq!(p.header.answers, 1);
    assert_eq!(p.header.authoritative_entries, 1);
    assert_eq!(p.header.resource_entries, 1);

    buf.seek(0).unwrap();
    let back = DnsPacket::from_buffer(&mut buf).unwrap();
    assert_eq!(back, p);
}

#[test]
fn reencoding_a_decoded_packet_gives_the_same_packet() {
    // a compressed query-style datagram: name, then records pointing at it
    let mut buf = BytePacketBuffer::new();
    let mut h = DnsHeader::new();
    h.id = 7;
    h.questions = 1;
    h.answers = 1;
    h.write(&mut buf).unwrap();
    buf.write_qname(&b"example.com".to_vec()).unwrap();
    buf.write_u16(1).unwrap();
    buf.write_u16(1).unwrap();
    // the answer's name is a pointer to offset 12
    buf.write(0xc0).unwrap();
    buf.write(12).unwrap();
    buf.write_u16(1).unwrap(); // type A
    buf.write_u16(1).unwrap(); // class
    buf.write_u32(3600).unwrap(); // ttl
    buf.write_u16(4).unwrap(); // rdlen
    buf.write_u32(0x5db8d822).unwrap(); // 93.184.216.34

    buf.seek(0).unwrap();
    let first = DnsPacket::from_buffer(&mut buf).unwrap();

    let mut again = first.clone();
    let mut out = BytePacketBuffer::new();
    again.write(&mut out).unwrap();
    out.seek(0).unwrap();
    let second = DnsPacket::from_buffer(&mut out).unwrap();
    assert_eq!(second, first);
}

#[test]
fn truncated_header_fails_the_packet() {
    let mut buf = BytePacketBuffer::new();
    buf.seek(4090).unwrap();
    assert!(DnsPacket::from_buffer(&mut buf).is_err());
}
