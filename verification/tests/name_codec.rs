use dns_dropper::packet::{BytePacketBuffer, DnsError};

#[test]
fn write_qname_emits_length_prefixed_labels() {
    let mut buf = BytePacketBuffer::new();
    buf.write_qname(&b"ads.example".to_vec()).unwrap();
    let expected: Vec<u8> = vec![
        3, b'a', b'd', b's', 7, b'e', b'x', b'a', b'm', b'p', b'l', b'e', 0,
    ];
    assert_eq!(&buf.buf[0..13], &expected[..]);
    assert_eq!(buf.pos(), 13);
}

#[test]
fn read_qname_round_trips_a_written_name() {
    let mut buf = BytePacketBuffer::new();
    buf.write_qname(&b"www.example.com".to_vec()).unwrap();
    buf.seek(0).unwrap();
    let mut out: Vec<u8> = Vec::new();
    buf.read_qname(&mut out).unwrap();
    assert_eq!(out, b"www.example.com".to_vec());
    assert_eq!(buf.pos(), 17);
}

#[test]
fn read_qname_lower_cases_ascii_letters() {
    let mut buf = BytePacketBuffer::new();
    buf.write_qname(&b"ADS.Example".to_vec()).unwrap();
    buf.seek(0).unwrap();
    let mut out: Vec<u8> = Vec::new();
    buf.read_qname(&mut out).unwrap();
    assert_eq!(out, b"ads.example".to_vec());
}

#[test]
fn sixty_three_byte_labels_encode_and_sixty_four_fail() {
    let label63: Vec<u8> = vec![b'a'; 63];
    let mut buf = BytePacketBuffer::new();
    assert!(buf.write_qname(&label63).is_ok());
    assert_eq!(buf.pos(), 65);

    let label64: Vec<u8> = vec![b'a'; 64];
    let mut buf = BytePacketBuffer::new();
    assert_eq!(buf.write_qname(&label64), Err(DnsError::InvalidInput));
}

#[test]
fn compression_pointer_is_followed_and_cursor_skips_it() {
    let mut buf = BytePacketBuffer::new();
    // a name at offset 0, then a pointer to it at offset 20
    buf.write_qname(&b"example.com".to_vec()).unwrap();
    buf.set(20, 0xc0).unwrap();
    buf.set(21, 0x00).unwrap();
    buf.seek(20).unwrap();
    let mut out: Vec<u8> = Vec::new();
    buf.read_qname(&mut out).unwrap();
    assert_eq!(out, b"example.com".to_vec());
    // only the two pointer bytes are consumed
    assert_eq!(buf.pos(), 22);
}

#[test]
fn partial_name_then_pointer_keeps_the_remembered_cursor() {
    let mut buf = BytePacketBuffer::new();
    buf.write_qname(&b"example.com".to_vec()).unwrap();
    // "www." then a pointer back to offset 0
    buf.seek(30).unwrap();
    buf.write(3).unwrap();
    buf.write(b'w').unwrap();
    buf.write(b'w').unwrap();
    buf.write(b'w').unwrap();
    buf.write(0xc0).unwrap();
    buf.write(0x00).unwrap();
    buf.seek(30).unwrap();
    let mut out: Vec<u8> = Vec::new();
    buf.read_qname(&mut out).unwrap();
    assert_eq!(out, b"www.example.com".to_vec());
    assert_eq!(buf.pos(), 36);
}

#[test]
fn pointer_cycle_fails_instead_of_looping() {
    let mut buf = BytePacketBuffer::new();
    // offset 10 holds a pointer to offset 10 itself
    buf.set(10, 0xc0).unwrap();
    buf.set(11, 10).unwrap();
    buf.seek(10).unwrap();
    let mut out: Vec<u8> = Vec::new();
    assert_eq!(buf.read_qname(&mut out), Err(DnsError::InvalidInput));
}

#[test]
fn two_pointer_cycle_fails_as_well() {
    let mut buf = BytePacketBuffer::new();
    buf.set(10, 0xc0).unwrap();
    buf.set(11, 20).unwrap();
    buf.set(20, 0xc0).unwrap();
    buf.set(21, 10).unwrap();
    buf.seek(10).unwrap();
    let mut out: Vec<u8> = Vec::new();
    assert_eq!(buf.read_qname(&mut out), Err(DnsError::InvalidInput));
}

#[test]
fn truncated_name_fails() {
    let mut buf = BytePacketBuffer::new();
    // a label length that runs past the end of the buffer
    buf.seek(4090).unwrap();
    buf.write(30).unwrap();
    buf.seek(4090).unwrap();
    let mut out: Vec<u8> = Vec::new();
    assert_eq!(buf.read_qname(&mut out), Err(DnsError::InvalidInput));
}
