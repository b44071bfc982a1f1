use dns_dropper::packet::{BytePacketBuffer, DnsError, PACKET_SIZE};

#[test]
fn fresh_buffer_is_zeroed_at_start() {
    let buf = BytePacketBuffer::new();
    assert_eq!(buf.pos(), 0);
    assert_eq!(buf.buf.len(), PACKET_SIZE);
    assert!(buf.buf.iter().all(|&b| b == 0));
}

#[test]
fn read_and_write_advance_the_cursor() {
    let mut buf = BytePacketBuffer::new();
    buf.write(0xab).unwrap();
    buf.write(0xcd).unwrap();
    assert_eq!(buf.pos(), 2);
    buf.seek(0).unwrap();
    assert_eq!(buf.read().unwrap(), 0xab);
    assert_eq!(buf.read().unwrap(), 0xcd);
    assert_eq!(buf.pos(), 2);
}

#[test]
fn multi_byte_values_are_big_endian() {
    let mut buf = BytePacketBuffer::new();
    buf.write_u16(0x1234).unwrap();
    buf.write_u32(0xdeadbeef).unwrap();
    assert_eq!(&buf.buf[0..6], &[0x12, 0x34, 0xde, 0xad, 0xbe, 0xef]);
    buf.seek(0).unwrap();
    assert_eq!(buf.read_u16().unwrap(), 0x1234);
    assert_eq!(buf.read_u32().unwrap(), 0xdeadbeef);
}

#[test]
fn absolute_get_and_set_leave_the_cursor_alone() {
    let mut buf = BytePacketBuffer::new();
    buf.write_u16(0).unwrap();
    buf.set_u16(0, 0x0102).unwrap();
    assert_eq!(buf.pos(), 2);
    assert_eq!(buf.get(0).unwrap(), 0x01);
    assert_eq!(buf.get(1).unwrap(), 0x02);
    assert_eq!(buf.pos(), 2);
}

#[test]
fn reads_past_capacity_fail() {
    let mut buf = BytePacketBuffer::new();
    buf.seek(PACKET_SIZE).unwrap();
    assert_eq!(buf.read(), Err(DnsError::InvalidInput));
    assert_eq!(buf.get(PACKET_SIZE), Err(DnsError::InvalidInput));
}

#[test]
fn writes_at_capacity_fail() {
    let mut buf = BytePacketBuffer::new();
    buf.seek(PACKET_SIZE - 1).unwrap();
    buf.write(1).unwrap();
    assert_eq!(buf.write(2), Err(DnsError::InvalidInput));
    assert_eq!(buf.write_u16(0x0102), Err(DnsError::InvalidInput));
}

#[test]
fn get_range_copies_up_to_the_capacity_and_no_further() {
    let mut buf = BytePacketBuffer::new();
    buf.write(9).unwrap();
    buf.write(8).unwrap();
    buf.write(7).unwrap();
    assert_eq!(buf.get_range(0, 3).unwrap(), vec![9, 8, 7]);
    assert_eq!(buf.get_range(1, 2).unwrap(), vec![8, 7]);
    // a range ending exactly at the capacity is still in bounds
    assert_eq!(buf.get_range(PACKET_SIZE - 1, 1).unwrap(), vec![0]);
    assert_eq!(buf.get_range(0, PACKET_SIZE).unwrap().len(), PACKET_SIZE);
    // one byte further is not
    assert_eq!(
        buf.get_range(PACKET_SIZE - 1, 2),
        Err(DnsError::InvalidInput)
    );
    assert_eq!(buf.get_range(PACKET_SIZE, 1), Err(DnsError::InvalidInput));
}
