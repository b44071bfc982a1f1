use dns_dropper::dns::{DnsPacket, DnsQuestion, RecordType, ResultCode};
use dns_dropper::exchange::{chain_continues, Exchange, ExchangeState};
use dns_dropper::filter::Filter;
use dns_dropper::packet::BytePacketBuffer;
use dns_dropper::proxy::{DnsProxy, ProxyHandler, QueryAction};

fn proxy_with(entries: Vec<(&[u8], &[u8])>) -> DnsProxy {
    DnsProxy {
        complete_block_list: entries
            .into_iter()
            .map(|(a, d)| Filter {
                address: a.to_vec(),
                domain: d.to_vec(),
            })
            .collect(),
    }
}

fn query(id: u16, name: &[u8]) -> BytePacketBuffer {
    let mut p = DnsPacket::new();
    p.header.id = id;
    p.header.recursion_desired = true;
    p.questions
        .push(DnsQuestion::new(name.to_vec(), RecordType::A));
    let mut buf = BytePacketBuffer::new();
    p.write(&mut buf).unwrap();
    buf.seek(0).unwrap();
    buf
}

#[test]
fn blocked_name_gets_the_literal_nxdomain_reply() {
    let proxy = proxy_with(vec![(b"0.0.0.0", b"ads.example")]);
    let mut req = query(0x1234, b"ads.example");
    match proxy.handle(&mut req) {
        QueryAction::Reply(data) => {
            let expected: Vec<u8> = vec![
                0x12, 0x34, // the request id, echoed
                0x81, 0x83, // QR=1 RD=1; RA=1 rcode=3 (NXDOMAIN)
                0, 1, 0, 0, 0, 0, 0, 0, // one question, no records
                3, b'a', b'd', b's', 7, b'e', b'x', b'a', b'm', b'p', b'l', b'e',
                0, // the original question name
                0, 1, 0, 1, // type A, class IN
            ];
            assert_eq!(data, expected);
        },
        other => panic!("expected a reply, got {:?}", other),
    }
}

#[test]
fn blocked_reply_parses_back_with_the_question_echoed() {
    let proxy = proxy_with(vec![(b"0.0.0.0", b"ads.example")]);
    let mut req = query(0xaaaa, b"ads.example");
    let data = match proxy.handle(&mut req) {
        QueryAction::Reply(data) => data,
        other => panic!("expected a reply, got {:?}", other),
    };
    let mut buf = BytePacketBuffer::new();
    for (k, b) in data.iter().enumerate() {
        buf.set(k, *b).unwrap();
    }
    let reply = DnsPacket::from_buffer(&mut buf).unwrap();
    assert_eq!(reply.header.id, 0xaaaa);
    assert_eq!(reply.header.result_code, ResultCode::NXDOMAIN);
    assert!(reply.header.response);
    assert_eq!(
        reply.questions,
        vec![DnsQuestion::new(b"ads.example".to_vec(), RecordType::A)]
    );
    assert!(reply.answers.is_empty());
    assert!(reply.authorities.is_empty());
    assert!(reply.resources.is_empty());
}

#[test]
fn unblocked_name_is_forwarded() {
    let proxy = proxy_with(vec![]);
    let mut req = query(0x1111, b"example.com");
    assert_eq!(proxy.handle(&mut req), QueryAction::Forward);
}

#[test]
fn upper_case_query_is_folded_and_blocked() {
    // the wire name is upper-case; the decoder folds it, so the
    // lower-case denylist entry matches
    let proxy = proxy_with(vec![(b"0.0.0.0", b"ads.example")]);
    let mut req = query(0x1234, b"ADS.Example");
    match proxy.handle(&mut req) {
        QueryAction::Reply(data) => {
            assert_eq!(data[0], 0x12);
            assert_eq!(data[1], 0x34);
            assert_eq!(data[3] & 0x0f, 3); // NXDOMAIN
        },
        other => panic!("expected a reply, got {:?}", other),
    }
}

#[test]
fn malformed_datagram_is_dropped_silently() {
    // four stray bytes: a truncated header
    let proxy = proxy_with(vec![(b"0.0.0.0", b"ads.example")]);
    let mut req = BytePacketBuffer::new();
    req.write_u32(0xdeadbeef).unwrap();
    // a packet read starts wherever the cursor is; past the capacity
    // every read fails, as for a short datagram's missing bytes
    req.seek(4093).unwrap();
    assert_eq!(proxy.handle(&mut req), QueryAction::Drop);
}

#[test]
fn block_reply_filling_the_buffer_exactly_is_still_returned() {
    // a name whose block reply is exactly the buffer capacity:
    // 63 labels of 63 bytes and one of 46 make a 4080-byte name wire,
    // so header (12) + question (4080 + 4) is 4096 on the nose
    let mut name: Vec<u8> = Vec::new();
    for i in 0..63 {
        if i > 0 {
            name.push(b'.');
        }
        name.extend_from_slice(&[b'a'; 63]);
    }
    name.push(b'.');
    name.extend_from_slice(&[b'b'; 46]);
    let proxy = proxy_with(vec![(b"0.0.0.0", name.as_slice())]);
    let mut req = query(9, &name);
    match proxy.handle(&mut req) {
        QueryAction::Reply(data) => assert_eq!(data.len(), 4096),
        other => panic!("expected a full-size reply, got {:?}", other),
    }
}

#[test]
fn four_byte_datagram_produces_no_reply() {
    // a truncated header: whatever the codec makes of it, the
    // pipeline neither replies nor forwards it
    let proxy = proxy_with(vec![(b"0.0.0.0", b"ads.example")]);
    let mut req = BytePacketBuffer::new();
    req.write_u32(0x12340100).unwrap();
    req.seek(0).unwrap();
    assert_eq!(proxy.handle(&mut req), QueryAction::Drop);
}

#[test]
fn packet_without_questions_is_dropped() {
    let proxy = proxy_with(vec![]);
    let mut p = DnsPacket::new();
    p.header.id = 5;
    let mut req = BytePacketBuffer::new();
    p.write(&mut req).unwrap();
    req.seek(0).unwrap();
    assert_eq!(proxy.handle(&mut req), QueryAction::Drop);
}

#[test]
fn should_filter_consults_the_shared_list() {
    let proxy = proxy_with(vec![(b"0.0.0.0", b"ads.example")]);
    assert!(proxy.should_filter(&b"ads.example".to_vec()));
    assert!(!proxy.should_filter(&b"example.com".to_vec()));
}

#[test]
fn chain_stops_exactly_on_terminal_states() {
    assert!(chain_continues(&ExchangeState::INITIAL));
    assert!(chain_continues(&ExchangeState::OK));
    assert!(!chain_continues(&ExchangeState::COMPLETE));
    assert!(!chain_continues(&ExchangeState::FAILED));
    assert!(!chain_continues(&ExchangeState::INVALID));
}

#[test]
fn exchange_starts_initial() {
    let buf = BytePacketBuffer::new();
    let ex = Exchange::new(buf, 17);
    assert_eq!(ex.len, 17);
    assert_eq!(*ex.get_state(), ExchangeState::INITIAL);
}

#[test]
fn upstreams_are_tried_in_order_until_one_answers() {
    // three upstreams; the first times out, the second answers:
    // the third is never contacted
    let upstreams = 3;
    let mut failed = 0;
    let mut contacted: Vec<usize> = Vec::new();
    let mut outcome = None;
    while let Some(idx) = ProxyHandler::next_upstream(upstreams, failed) {
        contacted.push(idx);
        let answers = idx == 1;
        if answers {
            outcome = Some(ProxyHandler::exec_outcome(true, true));
            break;
        }
        failed += 1;
    }
    assert_eq!(contacted, vec![0, 1]);
    assert_eq!(outcome, Some(ExchangeState::OK));
}

#[test]
fn all_upstreams_failing_ends_invalid() {
    // both upstreams silent: no reply is owed and the state says so
    let upstreams = 2;
    let mut failed = 0;
    let mut contacted: Vec<usize> = Vec::new();
    while let Some(idx) = ProxyHandler::next_upstream(upstreams, failed) {
        contacted.push(idx);
        failed += 1;
    }
    assert_eq!(contacted, vec![0, 1]);
    assert_eq!(
        ProxyHandler::exec_outcome(false, false),
        ExchangeState::INVALID
    );
}

#[test]
fn client_send_failure_is_failed_not_invalid() {
    assert_eq!(
        ProxyHandler::exec_outcome(true, false),
        ExchangeState::FAILED
    );
}
