use ppgw::connection::{Connection, TrySendResult};
use ppgw::packet::{decode_ack, decode_data_header, encode_ack, DATA, DATAEOF, DATA_HEADER_LEN};

fn sorted_by_offset(mut packets: Vec<Vec<u8>>) -> Vec<Vec<u8>> {
    packets.sort_by_key(|p| decode_data_header(p).offset);
    packets
}

#[test]
fn message_is_cut_into_fragments_of_eight() {
    let mut a = Connection::new();
    let mut counter = 0u32;
    let data: Vec<u8> = (0..20).collect();
    let packets = sorted_by_offset(a.send_message(data.clone(), &mut counter));
    assert_eq!(counter, 1);
    assert_eq!(packets.len(), 3);
    let offsets: Vec<u32> = packets.iter().map(|p| decode_data_header(p).offset).collect();
    assert_eq!(offsets, vec![0, 8, 16]);
    let flags: Vec<u16> = packets.iter().map(|p| decode_data_header(p).flag).collect();
    assert_eq!(flags, vec![DATA, DATA, DATAEOF]);
    assert_eq!(&packets[2][DATA_HEADER_LEN..], &data[16..20]);
    assert!(packets.iter().all(|p| decode_data_header(p).msgno == 1));
    assert_eq!(a.send_cache.eof, 20);
    assert!(!a.send_cache.complete);
    assert_eq!(a.stats.get_send_count(), 1);
}

#[test]
fn empty_message_is_one_last_fragment() {
    let mut a = Connection::new();
    let mut counter = 0u32;
    let packets = a.send_message(Vec::new(), &mut counter);
    assert_eq!(packets.len(), 1);
    let h = decode_data_header(&packets[0]);
    assert_eq!(h.flag, DATAEOF);
    assert_eq!(h.len, 0);
    assert_eq!(h.offset, 0);
}

#[test]
fn transfer_in_any_order_delivers_the_message() {
    let mut a = Connection::new();
    let mut b = Connection::new();
    let mut counter = 0u32;
    let data: Vec<u8> = (100..130).collect();
    let mut packets = sorted_by_offset(a.send_message(data.clone(), &mut counter));
    packets.reverse();
    let n = packets.len();
    for (i, p) in packets.iter().enumerate() {
        assert!(b.can_receive(p));
        let out = b.on_receive(p);
        if i + 1 < n {
            assert!(out.delivered.is_none());
            assert!(out.resp.is_none());
        } else {
            assert_eq!(out.delivered, Some(data.clone()));
            let resp = out.resp.unwrap();
            let ack = decode_ack(&resp);
            assert_eq!(ack.state, 0);
            assert_eq!(ack.msgno, 1);
            assert!(a.can_receive(&resp));
            a.on_receive(&resp);
        }
    }
    assert_eq!(b.stats.get_receive_count(), 1);
    assert!(a.send_cache.complete);
    assert!(a.send_cache.get_offsets().is_empty());
}

#[test]
fn partial_ack_prunes_what_arrived() {
    let mut a = Connection::new();
    let mut b = Connection::new();
    let mut counter = 0u32;
    let data: Vec<u8> = (0..24).collect();
    let packets = sorted_by_offset(a.send_message(data, &mut counter));
    b.on_receive(&packets[0]);
    b.on_receive(&packets[2]);
    let resp = b.send_resp();
    let ack = decode_ack(&resp);
    assert_eq!(ack.state, 1);
    let mut listed = ack.offsets.clone();
    listed.sort();
    assert_eq!(listed, vec![0, 16]);
    a.on_receive(&resp);
    let again = a.send_active();
    assert_eq!(again.len(), 1);
    assert_eq!(decode_data_header(&again[0]).offset, 8);
    let out = b.on_receive(&again[0]);
    assert!(out.delivered.is_some());
}

#[test]
fn send_waits_for_the_acknowledgement() {
    let mut a = Connection::new();
    let mut counter = 0u32;
    let (r, p) = a.send(&mut counter);
    assert!(matches!(r, TrySendResult::Empty));
    assert!(p.is_empty());
    a.push_message(vec![1, 2, 3]);
    a.push_message(vec![4, 5]);
    let (r, p) = a.send(&mut counter);
    assert!(matches!(r, TrySendResult::Active));
    assert_eq!(p.len(), 1);
    assert_eq!(&p[0][DATA_HEADER_LEN..], &[1, 2, 3]);
    let (r, p) = a.send(&mut counter);
    assert!(matches!(r, TrySendResult::Active));
    assert!(p.is_empty());
    assert_eq!(a.buffer.len(), 1);
    a.on_receive(&encode_ack(1, true, &vec![]));
    let (r, p) = a.send(&mut counter);
    assert!(matches!(r, TrySendResult::Active));
    assert_eq!(&p[0][DATA_HEADER_LEN..], &[4, 5]);
    assert_eq!(decode_data_header(&p[0]).msgno, 2);
}

#[test]
fn check_resends_and_reports_on_time() {
    let mut a = Connection::new();
    let mut counter = 0u32;
    a.send_message(vec![9; 10], &mut counter);
    let start = a.send_cache.start;
    let out = a.check_at(start + 1_000_000_000);
    assert!(out.resend.is_empty());
    let out = a.check_at(start + 2_000_000_001);
    assert_eq!(out.resend.len(), 2);
    assert_eq!(a.send_cache.start, start + 2_000_000_001);
    let report_at = a.stats.start + 5_000_000_001;
    let out = a.check_at(report_at);
    assert_eq!(out.rates, Some((0, 0)));
    assert_eq!(a.stats.send_count_for_rate, 0);
    assert_eq!(a.stats.get_send_count(), 1);
    assert_eq!(a.stats.start, report_at);
}

#[test]
fn check_acknowledges_a_stalled_incoming_message() {
    let mut a = Connection::new();
    let mut b = Connection::new();
    let mut counter = 0u32;
    let packets = sorted_by_offset(a.send_message(vec![1; 12], &mut counter));
    b.on_receive(&packets[0]);
    let start = b.recv_cache.start;
    let out = b.check_at(start + 1_000_000_001);
    let ack = decode_ack(&out.resp.unwrap());
    assert_eq!(ack.state, 1);
    assert_eq!(ack.offsets, vec![0]);
    assert_eq!(b.recv_cache.start, start + 1_000_000_001);
}

#[test]
fn unreadable_packets_are_refused() {
    let c = Connection::new();
    assert!(!c.can_receive(&[0x00]));
    assert!(!c.can_receive(&[0x00, 0x00, 0x00]));
    assert!(!c.can_receive(&[0x80, 0x01, 0, 0, 0]));
    assert!(c.can_receive(&[0x80, 0x02]));
    let mut far = vec![0u8; 16];
    far[8] = 0x00;
    far[9] = 0x02;
    assert!(!c.can_receive(&far));
}

#[test]
fn other_control_packets_are_dropped() {
    let mut c = Connection::new();
    let out = c.on_receive(&[0x80, 0x02, 1, 2, 3]);
    assert!(out.delivered.is_none());
    assert!(c.send_cache.complete);
}

#[test]
fn ten_thousand_messages_arrive_in_memory() {
    let text: Vec<u8> = b"102321312321321321434325098dsfljfldsjflk34jridsfjdlsjfldsfj034234980-32423jldsjflsdjfldsjfldsjfldsjfldsjfldsjfldjfdlfjdlkfjdlfjdlskfjdlfjdlsfjdlfjdsfjdsfjdlfjdlfjdlfjdljfdlkfjlkdjfkldjflkdjfkdjfdsjf".to_vec();
    let mut loc = Connection::new();
    let mut peer = Connection::new();
    let mut counter = 0u32;
    for _ in 0..10240 {
        loc.push_message(text.clone());
    }
    let mut delivered = 0usize;
    loop {
        let (r, packets) = loc.send(&mut counter);
        if let TrySendResult::Empty = r {
            break;
        }
        for p in packets.iter() {
            let out = peer.on_receive(p);
            if let Some(m) = out.delivered {
                assert_eq!(m, text);
                delivered += 1;
                loc.on_receive(&out.resp.unwrap());
            }
        }
    }
    assert_eq!(delivered, 10240);
    assert_eq!(peer.stats.get_receive_count(), 10240);
    assert_eq!(loc.stats.get_send_count(), 10240);
}
