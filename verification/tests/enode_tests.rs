use ppgw::enode::{
    can_accept, handle_data_ack, handle_data_packet, send_active, send_message, send_resp,
    recheck_due, ENODE_PACKETLEN, RECHECK_SECS, SEND_CACHE_MSGNO,
};

fn bytes(n: usize) -> Vec<u8> {
    (0..n).map(|i| (i % 251) as u8).collect()
}

/// The bincode encoding of a message of type 12 carrying `len` zero bytes.
fn encoded_message(len: usize) -> Vec<u8> {
    let fields: (u16, u16, u16, u16, u16, u16, Vec<u8>) = (0, 0, 0, 12, 0, len as u16, vec![0u8; len]);
    bincode::serialize(&fields).unwrap()
}

#[test]
fn test_send_one_packet_message() {
    let data = encoded_message(256);
    assert_eq!(data.len(), 276);
    let (cache, packets) = send_message(None, &data);
    assert_eq!(packets.len(), 1);
    let h = decode_data_header(&packets[0]);
    assert_eq!((h.flag, h.offset), (DATAEOF, 0));
    assert_eq!(&packets[0][DATA_HEADER_LEN..], &data[..]);
    let offsets: Vec<usize> = cache.get_offsets().iter().copied().collect();
    assert_eq!(offsets, vec![0]);
    assert_eq!(cache.eof, data.len());
}

#[test]
fn test_send_two_packet_message() {
    let data = encoded_message(2560);
    assert_eq!(data.len(), 2580);
    let (cache, packets) = send_message(None, &data);
    assert_eq!(packets.len(), 2);
    let h0 = decode_data_header(&packets[0]);
    let h1 = decode_data_header(&packets[1]);
    assert_eq!((h0.flag, h0.offset), (DATA, 0));
    assert_eq!((h1.flag, h1.offset), (DATAEOF, ENODE_PACKETLEN as u32));
    let mut joined = packets[0][DATA_HEADER_LEN..].to_vec();
    joined.extend_from_slice(&packets[1][DATA_HEADER_LEN..]);
    assert_eq!(joined, data);
    let mut offsets: Vec<usize> = cache.get_offsets().iter().copied().collect();
    offsets.sort();
    assert_eq!(offsets, vec![0, ENODE_PACKETLEN]);
    assert_eq!(cache.eof, data.len());
}
use ppgw::packet::{decode_ack, decode_data_header, encode_ack, encode_data_packet, DATA, DATAEOF, DATA_HEADER_LEN};

#[test]
fn first_round_frames_every_fragment_in_order() {
    let data = bytes(4100);
    let (cache, packets) = send_message(None, &data);
    assert_eq!(cache.msgno, SEND_CACHE_MSGNO);
    assert_eq!(cache.eof, 4100);
    assert_eq!(packets.len(), 3);
    let heads: Vec<(u16, u32, u32)> = packets
        .iter()
        .map(|p| {
            let h = decode_data_header(p);
            (h.flag, h.msgno, h.offset)
        })
        .collect();
    assert_eq!(heads, vec![(DATA, 0, 0), (DATA, 0, 2048), (DATAEOF, 0, 4096)]);
    assert_eq!(&packets[1][DATA_HEADER_LEN..], &data[2048..4096]);
    let mut offsets: Vec<usize> = cache.get_offsets().iter().copied().collect();
    offsets.sort();
    assert_eq!(offsets, vec![0, 2048, 4096]);
}

#[test]
fn resent_round_keeps_the_last_flag_once_seen() {
    let data = bytes(4100);
    let (cache, _) = send_message(None, &data);
    let packets = send_active(&cache);
    assert_eq!(packets.len(), 3);
    let mut seen_last = false;
    for p in &packets {
        let h = decode_data_header(p);
        if h.offset == 4096 {
            seen_last = true;
        }
        assert_eq!(h.flag, if seen_last { DATAEOF } else { DATA });
        assert_eq!(h.msgno, 0);
    }
}

#[test]
fn receiver_drops_its_cacher_when_complete() {
    let p1 = encode_data_packet(DATA, 4, 0, 0, &[1, 2, 3, 4, 5, 6, 7, 8]);
    let p2 = encode_data_packet(DATAEOF, 4, 8, 0, &[9]);
    assert!(can_accept(&None, &p2));
    let out = handle_data_packet(None, &p2);
    assert!(out.delivered.is_none());
    let entry = out.entry;
    assert_eq!(entry.as_ref().unwrap().msgno, 4);
    assert!(can_accept(&entry, &p1));
    let out = handle_data_packet(entry, &p1);
    assert!(out.entry.is_none());
    assert_eq!(out.delivered, Some(vec![1, 2, 3, 4, 5, 6, 7, 8, 9]));
    let ack = decode_ack(&out.resp.unwrap());
    assert_eq!(ack.state, 0);
    assert_eq!(ack.msgno, 4);
}

#[test]
fn receiver_refuses_what_it_cannot_hold() {
    assert!(!can_accept(&None, &[0u8; 15]));
    let far = encode_data_packet(DATA, 1, 70000, 0, &[1]);
    assert!(!can_accept(&None, &far));
}

#[test]
fn acknowledgements_prune_the_sender() {
    let data = bytes(6000);
    let (mut cache, _) = send_message(None, &data);
    handle_data_ack(&mut cache, &encode_ack(0, false, &vec![0, 4096]));
    let left: Vec<usize> = cache.get_offsets().iter().copied().collect();
    assert_eq!(left, vec![2048]);
    handle_data_ack(&mut cache, &encode_ack(0, true, &vec![]));
    assert!(cache.get_offsets().is_empty());
    let resp = send_resp(&cache);
    assert_eq!(decode_ack(&resp).state, 1);
}

#[test]
fn first_round_arrives_in_any_order_and_completes_once() {
    let data = bytes(4100);
    let (_, packets) = send_message(None, &data);
    let order = [2usize, 0, 1];
    let mut entry = None;
    let mut delivered = None;
    for (i, k) in order.iter().enumerate() {
        assert!(can_accept(&entry, &packets[*k]));
        let out = handle_data_packet(entry, &packets[*k]);
        entry = out.entry;
        if i + 1 < order.len() {
            assert!(out.delivered.is_none());
            assert!(entry.is_some());
        } else {
            delivered = out.delivered;
            assert!(entry.is_none());
        }
    }
    assert_eq!(delivered, Some(data));
}

#[test]
fn threaded_node_counts_a_repeated_fragment_again() {
    let data = bytes(4100);
    let (_, packets) = send_message(None, &data);
    let out = handle_data_packet(None, &packets[2]);
    let out = handle_data_packet(out.entry, &packets[0]);
    assert!(out.delivered.is_none());
    let out = handle_data_packet(out.entry, &packets[0]);
    assert!(out.entry.is_none());
    let got = out.delivered.unwrap();
    assert_eq!(got.len(), 4100);
    assert_eq!(&got[0..2048], &data[0..2048]);
    assert!(got[2048..4096].iter().all(|b| *b == 0));
    assert_eq!(&got[4096..4100], &data[4096..4100]);
}

#[test]
fn cached_messages_are_rechecked_after_thirty_seconds() {
    let (mut cache, _) = send_message(None, &[1, 2, 3]);
    cache.start = 1_000;
    assert!(!recheck_due(&cache, 1_000 + 30_000_000_000));
    assert!(recheck_due(&cache, 1_000 + 30_000_000_001));
    assert!(!recheck_due(&cache, 999));
    assert_eq!(RECHECK_SECS, 30);
}
