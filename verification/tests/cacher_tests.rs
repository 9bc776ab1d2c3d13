use ppgw::messagecacher::MessageCacher as EnodeCacher;
use ppgw::net::messagecacher::{new_message_no, MessageCacher, MAXMESSAGELEN};
use ppgw::packet::{DATA, DATAEOF};

#[test]
fn new_cacher_is_idle() {
    let c = MessageCacher::new();
    assert!(c.complete);
    assert_eq!(c.msgno, 0);
    assert_eq!(c.data.len(), MAXMESSAGELEN);
    assert_eq!(c.gaps(), 0);
    assert!(c.get_offsets().is_empty());
}

#[test]
fn message_numbers_count_up() {
    let mut counter: u32 = 0;
    assert_eq!(new_message_no(&mut counter), 1);
    assert_eq!(new_message_no(&mut counter), 2);
    assert_eq!(counter, 2);
}

#[test]
fn out_of_order_fragments_complete_the_message() {
    let mut c = MessageCacher::new();
    c.new_message(9);
    assert!(!c.complete);
    assert_eq!(c.get_buf(8, &[9, 10, 11]), 3);
    c.end_write(8, 3, DATAEOF);
    assert!(!c.complete);
    assert_eq!(c.eof, 11);
    assert_eq!(c.gaps(), 0);
    assert_eq!(c.get_buf(0, &[1, 2, 3, 4, 5, 6, 7, 8]), 8);
    c.end_write(0, 8, DATA);
    assert!(c.complete);
    assert_eq!(c.seen, 11);
    assert_eq!(c.gaps(), 8);
    assert_eq!(c.get_message(), vec![1, 2, 3, 4, 5, 6, 7, 8, 9, 10, 11]);
}

#[test]
fn repeated_fragment_is_ignored() {
    let mut c = MessageCacher::new();
    c.new_message(3);
    c.end_write(0, 8, DATA);
    c.end_write(0, 8, DATA);
    assert_eq!(c.seen, 8);
    assert_eq!(c.gaps(), 8);
    assert_eq!(c.get_offsets().len(), 1);
}

#[test]
fn buffer_write_stops_at_its_end() {
    let mut c = MessageCacher::new();
    let n = c.get_buf(MAXMESSAGELEN - 2, &[1, 2, 3, 4]);
    assert_eq!(n, 2);
    assert_eq!(c.get_data(MAXMESSAGELEN - 3, MAXMESSAGELEN), vec![0, 1, 2]);
}

#[test]
fn reset_clears_but_keeps_bytes() {
    let mut c = MessageCacher::new();
    c.new_message(4);
    c.get_buf(0, &[5, 6]);
    c.end_write(0, 2, DATA);
    c.reset();
    assert!(c.complete);
    assert_eq!(c.msgno, 0);
    assert_eq!(c.seen, 0);
    assert_eq!(c.eof, 0);
    assert!(c.get_offsets().is_empty());
    assert_eq!(c.get_data(0, 2), vec![5, 6]);
}

#[test]
fn fingerprint_of_zeroed_buffer() {
    let c = MessageCacher::new();
    assert_eq!(c.sha256(), "de2f256064a0af797747c2b97505dc0b9f3df0de4f489eac731c23ae9ca9cc31");
}

#[test]
fn offsets_can_be_changed_in_place() {
    let mut c = MessageCacher::new();
    c.get_mut_offsets().insert(16);
    assert!(c.get_offsets().contains(&16));
}

#[test]
fn threaded_cacher_counts_repeats_and_stops_recording_when_complete() {
    let mut c = EnodeCacher::new(12);
    assert!(!c.complete);
    assert_eq!(c.msgno, 12);
    c.get_buf(0, &[1, 2, 3, 4]);
    c.end_write(0, 4, DATA);
    c.end_write(0, 4, DATA);
    assert_eq!(c.seen, 8);
    assert_eq!(c.gaps(), 4);
    assert!(c.get_offsets().contains(&0));
    c.get_buf(4, &[5, 6]);
    c.end_write(4, 2, DATAEOF);
    assert_eq!(c.eof, 6);
    assert!(!c.complete);
    let mut d = EnodeCacher::new(1);
    d.get_buf(0, &[1, 2, 3]);
    d.end_write(0, 3, DATAEOF);
    assert!(d.complete);
    assert!(d.get_offsets().is_empty());
    assert_eq!(d.get_message(), vec![1, 2, 3]);
}

#[test]
fn pieces_of_any_size_rebuild_the_message_in_any_order() {
    let d: Vec<u8> = (10..19).collect();
    let pieces: [(usize, usize); 3] = [(0, 3), (3, 1), (4, 5)];
    let mut c = MessageCacher::new();
    c.new_message(5);
    for (n, k) in [2usize, 0, 0, 1].iter().enumerate() {
        let (o, s) = pieces[*k];
        c.get_buf(o, &d[o..o + s]);
        c.end_write(o, s, if o + s == d.len() { DATAEOF } else { DATA });
        assert_eq!(c.complete, n == 3);
    }
    assert_eq!(c.seen, d.len());
    assert_eq!(c.get_message(), d);
}
