use ppgw::packet::{
    ack_is_readable, decode_ack, decode_data_header, encode_ack, encode_data_packet, packet_kind,
    read_flag, ACK, DATA, DATAEOF, DATA_HEADER_LEN,
};

#[test]
fn data_packet_layout() {
    let bytes = encode_data_packet(DATAEOF, 0x01020304, 16, 0x0a0b0c0d, &[7, 8, 9]);
    assert_eq!(
        bytes,
        vec![0x00, 0x80, 0x00, 0x03, 0x01, 0x02, 0x03, 0x04, 0x00, 0x00, 0x00, 0x10, 0x0a, 0x0b, 0x0c, 0x0d, 7, 8, 9]
    );
}

#[test]
fn data_packet_roundtrip_concrete() {
    let bytes = encode_data_packet(DATA, 42, 8, 0, &[1, 2, 3, 4, 5, 6, 7, 8]);
    assert_eq!(bytes.len(), DATA_HEADER_LEN + 8);
    let h = decode_data_header(&bytes);
    assert_eq!(h.flag, DATA);
    assert_eq!(h.len, 8);
    assert_eq!(h.msgno, 42);
    assert_eq!(h.offset, 8);
    assert_eq!(&bytes[DATA_HEADER_LEN..], &[1, 2, 3, 4, 5, 6, 7, 8]);
}

#[test]
fn data_packet_length_is_cut_to_sixteen_bits() {
    let data = vec![0u8; 65537];
    let bytes = encode_data_packet(DATA, 1, 0, 0, &data);
    let h = decode_data_header(&bytes);
    assert_eq!(h.len, 1);
}

#[test]
fn ack_layout_complete() {
    let bytes = encode_ack(5, true, &vec![0, 8]);
    assert_eq!(bytes, vec![0x80, 0x01, 0, 0, 0, 5, 0]);
}

#[test]
fn ack_layout_incomplete() {
    let bytes = encode_ack(0x0100, false, &vec![8, 0x10203]);
    assert_eq!(
        bytes,
        vec![0x80, 0x01, 0, 0, 1, 0, 1, 0, 0, 0, 2, 0, 0, 0, 8, 0, 1, 2, 3]
    );
    let a = decode_ack(&bytes);
    assert_eq!(a.msgno, 0x0100);
    assert_eq!(a.state, 1);
    assert_eq!(a.offsets, vec![8, 0x10203]);
}

#[test]
fn ack_roundtrip_complete() {
    let bytes = encode_ack(77, true, &vec![]);
    assert!(ack_is_readable(&bytes));
    let a = decode_ack(&bytes);
    assert_eq!(a.msgno, 77);
    assert_eq!(a.state, 0);
    assert!(a.offsets.is_empty());
}

#[test]
fn ack_readability() {
    assert!(!ack_is_readable(&[0x80, 0x01, 0, 0, 0]));
    assert!(ack_is_readable(&[0x80, 0x01, 0, 0, 0, 1, 0]));
    assert!(ack_is_readable(&[0x80, 0x01, 0, 0, 0, 1, 2]));
    assert!(!ack_is_readable(&[0x80, 0x01, 0, 0, 0, 1, 1, 0, 0, 0]));
    assert!(!ack_is_readable(&[0x80, 0x01, 0, 0, 0, 1, 1, 0, 0, 0, 1, 0, 0]));
    assert!(ack_is_readable(&[0x80, 0x01, 0, 0, 0, 1, 1, 0, 0, 0, 1, 0, 0, 0, 4]));
}

#[test]
fn flags_and_kinds() {
    assert_eq!(read_flag(&[0x80, 0x01]), ACK);
    assert_eq!(packet_kind(ACK), 1);
    assert_eq!(packet_kind(DATA), 0);
    assert_eq!(packet_kind(DATAEOF), 0);
    assert_eq!(packet_kind(0xffff), 1);
}
