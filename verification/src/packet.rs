//! Wire format of the packets exchanged between two nodes.
//!
//! A data packet is `flags: u16 | len: u16 | msgno: u32 | offset: u32 | ts: u32 | payload`,
//! an acknowledgement is `ACK: u16 | msgno: u32 | state: u8 [ | count: u32 | offset: u32 ... ]`,
//! every integer in big-endian order.

use byteorder::{BigEndian, ByteOrder, WriteBytesExt};
use vstd::prelude::*;

verus! {

/// Flags of the last fragment of a message.
pub const DATAEOF: u16 = 0x0080;

/// Flags of a fragment that is not the last one.
pub const DATA: u16 = 0x0000;

/// Flags of an acknowledgement.
pub const ACK: u16 = 0x8001;

/// Flags reserved for file transfers.
pub const FILE: u16 = 0x3;

/// Largest payload of one data packet.
pub const MAXPACKETLEN: usize = 8;

/// Bytes in front of the payload of a data packet.
pub const DATA_HEADER_LEN: usize = 16;

/// Header of a data packet.
pub struct Packet {
    pub flag: u16,
    pub len: u16,
    pub msgno: u32,
    pub offset: u32,
}

/// A decoded acknowledgement: `state` 0 says the message arrived whole,
/// 1 lists the offsets that did arrive.
pub struct Ack {
    pub msgno: u32,
    pub state: u8,
    pub offsets: Vec<u32>,
}

// ---------------------------------------------------------------------
// Big-endian integers.

/// The two bytes of `n`, most significant first.
pub open spec fn be16(n: u16) -> Seq<u8> {
    seq![(n / 256) as u8, (n % 256) as u8]
}

/// The four bytes of `n`, most significant first.
pub open spec fn be32(n: u32) -> Seq<u8> {
    seq![
        (n / 0x100_0000) as u8,
        ((n / 0x1_0000) % 256) as u8,
        ((n / 256) % 256) as u8,
        (n % 256) as u8,
    ]
}

/// The big-endian number held by `s[pos]`, `s[pos + 1]`.
pub open spec fn read16(s: Seq<u8>, pos: int) -> int {
    s[pos] * 256 + s[pos + 1]
}

/// The big-endian number held by `s[pos] .. s[pos + 3]`.
pub open spec fn read32(s: Seq<u8>, pos: int) -> int {
    s[pos] * 0x100_0000 + s[pos + 1] * 0x1_0000 + s[pos + 2] * 256 + s[pos + 3]
}

/// `<BigEndian as ByteOrder>::read_u16`: the source reads `buf[..2]` with
/// `u16::from_be_bytes` and panics on a shorter buffer.
#[verifier::external_body]
fn be_read_u16(buf: &[u8], pos: usize) -> (r: u16)
    requires
        pos + 2 <= buf@.len(),
    ensures
        r as int == read16(buf@, pos as int),
{
    BigEndian::read_u16(&buf[pos..])
}

/// `<BigEndian as ByteOrder>::read_u32`: the source reads `buf[..4]` with
/// `u32::from_be_bytes` and panics on a shorter buffer.
#[verifier::external_body]
fn be_read_u32(buf: &[u8], pos: usize) -> (r: u32)
    requires
        pos + 4 <= buf@.len(),
    ensures
        r as int == read32(buf@, pos as int),
{
    BigEndian::read_u32(&buf[pos..])
}

/// `WriteBytesExt::write_u16::<BigEndian>` on a `Vec<u8>`: the source
/// writes `n.to_be_bytes()` with `write_all`, which appends to a vector.
#[verifier::external_body]
fn be_write_u16(buf: &mut Vec<u8>, n: u16)
    ensures
        final(buf)@ == old(buf)@ + be16(n),
{
    let _ = buf.write_u16::<BigEndian>(n);
}

/// `WriteBytesExt::write_u32::<BigEndian>` on a `Vec<u8>`: the source
/// writes `n.to_be_bytes()` with `write_all`, which appends to a vector.
#[verifier::external_body]
fn be_write_u32(buf: &mut Vec<u8>, n: u32)
    ensures
        final(buf)@ == old(buf)@ + be32(n),
{
    let _ = buf.write_u32::<BigEndian>(n);
}

/// Reading back what `be16` wrote gives the number.
pub proof fn lemma_read16_be16(n: u16, pre: Seq<u8>, post: Seq<u8>)
    ensures
        read16(pre + be16(n) + post, pre.len() as int) == n,
{
    let s = pre + be16(n) + post;
    assert(s[pre.len() as int] == (n / 256) as u8);
    assert(s[pre.len() as int + 1] == (n % 256) as u8);
}

/// Reading back what `be32` wrote gives the number.
pub proof fn lemma_read32_be32(n: u32, pre: Seq<u8>, post: Seq<u8>)
    ensures
        read32(pre + be32(n) + post, pre.len() as int) == n,
{
    let s = pre + be32(n) + post;
    let p = pre.len() as int;
    assert(s[p] == (n / 0x100_0000) as u8);
    assert(s[p + 1] == ((n / 0x1_0000) % 256) as u8);
    assert(s[p + 2] == ((n / 256) % 256) as u8);
    assert(s[p + 3] == (n % 256) as u8);
    assert((n / 0x100_0000) * 0x100_0000 + ((n / 0x1_0000) % 256) * 0x1_0000 + ((n / 256) % 256)
        * 256 + n % 256 == n) by (nonlinear_arith);
}


// ---------------------------------------------------------------------
// Data packets.

/// The bytes of a data packet; the length field is the payload length cut
/// to 16 bits, as the sender writes it.
pub open spec fn data_packet_bytes(flags: u16, msgno: u32, offset: u32, ts: u32, data: Seq<u8>) -> Seq<u8> {
    be16(flags) + be16(data.len() as u16) + be32(msgno) + be32(offset) + be32(ts) + data
}

/// The header that a receiver reads from the first 16 bytes of `s`
/// (the time stamp at bytes 12..16 is read and dropped).
pub open spec fn data_header(s: Seq<u8>) -> Packet {
    Packet {
        flag: read16(s, 0) as u16,
        len: read16(s, 2) as u16,
        msgno: read32(s, 4) as u32,
        offset: read32(s, 8) as u32,
    }
}

/// The payload that a receiver takes from `s`: at most `len` bytes after
/// the header, fewer when the packet is shorter.
pub open spec fn data_payload(s: Seq<u8>) -> Seq<u8> {
    let end = DATA_HEADER_LEN + read16(s, 2);
    s.subrange(DATA_HEADER_LEN as int, if end <= s.len() { end } else { s.len() as int })
}

/// Frames one fragment: flags, payload length, message number, offset,
/// time stamp and the payload.
pub fn encode_data_packet(flags: u16, msgno: u32, offset: usize, ts: u32, data: &[u8]) -> (res: Vec<u8>)
    ensures
        res@ == data_packet_bytes(flags, msgno, offset as u32, ts, data@),
{
    let mut buf: Vec<u8> = Vec::new();
    be_write_u16(&mut buf, flags);
    be_write_u16(&mut buf, data.len() as u16);
    be_write_u32(&mut buf, msgno);
    be_write_u32(&mut buf, offset as u32);
    be_write_u32(&mut buf, ts);
    let ghost head = buf@;
    let mut i: usize = 0;
    while i < data.len()
        invariant
            i <= data@.len(),
            buf@ == head + data@.subrange(0, i as int),
        decreases data@.len() - i,
    {
        buf.push(data[i]);
        i = i + 1;
        assert(buf@ =~= head + data@.subrange(0, i as int));
    }
    assert(data@.subrange(0, data@.len() as int) =~= data@);
    buf
}

/// Reads the header of a data packet.
pub fn decode_data_header(bytes: &[u8]) -> (res: Packet)
    requires
        bytes@.len() >= DATA_HEADER_LEN,
    ensures
        res == data_header(bytes@),
{
    let flag = be_read_u16(bytes, 0);
    let len = be_read_u16(bytes, 2);
    let msgno = be_read_u32(bytes, 4);
    let offset = be_read_u32(bytes, 8);
    let _ts = be_read_u32(bytes, 12);
    Packet { flag, len, msgno, offset }
}

/// The kind of a packet: 0 for data, 1 for control, read from the top bit
/// of its flags.
pub fn packet_kind(flag: u16) -> (res: u16)
    ensures
        res == flag / 0x8000,
        res <= 1,
{
    assert(flag >> 15 == flag / 0x8000) by (bit_vector);
    flag >> 15
}

/// Reads the flags of a packet.
pub fn read_flag(bytes: &[u8]) -> (res: u16)
    requires
        bytes@.len() >= 2,
    ensures
        res == read16(bytes@, 0),
{
    be_read_u16(bytes, 0)
}

/// A data packet decodes to the header and payload it was framed from.
pub proof fn lemma_data_packet_roundtrip(flags: u16, msgno: u32, offset: u32, ts: u32, data: Seq<u8>)
    requires
        data.len() <= 0xFFFF,
    ensures
        data_header(data_packet_bytes(flags, msgno, offset, ts, data)) == (Packet {
            flag: flags,
            len: data.len() as u16,
            msgno,
            offset,
        }),
        data_payload(data_packet_bytes(flags, msgno, offset, ts, data)) == data,
{
    let e = Seq::<u8>::empty();
    let a = be16(flags);
    let b = be16(data.len() as u16);
    let c = be32(msgno);
    let d = be32(offset);
    let t = be32(ts);
    let s = data_packet_bytes(flags, msgno, offset, ts, data);
    assert(s =~= e + a + (b + c + d + t + data));
    lemma_read16_be16(flags, e, b + c + d + t + data);
    assert(s =~= a + b + (c + d + t + data));
    lemma_read16_be16(data.len() as u16, a, c + d + t + data);
    assert(s =~= (a + b) + c + (d + t + data));
    lemma_read32_be32(msgno, a + b, d + t + data);
    assert(s =~= (a + b + c) + d + (t + data));
    lemma_read32_be32(offset, a + b + c, t + data);
    assert(data_payload(s) =~= data);
}


// ---------------------------------------------------------------------
// Acknowledgements.

/// The offsets of an acknowledgement, four bytes each.
pub open spec fn offsets_bytes(offsets: Seq<u32>) -> Seq<u8>
    decreases offsets.len(),
{
    if offsets.len() == 0 {
        Seq::empty()
    } else {
        offsets_bytes(offsets.drop_last()) + be32(offsets.last())
    }
}

/// The bytes of an acknowledgement: state 0 when the message is complete,
/// else state 1, the number of offsets cut to 32 bits and the offsets.
pub open spec fn ack_bytes(msgno: u32, complete: bool, offsets: Seq<u32>) -> Seq<u8> {
    if complete {
        be16(ACK) + be32(msgno) + seq![0u8]
    } else {
        be16(ACK) + be32(msgno) + seq![1u8] + be32(offsets.len() as u32) + offsets_bytes(offsets)
    }
}

/// An acknowledgement `s` (flags included) holds all that a receiver of
/// it reads: message number, state and, for state 1, the listed offsets.
pub open spec fn ack_readable(s: Seq<u8>) -> bool {
    &&& s.len() >= 7
    &&& s[6] == 1 ==> s.len() >= 11 && s.len() >= 11 + 4 * read32(s, 7)
}

/// The offsets listed in an acknowledgement of state 1.
pub open spec fn ack_offsets(s: Seq<u8>) -> Seq<u32> {
    Seq::new(read32(s, 7) as nat, |i: int| read32(s, 11 + 4 * i) as u32)
}

/// `a` is what a receiver reads from the acknowledgement `s`.
pub open spec fn ack_decoded(a: Ack, s: Seq<u8>) -> bool {
    &&& a.msgno == read32(s, 2)
    &&& a.state == s[6]
    &&& a.offsets@ == if s[6] == 1 { ack_offsets(s) } else { Seq::empty() }
}

proof fn lemma_offsets_bytes_len(offsets: Seq<u32>)
    ensures
        offsets_bytes(offsets).len() == 4 * offsets.len(),
    decreases offsets.len(),
{
    if offsets.len() > 0 {
        lemma_offsets_bytes_len(offsets.drop_last());
    }
}

proof fn lemma_read_offsets(offsets: Seq<u32>, pre: Seq<u8>, post: Seq<u8>, i: int)
    requires
        0 <= i < offsets.len(),
    ensures
        read32(pre + offsets_bytes(offsets) + post, pre.len() + 4 * i) == offsets[i],
    decreases offsets.len(),
{
    let a = offsets_bytes(offsets.drop_last());
    let b = be32(offsets.last());
    lemma_offsets_bytes_len(offsets.drop_last());
    if i == offsets.len() - 1 {
        assert(pre + offsets_bytes(offsets) + post =~= (pre + a) + b + post);
        lemma_read32_be32(offsets.last(), pre + a, post);
    } else {
        assert(pre + offsets_bytes(offsets) + post =~= pre + a + (b + post));
        lemma_read_offsets(offsets.drop_last(), pre, b + post, i);
    }
}

/// Frames an acknowledgement of message `msgno`.
pub fn encode_ack(msgno: u32, complete: bool, offsets: &Vec<usize>) -> (res: Vec<u8>)
    ensures
        res@ == ack_bytes(msgno, complete, offsets@.map_values(|o: usize| o as u32)),
{
    let ghost offs = offsets@.map_values(|o: usize| o as u32);
    let mut buf: Vec<u8> = Vec::new();
    be_write_u16(&mut buf, ACK);
    be_write_u32(&mut buf, msgno);
    if complete {
        buf.push(0u8);
        assert(buf@ =~= ack_bytes(msgno, complete, offs));
    } else {
        buf.push(1u8);
        be_write_u32(&mut buf, offsets.len() as u32);
        let ghost head = buf@;
        let mut i: usize = 0;
        assert(offs.subrange(0, 0) =~= Seq::<u32>::empty());
        assert(buf@ =~= head + offsets_bytes(offs.subrange(0, 0)));
        while i < offsets.len()
            invariant
                i <= offsets@.len(),
                offs == offsets@.map_values(|o: usize| o as u32),
                buf@ == head + offsets_bytes(offs.subrange(0, i as int)),
            decreases offsets@.len() - i,
        {
            let o = offsets[i];
            be_write_u32(&mut buf, o as u32);
            assert(offs.subrange(0, i + 1).drop_last() =~= offs.subrange(0, i as int));
            i = i + 1;
            assert(buf@ =~= head + offsets_bytes(offs.subrange(0, i as int)));
        }
        assert(offs.subrange(0, offsets@.len() as int) =~= offs);
    }
    buf
}

/// Whether an acknowledgement holds all that is read from it.
pub fn ack_is_readable(bytes: &[u8]) -> (res: bool)
    ensures
        res == ack_readable(bytes@),
{
    if bytes.len() < 7 {
        return false;
    }
    if bytes[6] != 1 {
        return true;
    }
    if bytes.len() < 11 {
        return false;
    }
    let count = be_read_u32(bytes, 7) as u64;
    (bytes.len() as u64) >= 11 + 4 * count
}

/// Reads an acknowledgement.
pub fn decode_ack(bytes: &[u8]) -> (res: Ack)
    requires
        ack_readable(bytes@),
    ensures
        ack_decoded(res, bytes@),
{
    let msgno = be_read_u32(bytes, 2);
    let state = bytes[6];
    let n = bytes.len();
    let mut offsets: Vec<u32> = Vec::new();
    if state == 1 {
        let count = be_read_u32(bytes, 7);
        let mut i: u32 = 0;
        while i < count
            invariant
                i <= count,
                n == bytes@.len(),
                count == read32(bytes@, 7),
                bytes@.len() >= 11 + 4 * read32(bytes@, 7),
                offsets@ =~= ack_offsets(bytes@).subrange(0, i as int),
            decreases count - i,
        {
            let pos: usize = 11 + 4 * (i as usize);
            let o = be_read_u32(bytes, pos);
            offsets.push(o);
            i = i + 1;
        }
        assert(ack_offsets(bytes@).subrange(0, count as int) =~= ack_offsets(bytes@));
    }
    Ack { msgno, state, offsets }
}

/// An acknowledgement decodes to what it was framed from.
pub proof fn lemma_ack_roundtrip(msgno: u32, complete: bool, offsets: Seq<u32>)
    requires
        offsets.len() <= u32::MAX,
    ensures
        ack_readable(ack_bytes(msgno, complete, offsets)),
        read32(ack_bytes(msgno, complete, offsets), 2) == msgno,
        ack_bytes(msgno, complete, offsets)[6] == if complete { 0u8 } else { 1u8 },
        !complete ==> ack_offsets(ack_bytes(msgno, complete, offsets)) == offsets,
{
    let s = ack_bytes(msgno, complete, offsets);
    let a = be16(ACK);
    let m = be32(msgno);
    lemma_offsets_bytes_len(offsets);
    if complete {
        assert(s =~= a + m + seq![0u8]);
        lemma_read32_be32(msgno, a, seq![0u8]);
    } else {
        let c = be32(offsets.len() as u32);
        let o = offsets_bytes(offsets);
        assert(s =~= a + m + (seq![1u8] + c + o));
        lemma_read32_be32(msgno, a, seq![1u8] + c + o);
        assert(s =~= (a + m + seq![1u8]) + c + o);
        lemma_read32_be32(offsets.len() as u32, a + m + seq![1u8], o);
        assert forall|i: int| 0 <= i < offsets.len() implies #[trigger] read32(s, 11 + 4 * i)
            == offsets[i] by {
            assert(s =~= (a + m + seq![1u8] + c) + o + Seq::<u8>::empty());
            lemma_read_offsets(offsets, a + m + seq![1u8] + c, Seq::<u8>::empty(), i);
        }
        assert(ack_offsets(s) =~= offsets);
    }
}

} // verus!
