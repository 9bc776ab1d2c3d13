//! One peer's connection: a queue of messages to send, the message being
//! sent, the message being received and the counters.

use std::collections::HashSet;
use std::collections::VecDeque;
use vstd::prelude::*;
use vstd::std_specs::hash::{axiom_spec_hash_keys_iter, spec_hash_keys_iter};
use vstd::std_specs::iter::IteratorSpec;

use crate::clock::{elapsed_over, precise_now, spec_elapsed_over};
use crate::net::messagecacher::{
    cleared, end_write_fits, end_write_spec, new_message_no, write_at, CacherView, MessageCacher,
    MAXMESSAGELEN,
};
use crate::packet::{
    ack_bytes, ack_decoded, ack_is_readable, ack_readable, read_flag, data_header, data_packet_bytes, data_payload,
    decode_ack, decode_data_header, encode_ack, encode_data_packet, packet_kind, read16, Packet,
    ACK, DATA, DATAEOF, DATA_HEADER_LEN, MAXPACKETLEN,
};
use crate::stats::Stats;

verus! {

broadcast use vstd::std_specs::hash::group_hash_axioms;

/// The offsets at which a message of `len` bytes is cut into fragments of
/// `sz` bytes: every multiple of `sz` below `len`, and 0 for an empty
/// message.
pub open spec fn fragment_offsets(len: nat, sz: nat) -> Set<usize> {
    Set::new(|o: usize| (o as int) % (sz as int) == 0 && (o < len || o == 0))
}

/// The outgoing message can be framed again: its end lies in the buffer
/// and no offset lies past its end.
pub open spec fn sendable(c: CacherView) -> bool {
    &&& c.eof <= c.data.len()
    &&& forall|o: usize| c.cache.contains(o) ==> o <= c.eof
}

/// Whether the fragment at `o` is the last one of the outgoing message,
/// cut into fragments of `sz` bytes.
pub open spec fn is_last_fragment(c: CacherView, o: usize, sz: nat) -> bool {
    sz >= c.eof - o
}

/// End of the fragment at `o` of the outgoing message, cut into fragments
/// of `sz` bytes.
pub open spec fn fragment_end(c: CacherView, o: usize, sz: nat) -> int {
    if is_last_fragment(c, o, sz) {
        c.eof as int
    } else {
        o + sz
    }
}

/// The data packet that carries the fragment at `o` of the outgoing message.
pub open spec fn active_packet(c: CacherView, o: usize) -> Seq<u8> {
    data_packet_bytes(
        if is_last_fragment(c, o, MAXPACKETLEN as nat) {
            DATAEOF
        } else {
            DATA
        },
        c.msgno,
        o as u32,
        0,
        c.data.subrange(o as int, fragment_end(c, o, MAXPACKETLEN as nat)),
    )
}

/// `packets` holds one packet per offset of `c`, in some order.
pub open spec fn lists_packets(c: CacherView, packets: Seq<Vec<u8>>) -> bool {
    exists|os: Seq<usize>|
        {
            &&& os.no_duplicates()
            &&& os.to_set() == c.cache
            &&& os.len() == packets.len()
            &&& forall|i: int| 0 <= i < os.len() ==> #[trigger] packets[i]@ == active_packet(c, os[i])
        }
}

/// Frames every fragment that the outgoing message still has to deliver.
pub fn frame_fragments(c: &MessageCacher) -> (res: Vec<Vec<u8>>)
    requires
        sendable(c@),
    ensures
        lists_packets(c@, res@),
{
    let mut out: Vec<Vec<u8>> = Vec::new();
    proof {
        let keys = spec_hash_keys_iter(&c.cache).remaining();
        axiom_spec_hash_keys_iter(&c.cache);
        assert forall|i: int| 0 <= i < keys.len() implies c@.cache.contains(*#[trigger] keys[i]) by {
            assert(keys.unref()[i] == *keys[i]);
            assert(keys.unref().to_set().contains(keys.unref()[i]));
        }
    }
    for o in it: c.cache.iter()
        invariant
            sendable(c@),
            out@.len() == it.index(),
            forall|i: int| 0 <= i < it.seq().len() ==> c@.cache.contains(*#[trigger] it.seq()[i]),
            forall|i: int| 0 <= i < out@.len() ==> #[trigger] out@[i]@ == active_packet(c@, *it.seq()[i]),
    {
        let o = *o;
        let last = MAXPACKETLEN >= c.eof - o;
        let end = if last { c.eof } else { o + MAXPACKETLEN };
        let flags = if last { DATAEOF } else { DATA };
        let data = c.get_data(o, end);
        let packet = encode_data_packet(flags, c.msgno, o, 0, data.as_slice());
        out.push(packet);
    }
    proof {
        let keys = spec_hash_keys_iter(&c.cache).remaining();
        let os = keys.unref();
        assert(os.no_duplicates());
        assert(os.to_set() == c@.cache);
        assert(os.len() == out@.len());
        assert forall|i: int| 0 <= i < os.len() implies #[trigger] out@[i]@ == active_packet(c@, os[i]) by {
            assert(os[i] == *keys[i]);
        }
    }
    out
}


/// `ack` answers for the incoming message `c`: its number, whether it is
/// complete and, when it is not, its offsets in some order.
pub open spec fn answers(c: CacherView, ack: Seq<u8>) -> bool {
    exists|os: Seq<usize>|
        {
            &&& os.no_duplicates()
            &&& os.to_set() == c.cache
            &&& ack == ack_bytes(c.msgno, c.complete, os.map_values(|o: usize| o as u32))
        }
}

/// The members of `set`, each once, in the order the set yields them.
pub fn list_offsets(set: &HashSet<usize>) -> (res: Vec<usize>)
    ensures
        res@.no_duplicates(),
        res@.to_set() == set@,
{
    let mut offsets: Vec<usize> = Vec::new();
    for o in it: set.iter()
        invariant
            offsets@.len() == it.index(),
            forall|i: int| 0 <= i < offsets@.len() ==> #[trigger] offsets@[i] == *it.seq()[i],
    {
        offsets.push(*o);
    }
    proof {
        let keys = spec_hash_keys_iter(set).remaining();
        axiom_spec_hash_keys_iter(set);
        assert(offsets@ =~= keys.unref());
    }
    offsets
}

/// Frames the acknowledgement of the incoming message.
pub fn frame_ack(c: &MessageCacher) -> (res: Vec<u8>)
    ensures
        answers(c@, res@),
{
    let offsets = if c.complete {
        Vec::new()
    } else {
        list_offsets(&c.cache)
    };
    let res = encode_ack(c.msgno, c.complete, &offsets);
    proof {
        if c.complete {
            let keys = spec_hash_keys_iter(&c.cache).remaining();
            axiom_spec_hash_keys_iter(&c.cache);
            let os = keys.unref();
            assert(ack_bytes(c.msgno, c.complete, os.map_values(|o: usize| o as u32)) == res@);
        }
    }
    res
}

/// A message cannot be sent now.
pub enum SendError {
    Block,
}

/// What one attempt to send gave: `Active` when a message is on its way
/// (just sent, or still waiting for its acknowledgement), `Empty` when
/// nothing was queued.
pub enum TrySendResult {
    Wait,
    Empty,
    Active,
}

/// Seconds that an incomplete incoming message waits before it is
/// acknowledged again; the outgoing one waits one second more.
pub const WAITTIME: u64 = 1;

/// Seconds between two rate reports.
pub const REPORT_PERIOD: u64 = 5;

/// What a received packet asks of the caller.
pub struct ReceiveOutcome {
    /// The encoded message, when the packet completed one.
    pub delivered: Option<Vec<u8>>,
    /// An acknowledgement to send back.
    pub resp: Option<Vec<u8>>,
}

/// What a periodic check asks of the caller.
pub struct CheckOutcome {
    /// Packets of the outgoing message to send again.
    pub resend: Vec<Vec<u8>>,
    /// An acknowledgement of the incoming message to send again.
    pub resp: Option<Vec<u8>>,
    /// Send and receive rates to report.
    pub rates: Option<(usize, usize)>,
}

/// The outgoing message `data`, numbered `msgno`, just cut into fragments.
pub open spec fn outgoing(msgno: u32, data: Seq<u8>, start: u64) -> CacherView {
    CacherView {
        msgno,
        complete: false,
        start,
        data,
        offset: 0,
        eof: data.len() as usize,
        seen: 0,
        cache: fragment_offsets(data.len(), MAXPACKETLEN as nat),
    }
}

impl CacherView {
    /// The same state over the buffer `data`.
    pub open spec fn with_data(self, data: Seq<u8>) -> CacherView {
        CacherView { data, ..self }
    }
}

/// The incoming message that a data packet with header `h` is written to:
/// the current one, or a fresh one when the numbers differ.
pub open spec fn recv_target(c: CacherView, h: Packet, t: u64) -> CacherView {
    if h.msgno != c.msgno {
        cleared(c, h.msgno, false, t)
    } else {
        c
    }
}

/// The incoming message after the payload of `p` was copied in.
pub open spec fn recv_copied(c: CacherView, p: Seq<u8>, t: u64) -> CacherView {
    let h = data_header(p);
    let c1 = recv_target(c, h, t);
    CacherView { data: write_at(c1.data, h.offset as int, data_payload(p)), ..c1 }
}

/// The incoming message after the data packet `p` was recorded.
pub open spec fn recv_written(c: CacherView, p: Seq<u8>, t: u64) -> CacherView {
    let h = data_header(p);
    end_write_spec(recv_copied(c, p, t), h.offset as usize, h.len as usize, h.flag)
}

/// What the data packet `p` makes of the incoming message `c`; `t` is the
/// clock reading taken on the way.
pub open spec fn recv_data_spec(c: CacherView, p: Seq<u8>, t: u64) -> CacherView {
    let c3 = recv_written(c, p, t);
    if c3.complete {
        CacherView { start: t, ..c3 }
    } else {
        c3
    }
}

/// The data packet `p` can be taken in without an arithmetic overflow or
/// an access out of bounds.
pub open spec fn data_receivable(c: CacherView, st: Stats, p: Seq<u8>) -> bool {
    &&& cacher_receivable(c, p)
    &&& recv_written(c, p, c.start).complete ==> {
        &&& st.receive_count < usize::MAX
        &&& st.receive_count_for_rate < usize::MAX
    }
}

/// The incoming message `c` can take in the data packet `p`: the header
/// is there, the offset lies in the buffer, the counters do not overflow
/// and a completed message lies in the buffer.
pub open spec fn cacher_receivable(c: CacherView, p: Seq<u8>) -> bool {
    let h = data_header(p);
    &&& p.len() >= DATA_HEADER_LEN
    &&& h.offset <= recv_target(c, h, c.start).data.len()
    &&& end_write_fits(recv_copied(c, p, c.start), h.offset as usize, h.len as usize, h.flag)
    &&& recv_written(c, p, c.start).complete ==> recv_written(c, p, c.start).seen <= recv_written(
        c,
        p,
        c.start,
    ).data.len()
}

/// The packet `p` can be taken in: its flags are there, and a data packet
/// or an acknowledgement holds what is read from it.
pub open spec fn receivable(c: CacherView, st: Stats, p: Seq<u8>) -> bool {
    &&& p.len() >= 2
    &&& read16(p, 0) / 0x8000 == 0 ==> data_receivable(c, st, p)
    &&& read16(p, 0) == ACK ==> ack_readable(p)
}

/// The outgoing message `c` after the acknowledgement `p` was taken in:
/// state 0 resets it, state 1 drops the listed offsets.
pub open spec fn acked(c: CacherView, p: Seq<u8>, t: u64) -> CacherView {
    if p[6] == 0 {
        cleared(c, 0, true, t)
    } else if p[6] == 1 {
        CacherView {
            cache: c.cache.difference(
                listed(crate::packet::ack_offsets(p), crate::packet::ack_offsets(p).len() as int),
            ),
            ..c
        }
    } else {
        c
    }
}

/// The first `n` offsets of `offs`, as buffer positions.
pub open spec fn listed(offs: Seq<u32>, n: int) -> Set<usize> {
    Set::new(|o: usize| exists|j: int| 0 <= j < n && #[trigger] offs[j] as usize == o)
}

/// Listing one more offset adds that offset to the listed set.
pub proof fn lemma_listed_step(offs: Seq<u32>, n: int)
    requires
        0 <= n,
    ensures
        listed(offs, n + 1) == listed(offs, n).insert(offs[n] as usize),
{
    assert forall|o: usize| #[trigger] listed(offs, n + 1).contains(o) implies listed(offs, n).insert(
        offs[n] as usize,
    ).contains(o) by {
        let j = choose|j: int| 0 <= j < n + 1 && #[trigger] offs[j] as usize == o;
        if j < n {
            assert(listed(offs, n).contains(o));
        }
    }
    assert(listed(offs, n + 1) =~= listed(offs, n).insert(offs[n] as usize));
}

/// One peer's connection.
pub struct Connection {
    /// Encoded messages waiting to be sent, newest first.
    pub buffer: VecDeque<Vec<u8>>,
    pub send_cache: MessageCacher,
    pub recv_cache: MessageCacher,
    pub stats: Stats,
}

impl Connection {
    /// The outgoing message can be framed and the receive buffer has its
    /// full size.
    pub open spec fn wf(&self) -> bool {
        &&& sendable(self.send_cache@)
        &&& self.recv_cache@.data.len() == MAXMESSAGELEN
    }

    /// The two connections hold the same queue, messages and counters.
    pub open spec fn same_as(self, other: Connection) -> bool {
        &&& self.buffer@ == other.buffer@
        &&& self.send_cache@ == other.send_cache@
        &&& self.recv_cache@ == other.recv_cache@
        &&& self.stats == other.stats
    }

    /// A connection with nothing queued and both messages idle.
    pub fn new() -> (res: Connection)
        ensures
            res.wf(),
            res.buffer@ == Seq::<Vec<u8>>::empty(),
            res.send_cache@ == cleared(res.send_cache@, 0, true, res.send_cache.start),
            res.recv_cache@ == cleared(res.recv_cache@, 0, true, res.recv_cache.start),
            res.send_cache@.data == Seq::new(MAXMESSAGELEN as nat, |i: int| 0u8),
            res.recv_cache@.data == Seq::new(MAXMESSAGELEN as nat, |i: int| 0u8),
            res.stats.receive_count == 0,
            res.stats.send_count == 0,
            res.stats.receive_count_for_rate == 0,
            res.stats.send_count_for_rate == 0,
    {
        let send_cache = MessageCacher::new();
        let recv_cache = MessageCacher::new();
        let stats = Stats::new();
        let buffer = VecDeque::with_capacity(2048);
        assert(send_cache@.data =~= Seq::new(MAXMESSAGELEN as nat, |i: int| 0u8));
        assert(recv_cache@.data =~= Seq::new(MAXMESSAGELEN as nat, |i: int| 0u8));
        Connection { buffer, send_cache, recv_cache, stats }
    }

    /// Queues an encoded message.
    pub fn push_message(&mut self, message: Vec<u8>)
        ensures
            final(self).buffer@ == seq![message].add(old(self).buffer@),
            final(self).send_cache@ == old(self).send_cache@,
            final(self).recv_cache@ == old(self).recv_cache@,
            final(self).stats == old(self).stats,
    {
        self.buffer.push_front(message);
    }

    /// Frames the acknowledgement of the incoming message.
    pub fn send_resp(&self) -> (res: Vec<u8>)
        ensures
            answers(self.recv_cache@, res@),
    {
        frame_ack(&self.recv_cache)
    }

    /// Frames every fragment of the outgoing message not yet acknowledged.
    pub fn send_active(&self) -> (res: Vec<Vec<u8>>)
        requires
            self.wf(),
        ensures
            lists_packets(self.send_cache@, res@),
    {
        frame_fragments(&self.send_cache)
    }

    /// Starts sending the encoded message `data` under the next number from
    /// `counter`: cuts it into fragments, frames them all and counts the
    /// message as sent.
    pub fn send_message(&mut self, data: Vec<u8>, counter: &mut u32) -> (res: Vec<Vec<u8>>)
        requires
            old(self).wf(),
            *old(counter) < u32::MAX,
            old(self).stats.send_count < usize::MAX,
            old(self).stats.send_count_for_rate < usize::MAX,
        ensures
            final(self).wf(),
            *final(counter) == *old(counter) + 1,
            final(self).send_cache@ == outgoing(
                *final(counter),
                data@,
                final(self).send_cache.start,
            ),
            lists_packets(final(self).send_cache@, res@),
            final(self).buffer@ == old(self).buffer@,
            final(self).recv_cache@ == old(self).recv_cache@,
            final(self).stats == (Stats {
                send_count: (old(self).stats.send_count + 1) as usize,
                send_count_for_rate: (old(self).stats.send_count_for_rate + 1) as usize,
                ..old(self).stats
            }),
    {
        let len = data.len();
        self.send_cache.data = data;
        let no = new_message_no(counter);
        self.send_cache.new_message(no);
        let mut offset: usize = 0;
        let mut eof: usize = 0;
        loop
            invariant_except_break
                offset == eof,
                eof <= len,
                eof % MAXPACKETLEN == 0,
                eof < len || eof == 0,
                self.send_cache@.cache == Set::new(|o: usize| o % MAXPACKETLEN == 0 && o < offset),
            invariant
                len == self.send_cache@.data.len(),
                self.stats == old(self).stats,
                self.buffer@ == old(self).buffer@,
                self.recv_cache@ == old(self).recv_cache@,
                self.send_cache@ == (CacherView { cache: self.send_cache@.cache, ..cleared(old(self).send_cache@, no, false, self.send_cache.start) }).with_data(data@),
            ensures
                eof == len,
                self.send_cache@.cache == fragment_offsets(len as nat, MAXPACKETLEN as nat),
            decreases len - offset,
        {
            let ghost before = self.send_cache@.cache;
            if MAXPACKETLEN >= len - eof {
                eof = len;
            } else {
                eof = eof + MAXPACKETLEN;
            }
            self.send_cache.cache.insert(offset);
            let ghost prev = offset;
            offset = eof;
            if offset == len {
                assert(self.send_cache@.cache =~= fragment_offsets(len as nat, MAXPACKETLEN as nat)) by {
                    assert forall|o: usize| #[trigger] fragment_offsets(len as nat, MAXPACKETLEN as nat).contains(o)
                        implies self.send_cache@.cache.contains(o) by {
                        if o != prev {
                            assert(o < prev);
                        }
                    }
                }
                break;
            }
            assert(self.send_cache@.cache =~= Set::new(|o: usize| o % MAXPACKETLEN == 0 && o < offset)) by {
                assert forall|o: usize| o % MAXPACKETLEN == 0 && o < offset implies #[trigger] self.send_cache@.cache.contains(o) by {
                    if o != prev {
                        assert(o < prev);
                    }
                }
            }
        }
        self.send_cache.eof = eof;
        self.send_cache.start = precise_now();
        assert(sendable(self.send_cache@));
        let packets = self.send_active();
        self.stats.send_increase();
        packets
    }

    /// One attempt to send: while the outgoing message waits for its
    /// acknowledgement nothing happens; else the oldest queued message is
    /// sent, if there is one.
    pub fn send(&mut self, counter: &mut u32) -> (res: (TrySendResult, Vec<Vec<u8>>))
        requires
            old(self).wf(),
            old(self).send_cache@.complete && old(self).buffer@.len() > 0 ==> {
                &&& *old(counter) < u32::MAX
                &&& old(self).stats.send_count < usize::MAX
                &&& old(self).stats.send_count_for_rate < usize::MAX
            },
        ensures
            final(self).wf(),
            final(self).recv_cache@ == old(self).recv_cache@,
            !old(self).send_cache@.complete ==> {
                &&& res.0 is Active
                &&& res.1@.len() == 0
                &&& final(self).same_as(*old(self))
                &&& *final(counter) == *old(counter)
            },
            old(self).send_cache@.complete && old(self).buffer@.len() == 0 ==> {
                &&& res.0 is Empty
                &&& res.1@.len() == 0
                &&& final(self).same_as(*old(self))
                &&& *final(counter) == *old(counter)
            },
            old(self).send_cache@.complete && old(self).buffer@.len() > 0 ==> {
                &&& res.0 is Active
                &&& final(self).buffer@ == old(self).buffer@.drop_last()
                &&& *final(counter) == *old(counter) + 1
                &&& final(self).send_cache@ == outgoing(
                    *final(counter),
                    old(self).buffer@.last()@,
                    final(self).send_cache.start,
                )
                &&& lists_packets(final(self).send_cache@, res.1@)
                &&& final(self).stats == (Stats {
                    send_count: (old(self).stats.send_count + 1) as usize,
                    send_count_for_rate: (old(self).stats.send_count_for_rate + 1) as usize,
                    ..old(self).stats
                })
            },
    {
        if !self.send_cache.complete {
            return (TrySendResult::Active, Vec::new());
        }
        if let Some(message) = self.buffer.pop_back() {
            let packets = self.send_message(message, counter);
            return (TrySendResult::Active, packets);
        }
        (TrySendResult::Empty, Vec::new())
    }

    /// Takes in the data packet `packet`: starts a new incoming message when
    /// the number differs, copies the payload, records the fragment, and when
    /// the message is complete counts it and hands it over with an
    /// acknowledgement.
    fn handle_data_packet(&mut self, packet: &[u8]) -> (res: ReceiveOutcome)
        requires
            old(self).wf(),
            data_receivable(old(self).recv_cache@, old(self).stats, packet@),
        ensures
            final(self).wf(),
            final(self).recv_cache@ == recv_data_spec(old(self).recv_cache@, packet@, final(self).recv_cache.start),
            final(self).send_cache@ == old(self).send_cache@,
            final(self).buffer@ == old(self).buffer@,
            received(old(self).stats, final(self).stats, final(self).recv_cache@, res),
    {
        let h = decode_data_header(packet);
        if h.msgno != self.recv_cache.msgno {
            self.recv_cache.new_message(h.msgno);
        }
        let end = if (h.len as usize) <= packet.len() - DATA_HEADER_LEN {
            DATA_HEADER_LEN + h.len as usize
        } else {
            packet.len()
        };
        let payload = slice_range(packet, DATA_HEADER_LEN, end);
        proof {
            assert(payload@ =~= data_payload(packet@));
        }
        let _ = self.recv_cache.get_buf(h.offset as usize, payload.as_slice());
        self.recv_cache.end_write(h.offset as usize, h.len as usize, h.flag);
        if self.recv_cache.complete == false {
            return ReceiveOutcome { delivered: None, resp: None };
        }
        self.recv_cache.start = precise_now();
        let message = self.recv_cache.get_message();
        self.stats.receive_increase();
        let resp = self.send_resp();
        ReceiveOutcome { delivered: Some(message), resp: Some(resp) }
    }

    /// Takes in an acknowledgement of the outgoing message.
    fn handle_data_ack(&mut self, packet: &[u8])
        requires
            old(self).wf(),
            ack_readable(packet@),
        ensures
            final(self).wf(),
            final(self).send_cache@ == acked(old(self).send_cache@, packet@, final(self).send_cache.start),
            final(self).recv_cache@ == old(self).recv_cache@,
            final(self).buffer@ == old(self).buffer@,
            final(self).stats == old(self).stats,
    {
        let ack = decode_ack(packet);
        if ack.state == 0 {
            self.send_cache.reset();
        } else if ack.state == 1 {
            let ghost before = self.send_cache@;
            let ghost offs = crate::packet::ack_offsets(packet@);
            let mut i: usize = 0;
            assert(before.cache.difference(listed(offs, 0)) =~= before.cache);
            while i < ack.offsets.len()
                invariant
                    i <= ack.offsets@.len(),
                    ack_readable(packet@),
                    ack_decoded(ack, packet@),
                    packet@[6] == 1,
                    ack.offsets@ == offs,
                    sendable(before),
                    self.send_cache@ == (CacherView {
                        cache: before.cache.difference(
                            listed(offs, i as int),
                        ),
                        ..before
                    }),
                    self.recv_cache@ == old(self).recv_cache@,
                    self.recv_cache@.data.len() == MAXMESSAGELEN,
                    self.buffer@ == old(self).buffer@,
                    self.stats == old(self).stats,
                decreases ack.offsets@.len() - i,
            {
                let offset = ack.offsets[i] as usize;
                self.send_cache.cache.remove(&offset);
                i = i + 1;
                proof {
                    lemma_listed_step(offs, (i - 1) as int);
                    assert(self.send_cache@.cache =~= before.cache.difference(listed(offs, i as int)));
                }
            }
        }
    }
}

impl Connection {
    /// Whether `packet` can be taken in by `on_receive`.
    pub fn can_receive(&self, packet: &[u8]) -> (res: bool)
        ensures
            res == receivable(self.recv_cache@, self.stats, packet@),
    {
        if packet.len() < 2 {
            return false;
        }
        let flag = read_flag(packet);
        if packet_kind(flag) == 0 {
            if packet.len() < DATA_HEADER_LEN {
                return false;
            }
            let h = decode_data_header(packet);
            let c = &self.recv_cache;
            let fresh = h.msgno != c.msgno;
            let dlen = c.data.len();
            let off = h.offset as usize;
            let size = h.len as usize;
            if off > dlen {
                return false;
            }
            let known = if fresh { false } else { c.cache.contains(&off) };
            let seen = if fresh { 0 } else { c.seen };
            let eof = if fresh { 0 } else { c.eof };
            let coff = if fresh { 0 } else { c.offset };
            let complete = if fresh { false } else { c.complete };
            let mut seen2 = seen;
            let mut complete2 = complete;
            if !known {
                if seen > usize::MAX - size {
                    return false;
                }
                if h.flag == DATAEOF && off > usize::MAX - size {
                    return false;
                }
                if off == coff && coff > usize::MAX - size {
                    return false;
                }
                seen2 = seen + size;
                let eof2 = if h.flag == DATAEOF { off + size } else { eof };
                complete2 = eof2 == seen2 || complete;
            }
            if complete2 {
                if seen2 > dlen {
                    return false;
                }
                if self.stats.receive_count == usize::MAX || self.stats.receive_count_for_rate
                    == usize::MAX {
                    return false;
                }
            }
            return true;
        }
        if flag == ACK {
            return ack_is_readable(packet);
        }
        true
    }

    /// Takes in one packet from the peer: data packets feed the incoming
    /// message, acknowledgements the outgoing one; other control packets are
    /// dropped.
    pub fn on_receive(&mut self, packet: &[u8]) -> (res: ReceiveOutcome)
        requires
            old(self).wf(),
            receivable(old(self).recv_cache@, old(self).stats, packet@),
        ensures
            final(self).wf(),
            final(self).buffer@ == old(self).buffer@,
            read16(packet@, 0) / 0x8000 == 0 ==> {
                &&& final(self).recv_cache@ == recv_data_spec(
                    old(self).recv_cache@,
                    packet@,
                    final(self).recv_cache.start,
                )
                &&& final(self).send_cache@ == old(self).send_cache@
                &&& received(old(self).stats, final(self).stats, final(self).recv_cache@, res)
            },
            read16(packet@, 0) == ACK ==> {
                &&& final(self).send_cache@ == acked(
                    old(self).send_cache@,
                    packet@,
                    final(self).send_cache.start,
                )
                &&& final(self).recv_cache@ == old(self).recv_cache@
                &&& final(self).stats == old(self).stats
                &&& res.delivered is None
                &&& res.resp is None
            },
            read16(packet@, 0) / 0x8000 != 0 && read16(packet@, 0) != ACK ==> {
                &&& final(self).same_as(*old(self))
                &&& res.delivered is None
                &&& res.resp is None
            },
    {
        let flag = read_flag(packet);
        let kind = packet_kind(flag);
        if kind == 0 {
            self.handle_data_packet(packet)
        } else {
            if flag == ACK {
                self.handle_data_ack(packet);
            }
            ReceiveOutcome { delivered: None, resp: None }
        }
    }

    /// The periodic check at clock reading `now`: an outgoing message left
    /// unacknowledged too long is sent again, an incoming one left incomplete
    /// too long is acknowledged again, and the rates are reported every
    /// `REPORT_PERIOD` seconds.
    pub fn check_at(&mut self, now: u64) -> (res: CheckOutcome)
        requires
            old(self).wf(),
        ensures
            final(self).wf(),
            checked(*old(self), *final(self), res, now),
    {
        let mut resend: Vec<Vec<u8>> = Vec::new();
        if !self.send_cache.complete {
            if elapsed_over(self.send_cache.start, now, WAITTIME + 1) {
                resend = self.send_active();
                self.send_cache.start = now;
            }
        }
        let mut resp: Option<Vec<u8>> = None;
        if !self.recv_cache.complete {
            if elapsed_over(self.recv_cache.start, now, WAITTIME) {
                resp = Some(self.send_resp());
                self.recv_cache.start = now;
            }
        }
        let mut rates: Option<(usize, usize)> = None;
        if elapsed_over(self.stats.start, now, REPORT_PERIOD) {
            rates = Some(self.stats.show(REPORT_PERIOD as usize));
            self.stats.start = now;
        }
        CheckOutcome { resend, resp, rates }
    }

    /// The periodic check, at the current clock reading.
    pub fn start_check(&mut self) -> (res: CheckOutcome)
        requires
            old(self).wf(),
        ensures
            final(self).wf(),
            exists|now: u64| checked(*old(self), *final(self), res, now),
    {
        let now = precise_now();
        self.check_at(now)
    }
}

/// What a periodic check at `now` does, from `before` to `after`.
pub open spec fn checked(before: Connection, after: Connection, res: CheckOutcome, now: u64) -> bool {
    let resend_due = !before.send_cache@.complete && spec_elapsed_over(
        before.send_cache.start,
        now,
        (WAITTIME + 1) as u64,
    );
    let resp_due = !before.recv_cache@.complete && spec_elapsed_over(
        before.recv_cache.start,
        now,
        WAITTIME,
    );
    let report_due = spec_elapsed_over(before.stats.start, now, REPORT_PERIOD);
    &&& after.buffer@ == before.buffer@
    &&& if resend_due {
        &&& lists_packets(before.send_cache@, res.resend@)
        &&& after.send_cache@ == (CacherView { start: now, ..before.send_cache@ })
    } else {
        &&& res.resend@.len() == 0
        &&& after.send_cache@ == before.send_cache@
    }
    &&& if resp_due {
        &&& res.resp matches Some(a) && answers(before.recv_cache@, a@)
        &&& after.recv_cache@ == (CacherView { start: now, ..before.recv_cache@ })
    } else {
        &&& res.resp is None
        &&& after.recv_cache@ == before.recv_cache@
    }
    &&& if report_due {
        &&& res.rates == Some(
            (
                (before.stats.send_count_for_rate / REPORT_PERIOD as usize) as usize,
                (before.stats.receive_count_for_rate / REPORT_PERIOD as usize) as usize,
            ),
        )
        &&& after.stats.receive_count == before.stats.receive_count
        &&& after.stats.send_count == before.stats.send_count
        &&& after.stats.receive_count_for_rate == 0
        &&& after.stats.send_count_for_rate == 0
        &&& after.stats.start == now
    } else {
        &&& res.rates is None
        &&& after.stats == before.stats
    }
}

/// Rates cover the time since the previous report: when two checks both
/// report and nothing is counted in between, the second reports that no
/// message was sent or received.
pub proof fn lemma_reports_restart(
    a: Connection,
    b: Connection,
    c: Connection,
    r1: CheckOutcome,
    r2: CheckOutcome,
    n1: u64,
    n2: u64,
)
    requires
        checked(a, b, r1, n1),
        checked(b, c, r2, n2),
        r1.rates is Some,
        r2.rates is Some,
    ensures
        r2.rates == Some((0usize, 0usize)),
{
}

/// A report's rates depend on the messages counted since the previous
/// report, not on the totals: two connections that counted the same since
/// their last reports, and report at the same moment, report the same rates,
/// and one that counted nothing since reports zero.
pub proof fn lemma_rates_from_recent_counts(
    a1: Connection,
    b1: Connection,
    r1: CheckOutcome,
    a2: Connection,
    b2: Connection,
    r2: CheckOutcome,
    now: u64,
)
    requires
        checked(a1, b1, r1, now),
        checked(a2, b2, r2, now),
        a1.stats.start == a2.stats.start,
        a1.stats.send_count_for_rate == a2.stats.send_count_for_rate,
        a1.stats.receive_count_for_rate == a2.stats.receive_count_for_rate,
    ensures
        r1.rates == r2.rates,
        r1.rates is Some && a1.stats.send_count_for_rate == 0 && a1.stats.receive_count_for_rate == 0
            ==> r1.rates == Some((0usize, 0usize)),
{
}

/// The counters and the outcome after a data packet left the incoming
/// message `c`: a complete message is counted, handed over as its first
/// `seen` bytes and acknowledged; otherwise nothing happens.
pub open spec fn received(before: Stats, after: Stats, c: CacherView, res: ReceiveOutcome) -> bool {
    if c.complete {
        &&& after == (Stats {
            receive_count: (before.receive_count + 1) as usize,
            receive_count_for_rate: (before.receive_count_for_rate + 1) as usize,
            ..before
        })
        &&& res.delivered matches Some(m) && m@ == c.data.subrange(0, c.seen as int)
        &&& res.resp matches Some(a) && answers(c, a@)
    } else {
        &&& after == before
        &&& res.delivered is None
        &&& res.resp is None
    }
}

/// The bytes `s[start..end]`.
pub fn slice_range(s: &[u8], start: usize, end: usize) -> (res: Vec<u8>)
    requires
        start <= end <= s@.len(),
    ensures
        res@ == s@.subrange(start as int, end as int),
{
    let mut out: Vec<u8> = Vec::new();
    let mut i: usize = start;
    while i < end
        invariant
            start <= i <= end,
            end <= s@.len(),
            out@ == s@.subrange(start as int, i as int),
        decreases end - i,
    {
        out.push(s[i]);
        i = i + 1;
        assert(out@ =~= s@.subrange(start as int, i as int));
    }
    out
}

} // verus!
