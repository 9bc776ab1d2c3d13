//! The packet handling of the threaded node (`ENode`): one cacher per
//! peer and direction, kept by the caller in a map keyed by address.

use vstd::prelude::*;

use crate::clock::{elapsed_over, spec_elapsed_over};
use crate::connection::{answers, fragment_end, is_last_fragment, list_offsets, sendable};
use crate::messagecacher::{end_write_fits, end_write_spec, MessageCacher, MAXMESSAGELEN};
use crate::net::messagecacher::{write_at, CacherView};
use crate::packet::{
    ack_bytes, ack_decoded, ack_readable, data_header, data_packet_bytes, data_payload,
    decode_ack, decode_data_header, encode_ack, encode_data_packet, lemma_data_packet_roundtrip,
    Packet, DATA, DATAEOF, DATA_HEADER_LEN,
};
use crate::transfer::{frag_count, frag_len, lemma_below};

verus! {

broadcast use vstd::std_specs::hash::group_hash_axioms;

/// Largest payload of one data packet of the threaded node.
pub const ENODE_PACKETLEN: usize = 2048;

/// The number under which an outgoing message is cached.
pub const SEND_CACHE_MSGNO: u32 = 123;

/// Seconds after which a cached message is framed or acknowledged again.
pub const RECHECK_SECS: u64 = 30;

/// Whether the cacher `message`, made at its `start` reading, is due at the
/// clock reading `now` to be sent or acknowledged again.
pub fn recheck_due(message: &MessageCacher, now: u64) -> (res: bool)
    ensures
        res == spec_elapsed_over(message.start, now, RECHECK_SECS),
{
    elapsed_over(message.start, now, RECHECK_SECS)
}

/// Frames the acknowledgement of `message`.
pub fn send_resp(message: &MessageCacher) -> (res: Vec<u8>)
    ensures
        answers(message@, res@),
{
    let offsets = list_offsets(&message.cache);
    encode_ack(message.msgno, message.complete, &offsets)
}


/// Whether `send_active` can frame the fragments of `message` again.
pub fn can_resend(message: &MessageCacher) -> (res: bool)
    ensures
        res == sendable(message@),
{
    if message.eof > message.data.len() {
        return false;
    }
    let offsets = list_offsets(&message.cache);
    let mut i: usize = 0;
    while i < offsets.len()
        invariant
            i <= offsets@.len(),
            offsets@.to_set() == message@.cache,
            forall|j: int| 0 <= j < i ==> offsets@[j] <= message@.eof,
        decreases offsets@.len() - i,
    {
        if offsets[i] > message.eof {
            assert(offsets@.to_set().contains(offsets@[i as int]));
            return false;
        }
        i = i + 1;
    }
    assert forall|o: usize| message@.cache.contains(o) implies o <= message@.eof by {
        assert(offsets@.to_set().contains(o));
        let j = choose|j: int| 0 <= j < offsets@.len() && offsets@[j] == o;
    }
    true
}

/// Whether one of the first `i + 1` offsets of `os` is that of the last
/// fragment: once the last fragment has been framed, every later packet of
/// the same round carries `DATAEOF` as well.
pub open spec fn eof_seen(c: CacherView, os: Seq<usize>, i: int) -> bool {
    exists|j: int| 0 <= j <= i && #[trigger] is_last_fragment(c, os[j], ENODE_PACKETLEN as nat)
}

/// The packet framed for the `i`-th offset of `os`, under message number 0.
pub open spec fn resent_packet(c: CacherView, os: Seq<usize>, i: int) -> Seq<u8> {
    data_packet_bytes(
        if eof_seen(c, os, i) {
            DATAEOF
        } else {
            DATA
        },
        0,
        os[i] as u32,
        0,
        c.data.subrange(os[i] as int, fragment_end(c, os[i], ENODE_PACKETLEN as nat)),
    )
}

/// Every packet framed again carries exactly the fragment at its offset
/// `o`: the bytes from `o` up to `ENODE_PACKETLEN` further or the end of the
/// message, whichever comes first, with that length in its header, message
/// number 0 and offset `o`; the last fragment (within `ENODE_PACKETLEN` of
/// the end) is flagged `DATAEOF` and ends at the end of the message.
pub proof fn lemma_resent_fragment(c: CacherView, os: Seq<usize>, i: int)
    requires
        sendable(c),
        0 <= i < os.len(),
        c.cache.contains(os[i]),
    ensures
        ({
            let o = os[i];
            let n = if c.eof - o <= ENODE_PACKETLEN {
                c.eof - o
            } else {
                ENODE_PACKETLEN as int
            };
            let p = resent_packet(c, os, i);
            &&& 0 <= n <= ENODE_PACKETLEN
            &&& o + n <= c.eof
            &&& data_header(p).len == n
            &&& data_header(p).msgno == 0
            &&& data_header(p).offset == o as u32
            &&& data_header(p).flag == if eof_seen(c, os, i) {
                DATAEOF
            } else {
                DATA
            }
            &&& data_payload(p) == c.data.subrange(o as int, o + n)
            &&& c.eof - o <= ENODE_PACKETLEN ==> {
                &&& data_header(p).flag == DATAEOF
                &&& o + data_header(p).len == c.eof
            }
        }),
{
    let o = os[i];
    let payload = c.data.subrange(o as int, fragment_end(c, o, ENODE_PACKETLEN as nat));
    let flag = if eof_seen(c, os, i) {
        DATAEOF
    } else {
        DATA
    };
    lemma_data_packet_roundtrip(flag, 0, o as u32, 0, payload);
    if c.eof - o <= ENODE_PACKETLEN {
        assert(is_last_fragment(c, os[i], ENODE_PACKETLEN as nat));
        assert(eof_seen(c, os, i));
    }
}

/// A fragment framed again is the one framed in the first round: when the
/// cacher holds the message `m` up to its end, the packet resent for the
/// offset `ENODE_PACKETLEN * k` carries the same length, offset and bytes as
/// the `k`-th packet of the first round.
#[verifier::spinoff_prover]
#[verifier::rlimit(40)]
pub proof fn lemma_resent_is_first_round(c: CacherView, os: Seq<usize>, i: int, m: Seq<u8>, k: int)
    requires
        sendable(c),
        0 <= i < os.len(),
        c.cache.contains(os[i]),
        c.eof == m.len(),
        c.data.subrange(0, m.len() as int) == m,
        0 <= k,
        os[i] == ENODE_PACKETLEN * k,
    ensures
        data_header(resent_packet(c, os, i)).len == data_header(first_round_packet(m, k)).len,
        data_header(resent_packet(c, os, i)).offset == data_header(first_round_packet(m, k)).offset,
        data_payload(resent_packet(c, os, i)) == data_payload(first_round_packet(m, k)),
{
    let o = os[i];
    let sz = ENODE_PACKETLEN as nat;
    let len = m.len();
    assert(o <= c.eof);
    let n = frag_len(len as int, o as int, sz);
    assert(0 <= n <= ENODE_PACKETLEN && o + n <= len);
    assert(fragment_end(c, o, sz) == o + n);
    let rflag = if eof_seen(c, os, i) {
        DATAEOF
    } else {
        DATA
    };
    let rpayload = c.data.subrange(o as int, o + n);
    lemma_data_packet_roundtrip(rflag, 0, o as u32, 0, rpayload);
    let flag = if k == frag_count(len, sz) - 1 {
        DATAEOF
    } else {
        DATA
    };
    let payload = m.subrange(o as int, o + n);
    lemma_data_packet_roundtrip(flag, 0, o as u32, 0, payload);
    assert(payload =~= rpayload) by {
        assert forall|j: int| 0 <= j < n implies payload[j] == rpayload[j] by {
            assert(c.data.subrange(0, len as int)[o + j] == c.data[o + j]);
        }
    }
    assert(first_round_packet(m, k) == data_packet_bytes(flag, 0, o as u32, 0, payload));
}

/// Frames again every fragment of `message` still recorded, in the order
/// the offsets are listed.
pub fn send_active(message: &MessageCacher) -> (res: Vec<Vec<u8>>)
    requires
        sendable(message@),
    ensures
        exists|os: Seq<usize>|
            {
                &&& os.no_duplicates()
                &&& os.to_set() == message@.cache
                &&& os.len() == res@.len()
                &&& forall|i: int| 0 <= i < os.len() ==> #[trigger] res@[i]@ == resent_packet(message@, os, i)
            },
{
    let offsets = list_offsets(&message.cache);
    let mut out: Vec<Vec<u8>> = Vec::new();
    let mut flags = DATA;
    let mut i: usize = 0;
    while i < offsets.len()
        invariant
            sendable(message@),
            offsets@.to_set() == message@.cache,
            i <= offsets@.len(),
            out@.len() == i,
            flags == if i > 0 && eof_seen(message@, offsets@, i - 1) {
                DATAEOF
            } else {
                DATA
            },
            forall|k: int| 0 <= k < i ==> #[trigger] out@[k]@ == resent_packet(message@, offsets@, k),
        decreases offsets@.len() - i,
    {
        let offset = offsets[i];
        assert(offsets@.to_set().contains(offset));
        let eof;
        if ENODE_PACKETLEN >= message.eof - offset {
            eof = message.eof;
            flags = DATAEOF;
        } else {
            eof = offset + ENODE_PACKETLEN;
        }
        let data = message.get_data(offset, eof);
        let packet = encode_data_packet(flags, 0, offset, 0, data.as_slice());
        proof {
            if is_last_fragment(message@, offsets@[i as int], ENODE_PACKETLEN as nat) {
                assert(eof_seen(message@, offsets@, i as int));
            } else if i > 0 && eof_seen(message@, offsets@, i - 1) {
                let j = choose|j: int| 0 <= j <= i - 1 && #[trigger] is_last_fragment(message@, offsets@[j], ENODE_PACKETLEN as nat);
                assert(eof_seen(message@, offsets@, i as int));
            } else {
                if eof_seen(message@, offsets@, i as int) {
                    let j = choose|j: int| 0 <= j <= i && #[trigger] is_last_fragment(message@, offsets@[j], ENODE_PACKETLEN as nat);
                    assert(j < i);
                    assert(i > 0 && eof_seen(message@, offsets@, i - 1));
                }
            }
        }
        out.push(packet);
        i = i + 1;
    }
    out
}


/// A fresh incomplete cacher for message `msgno` made at clock reading `t`.
pub open spec fn fresh(msgno: u32, t: u64) -> CacherView {
    CacherView {
        msgno,
        complete: false,
        start: t,
        data: Seq::new(MAXMESSAGELEN as nat, |i: int| 0u8),
        offset: 0,
        eof: 0,
        seen: 0,
        cache: Set::empty(),
    }
}

/// The cacher that a data packet with header `h` is written to: the peer's
/// current one, or a fresh one for the packet's number.
pub open spec fn target(entry: Option<CacherView>, h: Packet, t: u64) -> CacherView {
    match entry {
        Some(c) => c,
        None => fresh(h.msgno, t),
    }
}

/// The cacher `c` after the data packet `p` was written into it and recorded.
pub open spec fn written(c: CacherView, p: Seq<u8>) -> CacherView {
    let h = data_header(p);
    end_write_spec(
        CacherView { data: write_at(c.data, h.offset as int, data_payload(p)), ..c },
        h.offset as usize,
        h.len as usize,
        h.flag,
    )
}

/// The view of an optional cacher.
pub open spec fn entry_view(entry: Option<MessageCacher>) -> Option<CacherView> {
    match entry {
        Some(c) => Some(c@),
        None => None,
    }
}

/// The data packet `p` can be written into the peer's cacher `entry`.
pub open spec fn data_acceptable(entry: Option<CacherView>, p: Seq<u8>) -> bool {
    let h = data_header(p);
    let c = target(entry, h, 0);
    &&& p.len() >= DATA_HEADER_LEN
    &&& h.offset <= c.data.len()
    &&& end_write_fits(CacherView { data: write_at(c.data, h.offset as int, data_payload(p)), ..c }, h.offset as usize, h.len as usize, h.flag)
    &&& written(c, p).complete ==> written(c, p).seen <= written(c, p).data.len()
}

/// Whether the data packet `packet` can be written into the peer's cacher
/// `entry` by `handle_data_packet`.
pub fn can_accept(entry: &Option<MessageCacher>, packet: &[u8]) -> (res: bool)
    requires
        entry matches Some(c) ==> c@.data.len() == MAXMESSAGELEN,
    ensures
        res == data_acceptable(entry_view(*entry), packet@),
{
    if packet.len() < DATA_HEADER_LEN {
        return false;
    }
    let h = decode_data_header(packet);
    let (seen, eof, coff, complete) = match entry {
        Some(c) => (c.seen, c.eof, c.offset, c.complete),
        None => (0, 0, 0, false),
    };
    let off = h.offset as usize;
    let size = h.len as usize;
    if off > MAXMESSAGELEN {
        return false;
    }
    if seen > usize::MAX - size {
        return false;
    }
    if h.flag == DATAEOF && off > usize::MAX - size {
        return false;
    }
    if off == coff && coff > usize::MAX - size {
        return false;
    }
    let seen2 = seen + size;
    let eof2 = if h.flag == DATAEOF { off + size } else { eof };
    if (eof2 == seen2 || complete) && seen2 > MAXMESSAGELEN {
        return false;
    }
    true
}

/// What a data packet leaves for the caller.
pub struct DataOutcome {
    /// The peer's cacher to keep; none once its message is complete.
    pub entry: Option<MessageCacher>,
    /// An acknowledgement to send back.
    pub resp: Option<Vec<u8>>,
    /// The encoded message, when the packet completed it.
    pub delivered: Option<Vec<u8>>,
}

/// Takes in a data packet from a peer whose cacher is `entry` (none when
/// the peer has no message in flight): a completed message is handed over
/// with an acknowledgement and its cacher dropped.
pub fn handle_data_packet(entry: Option<MessageCacher>, packet: &[u8]) -> (res: DataOutcome)
    requires
        entry matches Some(c) ==> c@.data.len() == MAXMESSAGELEN,
        data_acceptable(entry_view(entry), packet@),
    ensures
        exists|t: u64|
            {
                let c = written(#[trigger] target(entry_view(entry), data_header(packet@), t), packet@);
                if c.complete {
                    &&& res.entry is None
                    &&& res.resp matches Some(a) && answers(c, a@)
                    &&& res.delivered matches Some(m) && m@ == c.data.subrange(0, c.seen as int)
                } else {
                    &&& res.entry matches Some(e) && e@ == c
                    &&& res.resp is None
                    &&& res.delivered is None
                }
            },
{
    let h = decode_data_header(packet);
    let mut message = match entry {
        Some(c) => c,
        None => MessageCacher::new(h.msgno),
    };
    let ghost t = message.start;
    assert(message@ == target(entry_view(entry), h, t)) by {
        if entry is None {
            assert(message@.data =~= fresh(h.msgno, t).data);
        }
    }
    let end = if (h.len as usize) <= packet.len() - DATA_HEADER_LEN {
        DATA_HEADER_LEN + h.len as usize
    } else {
        packet.len()
    };
    let payload = crate::connection::slice_range(packet, DATA_HEADER_LEN, end);
    assert(payload@ =~= data_payload(packet@));
    let _ = message.get_buf(h.offset as usize, payload.as_slice());
    message.end_write(h.offset as usize, h.len as usize, h.flag);
    if !message.complete {
        return DataOutcome { entry: Some(message), resp: None, delivered: None };
    }
    let resp = send_resp(&message);
    let delivered = message.get_message();
    DataOutcome { entry: None, resp: Some(resp), delivered: Some(delivered) }
}

/// `c` after the acknowledgement `p`: state 0 forgets every offset, state
/// 1 the listed ones.
pub open spec fn acked(c: CacherView, p: Seq<u8>) -> CacherView {
    if p[6] == 0 {
        CacherView { cache: Set::empty(), ..c }
    } else if p[6] == 1 {
        CacherView {
            cache: c.cache.difference(
                crate::connection::listed(
                    crate::packet::ack_offsets(p),
                    crate::packet::ack_offsets(p).len() as int,
                ),
            ),
            ..c
        }
    } else {
        c
    }
}

/// Takes in an acknowledgement for the peer's outgoing cacher `message`.
pub fn handle_data_ack(message: &mut MessageCacher, packet: &[u8])
    requires
        ack_readable(packet@),
    ensures
        final(message)@ == acked(old(message)@, packet@),
{
    let ack = decode_ack(packet);
    if ack.state == 0 {
        message.cache.clear();
    } else if ack.state == 1 {
        let ghost before = message@;
        let ghost offs = crate::packet::ack_offsets(packet@);
        let mut i: usize = 0;
        assert(before.cache.difference(crate::connection::listed(offs, 0)) =~= before.cache);
        while i < ack.offsets.len()
            invariant
                i <= ack.offsets@.len(),
                ack_readable(packet@),
                ack_decoded(ack, packet@),
                packet@[6] == 1,
                ack.offsets@ == offs,
                message@ == (CacherView {
                    cache: before.cache.difference(crate::connection::listed(offs, i as int)),
                    ..before
                }),
            decreases ack.offsets@.len() - i,
        {
            let offset = ack.offsets[i] as usize;
            message.cache.remove(&offset);
            i = i + 1;
            proof {
                crate::connection::lemma_listed_step(offs, (i - 1) as int);
                assert(message@.cache =~= before.cache.difference(crate::connection::listed(offs, i as int)));
            }
        }
    }
}


/// The cacher that an outgoing message is recorded in: the peer's current
/// one, or a fresh one numbered `SEND_CACHE_MSGNO` made at clock reading `t`.
pub open spec fn send_base(entry: Option<CacherView>, t: u64) -> CacherView {
    match entry {
        Some(c) => c,
        None => fresh(SEND_CACHE_MSGNO, t),
    }
}

/// The `k`-th packet of the first round of an outgoing message `data`:
/// message number 0, the last one flagged `DATAEOF`.
pub open spec fn first_round_packet(data: Seq<u8>, k: int) -> Seq<u8> {
    let sz = ENODE_PACKETLEN as nat;
    data_packet_bytes(
        if k == frag_count(data.len(), sz) - 1 {
            DATAEOF
        } else {
            DATA
        },
        0,
        (sz * k) as u32,
        0,
        data.subrange(sz * k, sz * k + frag_len(data.len() as int, sz * k, sz)),
    )
}

proof fn lemma_round(len: nat, k: int)
    requires
        0 <= k,
        ENODE_PACKETLEN * k < len || k == 0,
    ensures
        len - ENODE_PACKETLEN * k <= ENODE_PACKETLEN <==> k == frag_count(len, ENODE_PACKETLEN as nat) - 1,
        k < frag_count(len, ENODE_PACKETLEN as nat),
{
    let sz = ENODE_PACKETLEN as nat;
    if len > 0 {
        lemma_below(len, sz, k);
        lemma_below(len, sz, k + 1);
    }
}

proof fn lemma_next_set(base: Set<usize>, prev: usize)
    requires
        prev % ENODE_PACKETLEN == 0,
        prev + ENODE_PACKETLEN <= usize::MAX,
    ensures
        base.union(Set::new(|o: usize| o % ENODE_PACKETLEN == 0 && o < prev)).insert(prev) =~= base.union(
            Set::new(|o: usize| o % ENODE_PACKETLEN == 0 && o < prev + ENODE_PACKETLEN),
        ),
{
    let a = base.union(Set::new(|o: usize| o % ENODE_PACKETLEN == 0 && o < prev)).insert(prev);
    let b = base.union(Set::new(|o: usize| o % ENODE_PACKETLEN == 0 && o < prev + ENODE_PACKETLEN));
    assert forall|o: usize| #[trigger] b.contains(o) implies a.contains(o) by {
        if !base.contains(o) && o != prev {
            assert(o < prev);
        }
    }
}

proof fn lemma_round_set(base: Set<usize>, len: nat, prev: usize)
    requires
        prev % ENODE_PACKETLEN == 0,
        prev < len || prev == 0,
        len - prev <= ENODE_PACKETLEN,
    ensures
        base.union(Set::new(|o: usize| o % ENODE_PACKETLEN == 0 && o < prev)).insert(prev) =~= base.union(
            crate::connection::fragment_offsets(len, ENODE_PACKETLEN as nat),
        ),
{
    assert forall|o: usize| #[trigger] crate::connection::fragment_offsets(len, ENODE_PACKETLEN as nat).contains(o) && o != prev
        implies o < prev by {}
}

/// Starts sending the encoded message `data` through the peer's cacher
/// `entry` (a new one numbered `SEND_CACHE_MSGNO` when there is none):
/// frames every fragment in order and records their offsets and the end.
#[verifier::spinoff_prover]
#[verifier::rlimit(60)]
pub fn send_message(entry: Option<MessageCacher>, data: &[u8]) -> (res: (MessageCacher, Vec<Vec<u8>>))
    ensures
        exists|t: u64|
            {
                let c = #[trigger] send_base(entry_view(entry), t);
                res.0@ == (CacherView {
                    cache: c.cache.union(crate::connection::fragment_offsets(data@.len(), ENODE_PACKETLEN as nat)),
                    eof: data@.len() as usize,
                    ..c
                })
            },
        res.1@.len() == frag_count(data@.len(), ENODE_PACKETLEN as nat),
        forall|k: int| 0 <= k < res.1@.len() ==> #[trigger] res.1@[k]@ == first_round_packet(data@, k),
{
    let mut cache = match entry {
        Some(c) => c,
        None => MessageCacher::new(SEND_CACHE_MSGNO),
    };
    let ghost t = cache.start;
    let ghost c0 = cache@;
    assert(c0 == send_base(entry_view(entry), t)) by {
        if entry is None {
            assert(cache@.data =~= fresh(SEND_CACHE_MSGNO, t).data);
        }
    }
    let len = data.len();
    let mut offset: usize = 0;
    let mut eof: usize = 0;
    let mut flags = DATA;
    let mut out: Vec<Vec<u8>> = Vec::new();
    assert(c0.cache.union(Set::new(|o: usize| o % ENODE_PACKETLEN == 0 && o < 0)) =~= c0.cache);
    loop
        invariant_except_break
            offset == eof,
            offset == ENODE_PACKETLEN * out@.len(),
            offset < len || out@.len() == 0,
            flags == DATA,
            cache@ == (CacherView {
                cache: c0.cache.union(Set::new(|o: usize| o % ENODE_PACKETLEN == 0 && o < offset)),
                ..c0
            }),
        invariant
            len == data@.len(),
            forall|k: int| 0 <= k < out@.len() ==> #[trigger] out@[k]@ == first_round_packet(data@, k),
        ensures
            eof == len,
            cache@ == (CacherView {
                cache: c0.cache.union(crate::connection::fragment_offsets(len as nat, ENODE_PACKETLEN as nat)),
                ..c0
            }),
            out@.len() == frag_count(len as nat, ENODE_PACKETLEN as nat),
        decreases len - offset,
    {
        let ghost k = out@.len() as int;
        proof {
            lemma_round(len as nat, k);
        }
        if ENODE_PACKETLEN >= len - eof {
            eof = len;
            flags = DATAEOF;
        } else {
            eof = eof + ENODE_PACKETLEN;
        }
        let chunk = crate::connection::slice_range(data, offset, eof);
        let packet = encode_data_packet(flags, 0, offset, 0, chunk.as_slice());
        assert(packet@ == first_round_packet(data@, k));
        out.push(packet);
        cache.cache.insert(offset);
        let ghost prev = offset;
        offset = eof;
        if offset == len {
            proof {
                lemma_round_set(c0.cache, len as nat, prev);
            }
            break;
        }
        proof {
            lemma_next_set(c0.cache, prev);
        }
    }
    cache.eof = eof;
    (cache, out)
}

} // verus!
