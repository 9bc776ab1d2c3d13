//! What the fragments of a message do at the receiver: delivered in any
//! order, each at least once, they rebuild the message, and the message is
//! complete exactly when every fragment has arrived.

use vstd::prelude::*;

use crate::connection::{
    acked, active_packet, cacher_receivable, fragment_end, fragment_offsets, is_last_fragment,
    listed, outgoing, recv_copied, recv_data_spec, recv_target, recv_written,
};
use crate::enode::{data_acceptable, first_round_packet, fresh, target, written, ENODE_PACKETLEN};
use crate::net::messagecacher::{cleared, end_write_spec, write_at, CacherView, MAXMESSAGELEN};
use crate::packet::{
    ack_bytes, ack_offsets, ack_readable, data_header, data_payload, lemma_ack_roundtrip,
    lemma_data_packet_roundtrip, Packet, DATA, DATAEOF, MAXPACKETLEN,
};

verus! {

/// The number of fragments of `sz` bytes of a message of `len` bytes.
pub open spec fn frag_count(len: nat, sz: nat) -> nat {
    if len == 0 {
        1
    } else {
        ((len + sz - 1) / (sz as int)) as nat
    }
}

/// The length of the fragment at offset `o` of a message of `len` bytes
/// cut into fragments of `sz` bytes.
pub open spec fn frag_len(len: int, o: int, sz: nat) -> int {
    if len - o <= sz {
        len - o
    } else {
        sz as int
    }
}

/// The offset of the last fragment of `sz` bytes of a message of `len` bytes.
pub open spec fn last_offset(len: nat, sz: nat) -> int {
    (frag_count(len, sz) - 1) * sz
}

/// Bytes held by the fragments among the first `k` whose offsets are in `d`.
pub open spec fn delivered_total(len: nat, d: Set<usize>, k: nat, sz: nat) -> int
    decreases k,
{
    if k == 0 {
        0
    } else {
        delivered_total(len, d, (k - 1) as nat, sz) + if d.contains(((k - 1) * sz) as usize) {
            frag_len(len as int, (k - 1) * sz, sz)
        } else {
            0
        }
    }
}

/// A multiple of `sz` lies below `len` exactly when it is one of the first
/// `frag_count` multiples.
pub proof fn lemma_below(len: nat, sz: nat, q: int)
    requires
        len > 0,
        sz > 0,
        q >= 0,
    ensures
        q * sz < len <==> q < frag_count(len, sz),
        frag_count(len, sz) * sz >= len,
        sz * frag_count(len, sz) >= len,
        frag_count(len, sz) >= 1,
{
    let c = (len + sz - 1) / (sz as int);
    let r = (len + sz - 1) % (sz as int);
    assert(len + sz - 1 == sz * c + r && 0 <= r < sz) by (nonlinear_arith)
        requires
            sz > 0,
            c == (len + sz - 1) / (sz as int),
            r == (len + sz - 1) % (sz as int),
    ;
    assert(c >= 1) by (nonlinear_arith)
        requires
            len + sz - 1 == sz * c + r,
            0 <= r < sz,
            len > 0,
    ;
    assert(q * sz < len <==> q < c) by (nonlinear_arith)
        requires
            len + sz - 1 == sz * c + r,
            0 <= r < sz,
            q >= 0,
            sz > 0,
            len > 0,
    ;
    assert(c * sz >= len && sz * c >= len) by (nonlinear_arith)
        requires
            len + sz - 1 == sz * c + r,
            0 <= r < sz,
    ;
}

proof fn lemma_fragment_membership(len: nat, o: usize, sz: nat)
    requires
        0 < sz,
        len <= MAXMESSAGELEN,
    ensures
        fragment_offsets(len, sz).contains(o) <==> ((o as int) % (sz as int) == 0 && (o as int) / (sz as int)
            < frag_count(len, sz)),
        (o as int) % (sz as int) == 0 ==> o == ((o as int) / (sz as int)) * sz,
{
    let q = (o as int) / (sz as int);
    assert(o == q * sz + (o as int) % (sz as int) && q >= 0) by (nonlinear_arith)
        requires
            sz > 0,
            q == (o as int) / (sz as int),
    ;
    if len > 0 {
        lemma_below(len, sz, q);
    } else {
        assert((o as int) % (sz as int) == 0 ==> (o == 0 <==> q < 1)) by (nonlinear_arith)
            requires
                o == q * sz + (o as int) % (sz as int),
                q >= 0,
                sz > 0,
        ;
    }
}

proof fn lemma_last_offset(len: nat, sz: nat)
    requires
        0 < sz,
        len <= MAXMESSAGELEN,
    ensures
        fragment_offsets(len, sz).contains(last_offset(len, sz) as usize),
        0 <= last_offset(len, sz) <= len,
        len - last_offset(len, sz) <= sz,
        last_offset(len, sz) / (sz as int) == frag_count(len, sz) - 1,
        forall|o: usize| #[trigger] fragment_offsets(len, sz).contains(o) ==> (len - o <= sz <==> o
            == last_offset(len, sz)),
{
    let n = frag_count(len, sz);
    let lo = last_offset(len, sz);
    if len > 0 {
        lemma_below(len, sz, 0);
        lemma_below(len, sz, n - 1);
        lemma_below(len, sz, n as int);
    }
    assert(n >= 1);
    assert(lo == (n - 1) * sz);
    assert(0 <= lo && lo / (sz as int) == n - 1 && lo % (sz as int) == 0) by (nonlinear_arith)
        requires
            lo == (n - 1) * sz,
            n >= 1,
            sz > 0,
    ;
    assert(lo <= len && len - lo <= sz) by (nonlinear_arith)
        requires
            lo == (n - 1) * sz,
            len == 0 ==> n == 1,
            len > 0 ==> (n - 1) * sz < len && n * sz >= len,
    ;
    lemma_fragment_membership(len, lo as usize, sz);
    assert forall|o: usize| #[trigger] fragment_offsets(len, sz).contains(o) implies (len - o <= sz
        <==> o == lo) by {
        lemma_fragment_membership(len, o, sz);
        let q = (o as int) / (sz as int);
        if len > 0 {
            lemma_below(len, sz, q + 1);
        }
        assert(len - o <= sz <==> o == lo) by (nonlinear_arith)
            requires
                o == q * sz,
                0 <= q < n,
                lo == (n - 1) * sz,
                len > 0 ==> ((q + 1) * sz < len <==> q + 1 < n),
                len == 0 ==> n == 1,
                len - lo <= sz,
                sz > 0,
        ;
    }
}

/// The `j`-th fragment of a message of `len` bytes starts at `j * sz`, an
/// offset of the message that is not empty when the message is not.
proof fn lemma_slot(len: nat, sz: nat, j: nat)
    requires
        0 < sz,
        len <= MAXMESSAGELEN,
        j < frag_count(len, sz),
    ensures
        0 <= j * sz <= len,
        len > 0 ==> j * sz < len,
        len > 0 ==> frag_len(len as int, (j * sz) as int, sz) > 0,
        len == 0 ==> j == 0 && j * sz == 0,
        sz * j == j * sz,
        sz * (j + 1) == j * sz + sz,
        ((j * sz) as usize) as int == j * sz,
        ((j * sz) as int) % (sz as int) == 0,
        ((j * sz) as int) / (sz as int) == j,
        fragment_offsets(len, sz).contains((j * sz) as usize),
{
    let o = (j * sz) as int;
    assert(0 <= o && o % (sz as int) == 0 && o / (sz as int) == j && sz * j == o && sz * (j + 1) == o + sz)
        by (nonlinear_arith)
        requires
            o == j * sz,
            sz > 0,
    ;
    if len > 0 {
        lemma_below(len, sz, j as int);
    } else {
        assert(o == 0) by (nonlinear_arith)
            requires
                o == j * sz,
                j == 0,
        ;
    }
    lemma_fragment_membership(len, o as usize, sz);
}

proof fn lemma_total_insert(len: nat, d: Set<usize>, o: usize, k: nat, sz: nat)
    requires
        0 < sz,
        len <= MAXMESSAGELEN,
        (o as int) % (sz as int) == 0,
        !d.contains(o),
        k <= frag_count(len, sz),
    ensures
        delivered_total(len, d.insert(o), k, sz) == delivered_total(len, d, k, sz) + if (o as int) / (sz as int)
            < k {
            frag_len(len as int, o as int, sz)
        } else {
            0
        },
    decreases k,
{
    if k > 0 {
        lemma_total_insert(len, d, o, (k - 1) as nat, sz);
        let j = (k - 1) as nat;
        lemma_slot(len, sz, j);
        lemma_fragment_membership(len, o, sz);
        let q = (o as int) / (sz as int);
        assert(j * sz == o <==> q == j) by (nonlinear_arith)
            requires
                o == q * sz,
                sz > 0,
        ;
    }
}

proof fn lemma_frag_len_positive(len: nat, j: nat, sz: nat)
    requires
        0 < sz,
        len > 0,
        j < frag_count(len, sz),
    ensures
        frag_len(len as int, (j * sz) as int, sz) > 0,
        j * sz < len,
{
    lemma_below(len, sz, j as int);
}

proof fn lemma_total_full(len: nat, k: nat, sz: nat)
    requires
        0 < sz,
        len <= MAXMESSAGELEN,
        k <= frag_count(len, sz),
    ensures
        delivered_total(len, fragment_offsets(len, sz), k, sz) == if sz * k <= len {
            (sz * k) as int
        } else {
            len as int
        },
    decreases k,
{
    if k > 0 {
        let j = (k - 1) as nat;
        lemma_total_full(len, j, sz);
        lemma_slot(len, sz, j);
        let o = (j * sz) as int;
        assert(j == k - 1);
        assert(delivered_total(len, fragment_offsets(len, sz), k, sz) == delivered_total(
            len,
            fragment_offsets(len, sz),
            j,
            sz,
        ) + frag_len(len as int, o, sz));
        assert(sz * k == o + sz);
        assert(sz * j == o);
        assert(delivered_total(len, fragment_offsets(len, sz), j, sz) == o);
        if sz * k <= len {
            assert(frag_len(len as int, o, sz) == sz);
        } else {
            assert(frag_len(len as int, o, sz) == len - o);
        }
    } else {
        assert(sz * k == 0) by (nonlinear_arith)
            requires
                k == 0,
        ;
    }
}

proof fn lemma_total_partial(len: nat, d: Set<usize>, k: nat, sz: nat)
    requires
        0 < sz,
        len <= MAXMESSAGELEN,
        len > 0,
        d.subset_of(fragment_offsets(len, sz)),
        k <= frag_count(len, sz),
    ensures
        delivered_total(len, d, k, sz) <= delivered_total(len, fragment_offsets(len, sz), k, sz),
        delivered_total(len, d, k, sz) == delivered_total(len, fragment_offsets(len, sz), k, sz)
            <==> forall|j: nat| j < k ==> #[trigger] d.contains((j * sz) as usize),
        delivered_total(len, d, k, sz) >= 0,
    decreases k,
{
    if k > 0 {
        let j0 = (k - 1) as nat;
        lemma_total_partial(len, d, j0, sz);
        lemma_slot(len, sz, j0);
        if forall|j: nat| j < k ==> #[trigger] d.contains((j * sz) as usize) {
            assert forall|j: nat| j < k - 1 implies #[trigger] d.contains((j * sz) as usize) by {
                assert(j < k);
            }
            assert(d.contains((j0 * sz) as usize));
        } else {
            let j = choose|j: nat| j < k && !#[trigger] d.contains((j * sz) as usize);
            if j < k - 1 {
            } else {
                assert(j == j0);
            }
        }
    }
}

proof fn lemma_complete_set(len: nat, d: Set<usize>, sz: nat)
    requires
        0 < sz,
        len <= MAXMESSAGELEN,
        d.subset_of(fragment_offsets(len, sz)),
    ensures
        d == fragment_offsets(len, sz) <==> forall|j: nat| j < frag_count(len, sz) ==> #[trigger] d.contains(
            (j * sz) as usize,
        ),
{
    if forall|j: nat| j < frag_count(len, sz) ==> #[trigger] d.contains((j * sz) as usize) {
        assert forall|o: usize| fragment_offsets(len, sz).contains(o) implies d.contains(o) by {
            lemma_fragment_membership(len, o, sz);
            let j = ((o as int) / (sz as int)) as nat;
            lemma_slot(len, sz, j);
            assert(d.contains((j * sz) as usize));
        }
        assert(d =~= fragment_offsets(len, sz));
    }
    if d == fragment_offsets(len, sz) {
        assert forall|j: nat| j < frag_count(len, sz) implies #[trigger] d.contains((j * sz) as usize) by {
            lemma_slot(len, sz, j);
        }
    }
}

proof fn lemma_total_positive(len: nat, d: Set<usize>, o: usize, k: nat, sz: nat)
    requires
        0 < sz,
        len <= MAXMESSAGELEN,
        len > 0,
        d.subset_of(fragment_offsets(len, sz)),
        d.contains(o),
        k <= frag_count(len, sz),
        (o as int) / (sz as int) < k,
    ensures
        delivered_total(len, d, k, sz) > 0,
    decreases k,
{
    let j = (k - 1) as nat;
    lemma_fragment_membership(len, o, sz);
    lemma_total_partial(len, d, j, sz);
    lemma_slot(len, sz, j);
    if (o as int) / (sz as int) == k - 1 {
        assert((j * sz) as usize == o);
    } else {
        lemma_total_positive(len, d, o, j, sz);
    }
}


/// The state of an incoming message numbered `msgno` that has taken in the
/// fragments of `m` at the offsets `d`.
pub open spec fn holds_fragments(r: CacherView, d: Set<usize>, msgno: u32, m: Seq<u8>) -> bool {
    let len = m.len();
    let f = fragment_offsets(len, MAXPACKETLEN as nat);
    &&& r.msgno == msgno
    &&& r.data.len() == MAXMESSAGELEN
    &&& d.subset_of(f)
    &&& r.cache == d
    &&& r.seen == delivered_total(len, d, frag_count(len, MAXPACKETLEN as nat), MAXPACKETLEN as nat)
    &&& r.eof == if d.contains(last_offset(len, MAXPACKETLEN as nat) as usize) {
        len as int
    } else {
        0
    }
    &&& r.complete == (d == f)
    &&& r.offset <= len
    &&& forall|o: usize, i: int|
        #![trigger d.contains(o), r.data[i]]
        d.contains(o) && o <= i < o + frag_len(len as int, o as int, MAXPACKETLEN as nat) ==> r.data[i] == m[i]
}

#[verifier::spinoff_prover]
#[verifier::rlimit(60)]
proof fn lemma_packet_fields(msgno: u32, m: Seq<u8>, t0: u64, o: usize)
    requires
        m.len() <= MAXMESSAGELEN,
        fragment_offsets(m.len(), MAXPACKETLEN as nat).contains(o),
    ensures
        ({
            let s = outgoing(msgno, m, t0);
            let p = active_packet(s, o);
            let fl = frag_len(m.len() as int, o as int, MAXPACKETLEN as nat);
            &&& 0 <= fl <= MAXPACKETLEN
            &&& o + fl <= m.len()
            &&& p.len() >= 16
            &&& fragment_end(s, o, MAXPACKETLEN as nat) == o + fl
            &&& data_header(p) == (Packet {
                flag: if o == last_offset(m.len(), MAXPACKETLEN as nat) {
                    DATAEOF
                } else {
                    DATA
                },
                len: fl as u16,
                msgno,
                offset: o as u32,
            })
            &&& (o as u32) as usize == o
            &&& data_payload(p) == m.subrange(o as int, o + fl)
        }),
{
    let s = outgoing(msgno, m, t0);
    lemma_last_offset(m.len(), MAXPACKETLEN as nat);
    lemma_fragment_membership(m.len(), o, MAXPACKETLEN as nat);
    let fl = frag_len(m.len() as int, o as int, MAXPACKETLEN as nat);
    let payload = m.subrange(o as int, fragment_end(s, o, MAXPACKETLEN as nat));
    let flag = if is_last_fragment(s, o, MAXPACKETLEN as nat) {
        DATAEOF
    } else {
        DATA
    };
    lemma_data_packet_roundtrip(flag, msgno, o as u32, 0, payload);
}

proof fn lemma_fragments_apart(len: nat, o1: usize, o2: usize, i: int, sz: nat)
    requires
        0 < sz,
        len <= MAXMESSAGELEN,
        fragment_offsets(len, sz).contains(o1),
        fragment_offsets(len, sz).contains(o2),
        o1 != o2,
        o1 <= i < o1 + frag_len(len as int, o1 as int, sz),
    ensures
        !(o2 <= i < o2 + frag_len(len as int, o2 as int, sz)),
{
    lemma_fragment_membership(len, o1, sz);
    lemma_fragment_membership(len, o2, sz);
    let q1 = (o1 as int) / (sz as int);
    let q2 = (o2 as int) / (sz as int);
    assert(o1 + sz <= o2 || o2 + sz <= o1) by (nonlinear_arith)
        requires
            o1 == q1 * sz,
            o2 == q2 * sz,
            o1 != o2,
            sz > 0,
    ;
}

proof fn lemma_total_bound(len: nat, d: Set<usize>, sz: nat)
    requires
        0 < sz,
        len <= MAXMESSAGELEN,
        d.subset_of(fragment_offsets(len, sz)),
    ensures
        0 <= delivered_total(len, d, frag_count(len, sz), sz) <= len,
{
    if len > 0 {
        lemma_total_partial(len, d, frag_count(len, sz), sz);
        lemma_total_full(len, frag_count(len, sz), sz);
        lemma_below(len, sz, 0);
        assert(sz * frag_count(len, sz) >= len) by (nonlinear_arith)
            requires
                frag_count(len, sz) * sz >= len,
        ;
    } else {
        assert(delivered_total(len, d, 0, sz) == 0);
    }
}

/// Every byte of a message lies in the fragment at the multiple of `sz`
/// below it.
proof fn lemma_covering_fragment(len: nat, i: int, sz: nat)
    requires
        0 < sz,
        len <= MAXMESSAGELEN,
        0 <= i < len,
    ensures
        fragment_offsets(len, sz).contains(((i / (sz as int)) * sz) as usize),
        0 <= (i / (sz as int)) * sz <= i < (i / (sz as int)) * sz + frag_len(len as int, (i / (sz as int)) * sz, sz),
        (((i / (sz as int)) * sz) as usize) as int == (i / (sz as int)) * sz,
{
    let q = i / (sz as int);
    let o = q * sz;
    assert(o <= i < o + sz && q >= 0 && (o as int) % (sz as int) == 0 && (o as int) / (sz as int) == q) by (nonlinear_arith)
        requires
            q == i / (sz as int),
            o == q * sz,
            i >= 0,
            sz > 0,
    ;
    lemma_below(len, sz, q);
    lemma_fragment_membership(len, o as usize, sz);
}

/// Taking in one fragment of `m` keeps the incoming message holding the
/// fragments delivered so far, plus this one.
#[verifier::spinoff_prover]
#[verifier::rlimit(60)]
proof fn lemma_take_fragment(msgno: u32, m: Seq<u8>, t0: u64, r: CacherView, d: Set<usize>, o: usize, t: u64)
    requires
        m.len() <= MAXMESSAGELEN,
        holds_fragments(r, d, msgno, m),
        fragment_offsets(m.len(), MAXPACKETLEN as nat).contains(o),
    ensures
        cacher_receivable(r, active_packet(outgoing(msgno, m, t0), o)),
        holds_fragments(
            recv_data_spec(r, active_packet(outgoing(msgno, m, t0), o), t),
            d.insert(o),
            msgno,
            m,
        ),
{
    let len = m.len();
    let f = fragment_offsets(len, MAXPACKETLEN as nat);
    let s = outgoing(msgno, m, t0);
    let p = active_packet(s, o);
    let fl = frag_len(len as int, o as int, MAXPACKETLEN as nat);
    let last = last_offset(len, MAXPACKETLEN as nat);
    lemma_packet_fields(msgno, m, t0, o);
    lemma_last_offset(len, MAXPACKETLEN as nat);
    lemma_fragment_membership(len, o, MAXPACKETLEN as nat);
    lemma_total_bound(len, d, MAXPACKETLEN as nat);
    let h = data_header(p);
    assert(recv_target(r, h, t) == r);
    let c2 = recv_copied(r, p, t);
    assert(c2.data =~= write_at(r.data, o as int, m.subrange(o as int, o + fl)));
    let c3 = recv_written(r, p, t);
    let d2 = d.insert(o);
    assert forall|o2: usize, i: int| #![trigger d2.contains(o2), c2.data[i]]
        d2.contains(o2) && o2 <= i < o2 + frag_len(len as int, o2 as int, MAXPACKETLEN as nat) implies c2.data[i] == m[i] by {
        if o2 != o {
            lemma_fragments_apart(len, o2, o, i, MAXPACKETLEN as nat);
            assert(d.contains(o2));
            assert(r.data[i] == m[i]);
        }
    }
    if d.contains(o) {
        assert(d2 =~= d);
        assert(c2.data =~= r.data) by {
            assert forall|i: int| 0 <= i < r.data.len() implies c2.data[i] == r.data[i] by {
                if o <= i < o + fl {
                    assert(r.data[i] == m[i]);
                }
            }
        }
    } else {
        lemma_total_insert(len, d, o, frag_count(len, MAXPACKETLEN as nat), MAXPACKETLEN as nat);
        lemma_fragment_membership(len, o, MAXPACKETLEN as nat);
        assert(c3.cache == d2);
        assert(c3.seen == delivered_total(len, d2, frag_count(len, MAXPACKETLEN as nat), MAXPACKETLEN as nat));
        assert(c3.eof == if d2.contains(last as usize) { len as int } else { 0 });
        lemma_complete_set(len, d2, MAXPACKETLEN as nat);
        if len == 0 {
            assert(o == 0);
            assert(d2 =~= f);
            assert(c3.complete);
        } else {
            lemma_total_partial(len, d2, frag_count(len, MAXPACKETLEN as nat), MAXPACKETLEN as nat);
            lemma_total_full(len, frag_count(len, MAXPACKETLEN as nat), MAXPACKETLEN as nat);
            lemma_complete_set(len, d, MAXPACKETLEN as nat);
            if d2.contains(last as usize) {
                assert(c3.complete == (d2 == f));
            } else {
                lemma_total_positive(len, d2, o, frag_count(len, MAXPACKETLEN as nat), MAXPACKETLEN as nat);
                assert(d2 != f);
                assert(!c3.complete);
            }
        }
    }
}


/// The incoming message `r0` after taking in, in order, the packets that
/// carry the fragments of the outgoing message `s` at the offsets `os`;
/// `ts` are the clock readings taken on the way.
pub open spec fn deliver(r0: CacherView, s: CacherView, os: Seq<usize>, ts: Seq<u64>) -> CacherView
    decreases os.len(),
{
    if os.len() == 0 {
        r0
    } else {
        recv_data_spec(
            deliver(r0, s, os.drop_last(), ts.drop_last()),
            active_packet(s, os.last()),
            ts.last(),
        )
    }
}

proof fn lemma_total_empty(len: nat, k: nat, sz: nat)
    ensures
        delivered_total(len, Set::empty(), k, sz) == 0,
    decreases k,
{
    if k > 0 {
        lemma_total_empty(len, (k - 1) as nat, sz);
    }
}

proof fn lemma_deliver(msgno: u32, m: Seq<u8>, t0: u64, r0: CacherView, os: Seq<usize>, ts: Seq<u64>)
    requires
        m.len() <= MAXMESSAGELEN,
        r0.data.len() == MAXMESSAGELEN,
        r0.msgno != msgno,
        os.len() > 0,
        ts.len() == os.len(),
        forall|i: int| 0 <= i < os.len() ==> fragment_offsets(m.len(), MAXPACKETLEN as nat).contains(#[trigger] os[i]),
    ensures
        holds_fragments(deliver(r0, outgoing(msgno, m, t0), os, ts), os.to_set(), msgno, m),
        forall|k: int|
            0 <= k < os.len() ==> cacher_receivable(
                #[trigger] deliver(r0, outgoing(msgno, m, t0), os.take(k), ts.take(k)),
                active_packet(outgoing(msgno, m, t0), os[k]),
            ),
    decreases os.len(),
{
    let s = outgoing(msgno, m, t0);
    let o = os.last();
    let t = ts.last();
    let n = (os.len() - 1) as int;
    assert(os.take(n) =~= os.drop_last());
    assert(ts.take(n) =~= ts.drop_last());
    let prev = os.drop_last();
    let prev_ts = ts.drop_last();
    assert(os =~= prev.push(o));
    assert(os.to_set() =~= prev.to_set().insert(o)) by {
        assert forall|x: usize| os.to_set().contains(x) implies prev.to_set().insert(o).contains(x) by {
            let i = choose|i: int| 0 <= i < os.len() && os[i] == x;
            if i < n {
                assert(prev[i] == x);
            }
        }
        assert forall|x: usize| prev.to_set().insert(o).contains(x) implies os.to_set().contains(x) by {
            if x != o {
                let i = choose|i: int| 0 <= i < prev.len() && prev[i] == x;
                assert(os[i] == x);
            } else {
                assert(os[n] == x);
            }
        }
    }
    if os.len() == 1 {
        assert(prev.to_set() =~= Set::<usize>::empty());
        let c1 = cleared(r0, msgno, false, t);
        let c0 = cleared(r0, msgno, false, r0.start);
        lemma_total_empty(m.len(), frag_count(m.len(), MAXPACKETLEN as nat), MAXPACKETLEN as nat);
        lemma_last_offset(m.len(), MAXPACKETLEN as nat);
        assert(holds_fragments(c1, Set::empty(), msgno, m));
        assert(holds_fragments(c0, Set::empty(), msgno, m));
        lemma_packet_fields(msgno, m, t0, o);
        lemma_take_fragment(msgno, m, t0, c1, Set::empty(), o, t);
        lemma_take_fragment(msgno, m, t0, c0, Set::empty(), o, t);
        let p = active_packet(s, o);
        assert(recv_data_spec(r0, p, t) == recv_data_spec(c1, p, t));
        assert(deliver(r0, s, os, ts) == recv_data_spec(r0, p, t));
        assert(Set::<usize>::empty().insert(o) =~= os.to_set());
        assert(os.take(0) =~= Seq::<usize>::empty());
        assert(ts.take(0) =~= Seq::<u64>::empty());
        assert(deliver(r0, s, os.take(0), ts.take(0)) == r0);
    } else {
        assert forall|i: int| 0 <= i < prev.len() implies fragment_offsets(m.len(), MAXPACKETLEN as nat).contains(
            #[trigger] prev[i],
        ) by {
            assert(prev[i] == os[i]);
        }
        lemma_deliver(msgno, m, t0, r0, prev, prev_ts);
        let r = deliver(r0, s, prev, prev_ts);
        assert(fragment_offsets(m.len(), MAXPACKETLEN as nat).contains(os[n]));
        lemma_take_fragment(msgno, m, t0, r, prev.to_set(), o, t);
        assert forall|k: int| 0 <= k < os.len() implies cacher_receivable(
            #[trigger] deliver(r0, s, os.take(k), ts.take(k)),
            active_packet(s, os[k]),
        ) by {
            if k < n {
                assert(os.take(k) =~= prev.take(k));
                assert(ts.take(k) =~= prev_ts.take(k));
                assert(os[k] == prev[k]);
            }
        }
    }
}

/// The fragments of a message, delivered to an incoming message of another
/// number in any order and each at least once, rebuild the message: every
/// packet is taken in, the incoming message is complete exactly when every
/// fragment has arrived, and it then holds the whole message.
pub proof fn lemma_message_transfer(
    msgno: u32,
    m: Seq<u8>,
    t0: u64,
    r0: CacherView,
    os: Seq<usize>,
    ts: Seq<u64>,
)
    requires
        m.len() <= MAXMESSAGELEN,
        r0.data.len() == MAXMESSAGELEN,
        r0.msgno != msgno,
        os.len() > 0,
        ts.len() == os.len(),
        forall|i: int| 0 <= i < os.len() ==> outgoing(msgno, m, t0).cache.contains(#[trigger] os[i]),
    ensures
        forall|k: int|
            0 <= k < os.len() ==> cacher_receivable(
                #[trigger] deliver(r0, outgoing(msgno, m, t0), os.take(k), ts.take(k)),
                active_packet(outgoing(msgno, m, t0), os[k]),
            ),
        deliver(r0, outgoing(msgno, m, t0), os, ts).msgno == msgno,
        deliver(r0, outgoing(msgno, m, t0), os, ts).complete <==> os.to_set() == outgoing(
            msgno,
            m,
            t0,
        ).cache,
        deliver(r0, outgoing(msgno, m, t0), os, ts).complete ==> {
            &&& deliver(r0, outgoing(msgno, m, t0), os, ts).seen == m.len()
            &&& deliver(r0, outgoing(msgno, m, t0), os, ts).data.subrange(0, m.len() as int) == m
        },
{
    let len = m.len();
    lemma_deliver(msgno, m, t0, r0, os, ts);
    let r = deliver(r0, outgoing(msgno, m, t0), os, ts);
    if r.complete {
        lemma_total_full(len, frag_count(len, MAXPACKETLEN as nat), MAXPACKETLEN as nat);
        if len > 0 {
            lemma_below(len, MAXPACKETLEN as nat, 0);
        }
        assert forall|i: int| 0 <= i < len implies r.data[i] == m[i] by {
            lemma_covering_fragment(len, i, MAXPACKETLEN as nat);
            let o = ((i / (MAXPACKETLEN as int)) * MAXPACKETLEN) as usize;
            assert(os.to_set().contains(o));
        }
        assert(r.data.subrange(0, len as int) =~= m);
    }
}


/// An acknowledgement of an incomplete message makes the sender forget
/// exactly the fragments that the receiver has: what it sends again is
/// what the receiver lacks.
pub proof fn lemma_ack_prunes(s: CacherView, r: CacherView, os: Seq<usize>, t: u64)
    requires
        !r.complete,
        os.no_duplicates(),
        os.to_set() == r.cache,
        os.len() <= u32::MAX,
        forall|o: usize| r.cache.contains(o) ==> o <= u32::MAX,
    ensures
        ack_readable(ack_bytes(r.msgno, false, os.map_values(|o: usize| o as u32))),
        acked(s, ack_bytes(r.msgno, false, os.map_values(|o: usize| o as u32)), t) == (CacherView {
            cache: s.cache.difference(r.cache),
            ..s
        }),
{
    let offs = os.map_values(|o: usize| o as u32);
    let a = ack_bytes(r.msgno, false, offs);
    lemma_ack_roundtrip(r.msgno, false, offs);
    let got = ack_offsets(a);
    assert(got == offs);
    assert(listed(got, got.len() as int) =~= r.cache) by {
        assert forall|o: usize| #[trigger] listed(got, got.len() as int).contains(o) implies r.cache.contains(o) by {
            let j = choose|j: int| 0 <= j < got.len() && #[trigger] got[j] as usize == o;
            assert(os.to_set().contains(os[j]));
        }
        assert forall|o: usize| #[trigger] r.cache.contains(o) implies listed(got, got.len() as int).contains(o) by {
            assert(os.to_set().contains(o));
            let j = choose|j: int| 0 <= j < os.len() && os[j] == o;
            assert(got[j] as usize == o);
        }
    }
}

/// An acknowledgement of a complete message makes the sender idle again,
/// ready for the next message.
pub proof fn lemma_ack_complete(s: CacherView, r: CacherView, offs: Seq<u32>, t: u64)
    requires
        r.complete,
    ensures
        ack_readable(ack_bytes(r.msgno, true, offs)),
        acked(s, ack_bytes(r.msgno, true, offs), t) == cleared(s, 0, true, t),
{
    lemma_ack_roundtrip(r.msgno, true, Seq::empty());
    assert(ack_bytes(r.msgno, true, offs) == ack_bytes(r.msgno, true, Seq::empty()));
}


// ---------------------------------------------------------------------
// The threaded node (`crate::enode`).

/// The packet of the first round that carries the fragment of `m` at `o`.
pub open spec fn round_packet_at(m: Seq<u8>, o: usize) -> Seq<u8> {
    first_round_packet(m, ((o as int) / (ENODE_PACKETLEN as int)) as int)
}

/// A threaded-node cacher for message number 0 that has taken in the
/// fragments of `m` at the offsets `d`, each once.
pub open spec fn enode_holds(c: CacherView, d: Set<usize>, m: Seq<u8>) -> bool {
    let len = m.len();
    let f = fragment_offsets(len, ENODE_PACKETLEN as nat);
    &&& c.msgno == 0
    &&& c.data.len() == MAXMESSAGELEN
    &&& d.subset_of(f)
    &&& c.seen == delivered_total(len, d, frag_count(len, ENODE_PACKETLEN as nat), ENODE_PACKETLEN as nat)
    &&& c.eof == if d.contains(last_offset(len, ENODE_PACKETLEN as nat) as usize) {
        len as int
    } else {
        0
    }
    &&& c.complete == (d == f)
    &&& !c.complete ==> c.cache == d
    &&& c.cache.subset_of(d)
    &&& c.offset <= len
    &&& forall|o: usize, i: int|
        #![trigger d.contains(o), c.data[i]]
        d.contains(o) && o <= i < o + frag_len(len as int, o as int, ENODE_PACKETLEN as nat) ==> c.data[i] == m[i]
}

proof fn lemma_round_packet_fields(m: Seq<u8>, o: usize)
    requires
        m.len() <= MAXMESSAGELEN,
        fragment_offsets(m.len(), ENODE_PACKETLEN as nat).contains(o),
    ensures
        ({
            let p = round_packet_at(m, o);
            let fl = frag_len(m.len() as int, o as int, ENODE_PACKETLEN as nat);
            &&& 0 <= fl <= ENODE_PACKETLEN
            &&& o + fl <= m.len()
            &&& p.len() >= 16
            &&& data_header(p) == (Packet {
                flag: if o == last_offset(m.len(), ENODE_PACKETLEN as nat) {
                    DATAEOF
                } else {
                    DATA
                },
                len: fl as u16,
                msgno: 0,
                offset: o as u32,
            })
            &&& (o as u32) as usize == o
            &&& data_payload(p) == m.subrange(o as int, o + fl)
        }),
{
    let len = m.len();
    lemma_last_offset(len, ENODE_PACKETLEN as nat);
    lemma_fragment_membership(len, o, ENODE_PACKETLEN as nat);
    let k = (o as int) / (ENODE_PACKETLEN as int);
    assert(ENODE_PACKETLEN * k == o);
    assert(k == frag_count(len, ENODE_PACKETLEN as nat) - 1 <==> o == last_offset(len, ENODE_PACKETLEN as nat));
    let fl = frag_len(len as int, o as int, ENODE_PACKETLEN as nat);
    let flag = if k == frag_count(len, ENODE_PACKETLEN as nat) - 1 {
        DATAEOF
    } else {
        DATA
    };
    lemma_data_packet_roundtrip(flag, 0, o as u32, 0, m.subrange(o as int, o + fl));
}

#[verifier::spinoff_prover]
#[verifier::rlimit(60)]
proof fn lemma_enode_take(m: Seq<u8>, c: CacherView, d: Set<usize>, o: usize)
    requires
        m.len() <= MAXMESSAGELEN,
        enode_holds(c, d, m),
        fragment_offsets(m.len(), ENODE_PACKETLEN as nat).contains(o),
        !d.contains(o),
    ensures
        data_acceptable(Some(c), round_packet_at(m, o)),
        enode_holds(written(c, round_packet_at(m, o)), d.insert(o), m),
{
    let len = m.len();
    let f = fragment_offsets(len, ENODE_PACKETLEN as nat);
    let p = round_packet_at(m, o);
    let fl = frag_len(len as int, o as int, ENODE_PACKETLEN as nat);
    let last = last_offset(len, ENODE_PACKETLEN as nat);
    lemma_round_packet_fields(m, o);
    lemma_last_offset(len, ENODE_PACKETLEN as nat);
    lemma_fragment_membership(len, o, ENODE_PACKETLEN as nat);
    lemma_total_bound(len, d, ENODE_PACKETLEN as nat);
    let h = data_header(p);
    assert(target(Some(c), h, 0) == c);
    let c2 = CacherView { data: write_at(c.data, h.offset as int, data_payload(p)), ..c };
    assert(c2.data =~= write_at(c.data, o as int, m.subrange(o as int, o + fl)));
    let c3 = written(c, p);
    let d2 = d.insert(o);
    assert forall|o2: usize, i: int| #![trigger d2.contains(o2), c2.data[i]]
        d2.contains(o2) && o2 <= i < o2 + frag_len(len as int, o2 as int, ENODE_PACKETLEN as nat) implies c2.data[i] == m[i] by {
        if o2 != o {
            lemma_fragments_apart(len, o2, o, i, ENODE_PACKETLEN as nat);
            assert(d.contains(o2));
            assert(c.data[i] == m[i]);
        }
    }
    lemma_total_insert(len, d, o, frag_count(len, ENODE_PACKETLEN as nat), ENODE_PACKETLEN as nat);
    assert(c3.seen == delivered_total(len, d2, frag_count(len, ENODE_PACKETLEN as nat), ENODE_PACKETLEN as nat));
    assert(c3.eof == if d2.contains(last as usize) { len as int } else { 0 });
    lemma_complete_set(len, d2, ENODE_PACKETLEN as nat);
    lemma_complete_set(len, d, ENODE_PACKETLEN as nat);
    if len == 0 {
        assert(o == 0);
        assert(d2 =~= f);
        assert(c3.complete);
    } else {
        lemma_total_partial(len, d2, frag_count(len, ENODE_PACKETLEN as nat), ENODE_PACKETLEN as nat);
        lemma_total_full(len, frag_count(len, ENODE_PACKETLEN as nat), ENODE_PACKETLEN as nat);
        if d2.contains(last as usize) {
            assert(c3.complete == (d2 == f));
        } else {
            lemma_total_positive(len, d2, o, frag_count(len, ENODE_PACKETLEN as nat), ENODE_PACKETLEN as nat);
            assert(d2 != f);
            assert(!c3.complete);
        }
    }
}

/// The threaded-node cacher after the fragments of `m` at the offsets `os`
/// arrived in that order; `t0` is when it was made.
pub open spec fn enode_deliver(m: Seq<u8>, os: Seq<usize>, t0: u64) -> CacherView
    decreases os.len(),
{
    if os.len() == 0 {
        fresh(0, t0)
    } else {
        written(enode_deliver(m, os.drop_last(), t0), round_packet_at(m, os.last()))
    }
}

proof fn lemma_enode_deliver(m: Seq<u8>, os: Seq<usize>, t0: u64)
    requires
        m.len() <= MAXMESSAGELEN,
        os.no_duplicates(),
        forall|i: int| 0 <= i < os.len() ==> fragment_offsets(m.len(), ENODE_PACKETLEN as nat).contains(#[trigger] os[i]),
    ensures
        enode_holds(enode_deliver(m, os, t0), os.to_set(), m),
        forall|k: int|
            0 <= k < os.len() ==> data_acceptable(
                Some(#[trigger] enode_deliver(m, os.take(k), t0)),
                round_packet_at(m, os[k]),
            ),
    decreases os.len(),
{
    if os.len() == 0 {
        lemma_total_empty(m.len(), frag_count(m.len(), ENODE_PACKETLEN as nat), ENODE_PACKETLEN as nat);
        lemma_last_offset(m.len(), ENODE_PACKETLEN as nat);
        assert(os.to_set() =~= Set::<usize>::empty());
        assert(enode_holds(fresh(0, t0), Set::empty(), m));
    } else {
        let n = (os.len() - 1) as int;
        let prev = os.drop_last();
        let o = os.last();
        assert(os.take(n) =~= prev);
        assert(os =~= prev.push(o));
        assert forall|i: int| 0 <= i < prev.len() implies fragment_offsets(m.len(), ENODE_PACKETLEN as nat).contains(
            #[trigger] prev[i],
        ) by {
            assert(prev[i] == os[i]);
        }
        lemma_enode_deliver(m, prev, t0);
        assert(!prev.to_set().contains(o)) by {
            if prev.to_set().contains(o) {
                let i = choose|i: int| 0 <= i < prev.len() && prev[i] == o;
                assert(os[i] == os[n]);
            }
        }
        assert(fragment_offsets(m.len(), ENODE_PACKETLEN as nat).contains(os[n]));
        lemma_enode_take(m, enode_deliver(m, prev, t0), prev.to_set(), o);
        assert(os.to_set() =~= prev.to_set().insert(o)) by {
            assert forall|x: usize| os.to_set().contains(x) implies prev.to_set().insert(o).contains(x) by {
                let i = choose|i: int| 0 <= i < os.len() && os[i] == x;
                if i < n {
                    assert(prev[i] == x);
                }
            }
            assert forall|x: usize| prev.to_set().insert(o).contains(x) implies os.to_set().contains(x) by {
                if x != o {
                    let i = choose|i: int| 0 <= i < prev.len() && prev[i] == x;
                    assert(os[i] == x);
                } else {
                    assert(os[n] == x);
                }
            }
        }
        assert forall|k: int| 0 <= k < os.len() implies data_acceptable(
            Some(#[trigger] enode_deliver(m, os.take(k), t0)),
            round_packet_at(m, os[k]),
        ) by {
            if k < n {
                assert(os.take(k) =~= prev.take(k));
                assert(os[k] == prev[k]);
            }
        }
    }
}

/// In the threaded node, the fragments of a message that each arrive once,
/// in any order, are all taken in; the receiver keeps its cacher while some
/// are missing, completes exactly when the last one arrives, and then holds
/// the message. (A repeated fragment is counted again, so the property is
/// stated for deliveries without repeats.)
#[verifier::spinoff_prover]
#[verifier::rlimit(60)]
pub proof fn lemma_enode_transfer(m: Seq<u8>, os: Seq<usize>, t0: u64)
    requires
        m.len() <= MAXMESSAGELEN,
        os.no_duplicates(),
        forall|i: int| 0 <= i < os.len() ==> fragment_offsets(m.len(), ENODE_PACKETLEN as nat).contains(#[trigger] os[i]),
    ensures
        os.len() > 0 ==> data_acceptable(None, round_packet_at(m, os[0])),
        forall|k: int|
            0 < k < os.len() ==> data_acceptable(
                Some(#[trigger] enode_deliver(m, os.take(k), t0)),
                round_packet_at(m, os[k]),
            ) && !enode_deliver(m, os.take(k), t0).complete && enode_deliver(m, os.take(k), t0).cache
                == os.take(k).to_set(),
        enode_deliver(m, os, t0).complete <==> os.to_set() == fragment_offsets(m.len(), ENODE_PACKETLEN as nat),
        !enode_deliver(m, os, t0).complete ==> enode_deliver(m, os, t0).cache == os.to_set(),
        enode_deliver(m, os, t0).complete ==> {
            &&& enode_deliver(m, os, t0).seen == m.len()
            &&& enode_deliver(m, os, t0).data.subrange(0, m.len() as int) == m
        },
{
    let len = m.len();
    lemma_enode_deliver(m, os, t0);
    if os.len() > 0 {
        assert(os.take(0) =~= Seq::<usize>::empty());
        let h = data_header(round_packet_at(m, os[0]));
        lemma_round_packet_fields(m, os[0]);
        assert(target(None, h, 0) == fresh(0, 0));
        assert(target(Some(fresh(0, t0)), h, 0).data == fresh(0, 0).data);
    }
    assert forall|k: int| 0 < k < os.len() implies !(#[trigger] enode_deliver(m, os.take(k), t0)).complete by {
        let pre = os.take(k);
        assert forall|i: int| 0 <= i < pre.len() implies fragment_offsets(len, ENODE_PACKETLEN as nat).contains(#[trigger] pre[i]) by {
            assert(pre[i] == os[i]);
        }
        assert(pre.no_duplicates()) by {
            assert forall|i: int, j: int| 0 <= i < pre.len() && 0 <= j < pre.len() && i != j implies pre[i] != pre[j] by {
                assert(pre[i] == os[i] && pre[j] == os[j]);
            }
        }
        lemma_enode_deliver(m, pre, t0);
        assert(!pre.to_set().contains(os[k])) by {
            if pre.to_set().contains(os[k]) {
                let i = choose|i: int| 0 <= i < pre.len() && pre[i] == os[k];
                assert(os[i] == os[k]);
            }
        }
        assert(fragment_offsets(len, ENODE_PACKETLEN as nat).contains(os[k]));
        assert(pre.to_set() != fragment_offsets(len, ENODE_PACKETLEN as nat));
    }
    assert forall|k: int| 0 < k < os.len() implies (#[trigger] enode_deliver(m, os.take(k), t0)).cache
        == os.take(k).to_set() by {
        let pre = os.take(k);
        assert forall|i: int| 0 <= i < pre.len() implies fragment_offsets(len, ENODE_PACKETLEN as nat).contains(#[trigger] pre[i]) by {
            assert(pre[i] == os[i]);
        }
        assert(pre.no_duplicates()) by {
            assert forall|i: int, j: int| 0 <= i < pre.len() && 0 <= j < pre.len() && i != j implies pre[i] != pre[j] by {
                assert(pre[i] == os[i] && pre[j] == os[j]);
            }
        }
        lemma_enode_deliver(m, pre, t0);
    }
    let r = enode_deliver(m, os, t0);
    if r.complete {
        lemma_total_full(len, frag_count(len, ENODE_PACKETLEN as nat), ENODE_PACKETLEN as nat);
        if len > 0 {
            lemma_below(len, ENODE_PACKETLEN as nat, 0);
        }
        assert forall|i: int| 0 <= i < len implies r.data[i] == m[i] by {
            lemma_covering_fragment(len, i, ENODE_PACKETLEN as nat);
            let o = ((i / (ENODE_PACKETLEN as int)) * ENODE_PACKETLEN) as usize;
            assert(os.to_set().contains(o));
        }
        assert(r.data.subrange(0, len as int) =~= m);
    }
}


/// The offsets `os` of an acknowledgement, as buffer positions.
pub open spec fn offset_set(os: Seq<u32>) -> Set<usize> {
    os.map_values(|o: u32| o as usize).to_set()
}

/// The threaded node's sender after an acknowledgement framed by the
/// receiver: one of an incomplete message makes it forget exactly the
/// listed offsets, whether or not it still held each of them, and keep all
/// others; one of a complete message makes it forget every offset. Nothing
/// but the offsets changes.
pub proof fn lemma_enode_ack(c: CacherView, msgno: u32, complete: bool, os: Seq<u32>)
    requires
        os.len() <= u32::MAX,
    ensures
        ack_readable(ack_bytes(msgno, complete, os)),
        crate::enode::acked(c, ack_bytes(msgno, complete, os)) == (CacherView {
            cache: if complete {
                Set::empty()
            } else {
                c.cache.difference(offset_set(os))
            },
            ..c
        }),
{
    lemma_ack_roundtrip(msgno, complete, os);
    if !complete {
        let p = ack_bytes(msgno, complete, os);
        assert(ack_offsets(p) == os);
        assert(listed(os, os.len() as int) =~= offset_set(os)) by {
            assert forall|o: usize| #[trigger] listed(os, os.len() as int).contains(o) implies offset_set(
                os,
            ).contains(o) by {
                let j = choose|j: int| 0 <= j < os.len() && #[trigger] os[j] as usize == o;
                let ms = os.map_values(|o: u32| o as usize);
                assert(ms[j] == o);
                assert(ms.contains(o));
            }
            assert forall|o: usize| #[trigger] offset_set(os).contains(o) implies listed(
                os,
                os.len() as int,
            ).contains(o) by {
                let ms = os.map_values(|o: u32| o as usize);
                assert(ms.contains(o));
                let j = choose|j: int| 0 <= j < ms.len() && #[trigger] ms[j] == o;
                assert(os[j] as usize == o);
            }
        }
    }
}

} // verus!
