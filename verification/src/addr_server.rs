//! The address book of a node: who announced which address, and whom to
//! tell about a new one.

use std::collections::HashMap;
use vstd::prelude::*;
use vstd::std_specs::hash::{axiom_spec_hash_map_iter, spec_hash_map_iter};
use vstd::std_specs::iter::IteratorSpec;

use crate::message::{Message, MSGTYPE, NODEIDTYPE, ADDRMESSAGE};

verus! {

broadcast use vstd::std_specs::hash::group_hash_axioms;

/// Subtype of a node announcing its own address (taken from the packet).
pub const PUT_ME: MSGTYPE = 0;

/// Subtype of a message carrying another node's address in its payload.
pub const PUT_OTH: MSGTYPE = 1;

/// The announcement of node `node_id`'s own address.
pub fn new_message_my(node_id: NODEIDTYPE) -> (res: Message)
    ensures
        res.sendid == node_id,
        res.recvid == 0,
        res.taskid == 0,
        res.mstype == ADDRMESSAGE,
        res.subtype == PUT_ME,
        res.msglen == 0,
        res.msgdata@ == Seq::<u8>::empty(),
{
    Message {
        sendid: node_id,
        recvid: 0,
        taskid: 0,
        mstype: ADDRMESSAGE,
        subtype: PUT_ME,
        msglen: 0,
        msgdata: Vec::new(),
    }
}

/// Whether an address message carries the address in its payload rather
/// than announcing the sender's own.
pub fn carries_addr(subtype: MSGTYPE) -> (res: bool)
    ensures
        res == (subtype == PUT_OTH),
{
    subtype == PUT_OTH
}

/// The addresses of the known nodes, by node identifier.
pub struct AddrServer<A> {
    addrs: HashMap<NODEIDTYPE, A>,
}

/// `peers` holds the address of every known node but `sendid`, once each,
/// in some order.
pub open spec fn lists_peers<A>(table: Map<NODEIDTYPE, A>, sendid: NODEIDTYPE, peers: Seq<A>) -> bool {
    exists|ks: Seq<NODEIDTYPE>|
        {
            &&& ks.no_duplicates()
            &&& ks.to_set() == table.dom().remove(sendid)
            &&& ks.len() == peers.len()
            &&& forall|i: int| 0 <= i < ks.len() ==> #[trigger] peers[i] == table[ks[i]]
        }
}

impl<A: Copy> AddrServer<A> {
    /// The known addresses.
    pub closed spec fn table(&self) -> Map<NODEIDTYPE, A> {
        self.addrs@
    }

    /// An empty address book.
    pub fn new() -> (res: Self)
        ensures
            res.table() == Map::<NODEIDTYPE, A>::empty(),
    {
        AddrServer { addrs: HashMap::new() }
    }

    /// A message telling `recvid` about another node's address, whose
    /// encoding is `data`.
    pub fn new_message(&self, sendid: NODEIDTYPE, recvid: NODEIDTYPE, data: Vec<u8>) -> (res: Message)
        ensures
            res.sendid == sendid,
            res.recvid == recvid,
            res.taskid == 0,
            res.mstype == ADDRMESSAGE,
            res.subtype == PUT_OTH,
            res.msglen == data@.len() as u16,
            res.msgdata@ == data@,
    {
        let msglen = data.len() as u16;
        Message {
            sendid,
            recvid,
            taskid: 0,
            mstype: ADDRMESSAGE,
            subtype: PUT_OTH,
            msglen,
            msgdata: data,
        }
    }

    /// Records that node `sendid` is at `addr` and returns the addresses of
    /// every other known node, to tell them.
    pub fn exec(&mut self, sendid: NODEIDTYPE, addr: A) -> (res: Vec<A>)
        ensures
            final(self).table() == old(self).table().insert(sendid, addr),
            lists_peers(final(self).table(), sendid, res@),
    {
        self.addrs.insert(sendid, addr);
        let ghost m = self.addrs@;
        let mut out: Vec<A> = Vec::new();
        let ghost mut ks: Seq<NODEIDTYPE> = Seq::empty();
        let ghost v = spec_hash_map_iter(&self.addrs).remaining();
        let ghost mut n: int = 0;
        proof {
            axiom_spec_hash_map_iter(&self.addrs);
        }
        for pair in it: self.addrs.iter()
            invariant
                m == self.addrs@,
                it.seq() == v,
                n == it.index(),
                v == spec_hash_map_iter(&self.addrs).remaining(),
                out@.len() == ks.len(),
                v.no_duplicates(),
                forall|i: int| 0 <= i < ks.len() ==> m.contains_key(#[trigger] ks[i]),
                ks.no_duplicates(),
                forall|i: int| 0 <= i < ks.len() ==> #[trigger] out@[i] == m[ks[i]],
                forall|k: NODEIDTYPE| #[trigger] ks.contains(k) <==> (k != sendid && exists|j: int|
                    0 <= j < n && *v[j].0 == k),
        {
            let (k, val) = pair;
            let ghost old_ks = ks;
            proof {
                assert(pair == v[n]);
                assert(*k == *v[n].0);
                assert(m.contains_key(*v[n].0) && m[*v[n].0] == *v[n].1);
                if *k != sendid && old_ks.contains(*k) {
                    let j2 = choose|j2: int| 0 <= j2 < n && *v[j2].0 == *k;
                    assert(m[*v[j2].0] == *v[j2].1);
                    assert(v[j2] == v[n]);
                }
            }
            if *k != sendid {
                out.push(*val);
                proof {
                    ks = ks.push(*k);
                }
            }
            proof {
                assert forall|x: NODEIDTYPE| #[trigger] ks.contains(x) <==> (x != sendid && exists|j: int|
                    0 <= j < n + 1 && *v[j].0 == x) by {
                    if ks.contains(x) {
                        if !old_ks.contains(x) {
                            assert(x == *k);
                            assert(*v[n].0 == x);
                        }
                    }
                    if x != sendid && exists|j: int| 0 <= j < n + 1 && *v[j].0 == x {
                        let j = choose|j: int| 0 <= j < n + 1 && *v[j].0 == x;
                        if j < n {
                            assert(old_ks.contains(x));
                            assert(ks.contains(x)) by {
                                let i = choose|i: int| 0 <= i < old_ks.len() && old_ks[i] == x;
                                assert(ks[i] == x);
                            }
                        } else {
                            assert(ks.last() == x);
                        }
                    }
                }
                n = n + 1;
            }
        }
        assert(n == v.len());
        proof {
            assert(ks.to_set() =~= m.dom().remove(sendid)) by {
                assert forall|x: NODEIDTYPE| #[trigger] m.dom().remove(sendid).contains(x) implies ks.contains(x) by {
                    assert(m.contains_key(x));
                    assert(v.contains((&x, &m[x])));
                    let j = choose|j: int| 0 <= j < v.len() && v[j] == (&x, &m[x]);
                    assert(*v[j].0 == x);
                }
                assert forall|x: NODEIDTYPE| ks.contains(x) implies #[trigger] m.dom().remove(sendid).contains(x) by {
                    let j = choose|j: int| 0 <= j < n && *v[j].0 == x;
                    assert(m.contains_key(*v[j].0));
                }
            }
        }
        out
    }
}

} // verus!
