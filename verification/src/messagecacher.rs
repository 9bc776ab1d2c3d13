//! The first form of the message state, used by `ENode`: it is made per
//! message number, keeps its buffer to itself, and stops recording offsets
//! once the message is complete.

use std::collections::HashSet;
use vstd::prelude::*;

use crate::clock::precise_now;
use crate::digest::{lower_hex, sha256_digest, sha256_hex};
use crate::net::messagecacher::{write_at, CacherView};
use crate::packet::DATAEOF;

verus! {

broadcast use vstd::std_specs::hash::group_hash_axioms;

/// Size of the buffer of a cacher.
pub const MAXMESSAGELEN: usize = 65536;

/// A message being sent or received.
pub struct MessageCacher {
    pub msgno: u32,
    pub complete: bool,
    /// When the cacher was made, in `precise_now` time.
    pub start: u64,
    pub data: Vec<u8>,
    /// End of the contiguous prefix received from offset 0.
    pub offset: usize,
    /// End of the message, known once its last fragment was written.
    pub eof: usize,
    /// Bytes written so far.
    pub seen: usize,
    /// Offsets of the fragments written before the message was complete.
    pub cache: HashSet<usize>,
}

impl View for MessageCacher {
    type V = CacherView;

    open spec fn view(&self) -> CacherView {
        CacherView {
            msgno: self.msgno,
            complete: self.complete,
            start: self.start,
            data: self.data@,
            offset: self.offset,
            eof: self.eof,
            seen: self.seen,
            cache: self.cache@,
        }
    }
}

/// Whether `end_write` can record a fragment without an arithmetic overflow.
pub open spec fn end_write_fits(c: CacherView, offset: usize, size: usize, flag: u16) -> bool {
    &&& c.seen + size <= usize::MAX
    &&& flag == DATAEOF ==> offset + size <= usize::MAX
    &&& offset == c.offset ==> c.offset + size <= usize::MAX
}

/// What recording a written fragment does: the bytes are counted (a
/// repeated offset too), the last fragment fixes the end, a fragment at the
/// contiguous end extends it; when the end is reached by the bytes seen the
/// message is complete, else the offset is remembered.
pub open spec fn end_write_spec(c: CacherView, offset: usize, size: usize, flag: u16) -> CacherView {
    let seen = (c.seen + size) as usize;
    let eof = if flag == DATAEOF {
        (offset + size) as usize
    } else {
        c.eof
    };
    let off = if offset == c.offset {
        (c.offset + size) as usize
    } else {
        c.offset
    };
    if eof == seen {
        CacherView { complete: true, seen, eof, offset: off, ..c }
    } else {
        CacherView { seen, eof, offset: off, cache: c.cache.insert(offset), ..c }
    }
}

/// Recording a fragment at `offset` of `size` bytes counts its bytes, fixes
/// the end of the message when it is the last one, and either completes the
/// message (the bytes counted reach its end) or adds `offset`, and nothing
/// else, to the recorded offsets; the buffer, number and start are kept.
pub proof fn lemma_end_write_records(c: CacherView, offset: usize, size: usize, flag: u16)
    requires
        end_write_fits(c, offset, size, flag),
    ensures
        ({
            let r = end_write_spec(c, offset, size, flag);
            let eof = if flag == DATAEOF { offset + size } else { c.eof as int };
            &&& r.seen == c.seen + size
            &&& r.eof == eof
            &&& r.complete == (c.complete || eof == c.seen + size)
            &&& eof != c.seen + size ==> r.cache == c.cache.insert(offset)
            &&& eof == c.seen + size ==> r.cache == c.cache
            &&& r.data == c.data
            &&& r.msgno == c.msgno
            &&& r.start == c.start
        }),
{
}

impl MessageCacher {
    /// A fresh incomplete cacher for message `msgno`, with a zeroed buffer
    /// of `MAXMESSAGELEN` bytes.
    pub fn new(msgno: u32) -> (res: MessageCacher)
        ensures
            res@.msgno == msgno,
            !res@.complete,
            res@.offset == 0,
            res@.eof == 0,
            res@.seen == 0,
            res@.cache == Set::<usize>::empty(),
            res@.data.len() == MAXMESSAGELEN,
            forall|i: int| 0 <= i < MAXMESSAGELEN ==> res@.data[i] == 0,
    {
        let cache = HashSet::new();
        let mut data: Vec<u8> = Vec::with_capacity(MAXMESSAGELEN);
        let mut i: usize = 0;
        while i < MAXMESSAGELEN
            invariant
                i <= MAXMESSAGELEN,
                data@.len() == i,
                forall|j: int| 0 <= j < i ==> data@[j] == 0,
            decreases MAXMESSAGELEN - i,
        {
            data.push(0u8);
            i = i + 1;
        }
        MessageCacher {
            msgno,
            complete: false,
            start: precise_now(),
            data,
            offset: 0,
            eof: 0,
            seen: 0,
            cache,
        }
    }

    /// Copies `src` into the buffer from `offset` on, as far as the buffer
    /// reaches, and returns how many bytes were copied.
    pub fn get_buf(&mut self, offset: usize, src: &[u8]) -> (res: usize)
        requires
            offset <= old(self)@.data.len(),
        ensures
            final(self)@ == (CacherView { data: write_at(old(self)@.data, offset as int, src@), ..old(self)@ }),
            res == if src@.len() <= old(self)@.data.len() - offset {
                src@.len()
            } else {
                (old(self)@.data.len() - offset) as nat
            },
    {
        let len = self.data.len();
        let room = len - offset;
        let n = if src.len() <= room { src.len() } else { room };
        let ghost old_data = self.data@;
        let mut i: usize = 0;
        while i < n
            invariant
                i <= n,
                n <= src@.len(),
                offset + n <= old_data.len(),
                len == old_data.len(),
                self.data@.len() == old_data.len(),
                forall|j: int| 0 <= j < offset + i ==> self.data@[j] == if j < offset {
                    old_data[j]
                } else {
                    src@[j - offset]
                },
                forall|j: int| offset + i <= j < old_data.len() ==> self.data@[j] == old_data[j],
                self.msgno == old(self).msgno,
                self.complete == old(self).complete,
                self.start == old(self).start,
                self.offset == old(self).offset,
                self.eof == old(self).eof,
                self.seen == old(self).seen,
                self.cache@ == old(self).cache@,
            decreases n - i,
        {
            self.data.set(offset + i, src[i]);
            i = i + 1;
        }
        assert(self.data@ =~= write_at(old_data, offset as int, src@));
        n
    }

    /// The bytes of the buffer from `offset` up to `eof`.
    pub fn get_data(&self, offset: usize, eof: usize) -> (res: Vec<u8>)
        requires
            offset <= eof <= self@.data.len(),
        ensures
            res@ == self@.data.subrange(offset as int, eof as int),
    {
        let mut out: Vec<u8> = Vec::new();
        let mut i: usize = offset;
        while i < eof
            invariant
                offset <= i <= eof,
                eof <= self@.data.len(),
                out@ == self@.data.subrange(offset as int, i as int),
            decreases eof - i,
        {
            out.push(self.data[i]);
            i = i + 1;
            assert(out@ =~= self@.data.subrange(offset as int, i as int));
        }
        out
    }

    /// Records that `size` bytes were written at `offset`; `flag` tells
    /// whether they end the message.
    pub fn end_write(&mut self, offset: usize, size: usize, flag: u16)
        requires
            end_write_fits(old(self)@, offset, size, flag),
        ensures
            final(self)@ == end_write_spec(old(self)@, offset, size, flag),
            final(self)@.seen == old(self)@.seen + size,
            !final(self)@.complete ==> final(self)@.cache == old(self)@.cache.insert(offset),
    {
        self.seen = self.seen + size;
        if flag == DATAEOF {
            self.eof = offset + size;
        }
        if offset == self.offset {
            self.offset = self.offset + size;
        }
        if self.eof == self.seen {
            self.complete = true;
            return;
        }
        self.cache.insert(offset);
    }

    /// The SHA-256 fingerprint of the whole buffer in lower-case hex.
    pub fn sha256(&self) -> (res: String)
        ensures
            res@ == lower_hex(sha256_digest(self@.data)),
    {
        sha256_hex(self.data.as_slice())
    }

    /// End of the contiguous prefix received from offset 0.
    pub fn gaps(&self) -> (res: usize)
        ensures
            res == self@.offset,
    {
        self.offset
    }

    /// The encoded message: the first `seen` bytes of the buffer.
    pub fn get_message(&self) -> (res: Vec<u8>)
        requires
            self@.seen <= self@.data.len(),
        ensures
            res@ == self@.data.subrange(0, self@.seen as int),
    {
        self.get_data(0, self.seen)
    }

    /// The offsets recorded.
    pub fn get_offsets(&self) -> (res: &HashSet<usize>)
        ensures
            res@ == self@.cache,
    {
        &self.cache
    }

    /// The offsets recorded, to change in place.
    pub fn get_mut_offsets(&mut self) -> (res: &mut HashSet<usize>)
        ensures
            res@ == old(self)@.cache,
            final(self)@ == (CacherView { cache: final(res)@, ..old(self)@ }),
    {
        &mut self.cache
    }
}

} // verus!
