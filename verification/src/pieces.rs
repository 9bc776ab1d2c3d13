//! A message cut into pieces of any sizes rebuilds itself in a cacher of
//! the polling node: each piece copied in with `get_buf` and recorded with
//! `end_write`, in any order and as often as it comes, leaves the cacher
//! complete exactly when every piece has come, and the message is then the
//! first `seen` bytes of its buffer, what `get_message` returns.

use vstd::prelude::*;

use crate::net::messagecacher::{cleared, end_write_fits, end_write_spec, write_at, CacherView, MAXMESSAGELEN};
use crate::packet::{DATA, DATAEOF};

verus! {

/// Where the `i`-th of the pieces `sizes` starts: the sum of the sizes
/// before it.
pub open spec fn piece_start(sizes: Seq<usize>, i: int) -> int
    decreases i,
{
    if i <= 0 {
        0
    } else {
        piece_start(sizes, i - 1) + sizes[i - 1]
    }
}

/// `sizes` cuts a message of `len` bytes into pieces that follow each
/// other from offset 0 to `len`; no piece is empty, unless the message is
/// empty and is its single empty piece.
pub open spec fn cuts(sizes: Seq<usize>, len: nat) -> bool {
    &&& sizes.len() > 0
    &&& piece_start(sizes, sizes.len() as int) == len
    &&& (forall|i: int| 0 <= i < sizes.len() ==> #[trigger] sizes[i] > 0) || (len == 0 && sizes.len()
        == 1)
}

/// The flags that the `i`-th piece of `d` is recorded with: `DATAEOF` when
/// it ends the message.
pub open spec fn piece_flag(d: Seq<u8>, sizes: Seq<usize>, i: int) -> u16 {
    if piece_start(sizes, i) + sizes[i] == d.len() {
        DATAEOF
    } else {
        DATA
    }
}

/// The calls that write the `i`-th piece of `d` into `c` meet their
/// preconditions: `get_buf` at an offset in the buffer, and `end_write`
/// without an overflow.
pub open spec fn piece_fits(c: CacherView, d: Seq<u8>, sizes: Seq<usize>, i: int) -> bool {
    let o = piece_start(sizes, i);
    &&& o <= c.data.len()
    &&& end_write_fits(
        CacherView { data: write_at(c.data, o, d.subrange(o, o + sizes[i])), ..c },
        o as usize,
        sizes[i],
        piece_flag(d, sizes, i),
    )
}

/// `c` after the `i`-th piece of `d` was copied in with `get_buf` and
/// recorded with `end_write`.
pub open spec fn piece_written(c: CacherView, d: Seq<u8>, sizes: Seq<usize>, i: int) -> CacherView {
    let o = piece_start(sizes, i);
    end_write_spec(
        CacherView { data: write_at(c.data, o, d.subrange(o, o + sizes[i])), ..c },
        o as usize,
        sizes[i],
        piece_flag(d, sizes, i),
    )
}

/// `c` after the pieces of `d` numbered by `order` were written, in that
/// order.
pub open spec fn pieces_written(c: CacherView, d: Seq<u8>, sizes: Seq<usize>, order: Seq<int>) -> CacherView
    decreases order.len(),
{
    if order.len() == 0 {
        c
    } else {
        piece_written(pieces_written(c, d, sizes, order.drop_last()), d, sizes, order.last())
    }
}

/// The bytes of the pieces among the first `k` whose numbers are in `ds`.
pub open spec fn pieces_total(sizes: Seq<usize>, ds: Set<int>, k: int) -> int
    decreases k,
{
    if k <= 0 {
        0
    } else {
        pieces_total(sizes, ds, k - 1) + if ds.contains(k - 1) {
            sizes[k - 1] as int
        } else {
            0
        }
    }
}

/// The offsets of the pieces numbered in `ds`.
pub open spec fn piece_offsets(sizes: Seq<usize>, ds: Set<int>) -> Set<usize> {
    Set::new(|o: usize| exists|i: int| #[trigger] ds.contains(i) && piece_start(sizes, i) == o)
}

/// A cacher that has taken in the pieces of `d` numbered in `ds`.
pub open spec fn holds_pieces(c: CacherView, c0: CacherView, d: Seq<u8>, sizes: Seq<usize>, ds: Set<int>) -> bool {
    let n = sizes.len() as int;
    &&& c.msgno == c0.msgno
    &&& c.start == c0.start
    &&& c.data.len() == MAXMESSAGELEN
    &&& forall|i: int| #[trigger] ds.contains(i) ==> 0 <= i < n
    &&& c.cache == piece_offsets(sizes, ds)
    &&& c.seen == pieces_total(sizes, ds, n)
    &&& c.eof == if ds.contains(n - 1) {
        d.len() as int
    } else {
        0
    }
    &&& c.complete == (forall|i: int| 0 <= i < n ==> #[trigger] ds.contains(i))
    &&& c.offset <= d.len()
    &&& forall|i: int, j: int|
        #![trigger ds.contains(i), c.data[j]]
        ds.contains(i) && piece_start(sizes, i) <= j < piece_start(sizes, i) + sizes[i] ==> c.data[j]
            == d[j]
}

proof fn lemma_start_nonneg(sizes: Seq<usize>, i: int)
    ensures
        0 <= piece_start(sizes, i),
    decreases i,
{
    if i > 0 {
        lemma_start_nonneg(sizes, i - 1);
    }
}

proof fn lemma_start_mono(sizes: Seq<usize>, i: int, j: int)
    requires
        0 <= i <= j <= sizes.len(),
    ensures
        0 <= piece_start(sizes, i) <= piece_start(sizes, j),
        (forall|k: int| 0 <= k < sizes.len() ==> #[trigger] sizes[k] > 0) && i < j ==> piece_start(
            sizes,
            i,
        ) + sizes[i] <= piece_start(sizes, j),
    decreases j - i,
{
    lemma_start_nonneg(sizes, i);
    if i < j {
        lemma_start_mono(sizes, i, j - 1);
    }
}

proof fn lemma_total_empty(sizes: Seq<usize>, k: int)
    ensures
        pieces_total(sizes, Set::empty(), k) == 0,
    decreases k,
{
    if k > 0 {
        lemma_total_empty(sizes, k - 1);
    }
}

proof fn lemma_total_insert(sizes: Seq<usize>, ds: Set<int>, i: int, k: int)
    requires
        !ds.contains(i),
    ensures
        pieces_total(sizes, ds.insert(i), k) == pieces_total(sizes, ds, k) + if 0 <= i < k {
            sizes[i] as int
        } else {
            0
        },
    decreases k,
{
    if k > 0 {
        lemma_total_insert(sizes, ds, i, k - 1);
    }
}

proof fn lemma_total_bounds(sizes: Seq<usize>, ds: Set<int>, k: int)
    requires
        0 <= k <= sizes.len(),
    ensures
        0 <= pieces_total(sizes, ds, k) <= piece_start(sizes, k),
        pieces_total(sizes, ds, k) == piece_start(sizes, k) <== (forall|i: int| 0 <= i < k ==> #[trigger] ds.contains(i)),
        (forall|i: int| 0 <= i < sizes.len() ==> #[trigger] sizes[i] > 0) && pieces_total(sizes, ds, k)
            == piece_start(sizes, k) ==> (forall|i: int| 0 <= i < k ==> #[trigger] ds.contains(i)),
        (forall|i: int| 0 <= i < sizes.len() ==> #[trigger] sizes[i] > 0) ==> (forall|i: int|
            0 <= i < k && #[trigger] ds.contains(i) ==> pieces_total(sizes, ds, k) > 0),
    decreases k,
{
    if k > 0 {
        lemma_total_bounds(sizes, ds, k - 1);
        if (forall|i: int| 0 <= i < sizes.len() ==> #[trigger] sizes[i] > 0) && pieces_total(sizes, ds, k)
            == piece_start(sizes, k) {
            assert forall|i: int| 0 <= i < k implies #[trigger] ds.contains(i) by {
                if !ds.contains(k - 1) {
                    assert(sizes[k - 1] > 0);
                }
                if i < k - 1 {
                    assert(ds.contains(k - 1));
                }
            }
        }
        if forall|i: int| 0 <= i < k ==> #[trigger] ds.contains(i) {
            assert forall|i: int| 0 <= i < k - 1 implies #[trigger] ds.contains(i) by {
                assert(0 <= i < k);
            }
            assert(ds.contains(k - 1));
        }
    }
}

/// Every byte of the message lies in one of the first `k` pieces, when it
/// lies below the start of the `k`-th.
proof fn lemma_covered(sizes: Seq<usize>, k: int, j: int)
    requires
        0 <= k <= sizes.len(),
        0 <= j < piece_start(sizes, k),
    ensures
        exists|i: int| 0 <= i < k && #[trigger] piece_start(sizes, i) <= j < piece_start(sizes, i) + sizes[i],
    decreases k,
{
    if j < piece_start(sizes, k - 1) {
        lemma_covered(sizes, k - 1, j);
        let i = choose|i: int| 0 <= i < k - 1 && #[trigger] piece_start(sizes, i) <= j < piece_start(sizes, i) + sizes[i];
        assert(0 <= i < k);
    } else {
        assert(piece_start(sizes, k - 1) <= j < piece_start(sizes, k - 1) + sizes[k - 1]);
    }
}

proof fn lemma_piece_step(c: CacherView, c0: CacherView, d: Seq<u8>, sizes: Seq<usize>, ds: Set<int>, i: int)
    requires
        d.len() <= MAXMESSAGELEN,
        cuts(sizes, d.len()),
        holds_pieces(c, c0, d, sizes, ds),
        0 <= i < sizes.len(),
    ensures
        piece_fits(c, d, sizes, i),
        holds_pieces(piece_written(c, d, sizes, i), c0, d, sizes, ds.insert(i)),
{
    let n = sizes.len() as int;
    let len = d.len();
    let o = piece_start(sizes, i);
    let s = sizes[i];
    let positive = forall|k: int| 0 <= k < sizes.len() ==> #[trigger] sizes[k] > 0;
    lemma_start_mono(sizes, i, i + 1);
    lemma_start_mono(sizes, i + 1, n);
    lemma_total_bounds(sizes, ds, n);
    assert(0 <= o && o + s <= len);
    assert(o + s == len <==> i == n - 1) by {
        if i < n - 1 && positive {
            lemma_start_mono(sizes, i + 1, n);
        }
    }
    let c1 = CacherView { data: write_at(c.data, o, d.subrange(o, o + s)), ..c };
    let d2 = ds.insert(i);
    let c2 = piece_written(c, d, sizes, i);
    assert forall|j: int| 0 <= j < c.data.len() implies c1.data[j] == if o <= j < o + s {
        d[j]
    } else {
        c.data[j]
    } by {}
    assert(c1.data.len() == c.data.len());
    if ds.contains(i) {
        assert(c.cache.contains(o as usize));
        assert(c1.data =~= c.data) by {
            assert forall|j: int| 0 <= j < c.data.len() implies c1.data[j] == c.data[j] by {
                if o <= j < o + s {
                    assert(c.data[j] == d[j]);
                }
            }
        }
        assert(d2 =~= ds);
        assert(c2 == c);
    } else {
        assert(!c.cache.contains(o as usize)) by {
            if c.cache.contains(o as usize) {
                let i2 = choose|i2: int| #[trigger] ds.contains(i2) && piece_start(sizes, i2) == o as usize;
                if positive {
                    if i2 < i {
                        lemma_start_mono(sizes, i2, i);
                    } else if i < i2 {
                        lemma_start_mono(sizes, i, i2);
                    }
                } else {
                    assert(i2 == 0 && i == 0);
                }
            }
        }
        lemma_total_insert(sizes, ds, i, n);
        lemma_total_bounds(sizes, d2, n);
        assert(c2.cache =~= piece_offsets(sizes, d2)) by {
            assert forall|x: usize| #[trigger] piece_offsets(sizes, d2).contains(x) implies c2.cache.contains(x) by {
                let i2 = choose|i2: int| #[trigger] d2.contains(i2) && piece_start(sizes, i2) == x;
                if i2 != i {
                    assert(ds.contains(i2));
                    assert(piece_offsets(sizes, ds).contains(x));
                }
            }
            assert forall|x: usize| #[trigger] c2.cache.contains(x) implies piece_offsets(sizes, d2).contains(x) by {
                if x != o as usize {
                    let i2 = choose|i2: int| #[trigger] ds.contains(i2) && piece_start(sizes, i2) == x;
                    assert(d2.contains(i2));
                } else {
                    assert(d2.contains(i));
                }
            }
        }
        let all2 = forall|k: int| 0 <= k < n ==> #[trigger] d2.contains(k);
        let all1 = forall|k: int| 0 <= k < n ==> #[trigger] ds.contains(k);
        assert(!all1);
        if all2 {
            assert(d2.contains(n - 1));
            assert(c2.eof == len && c2.seen == len);
        } else {
            if positive {
                if d2.contains(n - 1) {
                    assert(c2.seen != len);
                } else {
                    assert(d2.contains(i) && 0 <= i < n);
                    assert(c2.seen > 0);
                }
            } else {
                assert(d2.contains(0));
                assert(all2);
            }
            assert(!c2.complete);
        }
        assert forall|i2: int, j: int|
            #![trigger d2.contains(i2), c2.data[j]]
            d2.contains(i2) && piece_start(sizes, i2) <= j < piece_start(sizes, i2) + sizes[i2]
                implies c2.data[j] == d[j] by {
            lemma_start_mono(sizes, i2, i2 + 1);
            lemma_start_mono(sizes, i2 + 1, n);
            if !(o <= j < o + s) {
                assert(ds.contains(i2));
                assert(c.data[j] == d[j]);
            }
        }
    }
}

proof fn lemma_pieces_written(c0: CacherView, d: Seq<u8>, sizes: Seq<usize>, order: Seq<int>)
    requires
        d.len() <= MAXMESSAGELEN,
        cuts(sizes, d.len()),
        c0.data.len() == MAXMESSAGELEN,
        c0 == cleared(c0, c0.msgno, false, c0.start),
        forall|k: int| 0 <= k < order.len() ==> 0 <= #[trigger] order[k] < sizes.len(),
    ensures
        holds_pieces(pieces_written(c0, d, sizes, order), c0, d, sizes, order.to_set()),
        forall|k: int|
            0 <= k < order.len() ==> piece_fits(
                #[trigger] pieces_written(c0, d, sizes, order.take(k)),
                d,
                sizes,
                order[k],
            ),
    decreases order.len(),
{
    if order.len() == 0 {
        assert(order.to_set() =~= Set::<int>::empty());
        assert(piece_offsets(sizes, Set::empty()) =~= Set::<usize>::empty());
        lemma_total_empty(sizes, sizes.len() as int);
        assert(!Set::<int>::empty().contains(0));
        assert(pieces_written(c0, d, sizes, order) == c0);
    } else {
        let n = (order.len() - 1) as int;
        let prev = order.drop_last();
        let i = order.last();
        assert(order.take(n) =~= prev);
        assert forall|k: int| 0 <= k < prev.len() implies 0 <= #[trigger] prev[k] < sizes.len() by {
            assert(prev[k] == order[k]);
        }
        lemma_pieces_written(c0, d, sizes, prev);
        assert(order[n] == i);
        lemma_piece_step(pieces_written(c0, d, sizes, prev), c0, d, sizes, prev.to_set(), i);
        assert(order.to_set() =~= prev.to_set().insert(i)) by {
            assert forall|x: int| order.to_set().contains(x) implies prev.to_set().insert(i).contains(x) by {
                let k = choose|k: int| 0 <= k < order.len() && order[k] == x;
                if k < n {
                    assert(prev[k] == x);
                }
            }
            assert forall|x: int| prev.to_set().insert(i).contains(x) implies order.to_set().contains(x) by {
                if x != i {
                    let k = choose|k: int| 0 <= k < prev.len() && prev[k] == x;
                    assert(order[k] == x);
                } else {
                    assert(order[n] == x);
                }
            }
        }
        assert forall|k: int| 0 <= k < order.len() implies piece_fits(
            #[trigger] pieces_written(c0, d, sizes, order.take(k)),
            d,
            sizes,
            order[k],
        ) by {
            if k < n {
                assert(order.take(k) =~= prev.take(k));
                assert(order[k] == prev[k]);
            }
        }
    }
}

/// A message `d` cut into pieces of any sizes (`sizes`, none empty) is
/// rebuilt by a cacher that `new_message` has just reset, whatever order
/// the pieces come in and however often each comes: every `get_buf` and
/// `end_write` meets its precondition, the cacher is complete exactly when
/// every piece has come, and then `seen` is the length of `d` and the first
/// `seen` bytes of the buffer, what `get_message` returns, are `d`.
pub proof fn lemma_pieces_rebuild(c0: CacherView, d: Seq<u8>, sizes: Seq<usize>, order: Seq<int>)
    requires
        d.len() <= MAXMESSAGELEN,
        cuts(sizes, d.len()),
        c0.data.len() == MAXMESSAGELEN,
        c0 == cleared(c0, c0.msgno, false, c0.start),
        forall|k: int| 0 <= k < order.len() ==> 0 <= #[trigger] order[k] < sizes.len(),
    ensures
        forall|k: int|
            0 <= k < order.len() ==> piece_fits(
                #[trigger] pieces_written(c0, d, sizes, order.take(k)),
                d,
                sizes,
                order[k],
            ),
        pieces_written(c0, d, sizes, order).complete <==> (forall|i: int|
            0 <= i < sizes.len() ==> #[trigger] order.contains(i)),
        pieces_written(c0, d, sizes, order).complete ==> {
            &&& pieces_written(c0, d, sizes, order).seen == d.len()
            &&& pieces_written(c0, d, sizes, order).data.subrange(0, d.len() as int) == d
        },
{
    let n = sizes.len() as int;
    lemma_pieces_written(c0, d, sizes, order);
    let c = pieces_written(c0, d, sizes, order);
    let ds = order.to_set();
    if forall|i: int| 0 <= i < n ==> #[trigger] ds.contains(i) {
        assert forall|i: int| 0 <= i < n implies #[trigger] order.contains(i) by {
            assert(ds.contains(i));
        }
    }
    if forall|i: int| 0 <= i < n ==> #[trigger] order.contains(i) {
        assert forall|i: int| 0 <= i < n implies #[trigger] ds.contains(i) by {
            assert(order.contains(i));
        }
    }
    if c.complete {
        lemma_total_bounds(sizes, ds, n);
        assert forall|j: int| 0 <= j < d.len() implies c.data[j] == d[j] by {
            lemma_covered(sizes, n, j);
            let i = choose|i: int| 0 <= i < n && #[trigger] piece_start(sizes, i) <= j < piece_start(sizes, i) + sizes[i];
            assert(ds.contains(i));
        }
        assert(c.data.subrange(0, d.len() as int) =~= d);
    }
}

} // verus!
