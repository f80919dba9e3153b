//! A write-back cache over a byte store: writes are held in memory as ordered,
//! disjoint ranges, merged as they arrive, read through, and flushed on commit.
use vstd::prelude::*;
use crate::{Error, overlaps};
use crate::storage::{Storage, byte_or_zero, io_only, written, resized};

verus! {

/// A pending write: its start offset and its bytes.
pub type Pending = (usize, Seq<u8>);

/// One past the last offset of `r`.
pub open spec fn range_end(r: Pending) -> int {
    r.0 + r.1.len()
}

/// Offset `i` lies inside `r`.
pub open spec fn covers(r: Pending, i: int) -> bool {
    r.0 <= i < range_end(r)
}

/// The ranges ascend, and any two of them are apart: neither overlapping nor
/// touching.
pub open spec fn ranges_ordered(q: Seq<Pending>) -> bool {
    forall|a: int, b: int| 0 <= a < b < q.len() ==> #[trigger] range_end(q[a]) < #[trigger] q[b].0
}

/// Some range of `q` covers offset `i`.
pub open spec fn covered(q: Seq<Pending>, i: int) -> bool {
    exists|j: int| 0 <= j < q.len() && #[trigger] covers(q[j], i)
}

/// Byte `i` as seen through the ranges of `q` laid over `base`.
pub open spec fn overlay_byte(q: Seq<Pending>, base: Seq<u8>, i: int) -> u8 {
    if covered(q, i) {
        let j = choose|j: int| 0 <= j < q.len() && #[trigger] covers(q[j], i);
        q[j].1[i - q[j].0]
    } else {
        byte_or_zero(base, i)
    }
}

/// In ordered ranges, the range that covers an offset gives its byte.
pub proof fn lemma_overlay_at(q: Seq<Pending>, base: Seq<u8>, i: int, j: int)
    requires
        ranges_ordered(q),
        0 <= j < q.len(),
        covers(q[j], i),
    ensures
        overlay_byte(q, base, i) == q[j].1[i - q[j].0],
{
    assert(covered(q, i));
    let k = choose|k: int| 0 <= k < q.len() && #[trigger] covers(q[k], i);
    if k < j {
        assert(range_end(q[k]) < q[j].0);
    } else if j < k {
        assert(range_end(q[j]) < q[k].0);
    }
}

/// Adding a range at the end of ordered ranges lays its bytes over the rest.
proof fn lemma_overlay_push(s: Seq<Pending>, r: Pending, base: Seq<u8>, i: int)
    requires
        ranges_ordered(s.push(r)),
    ensures
        overlay_byte(s.push(r), base, i) == if covers(r, i) {
            r.1[i - r.0]
        } else {
            overlay_byte(s, base, i)
        },
{
    let t = s.push(r);
    assert(t[s.len() as int] == r);
    assert(ranges_ordered(s)) by {
        assert forall|a: int, b: int| 0 <= a < b < s.len() implies #[trigger] range_end(s[a])
            < #[trigger] s[b].0 by {
            assert(t[a] == s[a] && t[b] == s[b]);
        }
    }
    if covers(r, i) {
        lemma_overlay_at(t, base, i, s.len() as int);
    } else if covered(s, i) {
        let k = choose|k: int| 0 <= k < s.len() && #[trigger] covers(s[k], i);
        assert(t[k] == s[k]);
        lemma_overlay_at(t, base, i, k);
        lemma_overlay_at(s, base, i, k);
    } else {
        if covered(t, i) {
            let k = choose|k: int| 0 <= k < t.len() && #[trigger] covers(t[k], i);
            if k < s.len() {
                assert(t[k] == s[k]);
            }
        }
    }
}

/// A prefix of ordered ranges is ordered.
proof fn lemma_ordered_take(q: Seq<Pending>, n: int)
    requires
        ranges_ordered(q),
        0 <= n <= q.len(),
    ensures
        ranges_ordered(q.take(n)),
{
    let t = q.take(n);
    assert forall|a: int, b: int| 0 <= a < b < t.len() implies #[trigger] range_end(t[a])
        < #[trigger] t[b].0 by {
        assert(t[a] == q[a] && t[b] == q[b]);
    }
}

/// A run of ordered ranges is ordered.
proof fn lemma_ordered_sub(q: Seq<Pending>, a: int, b: int)
    requires
        ranges_ordered(q),
        0 <= a <= b <= q.len(),
    ensures
        ranges_ordered(q.subrange(a, b)),
{
    let t = q.subrange(a, b);
    assert forall|x: int, y: int| 0 <= x < y < t.len() implies #[trigger] range_end(t[x])
        < #[trigger] t[y].0 by {
        assert(t[x] == q[a + x] && t[y] == q[a + y]);
    }
}

/// Merging a write into ordered ranges: the run `[lo, hi)` of ranges that
/// overlap or touch `[offset, offset + data.len())` is replaced by one range
/// from `start` holding `mb`, which keeps the ranges ordered and shows the
/// write laid over what was shown before.
proof fn lemma_merge(
    q: Seq<Pending>,
    base: Seq<u8>,
    len0: int,
    lo: int,
    hi: int,
    offset: usize,
    data: Seq<u8>,
    start: usize,
    mend: int,
    b0: Seq<u8>,
    mb: Seq<u8>,
)
    requires
        ranges_ordered(q),
        forall|j: int| 0 <= j < q.len() ==> range_end(#[trigger] q[j]) <= len0,
        base.len() <= len0,
        base.len() == len0 || (q.len() > 0 && range_end(q.last()) == len0),
        0 <= lo <= hi <= q.len(),
        forall|j: int| 0 <= j < lo ==> range_end(#[trigger] q[j]) < offset,
        forall|j: int| lo <= j < hi ==> range_end(#[trigger] q[j]) >= offset,
        forall|j: int| lo <= j < hi ==> (#[trigger] q[j]).0 <= offset + data.len(),
        hi < q.len() ==> q[hi].0 > offset + data.len(),
        start as int == if lo < hi && q[lo].0 < offset { q[lo].0 as int } else { offset as int },
        mend == if lo < hi && range_end(q[hi - 1]) > offset + data.len() {
            range_end(q[hi - 1])
        } else {
            offset + data.len()
        },
        forall|j: int| lo <= j < hi ==> start <= (#[trigger] q[j]).0 && range_end(q[j]) <= mend,
        b0.len() == mend - start,
        mb.len() == mend - start,
        forall|k: int|
            0 <= k < b0.len() ==> #[trigger] b0[k] == overlay_byte(q.subrange(lo, hi), Seq::empty(), start + k),
        forall|k: int|
            0 <= k < mb.len() ==> #[trigger] mb[k] == if offset - start <= k < offset - start
                + data.len() {
                data[k - (offset - start)]
            } else {
                b0[k]
            },
    ensures
        ({
            let nq = q.take(lo).push((start, mb)) + q.skip(hi);
            let newlen = if mend > len0 { mend } else { len0 };
            &&& ranges_ordered(nq)
            &&& forall|j: int| 0 <= j < nq.len() ==> range_end(#[trigger] nq[j]) <= newlen
            &&& base.len() <= newlen
            &&& (base.len() == newlen || (nq.len() > 0 && range_end(nq.last()) == newlen))
            &&& Seq::new(newlen as nat, |i: int| overlay_byte(nq, base, i)) == written(
                Seq::new(len0 as nat, |i: int| overlay_byte(q, base, i)),
                offset as int,
                data,
            )
            &&& forall|i: int|
                #[trigger] covered(nq, i) == (covered(q, i) || (offset <= i < offset + data.len()))
        }),
{
    let nq = q.take(lo).push((start, mb)) + q.skip(hi);
    let m: Pending = (start, mb);
    let n = q.len();
    let end = offset + data.len();
    let newlen = if mend > len0 { mend } else { len0 };
    let empty = Seq::<u8>::empty();
    assert(nq.len() == lo + 1 + n - hi);
    assert(nq[lo] == m);
    assert forall|k: int| 0 <= k < lo implies #[trigger] nq[k] == q[k] by {}
    assert forall|k: int| lo < k < nq.len() implies #[trigger] nq[k] == q[k - lo - 1 + hi] by {}
    lemma_ordered_sub(q, lo, hi);
    assert(ranges_ordered(nq)) by {
        assert forall|a: int, b: int| 0 <= a < b < nq.len() implies #[trigger] range_end(nq[a])
            < #[trigger] nq[b].0 by {
            if b < lo {
                assert(nq[a] == q[a] && nq[b] == q[b]);
            } else if b == lo {
                assert(nq[a] == q[a]);
                if lo < hi {
                    assert(range_end(q[a]) < q[lo].0);
                }
            } else if a < lo {
                assert(nq[a] == q[a]);
                assert(nq[b] == q[b - lo - 1 + hi]);
                if lo < hi {
                    assert(range_end(q[a]) < q[lo].0);
                } else {
                    assert(range_end(q[a]) < q[b - lo - 1 + hi].0);
                }
            } else if a == lo {
                assert(nq[b] == q[b - lo - 1 + hi]);
                if lo < hi && b - lo - 1 + hi > hi - 1 {
                    assert(range_end(q[hi - 1]) < q[b - lo - 1 + hi].0);
                }
                if b - lo - 1 + hi > hi {
                    assert(range_end(q[hi]) < q[b - lo - 1 + hi].0);
                }
            } else {
                assert(nq[a] == q[a - lo - 1 + hi]);
                assert(nq[b] == q[b - lo - 1 + hi]);
            }
        }
    }
    assert forall|j: int| 0 <= j < nq.len() implies range_end(#[trigger] nq[j]) <= newlen by {
        if j < lo {
            assert(nq[j] == q[j]);
        } else if j > lo {
            assert(nq[j] == q[j - lo - 1 + hi]);
        }
    }
    if mend > len0 {
        if hi < n {
            assert(range_end(q[hi]) <= len0);
            if lo < hi {
                assert(range_end(q[hi - 1]) < q[hi].0);
            }
        }
        assert(nq.last() == m);
    } else if base.len() != len0 {
        if hi < n {
            assert(nq.last() == q.last());
        } else if lo < hi {
            assert(nq.last() == m);
        } else {
            assert(range_end(q[n - 1]) < offset);
        }
    }
    let nview = Seq::new(newlen as nat, |i: int| overlay_byte(nq, base, i));
    let oview = Seq::new(len0 as nat, |i: int| overlay_byte(q, base, i));
    let target = written(oview, offset as int, data);
    assert(nview.len() == target.len());
    assert forall|i: int| 0 <= i < nview.len() implies #[trigger] nview[i] == target[i] by {
        if covers(m, i) {
            lemma_overlay_at(nq, base, i, lo);
            if !(offset <= i < end) {
                let cj = if i < offset { lo } else { hi - 1 };
                assert(covers(q[cj], i));
                assert(q.subrange(lo, hi)[cj - lo] == q[cj]);
                lemma_overlay_at(q.subrange(lo, hi), empty, i, cj - lo);
                lemma_overlay_at(q, base, i, cj);
                assert(b0[i - start] == mb[i - start]);
            }
        } else if covered(nq, i) {
            let k = choose|k: int| 0 <= k < nq.len() && #[trigger] covers(nq[k], i);
            let ok = if k < lo { k } else { k - lo - 1 + hi };
            assert(nq[k] == q[ok]);
            lemma_overlay_at(nq, base, i, k);
            lemma_overlay_at(q, base, i, ok);
        } else {
            if covered(q, i) {
                let k = choose|k: int| 0 <= k < q.len() && #[trigger] covers(q[k], i);
                if k < lo {
                    assert(covers(nq[k], i));
                } else if k >= hi {
                    assert(covers(nq[k - hi + lo + 1], i));
                }
            }
        }
    }
    assert(nview =~= target);
    assert forall|i: int|
        #[trigger] covered(nq, i) == (covered(q, i) || (offset <= i < end)) by {
        if covered(nq, i) {
            let k = choose|k: int| 0 <= k < nq.len() && #[trigger] covers(nq[k], i);
            if k == lo {
                if !(offset <= i < end) {
                    let cj = if i < offset { lo } else { hi - 1 };
                    assert(covers(q[cj], i));
                }
            } else {
                let ok = if k < lo { k } else { k - lo - 1 + hi };
                assert(nq[k] == q[ok]);
                assert(covers(q[ok], i));
            }
        }
        if covered(q, i) {
            let k = choose|k: int| 0 <= k < q.len() && #[trigger] covers(q[k], i);
            if k < lo {
                assert(covers(nq[k], i));
            } else if k >= hi {
                assert(covers(nq[k - hi + lo + 1], i));
            } else {
                assert(covers(nq[lo], i));
            }
        }
        if offset <= i < end {
            assert(covers(nq[lo], i));
        }
    }
}

/// Copies the `n` bytes of `src` from `from` into `dst` at `at`.
fn copy_bytes(dst: &mut Vec<u8>, at: usize, src: &Vec<u8>, from: usize, n: usize)
    requires
        at + n <= old(dst)@.len(),
        from + n <= src@.len(),
    ensures
        final(dst)@.len() == old(dst)@.len(),
        forall|i: int|
            0 <= i < old(dst)@.len() ==> #[trigger] final(dst)@[i] == if at <= i < at + n {
                src@[from + i - at]
            } else {
                old(dst)@[i]
            },
{
    let _dn = dst.len();
    let _sn = src.len();
    let mut k: usize = 0;
    while k < n
        invariant
            old(dst)@.len() <= usize::MAX,
            src@.len() <= usize::MAX,
            at + n <= old(dst)@.len(),
            from + n <= src@.len(),
            k <= n,
            dst@.len() == old(dst)@.len(),
            forall|i: int|
                0 <= i < old(dst)@.len() ==> #[trigger] dst@[i] == if at <= i < at + k {
                    src@[from + i - at]
                } else {
                    old(dst)@[i]
                },
        decreases n - k,
    {
        dst.set(at + k, src[from + k]);
        k = k + 1;
    }
}

/// Buffers writes to a store `S` in memory until `commit`.
pub struct WriteCache<S: Storage> {
    store: S,
    queue: Vec<(usize, Vec<u8>)>,
    length: usize,
    enabled: bool,
}

impl<S: Storage> WriteCache<S> {
    /// The pending ranges, in list order.
    pub closed spec fn pending(&self) -> Seq<Pending> {
        self.queue@.map_values(|r: (usize, Vec<u8>)| (r.0, r.1@))
    }

    /// The bytes held by the underlying store.
    pub closed spec fn store_view(&self) -> Seq<u8> {
        self.store.bytes_view()
    }

    /// Whether writes are buffered; when not, every call goes to the store.
    pub closed spec fn is_enabled(&self) -> bool {
        self.enabled
    }

    /// The bytes the cache shows: the pending ranges over the store, up to the
    /// tracked length; the store itself when buffering is off.
    pub closed spec fn view(&self) -> Seq<u8> {
        if self.enabled {
            Seq::new(self.length as nat, |i: int| overlay_byte(self.pending(), self.store_view(), i))
        } else {
            self.store_view()
        }
    }

    /// The cache's invariant: ordered ranges within the tracked length, and a
    /// store no longer than it, which reaches it unless the last range does.
    pub closed spec fn wf(&self) -> bool {
        &&& ranges_ordered(self.pending())
        &&& self.enabled ==> {
            &&& forall|j: int|
                0 <= j < self.queue@.len() ==> range_end(#[trigger] self.pending()[j])
                    <= self.length
            &&& self.store_view().len() <= self.length
            &&& (self.store_view().len() == self.length || (self.queue@.len() > 0 && range_end(
                self.pending().last(),
            ) == self.length))
        }
        &&& !self.enabled ==> self.queue@.len() == 0
    }

    /// Whatever writes, reads, truncations and commits came before, the pending
    /// ranges of a cache are pairwise apart and in ascending order of start.
    pub proof fn lemma_pending_ordered(&self)
        requires
            self.wf(),
        ensures
            ranges_ordered(self.pending()),
    {
    }

    /// What the cache shows: when buffering, each byte below its length is the
    /// pending range that covers it, else the store's byte (zero past the
    /// store's end); otherwise the store itself.
    pub proof fn lemma_view(&self)
        requires
            self.wf(),
        ensures
            self.is_enabled() ==> forall|i: int|
                0 <= i < self.view().len() ==> #[trigger] self.view()[i] == overlay_byte(
                    self.pending(),
                    self.store_view(),
                    i,
                ),
            self.is_enabled() ==> forall|j: int|
                0 <= j < self.pending().len() ==> range_end(#[trigger] self.pending()[j])
                    <= self.view().len(),
            self.is_enabled() ==> self.store_view().len() <= self.view().len(),
            !self.is_enabled() ==> self.view() == self.store_view() && self.pending().len() == 0,
    {
    }

    /// Gives back the underlying store; pending writes that were not committed
    /// are dropped.
    pub fn into_store(self) -> (r: S)
        ensures
            r.bytes_view() == self.store_view(),
    {
        self.store
    }

    proof fn lemma_pending_index(&self, j: int)
        requires
            0 <= j < self.queue@.len(),
        ensures
            self.pending().len() == self.queue@.len(),
            self.pending()[j] == (self.queue@[j].0, self.queue@[j].1@),
    {
    }

    /// Opens a cache over `store`, buffering writes.
    pub fn open(store: S) -> (r: Result<Self, Error>)
        ensures
            io_only(r),
            r is Ok ==> r->Ok_0.wf() && r->Ok_0.is_enabled() && r->Ok_0.pending().len() == 0
                && r->Ok_0.store_view() == store.bytes_view() && r->Ok_0.view()
                == store.bytes_view(),
    {
        Self::open_with(store, true)
    }

    /// Opens a cache over `store`; with `enabled` false every call goes straight
    /// to the store.
    pub fn open_with(store: S, enabled: bool) -> (r: Result<Self, Error>)
        ensures
            io_only(r),
            r is Ok ==> r->Ok_0.wf() && r->Ok_0.is_enabled() == enabled && r->Ok_0.pending().len()
                == 0 && r->Ok_0.store_view() == store.bytes_view() && r->Ok_0.view()
                == store.bytes_view(),
    {
        let length = store.len()?;
        let c = WriteCache { store, queue: Vec::new(), length, enabled };
        assert(c.pending() =~= Seq::<Pending>::empty());
        assert(c.view() =~= c.store_view());
        Ok(c)
    }

    /// The length the cache shows.
    pub fn len(&self) -> (r: Result<usize, Error>)
        requires
            self.wf(),
        ensures
            io_only(r),
            r is Ok ==> r->Ok_0 == self.view().len(),
            self.is_enabled() ==> r is Ok,
    {
        if self.enabled {
            Ok(self.length)
        } else {
            self.store.len()
        }
    }

    /// Whether the cache shows no bytes.
    pub fn is_empty(&self) -> (r: Result<bool, Error>)
        requires
            self.wf(),
        ensures
            io_only(r),
            r is Ok ==> r->Ok_0 == (self.view().len() == 0),
            self.is_enabled() ==> r is Ok,
    {
        let n = self.len()?;
        Ok(n == 0)
    }

    /// Exactly `length` bytes from `offset`, as the cache shows them: zeros past
    /// its end.
    pub fn read(&mut self, offset: usize, length: usize) -> (r: Result<Vec<u8>, Error>)
        requires
            old(self).wf(),
            offset + length <= usize::MAX,
        ensures
            io_only(r),
            final(self).wf(),
            final(self).view() == old(self).view(),
            final(self).pending() == old(self).pending(),
            final(self).store_view() == old(self).store_view(),
            final(self).is_enabled() == old(self).is_enabled(),
            r is Ok ==> r->Ok_0@ == Seq::new(
                length as nat,
                |k: int| byte_or_zero(old(self).view(), offset + k),
            ),
    {
        if !self.enabled {
            let d = self.store.read(offset, length)?;
            assert(d@ =~= Seq::new(length as nat, |k: int| byte_or_zero(old(self).view(), offset + k)));
            return Ok(d);
        }
        let ghost q = self.pending();
        let ghost s0 = self.store_view();
        let slen = self.store.len()?;
        let mut data: Vec<u8>;
        if slen < offset {
            data = Vec::new();
        } else {
            let m = if slen - offset < length { slen - offset } else { length };
            data = self.store.read(offset, m)?;
        }
        let ghost d0 = data@;
        assert(d0.len() <= length);
        assert(d0.len() < length ==> offset + d0.len() >= s0.len());
        assert(forall|k: int| 0 <= k < d0.len() ==> d0[k] == s0[offset + k]);
        if data.len() < length {
            data.resize(length, 0u8);
        }
        assert forall|k: int| 0 <= k < length implies #[trigger] data@[k] == byte_or_zero(s0, offset + k) by {
            if k < d0.len() {
                assert(data@[k] == d0[k]);
            }
        }
        let end = offset + length;
        let mut j: usize = 0;
        assert(q.take(0) =~= Seq::<Pending>::empty());
        while j < self.queue.len()
            invariant
                self.wf(),
                self.enabled,
                self.pending() == q,
                self.queue@.len() == q.len(),
                self.store_view() == s0,
                self.length == old(self).length,
                end == offset + length,
                data@.len() == length,
                j <= q.len(),
                forall|k: int|
                    0 <= k < length ==> #[trigger] data@[k] == overlay_byte(q.take(j as int), s0, offset + k),
            decreases q.len() - j,
        {
            proof {
                self.lemma_pending_index(j as int);
                lemma_ordered_take(q, j + 1);
                assert(q.take(j + 1) =~= q.take(j as int).push(q[j as int]));
            }
            let qs = self.queue[j].0;
            let q1 = qs + self.queue[j].1.len();
            if overlaps((offset, end), (qs, q1)) {
                let lo = if qs > offset { qs } else { offset };
                let hi = if q1 < end { q1 } else { end };
                copy_bytes(&mut data, lo - offset, &self.queue[j].1, lo - qs, hi - lo);
            }
            proof {
                assert forall|k: int| 0 <= k < length implies #[trigger] data@[k] == overlay_byte(q.take(j + 1), s0, offset + k) by {
                    lemma_overlay_push(q.take(j as int), q[j as int], s0, offset + k);
                }
            }
            j = j + 1;
        }
        proof {
            assert(q.take(q.len() as int) =~= q);
            assert forall|k: int| 0 <= k < length implies #[trigger] data@[k] == byte_or_zero(old(self).view(), offset + k) by {
                let i = offset + k;
                if i >= self.length {
                    if covered(q, i) {
                        let c = choose|c: int| 0 <= c < q.len() && #[trigger] covers(q[c], i);
                        self.lemma_pending_index(c);
                    }
                }
            }
            assert(data@ =~= Seq::new(length as nat, |k: int| byte_or_zero(old(self).view(), offset + k)));
        }
        Ok(data)
    }

    spec fn ends_within(&self) -> bool {
        forall|j: int| 0 <= j < self.queue@.len() ==> range_end(#[trigger] self.pending()[j]) <= self.length
    }

    /// The start of pending range `j`.
    fn start_at(&self, j: usize) -> (r: usize)
        requires
            j < self.queue@.len(),
        ensures
            r == self.pending()[j as int].0,
    {
        self.queue[j].0
    }

    /// One past the end of pending range `j`.
    fn end_at(&self, j: usize) -> (r: usize)
        requires
            self.wf(),
            self.enabled,
            j < self.queue@.len(),
        ensures
            r == range_end(self.pending()[j as int]),
    {
        proof {
            self.lemma_pending_index(j as int);
        }
        self.queue[j].0 + self.queue[j].1.len()
    }

    /// Writes `data` at `offset`. Buffered, it merges with every pending range
    /// that overlaps or touches it, the new bytes winning, and never reaches the
    /// store; the cache then shows exactly what a plain byte array written the
    /// same way would hold.
    #[verifier::rlimit(40)]
    pub fn write(&mut self, offset: usize, data: &Vec<u8>) -> (r: Result<(), Error>)
        requires
            old(self).wf(),
            offset + data@.len() <= usize::MAX,
        ensures
            io_only(r),
            final(self).wf(),
            final(self).is_enabled() == old(self).is_enabled(),
            r is Ok ==> final(self).view() == written(old(self).view(), offset as int, data@),
            old(self).is_enabled() ==> r is Ok && final(self).store_view() == old(self).store_view(),
            old(self).is_enabled() ==> forall|i: int|
                #[trigger] covered(final(self).pending(), i) == (covered(old(self).pending(), i) || (
                offset <= i < offset + data@.len())),
            !old(self).is_enabled() ==> final(self).pending() == old(self).pending(),
            !old(self).is_enabled() && r is Ok ==> final(self).store_view() == written(
                old(self).store_view(),
                offset as int,
                data@,
            ),
    {
        if !self.enabled {
            return self.store.write(offset, data);
        }
        let ghost q = self.pending();
        let ghost oldq = self.queue@;
        let ghost s0 = self.store_view();
        let ghost len0 = self.length as int;
        let end = offset + data.len();
        let n = self.queue.len();
        let mut lo: usize = 0;
        while lo < n && self.end_at(lo) < offset
            invariant
                self.wf(),
                self.enabled,
                self.pending() == q,
                n == q.len() == self.queue@.len(),
                lo <= n,
                forall|j: int| 0 <= j < lo ==> range_end(#[trigger] q[j]) < offset,
            decreases n - lo,
        {
            lo = lo + 1;
        }
        let mut hi: usize = lo;
        while hi < n && self.start_at(hi) <= end
            invariant
                self.wf(),
                self.enabled,
                self.pending() == q,
                n == q.len() == self.queue@.len(),
                lo <= hi <= n,
                forall|j: int| lo <= j < hi ==> (#[trigger] q[j]).0 <= end,
            decreases n - hi,
        {
            hi = hi + 1;
        }
        proof {
            assert(lo < n ==> range_end(q[lo as int]) >= offset);
            assert(hi < n ==> q[hi as int].0 > end);
            assert forall|j: int| lo <= j < hi implies range_end(#[trigger] q[j]) >= offset by {
                if lo < j {
                    assert(range_end(q[lo as int]) < q[j].0);
                }
            }
        }
        let start = if lo < hi && self.start_at(lo) < offset { self.start_at(lo) } else { offset };
        let mend = if lo < hi && self.end_at(hi - 1) > end { self.end_at(hi - 1) } else { end };
        proof {
            assert forall|j: int| lo <= j < hi implies start <= (#[trigger] q[j]).0 && range_end(q[j]) <= mend by {
                if lo < j {
                    assert(range_end(q[lo as int]) < q[j].0);
                }
                if j < hi - 1 {
                    assert(range_end(q[j]) < q[hi - 1].0);
                }
            }
        }
        let width = mend - start;
        let mut buf: Vec<u8> = vec![0u8; width];
        let ghost empty = Seq::<u8>::empty();
        let mut j: usize = lo;
        assert forall|k: int| 0 <= k < buf@.len() implies #[trigger] buf@[k] == overlay_byte(q.subrange(lo as int, j as int), empty, start + k) by {
            assert(!covered(q.subrange(lo as int, j as int), start + k));
        }
        while j < hi
            invariant
                self.wf(),
                self.enabled,
                self.pending() == q,
                n == q.len() == self.queue@.len(),
                lo <= j <= hi <= n,
                buf@.len() == mend - start,
                forall|j: int| lo <= j < hi ==> start <= (#[trigger] q[j]).0 && range_end(q[j]) <= mend,
                forall|k: int|
                    0 <= k < buf@.len() ==> #[trigger] buf@[k] == overlay_byte(
                        q.subrange(lo as int, j as int),
                        empty,
                        start + k,
                    ),
            decreases hi - j,
        {
            proof {
                self.lemma_pending_index(j as int);
                lemma_ordered_sub(q, lo as int, j + 1);
                assert(q.subrange(lo as int, j + 1) =~= q.subrange(lo as int, j as int).push(q[j as int]));
            }
            let at = self.start_at(j) - start;
            copy_bytes(&mut buf, at, &self.queue[j].1, 0, self.queue[j].1.len());
            proof {
                assert forall|k: int| 0 <= k < buf@.len() implies #[trigger] buf@[k] == overlay_byte(q.subrange(lo as int, j + 1), empty, start + k) by {
                    lemma_overlay_push(q.subrange(lo as int, j as int), q[j as int], empty, start + k);
                }
            }
            j = j + 1;
        }
        let ghost b0 = buf@;
        copy_bytes(&mut buf, offset - start, data, 0, data.len());
        let ghost m: Pending = (start, buf@);
        let mut tail = self.queue.split_off(lo);
        let mut rest = tail.split_off(hi - lo);
        self.queue.push((start, buf));
        self.queue.append(&mut rest);
        if mend > self.length {
            self.length = mend;
        }
        proof {
            let nq = q.take(lo as int).push(m) + q.skip(hi as int);
            assert(self.queue@.len() == nq.len());
            assert forall|k: int| 0 <= k < nq.len() implies #[trigger] self.pending()[k] == nq[k] by {
                if k < lo {
                    assert(self.queue@[k] == oldq[k]);
                } else if k > lo {
                    assert(self.queue@[k] == oldq[k - lo - 1 + hi]);
                }
            }
            assert(self.pending() =~= nq);
            lemma_merge(q, s0, len0, lo as int, hi as int, offset, data@, start, mend as int, b0, buf@);
            assert(self.view() =~= Seq::new(self.length as nat, |i: int| overlay_byte(nq, s0, i)));
            assert(old(self).view() =~= Seq::new(len0 as nat, |i: int| overlay_byte(q, s0, i)));
        }
        Ok(())
    }

    /// Cuts the cache, or grows it with zeros, to `length` bytes: pending ranges
    /// below the cut stay, one that straddles it is trimmed, those at or above it
    /// are dropped, and the store is cut to match. On failure nothing changes but
    /// what the store itself did.
    pub fn truncate(&mut self, length: usize) -> (r: Result<(), Error>)
        requires
            old(self).wf(),
        ensures
            io_only(r),
            final(self).wf(),
            final(self).is_enabled() == old(self).is_enabled(),
            r is Ok ==> final(self).view() == resized(old(self).view(), length as nat),
            r is Ok ==> final(self).store_view() == resized(old(self).store_view(), length as nat),
            r is Ok ==> final(self).pending().len() <= old(self).pending().len(),
            r is Ok ==> forall|j: int|
                0 <= j < final(self).pending().len() ==> range_end(
                    #[trigger] final(self).pending()[j],
                ) <= length && final(self).pending()[j].0 == old(self).pending()[j].0
                    && final(self).pending()[j].1 == old(self).pending()[j].1.take(
                    final(self).pending()[j].1.len() as int,
                ),
            r is Err ==> final(self).view() == old(self).view(),
            r is Err ==> final(self).pending() == old(self).pending(),
    {
        if !self.enabled {
            return self.store.truncate(length);
        }
        let ghost q = self.pending();
        let ghost oldq = self.queue@;
        let ghost s0 = self.store_view();
        let n = self.queue.len();
        let mut c: usize = 0;
        while c < n && self.start_at(c) < length
            invariant
                self.wf(),
                self.enabled,
                self.pending() == q,
                n == q.len() == self.queue@.len(),
                c <= n,
                forall|j: int| 0 <= j < c ==> (#[trigger] q[j]).0 < length,
            decreases n - c,
        {
            c = c + 1;
        }
        let straddles = c > 0 && self.end_at(c - 1) > length;
        self.store.truncate(length)?;
        self.queue.truncate(c);
        if straddles {
            let last = self.queue.pop();
            match last {
                Some(last) => {
                    let (at, mut bytes) = last;
                    bytes.truncate(length - at);
                    self.queue.push((at, bytes));
                },
                None => {},
            }
        }
        self.length = length;
        proof {
            assert(c < n ==> q[c as int].0 >= length);
            assert(self.queue@.len() == c);
            assert forall|k: int| 0 <= k < c && !(straddles && k == c - 1) implies #[trigger] self.pending()[k] == q[k] by {
                assert(self.queue@[k] == oldq[k]);
            }
            assert(straddles ==> self.pending()[c - 1] == (q[c - 1].0, q[c - 1].1.subrange(0, length - q[c - 1].0))) by {
                if straddles {
                    assert(self.pending()[c - 1] == (self.queue@[c - 1].0, self.queue@[c - 1].1@));
                }
            }
            let nq = self.pending();
            assert forall|j: int| c <= j < n implies (#[trigger] q[j]).0 >= length by {
                if c < j {
                    assert(range_end(q[c as int]) < q[j].0);
                }
            }
            assert(ranges_ordered(nq)) by {
                assert forall|a: int, b: int| 0 <= a < b < nq.len() implies #[trigger] range_end(nq[a])
                    < #[trigger] nq[b].0 by {
                    assert(range_end(q[a]) < q[b].0);
                }
            }
            assert(self.ends_within()) by {
                assert forall|j: int| 0 <= j < nq.len() implies range_end(#[trigger] nq[j]) <= length by {
                    if j < c - 1 {
                        assert(range_end(q[j]) < q[c - 1].0);
                    }
                }
            }
            let target = resized(old(self).view(), length as nat);
            assert forall|i: int| 0 <= i < length implies #[trigger] self.view()[i] == target[i] by {
                if covered(q, i) {
                    let k = choose|k: int| 0 <= k < q.len() && #[trigger] covers(q[k], i);
                    assert(k < c);
                    assert(covers(nq[k], i));
                    lemma_overlay_at(q, s0, i, k);
                    lemma_overlay_at(nq, self.store_view(), i, k);
                } else if covered(nq, i) {
                    let k = choose|k: int| 0 <= k < nq.len() && #[trigger] covers(nq[k], i);
                    assert(covers(q[k], i));
                }
            }
            assert(self.view() =~= target);
        }
        Ok(())
    }

    /// Passes a delete hint for `[offset, offset + length)` to the store; what
    /// the cache shows outside that span is kept.
    pub fn del(&mut self, offset: usize, length: usize) -> (r: Result<(), Error>)
        requires
            old(self).wf(),
        ensures
            io_only(r),
            final(self).wf(),
            final(self).is_enabled() == old(self).is_enabled(),
            final(self).pending() == old(self).pending(),
            final(self).view().len() == old(self).view().len(),
            r is Ok ==> forall|i: int|
                0 <= i < old(self).view().len() && !(offset <= i < offset + length)
                    ==> #[trigger] final(self).view()[i] == old(self).view()[i],
    {
        let ghost s0 = self.store_view();
        let r = self.store.del(offset, length);
        proof {
            if r is Ok && self.enabled {
                assert forall|i: int|
                    0 <= i < old(self).view().len() && !(offset <= i < offset + length)
                        implies #[trigger] self.view()[i] == old(self).view()[i] by {
                    assert(byte_or_zero(s0, i) == byte_or_zero(self.store_view(), i));
                }
            }
        }
        r
    }

    /// Writes every pending range to the store, in list order, then drops them.
    pub fn commit(&mut self) -> (r: Result<(), Error>)
        requires
            old(self).wf(),
        ensures
            io_only(r),
            final(self).wf(),
            final(self).is_enabled() == old(self).is_enabled(),
            final(self).view() == old(self).view(),
            r is Ok ==> final(self).pending().len() == 0,
            r is Ok ==> final(self).store_view() == final(self).view(),
            r is Err ==> final(self).pending() == old(self).pending(),
            old(self).pending().len() == 0 ==> r is Ok && final(self).store_view()
                == old(self).store_view(),
    {
        let ghost q = self.pending();
        let ghost s0 = self.store_view();
        let mut j: usize = 0;
        assert(q.skip(0) =~= q);
        while j < self.queue.len()
            invariant
                self.wf(),
                self.pending() == q,
                q == old(self).pending(),
                s0 == old(self).store_view(),
                self.queue@.len() == q.len(),
                self.enabled ==> (self.store_view().len() == self.length || (q.len() > 0
                    && range_end(q.last()) == self.length && j < q.len())),
                self.enabled == old(self).enabled,
                self.length == old(self).length,
                0 <= j <= q.len(),
                j == 0 ==> self.store_view() == s0,
                self.enabled ==> forall|i: int|
                    #![trigger overlay_byte(q, s0, i)]
                    overlay_byte(q.skip(j as int), self.store_view(), i) == overlay_byte(q, s0, i),
            decreases q.len() - j,
        {
            proof {
                self.lemma_pending_index(j as int);
            }
            let ghost before = self.store_view();
            let res = self.store.write(self.queue[j].0, &self.queue[j].1);
            proof {
                assert(range_end(q[j as int]) <= self.length);
                if res is Ok {
                    let w = q[j as int];
                    let sq = q.skip(j as int);
                    let sq1 = q.skip(j + 1);
                    assert forall|i: int|
                        #![trigger overlay_byte(q, s0, i)]
                        overlay_byte(sq1, self.store_view(), i) == overlay_byte(q, s0, i) by {
                        assert(sq[0] == w);
                        assert forall|k: int| 0 <= k < sq1.len() implies sq1[k] == sq[k + 1] by {}
                        if covers(w, i) {
                            lemma_overlay_at(sq, before, i, 0);
                            if covered(sq1, i) {
                                let k = choose|k: int| 0 <= k < sq1.len() && #[trigger] covers(sq1[k], i);
                                assert(range_end(sq[0]) < sq[k + 1].0);
                            }
                        } else if covered(sq1, i) {
                            let k = choose|k: int| 0 <= k < sq1.len() && #[trigger] covers(sq1[k], i);
                            lemma_overlay_at(sq, before, i, k + 1);
                            lemma_overlay_at(sq1, self.store_view(), i, k);
                        } else {
                            if covered(sq, i) {
                                let k = choose|k: int| 0 <= k < sq.len() && #[trigger] covers(sq[k], i);
                                if k > 0 {
                                    assert(covers(sq1[k - 1], i));
                                }
                            }
                        }
                    }
                }
            }
            proof {
                if res is Err && self.enabled {
                    let sq = q.skip(j as int);
                    assert forall|i: int| 0 <= i < self.length implies #[trigger] self.view()[i]
                        == old(self).view()[i] by {
                        assert(old(self).view()[i] == overlay_byte(q, s0, i));
                        if covered(q, i) {
                            let k = choose|k: int| 0 <= k < q.len() && #[trigger] covers(q[k], i);
                            lemma_overlay_at(q, s0, i, k);
                            lemma_overlay_at(q, self.store_view(), i, k);
                        } else {
                            if covered(sq, i) {
                                let k = choose|k: int| 0 <= k < sq.len() && #[trigger] covers(sq[k], i);
                                assert(covers(q[k + j], i));
                            }
                            assert(!covers(q[j as int], i));
                            assert(byte_or_zero(self.store_view(), i) == byte_or_zero(before, i));
                        }
                    }
                    assert(self.view() =~= old(self).view());
                }
            }
            if res.is_err() {
                return res;
            }
            j = j + 1;
        }
        self.queue.clear();
        proof {
            if self.enabled {
                assert(q.skip(q.len() as int) =~= Seq::<Pending>::empty());
                assert(self.pending() =~= Seq::<Pending>::empty());
                assert(self.store_view().len() == self.length);
                assert(self.view() =~= old(self).view()) by {
                    assert forall|i: int| 0 <= i < self.length implies #[trigger] self.view()[i] == old(self).view()[i] by {
                        assert(overlay_byte(q, s0, i) == old(self).view()[i]);
                    }
                }
                assert(self.view() =~= self.store_view());
            } else {
                assert(self.pending() =~= Seq::<Pending>::empty());
            }
        }
        Ok(())
    }
}

} // verus!
