//! The block store: immutable, length-framed blocks of points and values,
//! appended at the end of a store and read back by offset.
use vstd::prelude::*;
use crate::{Bounds, Error, Point, Value};
use crate::codec::{
    PAIR_SIZE, be_bytes, be_encode, decode_pair, encode_pair, lemma_be_round_trip,
    lemma_pairs_bytes_push, lemma_pairs_round_trip, pair_of, pairs_bytes, pairs_of,
};
use crate::storage::{Storage, block_at, io_only, written};

verus! {

/// The bytes of a block that holds `ps`: a big-endian length that counts itself
/// and the records, then the records.
pub open spec fn block_bytes(ps: Seq<(Point, Value)>) -> Seq<u8> {
    be_bytes((4 + ps.len() * 12) as u32) + pairs_bytes(ps)
}

/// The pairs of `ps` whose points lie in `b`, in order.
pub open spec fn pairs_in(ps: Seq<(Point, Value)>, b: Bounds) -> Seq<(Point, Value)>
    decreases ps.len(),
{
    if ps.len() == 0 {
        Seq::empty()
    } else {
        let rest = pairs_in(ps.drop_last(), b);
        if ps.last().0.in_bounds(b) {
            rest.push(ps.last())
        } else {
            rest
        }
    }
}

/// A block appended after any bytes is found again at their end, and holds the
/// pairs it was written with.
pub proof fn lemma_block_round_trip(s: Seq<u8>, ps: Seq<(Point, Value)>)
    requires
        4 + ps.len() * 12 <= u32::MAX,
    ensures
        block_at(s + block_bytes(ps), s.len() as int) == Some(pairs_bytes(ps)),
        pairs_of(pairs_bytes(ps)) == ps,
{
    let t = s + block_bytes(ps);
    let n = (4 + ps.len() * 12) as u32;
    lemma_pairs_round_trip(ps);
    lemma_be_round_trip(n);
    let sl = s.len() as int;
    assert(t.subrange(sl, sl + 4) =~= be_bytes(n));
    assert(t.subrange(sl + 4, sl + n) =~= pairs_bytes(ps));
}

/// Writes and reads blocks of points and values on a store `S`.
pub struct DataStore<S: Storage> {
    store: S,
}

impl<S: Storage> DataStore<S> {
    /// The bytes held by the underlying store.
    pub closed spec fn stored(&self) -> Seq<u8> {
        self.store.bytes_view()
    }

    /// Wraps `store`; nothing is read.
    pub fn open(store: S) -> (r: Result<Self, Error>)
        ensures
            r is Ok,
            r->Ok_0.stored() == store.bytes_view(),
    {
        Ok(DataStore { store })
    }

    /// Gives back the underlying store.
    pub fn into_store(self) -> (r: S)
        ensures
            r.bytes_view() == self.stored(),
    {
        self.store
    }

    /// Appends one block holding `rows` at the end of the store and returns the
    /// offset where it starts.
    pub fn batch(&mut self, rows: &Vec<(Point, Value)>) -> (r: Result<u64, Error>)
        requires
            4 + rows@.len() * 12 <= u32::MAX,
            old(self).stored().len() + 4 + rows@.len() * 12 <= usize::MAX,
        ensures
            io_only(r),
            r is Ok ==> r->Ok_0 == old(self).stored().len() && final(self).stored() == old(
                self,
            ).stored() + block_bytes(rows@),
    {
        let mut data: Vec<u8> = vec![0u8, 0u8, 0u8, 0u8];
        let ghost head = data@;
        let mut k: usize = 0;
        assert(pairs_bytes(rows@.take(0)) =~= Seq::<u8>::empty());
        while k < rows.len()
            invariant
                k <= rows@.len(),
                data@ == head + pairs_bytes(rows@.take(k as int)),
                head.len() == 4,
            decreases rows@.len() - k,
        {
            let (p, v) = rows[k];
            encode_pair(&mut data, p, v);
            proof {
                assert(rows@.take(k + 1) =~= rows@.take(k as int).push(rows@[k as int]));
                lemma_pairs_bytes_push(rows@.take(k as int), rows@[k as int]);
            }
            k = k + 1;
        }
        assert(rows@.take(rows@.len() as int) =~= rows@);
        let size = data.len() as u32;
        let prefix = be_encode(size);
        data.set(0, prefix[0]);
        data.set(1, prefix[1]);
        data.set(2, prefix[2]);
        data.set(3, prefix[3]);
        assert(data@ =~= block_bytes(rows@));
        let offset = self.store.len()?;
        self.store.write(offset, &data)?;
        assert(written(old(self).stored(), offset as int, data@) =~= old(self).stored() + data@);
        Ok(offset as u64)
    }

    /// The payload of the block at `offset`.
    pub fn read(&mut self, offset: u64) -> (r: Result<Vec<u8>, Error>)
        requires
            offset <= usize::MAX,
        ensures
            io_only(r),
            final(self).stored() == old(self).stored(),
            r is Ok ==> block_at(old(self).stored(), offset as int) == Some(r->Ok_0@),
    {
        self.store.read_block(offset as usize)
    }

    /// The pairs packed in `buf`, which holds whole records.
    pub fn parse(buf: &Vec<u8>) -> (r: Result<Vec<(Point, Value)>, Error>)
        requires
            buf@.len() % 12 == 0,
        ensures
            r is Ok,
            r->Ok_0@ == pairs_of(buf@),
    {
        let total = buf.len();
        let n = total / PAIR_SIZE;
        let mut results: Vec<(Point, Value)> = Vec::new();
        let mut i: usize = 0;
        while i < n
            invariant
                n == buf@.len() / 12,
                total == buf@.len(),
                i <= n,
                results@ == Seq::new(
                    i as nat,
                    |k: int| pair_of(buf@.subrange(k * 12, k * 12 + 12)),
                ),
            decreases n - i,
        {
            assert(i * 12 + 12 <= buf@.len()) by (nonlinear_arith)
                requires
                    i < n,
                    n == buf@.len() / 12,
            ;
            assert(i * 12 + 12 <= total);
            results.push(decode_pair(buf, i * PAIR_SIZE));
            i = i + 1;
            assert(results@ =~= Seq::new(
                i as nat,
                |k: int| pair_of(buf@.subrange(k * 12, k * 12 + 12)),
            ));
        }
        assert(results@ =~= pairs_of(buf@));
        Ok(results)
    }

    /// Every pair of the block at `offset`, in order.
    pub fn list(&mut self, offset: u64) -> (r: Result<Vec<(Point, Value)>, Error>)
        requires
            offset <= usize::MAX,
        ensures
            final(self).stored() == old(self).stored(),
            r is Ok ==> block_at(old(self).stored(), offset as int) is Some && block_at(old(self).stored(), offset as int)->Some_0.len() % 12 == 0
                && r->Ok_0@ == pairs_of(block_at(old(self).stored(), offset as int)->Some_0),
            r is Err && !(r->Err_0 is Io) ==> r->Err_0 is Decode && block_at(old(self).stored(), offset as int) is Some
                && block_at(old(self).stored(), offset as int)->Some_0.len() % 12 != 0,
    {
        let buf = self.read(offset)?;
        if buf.len() % PAIR_SIZE != 0 {
            return Err(Error::Decode);
        }
        Self::parse(&buf)
    }

    /// The pairs of the block at `offset` whose points lie in `bbox`, in block
    /// order.
    pub fn query(&mut self, offset: u64, bbox: &Bounds) -> (r: Result<Vec<(Point, Value)>, Error>)
        requires
            offset <= usize::MAX,
        ensures
            final(self).stored() == old(self).stored(),
            r is Ok ==> block_at(old(self).stored(), offset as int) is Some && block_at(old(self).stored(), offset as int)->Some_0.len() % 12 == 0
                && r->Ok_0@ == pairs_in(pairs_of(block_at(old(self).stored(), offset as int)->Some_0), *bbox),
            r is Err && !(r->Err_0 is Io) ==> r->Err_0 is Decode && block_at(old(self).stored(), offset as int) is Some
                && block_at(old(self).stored(), offset as int)->Some_0.len() % 12 != 0,
    {
        let rows = self.list(offset)?;
        let mut out: Vec<(Point, Value)> = Vec::new();
        let mut i: usize = 0;
        assert(rows@.take(0) =~= Seq::<(Point, Value)>::empty());
        while i < rows.len()
            invariant
                i <= rows@.len(),
                out@ == pairs_in(rows@.take(i as int), *bbox),
            decreases rows@.len() - i,
        {
            let row = rows[i];
            assert(rows@.take(i + 1).drop_last() =~= rows@.take(i as int));
            if row.0.overlaps(bbox) {
                out.push(row);
            }
            i = i + 1;
        }
        assert(rows@.take(rows@.len() as int) =~= rows@);
        Ok(out)
    }

    /// The length of the store in bytes.
    pub fn len(&self) -> (r: Result<u64, Error>)
        ensures
            io_only(r),
            r is Ok ==> r->Ok_0 == self.stored().len(),
    {
        let n = self.store.len()?;
        Ok(n as u64)
    }
}

} // verus!
