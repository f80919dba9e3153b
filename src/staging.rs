//! The staging log: fixed-size tagged records appended through a write cache,
//! with every record mirrored in memory, in append order.
use vstd::prelude::*;
use crate::{Bounds, Error, Point, Row, Value};
use crate::codec::{
    DELETE, INSERT, ROW_SIZE, decode_pair, encode_row, lemma_rows_bytes_append,
    lemma_rows_bytes_one, lemma_rows_of_bytes, row_at, rows_bytes, rows_of, rows_valid,
};
use crate::storage::{Storage, io_only, resized, written};
use crate::write_cache::WriteCache;

verus! {

/// The point and value of each insert of `rows` whose point lies in `b`, in order.
pub open spec fn inserts_in(rows: Seq<Row>, b: Bounds) -> Seq<(Point, Value)>
    decreases rows.len(),
{
    if rows.len() == 0 {
        Seq::empty()
    } else {
        let rest = inserts_in(rows.drop_first(), b);
        match rows[0] {
            Row::Insert(p, v) => if p.in_bounds(b) {
                seq![(p, v)] + rest
            } else {
                rest
            },
            Row::Delete(_, _) => rest,
        }
    }
}

/// Walks the inserts of a mirror whose points lie in a rectangle, one per call
/// of `next`, without touching the store.
pub struct StagingIterator<'a> {
    rows: &'a Vec<Row>,
    bbox: Bounds,
    index: usize,
}

impl<'a> StagingIterator<'a> {
    /// What is still to come.
    pub closed spec fn remaining(&self) -> Seq<(Point, Value)> {
        inserts_in(self.rows@.skip(self.index as int), self.bbox)
    }

    pub closed spec fn wf(&self) -> bool {
        self.index <= self.rows@.len()
    }

    /// Starts at the first row of `rows`.
    pub fn new(rows: &'a Vec<Row>, bbox: &Bounds) -> (r: Self)
        ensures
            r.wf(),
            r.remaining() == inserts_in(rows@, *bbox),
    {
        let r = StagingIterator { rows, bbox: *bbox, index: 0 };
        assert(rows@.skip(0) =~= rows@);
        r
    }

    /// The next insert in the rectangle, or `None` once there are no more.
    pub fn next(&mut self) -> (r: Option<(Point, Value)>)
        requires
            old(self).wf(),
        ensures
            final(self).wf(),
            old(self).remaining().len() == 0 ==> r is None && final(self).remaining().len() == 0,
            old(self).remaining().len() > 0 ==> r == Some(old(self).remaining()[0])
                && final(self).remaining() == old(self).remaining().drop_first(),
    {
        let len = self.rows.len();
        while self.index < len
            invariant
                self.wf(),
                len == self.rows@.len(),
                self.rows == old(self).rows,
                self.bbox == old(self).bbox,
                self.remaining() == old(self).remaining(),
            decreases len - self.index,
        {
            let i = self.index;
            self.index = self.index + 1;
            proof {
                assert(self.rows@.skip(i as int).drop_first() =~= self.rows@.skip(i + 1));
                assert(self.rows@.skip(i as int)[0] == self.rows@[i as int]);
            }
            match self.rows[i] {
                Row::Insert(point, value) => {
                    if point.overlaps(&self.bbox) {
                        return Some((point, value));
                    }
                },
                Row::Delete(_, _) => {},
            }
        }
        assert(self.rows@.skip(self.index as int) =~= Seq::<Row>::empty());
        None
    }
}

/// A log of pending inserts and deletes over a store `S`, with an in-memory
/// mirror of every record.
pub struct Staging<S: Storage> {
    store: WriteCache<S>,
    pub rows: Vec<Row>,
}

impl<S: Storage> Staging<S> {
    /// The mirrored rows, in append order.
    pub closed spec fn mirror(&self) -> Seq<Row> {
        self.rows@
    }

    /// The mirror and the cached bytes agree record for record.
    pub closed spec fn wf(&self) -> bool {
        &&& self.store.wf()
        &&& self.store.is_enabled()
        &&& self.store.view() == rows_bytes(self.mirror())
    }

    /// The bytes held by the underlying store.
    pub closed spec fn stored(&self) -> Seq<u8> {
        self.store.store_view()
    }

    /// The mirrored rows.
    pub fn rows(&self) -> (r: &Vec<Row>)
        ensures
            r@ == self.mirror(),
    {
        &self.rows
    }

    /// Gives back the underlying store; rows not yet committed are dropped.
    pub fn into_store(self) -> (r: S)
        ensures
            r.bytes_view() == self.stored(),
    {
        self.store.into_store()
    }

    /// Opens the log over `store`, replaying what it holds into the mirror; the
    /// bytes must be whole records with known tags.
    pub fn open(store: S) -> (r: Result<Self, Error>)
        ensures
            r is Ok ==> r->Ok_0.wf(),
            r is Ok ==> rows_valid(store.bytes_view()),
            r is Ok ==> r->Ok_0.mirror() == rows_of(store.bytes_view()),
            r is Ok ==> r->Ok_0.stored() == store.bytes_view(),
            !rows_valid(store.bytes_view()) ==> r is Err,
            r is Err ==> (r->Err_0 is Io || (r->Err_0 is Decode && !rows_valid(store.bytes_view()))),
    {
        let slen = store.len()?;
        let cache = WriteCache::open(store)?;
        let mut staging = Staging { store: cache, rows: Vec::new() };
        if slen != 0 {
            staging.load()?;
        } else {
            assert(staging.mirror() =~= Seq::<Row>::empty());
            assert(rows_bytes(staging.mirror()) =~= Seq::<u8>::empty());
            assert(staging.store.view() =~= Seq::<u8>::empty());
            assert(rows_of(store.bytes_view()) =~= Seq::<Row>::empty());
        }
        Ok(staging)
    }

    /// Replays the cached bytes into the empty mirror.
    fn load(&mut self) -> (r: Result<(), Error>)
        requires
            old(self).store.wf(),
            old(self).store.is_enabled(),
            old(self).mirror().len() == 0,
        ensures
            final(self).store.view() == old(self).store.view(),
            final(self).store.store_view() == old(self).store.store_view(),
            r is Ok ==> final(self).wf() && rows_valid(old(self).store.view())
                && final(self).mirror() == rows_of(old(self).store.view()),
            !rows_valid(old(self).store.view()) ==> r is Err,
            r is Err ==> (r->Err_0 is Io || (r->Err_0 is Decode && !rows_valid(
                old(self).store.view(),
            ))),
    {
        let ghost view = self.store.view();
        let len = self.store.len()?;
        let buf = self.store.read(0, len)?;
        assert(buf@ =~= view);
        if len % ROW_SIZE != 0 {
            return Err(Error::Decode);
        }
        let m = len / ROW_SIZE;
        let mut i: usize = 0;
        while i < m
            invariant
                self.store.wf(),
                self.store.is_enabled(),
                self.store.view() == view,
                view == old(self).store.view(),
                self.store.store_view() == old(self).store.store_view(),
                buf@ == view,
                len == view.len(),
                len % 13 == 0,
                m == len / 13,
                i <= m,
                self.mirror() == Seq::new(i as nat, |k: int| row_at(view, k * 13)),
                forall|k: int| 0 <= k < i ==> #[trigger] view[k * 13] == INSERT || view[k * 13] == DELETE,
            decreases m - i,
        {
            assert(i * 13 + 13 <= len) by (nonlinear_arith)
                requires
                    i < m,
                    m == len / 13,
            ;
            let off = i * ROW_SIZE;
            let tag = buf[off];
            if tag != INSERT && tag != DELETE {
                assert(!rows_valid(view)) by {
                    assert(!(view[i * 13] == INSERT || view[i * 13] == DELETE));
                }
                return Err(Error::Decode);
            }
            let (point, value) = decode_pair(&buf, off + 1);
            let row = if tag == INSERT { Row::Insert(point, value) } else { Row::Delete(point, value) };
            self.rows.push(row);
            i = i + 1;
            assert(self.mirror() =~= Seq::new(i as nat, |k: int| row_at(view, k * 13)));
        }
        assert(self.mirror() =~= rows_of(view));
        proof {
            lemma_rows_of_bytes(view);
        }
        Ok(())
    }

    /// Cuts the store to nothing and empties the mirror.
    pub fn clear(&mut self) -> (r: Result<(), Error>)
        requires
            old(self).wf(),
        ensures
            io_only(r),
            final(self).wf(),
            r is Ok ==> final(self).mirror().len() == 0,
            r is Ok ==> final(self).stored().len() == 0,
            r is Err ==> final(self).mirror() == old(self).mirror(),
    {
        self.store.truncate(0)?;
        self.rows.clear();
        assert(rows_bytes(self.mirror()) =~= Seq::<u8>::empty());
        assert(resized(old(self).store.view(), 0) =~= Seq::<u8>::empty());
        Ok(())
    }

    /// The length of the log in bytes.
    pub fn bytes(&self) -> (r: Result<usize, Error>)
        requires
            self.wf(),
        ensures
            r is Ok && r->Ok_0 == self.mirror().len() * 13,
    {
        self.store.len()
    }

    /// The number of records in the log.
    pub fn len(&self) -> (r: Result<usize, Error>)
        requires
            self.wf(),
        ensures
            r is Ok && r->Ok_0 == self.mirror().len(),
    {
        let b = self.bytes()?;
        assert((self.mirror().len() * 13) / 13 == self.mirror().len()) by (nonlinear_arith);
        Ok(b / ROW_SIZE)
    }

    /// Appends `rows` to the log, as one cached write at its end, and to the
    /// mirror. Every record is checked to have the fixed size before anything
    /// changes.
    pub fn batch(&mut self, rows: &Vec<Row>) -> (r: Result<(), Error>)
        requires
            old(self).wf(),
            (old(self).mirror().len() + rows@.len()) * 13 <= usize::MAX,
        ensures
            final(self).wf(),
            r is Ok,
            final(self).mirror() == old(self).mirror() + rows@,
            final(self).stored() == old(self).stored(),
    {
        let offset = self.store.len()?;
        let mut buf: Vec<u8> = Vec::new();
        let mut k: usize = 0;
        assert(rows@.take(0) =~= Seq::<Row>::empty());
        assert(rows_bytes(Seq::<Row>::empty()) =~= Seq::<u8>::empty());
        while k < rows.len()
            invariant
                k <= rows@.len(),
                buf@ == rows_bytes(rows@.take(k as int)),
                buf@.len() == k * 13,
            decreases rows@.len() - k,
        {
            let bytes = encode_row(&rows[k]);
            if bytes.len() != ROW_SIZE {
                return Err(Error::Invariant);
            }
            let mut bytes = bytes;
            buf.append(&mut bytes);
            proof {
                assert(rows@.take(k + 1) =~= rows@.take(k as int) + seq![rows@[k as int]]);
                lemma_rows_bytes_append(rows@.take(k as int), seq![rows@[k as int]]);
                lemma_rows_bytes_one(rows@[k as int]);
            }
            k = k + 1;
        }
        assert(rows@.take(rows@.len() as int) =~= rows@);
        self.store.write(offset, &buf)?;
        let ghost cache = self.store;
        let mut j: usize = 0;
        while j < rows.len()
            invariant
                self.store == cache,
                j <= rows@.len(),
                self.mirror() == old(self).mirror() + rows@.take(j as int),
            decreases rows@.len() - j,
        {
            self.rows.push(rows[j]);
            j = j + 1;
            assert(self.mirror() =~= old(self).mirror() + rows@.take(j as int));
        }
        proof {
            assert(self.mirror() =~= old(self).mirror() + rows@);
            lemma_rows_bytes_append(old(self).mirror(), rows@);
            assert(written(old(self).store.view(), offset as int, buf@) =~= old(self).store.view() + buf@);
        }
        Ok(())
    }

    /// Flushes the cache: the store then holds every record of the mirror.
    pub fn commit(&mut self) -> (r: Result<(), Error>)
        requires
            old(self).wf(),
        ensures
            io_only(r),
            final(self).wf(),
            final(self).mirror() == old(self).mirror(),
            r is Ok ==> final(self).stored() == rows_bytes(final(self).mirror()),
    {
        self.store.commit()
    }

    /// The inserts of the mirror whose points lie in `bbox`, in mirror order.
    pub fn query<'a>(&'a self, bbox: &Bounds) -> (r: StagingIterator<'a>)
        ensures
            r.wf(),
            r.remaining() == inserts_in(self.mirror(), *bbox),
    {
        StagingIterator::new(&self.rows, bbox)
    }
}

} // verus!
