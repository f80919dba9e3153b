//! The random-access byte store that the components sit on, and an in-memory
//! implementation of it.
use vstd::prelude::*;
use crate::Error;
use crate::codec::{be_value, be_decode};

verus! {

/// Byte `i` of `s`, or zero outside it.
pub open spec fn byte_or_zero(s: Seq<u8>, i: int) -> u8 {
    if 0 <= i < s.len() {
        s[i]
    } else {
        0
    }
}

/// `s` with `data` written at `offset`, grown with zeros where it was shorter.
pub open spec fn written(s: Seq<u8>, offset: int, data: Seq<u8>) -> Seq<u8> {
    let end = offset + data.len();
    Seq::new(
        if end > s.len() { end as nat } else { s.len() },
        |i: int| if offset <= i < end { data[i - offset] } else { byte_or_zero(s, i) },
    )
}

/// `s` cut, or grown with zeros, to `len` bytes.
pub open spec fn resized(s: Seq<u8>, len: nat) -> Seq<u8> {
    Seq::new(len, |i: int| byte_or_zero(s, i))
}

/// The payload of the block framed at `offset` in `s`: a big-endian `u32` length
/// `L` that counts itself, followed by `L - 4` bytes. `None` where no such block fits.
pub open spec fn block_at(s: Seq<u8>, offset: int) -> Option<Seq<u8>> {
    if 0 <= offset && offset + 4 <= s.len() {
        let l = be_value(s.subrange(offset, offset + 4)) as int;
        if 4 <= l && offset + l <= s.len() {
            Some(s.subrange(offset + 4, offset + l))
        } else {
            None
        }
    } else {
        None
    }
}

/// A failure, if any, is an I/O error.
pub open spec fn io_only<T>(r: Result<T, Error>) -> bool {
    r matches Err(e) ==> e is Io
}

/// An offset-addressed, growable byte store. Every operation may fail; on
/// success it does what its contract says.
pub trait Storage: Sized {
    /// The bytes held.
    spec fn bytes_view(&self) -> Seq<u8>;

    /// The number of bytes held.
    fn len(&self) -> (r: Result<usize, Error>)
        ensures
            io_only(r),
            r is Ok ==> r->Ok_0 == self.bytes_view().len(),
    ;

    /// Exactly `length` bytes from `offset`; fails where they are not all held.
    fn read(&mut self, offset: usize, length: usize) -> (r: Result<Vec<u8>, Error>)
        ensures
            io_only(r),
            final(self).bytes_view() == old(self).bytes_view(),
            r is Ok ==> offset + length <= old(self).bytes_view().len() && r->Ok_0@
                == old(self).bytes_view().subrange(offset as int, offset + length),
    ;

    /// Writes `data` at `offset`, growing the store with zeros where needed.
    fn write(&mut self, offset: usize, data: &Vec<u8>) -> (r: Result<(), Error>)
        requires
            offset + data@.len() <= usize::MAX,
        ensures
            io_only(r),
            old(self).bytes_view().len() <= final(self).bytes_view().len() <= if offset
                + data@.len() > old(self).bytes_view().len() {
                offset + data@.len()
            } else {
                old(self).bytes_view().len() as int
            },
            forall|i: int|
                !(offset <= i < offset + data@.len()) ==> #[trigger] byte_or_zero(
                    final(self).bytes_view(),
                    i,
                ) == byte_or_zero(old(self).bytes_view(), i),
            r is Ok ==> final(self).bytes_view() == written(
                old(self).bytes_view(),
                offset as int,
                data@,
            ),
    ;

    /// Cuts the store, or grows it with zeros, to `length` bytes.
    fn truncate(&mut self, length: usize) -> (r: Result<(), Error>)
        ensures
            io_only(r),
            r is Ok ==> final(self).bytes_view() == resized(old(self).bytes_view(), length as nat),
            r is Err ==> final(self).bytes_view() == old(self).bytes_view(),
    ;

    /// A hint that the bytes in `[offset, offset + length)` are no longer needed:
    /// they may change, the length and all other bytes stay.
    fn del(&mut self, offset: usize, length: usize) -> (r: Result<(), Error>)
        ensures
            io_only(r),
            final(self).bytes_view().len() == old(self).bytes_view().len(),
            r is Ok ==> forall|i: int|
                0 <= i < old(self).bytes_view().len() && !(offset <= i < offset + length)
                    ==> #[trigger] final(self).bytes_view()[i] == old(self).bytes_view()[i],
    ;

    /// The payload of the length-framed block that starts at `offset`.
    fn read_block(&mut self, offset: usize) -> (r: Result<Vec<u8>, Error>)
        ensures
            io_only(r),
            final(self).bytes_view() == old(self).bytes_view(),
            r is Ok ==> block_at(old(self).bytes_view(), offset as int) == Some(r->Ok_0@),
    ;
}

/// A store held in memory. Its operations fail only where the bytes asked for
/// are not there.
pub struct MemoryStorage {
    data: Vec<u8>,
}

impl MemoryStorage {
    /// An empty store.
    pub fn new() -> (r: MemoryStorage)
        ensures
            r.bytes_view() == Seq::<u8>::empty(),
    {
        MemoryStorage { data: Vec::new() }
    }

    /// A store that holds `data`.
    pub fn from_bytes(data: Vec<u8>) -> (r: MemoryStorage)
        ensures
            r.bytes_view() == data@,
    {
        MemoryStorage { data }
    }

    /// A copy of the bytes held.
    pub fn to_bytes(&self) -> (r: Vec<u8>)
        ensures
            r@ == self.bytes_view(),
    {
        self.data.clone()
    }
}

/// The bytes of `v` from `start` to `end`.
fn copy_range(v: &Vec<u8>, start: usize, end: usize) -> (r: Vec<u8>)
    requires
        start <= end <= v@.len(),
    ensures
        r@ == v@.subrange(start as int, end as int),
{
    let mut r: Vec<u8> = Vec::with_capacity(end - start);
    let mut k: usize = start;
    while k < end
        invariant
            start <= k <= end <= v@.len(),
            r@ == v@.subrange(start as int, k as int),
        decreases end - k,
    {
        r.push(v[k]);
        k = k + 1;
        assert(r@ =~= v@.subrange(start as int, k as int));
    }
    r
}

impl Storage for MemoryStorage {
    closed spec fn bytes_view(&self) -> Seq<u8> {
        self.data@
    }

    fn len(&self) -> (r: Result<usize, Error>) {
        Ok(self.data.len())
    }

    fn read(&mut self, offset: usize, length: usize) -> (r: Result<Vec<u8>, Error>) {
        if offset <= self.data.len() && length <= self.data.len() - offset {
            Ok(copy_range(&self.data, offset, offset + length))
        } else {
            Err(Error::Io(String::from_str("read out of range")))
        }
    }

    fn write(&mut self, offset: usize, data: &Vec<u8>) -> (r: Result<(), Error>) {
        let ghost s0 = self.data@;
        let end = offset + data.len();
        if end > self.data.len() {
            self.data.resize(end, 0u8);
        }
        let ghost s1 = self.data@;
        assert(s1 =~= Seq::new(s1.len(), |i: int| byte_or_zero(s0, i)));
        let mut k: usize = 0;
        while k < data.len()
            invariant
                end == offset + data@.len(),
                end <= self.data@.len(),
                self.data@.len() == s1.len(),
                s1.len() == (if end > s0.len() { end as nat } else { s0.len() }),
                k <= data@.len(),
                forall|i: int|
                    0 <= i < self.data@.len() ==> #[trigger] self.data@[i] == (if offset <= i
                        < offset + k { data@[i - offset] } else { byte_or_zero(s0, i) }),
            decreases data@.len() - k,
        {
            self.data.set(offset + k, data[k]);
            k = k + 1;
        }
        assert(self.data@ =~= written(s0, offset as int, data@));
        Ok(())
    }

    fn truncate(&mut self, length: usize) -> (r: Result<(), Error>) {
        let ghost s0 = self.data@;
        if length <= self.data.len() {
            self.data.truncate(length);
        } else {
            self.data.resize(length, 0u8);
        }
        assert(self.data@ =~= resized(s0, length as nat));
        Ok(())
    }

    fn del(&mut self, offset: usize, length: usize) -> (r: Result<(), Error>) {
        Ok(())
    }

    fn read_block(&mut self, offset: usize) -> (r: Result<Vec<u8>, Error>) {
        let n = self.data.len();
        if offset <= n && 4 <= n - offset {
            let l = be_decode(&self.data, offset) as usize;
            if 4 <= l && l <= n - offset {
                return Ok(copy_range(&self.data, offset + 4, offset + l));
            }
        }
        Err(Error::Io(String::from_str("no block at offset")))
    }
}

} // verus!
