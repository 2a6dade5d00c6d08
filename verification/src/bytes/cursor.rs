use crate::allocator::TurboAlloc;
use crate::bytes::buffer::ByteBuffer;
use crate::bytes::reader::ByteReader;
use crate::bytes::writer::ByteWriter;
use crate::error::{Error, Result};
use vstd::prelude::*;

verus! {

/// Storage whose bytes a cursor can read.
pub trait ByteSource {
    /// The bytes of the storage.
    spec fn source(&self) -> Seq<u8>;

    /// Returns the bytes of the storage.
    fn source_bytes(&self) -> (r: &[u8])
        ensures
            r@ == self.source(),
    ;
}

/// Storage whose bytes a cursor can overwrite in place.
pub trait ByteSink {
    /// The bytes of the storage.
    spec fn sink(&self) -> Seq<u8>;

    /// Returns the bytes of the storage for in-place changes; the storage then holds
    /// what the slice holds when it is dropped.
    fn sink_bytes(&mut self) -> (r: &mut [u8])
        ensures
            r@ == old(self).sink(),
            final(r)@.len() == r@.len() ==> (*final(self)).sink() == final(r)@,
    ;
}

impl ByteSource for Vec<u8> {
    open spec fn source(&self) -> Seq<u8> {
        self@
    }

    fn source_bytes(&self) -> (r: &[u8]) {
        self.as_slice()
    }
}

impl ByteSink for Vec<u8> {
    open spec fn sink(&self) -> Seq<u8> {
        self@
    }

    fn sink_bytes(&mut self) -> (r: &mut [u8]) {
        self.as_mut_slice()
    }
}

impl<const N: usize> ByteSource for [u8; N] {
    open spec fn source(&self) -> Seq<u8> {
        self@
    }

    fn source_bytes(&self) -> (r: &[u8]) {
        self.as_slice()
    }
}

impl<const N: usize> ByteSink for [u8; N] {
    open spec fn sink(&self) -> Seq<u8> {
        self@
    }

    fn sink_bytes(&mut self) -> (r: &mut [u8]) {
        self
    }
}

impl<'a> ByteSource for &'a [u8] {
    open spec fn source(&self) -> Seq<u8> {
        (**self)@
    }

    fn source_bytes(&self) -> (r: &[u8]) {
        *self
    }
}

impl<'a> ByteSource for &'a mut [u8] {
    open spec fn source(&self) -> Seq<u8> {
        (**self)@
    }

    fn source_bytes(&self) -> (r: &[u8]) {
        &**self
    }
}

impl<'a> ByteSink for &'a mut [u8] {
    open spec fn sink(&self) -> Seq<u8> {
        (**self)@
    }

    fn sink_bytes(&mut self) -> (r: &mut [u8]) {
        &mut **self
    }
}

impl<A: TurboAlloc> ByteSource for ByteBuffer<A> {
    /// The contents of the buffer (for a buffer that is not well formed, whatever
    /// part of its block it can show).
    open spec fn source(&self) -> Seq<u8> {
        self.spec_contents()
    }

    fn source_bytes(&self) -> (r: &[u8]) {
        self.contents()
    }
}

impl<A: TurboAlloc> ByteSink for ByteBuffer<A> {
    /// The contents of the buffer (for a buffer that is not well formed, whatever
    /// part of its block it can show).
    open spec fn sink(&self) -> Seq<u8> {
        self.spec_contents()
    }

    fn sink_bytes(&mut self) -> (r: &mut [u8]) {
        self.contents_mut()
    }
}

/// A read and write position over byte storage.
pub struct Cursor<T> {
    inner: T,
    pos: usize,
}

impl<T> Cursor<T> {
    /// The storage.
    pub closed spec fn spec_inner(&self) -> T {
        self.inner
    }

    /// The position.
    pub closed spec fn spec_position(&self) -> nat {
        self.pos as nat
    }

    /// A cursor at position 0 over `inner`.
    pub fn new(inner: T) -> (r: Self)
        ensures
            r.spec_inner() == inner,
            r.spec_position() == 0,
    {
        Cursor { inner, pos: 0 }
    }

    /// Returns the position.
    pub fn position(&self) -> (r: usize)
        ensures
            r == self.spec_position(),
    {
        self.pos
    }

    /// Moves the cursor to `pos`, which may lie past the end of the storage.
    pub fn set_position(&mut self, pos: usize)
        ensures
            final(self).spec_position() == pos,
            final(self).spec_inner() == old(self).spec_inner(),
    {
        self.pos = pos;
    }

    /// Returns the storage.
    pub fn into_inner(self) -> (r: T)
        ensures
            r == self.spec_inner(),
    {
        self.inner
    }

    /// Returns a reference to the storage.
    pub fn get_ref(&self) -> (r: &T)
        ensures
            *r == self.spec_inner(),
    {
        &self.inner
    }

    /// Returns a mutable reference to the storage.
    pub fn get_mut(&mut self) -> (r: &mut T)
        ensures
            *r == old(self).spec_inner(),
            final(self).spec_inner() == *final(r),
            final(self).spec_position() == old(self).spec_position(),
    {
        &mut self.inner
    }
}

/// The bytes after position `pos`, none if `pos` lies past the end.
pub open spec fn after(s: Seq<u8>, pos: nat) -> Seq<u8> {
    if pos <= s.len() {
        s.skip(pos as int)
    } else {
        Seq::empty()
    }
}

/// The bytes before position `pos`, all of them if `pos` lies past the end.
pub open spec fn before(s: Seq<u8>, pos: nat) -> Seq<u8> {
    if pos <= s.len() {
        s.take(pos as int)
    } else {
        s
    }
}

impl<T: ByteSource> ByteReader for Cursor<T> {
    open spec fn remaining(&self) -> Seq<u8> {
        after(self.spec_inner().source(), self.spec_position())
    }

    /// Reads the byte at the position; fails with `OutOfBounds` at or past the end.
    fn read_u8(&mut self) -> (r: Result<u8>)
        ensures
            final(self).spec_inner() == old(self).spec_inner(),
            r == (if old(self).spec_position() < old(self).spec_inner().source().len() {
                Ok::<u8, Error>(old(self).spec_inner().source()[old(self).spec_position() as int])
            } else {
                Err(
                    Error::OutOfBounds {
                        index: old(self).spec_position() as usize,
                        len: old(self).spec_inner().source().len() as usize,
                    },
                )
            }),
            r is Ok ==> final(self).spec_position() == old(self).spec_position() + 1,
            r is Err ==> final(self).spec_position() == old(self).spec_position(),
    {
        let slice = self.inner.source_bytes();
        if self.pos < slice.len() {
            let b = slice[self.pos];
            let ghost s = slice@;
            self.pos = self.pos + 1;
            assert(after(s, self.pos as nat) =~= after(s, (self.pos - 1) as nat).drop_first());
            Ok(b)
        } else {
            Err(Error::OutOfBounds { index: self.pos, len: slice.len() })
        }
    }

    /// Copies the `dest.len()` bytes at the position; fails with `OutOfBounds` when they
    /// run past the end (reporting the wrapped end if it overflows).
    fn read_bytes(&mut self, dest: &mut [u8]) -> (r: Result<()>)
        ensures
            final(self).spec_inner() == old(self).spec_inner(),
            r == (if old(self).spec_position() + old(dest)@.len() > usize::MAX {
                Err::<(), Error>(
                    Error::OutOfBounds {
                        index: (old(self).spec_position() + old(dest)@.len() - usize::MAX
                            - 1) as usize,
                        len: old(self).spec_inner().source().len() as usize,
                    },
                )
            } else if old(self).spec_position() + old(dest)@.len() > old(
                self,
            ).spec_inner().source().len() {
                Err::<(), Error>(
                    Error::OutOfBounds {
                        index: (old(self).spec_position() + old(dest)@.len()) as usize,
                        len: old(self).spec_inner().source().len() as usize,
                    },
                )
            } else {
                Ok::<(), Error>(())
            }),
            r is Ok ==> final(self).spec_position() == old(self).spec_position() + old(
                dest,
            )@.len(),
            r is Err ==> final(self).spec_position() == old(self).spec_position(),
    {
        let slice = self.inner.source_bytes();
        let n = dest.len();
        let end = match self.pos.checked_add(n) {
            Some(e) => e,
            None => {
                return Err(Error::OutOfBounds { index: self.pos.wrapping_add(n), len: slice.len() });
            },
        };
        if end > slice.len() {
            return Err(Error::OutOfBounds { index: end, len: slice.len() });
        }
        let start = self.pos;
        let mut i: usize = 0;
        while i < n
            invariant
                i <= n,
                n == dest@.len(),
                start + n == end,
                end <= slice@.len(),
                forall|j: int| 0 <= j < i ==> dest@[j] == slice@[start + j],
            decreases n - i,
        {
            dest[i] = slice[start + i];
            i = i + 1;
        }
        self.pos = end;
        assert(dest@ =~= after(slice@, start as nat).take(n as int));
        assert(after(slice@, end as nat) =~= after(slice@, start as nat).skip(n as int));
        Ok(())
    }
}

impl<T: ByteSink> ByteWriter for Cursor<T> {
    open spec fn writer_wf(&self) -> bool {
        true
    }

    open spec fn written(&self) -> Seq<u8> {
        before(self.spec_inner().sink(), self.spec_position())
    }

    /// Overwrites the byte at the position; fails with `OutOfBounds` at or past the end.
    fn write_u8(&mut self, val: u8) -> (r: Result<()>)
        ensures
            old(self).spec_position() < old(self).spec_inner().sink().len() ==> r is Ok
                && final(self).spec_inner().sink() == old(self).spec_inner().sink().update(
                old(self).spec_position() as int,
                val,
            ) && final(self).spec_position() == old(self).spec_position() + 1,
            old(self).spec_position() >= old(self).spec_inner().sink().len() ==> r == Err::<
                (),
                Error,
            >(
                Error::OutOfBounds {
                    index: old(self).spec_position() as usize,
                    len: old(self).spec_inner().sink().len() as usize,
                },
            ) && final(self).spec_inner().sink() == old(self).spec_inner().sink()
                && final(self).spec_position() == old(self).spec_position(),
    {
        let slice = self.inner.sink_bytes();
        if self.pos < slice.len() {
            let ghost s = slice@;
            slice[self.pos] = val;
            self.pos = self.pos + 1;
            assert(before(s.update(self.pos - 1, val), self.pos as nat) =~= before(
                s,
                (self.pos - 1) as nat,
            ).push(val));
            Ok(())
        } else {
            Err(Error::OutOfBounds { index: self.pos, len: slice.len() })
        }
    }

    /// Overwrites the `src.len()` bytes at the position; fails with `OutOfBounds` when
    /// they run past the end (reporting the wrapped end if it overflows).
    fn write_bytes(&mut self, src: &[u8]) -> (r: Result<()>)
        ensures
            old(self).spec_position() + src@.len() <= old(self).spec_inner().sink().len() ==> r is Ok
                && final(self).spec_position() == old(self).spec_position() + src@.len()
                && final(self).spec_inner().sink().len() == old(self).spec_inner().sink().len(),
            old(self).spec_position() + src@.len() > usize::MAX ==> r == Err::<(), Error>(
                Error::OutOfBounds {
                    index: (old(self).spec_position() + src@.len() - usize::MAX - 1) as usize,
                    len: old(self).spec_inner().sink().len() as usize,
                },
            ),
            old(self).spec_position() + src@.len() <= usize::MAX && old(self).spec_position()
                + src@.len() > old(self).spec_inner().sink().len() ==> r == Err::<(), Error>(
                Error::OutOfBounds {
                    index: (old(self).spec_position() + src@.len()) as usize,
                    len: old(self).spec_inner().sink().len() as usize,
                },
            ),
            r is Err ==> final(self).spec_inner().sink() == old(self).spec_inner().sink()
                && final(self).spec_position() == old(self).spec_position(),
            r is Ok ==> final(self).spec_inner().sink() == old(self).spec_inner().sink().take(
                old(self).spec_position() as int,
            ) + src@ + old(self).spec_inner().sink().skip(
                (old(self).spec_position() + src@.len()) as int,
            ),
    {
        let slice = self.inner.sink_bytes();
        let n = src.len();
        let end = match self.pos.checked_add(n) {
            Some(e) => e,
            None => {
                return Err(Error::OutOfBounds { index: self.pos.wrapping_add(n), len: slice.len() });
            },
        };
        if end > slice.len() {
            return Err(Error::OutOfBounds { index: end, len: slice.len() });
        }
        let ghost s = slice@;
        let start = self.pos;
        let mut i: usize = 0;
        while i < n
            invariant
                i <= n,
                n == src@.len(),
                start + n == end,
                end <= s.len(),
                slice@.len() == s.len(),
                forall|j: int| 0 <= j < start ==> slice@[j] == s[j],
                forall|j: int| 0 <= j < i ==> slice@[start + j] == src@[j],
                forall|j: int| end <= j < s.len() ==> slice@[j] == s[j],
            decreases n - i,
        {
            slice[start + i] = src[i];
            i = i + 1;
        }
        self.pos = end;
        assert(before(slice@, end as nat) =~= before(s, start as nat) + src@);
        assert(slice@ =~= s.take(start as int) + src@ + s.skip(end as int));
        Ok(())
    }
}

/// Bytes written through a cursor at position `p` are what a read from position `p`
/// of the same storage gives back.
pub proof fn law_read_back_written(before_write: Seq<u8>, after_write: Seq<u8>, p: nat, src: Seq<u8>)
    requires
        p <= before_write.len(),
        p + src.len() <= after_write.len(),
        before(after_write, p + src.len()) == before(before_write, p) + src,
    ensures
        after(after_write, p).take(src.len() as int) == src,
{
    assert(after(after_write, p).take(src.len() as int) =~= src) by {
        assert forall|i: int| 0 <= i < src.len() implies after(after_write, p).take(
            src.len() as int,
        )[i] == src[i] by {
            assert(before(after_write, p + src.len())[p + i] == after_write[p + i]);
            assert((before(before_write, p) + src)[p + i] == src[i]);
        }
    }
}

} // verus!
