use crate::allocator::{GlobalAlloc, Layout, TurboAlloc};
use crate::bytes::writer::ByteWriter;
use crate::error::{Error, Result};
use vstd::prelude::*;

verus! {

/// A growable byte buffer whose block comes from a [`TurboAlloc`] allocator.
///
/// The block holds `capacity` bytes; the first `len` of them are the buffer's contents.
#[derive(Clone, Debug)]
pub struct ByteBuffer<A: TurboAlloc = GlobalAlloc> {
    block: Vec<u8>,
    len: usize,
    allocator: A,
}

/// The capacity that `reserve` asks for when the buffer must grow: twice the current
/// capacity (saturating), or the required length if that is more.
pub open spec fn grown_capacity(capacity: nat, required: nat) -> nat {
    let doubled = if capacity * 2 > usize::MAX {
        usize::MAX as nat
    } else {
        capacity * 2
    };
    if doubled > required {
        doubled
    } else {
        required
    }
}

impl<A: TurboAlloc> ByteBuffer<A> {
    /// The length never exceeds the block, and the block never exceeds `isize::MAX`
    /// bytes.
    pub closed spec fn wf(&self) -> bool {
        &&& self.len <= self.block@.len()
        &&& self.block@.len() <= isize::MAX
    }

    /// The contents of the buffer.
    pub closed spec fn view(&self) -> Seq<u8> {
        self.block@.take(self.len as int)
    }

    /// All bytes of the allocated block, including those past the length.
    pub closed spec fn spec_block(&self) -> Seq<u8> {
        self.block@
    }

    /// The contents where the length fits the block, otherwise the whole block.
    pub closed spec fn spec_contents(&self) -> Seq<u8> {
        if self.len <= self.block@.len() {
            self@
        } else {
            self.block@
        }
    }

    /// The number of bytes the block holds.
    pub closed spec fn spec_capacity(&self) -> nat {
        self.block@.len()
    }

    /// The allocator the block comes from.
    pub closed spec fn spec_allocator(&self) -> A {
        self.allocator
    }

    /// A well-formed buffer holds at most its capacity, which is at most `isize::MAX`.
    pub proof fn lemma_wf_bounds(&self)
        requires
            self.wf(),
        ensures
            self@.len() <= self.spec_capacity() <= isize::MAX,
            self.spec_contents() == self@,
            self@ == self.spec_block().take(self@.len() as int),
    {
    }

    /// Tests whether the buffer is well formed.
    pub fn check_wf(&self) -> (r: bool)
        ensures
            r == self.wf(),
    {
        self.len <= self.block.len() && self.block.len() <= isize::MAX as usize
    }

    /// Creates an empty buffer without allocating.
    pub fn new(allocator: A) -> (r: Self)
        ensures
            r.wf(),
            r@ == Seq::<u8>::empty(),
            r.spec_capacity() == 0,
            r.spec_allocator() == allocator,
    {
        let r = ByteBuffer { block: Vec::new(), len: 0, allocator };
        assert(r@ =~= Seq::<u8>::empty());
        r
    }

    /// Creates an empty buffer whose block holds exactly `capacity` bytes.
    ///
    /// Fails with `CapacityOverflow` when `capacity` exceeds `isize::MAX`, or with the
    /// allocator's error.
    pub fn with_capacity(capacity: usize, allocator: A) -> (r: Result<Self>)
        ensures
            r matches Ok(b) ==> b.wf() && b@ == Seq::<u8>::empty() && b.spec_capacity() == capacity,
            capacity == 0 ==> r is Ok,
            capacity > isize::MAX ==> r == Err::<Self, Error>(
                Error::CapacityOverflow { limit: usize::MAX, requested: capacity },
            ),
            r matches Err(e) ==> allocator.spec_failure(e) || (capacity > isize::MAX && e
                == Error::CapacityOverflow { limit: usize::MAX, requested: capacity }),
            r matches Ok(b) ==> b.spec_allocator() == allocator,
    {
        let mut buf = Self::new(allocator);
        if capacity > 0 {
            match buf.resize_capacity(capacity) {
                Ok(()) => {},
                Err(e) => {
                    return Err(e);
                },
            }
        }
        Ok(buf)
    }

    /// Returns the number of bytes in the buffer.
    pub fn len(&self) -> (r: usize)
        requires
            self.wf(),
        ensures
            r == self@.len(),
            r <= self.spec_capacity() <= isize::MAX,
    {
        self.len
    }

    /// Returns `true` if the buffer holds no bytes.
    pub fn is_empty(&self) -> (r: bool)
        requires
            self.wf(),
        ensures
            r == (self@.len() == 0),
    {
        self.len == 0
    }

    /// Returns the number of bytes the block holds.
    pub fn capacity(&self) -> (r: usize)
        requires
            self.wf(),
        ensures
            r == self.spec_capacity(),
            self@.len() <= r <= isize::MAX,
            self@ == self.spec_block().take(self@.len() as int),
    {
        self.block.len()
    }

    /// Resizes the block to exactly `new_capacity` bytes, cutting the contents to fit.
    ///
    /// A capacity of zero gives the block back. Fails with `CapacityOverflow` when
    /// `new_capacity` exceeds `isize::MAX`, or with the allocator's error; a failed
    /// resize changes nothing.
    pub fn resize_capacity(&mut self, new_capacity: usize) -> (r: Result<()>)
        requires
            old(self).wf(),
        ensures
            final(self).wf(),
            r is Ok ==> final(self).spec_capacity() == new_capacity,
            r is Ok ==> final(self)@ == old(self)@.take(
                if old(self)@.len() < new_capacity {
                    old(self)@.len() as int
                } else {
                    new_capacity as int
                },
            ),
            r is Err ==> final(self)@ == old(self)@ && final(self).spec_capacity() == old(
                self,
            ).spec_capacity(),
            new_capacity == old(self).spec_capacity() || new_capacity == 0 ==> r is Ok,
            new_capacity != old(self).spec_capacity() && new_capacity > isize::MAX ==> r == Err::<
                (),
                Error,
            >(Error::CapacityOverflow { limit: usize::MAX, requested: new_capacity }),
            final(self).spec_allocator() == old(self).spec_allocator(),
            r is Err ==> *final(self) == *old(self),
            r matches Err(e) ==> old(self).spec_allocator().spec_failure(e) || (new_capacity
                > isize::MAX && e == Error::CapacityOverflow {
                limit: usize::MAX,
                requested: new_capacity,
            }),
    {
        let cap = self.block.len();
        if new_capacity == cap {
            return Ok(());
        }
        if new_capacity == 0 {
            self.len = 0;
            let mut block: Vec<u8> = Vec::new();
            std::mem::swap(&mut block, &mut self.block);
            self.allocator.dealloc(block, Layout::bytes(cap));
            assert(self@ =~= old(self)@.take(0));
            return Ok(());
        }
        let new_layout = match Layout::from_size_align(new_capacity, 1) {
            Ok(l) => l,
            Err(_) => {
                return Err(Error::CapacityOverflow { limit: usize::MAX, requested: new_capacity });
            },
        };
        let old_len = self.len;
        self.len = 0;
        let mut block: Vec<u8> = Vec::new();
        std::mem::swap(&mut block, &mut self.block);
        let ghost old_block = block@;
        let result = if cap == 0 {
            match self.allocator.allocate(new_layout) {
                Ok(fresh) => {
                    block = fresh;
                    Ok(())
                },
                Err(e) => Err(e),
            }
        } else {
            self.allocator.realloc(&mut block, Layout::bytes(cap), new_layout)
        };
        std::mem::swap(&mut block, &mut self.block);
        match result {
            Ok(()) => {
                self.len = if old_len < new_capacity {
                    old_len
                } else {
                    new_capacity
                };
                assert(self@ =~= old(self)@.take(self.len as int));
                Ok(())
            },
            Err(e) => {
                self.len = old_len;
                Err(e)
            },
        }
    }

    /// Makes room for at least `additional` more bytes. A block that is too small grows
    /// to [`grown_capacity`]: twice its size, or the required length if that is more.
    ///
    /// Fails with `CapacityOverflow` when the required length overflows a `usize`
    /// (reporting the wrapped sum) or the new capacity exceeds `isize::MAX`, or with the
    /// allocator's error; a failed call changes nothing.
    pub fn reserve(&mut self, additional: usize) -> (r: Result<()>)
        requires
            old(self).wf(),
        ensures
            final(self).wf(),
            final(self)@ == old(self)@,
            final(self).spec_allocator() == old(self).spec_allocator(),
            r is Ok ==> final(self).spec_capacity() == (if old(self)@.len() + additional
                <= old(self).spec_capacity() {
                old(self).spec_capacity()
            } else {
                grown_capacity(old(self).spec_capacity(), (old(self)@.len() + additional) as nat)
            }),
            r is Ok ==> final(self).spec_capacity() >= old(self)@.len() + additional,
            r is Err ==> final(self).spec_capacity() == old(self).spec_capacity(),
            r is Err ==> *final(self) == *old(self),
            r matches Err(e) ==> old(self).spec_allocator().spec_failure(e) || (
            e is CapacityOverflow && (old(self)@.len() + additional > usize::MAX || grown_capacity(
                old(self).spec_capacity(),
                (old(self)@.len() + additional) as nat,
            ) > isize::MAX)),
            old(self)@.len() + additional <= old(self).spec_capacity() ==> r is Ok,
            old(self)@.len() + additional > usize::MAX ==> r == Err::<(), Error>(
                Error::CapacityOverflow {
                    limit: usize::MAX,
                    requested: (old(self)@.len() + additional - usize::MAX - 1) as usize,
                },
            ),
            old(self)@.len() + additional <= usize::MAX && old(self)@.len() + additional > old(
                self,
            ).spec_capacity() && grown_capacity(
                old(self).spec_capacity(),
                (old(self)@.len() + additional) as nat,
            ) > isize::MAX ==> r == Err::<(), Error>(
                Error::CapacityOverflow {
                    limit: usize::MAX,
                    requested: grown_capacity(
                        old(self).spec_capacity(),
                        (old(self)@.len() + additional) as nat,
                    ) as usize,
                },
            ),
    {
        let required = match self.len.checked_add(additional) {
            Some(n) => n,
            None => {
                return Err(
                    Error::CapacityOverflow {
                        limit: usize::MAX,
                        requested: self.len.wrapping_add(additional),
                    },
                );
            },
        };
        let cap = self.block.len();
        if required > cap {
            let doubled = if cap > usize::MAX / 2 {
                usize::MAX
            } else {
                cap * 2
            };
            let new_cap = if doubled > required {
                doubled
            } else {
                required
            };
            match self.resize_capacity(new_cap) {
                Ok(()) => {},
                Err(e) => {
                    return Err(e);
                },
            }
        }
        Ok(())
    }

    /// Appends one byte, growing the block as [`ByteBuffer::reserve`] does.
    pub fn push(&mut self, byte: u8) -> (r: Result<()>)
        requires
            old(self).wf(),
        ensures
            final(self).wf(),
            r is Ok ==> final(self)@ == old(self)@.push(byte),
            r is Err ==> final(self)@ == old(self)@,
            final(self).spec_allocator() == old(self).spec_allocator(),
            old(self)@.len() < old(self).spec_capacity() ==> r is Ok && final(self).spec_capacity()
                == old(self).spec_capacity(),
            r is Ok ==> final(self).spec_capacity() == (if old(self)@.len() + 1
                <= old(self).spec_capacity() {
                old(self).spec_capacity()
            } else {
                grown_capacity(old(self).spec_capacity(), (old(self)@.len() + 1) as nat)
            }),
            r is Err ==> *final(self) == *old(self),
            r matches Err(e) ==> old(self).spec_allocator().spec_failure(e) || (
            e is CapacityOverflow && (old(self)@.len() + 1 > usize::MAX || grown_capacity(
                old(self).spec_capacity(),
                (old(self)@.len() + 1) as nat,
            ) > isize::MAX)),
    {
        match self.reserve(1) {
            Ok(()) => {},
            Err(e) => {
                return Err(e);
            },
        }
        let ghost before = self@;
        self.block.set(self.len, byte);
        self.len = self.len + 1;
        assert(self@ =~= before.push(byte));
        Ok(())
    }

    /// Appends the bytes of `slice`, growing the block as [`ByteBuffer::reserve`] does.
    pub fn extend_from_slice(&mut self, slice: &[u8]) -> (r: Result<()>)
        requires
            old(self).wf(),
        ensures
            final(self).wf(),
            r is Ok ==> final(self)@ == old(self)@ + slice@,
            r is Err ==> final(self)@ == old(self)@,
            r is Err ==> *final(self) == *old(self),
            final(self).spec_allocator() == old(self).spec_allocator(),
            old(self)@.len() + slice@.len() <= old(self).spec_capacity() ==> r is Ok
                && final(self).spec_capacity() == old(self).spec_capacity(),
            r is Ok ==> final(self).spec_capacity() == (if old(self)@.len() + slice@.len()
                <= old(self).spec_capacity() {
                old(self).spec_capacity()
            } else {
                grown_capacity(old(self).spec_capacity(), (old(self)@.len() + slice@.len()) as nat)
            }),
            r matches Err(e) ==> old(self).spec_allocator().spec_failure(e) || (
            e is CapacityOverflow && (old(self)@.len() + slice@.len() > usize::MAX
                || grown_capacity(
                old(self).spec_capacity(),
                (old(self)@.len() + slice@.len()) as nat,
            ) > isize::MAX)),
    {
        let n = slice.len();
        if n == 0 {
            assert(old(self)@ + slice@ =~= old(self)@);
            return Ok(());
        }
        match self.reserve(n) {
            Ok(()) => {},
            Err(e) => {
                return Err(e);
            },
        }
        let ghost before = self@;
        let ghost cap = self.block@.len();
        let ghost alloc0 = self.allocator;
        let start = self.len;
        let mut i: usize = 0;
        while i < n
            invariant
                i <= n,
                n == slice@.len(),
                self.block@.len() == cap,
                cap <= isize::MAX,
                start + n <= cap,
                self.len == start,
                self.allocator == alloc0,
                before == self.block@.take(start as int),
                forall|j: int| 0 <= j < i ==> self.block@[start + j] == slice@[j],
            decreases n - i,
        {
            self.block.set(start + i, slice[i]);
            i = i + 1;
        }
        self.len = start + n;
        assert(self@ =~= before + slice@);
        Ok(())
    }

    /// Empties the buffer, keeping its block.
    pub fn clear(&mut self)
        requires
            old(self).wf(),
        ensures
            final(self).wf(),
            final(self)@ == Seq::<u8>::empty(),
            final(self).spec_capacity() == old(self).spec_capacity(),
            final(self).spec_block() == old(self).spec_block(),
            final(self).spec_allocator() == old(self).spec_allocator(),
    {
        self.len = 0;
        assert(self@ =~= Seq::<u8>::empty());
    }

    /// Sets the length of the buffer; the contents become the first `new_len` bytes of
    /// the block.
    pub fn set_len(&mut self, new_len: usize)
        requires
            old(self).wf(),
            new_len <= old(self).spec_capacity(),
        ensures
            final(self).wf(),
            final(self)@ == old(self).spec_block().take(new_len as int),
            final(self).spec_block() == old(self).spec_block(),
            final(self).spec_allocator() == old(self).spec_allocator(),
    {
        self.len = new_len;
    }

    /// Returns the contents.
    pub fn as_slice(&self) -> (r: &[u8])
        requires
            self.wf(),
        ensures
            r@ == self@,
    {
        self.contents()
    }

    /// Returns the contents for in-place changes. The length of a slice cannot change,
    /// which is what brings the changes back as the buffer's new contents.
    pub fn as_slice_mut(&mut self) -> (r: &mut [u8])
        requires
            old(self).wf(),
        ensures
            r@ == old(self)@,
            final(r)@.len() == r@.len() ==> final(self).wf() && final(self)@ == final(r)@
                && final(self).spec_block().skip(old(self)@.len() as int) == old(
                self,
            ).spec_block().skip(old(self)@.len() as int),
            final(self).spec_allocator() == old(self).spec_allocator(),
    {
        let len = self.len;
        let (contents, _) = self.block.as_mut_slice().split_at_mut(len);
        contents
    }

    /// The contents for in-place changes, where the length fits the block; otherwise
    /// the whole block.
    pub(crate) fn contents_mut(&mut self) -> (r: &mut [u8])
        ensures
            r@ == old(self).spec_contents(),
            final(r)@.len() == r@.len() ==> final(self).spec_contents() == final(r)@,
            final(r)@.len() == r@.len() ==> (old(self).wf() ==> final(self).wf()),
    {
        let len = self.len;
        if len <= self.block.len() {
            let (contents, _) = self.block.as_mut_slice().split_at_mut(len);
            contents
        } else {
            self.block.as_mut_slice()
        }
    }

    /// The contents, for a well-formed buffer.
    pub(crate) fn contents(&self) -> (r: &[u8])
        ensures
            r@ == self.spec_contents(),
            self.wf() ==> r@ == self@,
    {
        if self.len <= self.block.len() {
            let (contents, _) = self.block.as_slice().split_at(self.len);
            contents
        } else {
            self.block.as_slice()
        }
    }
}

impl<A: TurboAlloc> core::ops::Deref for ByteBuffer<A> {
    type Target = [u8];

    /// The contents.
    fn deref(&self) -> (r: &[u8])
        ensures
            self.wf() ==> r@ == self@,
    {
        self.contents()
    }
}

impl<A: TurboAlloc> AsRef<[u8]> for ByteBuffer<A> {
    /// The contents.
    fn as_ref(&self) -> (r: &[u8])
        ensures
            self.wf() ==> r@ == self@,
    {
        self.contents()
    }
}

impl<A: TurboAlloc> AsMut<[u8]> for ByteBuffer<A> {
    /// The contents, for in-place changes.
    fn as_mut(&mut self) -> (r: &mut [u8])
        ensures
            old(self).wf() ==> r@ == old(self)@,
            final(r)@.len() == r@.len() ==> (old(self).wf() ==> final(self).wf()
                && final(self)@ == final(r)@),
    {
        self.contents_mut()
    }
}

impl<A: TurboAlloc> ByteWriter for ByteBuffer<A> {
    open spec fn writer_wf(&self) -> bool {
        self.wf()
    }

    open spec fn written(&self) -> Seq<u8> {
        self@
    }

    /// Appends the byte, growing the block as [`ByteBuffer::push`] does.
    fn write_u8(&mut self, val: u8) -> (r: Result<()>)
        ensures
            old(self)@.len() < old(self).spec_capacity() ==> r is Ok,
            r is Err ==> *final(self) == *old(self),
            r matches Err(e) ==> old(self).spec_allocator().spec_failure(e) || e is CapacityOverflow,
    {
        self.push(val)
    }

    /// Appends the bytes, growing the block as [`ByteBuffer::extend_from_slice`] does.
    fn write_bytes(&mut self, src: &[u8]) -> (r: Result<()>)
        ensures
            old(self)@.len() + src@.len() <= old(self).spec_capacity() ==> r is Ok,
            r is Err ==> *final(self) == *old(self),
            r matches Err(e) ==> old(self).spec_allocator().spec_failure(e) || e is CapacityOverflow,
    {
        self.extend_from_slice(src)
    }
}

} // verus!
