use crate::allocator::GlobalAlloc;
use crate::bytes::buffer::ByteBuffer;
use crate::bytes::cursor::ByteSource;
use crate::error::{Error, Result};
use std::sync::Arc;
use vstd::prelude::*;

verus! {

/// Another pointer to the value an `Arc` points to.
///
/// Trusted: calls `Arc::clone`, which shares the allocation; the new pointer points to
/// the same value.
#[verifier::external_body]
fn arc_share<T>(a: &Arc<T>) -> (r: Arc<T>)
    ensures
        r == *a,
{
    Arc::clone(a)
}

/// A shared, read-only window onto a byte buffer.
///
/// Cloning and slicing a view share the buffer instead of copying it.
#[derive(Clone, Debug)]
pub struct ByteView {
    buffer: Arc<ByteBuffer<GlobalAlloc>>,
    offset: usize,
    len: usize,
}

impl ByteView {
    /// The window lies inside a well-formed buffer.
    pub closed spec fn wf(&self) -> bool {
        &&& (*self.buffer).wf()
        &&& self.offset + self.len <= (*self.buffer)@.len()
    }

    /// The bytes in the window.
    pub closed spec fn view(&self) -> Seq<u8> {
        (*self.buffer)@.subrange(self.offset as int, self.offset + self.len)
    }

    /// Where the window starts in the shared buffer.
    pub closed spec fn spec_offset(&self) -> nat {
        self.offset as nat
    }

    /// The shared buffer's contents.
    pub closed spec fn spec_buffer(&self) -> Seq<u8> {
        (*self.buffer)@
    }

    /// A well-formed view shows exactly its window, which is at most `isize::MAX` bytes.
    pub proof fn lemma_window(&self)
        requires
            self.wf(),
        ensures
            self.spec_window() == self@,
            self@.len() <= isize::MAX,
    {
        (*self.buffer).lemma_wf_bounds();
    }

    /// A view of all of `buffer`.
    pub fn new(buffer: ByteBuffer<GlobalAlloc>) -> (r: Self)
        requires
            buffer.wf(),
        ensures
            r.wf(),
            r@ == buffer@,
            r.spec_offset() == 0,
            r.spec_buffer() == buffer@,
    {
        let len = buffer.len();
        let r = ByteView { buffer: Arc::new(buffer), offset: 0, len };
        assert(r@ =~= buffer@);
        r
    }

    /// A view of a copy of `slice`; fails with the allocator's error, or with
    /// `CapacityOverflow` for a slice longer than `isize::MAX` bytes.
    pub fn from_slice(slice: &[u8]) -> (r: Result<Self>)
        ensures
            r matches Ok(v) ==> v.wf() && v@ == slice@ && v.spec_offset() == 0,
            slice@.len() == 0 ==> r is Ok,
            r matches Err(e) ==> e == Error::AllocError || (slice@.len() > isize::MAX && e
                == Error::CapacityOverflow { limit: usize::MAX, requested: slice@.len() as usize }),
    {
        let mut buffer = ByteBuffer::with_capacity(slice.len(), GlobalAlloc)?;
        buffer.extend_from_slice(slice)?;
        assert(Seq::<u8>::empty() + slice@ =~= slice@);
        Ok(Self::new(buffer))
    }

    /// Returns the number of bytes in the window.
    pub fn len(&self) -> (r: usize)
        requires
            self.wf(),
        ensures
            r == self@.len(),
    {
        self.len
    }

    /// Returns `true` if the window is empty.
    pub fn is_empty(&self) -> (r: bool)
        requires
            self.wf(),
        ensures
            r == (self@.len() == 0),
    {
        self.len == 0
    }

    /// Returns where the window starts in the shared buffer.
    pub fn offset(&self) -> (r: usize)
        ensures
            r == self.spec_offset(),
    {
        self.offset
    }

    /// A view of bytes `range.start..range.end` of this one, sharing the buffer.
    ///
    /// Fails with `OutOfBounds` (reporting the range's end) unless
    /// `range.start <= range.end <= self.len()`.
    pub fn slice(&self, range: core::ops::Range<usize>) -> (r: Result<Self>)
        requires
            self.wf(),
        ensures
            r matches Ok(v) ==> v.wf() && v@ == self@.subrange(range.start as int, range.end as int)
                && v.spec_offset() == self.spec_offset() + range.start && v.spec_buffer()
                == self.spec_buffer(),
            r is Ok <==> range.start <= range.end <= self@.len(),
            r is Err ==> r == Err::<Self, Error>(
                Error::OutOfBounds { index: range.end, len: self@.len() as usize },
            ),
    {
        if !(range.start <= range.end && range.end <= self.len) {
            return Err(Error::OutOfBounds { index: range.end, len: self.len });
        }
        proof {
            (*self.buffer).lemma_wf_bounds();
        }
        let r = ByteView {
            buffer: arc_share(&self.buffer),
            offset: self.offset + range.start,
            len: range.end - range.start,
        };
        assert(r@ =~= self@.subrange(range.start as int, range.end as int));
        Ok(r)
    }

    /// Returns the bytes in the window.
    pub fn as_slice(&self) -> (r: &[u8])
        requires
            self.wf(),
        ensures
            r@ == self@,
    {
        self.window()
    }

    /// The bytes in the window, for a view that lies inside its buffer.
    pub(crate) fn window(&self) -> (r: &[u8])
        ensures
            r@ == self.spec_window(),
            self.wf() ==> r@ == self@,
    {
        let all = self.buffer.contents();
        if self.offset <= all.len() && self.len <= all.len() - self.offset {
            let (_, tail) = all.split_at(self.offset);
            let (window, _) = tail.split_at(self.len);
            window
        } else {
            all
        }
    }

    /// The bytes in the window where it lies inside the buffer's contents, otherwise
    /// those contents.
    pub closed spec fn spec_window(&self) -> Seq<u8> {
        let all = (*self.buffer).spec_contents();
        if self.offset + self.len <= all.len() {
            all.subrange(self.offset as int, self.offset + self.len)
        } else {
            all
        }
    }
}

impl core::ops::Deref for ByteView {
    type Target = [u8];

    /// The bytes in the window.
    fn deref(&self) -> (r: &[u8])
        ensures
            self.wf() ==> r@ == self@,
    {
        self.window()
    }
}

impl AsRef<[u8]> for ByteView {
    /// The bytes in the window.
    fn as_ref(&self) -> (r: &[u8])
        ensures
            self.wf() ==> r@ == self@,
    {
        self.window()
    }
}

impl ByteSource for ByteView {
    /// The bytes in the window (for a view that does not lie inside its buffer,
    /// whatever it can show).
    open spec fn source(&self) -> Seq<u8> {
        self.spec_window()
    }

    fn source_bytes(&self) -> (r: &[u8]) {
        self.window()
    }
}

/// Slicing a slice is slicing once, with the inner range moved by the outer start.
pub proof fn law_slice_of_slice(bytes: Seq<u8>, a: int, b: int, c: int, d: int)
    requires
        0 <= a <= b <= bytes.len(),
        0 <= c <= d <= b - a,
    ensures
        bytes.subrange(a, b).subrange(c, d) == bytes.subrange(a + c, a + d),
{
    assert(bytes.subrange(a, b).subrange(c, d) =~= bytes.subrange(a + c, a + d));
}

} // verus!
