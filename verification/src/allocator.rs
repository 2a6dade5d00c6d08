use crate::error::{Error, Result};
use vstd::prelude::*;

verus! {

/// Whether `n` is a power of two.
pub open spec fn is_power_of_two(n: nat) -> bool
    decreases n,
{
    if n == 1 {
        true
    } else if n < 2 || n % 2 != 0 {
        false
    } else {
        is_power_of_two(n / 2)
    }
}

/// Whether a size and an alignment describe a block: the alignment is a power of two
/// and the size, rounded up to a multiple of the alignment, does not exceed
/// `isize::MAX`.
pub open spec fn valid_layout(size: nat, align: nat) -> bool {
    &&& is_power_of_two(align)
    &&& size + align - 1 <= isize::MAX
}

/// The size and alignment of a block of memory.
#[derive(Clone, Copy, Debug, PartialEq, Eq, Structural)]
pub struct Layout {
    size: usize,
    align: usize,
}

/// The error of a size and an alignment that describe no block.
#[derive(Clone, Copy, Debug, PartialEq, Eq, Structural)]
pub struct LayoutError;

impl Layout {
    /// The size of the block, in bytes.
    pub closed spec fn spec_size(&self) -> nat {
        self.size as nat
    }

    /// The alignment of the block, in bytes.
    pub closed spec fn spec_align(&self) -> nat {
        self.align as nat
    }

    /// Describes a block of `size` bytes aligned to `align`, if that is a valid block.
    pub fn from_size_align(size: usize, align: usize) -> (r: core::result::Result<Self, LayoutError>)
        ensures
            r is Ok <==> valid_layout(size as nat, align as nat),
            r matches Ok(l) ==> l.spec_size() == size && l.spec_align() == align,
    {
        if !power_of_two(align) {
            return Err(LayoutError);
        }
        if align - 1 > (isize::MAX as usize) || size > (isize::MAX as usize) - (align - 1) {
            return Err(LayoutError);
        }
        Ok(Layout { size, align })
    }

    /// The size of the block, in bytes.
    pub fn size(&self) -> (r: usize)
        ensures
            r == self.spec_size(),
    {
        self.size
    }

    /// The alignment of the block, in bytes.
    pub fn align(&self) -> (r: usize)
        ensures
            r == self.spec_align(),
    {
        self.align
    }

    /// The layout of a block of `size` bytes aligned to one byte.
    pub(crate) fn bytes(size: usize) -> (r: Self)
        requires
            size <= isize::MAX,
        ensures
            r.spec_size() == size,
            r.spec_align() == 1,
    {
        Layout { size, align: 1 }
    }
}

/// Tests whether `n` is a power of two.
fn power_of_two(n: usize) -> (r: bool)
    ensures
        r == is_power_of_two(n as nat),
{
    let mut m = n;
    while m >= 2 && m % 2 == 0
        invariant
            is_power_of_two(m as nat) == is_power_of_two(n as nat),
        decreases m,
    {
        m = m / 2;
    }
    m == 1
}

/// `n` zero bytes.
pub open spec fn zeros(n: nat) -> Seq<u8> {
    Seq::new(n, |i: int| 0u8)
}

/// The allocator interface of the library: blocks of bytes described by a [`Layout`].
///
/// A block is owned by the caller until it is handed back to [`TurboAlloc::dealloc`].
pub trait TurboAlloc {
    /// Whether `e` is an error this allocator reports when it cannot provide a block.
    spec fn spec_failure(&self, e: Error) -> bool;

    /// Allocates a block of `layout.size()` bytes, or fails with one of its errors.
    fn allocate(&self, layout: Layout) -> (r: Result<Vec<u8>>)
        ensures
            r matches Ok(block) ==> block@.len() == layout.spec_size(),
            r matches Err(e) ==> self.spec_failure(e),
    ;

    /// Gives a block back to the allocator.
    fn dealloc(&self, block: Vec<u8>, layout: Layout)
        requires
            block@.len() == layout.spec_size(),
    ;

    /// Allocates a block of `layout.size()` zero bytes, or fails with an error.
    fn alloc_zeroed(&self, layout: Layout) -> (r: Result<Vec<u8>>)
        ensures
            r matches Ok(block) ==> block@ == zeros(layout.spec_size()),
            r matches Err(e) ==> self.spec_failure(e),
    {
        let mut block = match self.allocate(layout) {
            Ok(b) => b,
            Err(e) => {
                return Err(e);
            },
        };
        let n = block.len();
        let mut i: usize = 0;
        while i < n
            invariant
                i <= n,
                block@.len() == n,
                n == layout.spec_size(),
                forall|j: int| 0 <= j < i ==> block@[j] == 0u8,
            decreases n - i,
        {
            block.set(i, 0);
            i = i + 1;
        }
        assert(block@ =~= zeros(layout.spec_size()));
        Ok(block)
    }

    /// Resizes a block to `new_layout.size()` bytes, keeping the bytes that both sizes
    /// cover. A block whose size does not change is kept as it is; otherwise a new block
    /// is allocated, the common bytes are copied and the old block is given back. On
    /// failure the block is left as it was.
    fn realloc(&self, block: &mut Vec<u8>, old_layout: Layout, new_layout: Layout) -> (r: Result<()>)
        requires
            old(block)@.len() == old_layout.spec_size(),
        ensures
            r is Ok ==> final(block)@.len() == new_layout.spec_size(),
            r is Ok ==> final(block)@.take(common_len(old_layout, new_layout) as int) == old(
                block,
            )@.take(common_len(old_layout, new_layout) as int),
            r is Ok && new_layout.spec_size() == old_layout.spec_size() ==> final(block)@ == old(
                block,
            )@,
            r is Err ==> *final(block) == *old(block),
            r matches Err(e) ==> self.spec_failure(e),
    {
        if new_layout.size() == old_layout.size() {
            return Ok(());
        }
        let mut fresh = match self.allocate(new_layout) {
            Ok(b) => b,
            Err(e) => {
                return Err(e);
            },
        };
        let n = if old_layout.size() < new_layout.size() {
            old_layout.size()
        } else {
            new_layout.size()
        };
        let mut i: usize = 0;
        while i < n
            invariant
                i <= n,
                n == common_len(old_layout, new_layout),
                n <= block@.len(),
                n <= fresh@.len(),
                fresh@.len() == new_layout.spec_size(),
                forall|j: int| 0 <= j < i ==> fresh@[j] == block@[j],
            decreases n - i,
        {
            fresh.set(i, block[i]);
            i = i + 1;
        }
        assert(fresh@.take(n as int) =~= block@.take(n as int));
        std::mem::swap(block, &mut fresh);
        self.dealloc(fresh, old_layout);
        Ok(())
    }
}

/// The number of bytes that two layouts both cover.
pub open spec fn common_len(a: Layout, b: Layout) -> nat {
    if a.spec_size() < b.spec_size() {
        a.spec_size()
    } else {
        b.spec_size()
    }
}

/// A block of `n` zero bytes from the heap, or `None` where the heap cannot provide it.
fn heap_block(n: usize) -> (r: Option<Vec<u8>>)
    ensures
        r matches Some(block) ==> block@ == zeros(n as nat),
{
    let mut block: Vec<u8> = Vec::new();
    match block.try_reserve(n) {
        Ok(()) => {},
        Err(_) => {
            return None;
        },
    }
    let mut i: usize = 0;
    while i < n
        invariant
            i <= n,
            block@ == zeros(i as nat),
        decreases n - i,
    {
        block.push(0);
        assert(block@ =~= zeros((i + 1) as nat));
        i = i + 1;
    }
    Some(block)
}

/// The allocator that takes blocks from the heap.
#[derive(Clone, Copy, Debug, Default)]
pub struct GlobalAlloc;

impl TurboAlloc for GlobalAlloc {
    /// The heap fails only with `AllocError`.
    open spec fn spec_failure(&self, e: Error) -> bool {
        e == Error::AllocError
    }

    /// Takes a zero-filled block from the heap; fails with `AllocError` where the heap
    /// cannot provide it.
    fn allocate(&self, layout: Layout) -> (r: Result<Vec<u8>>)
        ensures
            r matches Ok(block) ==> block@ == zeros(layout.spec_size()),
            r is Err ==> r == Err::<Vec<u8>, Error>(Error::AllocError),
    {
        match heap_block(layout.size()) {
            Some(block) => Ok(block),
            None => Err(Error::AllocError),
        }
    }

    /// Frees the block.
    fn dealloc(&self, block: Vec<u8>, layout: Layout) {
    }
}

/// An allocator wrapper that counts the bytes currently allocated through it.
pub struct TrackingAlloc<A: TurboAlloc> {
    inner: A,
    allocated: core::sync::atomic::AtomicUsize,
}

impl<A: TurboAlloc> TrackingAlloc<A> {
    /// The wrapped allocator.
    pub closed spec fn inner(&self) -> A {
        self.inner
    }

    /// Wraps `inner`, with a count of zero bytes.
    pub fn new(inner: A) -> (r: Self)
        ensures
            r.inner() == inner,
    {
        TrackingAlloc { inner, allocated: core::sync::atomic::AtomicUsize::new(0) }
    }

    /// Returns the number of bytes allocated and not yet given back.
    ///
    /// The count is shared by every reference to the allocator, so its value is not
    /// modelled.
    pub fn allocated_bytes(&self) -> usize {
        self.allocated.load(core::sync::atomic::Ordering::Relaxed)
    }
}

impl<A: TurboAlloc> TurboAlloc for TrackingAlloc<A> {
    /// It fails as the wrapped allocator does.
    open spec fn spec_failure(&self, e: Error) -> bool {
        self.inner().spec_failure(e)
    }

    /// Allocates from the wrapped allocator and adds the size to the count.
    fn allocate(&self, layout: Layout) -> (r: Result<Vec<u8>>) {
        let block = match self.inner.allocate(layout) {
            Ok(b) => b,
            Err(e) => {
                return Err(e);
            },
        };
        self.allocated.fetch_add(layout.size(), core::sync::atomic::Ordering::Relaxed);
        Ok(block)
    }

    /// Gives the block back to the wrapped allocator and subtracts its size from the
    /// count.
    fn dealloc(&self, block: Vec<u8>, layout: Layout) {
        self.inner.dealloc(block, layout);
        self.allocated.fetch_sub(layout.size(), core::sync::atomic::Ordering::Relaxed);
    }
}

} // verus!
