use crate::allocator::GlobalAlloc;
use crate::bytes::buffer::ByteBuffer;
use crate::error::{Error, Result};
use vstd::prelude::*;

verus! {

/// The number of size classes a buffer pool keeps.
pub const BUCKET_COUNT: usize = 3;

/// The most buffers a pool keeps in one size class.
pub const MAX_POOL_DEPTH: usize = 32;

/// The capacity of the buffers of size class `index`.
pub open spec fn spec_bucket_size(index: nat) -> nat {
    if index == 0 {
        4096
    } else if index == 1 {
        16384
    } else {
        65536
    }
}

/// Returns the capacity of the buffers of size class `index`.
pub fn bucket_size(index: usize) -> (r: usize)
    requires
        index < BUCKET_COUNT,
    ensures
        r == spec_bucket_size(index as nat),
{
    if index == 0 {
        4096
    } else if index == 1 {
        16384
    } else {
        65536
    }
}

/// The size class that serves a request for `capacity` bytes: the smallest whose
/// buffers are large enough; none for a request larger than every class.
pub open spec fn spec_bucket_index(capacity: nat) -> Option<nat> {
    if capacity <= spec_bucket_size(0) {
        Some(0)
    } else if capacity <= spec_bucket_size(1) {
        Some(1)
    } else if capacity <= spec_bucket_size(2) {
        Some(2)
    } else {
        None
    }
}

/// Returns the size class that serves a request for `capacity` bytes, if any.
pub fn bucket_index(capacity: usize) -> (r: Option<usize>)
    ensures
        r matches Some(i) ==> i < BUCKET_COUNT && spec_bucket_index(capacity as nat) == Some(
            i as nat,
        ),
        r is None ==> spec_bucket_index(capacity as nat) is None,
        r matches Some(i) ==> capacity <= spec_bucket_size(i as nat) && (i > 0 ==> capacity
            > spec_bucket_size((i - 1) as nat)),
        r is None ==> capacity > spec_bucket_size((BUCKET_COUNT - 1) as nat),
{
    if capacity <= bucket_size(0) {
        Some(0)
    } else if capacity <= bucket_size(1) {
        Some(1)
    } else if capacity <= bucket_size(2) {
        Some(2)
    } else {
        None
    }
}

/// The size class chosen for a request serves it: its buffers hold at least the
/// requested bytes, and no smaller class would; a request is turned away only when it
/// is larger than every class. The classes grow strictly: 4096, 16384 and 65536 bytes.
pub proof fn law_bucket_index_fits(capacity: nat)
    ensures
        spec_bucket_index(capacity) matches Some(i) ==> i < BUCKET_COUNT && capacity
            <= spec_bucket_size(i) && (i > 0 ==> capacity > spec_bucket_size((i - 1) as nat)),
        spec_bucket_index(capacity) is None ==> capacity > spec_bucket_size(
            (BUCKET_COUNT - 1) as nat,
        ),
        spec_bucket_size(0) == 4096 && spec_bucket_size(1) == 16384 && spec_bucket_size(2)
            == 65536,
{
}

/// Returns `true` if a size class holding `depth` buffers takes back one more.
pub fn keeps_returned(depth: usize) -> (r: bool)
    ensures
        r == (depth < MAX_POOL_DEPTH),
{
    depth < MAX_POOL_DEPTH
}

/// The buffer that serves a request of size class `class`: the cached buffer `cached`,
/// emptied, when there is one (a cached buffer keeps its block and capacity); otherwise
/// a new buffer with the class's capacity, which can fail with the allocator's error.
/// A cached buffer that is not well formed is not reused.
pub fn reuse_or_allocate(class: usize, cached: Option<ByteBuffer<GlobalAlloc>>) -> (r: Result<
    ByteBuffer<GlobalAlloc>,
>)
    requires
        class < BUCKET_COUNT,
    ensures
        r matches Ok(b) ==> b.wf() && b@ == Seq::<u8>::empty(),
        cached matches Some(c) ==> (c.wf() ==> (r matches Ok(b) && b.spec_block()
            == c.spec_block() && b.spec_capacity() == c.spec_capacity())),
        !(cached matches Some(c) && c.wf()) ==> (r matches Ok(b) ==> b.spec_capacity()
            == spec_bucket_size(class as nat)),
        r matches Err(e) ==> e == Error::AllocError,
{
    match cached {
        Some(mut buffer) => {
            if buffer.check_wf() {
                buffer.clear();
                return Ok(buffer);
            }
        },
        None => {},
    }
    ByteBuffer::with_capacity(bucket_size(class), GlobalAlloc)
}

} // verus!
