use vstd::prelude::*;

verus! {

/// Marker trait for plain data types that are representable as raw bytes:
/// a defined layout, no internal pointers or references, and no padding.
pub trait ZeroCopy: Copy + Send + Sync + 'static {

}

impl ZeroCopy for u8 {

}

impl ZeroCopy for i8 {

}

impl ZeroCopy for u16 {

}

impl ZeroCopy for i16 {

}

impl ZeroCopy for u32 {

}

impl ZeroCopy for i32 {

}

impl ZeroCopy for u64 {

}

impl ZeroCopy for i64 {

}

impl ZeroCopy for usize {

}

impl ZeroCopy for isize {

}

/// Estimates the heap-allocated memory footprint of a data structure.
pub trait EstimateSize: Sized {
    /// Returns the total heap size allocated by this data structure in bytes.
    fn heap_size(&self) -> (r: usize);

    /// Returns the stack size of the value plus its heap size.
    fn total_size(&self) -> (r: usize)
        requires
            forall|h: usize|
                call_ensures(Self::heap_size, (self,), h) ==> vstd::layout::size_of::<Self>() + h
                    <= usize::MAX,
        ensures
            exists|h: usize|
                call_ensures(Self::heap_size, (self,), h) && r == vstd::layout::size_of::<Self>() + h,
    {
        let h = self.heap_size();
        core::mem::size_of::<Self>() + h
    }
}

/// Plain data owns no heap memory.
impl<T: ZeroCopy> EstimateSize for T {
    fn heap_size(&self) -> (r: usize)
        ensures
            r == 0,
    {
        0
    }
}

} // verus!
