# turbo

Building blocks for low-latency Rust code, with their behaviour stated as Verus
contracts and proved:

- `allocator`: the `TurboAlloc` interface over owned blocks of bytes, the heap
  allocator and a counting wrapper, and `Layout`.
- `bytes`: a growable `ByteBuffer`, shared `ByteView` windows, a `Cursor` with
  little- and big-endian readers and writers, and the size classes of a buffer pool.
- `string`: a small-string-optimised `SmallString`, a `StringBuilder`, shared
  `StringView` windows, and `join`, `trim`, `replace` and `normalize`.
- `hash`: the Fx hasher and a Robin Hood `HashMap` (with backward-shift deletion and
  an entry API) and `HashSet`.
- `collections`: a generational `Arena` and a `DenseMap` that keeps its values
  contiguous.
- `pool`: a `Slab` with a free list, and the `Recycler` interface.
- `error`, `info`, `traits`: the error type, version information, and the
  `ZeroCopy` and `EstimateSize` traits.

Laws that relate several operations are public proof functions whose names start
with `law_`.

`app/` holds what the verified library cannot: the error type with its `Display`
and `std::error::Error` impls, the helper macros, floating-point reads and writes,
raw pointers into buffers, and the lock-based pools that recycle values on drop.
