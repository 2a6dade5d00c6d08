use turbo::allocator::{GlobalAlloc, Layout, TrackingAlloc, TurboAlloc};
use turbo::bytes::pool::{bucket_index, bucket_size, keeps_returned, reuse_or_allocate};
use turbo::bytes::{ByteBuffer, ByteReader, ByteView, ByteWriter, Cursor};
use turbo::Error;

#[test]
fn test_byte_buffer_basic() {
    let mut buf = ByteBuffer::with_capacity(16, GlobalAlloc).unwrap();
    assert_eq!(buf.len(), 0);
    assert!(buf.capacity() >= 16);

    buf.push(10).unwrap();
    buf.push(20).unwrap();
    assert_eq!(buf.len(), 2);
    assert_eq!(buf[0], 10);
    assert_eq!(buf[1], 20);

    buf.extend_from_slice(&[30, 40, 50]).unwrap();
    assert_eq!(buf.len(), 5);
    assert_eq!(&buf[..], &[10, 20, 30, 40, 50]);

    buf.resize_capacity(8).unwrap();
    assert!(buf.capacity() >= 8);

    buf.clear();
    assert_eq!(buf.len(), 0);
}

#[test]
fn test_byte_view_zero_copy() {
    let mut buf = ByteBuffer::new(GlobalAlloc);
    buf.extend_from_slice(b"hello world").unwrap();

    let view = ByteView::new(buf);
    assert_eq!(view.len(), 11);
    assert_eq!(view.as_ref(), b"hello world");

    let sub = view.slice(6..11).unwrap();
    assert_eq!(sub.len(), 5);
    assert_eq!(sub.as_ref(), b"world");
    assert_eq!(sub.offset(), 6);

    fn assert_send_sync<T: Send + Sync>() {}
    assert_send_sync::<ByteView>();
}

#[test]
fn test_cursor_read_write_binary() {
    let mut memory = [0u8; 32];

    {
        let mut cursor = Cursor::new(&mut memory[..]);
        cursor.write_u8(0xFF).unwrap();
        cursor.write_u16_le(0x1234).unwrap();
        cursor.write_u32_be(0xABCDEF12).unwrap();
        cursor.write_u64_le(123.456789f64.to_bits()).unwrap();
        assert_eq!(cursor.position(), 1 + 2 + 4 + 8);
    }

    {
        let cursor_storage = memory;
        let mut cursor = Cursor::new(cursor_storage);
        assert_eq!(cursor.read_u8().unwrap(), 0xFF);
        assert_eq!(cursor.read_u16_le().unwrap(), 0x1234);
        assert_eq!(cursor.read_u32_be().unwrap(), 0xABCDEF12);
        assert_eq!(f64::from_bits(cursor.read_u64_le().unwrap()), 123.456789);
    }
}

#[test]
fn test_global_alloc() {
    let alloc = GlobalAlloc;
    let layout = Layout::from_size_align(128, 8).unwrap();

    let mut block = alloc.allocate(layout).unwrap();
    assert_eq!(block.len(), 128);

    block[0] = 42;
    block[127] = 24;
    assert_eq!(block[0], 42);
    assert_eq!(block[127], 24);

    let larger_layout = Layout::from_size_align(256, 8).unwrap();
    alloc.realloc(&mut block, layout, larger_layout).unwrap();
    assert_eq!(block.len(), 256);
    assert_eq!(block[0], 42);

    alloc.dealloc(block, larger_layout);
}

#[test]
fn test_tracking_alloc() {
    let tracker = TrackingAlloc::new(GlobalAlloc);
    let layout = Layout::from_size_align(64, 8).unwrap();

    assert_eq!(tracker.allocated_bytes(), 0);

    let block = tracker.allocate(layout).unwrap();
    assert_eq!(tracker.allocated_bytes(), 64);

    tracker.dealloc(block, layout);
    assert_eq!(tracker.allocated_bytes(), 0);
}

#[test]
fn test_integration_alloc_and_tracking() {
    let allocator = TrackingAlloc::new(GlobalAlloc);
    let layout = Layout::from_size_align(1024, 8).unwrap();

    assert_eq!(allocator.allocated_bytes(), 0);

    let block = allocator.allocate(layout).unwrap();
    assert_eq!(block.len(), 1024);
    assert_eq!(allocator.allocated_bytes(), 1024);

    allocator.dealloc(block, layout);
    assert_eq!(allocator.allocated_bytes(), 0);
}

#[test]
fn layout_rules() {
    assert!(Layout::from_size_align(0, 1).is_ok());
    assert!(Layout::from_size_align(10, 0).is_err());
    assert!(Layout::from_size_align(10, 3).is_err());
    assert!(Layout::from_size_align(isize::MAX as usize, 1).is_ok());
    assert!(Layout::from_size_align(isize::MAX as usize, 2).is_err());
    assert!(Layout::from_size_align(isize::MAX as usize - 7, 8).is_ok());
    let l = Layout::from_size_align(24, 4).unwrap();
    assert_eq!((l.size(), l.align()), (24, 4));
}

#[test]
fn alloc_zeroed_and_shrinking_realloc() {
    let alloc = GlobalAlloc;
    let layout = Layout::from_size_align(4, 1).unwrap();
    let mut block = alloc.alloc_zeroed(layout).unwrap();
    assert_eq!(block, vec![0, 0, 0, 0]);
    block[1] = 7;
    let small = Layout::from_size_align(2, 1).unwrap();
    alloc.realloc(&mut block, layout, small).unwrap();
    assert_eq!(block, vec![0, 7]);
}

#[test]
fn byte_buffer_growth_and_errors() {
    let mut buf = ByteBuffer::new(GlobalAlloc);
    assert_eq!(buf.capacity(), 0);
    buf.push(1).unwrap();
    assert_eq!(buf.capacity(), 1);
    buf.push(2).unwrap();
    assert_eq!(buf.capacity(), 2);
    buf.push(3).unwrap();
    assert_eq!(buf.capacity(), 4);
    buf.reserve(10).unwrap();
    assert_eq!(buf.capacity(), 13);
    assert_eq!(buf.as_slice(), &[1, 2, 3]);
    match buf.reserve(usize::MAX) {
        Err(Error::CapacityOverflow { limit, requested }) => {
            assert_eq!(limit, usize::MAX);
            assert_eq!(requested, 2);
        }
        _ => panic!("expected an overflow"),
    }
    match ByteBuffer::with_capacity(usize::MAX, GlobalAlloc) {
        Err(Error::CapacityOverflow { requested, .. }) => assert_eq!(requested, usize::MAX),
        _ => panic!("expected an overflow"),
    }
    buf.resize_capacity(2).unwrap();
    assert_eq!(buf.as_slice(), &[1, 2]);
    buf.as_slice_mut()[0] = 9;
    assert_eq!(&buf[..], &[9, 2]);
    buf.resize_capacity(0).unwrap();
    assert!(buf.is_empty());
    assert_eq!(buf.capacity(), 0);
    let mut w = ByteBuffer::new(GlobalAlloc);
    w.write_u32_le(0x0102_0304).unwrap();
    w.write_i32_be(-2).unwrap();
    assert_eq!(w.as_slice(), &[4, 3, 2, 1, 0xff, 0xff, 0xff, 0xfe]);
    w.set_len(2);
    assert_eq!(w.as_slice(), &[4, 3]);
    let c = w.clone();
    assert_eq!(c.as_slice(), &[4, 3]);
}

#[test]
fn cursor_bounds_and_round_trips() {
    let mut memory = vec![0u8; 8];
    {
        let mut c = Cursor::new(&mut memory[..]);
        c.write_i64_le(-1).unwrap();
        assert!(c.write_u8(1).is_err());
        c.set_position(6);
        match c.write_u32_le(5) {
            Err(Error::OutOfBounds { index, len }) => assert_eq!((index, len), (10, 8)),
            _ => panic!("expected out of bounds"),
        }
        assert_eq!(c.position(), 6);
    }
    assert_eq!(memory, vec![0xff; 8]);
    let mut r = Cursor::new(memory);
    assert_eq!(r.read_i64_be().unwrap(), -1);
    match r.read_u8() {
        Err(Error::OutOfBounds { index, len }) => assert_eq!((index, len), (8, 8)),
        _ => panic!("expected out of bounds"),
    }
    r.set_position(0);
    assert_eq!(r.read_u16_be().unwrap(), 0xffff);
    assert_eq!(r.read_i32_le().unwrap(), -1);
    let mut dest = [0u8; 3];
    assert!(r.read_bytes(&mut dest).is_err());
    assert_eq!(r.position(), 6);
    assert_eq!(r.get_ref().len(), 8);
    r.get_mut()[7] = 0;
    assert_eq!(r.read_u16_le().unwrap(), 0x00ff);
    assert_eq!(r.into_inner()[7], 0);
}

#[test]
fn byte_view_bounds_and_cursor() {
    let view = ByteView::from_slice(&[1, 2, 3, 4, 5]).unwrap();
    assert!(view.slice(3..2).is_err());
    match view.slice(1..9) {
        Err(Error::OutOfBounds { index, len }) => assert_eq!((index, len), (9, 5)),
        _ => panic!("expected out of bounds"),
    }
    let inner = view.slice(1..4).unwrap();
    let innermost = inner.slice(1..3).unwrap();
    assert_eq!(innermost.as_slice(), &[3, 4]);
    assert_eq!(innermost.offset(), 2);
    assert!(ByteView::from_slice(&[]).unwrap().is_empty());
    let mut c = Cursor::new(inner.clone());
    assert_eq!(c.read_u8().unwrap(), 2);
    assert_eq!(&*inner, &[2, 3, 4]);
}

#[test]
fn pool_size_classes() {
    assert_eq!(bucket_index(0), Some(0));
    assert_eq!(bucket_index(4096), Some(0));
    assert_eq!(bucket_index(4097), Some(1));
    assert_eq!(bucket_index(65536), Some(2));
    assert_eq!(bucket_index(65537), None);
    assert_eq!(bucket_size(1), 16384);
    assert!(keeps_returned(31));
    assert!(!keeps_returned(32));
}

#[test]
fn pool_reuses_a_cached_buffer_or_allocates_the_class_size() {
    let fresh = reuse_or_allocate(1, None).unwrap();
    assert_eq!(fresh.len(), 0);
    assert_eq!(fresh.capacity(), bucket_size(1));
    let mut cached = ByteBuffer::with_capacity(100, GlobalAlloc).unwrap();
    cached.extend_from_slice(&[1, 2, 3]).unwrap();
    let reused = reuse_or_allocate(0, Some(cached)).unwrap();
    assert_eq!(reused.len(), 0);
    assert_eq!(reused.capacity(), 100);
}

#[test]
fn byte_buffer_writer_appends_within_capacity() {
    let mut buf = ByteBuffer::with_capacity(4, GlobalAlloc).unwrap();
    buf.write_u8(7).unwrap();
    buf.write_bytes(&[8, 9, 10]).unwrap();
    assert_eq!(buf.as_slice(), &[7, 8, 9, 10]);
    assert_eq!(buf.capacity(), 4);
}
