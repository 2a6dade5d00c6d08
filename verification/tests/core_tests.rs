use turbo::{active_features, msrv, version};
use turbo::{Error, EstimateSize, Result, ZeroCopy};

#[test]
fn test_error_formatting() {
    let err = Error::CapacityOverflow {
        limit: 1024,
        requested: 2048,
    };
    assert_eq!(
        err.to_string(),
        "Capacity overflow: limit is 1024, requested 2048"
    );

    let err = Error::OutOfBounds { index: 10, len: 5 };
    assert_eq!(
        err.to_string(),
        "Out of bounds: index 10 is out of bounds for length 5"
    );

    let err = Error::InvalidData {
        reason: "bad encoding",
    };
    assert_eq!(err.to_string(), "Invalid data: bad encoding");

    let err = Error::AllocError;
    assert_eq!(err.to_string(), "Allocation failed");

    let err = Error::ResourceExhausted {
        resource: "threads",
    };
    assert_eq!(err.to_string(), "Resource exhausted: threads");

    let err = Error::Cancellation;
    assert_eq!(err.to_string(), "Operation cancelled");

    let err = Error::Custom("some custom error");
    assert_eq!(err.to_string(), "Custom error: some custom error");

    let err = Error::Format;
    assert_eq!(err.to_string(), "Format error");
}

#[test]
fn test_io_error_conversion() {
    let std_io = std::io::Error::new(std::io::ErrorKind::NotFound, "file not found");
    let err: Error = Error::Io(std_io);
    let back_to_io: std::io::Error = err.into();
    assert_eq!(back_to_io.kind(), std::io::ErrorKind::NotFound);

    let err = Error::AllocError;
    let io_err: std::io::Error = err.into();
    assert_eq!(io_err.kind(), std::io::ErrorKind::Other);
    assert_eq!(io_err.to_string(), "Allocation failed");
}

#[test]
fn test_info() {
    assert_eq!(version(), "0.1.0");
    assert_eq!(msrv(), "1.75.0");
    let active = active_features();
    assert!(active.contains(&"std"));
    assert!(active.contains(&"alloc"));
}

fn test_bail_func(value: bool) -> Result<()> {
    if value {
        return Err(Error::Custom("bailed"));
    }
    Ok(())
}

fn test_ensure_func(value: bool) -> Result<()> {
    if !value {
        return Err(Error::Custom("not true"));
    }
    Ok(())
}

#[test]
fn test_macros() {
    const _: () = {
        if !(1 + 1 == 2) {
            panic!("Static assertion failed");
        }
    };

    assert!(test_bail_func(false).is_ok());
    let err = test_bail_func(true).unwrap_err();
    assert_eq!(err.to_string(), "Custom error: bailed");

    assert!(test_ensure_func(true).is_ok());
    let err = test_ensure_func(false).unwrap_err();
    assert_eq!(err.to_string(), "Custom error: not true");
}

#[test]
fn test_estimate_size() {
    let val: u32 = 42;
    assert_eq!(val.heap_size(), 0);
    assert_eq!(val.total_size(), core::mem::size_of::<u32>());

    struct Dummy {
        heap_allocated: usize,
    }

    impl EstimateSize for Dummy {
        fn heap_size(&self) -> usize {
            self.heap_allocated
        }
    }

    let dummy = Dummy {
        heap_allocated: 100,
    };
    assert_eq!(dummy.heap_size(), 100);
    assert_eq!(dummy.total_size(), core::mem::size_of::<Dummy>() + 100);
}

#[test]
fn test_integration_errors_and_macros() {
    fn try_check(val: i32) -> Result<()> {
        if !(val > 0) {
            return Err(Error::OutOfBounds {
                index: val as usize,
                len: 100,
            });
        }
        if val == 42 {
            return Err(Error::Custom("special code 42"));
        }
        Ok(())
    }

    assert!(try_check(10).is_ok());

    let err1 = try_check(-5).unwrap_err();
    match err1 {
        Error::OutOfBounds { index, len } => {
            assert_eq!(index, usize::MAX - 4);
            assert_eq!(len, 100);
        }
        _ => panic!("Expected OutOfBounds error"),
    }

    let err2 = try_check(42).unwrap_err();
    assert_eq!(err2.to_string(), "Custom error: special code 42");
}

#[test]
fn test_integration_zero_copy_and_estimate_size() {
    #[derive(Copy, Clone, Debug)]
    struct MyPoint {
        x: i32,
        y: i32,
    }

    impl ZeroCopy for MyPoint {}

    let point = MyPoint { x: 10, y: 20 };
    assert_eq!(point.x, 10);
    assert_eq!(point.y, 20);
    assert_eq!(point.heap_size(), 0);
    assert_eq!(point.total_size(), std::mem::size_of::<MyPoint>());
}

#[test]
fn error_conversions_from_format_and_io() {
    let e: Error = core::fmt::Error.into();
    assert_eq!(e.to_string(), "Format error");
    let io = std::io::Error::new(std::io::ErrorKind::Other, "disk");
    let e: Error = io.into();
    assert_eq!(e.to_string(), "I/O error: disk");
    assert_eq!(
        Error::OutOfBounds { index: 0, len: 18446744073709551615 }.to_string(),
        "Out of bounds: index 0 is out of bounds for length 18446744073709551615"
    );
}
