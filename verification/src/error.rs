use vstd::prelude::*;
use vstd::string::*;

verus! {

#[verifier::external_type_specification]
#[verifier::external_body]
pub struct ExIoError(std::io::Error);

#[verifier::external_type_specification]
#[verifier::external_body]
pub struct ExFmtError(core::fmt::Error);

/// Core error type representing all failure modes of the library.
#[derive(Debug)]
#[non_exhaustive]
pub enum Error {
    /// An operation exceeded a capacity or buffer limit.
    CapacityOverflow {
        /// The maximum allowed capacity.
        limit: usize,
        /// The requested capacity that caused the overflow.
        requested: usize,
    },
    /// An index was out of bounds.
    OutOfBounds {
        /// The accessed index.
        index: usize,
        /// The total length of the sequence.
        len: usize,
    },
    /// Data validation or parsing failed.
    InvalidData {
        /// Why the data is invalid.
        reason: &'static str,
    },
    /// A memory allocator could not provide the requested block.
    AllocError,
    /// A limited resource is depleted.
    ResourceExhausted {
        /// The name of the exhausted resource.
        resource: &'static str,
    },
    /// An execution was explicitly cancelled.
    Cancellation,
    /// Wrapper around a standard library I/O error.
    Io(std::io::Error),
    /// A generic, custom error.
    Custom(&'static str),
    /// String formatting failed.
    Format,
}

/// The character of a decimal digit.
pub open spec fn digit_char(d: nat) -> char {
    (48 + d) as char
}

/// The decimal representation of a natural number, most significant digit first.
pub open spec fn decimal(n: nat) -> Seq<char>
    decreases n,
{
    if n < 10 {
        seq![digit_char(n)]
    } else {
        decimal(n / 10).push(digit_char(n % 10))
    }
}

/// The message of an error, as its `Display` form renders it.
/// The text of an I/O error is the I/O error's own message, which is not modelled.
pub open spec fn error_message(e: Error) -> Seq<char> {
    match e {
        Error::CapacityOverflow { limit, requested } => "Capacity overflow: limit is "@ + decimal(
            limit as nat,
        ) + ", requested "@ + decimal(requested as nat),
        Error::OutOfBounds { index, len } => "Out of bounds: index "@ + decimal(index as nat)
            + " is out of bounds for length "@ + decimal(len as nat),
        Error::InvalidData { reason } => "Invalid data: "@ + reason@,
        Error::AllocError => "Allocation failed"@,
        Error::ResourceExhausted { resource } => "Resource exhausted: "@ + resource@,
        Error::Cancellation => "Operation cancelled"@,
        Error::Io(_) => "I/O error: "@,
        Error::Custom(msg) => "Custom error: "@ + msg@,
        Error::Format => "Format error"@,
    }
}

fn digit_str(d: usize) -> (r: &'static str)
    requires
        d < 10,
    ensures
        r@ == seq![digit_char(d as nat)],
{
    proof {
        reveal_strlit("0");
        reveal_strlit("1");
        reveal_strlit("2");
        reveal_strlit("3");
        reveal_strlit("4");
        reveal_strlit("5");
        reveal_strlit("6");
        reveal_strlit("7");
        reveal_strlit("8");
        reveal_strlit("9");
    }
    let r = match d {
        0 => "0",
        1 => "1",
        2 => "2",
        3 => "3",
        4 => "4",
        5 => "5",
        6 => "6",
        7 => "7",
        8 => "8",
        _ => "9",
    };
    assert(r@ =~= seq![digit_char(d as nat)]);
    r
}

/// Appends the decimal representation of `n` to `s`.
fn push_decimal(s: &mut String, n: usize)
    ensures
        final(s)@ == old(s)@ + decimal(n as nat),
    decreases n,
{
    if n >= 10 {
        push_decimal(s, n / 10);
    }
    s.append(digit_str(n % 10));
    proof {
        if n >= 10 {
            assert(final(s)@ =~= old(s)@ + decimal(n as nat));
        } else {
            assert(final(s)@ =~= old(s)@ + decimal(n as nat));
        }
    }
}

/// The text of an I/O error, as its `Display` form renders it.
///
/// Trusted: calls `ToString::to_string` on `std::io::Error`; nothing is claimed of the text.
#[verifier::external_body]
fn io_error_text(e: &std::io::Error) -> String {
    e.to_string()
}

impl Error {
    /// Renders the error message.
    pub fn to_string(&self) -> (r: String)
        ensures
            !(*self is Io) ==> r@ == error_message(*self),
            *self is Io ==> r@.len() >= "I/O error: "@.len() && r@.subrange(
                0,
                "I/O error: "@.len() as int,
            ) == "I/O error: "@,
    {
        match self {
            Error::CapacityOverflow { limit, requested } => {
                let mut s = String::from_str("Capacity overflow: limit is ");
                push_decimal(&mut s, *limit);
                s.append(", requested ");
                push_decimal(&mut s, *requested);
                assert(s@ =~= error_message(*self));
                s
            },
            Error::OutOfBounds { index, len } => {
                let mut s = String::from_str("Out of bounds: index ");
                push_decimal(&mut s, *index);
                s.append(" is out of bounds for length ");
                push_decimal(&mut s, *len);
                assert(s@ =~= error_message(*self));
                s
            },
            Error::InvalidData { reason } => {
                let mut s = String::from_str("Invalid data: ");
                s.append(reason);
                s
            },
            Error::AllocError => String::from_str("Allocation failed"),
            Error::ResourceExhausted { resource } => {
                let mut s = String::from_str("Resource exhausted: ");
                s.append(resource);
                s
            },
            Error::Cancellation => String::from_str("Operation cancelled"),
            Error::Io(e) => {
                let mut s = String::from_str("I/O error: ");
                let t = io_error_text(e);
                s.append(t.as_str());
                assert(s@.subrange(0, "I/O error: "@.len() as int) =~= "I/O error: "@);
                s
            },
            Error::Custom(msg) => {
                let mut s = String::from_str("Custom error: ");
                s.append(msg);
                s
            },
            Error::Format => String::from_str("Format error"),
        }
    }
}

impl From<std::io::Error> for Error {
    fn from(e: std::io::Error) -> (r: Self) {
        Error::Io(e)
    }
}

impl vstd::std_specs::convert::FromSpecImpl<std::io::Error> for Error {
    open spec fn obeys_from_spec() -> bool {
        true
    }

    open spec fn from_spec(e: std::io::Error) -> Self {
        Error::Io(e)
    }
}

impl From<core::fmt::Error> for Error {
    fn from(e: core::fmt::Error) -> (r: Self) {
        Error::Format
    }
}

impl vstd::std_specs::convert::FromSpecImpl<core::fmt::Error> for Error {
    open spec fn obeys_from_spec() -> bool {
        true
    }

    open spec fn from_spec(e: core::fmt::Error) -> Self {
        Error::Format
    }
}

/// An I/O error of kind `Other` carrying `message`.
///
/// Trusted: calls `std::io::Error::new` with `std::io::ErrorKind::Other`; nothing is
/// claimed of the error that comes back.
#[verifier::external_body]
fn io_error_other(message: String) -> std::io::Error {
    std::io::Error::new(std::io::ErrorKind::Other, message)
}

impl From<Error> for std::io::Error {
    /// Unwraps an I/O error; any other error becomes an I/O error of kind `Other`
    /// whose message is the error's message.
    fn from(err: Error) -> (r: std::io::Error)
        ensures
            err matches Error::Io(e) ==> r == e,
    {
        match err {
            Error::Io(e) => e,
            other => io_error_other(other.to_string()),
        }
    }
}

impl vstd::std_specs::convert::FromSpecImpl<Error> for std::io::Error {
    /// The message of a converted error is not modelled, so no conversion is claimed.
    open spec fn obeys_from_spec() -> bool {
        false
    }

    open spec fn from_spec(err: Error) -> std::io::Error {
        match err {
            Error::Io(e) => e,
            _ => vstd::pervasive::arbitrary(),
        }
    }
}

/// Result alias with the library's error type.
pub type Result<T, E = Error> = core::result::Result<T, E>;

} // verus!
