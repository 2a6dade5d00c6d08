use vstd::prelude::*;

verus! {

/// Returns the semantic version of this library.
pub fn version() -> (r: &'static str)
    ensures
        r@ == "0.1.0"@,
{
    "0.1.0"
}

/// Returns the minimum supported Rust version.
pub fn msrv() -> (r: &'static str)
    ensures
        r@ == "1.75.0"@,
{
    "1.75.0"
}

/// Returns the names of the features this build was compiled with.
pub fn active_features() -> (r: &'static [&'static str])
    ensures
        r@.len() == 2,
        r@[0]@ == "std"@,
        r@[1]@ == "alloc"@,
{
    let r: &'static [&'static str] = &["std", "alloc"];
    r
}

} // verus!
