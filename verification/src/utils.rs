use vstd::prelude::*;

verus! {

/// Convert a result that can only be its "ok" variant into its contained value.
pub fn into_ok<T>(r: Result<T, core::convert::Infallible>) -> (v: T)
    requires
        r is Ok,
    ensures
        r == Ok::<T, core::convert::Infallible>(v),
{
    r.unwrap()
}

} // verus!
