use vstd::prelude::*;

verus! {

/// The length of long lists in a debug build, when the environment does not choose it.
pub const DEBUG_LONG_LIST_LENGTH: u32 = 1_000_000;

/// The length of long lists in a release build, when the environment does not choose it.
pub const RELEASE_LONG_LIST_LENGTH: u32 = 2_000_000;

/// The depth of degenerate shapes in a debug build, when the environment does not choose it.
pub const DEBUG_DEGENERATE_DEPTH: u32 = 28;

/// The depth of degenerate shapes in a release build, when the environment does not choose it.
pub const RELEASE_DEGENERATE_DEPTH: u32 = 33;

/// The length of long lists: the value that the environment gives, if any, else the default
/// of the build (`debug_build` tells whether it is a debug build).
pub fn long_list_length(env_value: Option<u32>, debug_build: bool) -> (r: u32)
    ensures
        r == match env_value {
            Some(v) => v,
            None => if debug_build {
                DEBUG_LONG_LIST_LENGTH
            } else {
                RELEASE_LONG_LIST_LENGTH
            },
        },
{
    match env_value {
        Some(v) => v,
        None => if debug_build {
            DEBUG_LONG_LIST_LENGTH
        } else {
            RELEASE_LONG_LIST_LENGTH
        },
    }
}

/// The depth of degenerate shapes: the value that the environment gives, if any, else the
/// default of the build (`debug_build` tells whether it is a debug build).
pub fn degenerate_depth(env_value: Option<u32>, debug_build: bool) -> (r: u32)
    ensures
        r == match env_value {
            Some(v) => v,
            None => if debug_build {
                DEBUG_DEGENERATE_DEPTH
            } else {
                RELEASE_DEGENERATE_DEPTH
            },
        },
{
    match env_value {
        Some(v) => v,
        None => if debug_build {
            DEBUG_DEGENERATE_DEPTH
        } else {
            RELEASE_DEGENERATE_DEPTH
        },
    }
}

} // verus!
