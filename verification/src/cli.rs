//! The defaults of the command-line settings that are not floating point.
use vstd::prelude::*;

verus! {

/// The default interval between two logs of the error: none (`-1`).
pub fn default_log_error() -> (r: i32)
    ensures
        r == -1,
{
    -1
}

/// The default of the boolean switches: off.
pub fn default_bool() -> (r: bool)
    ensures
        !r,
{
    false
}

/// The default of the optional limits: none.
pub fn default_option() -> (r: Option<usize>)
    ensures
        r is None,
{
    None
}

} // verus!
