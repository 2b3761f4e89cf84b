//! The configuration file, which holds the password.
use vstd::prelude::*;

verus! {

/// Whether a file of that mode is accessible to users other than its owner. Written in octal, the
/// last digit of a mode is for anyone, and the one before it is for the group of the file.
pub fn accessible_to_others(mode: u32) -> (r: bool)
    ensures
        r <==> mode % 8 != 0 || mode / 8 % 8 != 0,
{
    let others = mode & 0o077;
    assert(others == mode % 64) by (bit_vector)
        requires
            others == mode & 0o077,
    ;
    others != 0
}

} // verus!
