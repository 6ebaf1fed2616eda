//! The decisions behind the command line: whether an invocation is well
//! formed, and the usage line shown when it is not. Reading the arguments,
//! printing and exiting stay in the surrounding program.

use vstd::prelude::*;

verus! {

/// An invocation is well formed when the argument vector holds the program
/// name and exactly two path lists.
pub fn invocation_ok(argc: usize) -> (r: bool)
    ensures
        r <==> argc == 3,
{
    argc == 3
}

/// The usage line for a malformed invocation, built around the program name.
pub fn usage_message(program: &str) -> (r: String)
    ensures
        r@ == "Usage: "@ + program@ + " PATH1 PATH2"@,
{
    let mut s = String::from_str("Usage: ");
    s.append(program);
    s.append(" PATH1 PATH2");
    s
}

} // verus!
