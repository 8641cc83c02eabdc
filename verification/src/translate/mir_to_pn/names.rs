//! The names of transitions.

use crate::text::{decimal, index_text};
use vstd::prelude::*;

verus! {

/// The name of the transition of a block.
pub open spec fn transition_name(name: Seq<char>, bb: usize, kind: Seq<char>) -> Seq<char> {
    name + "_"@ + decimal(bb as nat) + "_"@ + kind
}

/// The name of one of several transitions of a block.
pub open spec fn numbered_name(name: Seq<char>, bb: usize, kind: Seq<char>, n: nat) -> Seq<char> {
    transition_name(name, bb, kind) + "_"@ + decimal(n)
}

/// The name of the transition of a block.
pub fn transition_text(name: &str, bb: usize, kind: &str) -> (r: String)
    ensures
        r@ == transition_name(name@, bb, kind@),
{
    name.to_owned().concat("_").concat(index_text(bb).as_str()).concat("_").concat(kind)
}

/// The name of one of several transitions of a block.
pub fn numbered_text(name: &str, bb: usize, kind: &str, n: usize) -> (r: String)
    ensures
        r@ == numbered_name(name@, bb, kind@, n as nat),
{
    transition_text(name, bb, kind).concat("_").concat(index_text(n).as_str())
}

} // verus!
