use vstd::prelude::*;

verus! {

/// A stone
///
/// Either black, white or empty.
#[derive(Copy, PartialEq, Clone, Eq, Hash, Debug, Structural)]
pub enum Stone {
    Black,
    White,
    Empty,
}

} // verus!
