//! Kinds of element-wise interval comparison.

use vstd::prelude::*;

verus! {

/// An element-wise comparison: `Eq`/`Ne` test interval overlap, the
/// ordering comparisons test strict endpoint ordering.
#[derive(Clone, Copy, Debug, PartialEq, Eq, Structural)]
pub enum Cmp {
    Eq,
    Ne,
    Lt,
    Le,
    Gt,
    Ge,
}

} // verus!
