//! Source locations shared by every later phase.

use vstd::prelude::*;

verus! {

/// A half-open range `start..end` of byte offsets into the source text.
#[derive(Debug, Clone, Copy, PartialEq, Eq, Structural)]
pub struct Span {
    pub start: u32,
    pub end: u32,
}

} // verus!
