//! Byte-offset ranges into a source buffer.

use vstd::prelude::*;

verus! {

/// A half-open interval of byte offsets into a source string.  Every token
/// and every diagnostic is anchored to such a range.
#[derive(Clone, Copy, Debug, PartialEq, Eq, Structural)]
pub struct SourceRange {
    pub start: usize,
    pub end: usize,
}

impl SourceRange {
    /// A range is well formed when it does not run backwards.
    pub open spec fn wf(self) -> bool {
        self.start <= self.end
    }
}

} // verus!
