//! The shape of a region-based coverage report.

use vstd::prelude::*;
use vstd::std_specs::convert::FromSpecImpl;

verus! {

/// A whole report. Only its first datum is ever looked at.
pub struct LLVMCov<'a> {
    pub data: Vec<LLVMCovDatum<'a>>,
    pub format_type: &'a str,
    pub version: &'a str,
}

/// One export of coverage data: the files it covers.
pub struct LLVMCovDatum<'a> {
    pub files: Vec<LLVMCovFile<'a>>,
}

/// The coverage of one source file, as region boundaries in document order.
pub struct LLVMCovFile<'a> {
    pub expansions: Vec<&'a str>,
    pub filename: &'a str,
    pub segments: Vec<LLVMCovSegment>,
}

/// A boundary at (`line`, `col`), both 1-based. One that is a region entry
/// opens a region with the given count; any other closes the innermost open
/// region.
#[derive(Clone, Copy, Debug, PartialEq, Eq, Structural)]
pub struct LLVMCovSegment {
    pub line: usize,
    pub col: usize,
    pub count: u64,
    pub has_count: bool,
    pub is_region_entry: bool,
    pub is_gap_region: bool,
}

/// A segment as reports write it: a bare tuple, in the order line, column,
/// count, has-count, region-entry, gap-region.
#[derive(Clone, Copy, Debug)]
pub struct RawSegment(pub usize, pub usize, pub u64, pub bool, pub bool, pub bool);

impl<'a> LLVMCov<'a> {
    /// The files of the first datum, the only one that is read. None where
    /// the report has no datum.
    pub fn files(&self) -> (files: Option<&Vec<LLVMCovFile<'a>>>)
        ensures
            files is Some <==> self.data@.len() > 0,
            files matches Some(list) ==> *list == self.data@[0].files,
    {
        if self.data.len() > 0 {
            Some(&self.data[0].files)
        } else {
            None
        }
    }
}

impl LLVMCovSegment {
    /// The place of the boundary.
    pub open spec fn position(self) -> (usize, usize) {
        (self.line, self.col)
    }
}

impl From<RawSegment> for LLVMCovSegment {
    fn from(raw: RawSegment) -> (segment: Self) {
        let RawSegment(line, col, count, has_count, is_region_entry, is_gap_region) = raw;

        Self { line, col, count, has_count, is_region_entry, is_gap_region }
    }
}

impl FromSpecImpl<RawSegment> for LLVMCovSegment {
    open spec fn obeys_from_spec() -> bool {
        true
    }

    open spec fn from_spec(raw: RawSegment) -> Self {
        LLVMCovSegment {
            line: raw.0,
            col: raw.1,
            count: raw.2,
            has_count: raw.3,
            is_region_entry: raw.4,
            is_gap_region: raw.5,
        }
    }
}

} // verus!
