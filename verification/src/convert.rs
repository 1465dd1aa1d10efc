//! From the segments of one file to the coverage of its lines.

use std::collections::BTreeMap;
use vstd::prelude::*;
use vstd::string::StrSliceExecFns;
use crate::codecov::{CodeCovLineCoverage, CodeCovLineHit};
use crate::lines::{aggregate, aggregated, hits_by_line};
use crate::llvm::LLVMCovSegment;
use crate::permutation::lemma_map_values_permutation;
use crate::region::{
    decompose,
    decomposed,
    lemma_decomposed_iff_nested,
    well_nested,
    Region,
    UnbalancedSegments,
};
use crate::string_seek::{
    content_fits,
    get_region_text,
    region_text,
    shrinkwrap_checked,
    shrinkwrapped,
    spans_text,
};

verus! {

/// `region` narrowed to the code that it spans in `text`. It is left as it
/// is where the narrowed ends could not be held in a `usize` pair.
pub open spec fn shrinkwrapped_in(region: Region, text: Seq<char>) -> Region {
    let span = region_text(text, region);
    if content_fits(region.start, span) {
        shrinkwrapped(region, span)
    } else {
        region
    }
}

/// Whether `text` can be used to narrow `regions`: it holds both ends of
/// each of them, and its length leaves room in a `usize`.
pub open spec fn holds_all(text: Seq<char>, regions: Seq<Region>) -> bool {
    &&& text.len() < usize::MAX
    &&& forall|i: int| 0 <= i < regions.len() ==> spans_text(text, #[trigger] regions[i])
}

/// Each of `regions` narrowed to the code that it spans in `text`, or all of
/// them as they are where `text` cannot be used.
pub open spec fn shrinkwrapped_all(regions: Seq<Region>, text: Seq<char>) -> Seq<Region> {
    if holds_all(text, regions) {
        Seq::new(regions.len(), |i: int| shrinkwrapped_in(regions[i], text))
    } else {
        regions
    }
}

/// The lines of a file with their hits, from its segments and, where it
/// could be read, its text. None where a segment closes a region while none
/// is open.
pub open spec fn file_coverage(segments: Seq<LLVMCovSegment>, source: Option<Seq<char>>) -> Option<
    Map<usize, Seq<CodeCovLineHit>>,
> {
    match decomposed(segments) {
        None => None,
        Some(d) => Some(
            aggregated(
                match source {
                    Some(text) => shrinkwrapped_all(d.intervals, text),
                    None => d.intervals,
                },
            ),
        ),
    }
}

/// The characters of a source text that may be missing.
pub open spec fn text_of(source: Option<&str>) -> Option<Seq<char>> {
    match source {
        Some(text) => Some(text@),
        None => None,
    }
}

/// A file as a report and the disk give it: its name, its segments, and its
/// text where that could be read.
pub struct SourceFile {
    pub name: Seq<char>,
    pub segments: Seq<LLVMCovSegment>,
    pub text: Option<Seq<char>>,
}

/// A file's name with the coverage of its lines.
pub open spec fn named_coverage(file: SourceFile) -> (Seq<char>, Option<Map<usize, Seq<CodeCovLineHit>>>) {
    (file.name, file_coverage(file.segments, file.text))
}

/// The name and the coverage of each of `files`, in their order.
pub open spec fn files_coverage(files: Seq<SourceFile>) -> Seq<
    (Seq<char>, Option<Map<usize, Seq<CodeCovLineHit>>>),
> {
    files.map_values(|file: SourceFile| named_coverage(file))
}

/// Files are covered independently of each other: what a file's lines get
/// depends on its own segments and text alone. So the same files, taken in
/// any order, give the same names with the same coverage, in that order.
pub proof fn lemma_files_independent(files: Seq<SourceFile>, reordered: Seq<SourceFile>)
    requires
        files.to_multiset() == reordered.to_multiset(),
    ensures
        files_coverage(files).to_multiset() == files_coverage(reordered).to_multiset(),
        forall|i: int|
            0 <= i < files.len() ==> #[trigger] files_coverage(files)[i] == named_coverage(files[i]),
{
    let each = |file: SourceFile| named_coverage(file);
    lemma_map_values_permutation(files, reordered, each);
    assert(files.map_values(each) =~= files_coverage(files));
    assert(reordered.map_values(each) =~= files_coverage(reordered));
}

/// Narrows every region to the code that it spans in `file_content`. Where
/// the text ends before an end of one of the regions, all of them are handed
/// back as they came.
pub fn shrinkwrap_regions(regions: Vec<Region>, file_content: &str) -> (wrapped: Vec<Region>)
    ensures
        wrapped@ == shrinkwrapped_all(regions@, file_content@),
{
    if file_content.unicode_len() == usize::MAX {
        return regions;
    }
    let asked = regions.clone();
    assert(asked@ =~= regions@);
    match get_region_text(asked, file_content) {
        Err(_) => regions,
        Ok(pairs) => {
            let mut wrapped: Vec<Region> = Vec::new();
            for i in 0..pairs.len()
                invariant
                    pairs@.len() == regions@.len(),
                    forall|j: int|
                        0 <= j < pairs@.len() ==> {
                            &&& (#[trigger] pairs@[j]).0 == regions@[j]
                            &&& pairs@[j].1@ == region_text(file_content@, regions@[j])
                        },
                    wrapped@.len() == i,
                    forall|j: int|
                        0 <= j < i ==> #[trigger] wrapped@[j] == shrinkwrapped_in(
                            regions@[j],
                            file_content@,
                        ),
            {
                let (region, text) = pairs[i];
                match shrinkwrap_checked(region, text) {
                    Some(narrowed) => wrapped.push(narrowed),
                    None => wrapped.push(region),
                }
            }
            assert(wrapped@ =~= shrinkwrapped_all(regions@, file_content@));
            wrapped
        },
    }
}

/// The coverage of the lines of one file. Its segments are cut into
/// intervals; where the file's text is at hand and holds them, the intervals
/// are narrowed to their code; and each interval is then recorded on the
/// lines from its first to its last. Fails where a segment closes a region
/// while none is open.
pub fn cover_file(segments: &Vec<LLVMCovSegment>, source: Option<&str>) -> (lines: Result<
    BTreeMap<usize, CodeCovLineCoverage>,
    UnbalancedSegments,
>)
    ensures
        lines is Ok <==> well_nested(segments@),
        lines matches Ok(map) ==> Some(hits_by_line(map@)) == file_coverage(
            segments@,
            text_of(source),
        ),
{
    proof {
        lemma_decomposed_iff_nested(segments@);
    }
    let region_list = match decompose(segments) {
        Ok(list) => list,
        Err(unbalanced) => {
            return Err(unbalanced);
        },
    };
    let region_list = match source {
        Some(file_content) => shrinkwrap_regions(region_list, file_content),
        None => region_list,
    };
    Ok(aggregate(&region_list))
}

} // verus!
