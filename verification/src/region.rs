//! Cutting nested regions into flat intervals.

use vstd::prelude::*;
use crate::llvm::LLVMCovSegment;

verus! {

/// A (line, column) pair as a pair of integers.
pub open spec fn point(p: (usize, usize)) -> (int, int) {
    (p.0 as int, p.1 as int)
}

/// Whether position `a` comes no later than `b`: on an earlier line, or on
/// the same line and no further right.
pub open spec fn pos_le(a: (int, int), b: (int, int)) -> bool {
    a.0 < b.0 || (a.0 == b.0 && a.1 <= b.1)
}

/// An interval of source text with the count of the region it was cut from.
#[derive(Clone, Copy, Debug, PartialEq, Eq)]
pub struct Region {
    pub id: usize,
    pub start: (usize, usize),
    pub end: (usize, usize),
    pub count: u64,
    pub has_count: bool,
    pub is_gap: bool,
}

/// A region whose closing boundary has not been seen yet. `start` is where
/// the part of it that no interval accounts for begins.
#[derive(Clone, Copy, Debug, PartialEq, Eq)]
pub struct OpenRegion {
    pub id: usize,
    pub start: (usize, usize),
    pub count: u64,
    pub has_count: bool,
    pub is_gap: bool,
}

impl OpenRegion {
    /// The interval from the region's start to `end`.
    pub open spec fn closed_at(self, end: (usize, usize)) -> Region {
        Region {
            id: self.id,
            start: self.start,
            end,
            count: self.count,
            has_count: self.has_count,
            is_gap: self.is_gap,
        }
    }

    pub fn close(&self, end: (usize, usize)) -> (region: Region)
        ensures
            region == self.closed_at(end),
    {
        Region {
            id: self.id,
            start: self.start,
            end,
            count: self.count,
            has_count: self.has_count,
            is_gap: self.is_gap,
        }
    }
}

/// The error of a decomposition: a boundary closes a region while none is
/// open.
#[derive(Clone, Copy, Debug, PartialEq, Eq, Structural)]
pub struct UnbalancedSegments;

/// The region that `segment` opens, under the identifier `id`.
pub open spec fn opened_by(segment: LLVMCovSegment, id: usize) -> OpenRegion {
    OpenRegion {
        id,
        start: segment.position(),
        count: segment.count,
        has_count: segment.has_count,
        is_gap: segment.is_gap_region,
    }
}

/// The interval that ends at `segment`: the innermost open region, from
/// where it is not yet accounted for up to the segment. None where no region
/// is open.
pub open spec fn interval_at(stack: Seq<OpenRegion>, segment: LLVMCovSegment) -> Option<Region> {
    if stack.len() == 0 {
        None
    } else {
        Some(stack.last().closed_at(segment.position()))
    }
}

/// The open regions after `segment`, innermost last. An entry opens a region
/// under `next_id`. Any other segment closes the innermost region, and what
/// is left of the one around it begins at the segment.
pub open spec fn stack_after(
    stack: Seq<OpenRegion>,
    segment: LLVMCovSegment,
    next_id: usize,
) -> Seq<OpenRegion> {
    if segment.is_region_entry {
        stack.push(opened_by(segment, next_id))
    } else {
        let outer = stack.drop_last();
        if outer.len() == 0 {
            outer
        } else {
            outer.update(
                outer.len() - 1,
                OpenRegion { start: segment.position(), ..outer.last() },
            )
        }
    }
}

/// Intervals follow each other without a gap: the interval that ends at a
/// segment runs from where the innermost open region was left to the
/// segment, and whatever region is innermost afterwards goes on from the
/// segment.
pub proof fn lemma_next_interval_starts_where_this_ends(
    stack: Seq<OpenRegion>,
    segment: LLVMCovSegment,
    next_id: usize,
)
    requires
        stack.len() > 0,
    ensures
        interval_at(stack, segment) matches Some(interval) && interval.start
            == stack.last().start && interval.end == segment.position(),
        stack_after(stack, segment, next_id).len() > 0 ==> stack_after(
            stack,
            segment,
            next_id,
        ).last().start == segment.position(),
{
}

/// Takes one segment: hands out the interval that ends there, if a region is
/// open, and opens or closes a region as the segment says. Fails, and
/// changes nothing, where the segment closes a region and none is open.
pub fn handle_segment(
    stack: &mut Vec<OpenRegion>,
    segment: &LLVMCovSegment,
    next_region_id: &mut usize,
) -> (emitted: Result<Option<Region>, UnbalancedSegments>)
    requires
        segment.is_region_entry ==> *old(next_region_id) < usize::MAX,
    ensures
        emitted is Err <==> !segment.is_region_entry && old(stack)@.len() == 0,
        emitted is Err ==> final(stack)@ == old(stack)@ && *final(next_region_id) == *old(
            next_region_id,
        ),
        emitted matches Ok(interval) ==> {
            &&& interval == interval_at(old(stack)@, *segment)
            &&& final(stack)@ == stack_after(old(stack)@, *segment, *old(next_region_id))
            &&& *final(next_region_id) == if segment.is_region_entry {
                *old(next_region_id) + 1
            } else {
                *old(next_region_id) as int
            }
        },
{
    let end = (segment.line, segment.col);
    let depth = stack.len();
    let new_region = if depth > 0 {
        Some(stack[depth - 1].close(end))
    } else {
        None
    };

    if segment.is_region_entry {
        stack.push(
            OpenRegion {
                id: *next_region_id,
                start: (segment.line, segment.col),
                count: segment.count,
                has_count: segment.has_count,
                is_gap: segment.is_gap_region,
            },
        );
        *next_region_id += 1;
    } else {
        if depth == 0 {
            return Err(UnbalancedSegments);
        }
        stack.pop();
        if depth > 1 {
            stack[depth - 2].start = end;
        }
    }

    Ok(new_region)
}

/// How many regions are open after `segments`: one more for each entry, one
/// less for each other segment.
pub open spec fn depth(segments: Seq<LLVMCovSegment>) -> int
    decreases segments.len(),
{
    if segments.len() == 0 {
        0
    } else if segments.last().is_region_entry {
        depth(segments.drop_last()) + 1
    } else {
        depth(segments.drop_last()) - 1
    }
}

/// Whether no segment closes a region while none is open: whether the depth
/// is never below zero.
pub open spec fn well_nested(segments: Seq<LLVMCovSegment>) -> bool {
    forall|k: int| 0 <= k <= segments.len() ==> depth(#[trigger] segments.take(k)) >= 0
}

/// Where a decomposition stands after some segments: the regions still open,
/// innermost last, the next free identifier, and the intervals cut so far.
pub struct Decomposition {
    pub stack: Seq<OpenRegion>,
    pub next_id: nat,
    pub intervals: Seq<Region>,
}

/// The decomposition of `segments`, taken one by one from the first; None
/// where one of them closes a region while none is open.
pub open spec fn decomposed(segments: Seq<LLVMCovSegment>) -> Option<Decomposition>
    decreases segments.len(),
{
    if segments.len() == 0 {
        Some(Decomposition { stack: Seq::empty(), next_id: 0, intervals: Seq::empty() })
    } else {
        let segment = segments.last();
        match decomposed(segments.drop_last()) {
            None => None,
            Some(before) => if !segment.is_region_entry && before.stack.len() == 0 {
                None
            } else {
                Some(
                    Decomposition {
                        stack: stack_after(before.stack, segment, before.next_id as usize),
                        next_id: if segment.is_region_entry {
                            before.next_id + 1
                        } else {
                            before.next_id
                        },
                        intervals: match interval_at(before.stack, segment) {
                            Some(interval) => before.intervals.push(interval),
                            None => before.intervals,
                        },
                    },
                )
            },
        }
    }
}

/// Whether the segments come in document order: none before its
/// predecessor.
pub open spec fn in_document_order(segments: Seq<LLVMCovSegment>) -> bool {
    forall|i: int, j: int|
        0 <= i <= j < segments.len() ==> pos_le(
            point(#[trigger] segments[i].position()),
            point(#[trigger] segments[j].position()),
        )
}

/// Whether the segments describe one outermost region with whatever is
/// nested in it: a region is open from the first segment on, and only the
/// last segment closes the outermost one.
pub open spec fn one_region(segments: Seq<LLVMCovSegment>) -> bool {
    &&& segments.len() >= 2
    &&& forall|k: int| 1 <= k < segments.len() ==> depth(#[trigger] segments.take(k)) > 0
    &&& depth(segments) == 0
}

/// A decomposition succeeds on just those segments that are well nested, and
/// then it has as many regions open as the depth says.
pub proof fn lemma_decomposed_iff_nested(segments: Seq<LLVMCovSegment>)
    ensures
        decomposed(segments) is Some <==> well_nested(segments),
        decomposed(segments) is Some ==> decomposed(segments)->0.stack.len() == depth(segments),
    decreases segments.len(),
{
    assert(segments.take(segments.len() as int) =~= segments);
    if segments.len() == 0 {
        assert forall|k: int| 0 <= k <= segments.len() implies depth(#[trigger] segments.take(k))
            >= 0 by {
            assert(segments.take(k) =~= segments);
        }
    } else {
        let earlier = segments.drop_last();
        lemma_decomposed_iff_nested(earlier);
        assert forall|k: int| 0 <= k <= earlier.len() implies earlier.take(k) == segments.take(
            k,
        ) by {
            assert(earlier.take(k) =~= segments.take(k));
        }
        assert(earlier.take(earlier.len() as int) =~= earlier);
        if well_nested(segments) {
            assert forall|k: int| 0 <= k <= earlier.len() implies depth(
                #[trigger] earlier.take(k),
            ) >= 0 by {
                assert(depth(segments.take(k)) >= 0);
            }
            assert(depth(segments.take(segments.len() as int)) >= 0);
        }
        if decomposed(segments) is Some {
            assert forall|k: int| 0 <= k <= segments.len() implies depth(
                #[trigger] segments.take(k),
            ) >= 0 by {
                if k < segments.len() {
                    assert(depth(earlier.take(k)) >= 0);
                }
            }
        }
    }
}

/// A decomposition that fails on some segments fails on every sequence that
/// begins with them.
pub proof fn lemma_decomposed_prefix(segments: Seq<LLVMCovSegment>, k: int)
    requires
        0 <= k <= segments.len(),
        decomposed(segments) is Some,
    ensures
        decomposed(segments.take(k)) is Some,
        decomposed(segments.take(k))->0.next_id <= k,
    decreases segments.len() - k,
{
    if k == segments.len() {
        assert(segments.take(k) =~= segments);
        lemma_identifiers_bounded(segments);
    } else {
        lemma_decomposed_prefix(segments, k + 1);
        assert(segments.take(k + 1).drop_last() =~= segments.take(k));
        lemma_identifiers_bounded(segments.take(k));
    }
}

/// No more identifiers are given out than there are segments.
pub proof fn lemma_identifiers_bounded(segments: Seq<LLVMCovSegment>)
    requires
        decomposed(segments) is Some,
    ensures
        decomposed(segments)->0.next_id <= segments.len(),
    decreases segments.len(),
{
    if segments.len() > 0 {
        lemma_identifiers_bounded(segments.drop_last());
    }
}

/// Whether `d`, the decomposition of `segments`, is in order: every interval
/// ends no earlier than it starts and no later than the next one starts, none
/// reaches beyond the last segment, and what is left of the innermost open
/// region starts at the last segment.
pub open spec fn orderly(segments: Seq<LLVMCovSegment>, d: Decomposition) -> bool {
    &&& d.stack.len() > 0 ==> segments.len() > 0 && d.stack.last().start
        == segments.last().position()
    &&& d.intervals.len() > 0 ==> segments.len() > 0
    &&& forall|i: int|
        0 <= i < d.intervals.len() ==> {
            &&& pos_le(point((#[trigger] d.intervals[i]).start), point(d.intervals[i].end))
            &&& pos_le(point(d.intervals[i].end), point(segments.last().position()))
        }
    &&& forall|i: int, j: int|
        0 <= i < j < d.intervals.len() ==> pos_le(
            point((#[trigger] d.intervals[i]).end),
            point((#[trigger] d.intervals[j]).start),
        )
}

/// The decomposition of segments in document order is in order.
proof fn lemma_orderly(segments: Seq<LLVMCovSegment>)
    requires
        in_document_order(segments),
        decomposed(segments) is Some,
    ensures
        orderly(segments, decomposed(segments)->0),
    decreases segments.len(),
{
    if segments.len() > 0 {
        let earlier = segments.drop_last();
        let segment = segments.last();
        let before = decomposed(earlier)->0;
        let after = decomposed(segments)->0;
        assert forall|i: int, j: int| 0 <= i <= j < earlier.len() implies pos_le(
            point(#[trigger] earlier[i].position()),
            point(#[trigger] earlier[j].position()),
        ) by {
            assert(pos_le(point(segments[i].position()), point(segments[j].position())));
        }
        lemma_orderly(earlier);
        if earlier.len() > 0 {
            assert(pos_le(
                point(segments[earlier.len() - 1].position()),
                point(segments[segments.len() - 1].position()),
            ));
            assert(earlier.last() == segments[earlier.len() - 1]);
        }
        assert forall|i: int| 0 <= i < after.intervals.len() implies {
            &&& pos_le(point((#[trigger] after.intervals[i]).start), point(after.intervals[i].end))
            &&& pos_le(point(after.intervals[i].end), point(segment.position()))
        } by {
            if i < before.intervals.len() {
                assert(after.intervals[i] == before.intervals[i]);
            }
        }
        assert forall|i: int, j: int| 0 <= i < j < after.intervals.len() implies pos_le(
            point((#[trigger] after.intervals[i]).end),
            point((#[trigger] after.intervals[j]).start),
        ) by {
            assert(after.intervals[i] == before.intervals[i]);
            if j < before.intervals.len() {
                assert(after.intervals[j] == before.intervals[j]);
            }
        }
    }
}

/// Intervals do not overlap. Where the segments come in document order and
/// none closes a region that is not open, every interval ends no earlier
/// than it starts, and no later than any interval cut after it starts. So
/// the intervals come out sorted by their start as well.
pub proof fn lemma_intervals_do_not_overlap(segments: Seq<LLVMCovSegment>)
    requires
        in_document_order(segments),
        well_nested(segments),
    ensures
        decomposed(segments) is Some,
        forall|i: int|
            0 <= i < decomposed(segments)->0.intervals.len() ==> pos_le(
                point((#[trigger] decomposed(segments)->0.intervals[i]).start),
                point(decomposed(segments)->0.intervals[i].end),
            ),
        forall|i: int, j: int|
            0 <= i < j < decomposed(segments)->0.intervals.len() ==> pos_le(
                point((#[trigger] decomposed(segments)->0.intervals[i]).end),
                point((#[trigger] decomposed(segments)->0.intervals[j]).start),
            ),
        forall|i: int, j: int|
            0 <= i < j < decomposed(segments)->0.intervals.len() ==> pos_le(
                point((#[trigger] decomposed(segments)->0.intervals[i]).start),
                point((#[trigger] decomposed(segments)->0.intervals[j]).start),
            ),
{
    lemma_decomposed_iff_nested(segments);
    lemma_orderly(segments);
    let intervals = decomposed(segments)->0.intervals;
    assert forall|i: int, j: int| 0 <= i < j < intervals.len() implies pos_le(
        point((#[trigger] intervals[i]).start),
        point((#[trigger] intervals[j]).start),
    ) by {
        assert(pos_le(point(intervals[i].start), point(intervals[i].end)));
        assert(pos_le(point(intervals[i].end), point(intervals[j].start)));
    }
}

/// While a region stays open from the first segment on, each segment after
/// the first ends an interval that began at the segment before it.
proof fn lemma_cut_at_every_segment(segments: Seq<LLVMCovSegment>, k: int)
    requires
        1 <= k <= segments.len(),
        forall|m: int| 1 <= m < k ==> depth(#[trigger] segments.take(m)) > 0,
        depth(segments.take(k)) >= 0,
    ensures
        decomposed(segments.take(k)) is Some,
        decomposed(segments.take(k))->0.intervals.len() == k - 1,
        forall|i: int|
            0 <= i < k - 1 ==> {
                &&& (#[trigger] decomposed(segments.take(k))->0.intervals[i]).start
                    == segments[i].position()
                &&& decomposed(segments.take(k))->0.intervals[i].end == segments[i + 1].position()
            },
        decomposed(segments.take(k))->0.stack.len() > 0 ==> decomposed(
            segments.take(k),
        )->0.stack.last().start == segments[k - 1].position(),
    decreases k,
{
    assert(segments.take(k).drop_last() =~= segments.take(k - 1));
    lemma_decomposed_iff_nested(segments.take(k - 1));
    if k == 1 {
        assert(segments.take(0).len() == 0);
    } else {
        lemma_cut_at_every_segment(segments, k - 1);
        let before = decomposed(segments.take(k - 1))->0;
        let after = decomposed(segments.take(k))->0;
        assert forall|i: int| 0 <= i < k - 1 implies {
            &&& (#[trigger] after.intervals[i]).start == segments[i].position()
            &&& after.intervals[i].end == segments[i + 1].position()
        } by {
            if i < k - 2 {
                assert(after.intervals[i] == before.intervals[i]);
            }
        }
    }
}

/// Intervals cover a region exactly. Where the segments describe one
/// outermost region, each interval runs from one segment to the next: the
/// first starts where the region starts, each starts where the one before it
/// ends, and the last ends where the region ends.
pub proof fn lemma_intervals_cover_region(segments: Seq<LLVMCovSegment>)
    requires
        one_region(segments),
    ensures
        decomposed(segments) is Some,
        decomposed(segments)->0.intervals.len() == segments.len() - 1,
        forall|i: int|
            0 <= i < segments.len() - 1 ==> {
                &&& (#[trigger] decomposed(segments)->0.intervals[i]).start
                    == segments[i].position()
                &&& decomposed(segments)->0.intervals[i].end == segments[i + 1].position()
            },
{
    assert(segments.take(segments.len() as int) =~= segments);
    lemma_cut_at_every_segment(segments, segments.len() as int);
}

/// Cuts the regions that `segments` describe into intervals: one from each
/// segment inside a region to the next segment, with the count and flags of
/// the innermost region open between the two. Regions still open after the
/// last segment give no further interval. Fails where a segment closes a
/// region while none is open.
pub fn decompose(segments: &Vec<LLVMCovSegment>) -> (intervals: Result<
    Vec<Region>,
    UnbalancedSegments,
>)
    ensures
        intervals is Ok <==> well_nested(segments@),
        intervals matches Ok(list) ==> list@ == decomposed(segments@)->0.intervals,
{
    let mut region_list = Vec::<Region>::new();
    let mut region_stack = Vec::<OpenRegion>::new();
    let mut next_region_id: usize = 0;
    proof {
        lemma_decomposed_iff_nested(segments@);
    }

    for i in 0..segments.len()
        invariant
            next_region_id <= i,
            decomposed(segments@.take(i as int)) == Some(
                Decomposition {
                    stack: region_stack@,
                    next_id: next_region_id as nat,
                    intervals: region_list@,
                },
            ),
    {
        proof {
            assert(segments@.take(i + 1).drop_last() =~= segments@.take(i as int));
        }
        match handle_segment(&mut region_stack, &segments[i], &mut next_region_id) {
            Ok(Some(r)) => {
                region_list.push(r);
            },
            Ok(None) => {},
            Err(unbalanced) => {
                proof {
                    lemma_decomposed_iff_nested(segments@);
                    if decomposed(segments@) is Some {
                        lemma_decomposed_prefix(segments@, i + 1);
                    }
                }
                return Err(unbalanced);
            },
        }
    }

    proof {
        assert(segments@.take(segments@.len() as int) =~= segments@);
    }
    Ok(region_list)
}

} // verus!
